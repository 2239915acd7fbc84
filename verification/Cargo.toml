[package]
name = "clw_rewrite"
version = "0.1.0"
edition = "2021"
publish = false

[dependencies]
anyhow = "=1.0.104"
log = "=0.4.34"
simplelog = "=0.12.2"
