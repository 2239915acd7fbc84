//! Argument-rewriting engine for compiler/linker invocations.
//!
//! The crate tokenizes and serializes response-file text, holds the
//! top-level argument list together with the token lists of referenced
//! response files, and applies composable transformations (remove,
//! replace, anchored relocation, static/dynamic link-mode toggling)
//! uniformly over both levels.  A finalization step computes the rewritten
//! response-file contents and substitutes the reference tokens.

pub mod chars;
pub mod codec;
pub mod directive;
pub mod finalize;
pub mod store;
pub mod linkmode;
pub mod relocate;
pub mod transform;
pub mod strutil;
