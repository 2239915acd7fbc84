use clw_rewrite::directive::apply_all;
use clw_rewrite::directive::classify_argument;
use clw_rewrite::directive::parse_argument;
use clw_rewrite::directive::ArgumentKind;
use clw_rewrite::directive::Directive;
use clw_rewrite::directive::ParsedArgument;
use clw_rewrite::store::ArgumentStore;

fn strs(v: &[&str]) -> Vec<String> {
    v.iter().map(|s| s.to_string()).collect()
}

#[test]
fn parse_recognizes_config_options() {
    assert!(matches!(parse_argument("just-print"), ParsedArgument::JustPrint));
    assert!(matches!(parse_argument("before-print"), ParsedArgument::BeforePrint));
    match parse_argument("log-file=/tmp/x.log") {
        ParsedArgument::LogFile(p) => assert_eq!(p, "/tmp/x.log"),
        _ => panic!("expected a log-file option"),
    }
    match parse_argument("command=/usr/bin/cc") {
        ParsedArgument::CommandPath(p) => assert_eq!(p, "/usr/bin/cc"),
        _ => panic!("expected a command option"),
    }
    match parse_argument("work-dir=/src") {
        ParsedArgument::WorkDir(p) => assert_eq!(p, "/src"),
        _ => panic!("expected a work-dir option"),
    }
    match parse_argument("redirect-stdout=out.txt") {
        ParsedArgument::RedirectStdout(p) => assert_eq!(p, "out.txt"),
        _ => panic!("expected a redirect-stdout option"),
    }
    match parse_argument("redirect-stderr=err.txt") {
        ParsedArgument::RedirectStderr(p) => assert_eq!(p, "err.txt"),
        _ => panic!("expected a redirect-stderr option"),
    }
}

#[test]
fn parse_recognizes_remove_and_replace() {
    match parse_argument("remove=-g") {
        ParsedArgument::Transform(Directive::Remove { key }) => assert_eq!(key, "-g"),
        _ => panic!("expected a remove directive"),
    }
    match parse_argument("replace--O2=-O3") {
        ParsedArgument::Transform(Directive::Replace { key, value }) => {
            assert_eq!(key, "-O2");
            assert_eq!(value, "-O3");
        },
        _ => panic!("expected a replace directive"),
    }
    // The value keeps everything after the first `=`.
    match parse_argument("replace-a=b=c") {
        ParsedArgument::Transform(Directive::Replace { key, value }) => {
            assert_eq!(key, "a");
            assert_eq!(value, "b=c");
        },
        _ => panic!("expected a replace directive"),
    }
}

#[test]
fn parse_recognizes_link_modes() {
    match parse_argument("static-link=foo.lib") {
        ParsedArgument::Transform(Directive::LinkMode { key, dynamic, linker }) => {
            assert_eq!(key, "foo.lib");
            assert!(!dynamic);
            assert!(linker);
        },
        _ => panic!("expected a link-mode directive"),
    }
    match parse_argument("dynamic-link-compiler=bar") {
        ParsedArgument::Transform(Directive::LinkMode { key, dynamic, linker }) => {
            assert_eq!(key, "bar");
            assert!(dynamic);
            assert!(!linker);
        },
        _ => panic!("expected a link-mode directive"),
    }
}

#[test]
fn parse_recognizes_relocations() {
    match parse_argument("move-back=lib") {
        ParsedArgument::Transform(
            Directive::Relocate { value, anchor, anchor_is_before, to_front },
        ) => {
            assert_eq!(value, "lib");
            assert!(anchor.is_none());
            assert!(anchor_is_before);
            assert!(!to_front);
        },
        _ => panic!("expected a relocation directive"),
    }
    match parse_argument("move-front-after-anch=val") {
        ParsedArgument::Transform(
            Directive::Relocate { value, anchor, anchor_is_before, to_front },
        ) => {
            assert_eq!(value, "val");
            assert_eq!(anchor.as_deref(), Some("anch"));
            assert!(!anchor_is_before);
            assert!(to_front);
        },
        _ => panic!("expected a relocation directive"),
    }
    match parse_argument("move-back-before-anch=val") {
        ParsedArgument::Transform(
            Directive::Relocate { value, anchor, anchor_is_before, to_front },
        ) => {
            assert_eq!(value, "val");
            assert_eq!(anchor.as_deref(), Some("anch"));
            assert!(anchor_is_before);
            assert!(!to_front);
        },
        _ => panic!("expected a relocation directive"),
    }
}

#[test]
fn parse_rejects_incomplete_directives() {
    assert!(matches!(parse_argument("replace-"), ParsedArgument::Unrecognized));
    assert!(matches!(parse_argument("replace-=x"), ParsedArgument::Unrecognized));
    assert!(matches!(parse_argument("replace-x="), ParsedArgument::Unrecognized));
    assert!(matches!(parse_argument("replace-nokey"), ParsedArgument::Unrecognized));
    assert!(matches!(parse_argument("move-front-before-=v"), ParsedArgument::Unrecognized));
    assert!(matches!(parse_argument("move-back-after-a="), ParsedArgument::Unrecognized));
    assert!(matches!(parse_argument("unknown"), ParsedArgument::Unrecognized));
}

#[test]
fn classify_splits_wrapper_reference_and_plain_arguments() {
    match classify_argument("-clw-remove=-g") {
        ArgumentKind::Wrapper(ParsedArgument::Transform(Directive::Remove { key })) => {
            assert_eq!(key, "-g")
        },
        _ => panic!("expected a wrapper directive"),
    }
    match classify_argument("@args.rsp") {
        ArgumentKind::ResponseRef(path) => assert_eq!(path, "args.rsp"),
        _ => panic!("expected a response-file reference"),
    }
    assert!(matches!(classify_argument("-O2"), ArgumentKind::Plain));
    assert!(matches!(classify_argument(""), ArgumentKind::Plain));
}

#[test]
fn apply_all_runs_directives_in_order() {
    // The relocation sees the token the earlier replace renamed.
    let mut store = ArgumentStore::new();
    store.arguments = strs(&["old", "x"]);
    let directives = vec![
        Directive::Replace { key: "old".to_owned(), value: "new".to_owned() },
        Directive::Relocate {
            value: "new".to_owned(),
            anchor: None,
            anchor_is_before: true,
            to_front: false,
        },
    ];
    apply_all(directives, &mut store);
    assert_eq!(store.arguments, strs(&["x", "new"]));
}
