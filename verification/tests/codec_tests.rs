use clw_rewrite::codec::escape;
use clw_rewrite::codec::normalize_line_endings;
use clw_rewrite::codec::parse_response_text;
use clw_rewrite::codec::serialize;
use clw_rewrite::codec::tokenize;

fn strs(v: &[&str]) -> Vec<String> {
    v.iter().map(|s| s.to_string()).collect()
}

#[test]
fn tokenize_splits_on_whitespace_and_drops_empty_tokens() {
    assert_eq!(tokenize("a  b\tc\n d "), strs(&["a", "b", "c", "d"]));
    assert_eq!(tokenize("   "), Vec::<String>::new());
    assert_eq!(tokenize(""), Vec::<String>::new());
}

#[test]
fn tokenize_quotes_keep_whitespace_and_are_not_emitted() {
    assert_eq!(tokenize("\"a b\" c"), strs(&["a b", "c"]));
    assert_eq!(tokenize("pre\"mid dle\"post"), strs(&["premid dlepost"]));
}

#[test]
fn tokenize_backslash_escapes_any_character() {
    // An escaped character is emitted literally; the backslash is not.
    assert_eq!(tokenize("a\\ b"), strs(&["a b"]));
    assert_eq!(tokenize("a\\\"b"), strs(&["a\"b"]));
    assert_eq!(tokenize("a\\\\b"), strs(&["a\\b"]));
    assert_eq!(tokenize("\\xy"), strs(&["xy"]));
    // A trailing backslash escapes nothing.
    assert_eq!(tokenize("ab\\"), strs(&["ab"]));
}

#[test]
fn serialize_escapes_and_quotes() {
    assert_eq!(serialize(&strs(&["plain"])), "plain");
    assert_eq!(serialize(&strs(&["a b"])), "\"a b\"");
    assert_eq!(serialize(&strs(&["c\"d"])), "\"c\\\"d\"");
    assert_eq!(serialize(&strs(&["e\\f"])), "e\\\\f");
    assert_eq!(serialize(&strs(&["a\tb"])), "\"a\\tb\"");
    assert_eq!(serialize(&strs(&["x", "y", "z"])), "x y z");
    assert_eq!(serialize(&Vec::new()), "");
}

#[test]
fn round_trip_spaces_quotes_backslashes() {
    let tokens = strs(&["a b", "c\"d", "e\\f", "\\", "g", "h i\"j\\k"]);
    assert_eq!(tokenize(&serialize(&tokens)), tokens);
}

#[test]
fn tab_in_token_does_not_round_trip() {
    // The serializer writes a tab as backslash-t, and the tokenizer
    // emits the escaped character literally: the tab comes back as `t`.
    let tokens = strs(&["a\tb"]);
    assert_eq!(tokenize(&serialize(&tokens)), strs(&["atb"]));
}

#[test]
fn normalize_line_endings_rewrites_crlf_pairs() {
    assert_eq!(normalize_line_endings("a\r\nb\r\nc"), "a\nb\nc");
    assert_eq!(normalize_line_endings("a\rb"), "a\rb");
    assert_eq!(normalize_line_endings("a\r\r\nb"), "a\r\nb");
}

#[test]
fn parse_response_text_normalizes_then_tokenizes() {
    assert_eq!(parse_response_text("a\r\nb c"), strs(&["a", "b", "c"]));
    assert_eq!(parse_response_text("\"x\r\ny\""), strs(&["x\ny"]));
}

#[test]
fn escape_single_token() {
    assert_eq!(escape("a b\"c\\d"), "\"a b\\\"c\\\\d\"");
    assert_eq!(escape("nospecials"), "nospecials");
}
