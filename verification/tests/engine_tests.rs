use clw_rewrite::finalize::finalize;
use clw_rewrite::finalize::scratch_paths;
use clw_rewrite::linkmode::change_link_feature;
use clw_rewrite::linkmode::dynamic_link_feature;
use clw_rewrite::linkmode::static_link_feature;
use clw_rewrite::relocate::move_to_back_for_after_feature;
use clw_rewrite::relocate::remove_argument;
use clw_rewrite::store::ArgumentStore;
use clw_rewrite::transform::remove_argument_feature;
use clw_rewrite::transform::replace_argument_feature;

fn strs(v: &[&str]) -> Vec<String> {
    v.iter().map(|s| s.to_string()).collect()
}

fn store_with(args: &[&str]) -> ArgumentStore {
    let mut store = ArgumentStore::new();
    store.arguments = strs(args);
    store
}

#[test]
fn remove_deletes_every_copy_and_is_idempotent() {
    let mut store = store_with(&["a", "b", "a", "c"]);
    remove_argument_feature("a".to_owned(), None, &mut store);
    assert_eq!(store.arguments, strs(&["b", "c"]));
    remove_argument_feature("a".to_owned(), None, &mut store);
    assert_eq!(store.arguments, strs(&["b", "c"]));
}

#[test]
fn remove_reaches_response_files_and_marks_them_changed() {
    let mut store = store_with(&["x", "@rsp", "x"]);
    let content = "x inner x".to_string();
    store.load_file("rsp".to_owned(), "rsp.new".to_owned(), Some(&content));
    remove_argument_feature("x".to_owned(), None, &mut store);
    assert_eq!(store.arguments, strs(&["@rsp"]));
    let f = store.file_at(0);
    assert_eq!(f.tokens, strs(&["inner"]));
    assert!(f.changed);
}

#[test]
fn replace_overwrites_matches_and_without_target_is_a_no_op() {
    let mut store = store_with(&["a", "b", "a"]);
    replace_argument_feature("a".to_owned(), Some("z".to_owned()), &mut store);
    assert_eq!(store.arguments, strs(&["z", "b", "z"]));
    let before = store.arguments.clone();
    replace_argument_feature("missing".to_owned(), Some("q".to_owned()), &mut store);
    assert_eq!(store.arguments, before);
    // A replace directive with no value is a no-op too.
    replace_argument_feature("b".to_owned(), None, &mut store);
    assert_eq!(store.arguments, before);
}

#[test]
fn relocate_with_zero_matches_leaves_the_list_unchanged() {
    let args = &["a0", "prefix-a1", "a3"];
    let mut store = store_with(args);
    move_to_back_for_after_feature("zzz".to_owned(), None, &mut store);
    assert_eq!(store.arguments, strs(args));
}

#[test]
fn relocate_collects_out_of_response_files_with_dedup() {
    let mut store = store_with(&["a", "@rsp", "lib"]);
    let content = "lib other lib".to_string();
    store.load_file("rsp".to_owned(), "rsp.new".to_owned(), Some(&content));
    move_to_back_for_after_feature("lib".to_owned(), None, &mut store);
    // Both top-level and inner matches leave, deduplicated to one copy
    // appended at the end; the reference token stays in place.
    assert_eq!(store.arguments, strs(&["a", "@rsp", "lib"]));
    assert_eq!(store.file_at(0).tokens, strs(&["other"]));
    assert!(store.file_at(0).changed);
}

#[test]
fn relocate_returns_collection_in_first_seen_order() {
    let mut store = store_with(&["p-lib", "x", "lib"]);
    let collected = remove_argument("lib".to_owned(), None, None, &mut store);
    assert_eq!(collected, strs(&["p-lib", "lib"]));
    assert_eq!(store.arguments, strs(&["x"]));
}

#[test]
fn link_toggle_brackets_key_when_mode_disagrees() {
    // Static mode is in effect; dynamic linking of foo.lib is desired,
    // with the compiler-driver flag spelling.
    let mut store = store_with(&["-static", "foo.lib"]);
    dynamic_link_feature("foo.lib".to_owned(), None, &mut store);
    assert_eq!(
        store.arguments,
        strs(&["-static", "-Wl,-Bdynamic", "foo.lib", "-Wl,-Bstatic"])
    );
}

#[test]
fn link_toggle_uses_linker_spelling_when_invoked_as_linker() {
    let mut store = store_with(&["bar.lib"]);
    static_link_feature("bar.lib".to_owned(), Some("1".to_owned()), &mut store);
    assert_eq!(store.arguments, strs(&["-Bstatic", "bar.lib", "-Bdynamic"]));
}

#[test]
fn link_toggle_agreeing_mode_inserts_nothing() {
    let mut store = store_with(&["-static", "foo.lib"]);
    static_link_feature("foo.lib".to_owned(), None, &mut store);
    assert_eq!(store.arguments, strs(&["-static", "foo.lib"]));
}

#[test]
fn link_toggle_state_runs_through_response_files() {
    // The file switches to static mode; the outer scan resumes in that
    // state, so the later key is bracketed.
    let mut store = store_with(&["@rsp", "foo.lib"]);
    let content = "-static".to_string();
    store.load_file("rsp".to_owned(), "rsp.new".to_owned(), Some(&content));
    let end_dynamic = change_link_feature(
        "foo.lib".to_owned(),
        None,
        true,
        true,
        &mut store,
    );
    assert!(!end_dynamic);
    assert_eq!(
        store.arguments,
        strs(&["@rsp", "-Wl,-Bdynamic", "foo.lib", "-Wl,-Bstatic"])
    );
    // Nothing was inserted inside the file itself.
    assert_eq!(store.file_at(0).tokens, strs(&["-static"]));
    assert!(!store.file_at(0).changed);
}

#[test]
fn finalize_propagates_a_changed_response_file() {
    let mut store = store_with(&["a", "@rsp"]);
    let content = "keep drop".to_string();
    store.load_file("rsp".to_owned(), "rsp.new".to_owned(), Some(&content));
    remove_argument_feature("drop".to_owned(), None, &mut store);
    // The reference token is untouched until finalization.
    assert_eq!(store.arguments, strs(&["a", "@rsp"]));
    assert!(store.file_at(0).changed);
    let writes = finalize(&mut store);
    assert_eq!(store.arguments, strs(&["a", "@rsp.new"]));
    assert_eq!(writes.len(), 1);
    assert_eq!(writes[0].path, "rsp.new");
    assert_eq!(
        clw_rewrite::codec::tokenize(&writes[0].content),
        strs(&["keep"])
    );
}

#[test]
fn finalize_skips_unchanged_response_files() {
    let mut store = store_with(&["@rsp"]);
    let content = "keep".to_string();
    store.load_file("rsp".to_owned(), "rsp.new".to_owned(), Some(&content));
    let writes = finalize(&mut store);
    assert!(writes.is_empty());
    assert_eq!(store.arguments, strs(&["@rsp"]));
}

#[test]
fn load_file_tokenizes_once_and_treats_missing_content_as_empty() {
    let mut store = ArgumentStore::new();
    let content = "a \"b c\"".to_string();
    store.load_file("rsp".to_owned(), "rsp.new".to_owned(), Some(&content));
    assert_eq!(store.num_files(), 1);
    assert_eq!(store.file_at(0).tokens, strs(&["a", "b c"]));
    assert!(!store.file_at(0).changed);
    // A second load of the same path is ignored.
    let other = "different".to_string();
    store.load_file("rsp".to_owned(), "other.new".to_owned(), Some(&other));
    assert_eq!(store.num_files(), 1);
    assert_eq!(store.file_at(0).tokens, strs(&["a", "b c"]));
    // An unreadable file yields an empty token list.
    store.load_file("gone".to_owned(), "gone.new".to_owned(), None);
    assert_eq!(store.num_files(), 2);
    assert!(store.file_at(1).tokens.is_empty());
}

#[test]
fn scratch_paths_lists_every_loaded_file() {
    let mut store = ArgumentStore::new();
    store.load_file("a".to_owned(), "a.new".to_owned(), None);
    store.load_file("b".to_owned(), "b.new".to_owned(), None);
    assert_eq!(scratch_paths(&store), strs(&["a.new", "b.new"]));
}
