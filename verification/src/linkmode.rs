//! Static/dynamic link-mode toggling.  The scan walks the token list
//! left to right carrying an `is_dynamic` state, initially dynamic.
//! Mode flags (the spelling selected by how the wrapped tool is
//! invoked, plus the fixed aliases) transition the state.  When the
//! scanned token equals the key while the state disagrees with the
//! desired mode, the key is bracketed: the desired mode's flag is
//! inserted immediately before it and the opposite flag immediately
//! after it, and the scan continues past the inserted pair.  No
//! existing token moves.  A reference token sends the scan through that
//! file's list, seeded with the current state; the state it ends in
//! continues the outer scan.

use vstd::prelude::*;

use crate::relocate::is_ref_token;
use crate::relocate::ref_path;
use crate::store::ArgumentStore;
use crate::store::ResponseFile;
use crate::store::ResponseFileView;
use crate::store::StoreView;
use crate::store::file_index;
use crate::store::lemma_file_index_first;
use vstd::string::StrSliceExecFns;
use vstd::string::StringExecFns;

verus! {

/// The spelling of the static-mode flag for the chosen invocation.
pub open spec fn static_spelling(linker: bool) -> Seq<char> {
    if linker {
        "-Bstatic"@
    } else {
        "-Wl,-Bstatic"@
    }
}

/// The spelling of the dynamic-mode flag for the chosen invocation.
pub open spec fn dynamic_spelling(linker: bool) -> Seq<char> {
    if linker {
        "-Bdynamic"@
    } else {
        "-Wl,-Bdynamic"@
    }
}

/// A token that switches the scan to static mode.
pub open spec fn is_static_flag(t: Seq<char>, skey: Seq<char>) -> bool {
    t == skey || t == "-dn"@ || t == "-non_shared"@ || t == "-static"@
}

/// A token that switches the scan to dynamic mode.
pub open spec fn is_dynamic_flag(t: Seq<char>, dkey: Seq<char>) -> bool {
    t == dkey || t == "-dy"@ || t == "-call_shared"@
}

/// State of one list scan: the rewritten list so far and the mode.
#[verifier::ext_equal]
pub ghost struct LinkState {
    pub out: Seq<Seq<char>>,
    pub is_dynamic: bool,
}

/// One token of a response file's list advances the scan.  Inside a
/// response file a reference token is an ordinary token: it is kept and
/// changes nothing, but a token equal to the key is bracketed wherever
/// it stands.
pub open spec fn lm_step(
    st: LinkState,
    t: Seq<char>,
    key: Seq<char>,
    desired: bool,
    skey: Seq<char>,
    dkey: Seq<char>,
) -> LinkState {
    if is_static_flag(t, skey) {
        LinkState { out: st.out.push(t), is_dynamic: false }
    } else if is_dynamic_flag(t, dkey) {
        LinkState { out: st.out.push(t), is_dynamic: true }
    } else if t == key && st.is_dynamic != desired {
        LinkState {
            out: st.out + (if desired {
                seq![dkey, t, skey]
            } else {
                seq![skey, t, dkey]
            }),
            is_dynamic: st.is_dynamic,
        }
    } else {
        LinkState { out: st.out.push(t), is_dynamic: st.is_dynamic }
    }
}

/// The scan state after the first `i` tokens of a response file's list.
pub open spec fn lm_plain_upto(
    ts: Seq<Seq<char>>,
    key: Seq<char>,
    desired: bool,
    skey: Seq<char>,
    dkey: Seq<char>,
    dyn0: bool,
    i: int,
) -> LinkState
    decreases i,
{
    if i <= 0 {
        LinkState { out: Seq::empty(), is_dynamic: dyn0 }
    } else {
        lm_step(lm_plain_upto(ts, key, desired, skey, dkey, dyn0, i - 1), ts[i - 1], key, desired, skey, dkey)
    }
}

/// The whole scan of a response file's list.
pub open spec fn lm_plain_scan(
    ts: Seq<Seq<char>>,
    key: Seq<char>,
    desired: bool,
    skey: Seq<char>,
    dkey: Seq<char>,
    dyn0: bool,
) -> LinkState {
    lm_plain_upto(ts, key, desired, skey, dkey, dyn0, ts.len() as int)
}

/// State of the top-level scan: it also carries the response files.
#[verifier::ext_equal]
pub ghost struct LinkTopState {
    pub out: Seq<Seq<char>>,
    pub is_dynamic: bool,
    pub files: Seq<ResponseFileView>,
}

/// A response file after the scan ran over its list: bracketing flags
/// may have been inserted, and the file is marked changed if any were.
pub open spec fn rf_after_lm(f: ResponseFileView, inner: LinkState) -> ResponseFileView {
    ResponseFileView {
        original_path: f.original_path,
        new_path: f.new_path,
        tokens: inner.out,
        changed: f.changed || inner.out.len() != f.tokens.len(),
    }
}

/// One top-level token advances the scan.  The mode flags and the key
/// are judged before the token is considered a reference; a reference
/// whose file is loaded sends the scan through that file's list, seeded
/// with the current mode, and the mode it ends in continues here.
pub open spec fn lm_top_step(
    st: LinkTopState,
    t: Seq<char>,
    key: Seq<char>,
    desired: bool,
    skey: Seq<char>,
    dkey: Seq<char>,
) -> LinkTopState {
    if is_static_flag(t, skey) {
        LinkTopState { out: st.out.push(t), is_dynamic: false, files: st.files }
    } else if is_dynamic_flag(t, dkey) {
        LinkTopState { out: st.out.push(t), is_dynamic: true, files: st.files }
    } else if t == key && st.is_dynamic != desired {
        LinkTopState {
            out: st.out + (if desired {
                seq![dkey, t, skey]
            } else {
                seq![skey, t, dkey]
            }),
            is_dynamic: st.is_dynamic,
            files: st.files,
        }
    } else if is_ref_token(t) && file_index(st.files, ref_path(t)) >= 0 {
        let fi = file_index(st.files, ref_path(t));
        let inner = lm_plain_scan(st.files[fi].tokens, key, desired, skey, dkey, st.is_dynamic);
        LinkTopState {
            out: st.out.push(t),
            is_dynamic: inner.is_dynamic,
            files: st.files.update(fi, rf_after_lm(st.files[fi], inner)),
        }
    } else {
        LinkTopState { out: st.out.push(t), is_dynamic: st.is_dynamic, files: st.files }
    }
}

/// The top-level scan state after the first `i` arguments.
pub open spec fn lm_top_upto(
    ts: Seq<Seq<char>>,
    key: Seq<char>,
    desired: bool,
    skey: Seq<char>,
    dkey: Seq<char>,
    files0: Seq<ResponseFileView>,
    dyn0: bool,
    i: int,
) -> LinkTopState
    decreases i,
{
    if i <= 0 {
        LinkTopState { out: Seq::empty(), is_dynamic: dyn0, files: files0 }
    } else {
        lm_top_step(
            lm_top_upto(ts, key, desired, skey, dkey, files0, dyn0, i - 1),
            ts[i - 1],
            key,
            desired,
            skey,
            dkey,
        )
    }
}

/// The whole top-level scan of one link-mode toggle.
pub open spec fn lm_top_scan(
    sv: StoreView,
    key: Seq<char>,
    desired: bool,
    linker: bool,
    dyn0: bool,
) -> LinkTopState {
    lm_top_upto(
        sv.arguments,
        key,
        desired,
        static_spelling(linker),
        dynamic_spelling(linker),
        sv.files,
        dyn0,
        sv.arguments.len() as int,
    )
}

/// The store after one whole link-mode toggle, which starts in dynamic
/// mode.
pub open spec fn link_toggle_store(
    sv: StoreView,
    key: Seq<char>,
    desired: bool,
    linker: bool,
) -> StoreView {
    let end = lm_top_scan(sv, key, desired, linker, true);
    StoreView { arguments: end.out, files: end.files }
}

/// Decides one token against the static flag spelling or its aliases.
fn is_static_flag_exec(t: &str, skey: &String) -> (r: bool)
    ensures
        r == is_static_flag(t@, skey@),
{
    crate::strutil::str_eq(t, skey.as_str()) || crate::strutil::str_eq(t, "-dn")
        || crate::strutil::str_eq(t, "-non_shared") || crate::strutil::str_eq(t, "-static")
}

/// Decides one token against the dynamic flag spelling or its aliases.
fn is_dynamic_flag_exec(t: &str, dkey: &String) -> (r: bool)
    ensures
        r == is_dynamic_flag(t@, dkey@),
{
    crate::strutil::str_eq(t, dkey.as_str()) || crate::strutil::str_eq(t, "-dy")
        || crate::strutil::str_eq(t, "-call_shared")
}

/// Scans one response file's token list, bracketing the key where the
/// mode disagrees; returns the mode the scan ends in.
fn lm_scan_list(
    tokens: &mut Vec<String>,
    key: &String,
    skey: &String,
    dkey: &String,
    desired: bool,
    dyn0: bool,
) -> (r: bool)
    ensures
        ({
            let end = lm_plain_scan(old(tokens).deep_view(), key@, desired, skey@, dkey@, dyn0);
            final(tokens).deep_view() == end.out && r == end.is_dynamic
        }),
{
    let ghost tv = tokens.deep_view();
    let mut out: Vec<String> = Vec::new();
    let mut dynamic = dyn0;
    proof {
        assert(out.deep_view() =~= Seq::<Seq<char>>::empty());
    }
    let mut i: usize = 0;
    while i < tokens.len()
        invariant
            i <= tokens.len(),
            tv == tokens.deep_view(),
            tv.len() == tokens.len(),
            ({
                let st = lm_plain_upto(tv, key@, desired, skey@, dkey@, dyn0, i as int);
                st.out == out.deep_view() && st.is_dynamic == dynamic
            }),
        decreases tokens.len() - i,
    {
        let ghost st = lm_plain_upto(tv, key@, desired, skey@, dkey@, dyn0, i as int);
        let t = tokens[i].clone();
        proof {
            assert(tv[i as int] == tokens@[i as int]@);
        }
        let ghost ov = out.deep_view();
        if is_static_flag_exec(t.as_str(), skey) {
            out.push(t);
            dynamic = false;
            proof {
                assert(out.deep_view() =~= ov.push(tv[i as int]));
            }
        } else if is_dynamic_flag_exec(t.as_str(), dkey) {
            out.push(t);
            dynamic = true;
            proof {
                assert(out.deep_view() =~= ov.push(tv[i as int]));
            }
        } else if crate::strutil::str_eq(t.as_str(), key.as_str()) && dynamic != desired {
            if desired {
                out.push(dkey.clone());
                out.push(t);
                out.push(skey.clone());
                proof {
                    assert(out.deep_view() =~= ov + seq![dkey@, tv[i as int], skey@]);
                }
            } else {
                out.push(skey.clone());
                out.push(t);
                out.push(dkey.clone());
                proof {
                    assert(out.deep_view() =~= ov + seq![skey@, tv[i as int], dkey@]);
                }
            }
        } else {
            out.push(t);
            proof {
                assert(out.deep_view() =~= ov.push(tv[i as int]));
            }
        }
        proof {
            assert(lm_plain_upto(tv, key@, desired, skey@, dkey@, dyn0, i + 1) == lm_step(
                st,
                tv[i as int],
                key@,
                desired,
                skey@,
                dkey@,
            ));
        }
        i += 1;
    }
    *tokens = out;
    dynamic
}

/// Toggles the link mode around every occurrence of `key`, in the
/// top-level list and through every reference, without moving existing
/// tokens.  `is_linker` selects the flag spelling; `dynamic_link` is
/// the desired mode; `is_dynamic` seeds the scan; the mode the scan
/// ends in is returned.
pub fn change_link_feature(
    key: String,
    is_linker: Option<String>,
    dynamic_link: bool,
    is_dynamic: bool,
    store: &mut ArgumentStore,
) -> (r: bool)
    ensures
        ({
            let end = lm_top_scan(old(store)@, key@, dynamic_link, is_linker is Some, is_dynamic);
            final(store)@.arguments == end.out && final(store)@.files == end.files && r
                == end.is_dynamic
        }),
{
    let ghost lk = is_linker is Some;
    let skey: String;
    let dkey: String;
    match &is_linker {
        Some(_) => {
            skey = String::from_str("-Bstatic");
            dkey = String::from_str("-Bdynamic");
        },
        None => {
            skey = String::from_str("-Wl,-Bstatic");
            dkey = String::from_str("-Wl,-Bdynamic");
        },
    }
    proof {
        assert(skey@ == static_spelling(lk));
        assert(dkey@ == dynamic_spelling(lk));
    }
    let ghost av = store@.arguments;
    let ghost fv0 = store@.files;
    let mut out: Vec<String> = Vec::new();
    let mut dynamic = is_dynamic;
    proof {
        assert(out.deep_view() =~= Seq::<Seq<char>>::empty());
    }
    let mut i: usize = 0;
    while i < store.arguments.len()
        invariant
            i <= store.arguments.len(),
            av == store@.arguments,
            av.len() == store.arguments.len(),
            skey@ == static_spelling(lk),
            dkey@ == dynamic_spelling(lk),
            ({
                let st = lm_top_upto(av, key@, dynamic_link, skey@, dkey@, fv0, is_dynamic, i as int);
                st.out == out.deep_view() && st.is_dynamic == dynamic && st.files == store@.files
            }),
        decreases store.arguments.len() - i,
    {
        let ghost st = lm_top_upto(av, key@, dynamic_link, skey@, dkey@, fv0, is_dynamic, i as int);
        let t = store.arguments[i].clone();
        proof {
            assert(av[i as int] == store.arguments@[i as int]@);
        }
        let ghost ov = out.deep_view();
        if is_static_flag_exec(t.as_str(), &skey) {
            out.push(t);
            dynamic = false;
            proof {
                assert(out.deep_view() =~= ov.push(av[i as int]));
            }
        } else if is_dynamic_flag_exec(t.as_str(), &dkey) {
            out.push(t);
            dynamic = true;
            proof {
                assert(out.deep_view() =~= ov.push(av[i as int]));
            }
        } else if crate::strutil::str_eq(t.as_str(), key.as_str()) && dynamic != dynamic_link {
            if dynamic_link {
                out.push(dkey.clone());
                out.push(t);
                out.push(skey.clone());
                proof {
                    assert(out.deep_view() =~= ov + seq![dkey@, av[i as int], skey@]);
                }
            } else {
                out.push(skey.clone());
                out.push(t);
                out.push(dkey.clone());
                proof {
                    assert(out.deep_view() =~= ov + seq![skey@, av[i as int], dkey@]);
                }
            }
        } else if crate::relocate::is_ref_exec(t.as_str()) {
            let tl = t.as_str().unicode_len();
            let path = t.as_str().substring_char(1, tl);
            proof {
                assert(path@ == ref_path(av[i as int]));
            }
            match crate::relocate::find_file_index(&store.files, path) {
                Some(fi) => {
                    let ghost prev = store.files@;
                    let mut f: ResponseFile = store.files.remove(fi);
                    proof {
                        assert(st.files[fi as int] == prev[fi as int].deep_view());
                        assert(f@ == st.files[fi as int]);
                    }
                    let old_len = f.tokens.len();
                    dynamic = lm_scan_list(&mut f.tokens, &key, &skey, &dkey, dynamic_link, dynamic);
                    if f.tokens.len() != old_len {
                        f.changed = true;
                    }
                    proof {
                        let inner = lm_plain_scan(
                            st.files[fi as int].tokens,
                            key@,
                            dynamic_link,
                            skey@,
                            dkey@,
                            st.is_dynamic,
                        );
                        assert(f@ == rf_after_lm(st.files[fi as int], inner));
                    }
                    store.files.insert(fi, f);
                    proof {
                        let inner = lm_plain_scan(
                            st.files[fi as int].tokens,
                            key@,
                            dynamic_link,
                            skey@,
                            dkey@,
                            st.is_dynamic,
                        );
                        assert forall|k: int| 0 <= k < st.files.len() implies store@.files[k] == (
                        if k == fi as int {
                            rf_after_lm(st.files[k], inner)
                        } else {
                            st.files[k]
                        }) by {
                            assert(store@.files[k] == store.files@[k].deep_view());
                            if k != fi as int {
                                assert(store.files@[k] == prev[k]);
                                assert(st.files[k] == prev[k].deep_view());
                            }
                        }
                        assert(store@.files =~= st.files.update(
                            file_index(st.files, ref_path(av[i as int])),
                            rf_after_lm(
                                st.files[file_index(st.files, ref_path(av[i as int]))],
                                inner,
                            ),
                        ));
                    }
                    out.push(t);
                    proof {
                        assert(out.deep_view() =~= ov.push(av[i as int]));
                    }
                },
                None => {
                    out.push(t);
                    proof {
                        assert(out.deep_view() =~= ov.push(av[i as int]));
                    }
                },
            }
        } else {
            out.push(t);
            proof {
                assert(out.deep_view() =~= ov.push(av[i as int]));
            }
        }
        proof {
            assert(lm_top_upto(av, key@, dynamic_link, skey@, dkey@, fv0, is_dynamic, i + 1)
                == lm_top_step(st, av[i as int], key@, dynamic_link, skey@, dkey@));
        }
        i += 1;
    }
    store.arguments = out;
    dynamic
}


/// The toggle leaves every response file at its place, under its paths.
pub proof fn lemma_lm_files_paths(
    ts: Seq<Seq<char>>,
    key: Seq<char>,
    desired: bool,
    skey: Seq<char>,
    dkey: Seq<char>,
    files0: Seq<ResponseFileView>,
    dyn0: bool,
    i: int,
)
    ensures
        lm_top_upto(ts, key, desired, skey, dkey, files0, dyn0, i).files.len() == files0.len(),
        forall|k: int|
            0 <= k < files0.len() ==> (#[trigger] lm_top_upto(
                ts,
                key,
                desired,
                skey,
                dkey,
                files0,
                dyn0,
                i,
            ).files[k]).original_path == files0[k].original_path && lm_top_upto(
                ts,
                key,
                desired,
                skey,
                dkey,
                files0,
                dyn0,
                i,
            ).files[k].new_path == files0[k].new_path,
    decreases i,
{
    if i <= 0 {
    } else {
        lemma_lm_files_paths(ts, key, desired, skey, dkey, files0, dyn0, i - 1);
        let st = lm_top_upto(ts, key, desired, skey, dkey, files0, dyn0, i - 1);
        let st2 = lm_top_upto(ts, key, desired, skey, dkey, files0, dyn0, i);
        let t = ts[i - 1];
        if is_ref_token(t) {
            lemma_file_index_first(st.files, ref_path(t));
        }
        assert forall|k: int| 0 <= k < files0.len() implies (#[trigger] st2.files[k]).original_path
            == files0[k].original_path && st2.files[k].new_path == files0[k].new_path by {
            assert(st.files[k].original_path == files0[k].original_path);
            assert(st.files[k].new_path == files0[k].new_path);
        }
    }
}

/// The bracketing contract of one key occurrence: when the scanned
/// token equals the key and is no mode flag, the key is bracketed with
/// the desired mode's flag before it and the opposite flag after it
/// exactly when the current mode disagrees with the desired one, the
/// mode itself staying as it was; when the mode agrees, the token
/// passes through untouched.
pub proof fn lemma_link_toggle_brackets(
    st: LinkState,
    key: Seq<char>,
    desired: bool,
    skey: Seq<char>,
    dkey: Seq<char>,
)
    requires
        !is_static_flag(key, skey),
        !is_dynamic_flag(key, dkey),
    ensures
        st.is_dynamic != desired ==> lm_step(st, key, key, desired, skey, dkey) == (LinkState {
            out: st.out + (if desired {
                seq![dkey, key, skey]
            } else {
                seq![skey, key, dkey]
            }),
            is_dynamic: st.is_dynamic,
        }),
        st.is_dynamic == desired ==> lm_step(st, key, key, desired, skey, dkey) == (LinkState {
            out: st.out.push(key),
            is_dynamic: st.is_dynamic,
        }),
{
}

/// Rewrites toward static linking of `key`, starting in dynamic mode.
pub fn static_link_feature(key: String, is_linker: Option<String>, store: &mut ArgumentStore)
    ensures
        final(store)@ == link_toggle_store(old(store)@, key@, false, is_linker is Some),
        final(store).wf() == old(store).wf(),
{
    let ghost sv = store@;
    let ghost kw = key@;
    let ghost lk = is_linker is Some;
    change_link_feature(key, is_linker, false, true, store);
    proof {
        assert(store@ =~= link_toggle_store(sv, kw, false, lk));
        lemma_lm_files_paths(
            sv.arguments,
            kw,
            false,
            static_spelling(lk),
            dynamic_spelling(lk),
            sv.files,
            true,
            sv.arguments.len() as int,
        );
        crate::store::lemma_store_wf_same_paths(store@, sv);
    }
}

/// Rewrites toward dynamic linking of `key`, starting in dynamic mode.
pub fn dynamic_link_feature(key: String, is_linker: Option<String>, store: &mut ArgumentStore)
    ensures
        final(store)@ == link_toggle_store(old(store)@, key@, true, is_linker is Some),
        final(store).wf() == old(store).wf(),
{
    let ghost sv = store@;
    let ghost kw = key@;
    let ghost lk = is_linker is Some;
    change_link_feature(key, is_linker, true, true, store);
    proof {
        assert(store@ =~= link_toggle_store(sv, kw, true, lk));
        lemma_lm_files_paths(
            sv.arguments,
            kw,
            true,
            static_spelling(lk),
            dynamic_spelling(lk),
            sv.files,
            true,
            sv.arguments.len() as int,
        );
        crate::store::lemma_store_wf_same_paths(store@, sv);
    }
}

} // verus!
