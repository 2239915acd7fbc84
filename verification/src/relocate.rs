//! Anchored relocation: tokens whose suffix equals a value are removed
//! from the top-level list and from every referenced response file's
//! list, collected in first-seen order without duplicates, and spliced
//! back at the front or the back of the top-level list.
//!
//! A candidate is only collected when the anchor constraint holds: with
//! a `before` anchor, the token kept immediately before the candidate
//! must end with the anchor; with an `after` anchor, the token
//! immediately following it must; with no anchor every suffix match is
//! collected.  A token that itself references a response file is never a
//! candidate; inside a response file further references are plain
//! tokens, never resolved.

use vstd::prelude::*;

use crate::store::ArgumentStore;
use crate::store::ResponseFile;
use crate::store::ResponseFileView;
use crate::store::StoreView;
use crate::store::file_index;
use crate::store::lemma_file_index_first;
use crate::strutil::suffix_matches;
use crate::strutil::str_ends_with;
use vstd::string::StrSliceExecFns;

verus! {

/// The anchor constraint of one relocation directive.
pub ghost enum AnchorView {
    NoAnchor,
    Before(Seq<char>),
    After(Seq<char>),
}

/// The anchor a directive's `before`/`after` operands denote: a present
/// `before` anchor wins over a present `after` anchor.
pub open spec fn anchor_of(before: Option<Seq<char>>, after: Option<Seq<char>>) -> AnchorView {
    match before {
        Some(b) => AnchorView::Before(b),
        None => match after {
            Some(a) => AnchorView::After(a),
            None => AnchorView::NoAnchor,
        },
    }
}

/// A token that references a response file: it begins with `@`.
pub open spec fn is_ref_token(t: Seq<char>) -> bool {
    t.len() >= 1 && t[0] == '@'
}

/// The path a reference token names.
pub open spec fn ref_path(t: Seq<char>) -> Seq<char> {
    t.subrange(1, t.len() as int)
}

/// Collected tokens are deduplicated by value, first seen kept.
pub open spec fn add_dedup(acc: Seq<Seq<char>>, t: Seq<char>) -> Seq<Seq<char>> {
    if acc.contains(t) {
        acc
    } else {
        acc.push(t)
    }
}

/// State of one list scan: the tokens kept so far and the collection.
#[verifier::ext_equal]
pub ghost struct ScanState {
    pub kept: Seq<Seq<char>>,
    pub acc: Seq<Seq<char>>,
}

/// The anchor constraint, judged against the last kept token and the
/// token immediately following the candidate.
pub open spec fn anchor_ok(
    anch: AnchorView,
    kept: Seq<Seq<char>>,
    next: Option<Seq<char>>,
) -> bool {
    match anch {
        AnchorView::NoAnchor => true,
        AnchorView::Before(a) => kept.len() > 0 && suffix_matches(kept.last(), a),
        AnchorView::After(a) => next matches Some(n) && suffix_matches(n, a),
    }
}

/// One token of a response file's list advances the scan.
pub open spec fn plain_step(
    st: ScanState,
    t: Seq<char>,
    next: Option<Seq<char>>,
    value: Seq<char>,
    anch: AnchorView,
) -> ScanState {
    if !is_ref_token(t) && suffix_matches(t, value) && anchor_ok(anch, st.kept, next) {
        ScanState { kept: st.kept, acc: add_dedup(st.acc, t) }
    } else {
        ScanState { kept: st.kept.push(t), acc: st.acc }
    }
}

/// The token following index `i`, while the scan has not yet reached it.
pub open spec fn next_of(ts: Seq<Seq<char>>, i: int) -> Option<Seq<char>> {
    if i + 1 < ts.len() {
        Some(ts[i + 1])
    } else {
        None
    }
}

/// The scan state after the first `i` tokens of a response file's list.
pub open spec fn plain_upto(
    ts: Seq<Seq<char>>,
    value: Seq<char>,
    anch: AnchorView,
    acc0: Seq<Seq<char>>,
    i: int,
) -> ScanState
    decreases i,
{
    if i <= 0 {
        ScanState { kept: Seq::empty(), acc: acc0 }
    } else {
        plain_step(plain_upto(ts, value, anch, acc0, i - 1), ts[i - 1], next_of(ts, i - 1), value, anch)
    }
}

/// The whole scan of a response file's list.
pub open spec fn plain_scan(
    ts: Seq<Seq<char>>,
    value: Seq<char>,
    anch: AnchorView,
    acc0: Seq<Seq<char>>,
) -> ScanState {
    plain_upto(ts, value, anch, acc0, ts.len() as int)
}

/// State of the top-level scan: it also carries the response files,
/// whose lists a reference token sends the scan into.
#[verifier::ext_equal]
pub ghost struct TopState {
    pub kept: Seq<Seq<char>>,
    pub acc: Seq<Seq<char>>,
    pub files: Seq<ResponseFileView>,
}

/// A response file after the scan ran over its list: collected tokens
/// are gone and the file is marked changed if any were.
pub open spec fn rf_after_scan(f: ResponseFileView, inner: ScanState) -> ResponseFileView {
    ResponseFileView {
        original_path: f.original_path,
        new_path: f.new_path,
        tokens: inner.kept,
        changed: f.changed || inner.kept.len() != f.tokens.len(),
    }
}

/// One top-level token advances the scan.  A reference token whose file
/// is loaded sends the scan through that file's list, with the running
/// collection threaded through; the reference token itself is always
/// kept and is never a candidate.
pub open spec fn top_step(
    st: TopState,
    t: Seq<char>,
    next: Option<Seq<char>>,
    value: Seq<char>,
    anch: AnchorView,
) -> TopState {
    if is_ref_token(t) {
        let fi = file_index(st.files, ref_path(t));
        if fi >= 0 {
            let inner = plain_scan(st.files[fi].tokens, value, anch, st.acc);
            TopState {
                kept: st.kept.push(t),
                acc: inner.acc,
                files: st.files.update(fi, rf_after_scan(st.files[fi], inner)),
            }
        } else {
            TopState { kept: st.kept.push(t), acc: st.acc, files: st.files }
        }
    } else if suffix_matches(t, value) && anchor_ok(anch, st.kept, next) {
        TopState { kept: st.kept, acc: add_dedup(st.acc, t), files: st.files }
    } else {
        TopState { kept: st.kept.push(t), acc: st.acc, files: st.files }
    }
}

/// The top-level scan state after the first `i` arguments.
pub open spec fn top_upto(
    ts: Seq<Seq<char>>,
    value: Seq<char>,
    anch: AnchorView,
    files0: Seq<ResponseFileView>,
    i: int,
) -> TopState
    decreases i,
{
    if i <= 0 {
        TopState { kept: Seq::empty(), acc: Seq::empty(), files: files0 }
    } else {
        top_step(top_upto(ts, value, anch, files0, i - 1), ts[i - 1], next_of(ts, i - 1), value, anch)
    }
}

/// The collection pass of one relocation over the whole store.
pub open spec fn relocate_collect(sv: StoreView, value: Seq<char>, anch: AnchorView) -> TopState {
    top_upto(sv.arguments, value, anch, sv.files, sv.arguments.len() as int)
}

/// The store after one whole relocation: the collected tokens are
/// spliced at the front or appended at the back of the kept top-level
/// list.
pub open spec fn relocate_store(
    sv: StoreView,
    value: Seq<char>,
    anch: AnchorView,
    to_front: bool,
) -> StoreView {
    let st = relocate_collect(sv, value, anch);
    StoreView {
        arguments: if to_front {
            st.acc + st.kept
        } else {
            st.kept + st.acc
        },
        files: st.files,
    }
}

/// The view of an optional operand string.
pub open spec fn opt_view(o: Option<String>) -> Option<Seq<char>> {
    match o {
        Some(s) => Some(s@),
        None => None,
    }
}

/// Membership test used for deduplicating the collection.
fn vec_contains(v: &Vec<String>, t: &str) -> (r: bool)
    ensures
        r == v.deep_view().contains(t@),
{
    let mut i: usize = 0;
    while i < v.len()
        invariant
            i <= v.len(),
            v.deep_view().len() == v.len(),
            forall|k: int| 0 <= k < i ==> v.deep_view()[k] != t@,
        decreases v.len() - i,
    {
        proof {
            assert(v.deep_view()[i as int] == v@[i as int]@);
        }
        if crate::strutil::str_eq(v[i].as_str(), t) {
            assert(v.deep_view().contains(t@));
            return true;
        }
        i += 1;
    }
    false
}

/// Whether a token references a response file.
pub(crate) fn is_ref_exec(t: &str) -> (r: bool)
    ensures
        r == is_ref_token(t@),
{
    !t.is_empty() && t.get_char(0) == '@'
}

/// Scans one response file's token list: collected tokens leave the
/// list and join `result`, deduplicated in first-seen order.
fn scan_list(
    tokens: &mut Vec<String>,
    value: &String,
    before: &Option<String>,
    after: &Option<String>,
    result: &mut Vec<String>,
)
    ensures
        ({
            let end = plain_scan(
                old(tokens).deep_view(),
                value@,
                anchor_of(opt_view(*before), opt_view(*after)),
                old(result).deep_view(),
            );
            final(tokens).deep_view() == end.kept && final(result).deep_view() == end.acc
        }),
{
    let ghost tv = tokens.deep_view();
    let ghost acc0 = result.deep_view();
    let ghost anch = anchor_of(opt_view(*before), opt_view(*after));
    let mut kept: Vec<String> = Vec::new();
    proof {
        assert(kept.deep_view() =~= Seq::<Seq<char>>::empty());
    }
    let mut i: usize = 0;
    while i < tokens.len()
        invariant
            i <= tokens.len(),
            tv == tokens.deep_view(),
            tv.len() == tokens.len(),
            anch == anchor_of(opt_view(*before), opt_view(*after)),
            ({
                let st = plain_upto(tv, value@, anch, acc0, i as int);
                st.kept == kept.deep_view() && st.acc == result.deep_view()
            }),
        decreases tokens.len() - i,
    {
        let ghost st = plain_upto(tv, value@, anch, acc0, i as int);
        let t = &tokens[i];
        proof {
            assert(tv[i as int] == tokens@[i as int]@);
        }
        let anchored: bool = match before {
            Some(b) => {
                if kept.len() > 0 {
                    proof {
                        assert(kept.deep_view()[kept.len() - 1] == kept@[kept.len() - 1]@);
                        assert(kept.deep_view().last() == kept.deep_view()[kept.len() - 1]);
                    }
                    str_ends_with(kept[kept.len() - 1].as_str(), b.as_str())
                } else {
                    false
                }
            },
            None => match after {
                Some(a) => {
                    if i + 1 < tokens.len() {
                        proof {
                            assert(tv[i + 1 as int] == tokens@[i + 1 as int]@);
                            assert(next_of(tv, i as int) == Some(tv[i + 1 as int]));
                        }
                        str_ends_with(tokens[i + 1].as_str(), a.as_str())
                    } else {
                        false
                    }
                },
                None => true,
            },
        };
        proof {
            assert(anchored == anchor_ok(anch, st.kept, next_of(tv, i as int)));
        }
        let collect = !is_ref_exec(t.as_str()) && str_ends_with(t.as_str(), value.as_str())
            && anchored;
        proof {
            assert(collect == (!is_ref_token(tv[i as int]) && suffix_matches(tv[i as int], value@)
                && anchor_ok(anch, st.kept, next_of(tv, i as int))));
        }
        if collect {
            if !vec_contains(result, t.as_str()) {
                let ghost rv = result.deep_view();
                result.push(t.clone());
                proof {
                    assert(result.deep_view() =~= rv.push(tv[i as int]));
                }
            }
        } else {
            let ghost kv = kept.deep_view();
            kept.push(t.clone());
            proof {
                assert(kept.deep_view() =~= kv.push(tv[i as int]));
            }
        }
        proof {
            assert(plain_upto(tv, value@, anch, acc0, i + 1) == plain_step(
                st,
                tv[i as int],
                next_of(tv, i as int),
                value@,
                anch,
            ));
        }
        i += 1;
    }
    *tokens = kept;
}

/// Looks up the response file loaded for `path`, by index.
pub(crate) fn find_file_index(files: &Vec<ResponseFile>, path: &str) -> (r: Option<usize>)
    ensures
        match r {
            Some(i) => file_index(files.deep_view(), path@) == i as int && (i as int)
                < files.deep_view().len(),
            None => file_index(files.deep_view(), path@) < 0,
        },
{
    proof {
        lemma_file_index_first(files.deep_view(), path@);
    }
    let ghost fv = files.deep_view();
    let mut i: usize = 0;
    while i < files.len()
        invariant
            i <= files.len(),
            fv == files.deep_view(),
            fv.len() == files.len(),
            forall|k: int| 0 <= k < i ==> fv[k].original_path != path@,
            file_index(fv, path@) >= 0 ==> 0 <= file_index(fv, path@) < fv.len() && fv[file_index(
                fv,
                path@,
            )].original_path == path@ && forall|k: int|
                0 <= k < file_index(fv, path@) ==> fv[k].original_path != path@,
            file_index(fv, path@) < 0 ==> forall|k: int|
                0 <= k < fv.len() ==> fv[k].original_path != path@,
        decreases files.len() - i,
    {
        let f = &files[i];
        proof {
            assert(fv[i as int] == files@[i as int].deep_view());
        }
        if crate::strutil::str_eq(f.original_path.as_str(), path) {
            proof {
                let fi = file_index(fv, path@);
                assert(fv[i as int].original_path == path@);
                if fi < 0 {
                    assert(false);
                }
                if fi < i as int {
                    assert(fv[fi].original_path != path@);
                    assert(false);
                }
                if fi > i as int {
                    assert(fv[i as int].original_path != path@);
                    assert(false);
                }
            }
            return Some(i);
        }
        i += 1;
    }
    None
}

/// Collects every anchored suffix match out of the top-level list and,
/// through each `@path` reference, out of that response file's list.
/// Collected tokens are removed where they stood; the deduplicated
/// collection, in first-seen order, is returned for the caller to
/// splice.  A file some of whose tokens left is marked changed.
pub fn remove_argument(
    value: String,
    before: Option<String>,
    after: Option<String>,
    store: &mut ArgumentStore,
) -> (collected: Vec<String>)
    ensures
        ({
            let st = relocate_collect(
                old(store)@,
                value@,
                anchor_of(opt_view(before), opt_view(after)),
            );
            final(store)@.arguments == st.kept && final(store)@.files == st.files
                && collected.deep_view() == st.acc
        }),
{
    let ghost av = store@.arguments;
    let ghost fv0 = store@.files;
    let ghost anch = anchor_of(opt_view(before), opt_view(after));
    let mut kept: Vec<String> = Vec::new();
    let mut result: Vec<String> = Vec::new();
    proof {
        assert(kept.deep_view() =~= Seq::<Seq<char>>::empty());
        assert(result.deep_view() =~= Seq::<Seq<char>>::empty());
    }
    let mut i: usize = 0;
    while i < store.arguments.len()
        invariant
            i <= store.arguments.len(),
            av == store@.arguments,
            av.len() == store.arguments.len(),
            anch == anchor_of(opt_view(before), opt_view(after)),
            ({
                let st = top_upto(av, value@, anch, fv0, i as int);
                st.kept == kept.deep_view() && st.acc == result.deep_view() && st.files
                    == store@.files
            }),
        decreases store.arguments.len() - i,
    {
        let ghost st = top_upto(av, value@, anch, fv0, i as int);
        let t = store.arguments[i].clone();
        proof {
            assert(av[i as int] == store.arguments@[i as int]@);
        }
        if is_ref_exec(t.as_str()) {
            let tl = t.as_str().unicode_len();
            let path = t.as_str().substring_char(1, tl);
            proof {
                assert(path@ == ref_path(av[i as int]));
            }
            match find_file_index(&store.files, path) {
                Some(fi) => {
                    let ghost prev = store.files@;
                    let mut f: ResponseFile = store.files.remove(fi);
                    proof {
                        assert(st.files[fi as int] == prev[fi as int].deep_view());
                        assert(f@ == st.files[fi as int]);
                    }
                    let old_len = f.tokens.len();
                    scan_list(&mut f.tokens, &value, &before, &after, &mut result);
                    if f.tokens.len() != old_len {
                        f.changed = true;
                    }
                    proof {
                        let inner = plain_scan(st.files[fi as int].tokens, value@, anch, st.acc);
                        assert(f@ == rf_after_scan(st.files[fi as int], inner));
                    }
                    store.files.insert(fi, f);
                    proof {
                        let inner = plain_scan(st.files[fi as int].tokens, value@, anch, st.acc);
                        assert forall|k: int| 0 <= k < st.files.len() implies store@.files[k] == (
                        if k == fi as int {
                            rf_after_scan(st.files[k], inner)
                        } else {
                            st.files[k]
                        }) by {
                            assert(store@.files[k] == store.files@[k].deep_view());
                            if k != fi as int {
                                assert(store.files@[k] == prev[k]);
                                assert(st.files[k] == prev[k].deep_view());
                            }
                        }
                        assert(store@.files =~= st.files.update(
                            file_index(st.files, ref_path(av[i as int])),
                            rf_after_scan(
                                st.files[file_index(st.files, ref_path(av[i as int]))],
                                inner,
                            ),
                        ));
                    }
                    let ghost kv = kept.deep_view();
                    kept.push(t);
                    proof {
                        assert(kept.deep_view() =~= kv.push(av[i as int]));
                    }
                },
                None => {
                    let ghost kv = kept.deep_view();
                    kept.push(t);
                    proof {
                        assert(kept.deep_view() =~= kv.push(av[i as int]));
                    }
                },
            }
        } else {
            let anchored: bool = match &before {
                Some(b) => {
                    if kept.len() > 0 {
                        proof {
                            assert(kept.deep_view()[kept.len() - 1] == kept@[kept.len() - 1]@);
                            assert(kept.deep_view().last() == kept.deep_view()[kept.len() - 1]);
                        }
                        str_ends_with(kept[kept.len() - 1].as_str(), b.as_str())
                    } else {
                        false
                    }
                },
                None => match &after {
                    Some(a) => {
                        if i + 1 < store.arguments.len() {
                            proof {
                                assert(av[i + 1 as int] == store.arguments@[i + 1 as int]@);
                                assert(next_of(av, i as int) == Some(av[i + 1 as int]));
                            }
                            str_ends_with(store.arguments[i + 1].as_str(), a.as_str())
                        } else {
                            false
                        }
                    },
                    None => true,
                },
            };
            proof {
                assert(anchored == anchor_ok(anch, st.kept, next_of(av, i as int)));
            }
            let collect = str_ends_with(t.as_str(), value.as_str()) && anchored;
            if collect {
                if !vec_contains(&result, t.as_str()) {
                    let ghost rv = result.deep_view();
                    result.push(t);
                    proof {
                        assert(result.deep_view() =~= rv.push(av[i as int]));
                    }
                }
            } else {
                let ghost kv = kept.deep_view();
                kept.push(t);
                proof {
                    assert(kept.deep_view() =~= kv.push(av[i as int]));
                }
            }
        }
        proof {
            assert(top_upto(av, value@, anch, fv0, i + 1) == top_step(
                st,
                av[i as int],
                next_of(av, i as int),
                value@,
                anch,
            ));
        }
        i += 1;
    }
    store.arguments = kept;
    result
}

/// A relocation never disturbs a reference token: the top-level scan
/// keeps every token that names a response file exactly where it
/// stands, whether or not that file is loaded.
pub proof fn lemma_relocate_keeps_references(
    st: TopState,
    t: Seq<char>,
    next: Option<Seq<char>>,
    value: Seq<char>,
    anch: AnchorView,
)
    requires
        is_ref_token(t),
    ensures
        top_step(st, t, next, value, anch).kept == st.kept.push(t),
{
}

/// The scan leaves every response file at its place, under its paths.
pub proof fn lemma_top_files_paths(
    ts: Seq<Seq<char>>,
    value: Seq<char>,
    anch: AnchorView,
    files0: Seq<ResponseFileView>,
    i: int,
)
    ensures
        top_upto(ts, value, anch, files0, i).files.len() == files0.len(),
        forall|k: int|
            0 <= k < files0.len() ==> (#[trigger] top_upto(ts, value, anch, files0, i).files[k]).original_path
                == files0[k].original_path && top_upto(ts, value, anch, files0, i).files[k].new_path
                == files0[k].new_path,
    decreases i,
{
    if i <= 0 {
    } else {
        lemma_top_files_paths(ts, value, anch, files0, i - 1);
        let st = top_upto(ts, value, anch, files0, i - 1);
        let st2 = top_upto(ts, value, anch, files0, i);
        let t = ts[i - 1];
        if is_ref_token(t) {
            lemma_file_index_first(st.files, ref_path(t));
        }
        assert forall|k: int| 0 <= k < files0.len() implies (#[trigger] st2.files[k]).original_path
            == files0[k].original_path && st2.files[k].new_path == files0[k].new_path by {
            assert(st.files[k].original_path == files0[k].original_path);
            assert(st.files[k].new_path == files0[k].new_path);
        }
    }
}

/// The collection never shrinks as the scan of one list advances.
proof fn lemma_plain_acc_monotone(
    ts: Seq<Seq<char>>,
    value: Seq<char>,
    anch: AnchorView,
    acc0: Seq<Seq<char>>,
    i: int,
)
    ensures
        plain_upto(ts, value, anch, acc0, i).acc.len() >= acc0.len(),
    decreases i,
{
    if i <= 0 {
    } else {
        lemma_plain_acc_monotone(ts, value, anch, acc0, i - 1);
    }
}

/// A list scan that collected nothing kept every token in place.
proof fn lemma_plain_no_collect(
    ts: Seq<Seq<char>>,
    value: Seq<char>,
    anch: AnchorView,
    acc0: Seq<Seq<char>>,
    i: int,
)
    requires
        0 <= i <= ts.len(),
    ensures
        ({
            let st = plain_upto(ts, value, anch, acc0, i);
            (st.acc.len() == 0 && acc0.len() == 0) ==> st.acc == acc0 && st.kept == ts.subrange(
                0,
                i,
            )
        }),
    decreases i,
{
    if i == 0 {
        assert(ts.subrange(0, 0) =~= Seq::<Seq<char>>::empty());
        assert(plain_upto(ts, value, anch, acc0, 0).acc == acc0);
    } else {
        lemma_plain_no_collect(ts, value, anch, acc0, i - 1);
        lemma_plain_acc_monotone(ts, value, anch, acc0, i - 1);
        let st = plain_upto(ts, value, anch, acc0, i - 1);
        let st2 = plain_upto(ts, value, anch, acc0, i);
        if st2.acc.len() == 0 && acc0.len() == 0 {
            assert(st.acc.len() == 0);
            assert(st2.kept =~= st.kept.push(ts[i - 1]));
            assert(st.kept.push(ts[i - 1]) =~= ts.subrange(0, i));
        }
    }
}

/// A top-level scan that collected nothing kept the arguments and every
/// file exactly as they were.
proof fn lemma_top_no_collect(
    ts: Seq<Seq<char>>,
    value: Seq<char>,
    anch: AnchorView,
    files0: Seq<ResponseFileView>,
    i: int,
)
    requires
        0 <= i <= ts.len(),
    ensures
        ({
            let st = top_upto(ts, value, anch, files0, i);
            st.acc.len() == 0 ==> st.kept == ts.subrange(0, i) && st.files == files0
        }),
    decreases i,
{
    if i == 0 {
        assert(ts.subrange(0, 0) =~= Seq::<Seq<char>>::empty());
    } else {
        lemma_top_no_collect(ts, value, anch, files0, i - 1);
        let st = top_upto(ts, value, anch, files0, i - 1);
        let st2 = top_upto(ts, value, anch, files0, i);
        let t = ts[i - 1];
        if is_ref_token(t) && file_index(st.files, ref_path(t)) >= 0 {
            lemma_file_index_first(st.files, ref_path(t));
            let fi = file_index(st.files, ref_path(t));
            let f = st.files[fi];
            lemma_plain_acc_monotone(f.tokens, value, anch, st.acc, f.tokens.len() as int);
        }
        if st2.acc.len() == 0 {
            assert(st.acc.len() == 0);
            assert(st.kept == ts.subrange(0, i - 1));
            assert(st.files == files0);
            if is_ref_token(t) && file_index(st.files, ref_path(t)) >= 0 {
                let fi = file_index(st.files, ref_path(t));
                let f = st.files[fi];
                let inner = plain_scan(f.tokens, value, anch, st.acc);
                lemma_plain_no_collect(f.tokens, value, anch, st.acc, f.tokens.len() as int);
                assert(inner.kept =~= f.tokens);
                assert(rf_after_scan(f, inner) =~= f);
                assert(st.files.update(fi, rf_after_scan(f, inner)) =~= st.files);
            }
            assert(st2.kept =~= st.kept.push(t));
            assert(st.kept.push(t) =~= ts.subrange(0, i));
        }
    }
}

/// A relocation with zero matches leaves the store as it was: the
/// top-level list, every file's tokens and every changed flag are
/// untouched.
pub proof fn lemma_relocate_no_matches(
    sv: StoreView,
    value: Seq<char>,
    anch: AnchorView,
    to_front: bool,
)
    requires
        relocate_collect(sv, value, anch).acc.len() == 0,
    ensures
        relocate_store(sv, value, anch, to_front) == sv,
{
    lemma_top_no_collect(sv.arguments, value, anch, sv.files, sv.arguments.len() as int);
    let st = relocate_collect(sv, value, anch);
    assert(st.kept =~= sv.arguments);
    assert(st.acc + st.kept =~= sv.arguments);
    assert(st.kept + st.acc =~= sv.arguments);
    assert(relocate_store(sv, value, anch, to_front) =~= sv);
}

/// Relocation touches no file's key, so well-formedness carries over.
pub proof fn lemma_relocate_wf(sv: StoreView, value: Seq<char>, anch: AnchorView, to_front: bool)
    ensures
        crate::store::store_wf(relocate_store(sv, value, anch, to_front)) == crate::store::store_wf(
            sv,
        ),
{
    lemma_top_files_paths(sv.arguments, value, anch, sv.files, sv.arguments.len() as int);
    crate::store::lemma_store_wf_same_paths(relocate_store(sv, value, anch, to_front), sv);
}

/// Moves every suffix match of `value` to the back of the top-level
/// list; with an anchor, only matches whose kept predecessor ends with
/// it.
pub fn move_to_back_for_before_feature(
    value: String,
    before: Option<String>,
    store: &mut ArgumentStore,
)
    ensures
        final(store)@ == relocate_store(
            old(store)@,
            value@,
            anchor_of(opt_view(before), None),
            false,
        ),
        final(store).wf() == old(store).wf(),
{
    let ghost sv = store@;
    let ghost anch = anchor_of(opt_view(before), None);
    let ghost vw = value@;
    let mut result = remove_argument(value, before, None, store);
    let ghost ad = store@.arguments;
    store.arguments.append(&mut result);
    proof {
        let st = relocate_collect(sv, vw, anch);
        assert(store@.arguments =~= st.kept + st.acc);
        assert(store@ =~= relocate_store(sv, vw, anch, false));
        lemma_relocate_wf(sv, vw, anch, false);
    }
}

/// Moves every suffix match of `value` to the back of the top-level
/// list; with an anchor, only matches whose following token ends with
/// it.
pub fn move_to_back_for_after_feature(
    value: String,
    after: Option<String>,
    store: &mut ArgumentStore,
)
    ensures
        final(store)@ == relocate_store(
            old(store)@,
            value@,
            anchor_of(None, opt_view(after)),
            false,
        ),
        final(store).wf() == old(store).wf(),
{
    let ghost sv = store@;
    let ghost anch = anchor_of(None, opt_view(after));
    let ghost vw = value@;
    let mut result = remove_argument(value, None, after, store);
    store.arguments.append(&mut result);
    proof {
        let st = relocate_collect(sv, vw, anch);
        assert(store@.arguments =~= st.kept + st.acc);
        assert(store@ =~= relocate_store(sv, vw, anch, false));
        lemma_relocate_wf(sv, vw, anch, false);
    }
}

/// Moves every suffix match of `value` to the front of the top-level
/// list; with an anchor, only matches whose kept predecessor ends with
/// it.
pub fn move_to_front_for_before_feature(
    value: String,
    before: Option<String>,
    store: &mut ArgumentStore,
)
    ensures
        final(store)@ == relocate_store(
            old(store)@,
            value@,
            anchor_of(opt_view(before), None),
            true,
        ),
        final(store).wf() == old(store).wf(),
{
    let ghost sv = store@;
    let ghost anch = anchor_of(opt_view(before), None);
    let ghost vw = value@;
    let mut result = remove_argument(value, before, None, store);
    result.append(&mut store.arguments);
    store.arguments = result;
    proof {
        let st = relocate_collect(sv, vw, anch);
        assert(store@.arguments =~= st.acc + st.kept);
        assert(store@ =~= relocate_store(sv, vw, anch, true));
        lemma_relocate_wf(sv, vw, anch, true);
    }
}

/// Moves every suffix match of `value` to the front of the top-level
/// list; with an anchor, only matches whose following token ends with
/// it.
pub fn move_to_front_for_after_feature(
    value: String,
    after: Option<String>,
    store: &mut ArgumentStore,
)
    ensures
        final(store)@ == relocate_store(
            old(store)@,
            value@,
            anchor_of(None, opt_view(after)),
            true,
        ),
        final(store).wf() == old(store).wf(),
{
    let ghost sv = store@;
    let ghost anch = anchor_of(None, opt_view(after));
    let ghost vw = value@;
    let mut result = remove_argument(value, None, after, store);
    result.append(&mut store.arguments);
    store.arguments = result;
    proof {
        let st = relocate_collect(sv, vw, anch);
        assert(store@.arguments =~= st.acc + st.kept);
        assert(store@ =~= relocate_store(sv, vw, anch, true));
        lemma_relocate_wf(sv, vw, anch, true);
    }
}

} // verus!
