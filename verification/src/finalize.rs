//! Finalization: for every response file a transformation changed, the
//! rewritten token list is serialized into text destined for the file's
//! scratch path, and every top-level token `@original` is rewritten to
//! `@new`.  Unchanged files are left untouched and get no scratch file.
//! The actual writing, and the teardown that deletes the scratch files
//! again, is the caller's: this step only computes what to write.

use vstd::prelude::*;

use crate::codec::serialize_spec;
use crate::codec::tokenize_spec;
use crate::codec::token_round_trips;
use crate::store::ArgumentStore;
use crate::store::StoreView;
use crate::store::store_wf;
use crate::transform::replace_tokens;
use vstd::string::StrSliceExecFns;
use vstd::string::StringExecFns;

verus! {

/// One scratch file to be written: its path and its full text.
pub struct FileWrite {
    pub path: String,
    pub content: String,
}

/// Mathematical view of a [`FileWrite`].
#[verifier::ext_equal]
pub ghost struct FileWriteView {
    pub path: Seq<char>,
    pub content: Seq<char>,
}

impl View for FileWrite {
    type V = FileWriteView;

    open spec fn view(&self) -> FileWriteView {
        FileWriteView { path: self.path@, content: self.content@ }
    }
}

impl DeepView for FileWrite {
    type V = FileWriteView;

    open spec fn deep_view(&self) -> FileWriteView {
        self.view()
    }
}

/// The reference token for a path.
pub open spec fn at_path(p: Seq<char>) -> Seq<char> {
    seq!['@'] + p
}

/// State of finalization: the top-level list as rewritten so far and
/// the scratch files scheduled so far.
#[verifier::ext_equal]
pub ghost struct FinalizeState {
    pub arguments: Seq<Seq<char>>,
    pub writes: Seq<FileWriteView>,
}

/// One response file advances finalization: a changed file schedules
/// its serialized tokens for its scratch path and renames its reference
/// tokens; an unchanged file does nothing.
pub open spec fn finalize_step(st: FinalizeState, f: crate::store::ResponseFileView) -> FinalizeState {
    if f.changed {
        FinalizeState {
            arguments: replace_tokens(st.arguments, at_path(f.original_path), at_path(f.new_path)),
            writes: st.writes.push(
                FileWriteView { path: f.new_path, content: serialize_spec(f.tokens) },
            ),
        }
    } else {
        st
    }
}

/// Finalization after the first `i` response files.
pub open spec fn finalize_upto(sv: StoreView, i: int) -> FinalizeState
    decreases i,
{
    if i <= 0 {
        FinalizeState { arguments: sv.arguments, writes: Seq::empty() }
    } else {
        finalize_step(finalize_upto(sv, i - 1), sv.files[i - 1])
    }
}

/// The whole finalization of a store.
pub open spec fn finalize_spec(sv: StoreView) -> FinalizeState {
    finalize_upto(sv, sv.files.len() as int)
}

/// Computes the scratch files to write and substitutes the top-level
/// reference tokens.  The store's response files themselves are left
/// exactly as they are.
pub fn finalize(store: &mut ArgumentStore) -> (writes: Vec<FileWrite>)
    ensures
        final(store)@.files == old(store)@.files,
        final(store).wf() == old(store).wf(),
        ({
            let end = finalize_spec(old(store)@);
            final(store)@.arguments == end.arguments && writes.deep_view() == end.writes
        }),
{
    let ghost sv = store@;
    let mut writes: Vec<FileWrite> = Vec::new();
    proof {
        assert(writes.deep_view() =~= Seq::<FileWriteView>::empty());
    }
    let mut fi: usize = 0;
    while fi < store.files.len()
        invariant
            fi <= store.files.len(),
            store@.files == sv.files,
            sv.files.len() == store.files.len(),
            ({
                let st = finalize_upto(sv, fi as int);
                st.arguments == store@.arguments && st.writes == writes.deep_view()
            }),
        decreases store.files.len() - fi,
    {
        let ghost st = finalize_upto(sv, fi as int);
        proof {
            assert(sv.files[fi as int] == store.files@[fi as int].deep_view());
        }
        if store.files[fi].changed {
            let f = &store.files[fi];
            let content = crate::codec::serialize(&f.tokens);
            let mut from = String::from_str("@");
            from.append(f.original_path.as_str());
            let mut to = String::from_str("@");
            to.append(f.new_path.as_str());
            proof {
                reveal_strlit("@");
                assert("@"@ =~= seq!['@']);
                assert(from@ == at_path(sv.files[fi as int].original_path));
                assert(to@ == at_path(sv.files[fi as int].new_path));
            }
            let w = FileWrite { path: f.new_path.clone(), content };
            let ghost wv = writes.deep_view();
            writes.push(w);
            proof {
                assert(writes.deep_view() =~= wv.push(
                    (FileWriteView {
                        path: sv.files[fi as int].new_path,
                        content: serialize_spec(sv.files[fi as int].tokens),
                    }),
                ));
            }
            crate::transform::replace_in_vec(&mut store.arguments, &from, &to);
        }
        proof {
            assert(finalize_upto(sv, fi + 1) == finalize_step(st, sv.files[fi as int]));
        }
        fi += 1;
    }
    writes
}

/// The scratch paths of all loaded response files, for the teardown
/// that deletes whatever was materialized.
pub fn scratch_paths(store: &ArgumentStore) -> (paths: Vec<String>)
    ensures
        paths.deep_view() == Seq::new(store@.files.len(), |i: int| store@.files[i].new_path),
{
    let mut paths: Vec<String> = Vec::new();
    let mut fi: usize = 0;
    while fi < store.files.len()
        invariant
            fi <= store.files.len(),
            store@.files.len() == store.files.len(),
            paths.deep_view() == Seq::new(fi as nat, |i: int| store@.files[i].new_path),
        decreases store.files.len() - fi,
    {
        let ghost pv = paths.deep_view();
        proof {
            assert(store@.files[fi as int] == store.files@[fi as int].deep_view());
        }
        paths.push(store.files[fi].new_path.clone());
        proof {
            assert(paths.deep_view() =~= pv.push(store@.files[fi as int].new_path));
            assert(paths.deep_view() =~= Seq::new((fi + 1) as nat, |i: int| store@.files[i].new_path));
        }
        fi += 1;
    }
    proof {
        assert(paths.deep_view() =~= Seq::new(
            store@.files.len(),
            |i: int| store@.files[i].new_path,
        ));
    }
    paths
}

/// A reference token determines its path.
proof fn lemma_at_path_injective(p: Seq<char>, q: Seq<char>)
    ensures
        (at_path(p) == at_path(q)) == (p == q),
{
    if at_path(p) == at_path(q) {
        assert(at_path(p).drop_first() =~= p);
        assert(at_path(q).drop_first() =~= q);
    }
    if p == q {
        assert(at_path(p) =~= at_path(q));
    }
}

/// Earlier writes stay in place as finalization goes on.
proof fn lemma_finalize_writes_monotone(sv: StoreView, m1: int, m2: int)
    requires
        0 <= m1 <= m2,
    ensures
        finalize_upto(sv, m1).writes.len() <= finalize_upto(sv, m2).writes.len(),
        forall|w: int|
            0 <= w < finalize_upto(sv, m1).writes.len() ==> #[trigger] finalize_upto(
                sv,
                m2,
            ).writes[w] == finalize_upto(sv, m1).writes[w],
    decreases m2 - m1,
{
    if m1 < m2 {
        lemma_finalize_writes_monotone(sv, m1, m2 - 1);
    }
}

/// A changed file's rewritten text is scheduled for its scratch path,
/// and tokenizing that text yields exactly the file's token list,
/// provided its tokens are round-trip safe.
pub proof fn lemma_finalize_writes_round_trip(sv: StoreView, i: int)
    requires
        0 <= i < sv.files.len(),
        sv.files[i].changed,
        forall|j: int|
            0 <= j < sv.files[i].tokens.len() ==> token_round_trips(
                #[trigger] sv.files[i].tokens[j],
            ),
    ensures
        exists|w: int|
            0 <= w < finalize_spec(sv).writes.len() && (#[trigger] finalize_spec(
                sv,
            ).writes[w]).path == sv.files[i].new_path && finalize_spec(sv).writes[w].content
                == serialize_spec(sv.files[i].tokens) && tokenize_spec(
                finalize_spec(sv).writes[w].content,
            ) == sv.files[i].tokens,
{
    let st = finalize_upto(sv, i);
    let st2 = finalize_upto(sv, i + 1);
    let wi = st.writes.len() as int;
    assert(st2 == finalize_step(st, sv.files[i]));
    assert(st2.writes[wi].path == sv.files[i].new_path);
    assert(st2.writes[wi].content == serialize_spec(sv.files[i].tokens));
    lemma_finalize_writes_monotone(sv, i + 1, sv.files.len() as int);
    assert(finalize_spec(sv).writes[wi] == st2.writes[wi]);
    crate::codec::lemma_tokenize_serialize_round_trip(sv.files[i].tokens);
    assert(0 <= wi < finalize_spec(sv).writes.len() && finalize_spec(sv).writes[wi].path
        == sv.files[i].new_path && finalize_spec(sv).writes[wi].content == serialize_spec(
        sv.files[i].tokens,
    ) && tokenize_spec(finalize_spec(sv).writes[wi].content) == sv.files[i].tokens);
}

/// The rename lemma's induction: a reference token to a changed file's
/// original path is untouched by the steps before that file's turn and
/// names the scratch path from that turn on.
proof fn lemma_finalize_renames_upto(sv: StoreView, i: int, k: int, m: int)
    requires
        store_wf(sv),
        forall|a: int, b: int|
            0 <= a < sv.files.len() && 0 <= b < sv.files.len() ==> (#[trigger] sv.files[a].new_path)
                != (#[trigger] sv.files[b].original_path),
        0 <= i < sv.files.len(),
        sv.files[i].changed,
        0 <= k < sv.arguments.len(),
        sv.arguments[k] == at_path(sv.files[i].original_path),
        0 <= m <= sv.files.len(),
    ensures
        finalize_upto(sv, m).arguments.len() == sv.arguments.len(),
        m <= i ==> finalize_upto(sv, m).arguments[k] == at_path(sv.files[i].original_path),
        m > i ==> finalize_upto(sv, m).arguments[k] == at_path(sv.files[i].new_path),
    decreases m,
{
    if m > 0 {
        lemma_finalize_renames_upto(sv, i, k, m - 1);
        let st = finalize_upto(sv, m - 1);
        let st2 = finalize_upto(sv, m);
        let j = m - 1;
        let f = sv.files[j];
        if f.changed {
            assert(st2.arguments == replace_tokens(
                st.arguments,
                at_path(f.original_path),
                at_path(f.new_path),
            ));
            if j == i {
                assert(st2.arguments[k] == at_path(f.new_path));
            } else if j < i {
                lemma_at_path_injective(sv.files[i].original_path, f.original_path);
                assert(st2.arguments[k] == at_path(sv.files[i].original_path));
            } else {
                lemma_at_path_injective(sv.files[i].new_path, f.original_path);
                assert(st2.arguments[k] == at_path(sv.files[i].new_path));
            }
        }
    }
}

/// After finalization, a top-level token that named a changed file's
/// original path names its scratch path, provided no scratch path
/// collides with an original path.
pub proof fn lemma_finalize_renames(sv: StoreView, i: int, k: int)
    requires
        store_wf(sv),
        forall|a: int, b: int|
            0 <= a < sv.files.len() && 0 <= b < sv.files.len() ==> (#[trigger] sv.files[a].new_path)
                != (#[trigger] sv.files[b].original_path),
        0 <= i < sv.files.len(),
        sv.files[i].changed,
        0 <= k < sv.arguments.len(),
        sv.arguments[k] == at_path(sv.files[i].original_path),
    ensures
        finalize_spec(sv).arguments.len() == sv.arguments.len(),
        finalize_spec(sv).arguments[k] == at_path(sv.files[i].new_path),
{
    lemma_finalize_renames_upto(sv, i, k, sv.files.len() as int);
}

} // verus!
