//! The remove and replace transformations.  Each operates uniformly on
//! the top-level argument list and on every loaded response file's token
//! list, marking a file changed when its tokens were touched.

use vstd::prelude::*;

use crate::store::ArgumentStore;
use crate::store::ResponseFile;
use crate::store::ResponseFileView;
use crate::store::StoreView;

verus! {

/// Some token of `ts` equals `k`.
pub open spec fn has_token(ts: Seq<Seq<char>>, k: Seq<char>) -> bool {
    exists|i: int| 0 <= i < ts.len() && ts[i] == k
}

/// `ts` with every token equal to `k` deleted.
pub open spec fn remove_tokens(ts: Seq<Seq<char>>, k: Seq<char>) -> Seq<Seq<char>>
    decreases ts.len(),
{
    if ts.len() == 0 {
        Seq::empty()
    } else if ts[0] == k {
        remove_tokens(ts.drop_first(), k)
    } else {
        seq![ts[0]] + remove_tokens(ts.drop_first(), k)
    }
}

/// `ts` with every token equal to `k` overwritten by `v`.
pub open spec fn replace_tokens(ts: Seq<Seq<char>>, k: Seq<char>, v: Seq<char>) -> Seq<Seq<char>> {
    Seq::new(ts.len(), |i: int| if ts[i] == k { v } else { ts[i] })
}

/// Removing over a concatenation removes over the parts in turn.
pub proof fn lemma_remove_tokens_append(a: Seq<Seq<char>>, b: Seq<Seq<char>>, k: Seq<char>)
    ensures
        remove_tokens(a + b, k) == remove_tokens(a, k) + remove_tokens(b, k),
    decreases a.len(),
{
    if a.len() == 0 {
        assert(a + b =~= b);
        assert(remove_tokens(a, k) + remove_tokens(b, k) =~~= remove_tokens(b, k));
    } else {
        assert((a + b).drop_first() =~= a.drop_first() + b);
        assert((a + b)[0] == a[0]);
        lemma_remove_tokens_append(a.drop_first(), b, k);
        if a[0] != k {
            assert(seq![a[0]] + (remove_tokens(a.drop_first(), k) + remove_tokens(b, k)) =~~= (seq![
                a[0],
            ] + remove_tokens(a.drop_first(), k)) + remove_tokens(b, k));
        }
    }
}

/// What removal does: it never grows the list, it leaves no copy of `k`
/// behind, it shrinks the list exactly when a copy of `k` was present,
/// and with none present it is the identity.
pub proof fn lemma_remove_tokens_props(ts: Seq<Seq<char>>, k: Seq<char>)
    ensures
        remove_tokens(ts, k).len() <= ts.len(),
        !has_token(remove_tokens(ts, k), k),
        has_token(ts, k) <==> remove_tokens(ts, k).len() < ts.len(),
        !has_token(ts, k) ==> remove_tokens(ts, k) == ts,
    decreases ts.len(),
{
    if ts.len() == 0 {
    } else {
        lemma_remove_tokens_props(ts.drop_first(), k);
        let rest = remove_tokens(ts.drop_first(), k);
        if ts[0] == k {
            assert(has_token(ts, k));
        } else {
            assert(remove_tokens(ts, k) == seq![ts[0]] + rest);
            assert(forall|i: int|
                0 <= i < rest.len() ==> (seq![ts[0]] + rest)[i + 1] == rest[i]);
            if has_token(ts, k) {
                let i = choose|i: int| 0 <= i < ts.len() && ts[i] == k;
                assert(ts.drop_first()[i - 1] == ts[i]);
                assert(has_token(ts.drop_first(), k));
            }
            if has_token(ts.drop_first(), k) {
                let i = choose|i: int| 0 <= i < ts.drop_first().len() && ts.drop_first()[i] == k;
                assert(ts[i + 1] == ts.drop_first()[i]);
                assert(has_token(ts, k));
            }
            if !has_token(ts, k) {
                assert(seq![ts[0]] + ts.drop_first() =~~= ts);
            }
            if has_token(remove_tokens(ts, k), k) {
                let i = choose|i: int|
                    0 <= i < remove_tokens(ts, k).len() && remove_tokens(ts, k)[i] == k;
                assert(i >= 1);
                assert(rest[i - 1] == k);
            }
        }
    }
}

/// Removing a key twice yields what removing it once yields.
pub proof fn lemma_remove_tokens_idempotent(ts: Seq<Seq<char>>, k: Seq<char>)
    ensures
        remove_tokens(remove_tokens(ts, k), k) == remove_tokens(ts, k),
{
    lemma_remove_tokens_props(ts, k);
    lemma_remove_tokens_props(remove_tokens(ts, k), k);
}

/// Replacing a key that occurs nowhere is the identity.
pub proof fn lemma_replace_tokens_no_target(ts: Seq<Seq<char>>, k: Seq<char>, v: Seq<char>)
    requires
        !has_token(ts, k),
    ensures
        replace_tokens(ts, k, v) == ts,
{
    assert(replace_tokens(ts, k, v) =~~= ts);
}

/// One response file after `Remove(k)` ran over its tokens.
pub open spec fn rf_remove(f: ResponseFileView, k: Seq<char>) -> ResponseFileView {
    ResponseFileView {
        original_path: f.original_path,
        new_path: f.new_path,
        tokens: remove_tokens(f.tokens, k),
        changed: f.changed || has_token(f.tokens, k),
    }
}

/// The whole store after `Remove(k)`.
pub open spec fn remove_store(sv: StoreView, k: Seq<char>) -> StoreView {
    StoreView {
        arguments: remove_tokens(sv.arguments, k),
        files: Seq::new(sv.files.len(), |i: int| rf_remove(sv.files[i], k)),
    }
}

/// One response file after `Replace(k, v)` ran over its tokens.
pub open spec fn rf_replace(f: ResponseFileView, k: Seq<char>, v: Seq<char>) -> ResponseFileView {
    ResponseFileView {
        original_path: f.original_path,
        new_path: f.new_path,
        tokens: replace_tokens(f.tokens, k, v),
        changed: f.changed || has_token(f.tokens, k),
    }
}

/// The whole store after `Replace(k, v)`.
pub open spec fn replace_store(sv: StoreView, k: Seq<char>, v: Seq<char>) -> StoreView {
    StoreView {
        arguments: replace_tokens(sv.arguments, k, v),
        files: Seq::new(sv.files.len(), |i: int| rf_replace(sv.files[i], k, v)),
    }
}

/// `Remove(k)` is idempotent over the whole store, files and flags
/// included.
pub proof fn lemma_remove_store_idempotent(sv: StoreView, k: Seq<char>)
    ensures
        remove_store(remove_store(sv, k), k) == remove_store(sv, k),
{
    lemma_remove_tokens_idempotent(sv.arguments, k);
    assert forall|i: int| 0 <= i < sv.files.len() implies rf_remove(
        rf_remove(sv.files[i], k),
        k,
    ) == rf_remove(sv.files[i], k) by {
        lemma_remove_tokens_idempotent(sv.files[i].tokens, k);
        lemma_remove_tokens_props(sv.files[i].tokens, k);
    }
    assert(remove_store(remove_store(sv, k), k).files =~= remove_store(sv, k).files);
}

/// `Replace(k, v)` with `k` present nowhere leaves the store as it was.
pub proof fn lemma_replace_store_no_target(sv: StoreView, k: Seq<char>, v: Seq<char>)
    requires
        !has_token(sv.arguments, k),
        forall|i: int| 0 <= i < sv.files.len() ==> !has_token(sv.files[i].tokens, k),
    ensures
        replace_store(sv, k, v) == sv,
{
    lemma_replace_tokens_no_target(sv.arguments, k, v);
    assert forall|i: int| 0 <= i < sv.files.len() implies rf_replace(sv.files[i], k, v)
        == sv.files[i] by {
        lemma_replace_tokens_no_target(sv.files[i].tokens, k, v);
    }
    assert(replace_store(sv, k, v).files =~= sv.files);
    assert(replace_store(sv, k, v) =~~= sv);
}

/// Deletes every token equal to `key` from one token list.
fn remove_from_vec(tokens: &mut Vec<String>, key: &String) -> (shrank: bool)
    ensures
        final(tokens).deep_view() == remove_tokens(old(tokens).deep_view(), key@),
        shrank == has_token(old(tokens).deep_view(), key@),
{
    let ghost tv = tokens.deep_view();
    let mut kept: Vec<String> = Vec::new();
    let mut i: usize = 0;
    proof {
        assert(tv.subrange(0, 0) =~= Seq::<Seq<char>>::empty());
        assert(kept.deep_view() =~= Seq::<Seq<char>>::empty());
    }
    while i < tokens.len()
        invariant
            i <= tokens.len(),
            tv == tokens.deep_view(),
            tv.len() == tokens.len(),
            kept.deep_view() == remove_tokens(tv.subrange(0, i as int), key@),
        decreases tokens.len() - i,
    {
        proof {
            let pre = tv.subrange(0, i as int);
            lemma_remove_tokens_append(pre, seq![tv[i as int]], key@);
            assert(tv.subrange(0, i + 1 as int) =~= pre + seq![tv[i as int]]);
            assert(seq![tv[i as int]].drop_first() =~= Seq::<Seq<char>>::empty());
            assert(seq![tv[i as int]][0] == tv[i as int]);
            assert(remove_tokens(Seq::<Seq<char>>::empty(), key@) =~~= Seq::<Seq<char>>::empty());
            if tv[i as int] == key@ {
                assert(remove_tokens(seq![tv[i as int]], key@) =~~= Seq::<Seq<char>>::empty());
            } else {
                assert(remove_tokens(seq![tv[i as int]], key@) == seq![tv[i as int]] + remove_tokens(
                    seq![tv[i as int]].drop_first(),
                    key@,
                ));
                assert(remove_tokens(seq![tv[i as int]], key@) =~~= seq![tv[i as int]]);
            }
        }
        let t = &tokens[i];
        proof {
            assert(tv[i as int] == tokens@[i as int]@);
        }
        if !crate::strutil::str_eq(t.as_str(), key.as_str()) {
            let ghost kv = kept.deep_view();
            kept.push(t.clone());
            proof {
                assert(kept.deep_view() =~= kv.push(tv[i as int]));
                assert(kv.push(tv[i as int]) =~~= kv + seq![tv[i as int]]);
            }
        } else {
            proof {
                assert(kept.deep_view() + Seq::<Seq<char>>::empty() =~~= kept.deep_view());
            }
        }
        i += 1;
    }
    proof {
        assert(tv.subrange(0, tokens.len() as int) =~= tv);
        lemma_remove_tokens_props(tv, key@);
    }
    let shrank = kept.len() < tokens.len();
    *tokens = kept;
    shrank
}

/// Overwrites every token equal to `key` with `value` in one token list.
pub(crate) fn replace_in_vec(tokens: &mut Vec<String>, key: &String, value: &String) -> (found: bool)
    ensures
        final(tokens).deep_view() == replace_tokens(old(tokens).deep_view(), key@, value@),
        found == has_token(old(tokens).deep_view(), key@),
{
    let ghost tv = tokens.deep_view();
    let mut out: Vec<String> = Vec::new();
    let mut found: bool = false;
    let mut i: usize = 0;
    while i < tokens.len()
        invariant
            i <= tokens.len(),
            tv == tokens.deep_view(),
            tv.len() == tokens.len(),
            out.deep_view() == replace_tokens(tv, key@, value@).subrange(0, i as int),
            found == has_token(tv.subrange(0, i as int), key@),
        decreases tokens.len() - i,
    {
        let ghost ov = out.deep_view();
        let t = &tokens[i];
        proof {
            assert(tv[i as int] == tokens@[i as int]@);
        }
        if crate::strutil::str_eq(t.as_str(), key.as_str()) {
            out.push(value.clone());
            found = true;
            proof {
                assert(tv.subrange(0, i + 1 as int)[i as int] == tv[i as int]);
            }
        } else {
            out.push(t.clone());
            proof {
                if has_token(tv.subrange(0, i + 1 as int), key@) {
                    let j = choose|j: int|
                        0 <= j < i + 1 && #[trigger] tv.subrange(0, i + 1 as int)[j] == key@;
                    if j < i {
                        assert(tv.subrange(0, i as int)[j] == key@);
                    }
                }
                if has_token(tv.subrange(0, i as int), key@) {
                    let j = choose|j: int|
                        0 <= j < i && #[trigger] tv.subrange(0, i as int)[j] == key@;
                    assert(tv.subrange(0, i + 1 as int)[j] == key@);
                }
            }
        }
        proof {
            assert(out.deep_view() =~= ov.push(replace_tokens(tv, key@, value@)[i as int]));
            assert(out.deep_view() =~= replace_tokens(tv, key@, value@).subrange(0, i + 1 as int));
        }
        i += 1;
    }
    proof {
        assert(tv.subrange(0, tokens.len() as int) =~= tv);
        assert(replace_tokens(tv, key@, value@).subrange(0, tokens.len() as int) =~= replace_tokens(
            tv,
            key@,
            value@,
        ));
    }
    *tokens = out;
    found
}

/// `Remove(key)`: deletes every token equal to `key` from the top-level
/// list and from every response file's tokens, marking a file changed
/// exactly when some of its tokens were deleted.  The `value` operand of
/// the directive is ignored.
pub fn remove_argument_feature(key: String, value: Option<String>, store: &mut ArgumentStore)
    ensures
        final(store)@ == remove_store(old(store)@, key@),
        final(store).wf() == old(store).wf(),
{
    let _ = value;
    let ghost sv = store@;
    remove_from_vec(&mut store.arguments, &key);
    let mut fi: usize = 0;
    while fi < store.files.len()
        invariant
            fi <= store.files.len(),
            store@.arguments == remove_store(sv, key@).arguments,
            store@.files.len() == sv.files.len(),
            forall|k: int| 0 <= k < fi ==> store@.files[k] == rf_remove(sv.files[k], key@),
            forall|k: int| fi <= k < sv.files.len() ==> store@.files[k] == sv.files[k],
        decreases store.files.len() - fi,
    {
        let ghost before = store@.files;
        let ghost prev = store.files@;
        let mut f: ResponseFile = store.files.remove(fi);
        proof {
            assert(before[fi as int] == prev[fi as int].deep_view());
            assert(f@ == before[fi as int]);
        }
        let shrank = remove_from_vec(&mut f.tokens, &key);
        if shrank {
            f.changed = true;
        }
        proof {
            assert(f@ == rf_remove(sv.files[fi as int], key@));
        }
        store.files.insert(fi, f);
        proof {
            assert forall|k: int| 0 <= k < sv.files.len() implies store@.files[k] == (if k
                == fi as int {
                rf_remove(sv.files[k], key@)
            } else {
                before[k]
            }) by {
                assert(store@.files[k] == store.files@[k].deep_view());
                if k != fi as int {
                    assert(store.files@[k] == prev[k]);
                    assert(before[k] == prev[k].deep_view());
                }
            }
        }
        fi += 1;
    }
    proof {
        assert(store@.files =~= remove_store(sv, key@).files);
        crate::store::lemma_store_wf_same_paths(store@, sv);
    }
}

/// `Replace(key, value)`: overwrites every token equal to `key` with
/// `value` in the top-level list and in every response file's tokens,
/// marking a file changed exactly when it held the key.  A directive
/// with no replacement value is a no-op.
pub fn replace_argument_feature(key: String, value: Option<String>, store: &mut ArgumentStore)
    ensures
        value matches Some(v) ==> final(store)@ == replace_store(old(store)@, key@, v@),
        value is None ==> final(store)@ == old(store)@,
        final(store).wf() == old(store).wf(),
{
    let value = match value {
        Some(v) => v,
        None => {
            return ;
        },
    };
    let ghost sv = store@;
    replace_in_vec(&mut store.arguments, &key, &value);
    let mut fi: usize = 0;
    while fi < store.files.len()
        invariant
            fi <= store.files.len(),
            store@.arguments == replace_store(sv, key@, value@).arguments,
            store@.files.len() == sv.files.len(),
            forall|k: int|
                0 <= k < fi ==> store@.files[k] == rf_replace(sv.files[k], key@, value@),
            forall|k: int| fi <= k < sv.files.len() ==> store@.files[k] == sv.files[k],
        decreases store.files.len() - fi,
    {
        let ghost before = store@.files;
        let ghost prev = store.files@;
        let mut f: ResponseFile = store.files.remove(fi);
        proof {
            assert(before[fi as int] == prev[fi as int].deep_view());
            assert(f@ == before[fi as int]);
        }
        let found = replace_in_vec(&mut f.tokens, &key, &value);
        if found {
            f.changed = true;
        }
        proof {
            assert(f@ == rf_replace(sv.files[fi as int], key@, value@));
        }
        store.files.insert(fi, f);
        proof {
            assert forall|k: int| 0 <= k < sv.files.len() implies store@.files[k] == (if k
                == fi as int {
                rf_replace(sv.files[k], key@, value@)
            } else {
                before[k]
            }) by {
                assert(store@.files[k] == store.files@[k].deep_view());
                if k != fi as int {
                    assert(store.files@[k] == prev[k]);
                    assert(before[k] == prev[k].deep_view());
                }
            }
        }
        fi += 1;
    }
    proof {
        assert(store@.files =~= replace_store(sv, key@, value@).files);
        crate::store::lemma_store_wf_same_paths(store@, sv);
    }
}

} // verus!
