//! Verified helpers over `&str` and `String`: suffix/prefix matching,
//! equality, character search, and character-wise string building.

use vstd::prelude::*;
use vstd::string::StrSliceExecFns;

verus! {

/// `suf` is a suffix of `t`.
pub open spec fn suffix_matches(t: Seq<char>, suf: Seq<char>) -> bool {
    suf.len() <= t.len() && t.subrange(t.len() - suf.len(), t.len() as int) == suf
}

/// `pre` is a prefix of `t`.
pub open spec fn prefix_matches(t: Seq<char>, pre: Seq<char>) -> bool {
    pre.len() <= t.len() && t.subrange(0, pre.len() as int) == pre
}

/// Character-wise suffix test, as the anchored-relocation matcher uses it.
pub fn str_ends_with(t: &str, suf: &str) -> (r: bool)
    ensures
        r == suffix_matches(t@, suf@),
{
    let tl: usize = t.unicode_len();
    let sl: usize = suf.unicode_len();
    if sl > tl {
        return false;
    }
    let start: usize = tl - sl;
    let mut j: usize = 0;
    while j < sl
        invariant
            sl <= tl,
            start == tl - sl,
            tl == t@.len(),
            sl == suf@.len(),
            j <= sl,
            forall|k: int| 0 <= k < j ==> t@[start + k] == suf@[k],
        decreases sl - j,
    {
        if t.get_char(start + j) != suf.get_char(j) {
            assert(!suffix_matches(t@, suf@)) by {
                if suffix_matches(t@, suf@) {
                    assert(t@.subrange(tl - sl, tl as int)[j as int] == suf@[j as int]);
                }
            }
            return false;
        }
        j += 1;
    }
    assert(t@.subrange(tl - sl, tl as int) =~= suf@);
    true
}

/// Character-wise prefix test.
pub fn str_starts_with(t: &str, pre: &str) -> (r: bool)
    ensures
        r == prefix_matches(t@, pre@),
{
    let tl: usize = t.unicode_len();
    let pl: usize = pre.unicode_len();
    if pl > tl {
        return false;
    }
    let mut j: usize = 0;
    while j < pl
        invariant
            pl <= tl,
            tl == t@.len(),
            pl == pre@.len(),
            j <= pl,
            forall|k: int| 0 <= k < j ==> t@[k] == pre@[k],
        decreases pl - j,
    {
        if t.get_char(j) != pre.get_char(j) {
            assert(!prefix_matches(t@, pre@)) by {
                if prefix_matches(t@, pre@) {
                    assert(t@.subrange(0, pl as int)[j as int] == pre@[j as int]);
                }
            }
            return false;
        }
        j += 1;
    }
    assert(t@.subrange(0, pl as int) =~= pre@);
    true
}

/// Removes a prefix: `Some` with the remainder exactly when `pre` starts `t`.
pub fn strip_prefix_of<'a>(t: &'a str, pre: &str) -> (r: Option<&'a str>)
    ensures
        prefix_matches(t@, pre@) ==> (r matches Some(rest) && rest@ == t@.subrange(
            pre@.len() as int,
            t@.len() as int,
        )),
        !prefix_matches(t@, pre@) ==> r is None,
{
    if str_starts_with(t, pre) {
        let tl: usize = t.unicode_len();
        let pl: usize = pre.unicode_len();
        Some(t.substring_char(pl, tl))
    } else {
        None
    }
}

/// Character-wise equality of two string slices.
pub fn str_eq(a: &str, b: &str) -> (r: bool)
    ensures
        r == (a@ == b@),
{
    let al: usize = a.unicode_len();
    let bl: usize = b.unicode_len();
    if al != bl {
        return false;
    }
    let mut j: usize = 0;
    while j < al
        invariant
            al == a@.len(),
            al == b@.len(),
            j <= al,
            forall|k: int| 0 <= k < j ==> a@[k] == b@[k],
        decreases al - j,
    {
        if a.get_char(j) != b.get_char(j) {
            assert(a@ != b@) by {
                if a@ == b@ {
                    assert(a@[j as int] == b@[j as int]);
                }
            }
            return false;
        }
        j += 1;
    }
    assert(a@ =~= b@);
    true
}

/// First occurrence of `c` in `t`, if any.
pub fn find_char(t: &str, c: char) -> (r: Option<usize>)
    ensures
        match r {
            Some(i) => i < t@.len() && t@[i as int] == c && forall|k: int|
                0 <= k < i ==> t@[k] != c,
            None => forall|k: int| 0 <= k < t@.len() ==> t@[k] != c,
        },
{
    let tl: usize = t.unicode_len();
    let mut j: usize = 0;
    while j < tl
        invariant
            tl == t@.len(),
            j <= tl,
            forall|k: int| 0 <= k < j ==> t@[k] != c,
        decreases tl - j,
    {
        if t.get_char(j) == c {
            return Some(j);
        }
        j += 1;
    }
    None
}

/// Relies on `String::push`: appends one character at the end.
#[verifier::external_body]
pub fn push_char(s: &mut String, c: char)
    ensures
        final(s)@ == old(s)@.push(c),
{
    s.push(c)
}

} // verus!
