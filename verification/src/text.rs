//! Verified character-level string operations: equality, substring search,
//! and replace-all, the primitives behind hint application.

use vstd::prelude::*;
use vstd::string::*;

verus! {

/// Greatest number of characters a text handled by the engine may have.
/// The bound keeps every fixed-point score computation inside machine
/// integers; a text of this many characters already fills gigabytes.
pub const MAX_TEXT_LEN: usize = 0x4000_0000;

/// The pattern `pat` occurs in `t` starting at character index `i`.
pub open spec fn is_match_at(t: Seq<char>, pat: Seq<char>, i: int) -> bool {
    &&& 0 <= i
    &&& i + pat.len() <= t.len()
    &&& t.subrange(i, i + pat.len() as int) == pat
}

/// The pattern `pat` occurs somewhere in `t`.
pub open spec fn contains_sub(t: Seq<char>, pat: Seq<char>) -> bool {
    exists|i: int| is_match_at(t, pat, i)
}

/// Tail of the result of replacing the empty pattern: every character of `t`
/// followed by a copy of `rep`.
pub open spec fn splice_tail(t: Seq<char>, rep: Seq<char>) -> Seq<char>
    decreases t.len(),
{
    if t.len() == 0 {
        Seq::empty()
    } else {
        seq![t[0]] + rep + splice_tail(t.skip(1), rep)
    }
}

/// Replacement of every occurrence of `pat` in `t` by `rep`, scanning left to
/// right without overlap. An empty pattern matches at every character
/// boundary, as `str::replace` does.
pub open spec fn replace_all_spec(t: Seq<char>, pat: Seq<char>, rep: Seq<char>) -> Seq<char>
    decreases t.len(),
{
    if pat.len() == 0 {
        rep + splice_tail(t, rep)
    } else if t.len() < pat.len() {
        t
    } else if t.subrange(0, pat.len() as int) == pat {
        rep + replace_all_spec(t.skip(pat.len() as int), pat, rep)
    } else {
        seq![t[0]] + replace_all_spec(t.skip(1), pat, rep)
    }
}

/// Character-wise string equality, proved equivalent to equality of the views.
pub fn str_eq(a: &str, b: &str) -> (r: bool)
    ensures
        r == (a@ == b@),
{
    let la = a.unicode_len();
    let lb = b.unicode_len();
    if la != lb {
        return false;
    }
    let mut i: usize = 0;
    while i < la
        invariant
            la == a@.len(),
            la == b@.len(),
            0 <= i <= la,
            forall|k: int| 0 <= k < i ==> a@[k] == b@[k],
        decreases la - i,
    {
        if a.get_char(i) != b.get_char(i) {
            return false;
        }
        i += 1;
    }
    proof {
        assert(a@ =~= b@);
    }
    true
}

/// Whether `pat` occurs in `t` at character index `i`.
pub fn match_at(t: &str, pat: &str, i: usize) -> (r: bool)
    requires
        i + pat@.len() <= t@.len() <= usize::MAX,
    ensures
        r == is_match_at(t@, pat@, i as int),
{
    let m = pat.unicode_len();
    let mut j: usize = 0;
    while j < m
        invariant
            m == pat@.len(),
            i + m <= t@.len() <= usize::MAX,
            0 <= j <= m,
            forall|k: int| 0 <= k < j ==> t@[i + k] == pat@[k],
        decreases m - j,
    {
        if t.get_char(i + j) != pat.get_char(j) {
            proof {
                assert(t@.subrange(i as int, i + m) != pat@) by {
                    assert(t@.subrange(i as int, i + m)[j as int] == t@[i + j]);
                }
            }
            return false;
        }
        j += 1;
    }
    proof {
        assert(t@.subrange(i as int, i + m) =~= pat@);
    }
    true
}

/// Whether `pat` occurs anywhere in `t`.
pub fn contains_str(t: &str, pat: &str) -> (r: bool)
    ensures
        r == contains_sub(t@, pat@),
{
    let n = t.unicode_len();
    let m = pat.unicode_len();
    if m > n {
        proof {
            assert(forall|i: int| !is_match_at(t@, pat@, i));
        }
        return false;
    }
    if m == 0 {
        proof {
            assert(t@.subrange(0, 0) =~= pat@);
            assert(is_match_at(t@, pat@, 0));
        }
        return true;
    }
    let mut i: usize = 0;
    while i <= n - m
        invariant
            n == t@.len(),
            m == pat@.len(),
            1 <= m <= n,
            0 <= i <= n - m + 1,
            forall|k: int| 0 <= k < i ==> !is_match_at(t@, pat@, k),
        decreases n - i,
    {
        if match_at(t, pat, i) {
            return true;
        }
        i += 1;
    }
    proof {
        assert(forall|k: int| is_match_at(t@, pat@, k) ==> 0 <= k <= n - m);
    }
    false
}

/// Replace every occurrence of `pat` in `t` by `rep`.
pub fn replace_all(t: &str, pat: &str, rep: &str) -> (r: String)
    ensures
        r@ == replace_all_spec(t@, pat@, rep@),
{
    let n = t.unicode_len();
    let m = pat.unicode_len();
    let mut res = String::new();
    if m == 0 {
        res.append(rep);
        proof {
            assert(t@.skip(0) =~= t@);
            assert(res@ + splice_tail(t@, rep@) =~= replace_all_spec(t@, pat@, rep@));
        }
        let mut i: usize = 0;
        while i < n
            invariant
                n == t@.len(),
                pat@.len() == 0,
                res@ + splice_tail(t@.skip(i as int), rep@) == replace_all_spec(t@, pat@, rep@),
                0 <= i <= n,
            decreases n - i,
        {
            let ghost prev = res@;
            res.append(t.substring_char(i, i + 1));
            res.append(rep);
            proof {
                assert(t@.subrange(i as int, i + 1) =~= seq![t@[i as int]]);
                assert(t@.skip(i as int)[0] == t@[i as int]);
                assert(t@.skip(i as int).skip(1) =~= t@.skip(i + 1));
                assert(res@ + splice_tail(t@.skip(i + 1), rep@)
                    =~= prev + splice_tail(t@.skip(i as int), rep@));
            }
            i += 1;
        }
        proof {
            assert(splice_tail(t@.skip(n as int), rep@) =~= Seq::<char>::empty());
            assert(res@ =~= res@ + splice_tail(t@.skip(n as int), rep@));
        }
        return res;
    }
    proof {
        assert(t@.skip(0) =~= t@);
        assert(res@ + replace_all_spec(t@, pat@, rep@) =~= replace_all_spec(t@, pat@, rep@));
    }
    let mut i: usize = 0;
    while i < n
        invariant
            n == t@.len(),
            m == pat@.len(),
            m >= 1,
            res@ + replace_all_spec(t@.skip(i as int), pat@, rep@)
                == replace_all_spec(t@, pat@, rep@),
            0 <= i <= n,
        decreases n - i,
    {
        let ghost prev = res@;
        let ghost iold = i as int;
        if m <= n - i && match_at(t, pat, i) {
            res.append(rep);
            i += m;
            proof {
                assert(t@.skip(iold).len() >= m);
                assert(t@.skip(iold).subrange(0, m as int) =~= t@.subrange(iold, iold + m));
                assert(t@.skip(iold).skip(m as int) =~= t@.skip(iold + m));
                assert(res@ + replace_all_spec(t@.skip(i as int), pat@, rep@)
                    =~= prev + replace_all_spec(t@.skip(iold), pat@, rep@));
            }
        } else {
            res.append(t.substring_char(i, i + 1));
            i += 1;
            proof {
                assert(t@.subrange(iold, iold + 1) =~= seq![t@[iold]]);
                assert(t@.skip(iold)[0] == t@[iold]);
                assert(t@.skip(iold).skip(1) =~= t@.skip(iold + 1));
                if t@.skip(iold).len() >= m {
                    assert(t@.skip(iold).subrange(0, m as int) =~= t@.subrange(iold, iold + m));
                    assert(t@.skip(iold).subrange(0, m as int) != pat@);
                }
                assert(res@ + replace_all_spec(t@.skip(i as int), pat@, rep@)
                    =~= prev + replace_all_spec(t@.skip(iold), pat@, rep@));
            }
        }
    }
    proof {
        assert(t@.skip(n as int).len() == 0);
        assert(replace_all_spec(t@.skip(n as int), pat@, rep@) =~= t@.skip(n as int));
        assert(res@ =~= res@ + replace_all_spec(t@.skip(n as int), pat@, rep@));
    }
    res
}

/// A pattern that occurs nowhere in `t` leaves `t` unchanged under
/// replace-all. (The empty pattern occurs in every text, so `pat` is
/// implicitly non-empty here.)
pub proof fn lemma_replace_all_absent(t: Seq<char>, pat: Seq<char>, rep: Seq<char>)
    requires
        !contains_sub(t, pat),
    ensures
        replace_all_spec(t, pat, rep) == t,
    decreases t.len(),
{
    if pat.len() == 0 {
        assert(t.subrange(0, 0) =~= pat);
        assert(is_match_at(t, pat, 0));
    } else if t.len() < pat.len() {
    } else {
        let m = pat.len() as int;
        if t.subrange(0, m) == pat {
            assert(is_match_at(t, pat, 0));
        }
        assert forall|i: int| !is_match_at(t.skip(1), pat, i) by {
            if is_match_at(t.skip(1), pat, i) {
                assert(t.subrange(i + 1, i + 1 + m) =~= t.skip(1).subrange(i, i + m));
                assert(is_match_at(t, pat, i + 1));
            }
        }
        lemma_replace_all_absent(t.skip(1), pat, rep);
        assert(seq![t[0]] + t.skip(1) =~= t);
    }
}

/// Character sequence of a string, as a vector.
pub fn to_chars(t: &str) -> (v: Vec<char>)
    ensures
        v@ == t@,
{
    let n = t.unicode_len();
    let mut v: Vec<char> = Vec::new();
    let mut i: usize = 0;
    while i < n
        invariant
            n == t@.len(),
            0 <= i <= n,
            v@ == t@.subrange(0, i as int),
        decreases n - i,
    {
        v.push(t.get_char(i));
        proof {
            assert(v@ =~= t@.subrange(0, i + 1));
        }
        i += 1;
    }
    proof {
        assert(t@.subrange(0, n as int) =~= t@);
    }
    v
}

} // verus!
