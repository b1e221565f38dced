//! The weighted edit-distance scorer: classic character-level edit distance,
//! an n-gram similarity bonus, and asymmetric length-difference penalties.
//! All weights are fixed-point milli-units (1000 = 1.0), so `score` is exact
//! integer arithmetic: the bonus discounts up to 40% (400/1000) of the raw
//! edit distance, a surplus character costs 0.2 (200) and a missing one 1.5
//! (1500).

use vstd::prelude::*;
use vstd::math::{min, max};
use crate::text::{to_chars, MAX_TEXT_LEN};

verus! {

/// Classic edit distance (insert/delete/substitute, unit cost) between the
/// first `i` characters of `a` and the first `j` characters of `b`.
pub open spec fn lev(a: Seq<char>, b: Seq<char>, i: int, j: int) -> int
    decreases i + j,
{
    if i <= 0 {
        j
    } else if j <= 0 {
        i
    } else {
        min(
            min(lev(a, b, i - 1, j) + 1, lev(a, b, i, j - 1) + 1),
            lev(a, b, i - 1, j - 1) + if a[i - 1] == b[j - 1] { 0int } else { 1int },
        )
    }
}

pub proof fn lemma_lev_nonneg(a: Seq<char>, b: Seq<char>, i: int, j: int)
    requires
        i >= 0,
        j >= 0,
    ensures
        lev(a, b, i, j) >= 0,
    decreases i + j,
{
    if i > 0 && j > 0 {
        lemma_lev_nonneg(a, b, i - 1, j);
        lemma_lev_nonneg(a, b, i, j - 1);
        lemma_lev_nonneg(a, b, i - 1, j - 1);
    }
}

pub proof fn lemma_lev_upper_bound(a: Seq<char>, b: Seq<char>, i: int, j: int)
    requires
        i >= 0,
        j >= 0,
    ensures
        lev(a, b, i, j) <= i + j,
    decreases i + j,
{
    if i > 0 && j > 0 {
        lemma_lev_upper_bound(a, b, i - 1, j);
        lemma_lev_upper_bound(a, b, i, j - 1);
        lemma_lev_upper_bound(a, b, i - 1, j - 1);
    }
}

/// Equal prefixes are at edit distance zero.
pub proof fn lemma_lev_eq_prefix(a: Seq<char>, b: Seq<char>, i: int)
    requires
        0 <= i <= a.len(),
        i <= b.len(),
        forall|k: int| 0 <= k < i ==> a[k] == b[k],
    ensures
        lev(a, b, i, i) == 0,
    decreases i,
{
    if i > 0 {
        lemma_lev_eq_prefix(a, b, i - 1);
        lemma_lev_nonneg(a, b, i - 1, i);
        lemma_lev_nonneg(a, b, i, i - 1);
    }
}

/// Edit distance zero forces the prefixes to be identical.
pub proof fn lemma_lev_zero_implies_eq(a: Seq<char>, b: Seq<char>, i: int, j: int)
    requires
        i >= 0,
        j >= 0,
        lev(a, b, i, j) == 0,
    ensures
        i == j,
        forall|k: int| 0 <= k < i ==> a[k] == b[k],
    decreases i + j,
{
    if i > 0 && j > 0 {
        lemma_lev_nonneg(a, b, i - 1, j);
        lemma_lev_nonneg(a, b, i, j - 1);
        lemma_lev_nonneg(a, b, i - 1, j - 1);
        lemma_lev_zero_implies_eq(a, b, i - 1, j - 1);
    }
}

proof fn lemma_lev_single_diff_upper(a: Seq<char>, b: Seq<char>, k: int, n: int)
    requires
        0 <= k < n,
        n <= a.len(),
        n <= b.len(),
        forall|j: int| 0 <= j < n && j != k ==> a[j] == b[j],
    ensures
        lev(a, b, n, n) <= 1,
    decreases n,
{
    if n == k + 1 {
        lemma_lev_eq_prefix(a, b, n - 1);
        lemma_lev_nonneg(a, b, n - 1, n);
        lemma_lev_nonneg(a, b, n, n - 1);
    } else {
        lemma_lev_single_diff_upper(a, b, k, n - 1);
        lemma_lev_nonneg(a, b, n - 1, n);
        lemma_lev_nonneg(a, b, n, n - 1);
    }
}

/// Two equal-length strings that differ in exactly one character are at edit
/// distance exactly one: a single substitution, before any bonus or penalty.
pub proof fn lemma_lev_single_substitution(a: Seq<char>, b: Seq<char>, k: int)
    requires
        a.len() == b.len(),
        0 <= k < a.len(),
        a[k] != b[k],
        forall|j: int| 0 <= j < a.len() && j != k ==> a[j] == b[j],
    ensures
        lev(a, b, a.len() as int, b.len() as int) == 1,
{
    let n = a.len() as int;
    lemma_lev_single_diff_upper(a, b, k, n);
    lemma_lev_nonneg(a, b, n, n);
    if lev(a, b, n, n) == 0 {
        lemma_lev_zero_implies_eq(a, b, n, n);
    }
}

/// The distinct adjacent 2-character windows of `b`.
pub open spec fn bigram_set(b: Seq<char>) -> Set<(char, char)> {
    Set::new(
        |p: (char, char)|
            exists|i: int| 0 <= i && i + 1 < b.len() && (#[trigger] b[i]) == p.0 && b[i + 1] == p.1,
    )
}

/// The distinct adjacent 3-character windows of `b`.
pub open spec fn trigram_set(b: Seq<char>) -> Set<(char, char, char)> {
    Set::new(
        |p: (char, char, char)|
            exists|i: int|
                0 <= i && i + 2 < b.len() && (#[trigger] b[i]) == p.0 && b[i + 1] == p.1 && b[i
                    + 2] == p.2,
    )
}

/// How many of the first `n` bigram windows of `a` lie in `bs`.
pub open spec fn bigram_match_count(a: Seq<char>, bs: Set<(char, char)>, n: int) -> int
    decreases n,
{
    if n <= 0 {
        0
    } else {
        bigram_match_count(a, bs, n - 1) + if bs.contains((a[n - 1], a[n])) { 1int } else { 0int }
    }
}

/// How many of the first `n` trigram windows of `a` lie in `ts`.
pub open spec fn trigram_match_count(a: Seq<char>, ts: Set<(char, char, char)>, n: int) -> int
    decreases n,
{
    if n <= 0 {
        0
    } else {
        trigram_match_count(a, ts, n - 1) + if ts.contains((a[n - 1], a[n], a[n + 1])) {
            1int
        } else {
            0int
        }
    }
}

/// Weighted size of the n-gram universe of `b`: trigram windows count double.
pub open spec fn ngram_total(a: Seq<char>, b: Seq<char>) -> int {
    bigram_set(b).len() as int + if a.len() >= 3 && b.len() >= 3 {
        2 * (trigram_set(b).len() as int)
    } else {
        0int
    }
}

/// Weighted number of `a`'s n-gram windows found in `b`: trigram matches
/// count double.
pub open spec fn ngram_matches(a: Seq<char>, b: Seq<char>) -> int {
    bigram_match_count(a, bigram_set(b), a.len() - 1) + if a.len() >= 3 && b.len() >= 3 {
        2 * trigram_match_count(a, trigram_set(b), a.len() - 2)
    } else {
        0int
    }
}

/// The n-gram bonus in milli-units: the match ratio can discount up to 40%
/// of the base edit distance. Strings shorter than two characters earn none.
pub open spec fn ngram_bonus_milli(a: Seq<char>, b: Seq<char>, base: int) -> int {
    if a.len() < 2 || b.len() < 2 {
        0
    } else if ngram_total(a, b) > 0 {
        ngram_matches(a, b) * base * 400 / ngram_total(a, b)
    } else {
        0
    }
}

/// The weighted dissimilarity score in milli-units. An empty candidate costs
/// double the target's length; an empty target costs the candidate's length;
/// otherwise the base edit distance is discounted by the n-gram bonus and
/// charged 0.2 per surplus character or 1.5 per missing one, floored at zero.
pub open spec fn score_milli(a: Seq<char>, b: Seq<char>) -> int {
    let la = a.len() as int;
    let lb = b.len() as int;
    if la == 0 {
        2000 * lb
    } else if lb == 0 {
        1000 * la
    } else {
        let base = lev(a, b, la, lb);
        let bonus = ngram_bonus_milli(a, b, base);
        let penalty = if la > lb {
            200 * (la - lb)
        } else if la < lb {
            1500 * (lb - la)
        } else {
            0int
        };
        max(1000 * base - bonus + penalty, 0)
    }
}

/// A string is at score zero from itself.
pub proof fn lemma_score_self(a: Seq<char>)
    ensures
        score_milli(a, a) == 0,
{
    let n = a.len() as int;
    if n > 0 {
        lemma_lev_eq_prefix(a, a, n);
        assert(ngram_matches(a, a) * 0 * 400 == 0);
        if a.len() >= 2 && ngram_total(a, a) > 0 {
            assert(0int / ngram_total(a, a) == 0) by (nonlinear_arith)
                requires ngram_total(a, a) > 0;
        }
        assert(ngram_bonus_milli(a, a, 0) == 0);
    }
}

/// Scores against or from the empty string are pure length measures: an
/// empty target costs the candidate's length, an empty candidate double the
/// target's length.
pub proof fn lemma_score_empty(a: Seq<char>, b: Seq<char>)
    ensures
        score_milli(a, Seq::<char>::empty()) == 1000 * a.len(),
        score_milli(Seq::<char>::empty(), b) == 2000 * b.len(),
{
}


proof fn lemma_bigram_match_count_nonneg(a: Seq<char>, bs: Set<(char, char)>, n: int)
    ensures
        0 <= bigram_match_count(a, bs, n),
    decreases n,
{
    if n > 0 {
        lemma_bigram_match_count_nonneg(a, bs, n - 1);
    }
}

proof fn lemma_trigram_match_count_nonneg(a: Seq<char>, ts: Set<(char, char, char)>, n: int)
    ensures
        0 <= trigram_match_count(a, ts, n),
    decreases n,
{
    if n > 0 {
        lemma_trigram_match_count_nonneg(a, ts, n - 1);
    }
}

/// The score is non-negative and, for texts within the length bound, never
/// exceeds five billion milli-units.
pub proof fn lemma_score_milli_bound(a: Seq<char>, b: Seq<char>)
    requires
        a.len() <= MAX_TEXT_LEN,
        b.len() <= MAX_TEXT_LEN,
    ensures
        0 <= score_milli(a, b) <= 5_000_000_000_000,
{
    let la = a.len() as int;
    let lb = b.len() as int;
    if la > 0 && lb > 0 {
        let base = lev(a, b, la, lb);
        lemma_lev_nonneg(a, b, la, lb);
        lemma_lev_upper_bound(a, b, la, lb);
        let bonus = ngram_bonus_milli(a, b, base);
        assert(bonus >= 0) by {
            if !(a.len() < 2 || b.len() < 2) && ngram_total(a, b) > 0 {
                lemma_bigram_match_count_nonneg(a, bigram_set(b), la - 1);
                lemma_trigram_match_count_nonneg(a, trigram_set(b), la - 2);
                assert(ngram_matches(a, b) >= 0);
                assert(ngram_matches(a, b) * base * 400 >= 0) by (nonlinear_arith)
                    requires
                        ngram_matches(a, b) >= 0,
                        base >= 0,
                ;
                assert(ngram_matches(a, b) * base * 400 / ngram_total(a, b) >= 0);
            }
        }
    }
}

fn min3_usize(x: usize, y: usize, z: usize) -> (r: usize)
    ensures
        r as int == min(min(x as int, y as int), z as int),
{
    let xy = if x <= y { x } else { y };
    if xy <= z {
        xy
    } else {
        z
    }
}

/// Base edit distance by the standard two-row dynamic programming recurrence.
pub fn levenshtein(ca: &Vec<char>, cb: &Vec<char>) -> (r: usize)
    requires
        ca@.len() <= MAX_TEXT_LEN,
        cb@.len() <= MAX_TEXT_LEN,
    ensures
        r as int == lev(ca@, cb@, ca@.len() as int, cb@.len() as int),
{
    let la = ca.len();
    let lb = cb.len();
    let mut prev: Vec<usize> = Vec::new();
    let mut j: usize = 0;
    while j <= lb
        invariant
            lb == cb@.len() <= MAX_TEXT_LEN,
            0 <= j <= lb + 1,
            prev@.len() == j,
            forall|k: int| 0 <= k < j ==> prev@[k] == k,
        decreases lb + 1 - j,
    {
        prev.push(j);
        j += 1;
    }
    let mut i: usize = 1;
    while i <= la
        invariant
            la == ca@.len() <= MAX_TEXT_LEN,
            lb == cb@.len() <= MAX_TEXT_LEN,
            1 <= i <= la + 1,
            prev@.len() == lb + 1,
            forall|k: int| 0 <= k <= lb ==> prev@[k] == lev(ca@, cb@, i - 1, k),
        decreases la + 1 - i,
    {
        let mut curr: Vec<usize> = Vec::new();
        curr.push(i);
        proof {
            assert(lev(ca@, cb@, i as int, 0) == i);
        }
        let mut j: usize = 1;
        while j <= lb
            invariant
                la == ca@.len() <= MAX_TEXT_LEN,
                lb == cb@.len() <= MAX_TEXT_LEN,
                1 <= i <= la,
                1 <= j <= lb + 1,
                prev@.len() == lb + 1,
                forall|k: int| 0 <= k <= lb ==> prev@[k] == lev(ca@, cb@, i - 1, k),
                curr@.len() == j,
                forall|k: int| 0 <= k < j ==> curr@[k] == lev(ca@, cb@, i as int, k),
            decreases lb + 1 - j,
        {
            proof {
                lemma_lev_upper_bound(ca@, cb@, i - 1, j as int);
                lemma_lev_upper_bound(ca@, cb@, i as int, j - 1);
                lemma_lev_upper_bound(ca@, cb@, i - 1, j - 1);
                lemma_lev_nonneg(ca@, cb@, i - 1, j as int);
                lemma_lev_nonneg(ca@, cb@, i as int, j - 1);
                lemma_lev_nonneg(ca@, cb@, i - 1, j - 1);
            }
            let cost: usize = if ca[i - 1] == cb[j - 1] {
                0
            } else {
                1
            };
            let c = min3_usize(prev[j] + 1, curr[j - 1] + 1, prev[j - 1] + cost);
            curr.push(c);
            j += 1;
        }
        prev = curr;
        i += 1;
    }
    prev[lb]
}

fn contains_pair(v: &Vec<(char, char)>, p: (char, char)) -> (r: bool)
    ensures
        r == v@.contains(p),
{
    let mut k: usize = 0;
    while k < v.len()
        invariant
            0 <= k <= v@.len(),
            forall|m: int| 0 <= m < k ==> v@[m] != p,
        decreases v@.len() - k,
    {
        if v[k].0 == p.0 && v[k].1 == p.1 {
            return true;
        }
        k += 1;
    }
    false
}

fn contains_triple(v: &Vec<(char, char, char)>, p: (char, char, char)) -> (r: bool)
    ensures
        r == v@.contains(p),
{
    let mut k: usize = 0;
    while k < v.len()
        invariant
            0 <= k <= v@.len(),
            forall|m: int| 0 <= m < k ==> v@[m] != p,
        decreases v@.len() - k,
    {
        if v[k].0 == p.0 && v[k].1 == p.1 && v[k].2 == p.2 {
            return true;
        }
        k += 1;
    }
    false
}

/// The distinct bigrams of `cb`, as a duplicate-free vector whose length is
/// the cardinality of `bigram_set`.
fn build_bigrams(cb: &Vec<char>) -> (v: Vec<(char, char)>)
    requires
        cb@.len() >= 2,
    ensures
        v@.len() == bigram_set(cb@).len(),
        v@.to_set() == bigram_set(cb@),
        1 <= v@.len() <= cb@.len() - 1,
{
    let n = cb.len();
    let mut v: Vec<(char, char)> = Vec::new();
    let mut i: usize = 0;
    while i < n - 1
        invariant
            n == cb@.len() >= 2,
            0 <= i <= n - 1,
            v@.len() <= i,
            v@.no_duplicates(),
            forall|p: (char, char)|
                #[trigger] v@.contains(p) <==> exists|jj: int|
                    0 <= jj < i && (#[trigger] cb@[jj]) == p.0 && cb@[jj + 1] == p.1,
        decreases n - 1 - i,
    {
        let p = (cb[i], cb[i + 1]);
        let ghost vold = v@;
        if !contains_pair(&v, p) {
            v.push(p);
            proof {
                assert forall|x: int, y: int| 0 <= x < y < v@.len() implies v@[x] != v@[y] by {
                    if y < v@.len() - 1 {
                        assert(vold[x] != vold[y]);
                    } else {
                        assert(v@[y] == p);
                        if v@[x] == p {
                            assert(vold.contains(p));
                        }
                    }
                }
            }
        }
        proof {
            assert forall|q: (char, char)|
                #[trigger] v@.contains(q) <==> exists|jj: int|
                    0 <= jj < i + 1 && (#[trigger] cb@[jj]) == q.0 && cb@[jj + 1] == q.1 by {
                assert(cb@[i as int] == p.0 && cb@[i + 1] == p.1);
                if v@.contains(q) {
                    let idx = choose|idx: int| 0 <= idx < v@.len() && v@[idx] == q;
                    if idx < vold.len() {
                        assert(vold[idx] == q);
                        assert(vold.contains(q));
                    } else {
                        assert(q == p);
                    }
                }
                if exists|jj: int|
                    0 <= jj < i + 1 && (#[trigger] cb@[jj]) == q.0 && cb@[jj + 1] == q.1 {
                    let jj = choose|jj: int|
                        0 <= jj < i + 1 && (#[trigger] cb@[jj]) == q.0 && cb@[jj + 1] == q.1;
                    if jj < i {
                        assert(vold.contains(q));
                        let idx = choose|idx: int| 0 <= idx < vold.len() && vold[idx] == q;
                        assert(v@[idx] == q);
                        assert(v@.contains(q));
                    } else {
                        assert(q.0 == p.0 && q.1 == p.1);
                        assert(q == p);
                        if vold.contains(p) {
                            let idx = choose|idx: int| 0 <= idx < vold.len() && vold[idx] == p;
                            assert(v@[idx] == p);
                        } else {
                            assert(v@[v@.len() - 1] == p);
                        }
                        assert(v@.contains(q));
                    }
                }
            }
        }
        i += 1;
    }
    proof {
        assert(v@.to_set() =~= bigram_set(cb@)) by {
            assert(forall|p: (char, char)| v@.to_set().contains(p) <==> v@.contains(p));
            assert forall|p: (char, char)| v@.contains(p) <==> bigram_set(cb@).contains(p) by {
                assert(bigram_set(cb@).contains(p) <==> exists|jj: int|
                    0 <= jj && jj + 1 < n && (#[trigger] cb@[jj]) == p.0 && cb@[jj + 1] == p.1);
            }
        }
        v@.unique_seq_to_set();
        let p0 = (cb@[0], cb@[1]);
        assert(v@.contains(p0));
    }
    v
}

/// The distinct trigrams of `cb`, as a duplicate-free vector whose length is
/// the cardinality of `trigram_set`.
fn build_trigrams(cb: &Vec<char>) -> (v: Vec<(char, char, char)>)
    requires
        cb@.len() >= 3,
    ensures
        v@.len() == trigram_set(cb@).len(),
        v@.to_set() == trigram_set(cb@),
        v@.len() <= cb@.len() - 2,
{
    let n = cb.len();
    let mut v: Vec<(char, char, char)> = Vec::new();
    let mut i: usize = 0;
    while i < n - 2
        invariant
            n == cb@.len() >= 3,
            0 <= i <= n - 2,
            v@.len() <= i,
            v@.no_duplicates(),
            forall|p: (char, char, char)|
                #[trigger] v@.contains(p) <==> exists|jj: int|
                    0 <= jj < i && (#[trigger] cb@[jj]) == p.0 && cb@[jj + 1] == p.1 && cb@[jj + 2]
                        == p.2,
        decreases n - 2 - i,
    {
        let p = (cb[i], cb[i + 1], cb[i + 2]);
        let ghost vold = v@;
        if !contains_triple(&v, p) {
            v.push(p);
            proof {
                assert forall|x: int, y: int| 0 <= x < y < v@.len() implies v@[x] != v@[y] by {
                    if y < v@.len() - 1 {
                        assert(vold[x] != vold[y]);
                    } else {
                        assert(v@[y] == p);
                        if v@[x] == p {
                            assert(vold.contains(p));
                        }
                    }
                }
            }
        }
        proof {
            assert forall|q: (char, char, char)|
                #[trigger] v@.contains(q) <==> exists|jj: int|
                    0 <= jj < i + 1 && (#[trigger] cb@[jj]) == q.0 && cb@[jj + 1] == q.1 && cb@[jj
                        + 2] == q.2 by {
                assert(cb@[i as int] == p.0 && cb@[i + 1] == p.1 && cb@[i + 2] == p.2);
                if v@.contains(q) {
                    let idx = choose|idx: int| 0 <= idx < v@.len() && v@[idx] == q;
                    if idx < vold.len() {
                        assert(vold[idx] == q);
                        assert(vold.contains(q));
                    } else {
                        assert(q == p);
                    }
                }
                if exists|jj: int|
                    0 <= jj < i + 1 && (#[trigger] cb@[jj]) == q.0 && cb@[jj + 1] == q.1 && cb@[jj
                        + 2] == q.2 {
                    let jj = choose|jj: int|
                        0 <= jj < i + 1 && (#[trigger] cb@[jj]) == q.0 && cb@[jj + 1] == q.1
                            && cb@[jj + 2] == q.2;
                    if jj < i {
                        assert(vold.contains(q));
                        let idx = choose|idx: int| 0 <= idx < vold.len() && vold[idx] == q;
                        assert(v@[idx] == q);
                        assert(v@.contains(q));
                    } else {
                        assert(q.0 == p.0 && q.1 == p.1 && q.2 == p.2);
                        assert(q == p);
                        if vold.contains(p) {
                            let idx = choose|idx: int| 0 <= idx < vold.len() && vold[idx] == p;
                            assert(v@[idx] == p);
                        } else {
                            assert(v@[v@.len() - 1] == p);
                        }
                        assert(v@.contains(q));
                    }
                }
            }
        }
        i += 1;
    }
    proof {
        assert(v@.to_set() =~= trigram_set(cb@)) by {
            assert(forall|p: (char, char, char)| v@.to_set().contains(p) <==> v@.contains(p));
            assert forall|p: (char, char, char)| v@.contains(p) <==> trigram_set(cb@).contains(p) by {
                assert(trigram_set(cb@).contains(p) <==> exists|jj: int|
                    0 <= jj && jj + 2 < n && (#[trigger] cb@[jj]) == p.0 && cb@[jj + 1] == p.1
                        && cb@[jj + 2] == p.2);
            }
        }
        v@.unique_seq_to_set();
    }
    v
}

/// The n-gram bonus for `ca` against `cb`, given the base edit distance.
fn ngram_bonus(ca: &Vec<char>, cb: &Vec<char>, base: usize) -> (r: u128)
    requires
        ca@.len() <= MAX_TEXT_LEN,
        cb@.len() <= MAX_TEXT_LEN,
        base <= 2 * MAX_TEXT_LEN,
    ensures
        r as int == ngram_bonus_milli(ca@, cb@, base as int),
{
    let la = ca.len();
    let lb = cb.len();
    if la < 2 || lb < 2 {
        return 0;
    }
    let bigrams = build_bigrams(cb);
    let mut total: u64 = bigrams.len() as u64;
    let mut matches: u64 = 0;
    let mut i: usize = 0;
    while i < la - 1
        invariant
            la == ca@.len() >= 2,
            0 <= i <= la - 1,
            bigrams@.to_set() == bigram_set(cb@),
            matches as int == bigram_match_count(ca@, bigram_set(cb@), i as int),
            matches <= i,
        decreases la - 1 - i,
    {
        if contains_pair(&bigrams, (ca[i], ca[i + 1])) {
            matches += 1;
        }
        i += 1;
    }
    if la >= 3 && lb >= 3 {
        let trigrams = build_trigrams(cb);
        total = total + 2 * (trigrams.len() as u64);
        let mut i: usize = 0;
        let mut tmatches: u64 = 0;
        while i < la - 2
            invariant
                la == ca@.len() >= 3,
                0 <= i <= la - 2,
                trigrams@.to_set() == trigram_set(cb@),
                tmatches as int == trigram_match_count(ca@, trigram_set(cb@), i as int),
                tmatches <= i,
            decreases la - 2 - i,
        {
            if contains_triple(&trigrams, (ca[i], ca[i + 1], ca[i + 2])) {
                tmatches += 1;
            }
            i += 1;
        }
        matches = matches + 2 * tmatches;
    }
    if total > 0 {
        proof {
            assert(matches as int * base as int * 400 <= 0xC0000000int * 0x80000000int * 400)
                by (nonlinear_arith)
                requires
                    0 <= matches <= 0xC0000000,
                    0 <= base <= 0x80000000,
            ;
        }
        ((matches as u128) * (base as u128) * 400) / (total as u128)
    } else {
        0
    }
}

/// The weighted dissimilarity between `a` and `b` in milli-units, exactly
/// `score_milli` of the two character sequences.
pub fn score(a: &str, b: &str) -> (r: u64)
    requires
        a@.len() <= MAX_TEXT_LEN,
        b@.len() <= MAX_TEXT_LEN,
    ensures
        r as int == score_milli(a@, b@),
        r <= 5_000_000_000_000,
{
    proof {
        lemma_score_milli_bound(a@, b@);
    }
    let ca = to_chars(a);
    let cb = to_chars(b);
    let la = ca.len();
    let lb = cb.len();
    if la == 0 {
        return (lb as u64) * 2000;
    }
    if lb == 0 {
        return (la as u64) * 1000;
    }
    proof {
        lemma_lev_upper_bound(ca@, cb@, la as int, lb as int);
        lemma_lev_nonneg(ca@, cb@, la as int, lb as int);
    }
    let base = levenshtein(&ca, &cb);
    let bonus = ngram_bonus(&ca, &cb, base);
    let penalty: u64 = if la > lb {
        ((la - lb) as u64) * 200
    } else if lb > la {
        ((lb - la) as u64) * 1500
    } else {
        0
    };
    let with_penalty: u64 = (base as u64) * 1000 + penalty;
    if bonus >= with_penalty as u128 {
        proof {
            assert(score_milli(a@, b@) == 0);
        }
        0
    } else {
        with_penalty - (bonus as u64)
    }
}

} // verus!
