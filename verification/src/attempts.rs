//! The bounded best-attempts shortlist: at most 30 entries, sorted ascending
//! by distance, at most one entry per distinct text.

use vstd::prelude::*;
use vstd::math::min;
use crate::text::str_eq;
use crate::hints::{path_of, clone_path};

verus! {

/// A retained close-to-target state: the candidate text, the hint-name path
/// that reached it, and its score against the target in milli-units.
pub struct BestAttempt {
    pub text: String,
    pub path: Vec<String>,
    pub distance: u64,
}

/// Entries are sorted ascending by distance.
pub open spec fn attempts_sorted(s: Seq<BestAttempt>) -> bool {
    forall|i: int, j: int| #![trigger s[i], s[j]] 0 <= i < j < s.len() ==> s[i].distance <= s[j].distance
}

/// Entries have pairwise distinct texts.
pub open spec fn attempts_distinct(s: Seq<BestAttempt>) -> bool {
    forall|i: int, j: int| #![trigger s[i], s[j]] 0 <= i < j < s.len() ==> s[i].text@ != s[j].text@
}

/// `k` is the position where a stable sort puts a new entry of distance `d`:
/// after every entry of distance at most `d`.
pub open spec fn is_insert_pos(s: Seq<BestAttempt>, d: u64, k: int) -> bool {
    &&& 0 <= k <= s.len()
    &&& forall|i: int| 0 <= i < k ==> s[i].distance <= d
    &&& (k < s.len() ==> s[k].distance > d)
}

/// Two attempts carry the same text, path names, and distance.
pub open spec fn attempt_like(a: BestAttempt, b: BestAttempt) -> bool {
    &&& a.text@ == b.text@
    &&& path_of(a.path@) == path_of(b.path@)
    &&& a.distance == b.distance
}

/// Two attempt lists agree entry by entry.
pub open spec fn attempts_like(s: Seq<BestAttempt>, t: Seq<BestAttempt>) -> bool {
    &&& s.len() == t.len()
    &&& forall|i: int| 0 <= i < s.len() ==> attempt_like(#[trigger] s[i], t[i])
}

/// A copy of one attempt, equal in everything the contracts speak of.
pub fn clone_attempt(a: &BestAttempt) -> (r: BestAttempt)
    ensures
        attempt_like(r, *a),
{
    BestAttempt {
        text: a.text.clone(),
        path: clone_path(&a.path),
        distance: a.distance,
    }
}

/// A copy of an attempts list, equal entry by entry.
pub fn clone_attempts(v: &Vec<BestAttempt>) -> (r: Vec<BestAttempt>)
    ensures
        attempts_like(r@, v@),
{
    let mut r: Vec<BestAttempt> = Vec::new();
    let mut k: usize = 0;
    while k < v.len()
        invariant
            0 <= k <= v@.len(),
            r@.len() == k,
            forall|i: int| 0 <= i < k ==> attempt_like(#[trigger] r@[i], v@[i]),
        decreases v@.len() - k,
    {
        r.push(clone_attempt(&v[k]));
        k += 1;
    }
    r
}

/// Record a state in the shortlist. A text already present keeps its entry
/// unless the new path is strictly shorter; a new text is inserted in stable
/// sorted position and the list is cut back to 30 entries.
pub fn update_attempts_list(
    list: &mut Vec<BestAttempt>,
    text: String,
    path: Vec<String>,
    distance: u64,
)
    requires
        attempts_sorted(old(list)@),
        attempts_distinct(old(list)@),
        old(list)@.len() <= 30,
        forall|i: int|
            0 <= i < old(list)@.len() && old(list)@[i].text@ == text@ ==> old(list)@[i].distance
                == distance,
    ensures
        attempts_sorted(final(list)@),
        attempts_distinct(final(list)@),
        final(list)@.len() <= 30,
        if exists|i: int| 0 <= i < old(list)@.len() && old(list)@[i].text@ == text@ {
            {
                let i = choose|i: int| 0 <= i < old(list)@.len() && old(list)@[i].text@ == text@;
                if path@.len() < old(list)@[i].path@.len() {
                    final(list)@ == old(list)@.update(i, (BestAttempt { text, path, distance }))
                } else {
                    final(list)@ == old(list)@
                }
            }
        } else {
            exists|k: int|
                #![trigger old(list)@.insert(k, (BestAttempt { text, path, distance }))]
                is_insert_pos(old(list)@, distance, k) && final(list)@ == old(list)@.insert(
                    k,
                    (BestAttempt { text, path, distance }),
                ).take(min(old(list)@.len() as int + 1, 30))
        },
{
    let ghost l0 = list@;
    let n = list.len();
    let mut j: usize = 0;
    while j < n
        invariant
            l0 == old(list)@,
            list@ == l0,
            n == list@.len(),
            attempts_sorted(l0),
            attempts_distinct(l0),
            l0.len() <= 30,
            forall|i: int|
                0 <= i < l0.len() && l0[i].text@ == text@ ==> l0[i].distance == distance,
            0 <= j <= n,
            forall|i: int| 0 <= i < j ==> l0[i].text@ != text@,
        decreases n - j,
    {
        if str_eq(list[j].text.as_str(), text.as_str()) {
            proof {
                assert(l0[j as int].text@ == text@);
                assert(l0[j as int].distance == distance);
            }
            if path.len() < list[j].path.len() {
                let a = BestAttempt { text, path, distance };
                list.remove(j);
                list.insert(j, a);
                proof {
                    assert(list@ =~= l0.update(j as int, (BestAttempt { text, path, distance })));
                    assert(exists|i: int| 0 <= i < l0.len() && l0[i].text@ == text@);
                    let i = choose|i: int| 0 <= i < l0.len() && l0[i].text@ == text@;
                    assert(0 <= i < l0.len() && l0[i].text@ == text@);
                    if i < j {
                        assert(l0[i].text@ != l0[j as int].text@);
                    } else if j < i {
                        assert(l0[j as int].text@ != l0[i].text@);
                    }
                    assert(i == j);
                    assert forall|x: int, y: int| #![trigger list@[x], list@[y]]
                        0 <= x < y < list@.len() implies list@[x].distance <= list@[y].distance
                            && list@[x].text@ != list@[y].text@ by {
                        assert(l0[x].distance <= l0[y].distance);
                        assert(l0[x].text@ != l0[y].text@);
                        assert(list@[x].distance == l0[x].distance && list@[y].distance == l0[y].distance);
                        assert(list@[x].text@ == l0[x].text@ && list@[y].text@ == l0[y].text@);
                    }
                }
            } else {
                proof {
                    assert(exists|i: int| 0 <= i < l0.len() && l0[i].text@ == text@);
                    let i = choose|i: int| 0 <= i < l0.len() && l0[i].text@ == text@;
                    assert(0 <= i < l0.len() && l0[i].text@ == text@);
                    if i < j {
                        assert(l0[i].text@ != l0[j as int].text@);
                    } else if j < i {
                        assert(l0[j as int].text@ != l0[i].text@);
                    }
                    assert(i == j);
                }
            }
            return ;
        }
        j += 1;
    }
    proof {
        assert(forall|i: int| 0 <= i < l0.len() ==> #[trigger] l0[i].text@ != text@);
    }
    let mut k: usize = 0;
    while k < n && list[k].distance <= distance
        invariant
            list@ == l0,
            n == list@.len(),
            0 <= k <= n,
            forall|i: int| 0 <= i < k ==> #[trigger] l0[i].distance <= distance,
        decreases n - k,
    {
        k += 1;
    }
    let ghost kk = k as int;
    let a = BestAttempt { text, path, distance };
    list.insert(k, a);
    proof {
        assert(is_insert_pos(l0, distance, kk));
        assert(list@ == l0.insert(kk, (BestAttempt { text, path, distance })));
    }
    if list.len() > 30 {
        list.truncate(30);
    }
    proof {
        let av = (BestAttempt { text, path, distance });
        let ins = l0.insert(kk, av);
        assert(list@ =~= ins.take(min(l0.len() as int + 1, 30)));
        assert forall|x: int, y: int| #![trigger ins[x], ins[y]]
            0 <= x < y < ins.len() implies ins[x].distance <= ins[y].distance && ins[x].text@
                != ins[y].text@ by {
            if y < kk {
                assert(ins[x] == l0[x] && ins[y] == l0[y]);
            } else if y == kk {
                assert(x < kk);
                assert(ins[x] == l0[x] && ins[y] == av);
                assert(l0[x].distance <= distance);
                assert(l0[x].text@ != text@);
            } else if x < kk {
                assert(ins[x] == l0[x] && ins[y] == l0[y - 1]);
                if y - 1 == kk {
                    assert(l0[x].distance <= distance && distance < l0[kk].distance);
                } else {
                    assert(l0[kk].distance <= l0[y - 1].distance);
                }
            } else if x == kk {
                assert(ins[x] == av && ins[y] == l0[y - 1]);
                assert(y - 1 >= kk);
                assert(distance < l0[kk].distance);
                if y - 1 > kk {
                    assert(l0[kk].distance <= l0[y - 1].distance);
                }
                assert(l0[y - 1].text@ != text@);
            } else {
                assert(ins[x] == l0[x - 1] && ins[y] == l0[y - 1]);
            }
        }
        assert(attempts_sorted(list@));
        assert(attempts_distinct(list@));
    }
}

} // verus!
