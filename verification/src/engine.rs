//! The best-first search engine: frontier, visited set, memoization caches,
//! and the step-budgeted run loop.

use vstd::prelude::*;
use vstd::string::*;
use vstd::math::min;
use crate::text::{contains_str, str_eq, MAX_TEXT_LEN};
use crate::distance::{score, score_milli, lemma_score_milli_bound};
use crate::hints::{
    Hint, apply_by_name, apply_hint_spec, apply_hint_uncached, check_names_unique, clone_hint,
    clone_path, find_hint, find_hint_by_name, lemma_apply_absent, lemma_find_hint_unique,
    lemma_path_result_snoc, names_unique, opt_view, path_of, path_result,
};
use crate::attempts::{
    BestAttempt, attempts_distinct, attempts_like, attempts_sorted, clone_attempts, is_insert_pos,
    update_attempts_list,
};
use crate::progress::{
    calculate_progress_percentage, estimate_search_space, estimate_spec, progress_spec,
};

verus! {

/// A frontier entry: a candidate text, the hint names applied from the start
/// to reach it, its score against the target in milli-units, and the
/// priority key (score plus 0.1 per path step, preferring shorter paths).
pub struct SearchState {
    pub text: String,
    pub path: Vec<String>,
    pub distance: u64,
    pub heuristic_score: u64,
}

/// A finished or terminal report: the hint-name path, the text after each
/// step (`steps[0]` is the start text), the best attempts seen, and the
/// total number of expanded states.
pub struct SearchResult {
    pub found: bool,
    pub path: Vec<String>,
    pub steps: Vec<String>,
    pub best_attempts: Vec<BestAttempt>,
    pub total_states_explored: usize,
}

/// A progress snapshot. Distances are milli-units (`u64::MAX` when nothing
/// has been recorded yet); percentages are milli-percent (99900 = 99.9%).
pub struct ProgressUpdate {
    pub states_explored: usize,
    pub current_best_distance: u64,
    pub current_best_text: String,
    pub queue_size: usize,
    pub progress_percentage: u64,
    pub estimated_total_states: usize,
    pub depth_progress: u64,
    pub max_depth_reached: usize,
}

/// What one bounded run reports: a solution, or a progress snapshot.
pub enum RunOutcome {
    Solved(SearchResult),
    Progress(ProgressUpdate),
}

/// Construction failure: the hint catalog is structurally invalid.
#[derive(Debug)]
pub enum EngineError {
    DuplicateHintName,
}

/// Depth progress in milli-percent: how close `max_depth_reached` has come
/// to the depth bound, capped at 99.9%.
pub open spec fn depth_progress_spec(max_depth_reached: int, max_depth: int) -> int {
    if max_depth > 0 {
        min(99_900, max_depth_reached * 100_000 / max_depth)
    } else {
        0
    }
}

fn depth_progress_value(max_depth_reached: usize, max_depth: usize) -> (r: u64)
    ensures
        r as int == depth_progress_spec(max_depth_reached as int, max_depth as int),
{
    if max_depth == 0 {
        return 0;
    }
    let v = (max_depth_reached as u128) * 100_000 / (max_depth as u128);
    if v > 99_900 {
        99_900
    } else {
        v as u64
    }
}

/// The text occurs in the visited list.
pub open spec fn visited_contains(v: Seq<String>, t: Seq<char>) -> bool {
    exists|i: int| 0 <= i < v.len() && (#[trigger] v[i])@ == t
}

/// The distance cache holds an entry for the ordered pair.
pub open spec fn cache_has(c: Seq<(String, String, u64)>, a: Seq<char>, b: Seq<char>) -> bool {
    exists|i: int| 0 <= i < c.len() && (#[trigger] c[i]).0@ == a && c[i].1@ == b
}

/// What expansion owes for one hint: an applicable result within the length
/// bound is visited afterwards, and sits in the newly pushed queue range if
/// it was not visited before.
spec fn expansion_covers_hint(
    before: PathfinderEngine,
    after: PathfinderEngine,
    text: Seq<char>,
    k: int,
) -> bool {
    match apply_hint_spec(text, before.hints@[k]) {
        Some(nt) => nt.len() <= MAX_TEXT_LEN ==> visited_contains(after.visited@, nt) && (
        !visited_contains(before.visited@, nt) ==> exists|j: int|
            before.queue@.len() <= j < after.queue@.len() && (#[trigger] after.queue@[j]).text@
                == nt),
        None => true,
    }
}

/// The search engine. All distances are fixed-point milli-units.
pub struct PathfinderEngine {
    pub queue: Vec<SearchState>,
    pub visited: Vec<String>,
    pub hints: Vec<Hint>,
    pub start: String,
    pub target: String,
    pub max_depth: usize,
    pub best_attempts: Vec<BestAttempt>,
    pub best_distance: u64,
    pub states_explored: usize,
    pub estimated_total_states: usize,
    pub max_depth_reached: usize,
    pub distance_cache: Vec<(String, String, u64)>,
    pub decode_cache: Vec<(String, String, Option<String>)>,
}

impl PathfinderEngine {
    /// A frontier entry is coherent: its text was reached from the start by
    /// its path, its score and priority key are correct, and its depth is
    /// within the bound.
    pub open spec fn state_ok(self, s: SearchState) -> bool {
        &&& s.text@.len() <= MAX_TEXT_LEN
        &&& s.path@.len() <= self.max_depth
        &&& path_result(self.hints@, self.start@, path_of(s.path@)) == Some(s.text@)
        &&& s.distance as int == score_milli(s.text@, self.target@)
        &&& s.heuristic_score as int == s.distance + 100 * s.path@.len()
    }

    /// The engine invariant, established by `new` and preserved by every
    /// operation.
    pub open spec fn wf(self) -> bool {
        &&& self.start@.len() <= MAX_TEXT_LEN
        &&& self.target@.len() <= MAX_TEXT_LEN
        &&& self.max_depth <= MAX_TEXT_LEN
        &&& names_unique(self.hints@)
        &&& forall|i: int| 0 <= i < self.queue@.len() ==> self.state_ok(#[trigger] self.queue@[i])
        &&& forall|i: int, j: int|
            #![trigger self.queue@[i], self.queue@[j]]
            0 <= i < j < self.queue@.len() ==> self.queue@[i].text@ != self.queue@[j].text@
        &&& forall|i: int, j: int|
            #![trigger self.visited@[i], self.visited@[j]]
            0 <= i < j < self.visited@.len() ==> self.visited@[i]@ != self.visited@[j]@
        &&& forall|i: int|
            0 <= i < self.queue@.len() ==> visited_contains(
                self.visited@,
                (#[trigger] self.queue@[i]).text@,
            )
        &&& self.states_explored + self.queue@.len() <= self.visited@.len()
        &&& attempts_sorted(self.best_attempts@)
        &&& attempts_distinct(self.best_attempts@)
        &&& self.best_attempts@.len() <= 30
        &&& forall|i: int|
            0 <= i < self.best_attempts@.len() ==> (#[trigger] self.best_attempts@[i]).distance
                as int == score_milli(self.best_attempts@[i].text@, self.target@)
        &&& if self.best_attempts@.len() > 0 {
            self.best_distance == self.best_attempts@[0].distance
        } else {
            self.best_distance == u64::MAX
        }
        &&& self.max_depth_reached <= self.max_depth
        &&& self.distance_cache@.len() <= 10_000
        &&& forall|i: int|
            0 <= i < self.distance_cache@.len() ==> (#[trigger] self.distance_cache@[i]).2 as int
                == score_milli(self.distance_cache@[i].0@, self.distance_cache@[i].1@)
        &&& forall|i: int|
            0 <= i < self.decode_cache@.len() ==> opt_view((#[trigger] self.decode_cache@[i]).2)
                == apply_by_name(self.hints@, self.decode_cache@[i].0@, self.decode_cache@[i].1@)
        &&& 1 <= self.estimated_total_states <= 1_000_000
        &&& self.estimated_total_states as int == estimate_spec(
            self.hints@.len() as int,
            self.max_depth as int,
        )
    }

    /// The configuration fields never change after construction.
    pub open spec fn same_config(self, other: PathfinderEngine) -> bool {
        &&& self.hints@ == other.hints@
        &&& self.start@ == other.start@
        &&& self.target@ == other.target@
        &&& self.max_depth == other.max_depth
        &&& self.estimated_total_states == other.estimated_total_states
    }

    /// Build an engine for a run: validate the catalog, estimate the search
    /// space, score the start text, and seed the frontier and visited set
    /// with the start text.
    pub fn new(start: &str, target: &str, hints: Vec<Hint>, max_depth: usize) -> (r: Result<
        PathfinderEngine,
        EngineError,
    >)
        requires
            start@.len() <= MAX_TEXT_LEN,
            target@.len() <= MAX_TEXT_LEN,
            max_depth <= MAX_TEXT_LEN,
        ensures
            r is Ok <==> names_unique(hints@),
            r matches Err(e) ==> e == EngineError::DuplicateHintName,
            r matches Ok(engine) ==> {
                &&& engine.wf()
                &&& engine.hints@ == hints@
                &&& engine.start@ == start@
                &&& engine.target@ == target@
                &&& engine.max_depth == max_depth
                &&& engine.states_explored == 0
                &&& engine.max_depth_reached == 0
                &&& engine.best_attempts@.len() == 0
                &&& engine.best_distance == u64::MAX
                &&& engine.queue@.len() == 1
                &&& engine.queue@[0].text@ == start@
                &&& engine.queue@[0].path@.len() == 0
                &&& engine.visited@.len() == 1
                &&& engine.visited@[0]@ == start@
                &&& engine.estimated_total_states as int == estimate_spec(
                    hints@.len() as int,
                    max_depth as int,
                )
            },
    {
        if !check_names_unique(&hints) {
            return Err(EngineError::DuplicateHintName);
        }
        let estimated_total = estimate_search_space(hints.len(), max_depth);
        let initial_distance = score(start, target);
        let start_text = start.to_owned();
        let initial_state = SearchState {
            text: start_text,
            path: Vec::new(),
            distance: initial_distance,
            heuristic_score: initial_distance,
        };
        let mut queue: Vec<SearchState> = Vec::new();
        queue.push(initial_state);
        let mut visited: Vec<String> = Vec::new();
        visited.push(start.to_owned());
        let engine = PathfinderEngine {
            queue,
            visited,
            hints,
            start: start.to_owned(),
            target: target.to_owned(),
            max_depth,
            best_attempts: Vec::new(),
            best_distance: u64::MAX,
            states_explored: 0,
            estimated_total_states: estimated_total,
            max_depth_reached: 0,
            distance_cache: Vec::new(),
            decode_cache: Vec::new(),
        };
        proof {
            let s = engine.queue@[0];
            assert(path_of(s.path@).len() == 0);
            assert(path_result(engine.hints@, engine.start@, path_of(s.path@)) == Some(
                engine.start@,
            ));
            assert(engine.state_ok(s));
            assert(visited_contains(engine.visited@, s.text@)) by {
                assert(engine.visited@[0]@ == s.text@);
            }
        }
        Ok(engine)
    }

    /// The search is over: the frontier is empty (solved or exhausted).
    pub fn is_complete(&self) -> (r: bool)
        ensures
            r == (self.queue@.len() == 0),
    {
        self.queue.is_empty()
    }

    /// The terminal report after exhaustion: no solution, the best attempts
    /// seen, and the exploration count.
    pub fn get_result(&self) -> (r: SearchResult)
        ensures
            r.found == false,
            r.path@.len() == 0,
            r.steps@.len() == 0,
            attempts_like(r.best_attempts@, self.best_attempts@),
            r.total_states_explored == self.states_explored,
    {
        SearchResult {
            found: false,
            path: Vec::new(),
            steps: Vec::new(),
            best_attempts: clone_attempts(&self.best_attempts),
            total_states_explored: self.states_explored,
        }
    }

    /// The text is already recorded in the visited set.
    fn visited_has(&self, text: &str) -> (r: bool)
        ensures
            r == visited_contains(self.visited@, text@),
    {
        let mut i: usize = 0;
        while i < self.visited.len()
            invariant
                0 <= i <= self.visited@.len(),
                forall|k: int| 0 <= k < i ==> (#[trigger] self.visited@[k])@ != text@,
            decreases self.visited@.len() - i,
        {
            if str_eq(self.visited[i].as_str(), text) {
                return true;
            }
            i += 1;
        }
        false
    }

    /// The memoized scorer: look the ordered pair up in the distance cache,
    /// else compute, cache (unless either string is empty, mirroring the
    /// direct early returns), and clear the whole cache once it exceeds
    /// 10 000 entries.
    pub fn calculate_distance(&mut self, s1: &str, s2: &str) -> (r: u64)
        requires
            old(self).wf(),
            s1@.len() <= MAX_TEXT_LEN,
            s2@.len() <= MAX_TEXT_LEN,
        ensures
            final(self).wf(),
            r as int == score_milli(s1@, s2@),
            r <= 5_000_000_000_000,
            if cache_has(old(self).distance_cache@, s1@, s2@) || s1@.len() == 0 || s2@.len()
                == 0 {
                final(self).distance_cache@ == old(self).distance_cache@
            } else if old(self).distance_cache@.len() == 10_000 {
                final(self).distance_cache@.len() == 0
            } else {
                &&& final(self).distance_cache@.len() == old(self).distance_cache@.len() + 1
                &&& forall|i: int|
                    0 <= i < old(self).distance_cache@.len()
                        ==> final(self).distance_cache@[i] == old(self).distance_cache@[i]
                &&& (#[trigger] final(self).distance_cache@[old(self).distance_cache@.len() as int]).0@
                    == s1@
                &&& final(self).distance_cache@[old(self).distance_cache@.len() as int].1@ == s2@
                &&& final(self).distance_cache@[old(self).distance_cache@.len() as int].2 == r
            },
            final(self).same_config(*old(self)),
            final(self).queue@ == old(self).queue@,
            final(self).visited@ == old(self).visited@,
            final(self).best_attempts@ == old(self).best_attempts@,
            final(self).best_distance == old(self).best_distance,
            final(self).states_explored == old(self).states_explored,
            final(self).max_depth_reached == old(self).max_depth_reached,
            final(self).decode_cache@ == old(self).decode_cache@,
    {
        let n = self.distance_cache.len();
        let mut i: usize = 0;
        while i < n
            invariant
                *self == *old(self),
                old(self).wf(),
                s1@.len() <= MAX_TEXT_LEN,
                s2@.len() <= MAX_TEXT_LEN,
                n == self.distance_cache@.len(),
                0 <= i <= n,
                forall|k: int|
                    0 <= k < i ==> !((#[trigger] self.distance_cache@[k]).0@ == s1@
                        && self.distance_cache@[k].1@ == s2@),
            decreases n - i,
        {
            if str_eq(self.distance_cache[i].0.as_str(), s1) && str_eq(
                self.distance_cache[i].1.as_str(),
                s2,
            ) {
                proof {
                    lemma_score_milli_bound(s1@, s2@);
                    assert(cache_has(self.distance_cache@, s1@, s2@)) by {
                        assert((self.distance_cache@[i as int]).0@ == s1@
                            && self.distance_cache@[i as int].1@ == s2@);
                    }
                }
                return self.distance_cache[i].2;
            }
            i += 1;
        }
        proof {
            assert(!cache_has(self.distance_cache@, s1@, s2@));
        }
        let r = score(s1, s2);
        if s1.unicode_len() > 0 && s2.unicode_len() > 0 {
            self.distance_cache.push((s1.to_owned(), s2.to_owned(), r));
            if self.distance_cache.len() > 10_000 {
                self.distance_cache.clear();
            }
        }
        r
    }

    /// The memoized hint applicator: look `(text, hint name)` up in the
    /// cache, else apply the hint and cache the outcome. The hint must be
    /// the catalog entry bearing its name.
    pub fn apply_hint(&mut self, text: &str, hint: &Hint) -> (r: Option<String>)
        requires
            old(self).wf(),
            find_hint(old(self).hints@, hint.name@) == Some(*hint),
        ensures
            final(self).wf(),
            opt_view(r) == apply_hint_spec(text@, *hint),
            final(self).same_config(*old(self)),
            final(self).queue@ == old(self).queue@,
            final(self).visited@ == old(self).visited@,
            final(self).best_attempts@ == old(self).best_attempts@,
            final(self).best_distance == old(self).best_distance,
            final(self).states_explored == old(self).states_explored,
            final(self).max_depth_reached == old(self).max_depth_reached,
            final(self).distance_cache@ == old(self).distance_cache@,
    {
        let n = self.decode_cache.len();
        let mut i: usize = 0;
        while i < n
            invariant
                *self == *old(self),
                old(self).wf(),
                find_hint(old(self).hints@, hint.name@) == Some(*hint),
                n == self.decode_cache@.len(),
                0 <= i <= n,
            decreases n - i,
        {
            if str_eq(self.decode_cache[i].0.as_str(), text) && str_eq(
                self.decode_cache[i].1.as_str(),
                hint.name.as_str(),
            ) {
                proof {
                    assert(apply_by_name(self.hints@, text@, hint.name@) == apply_hint_spec(
                        text@,
                        *hint,
                    ));
                }
                let cached = match &self.decode_cache[i].2 {
                    Some(s) => Some(s.clone()),
                    None => None,
                };
                return cached;
            }
            i += 1;
        }
        let r = apply_hint_uncached(text, hint);
        let stored = match &r {
            Some(s) => Some(s.clone()),
            None => None,
        };
        self.decode_cache.push((text.to_owned(), hint.name.clone(), stored));
        proof {
            assert(apply_by_name(self.hints@, text@, hint.name@) == apply_hint_spec(text@, *hint));
        }
        r
    }

    /// Record a popped state: drop the running best distance to its score if
    /// lower, and update the shortlist.
    pub fn update_best_attempts(&mut self, text: String, path: Vec<String>, distance: u64)
        requires
            old(self).wf(),
            distance as int == score_milli(text@, old(self).target@),
        ensures
            final(self).wf(),
            final(self).best_distance as int == min(
                old(self).best_distance as int,
                distance as int,
            ),
            final(self).best_attempts@.len() >= 1,
            if exists|i: int|
                0 <= i < old(self).best_attempts@.len() && old(self).best_attempts@[i].text@
                    == text@ {
                {
                    let i = choose|i: int|
                        0 <= i < old(self).best_attempts@.len()
                            && old(self).best_attempts@[i].text@ == text@;
                    if path@.len() < old(self).best_attempts@[i].path@.len() {
                        final(self).best_attempts@ == old(self).best_attempts@.update(
                            i,
                            (BestAttempt { text, path, distance }),
                        )
                    } else {
                        final(self).best_attempts@ == old(self).best_attempts@
                    }
                }
            } else {
                exists|k: int|
                    #![trigger old(self).best_attempts@.insert(k, (BestAttempt { text, path, distance }))]
                    is_insert_pos(old(self).best_attempts@, distance, k)
                        && final(self).best_attempts@ == old(self).best_attempts@.insert(
                        k,
                        (BestAttempt { text, path, distance }),
                    ).take(min(old(self).best_attempts@.len() as int + 1, 30))
            },
            final(self).same_config(*old(self)),
            final(self).queue@ == old(self).queue@,
            final(self).visited@ == old(self).visited@,
            final(self).states_explored == old(self).states_explored,
            final(self).max_depth_reached == old(self).max_depth_reached,
            final(self).distance_cache@ == old(self).distance_cache@,
            final(self).decode_cache@ == old(self).decode_cache@,
    {
        let ghost l0 = self.best_attempts@;
        let ghost d = distance;
        if distance < self.best_distance {
            self.best_distance = distance;
        }
        proof {
            assert forall|i: int|
                0 <= i < l0.len() && l0[i].text@ == text@ implies l0[i].distance == distance by {
                assert(l0[i].distance as int == score_milli(l0[i].text@, old(self).target@));
            }
        }
        update_attempts_list(&mut self.best_attempts, text, path, distance);
        proof {
            let l1 = self.best_attempts@;
            let av = (BestAttempt { text, path, distance });
            if exists|i: int| 0 <= i < l0.len() && l0[i].text@ == text@ {
                let i = choose|i: int| 0 <= i < l0.len() && l0[i].text@ == text@;
                assert(l0[i].distance == distance);
                assert(l0[0].distance <= distance);
                assert forall|x: int|
                    0 <= x < l1.len() implies (#[trigger] l1[x]).distance as int == score_milli(
                    l1[x].text@,
                    self.target@,
                ) by {
                    if path@.len() < l0[i].path@.len() {
                        assert(l1 == l0.update(i, av));
                        if x == i {
                            assert(l1[x] == av);
                        } else {
                            assert(l1[x] == l0[x]);
                        }
                    } else {
                        assert(l1[x] == l0[x]);
                    }
                }
                assert(l1[0].distance == l0[0].distance);
            } else {
                let k = choose|k: int|
                    #![trigger l0.insert(k, av)]
                    is_insert_pos(l0, d, k) && l1 == l0.insert(k, av).take(
                        min(l0.len() as int + 1, 30),
                    );
                let ins = l0.insert(k, av);
                assert forall|x: int|
                    0 <= x < l1.len() implies (#[trigger] l1[x]).distance as int == score_milli(
                    l1[x].text@,
                    self.target@,
                ) by {
                    assert(l1[x] == ins[x]);
                    if x < k {
                        assert(ins[x] == l0[x]);
                    } else if x == k {
                        assert(ins[x] == av);
                    } else {
                        assert(ins[x] == l0[x - 1]);
                    }
                }
                assert(l1.len() >= 1);
                if k == 0 {
                    assert(l1[0] == ins[0]);
                    assert(ins[0] == av);
                    if l0.len() > 0 {
                        assert(l0[0].distance > d);
                    }
                } else {
                    assert(l1[0] == ins[0]);
                    assert(ins[0] == l0[0]);
                    assert(l0[0].distance <= d);
                }
            }
        }
    }

    /// Remove and return a frontier entry of minimal priority key.
    fn pop_min(&mut self) -> (r: SearchState)
        requires
            old(self).queue@.len() >= 1,
        ensures
            exists|i: int|
                #![trigger old(self).queue@.remove(i)]
                0 <= i < old(self).queue@.len() && r == old(self).queue@[i] && final(self).queue@
                    == old(self).queue@.remove(i),
            forall|j: int|
                0 <= j < old(self).queue@.len() ==> r.heuristic_score <= (#[trigger] old(
                    self,
                ).queue@[j]).heuristic_score,
            final(self).queue@.len() == old(self).queue@.len() - 1,
            final(self).visited@ == old(self).visited@,
            final(self).hints@ == old(self).hints@,
            final(self).start@ == old(self).start@,
            final(self).target@ == old(self).target@,
            final(self).max_depth == old(self).max_depth,
            final(self).best_attempts@ == old(self).best_attempts@,
            final(self).best_distance == old(self).best_distance,
            final(self).states_explored == old(self).states_explored,
            final(self).estimated_total_states == old(self).estimated_total_states,
            final(self).max_depth_reached == old(self).max_depth_reached,
            final(self).distance_cache@ == old(self).distance_cache@,
            final(self).decode_cache@ == old(self).decode_cache@,
    {
        let mut best: usize = 0;
        let mut i: usize = 1;
        while i < self.queue.len()
            invariant
                *self == *old(self),
                self.queue@.len() >= 1,
                0 <= best < i <= self.queue@.len() || (best == 0 && i <= self.queue@.len()),
                best < self.queue@.len(),
                forall|j: int|
                    0 <= j < i ==> self.queue@[best as int].heuristic_score <= (#[trigger] self
                        .queue@[j]).heuristic_score,
            decreases self.queue@.len() - i,
        {
            if self.queue[i].heuristic_score < self.queue[best].heuristic_score {
                best = i;
            }
            i += 1;
        }
        let r = self.queue.remove(best);
        r
    }

    /// Rebuild the text after each step of a finished path, with the
    /// uncached applicator, so that this read-only reconstruction never
    /// touches the engine's caches.
    pub fn reconstruct_path(&self, path: &Vec<String>) -> (steps: Vec<String>)
        requires
            path_result(self.hints@, self.start@, path_of(path@)) is Some,
        ensures
            steps@.len() == path@.len() + 1,
            steps@[0]@ == self.start@,
            forall|i: int|
                0 <= i < path@.len() ==> apply_by_name(
                    self.hints@,
                    (#[trigger] steps@[i])@,
                    path@[i]@,
                ) == Some(steps@[i + 1]@),
            steps@[steps@.len() - 1]@ == path_result(
                self.hints@,
                self.start@,
                path_of(path@),
            ).unwrap(),
    {
        let ghost full = path_result(self.hints@, self.start@, path_of(path@)).unwrap();
        let mut steps: Vec<String> = Vec::new();
        steps.push(self.start.clone());
        let mut current_text = self.start.clone();
        proof {
            assert(path_of(path@).skip(0) =~= path_of(path@));
        }
        let n = path.len();
        let mut i: usize = 0;
        while i < n
            invariant
                n == path@.len(),
                0 <= i <= n,
                steps@.len() == i + 1,
                steps@[0]@ == self.start@,
                current_text@ == steps@[i as int]@,
                path_result(self.hints@, current_text@, path_of(path@).skip(i as int)) == Some(
                    full,
                ),
                forall|j: int|
                    0 <= j < i ==> apply_by_name(self.hints@, (#[trigger] steps@[j])@, path@[j]@)
                        == Some(steps@[j + 1]@),
            decreases n - i,
        {
            let ghost sub = path_of(path@).skip(i as int);
            proof {
                assert(sub.len() > 0);
                assert(sub[0] == path_of(path@)[i as int]);
                assert(path_of(path@)[i as int] == path@[i as int]@);
            }
            match find_hint_by_name(&self.hints, path[i].as_str()) {
                Some(hint) => {
                    match apply_hint_uncached(current_text.as_str(), hint) {
                        Some(new_text) => {
                            current_text = new_text.clone();
                            steps.push(new_text);
                            proof {
                                assert(sub.skip(1) =~= path_of(path@).skip(i + 1));
                            }
                        },
                        None => {
                            proof {
                                assert(false);
                            }
                        },
                    }
                },
                None => {
                    proof {
                        assert(false);
                    }
                },
            }
            i += 1;
        }
        proof {
            assert(path_of(path@).skip(n as int).len() == 0);
        }
        steps
    }

    /// Expand one state: for every hint whose target substring occurs in
    /// the text (a cheap pre-filter that loses nothing, since an absent
    /// target never applies), apply the hint, and push each new unvisited
    /// result onto the frontier, marking it visited. Every pushed state
    /// extends the expanded state's path by one catalog hint, its text was
    /// not visited before, and every applicable unvisited result (within
    /// the length bound) does get pushed.
    fn generate_neighbors(&mut self, current: &SearchState)
        requires
            old(self).wf(),
            current.text@.len() <= MAX_TEXT_LEN,
            path_result(old(self).hints@, old(self).start@, path_of(current.path@)) == Some(
                current.text@,
            ),
            current.path@.len() < old(self).max_depth,
        ensures
            final(self).wf(),
            final(self).same_config(*old(self)),
            final(self).states_explored == old(self).states_explored,
            final(self).max_depth_reached == old(self).max_depth_reached,
            final(self).best_attempts@ == old(self).best_attempts@,
            final(self).best_distance == old(self).best_distance,
            old(self).visited@.len() <= final(self).visited@.len(),
            forall|i: int|
                0 <= i < old(self).visited@.len() ==> final(self).visited@[i] == old(
                    self,
                ).visited@[i],
            old(self).queue@.len() <= final(self).queue@.len(),
            forall|j: int|
                0 <= j < old(self).queue@.len() ==> final(self).queue@[j] == old(self).queue@[j],
            forall|j: int|
                old(self).queue@.len() <= j < final(self).queue@.len() ==> !visited_contains(
                    old(self).visited@,
                    (#[trigger] final(self).queue@[j]).text@,
                ) && exists|kq: int|
                    0 <= kq < old(self).hints@.len() && apply_hint_spec(
                        current.text@,
                        #[trigger] old(self).hints@[kq],
                    ) == Some(final(self).queue@[j].text@) && path_of(final(self).queue@[j].path@)
                        == path_of(current.path@).push(old(self).hints@[kq].name@),
            forall|k: int|
                0 <= k < old(self).hints@.len() ==> match apply_hint_spec(
                    current.text@,
                    #[trigger] old(self).hints@[k],
                ) {
                    Some(nt) => nt.len() <= MAX_TEXT_LEN ==> visited_contains(
                        final(self).visited@,
                        nt,
                    ) && (!visited_contains(old(self).visited@, nt) ==> exists|j: int|
                        old(self).queue@.len() <= j < final(self).queue@.len()
                            && (#[trigger] final(self).queue@[j]).text@ == nt),
                    None => true,
                },
    {
        let nh = self.hints.len();
        let mut k: usize = 0;
        while k < nh
            invariant
                self.wf(),
                self.same_config(*old(self)),
                self.states_explored == old(self).states_explored,
                self.max_depth_reached == old(self).max_depth_reached,
                self.best_attempts@ == old(self).best_attempts@,
                self.best_distance == old(self).best_distance,
                nh == self.hints@.len(),
                0 <= k <= nh,
                current.text@.len() <= MAX_TEXT_LEN,
                path_result(self.hints@, self.start@, path_of(current.path@)) == Some(
                    current.text@,
                ),
                current.path@.len() < self.max_depth,
                old(self).visited@.len() <= self.visited@.len(),
                forall|i: int|
                    0 <= i < old(self).visited@.len() ==> self.visited@[i] == old(
                        self,
                    ).visited@[i],
                old(self).queue@.len() <= self.queue@.len(),
                forall|j: int|
                    0 <= j < old(self).queue@.len() ==> self.queue@[j] == old(self).queue@[j],
                forall|j: int|
                    old(self).queue@.len() <= j < self.queue@.len() ==> !visited_contains(
                        old(self).visited@,
                        (#[trigger] self.queue@[j]).text@,
                    ) && exists|kq: int|
                        0 <= kq < self.hints@.len() && apply_hint_spec(
                            current.text@,
                            #[trigger] self.hints@[kq],
                        ) == Some(self.queue@[j].text@) && path_of(self.queue@[j].path@)
                            == path_of(current.path@).push(self.hints@[kq].name@),
                self.visited@.len() - old(self).visited@.len() == self.queue@.len() - old(
                    self,
                ).queue@.len(),
                forall|d: int|
                    0 <= d < self.visited@.len() - old(self).visited@.len()
                        ==> (#[trigger] self.visited@[old(self).visited@.len() + d])@
                            == self.queue@[old(self).queue@.len() + d].text@,
                forall|kk: int|
                    0 <= kk < k ==> match apply_hint_spec(
                        current.text@,
                        #[trigger] self.hints@[kk],
                    ) {
                        Some(nt) => nt.len() <= MAX_TEXT_LEN ==> visited_contains(
                            self.visited@,
                            nt,
                        ) && (!visited_contains(old(self).visited@, nt) ==> exists|j: int|
                            old(self).queue@.len() <= j < self.queue@.len()
                                && (#[trigger] self.queue@[j]).text@ == nt),
                        None => true,
                    },
            decreases nh - k,
        {
            let ghost vpre = self.visited@;
            let ghost qpre = self.queue@;
            let hint = clone_hint(&self.hints[k]);
            proof {
                lemma_find_hint_unique(self.hints@, k as int);
            }
            if contains_str(current.text.as_str(), hint.operation.target.as_str()) {
                match self.apply_hint(current.text.as_str(), &hint) {
                    Some(new_text) => {
                        if !self.visited_has(new_text.as_str()) {
                            if new_text.unicode_len() <= MAX_TEXT_LEN {
                                let tgt = self.target.clone();
                                let distance = self.calculate_distance(
                                    new_text.as_str(),
                                    tgt.as_str(),
                                );
                                let mut new_path = clone_path(&current.path);
                                new_path.push(hint.name.clone());
                                let heuristic_score = distance + 100 * (new_path.len() as u64);
                                let vcopy = new_text.clone();
                                let ghost pre = *self;
                                let st = SearchState {
                                    text: new_text,
                                    path: new_path,
                                    distance,
                                    heuristic_score,
                                };
                                proof {
                                    assert(path_of(st.path@) =~= path_of(current.path@).push(
                                        hint.name@,
                                    ));
                                    lemma_path_result_snoc(
                                        self.hints@,
                                        self.start@,
                                        path_of(current.path@),
                                        hint.name@,
                                    );
                                    assert(path_result(self.hints@, self.start@, path_of(st.path@))
                                        == Some(st.text@));
                                    assert(self.state_ok(st));
                                }
                                self.queue.push(st);
                                self.visited.push(vcopy);
                                proof {
                                    assert forall|x: int, y: int|
                                        #![trigger self.visited@[x], self.visited@[y]]
                                        0 <= x < y < self.visited@.len() implies self.visited@[x]@
                                        != self.visited@[y]@ by {
                                        if y < self.visited@.len() - 1 {
                                            assert(self.visited@[x] == pre.visited@[x]);
                                            assert(self.visited@[y] == pre.visited@[y]);
                                        } else {
                                            assert(self.visited@[x] == pre.visited@[x]);
                                            assert(!visited_contains(pre.visited@, vcopy@));
                                        }
                                    }
                                    assert forall|j: int|
                                        0 <= j < self.queue@.len() implies self.state_ok(
                                        #[trigger] self.queue@[j],
                                    ) && visited_contains(self.visited@, self.queue@[j].text@) by {
                                        if j < self.queue@.len() - 1 {
                                            assert(self.queue@[j] == pre.queue@[j]);
                                            assert(pre.state_ok(pre.queue@[j]));
                                            assert(visited_contains(pre.visited@, pre.queue@[j].text@));
                                            let vi = choose|vi: int|
                                                0 <= vi < pre.visited@.len() && (#[trigger] pre
                                                    .visited@[vi])@ == pre.queue@[j].text@;
                                            assert(self.visited@[vi]@ == self.queue@[j].text@);
                                        } else {
                                            assert(self.queue@[j] == st);
                                            assert(self.visited@[self.visited@.len() - 1]@
                                                == st.text@);
                                        }
                                    }
                                    assert(visited_contains(self.visited@, st.text@)) by {
                                        assert(self.visited@[self.visited@.len() - 1]@
                                            == st.text@);
                                    }
                                    assert forall|x: int, y: int|
                                        #![trigger self.queue@[x], self.queue@[y]]
                                        0 <= x < y < self.queue@.len() implies self.queue@[x].text@
                                        != self.queue@[y].text@ by {
                                        if y < self.queue@.len() - 1 {
                                            assert(self.queue@[x] == pre.queue@[x]);
                                            assert(self.queue@[y] == pre.queue@[y]);
                                        } else {
                                            assert(self.queue@[x] == pre.queue@[x]);
                                            assert(self.queue@[y] == st);
                                            assert(visited_contains(pre.visited@, pre.queue@[x].text@));
                                            assert(!visited_contains(pre.visited@, st.text@));
                                        }
                                    }
                                    assert(!visited_contains(old(self).visited@, st.text@)) by {
                                        if visited_contains(old(self).visited@, st.text@) {
                                            let vi = choose|vi: int|
                                                0 <= vi < old(self).visited@.len() && (#[trigger] old(
                                                    self,
                                                ).visited@[vi])@ == st.text@;
                                            assert(pre.visited@[vi]@ == st.text@);
                                            assert(visited_contains(pre.visited@, st.text@));
                                        }
                                    }
                                    assert(apply_hint_spec(current.text@, self.hints@[k as int])
                                        == Some(st.text@));
                                    assert forall|j: int|
                                        old(self).queue@.len() <= j
                                            < self.queue@.len() implies !visited_contains(
                                        old(self).visited@,
                                        (#[trigger] self.queue@[j]).text@,
                                    ) && exists|kq: int|
                                        0 <= kq < self.hints@.len() && apply_hint_spec(
                                            current.text@,
                                            #[trigger] self.hints@[kq],
                                        ) == Some(self.queue@[j].text@) && path_of(
                                            self.queue@[j].path@,
                                        ) == path_of(current.path@).push(
                                            self.hints@[kq].name@,
                                        ) by {
                                        if j < self.queue@.len() - 1 {
                                            assert(self.queue@[j] == pre.queue@[j]);
                                            let kq = choose|kq: int|
                                                0 <= kq < self.hints@.len() && apply_hint_spec(
                                                    current.text@,
                                                    #[trigger] self.hints@[kq],
                                                ) == Some(pre.queue@[j].text@) && path_of(
                                                    pre.queue@[j].path@,
                                                ) == path_of(current.path@).push(
                                                    self.hints@[kq].name@,
                                                );
                                            assert(apply_hint_spec(current.text@, self.hints@[kq])
                                                == Some(self.queue@[j].text@));
                                        } else {
                                            assert(self.queue@[j] == st);
                                            assert(apply_hint_spec(
                                                current.text@,
                                                self.hints@[k as int],
                                            ) == Some(st.text@));
                                        }
                                    }
                                    assert forall|d: int|
                                        0 <= d < self.visited@.len() - old(
                                            self,
                                        ).visited@.len() implies (#[trigger] self.visited@[old(
                                        self,
                                    ).visited@.len() + d])@ == self.queue@[old(self).queue@.len()
                                        + d].text@ by {
                                        let vi = old(self).visited@.len() + d;
                                        let qi = old(self).queue@.len() + d;
                                        if vi < self.visited@.len() - 1 {
                                            assert(self.visited@[vi] == pre.visited@[vi]);
                                            assert(self.queue@[qi] == pre.queue@[qi]);
                                            assert(pre.visited@[vi]@ == pre.queue@[qi].text@);
                                        } else {
                                            assert(self.visited@[vi]@ == st.text@);
                                            assert(qi == self.queue@.len() - 1);
                                            assert(self.queue@[qi].text@ == st.text@);
                                        }
                                    }
                                    assert(expansion_covers_hint(
                                        *old(self),
                                        *self,
                                        current.text@,
                                        k as int,
                                    )) by {
                                        assert(old(self).queue@.len() <= self.queue@.len() - 1);
                                        assert(self.queue@[self.queue@.len() - 1].text@
                                            == st.text@);
                                    }
                                }
                            } else {
                                proof {
                                    assert(apply_hint_spec(current.text@, self.hints@[k as int])
                                        == Some(new_text@));
                                    assert(expansion_covers_hint(
                                        *old(self),
                                        *self,
                                        current.text@,
                                        k as int,
                                    ));
                                }
                            }
                        } else {
                            proof {
                                assert(visited_contains(self.visited@, new_text@));
                                assert(apply_hint_spec(current.text@, self.hints@[k as int])
                                    == Some(new_text@));
                                if !visited_contains(old(self).visited@, new_text@) {
                                    let vi = choose|vi: int|
                                        0 <= vi < self.visited@.len() && (#[trigger] self
                                            .visited@[vi])@ == new_text@;
                                    if vi < old(self).visited@.len() {
                                        assert(old(self).visited@[vi]@ == new_text@);
                                        assert(visited_contains(old(self).visited@, new_text@));
                                    } else {
                                        let d = vi - old(self).visited@.len();
                                        let j0 = old(self).queue@.len() + d;
                                        assert((self.visited@[old(self).visited@.len() + d])@
                                            == self.queue@[old(self).queue@.len() + d].text@);
                                        assert(self.queue@[j0].text@ == new_text@);
                                    }
                                }
                                assert(expansion_covers_hint(*old(self), *self, current.text@, k as int));
                            }
                        }
                    },
                    None => {
                        proof {
                            assert(expansion_covers_hint(*old(self), *self, current.text@, k as int));
                        }
                    },
                }
            } else {
                proof {
                    let h = self.hints@[k as int];
                    lemma_apply_absent(
                        current.text@,
                        h.operation.op_type@,
                        h.operation.target@,
                        opt_view(h.operation.replacement),
                    );
                    assert(apply_hint_spec(current.text@, h) is None);
                    assert(expansion_covers_hint(*old(self), *self, current.text@, k as int));
                }
            }
            proof {
                assert forall|kk: int|
                    0 <= kk < k + 1 implies match apply_hint_spec(
                    current.text@,
                    #[trigger] self.hints@[kk],
                ) {
                    Some(nt) => nt.len() <= MAX_TEXT_LEN ==> visited_contains(self.visited@, nt)
                        && (!visited_contains(old(self).visited@, nt) ==> exists|j: int|
                            old(self).queue@.len() <= j < self.queue@.len()
                                && (#[trigger] self.queue@[j]).text@ == nt),
                    None => true,
                } by {
                    match apply_hint_spec(current.text@, self.hints@[kk]) {
                        Some(nt) => {
                            if nt.len() <= MAX_TEXT_LEN {
                                if kk < k {
                                    assert(visited_contains(vpre, nt));
                                    let vi = choose|vi: int|
                                        0 <= vi < vpre.len() && (#[trigger] vpre[vi])@ == nt;
                                    assert(self.visited@[vi]@ == nt);
                                    if !visited_contains(old(self).visited@, nt) {
                                        let j0 = choose|j0: int|
                                            old(self).queue@.len() <= j0 < qpre.len()
                                                && (#[trigger] qpre[j0]).text@ == nt;
                                        assert(self.queue@[j0] == qpre[j0]);
                                        assert(self.queue@[j0].text@ == nt);
                                    }
                                } else {
                                    assert(expansion_covers_hint(
                                        *old(self),
                                        *self,
                                        current.text@,
                                        k as int,
                                    ));
                                }
                            }
                        },
                        None => {},
                    }
                }
            }
            k += 1;
        }
    }

    /// Run up to `iterations` expansion steps. A popped state is counted,
    /// recorded in the best attempts, and — unless it is the target or at
    /// the depth bound — expanded. Reports a solution as soon as the target
    /// text is popped, else a progress snapshot.
    pub fn run_iterations(&mut self, iterations: usize) -> (r: RunOutcome)
        requires
            old(self).wf(),
        ensures
            final(self).wf(),
            final(self).same_config(*old(self)),
            old(self).states_explored <= final(self).states_explored <= old(self).states_explored
                + iterations,
            final(self).max_depth_reached >= old(self).max_depth_reached,
            final(self).best_distance <= old(self).best_distance,
            old(self).queue@.len() == 0 ==> *final(self) == *old(self),
            r matches RunOutcome::Solved(_) ==> final(self).states_explored > old(
                self,
            ).states_explored,
            r matches RunOutcome::Progress(_) ==> final(self).states_explored == old(
                self,
            ).states_explored + iterations || final(self).queue@.len() == 0,
            match r {
                RunOutcome::Solved(res) => {
                    &&& res.found == true
                    &&& path_result(final(self).hints@, final(self).start@, path_of(res.path@))
                        == Some(final(self).target@)
                    &&& res.steps@.len() == res.path@.len() + 1
                    &&& res.steps@[0]@ == final(self).start@
                    &&& res.steps@[res.steps@.len() - 1]@ == final(self).target@
                    &&& forall|i: int|
                        0 <= i < res.path@.len() ==> apply_by_name(
                            final(self).hints@,
                            (#[trigger] res.steps@[i])@,
                            res.path@[i]@,
                        ) == Some(res.steps@[i + 1]@)
                    &&& attempts_like(res.best_attempts@, final(self).best_attempts@)
                    &&& res.total_states_explored == final(self).states_explored
                },
                RunOutcome::Progress(p) => {
                    &&& p.states_explored == final(self).states_explored
                    &&& p.current_best_distance == final(self).best_distance
                    &&& (final(self).best_attempts@.len() > 0 ==> p.current_best_text@
                        == final(self).best_attempts@[0].text@)
                    &&& (final(self).best_attempts@.len() == 0 ==> p.current_best_text@
                        == Seq::<char>::empty())
                    &&& p.queue_size == final(self).queue@.len()
                    &&& p.progress_percentage as int == progress_spec(
                        final(self).states_explored as int,
                        final(self).queue@.len() as int,
                        final(self).estimated_total_states as int,
                    )
                    &&& 100 <= p.progress_percentage <= 99_900
                    &&& p.estimated_total_states == final(self).estimated_total_states
                    &&& p.depth_progress as int == depth_progress_spec(
                        final(self).max_depth_reached as int,
                        final(self).max_depth as int,
                    )
                    &&& p.max_depth_reached == final(self).max_depth_reached
                },
            },
    {
        let mut found = false;
        let mut final_path: Vec<String> = Vec::new();
        let mut final_steps: Vec<String> = Vec::new();
        let mut it: usize = 0;
        while it < iterations && !found
            invariant
                self.wf(),
                self.same_config(*old(self)),
                0 <= it <= iterations,
                self.states_explored == old(self).states_explored + it,
                self.max_depth_reached >= old(self).max_depth_reached,
                self.best_distance <= old(self).best_distance,
                found ==> it >= 1,
                old(self).queue@.len() == 0 ==> *self == *old(self) && !found,
                found ==> {
                    &&& path_result(self.hints@, self.start@, path_of(final_path@)) == Some(
                        self.target@,
                    )
                    &&& final_steps@.len() == final_path@.len() + 1
                    &&& final_steps@[0]@ == self.start@
                    &&& final_steps@[final_steps@.len() - 1]@ == self.target@
                    &&& forall|i: int|
                        0 <= i < final_path@.len() ==> apply_by_name(
                            self.hints@,
                            (#[trigger] final_steps@[i])@,
                            final_path@[i]@,
                        ) == Some(final_steps@[i + 1]@)
                },
            ensures
                self.wf(),
                self.same_config(*old(self)),
                0 <= it <= iterations,
                self.states_explored == old(self).states_explored + it,
                self.max_depth_reached >= old(self).max_depth_reached,
                self.best_distance <= old(self).best_distance,
                found ==> it >= 1,
                old(self).queue@.len() == 0 ==> *self == *old(self) && !found,
                !found ==> it == iterations || self.queue@.len() == 0,
                found ==> {
                    &&& path_result(self.hints@, self.start@, path_of(final_path@)) == Some(
                        self.target@,
                    )
                    &&& final_steps@.len() == final_path@.len() + 1
                    &&& final_steps@[0]@ == self.start@
                    &&& final_steps@[final_steps@.len() - 1]@ == self.target@
                    &&& forall|i: int|
                        0 <= i < final_path@.len() ==> apply_by_name(
                            self.hints@,
                            (#[trigger] final_steps@[i])@,
                            final_path@[i]@,
                        ) == Some(final_steps@[i + 1]@)
                },
            decreases iterations - it,
        {
            if self.queue.is_empty() {
                break;
            }
            let ghost pre = *self;
            let current = self.pop_min();
            proof {
                let qi = choose|qi: int|
                    #![trigger pre.queue@.remove(qi)]
                    0 <= qi < pre.queue@.len() && current == pre.queue@[qi] && self.queue@
                        == pre.queue@.remove(qi);
                assert(pre.state_ok(current));
                assert forall|j: int|
                    0 <= j < self.queue@.len() implies self.state_ok(#[trigger] self.queue@[j])
                    && visited_contains(self.visited@, self.queue@[j].text@) by {
                    if j < qi {
                        assert(self.queue@[j] == pre.queue@[j]);
                        assert(pre.state_ok(pre.queue@[j]));
                    } else {
                        assert(self.queue@[j] == pre.queue@[j + 1]);
                        assert(pre.state_ok(pre.queue@[j + 1]));
                    }
                }
                assert forall|x: int, y: int|
                    #![trigger self.queue@[x], self.queue@[y]]
                    0 <= x < y < self.queue@.len() implies self.queue@[x].text@
                    != self.queue@[y].text@ by {
                    let x0 = if x < qi { x } else { x + 1 };
                    let y0 = if y < qi { y } else { y + 1 };
                    assert(self.queue@[x] == pre.queue@[x0]);
                    assert(self.queue@[y] == pre.queue@[y0]);
                    assert(pre.queue@[x0].text@ != pre.queue@[y0].text@);
                }
                assert(self.state_ok(current));
            }
            proof {
                assert(self.visited.len() == self.visited@.len());
            }
            self.states_explored += 1;
            if current.path.len() > self.max_depth_reached {
                self.max_depth_reached = current.path.len();
            }
            if str_eq(current.text.as_str(), self.target.as_str()) {
                found = true;
                final_path = clone_path(&current.path);
                final_steps = self.reconstruct_path(&current.path);
                self.update_best_attempts(current.text, current.path, current.distance);
            } else {
                self.update_best_attempts(
                    current.text.clone(),
                    clone_path(&current.path),
                    current.distance,
                );
                if current.path.len() >= self.max_depth {
                } else {
                    self.generate_neighbors(&current);
                }
            }
            it += 1;
        }
        if found {
            let result = SearchResult {
                found: true,
                path: final_path,
                steps: final_steps,
                best_attempts: clone_attempts(&self.best_attempts),
                total_states_explored: self.states_explored,
            };
            RunOutcome::Solved(result)
        } else {
            let progress_percentage = calculate_progress_percentage(
                self.states_explored,
                self.queue.len(),
                self.estimated_total_states,
            );
            let depth_progress = depth_progress_value(self.max_depth_reached, self.max_depth);
            let current_best_text = if self.best_attempts.len() > 0 {
                self.best_attempts[0].text.clone()
            } else {
                String::new()
            };
            let progress = ProgressUpdate {
                states_explored: self.states_explored,
                current_best_distance: self.best_distance,
                current_best_text,
                queue_size: self.queue.len(),
                progress_percentage,
                estimated_total_states: self.estimated_total_states,
                depth_progress,
                max_depth_reached: self.max_depth_reached,
            };
            RunOutcome::Progress(progress)
        }
    }
}

/// Depth bounds hold in every reachable engine state: the deepest expansion
/// never exceeds the depth bound, and no frontier entry's path is longer
/// than the bound.
pub proof fn lemma_depth_bounds(e: PathfinderEngine)
    requires
        e.wf(),
    ensures
        e.max_depth_reached <= e.max_depth,
        forall|i: int|
            0 <= i < e.queue@.len() ==> (#[trigger] e.queue@[i]).path@.len() <= e.max_depth,
{
    assert forall|i: int|
        0 <= i < e.queue@.len() implies (#[trigger] e.queue@[i]).path@.len() <= e.max_depth by {
        assert(e.state_ok(e.queue@[i]));
    }
}

} // verus!
