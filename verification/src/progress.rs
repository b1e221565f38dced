//! Search-space estimation and human-facing progress percentages. Both are
//! cosmetic — they never influence the search itself — and both are exact
//! fixed-point computations: branching factors and state counts are held in
//! milli-units (1000 = 1.0), percentages in milli-percent (99900 = 99.9%).

use vstd::prelude::*;
use vstd::math::{min, max};

verus! {

/// State of the estimator after `d` depth levels, all in milli-units:
/// (branching factor, states at this depth, running total). The branching
/// factor starts at max(1, 0.15 x hint count), shrinks by 0.8 per level and
/// is floored at 0.5; the iteration freezes once a level's state count
/// exceeds 100 000 (the estimate is saturated).
pub open spec fn estimate_state(hints_count: int, d: int) -> (int, int, int)
    decreases d,
{
    if d <= 0 {
        (max(1000, 150 * hints_count), 1000, 1000)
    } else {
        let prev = estimate_state(hints_count, d - 1);
        if prev.1 > 100_000_000 {
            prev
        } else {
            let b = max(prev.0 * 4 / 5, 500);
            let s = prev.1 * b / 1000;
            (b, s, prev.2 + s)
        }
    }
}

/// Rough upper bound on the number of reachable states: the saturating sum
/// over depth levels, padded by 10% and capped at one million. Zero hints or
/// zero depth give 1.
pub open spec fn estimate_spec(hints_count: int, max_depth: int) -> int {
    if hints_count == 0 || max_depth == 0 {
        1
    } else {
        min(1_000_000, estimate_state(hints_count, max_depth).2 * 11 / 10 / 1000)
    }
}

/// Once a level exceeds the saturation threshold, deeper levels change
/// nothing.
proof fn lemma_estimate_stable(hints_count: int, d1: int, d2: int)
    requires
        0 <= d1 <= d2,
        estimate_state(hints_count, d1).1 > 100_000_000,
    ensures
        estimate_state(hints_count, d2) == estimate_state(hints_count, d1),
    decreases d2 - d1,
{
    if d2 > d1 {
        lemma_estimate_stable(hints_count, d1, d2 - 1);
    }
}

/// Estimate of the total number of reachable states, used only for progress
/// display.
pub fn estimate_search_space(hints_count: usize, max_depth: usize) -> (r: usize)
    ensures
        r as int == estimate_spec(hints_count as int, max_depth as int),
        1 <= r <= 1_000_000,
{
    if hints_count == 0 || max_depth == 0 {
        return 1;
    }
    let ghost hc = hints_count as int;
    let mut b: u128 = 150 * (hints_count as u128);
    if b < 1000 {
        b = 1000;
    }
    let ghost bmax = b as int;
    let mut s: u128 = 1000;
    let mut t: u128 = 1000;
    let mut d: usize = 0;
    let mut saturated: bool = false;
    proof {
        assert(bmax == max(1000, 150 * hc));
        assert((b as int, s as int, t as int) == estimate_state(hc, 0));
    }
    while d < max_depth && !saturated
        invariant
            hc == hints_count as int,
            hc >= 1,
            0 <= d <= max_depth,
            bmax == max(1000, 150 * hc),
            bmax <= 1000 + 150 * 0xffff_ffff_ffff_ffff,
            b as int == estimate_state(hc, d as int).0,
            s as int == estimate_state(hc, d as int).1,
            t as int == estimate_state(hc, d as int).2,
            saturated == (s > 100_000_000),
            500 <= b as int <= bmax,
            s as int <= 100_000_000 * bmax / 1000,
            t >= 1000,
            t as int <= 1000 + d * 100_000_000 + if saturated {
                s as int
            } else {
                0int
            },
        decreases max_depth - d,
    {
        let ghost bold = b as int;
        let ghost sold = s as int;
        let mut nb = b * 4 / 5;
        if nb < 500 {
            nb = 500;
        }
        proof {
            assert(bold * 4 / 5 <= bold);
            assert(nb as int == max(bold * 4 / 5, 500));
            assert(500 <= nb as int <= bmax);
            assert(sold * (nb as int) <= 100_000_000 * bmax) by (nonlinear_arith)
                requires
                    0 <= sold <= 100_000_000,
                    0 <= nb as int <= bmax,
            ;
            assert(sold * (nb as int) / 1000 <= 100_000_000 * bmax / 1000);
        }
        b = nb;
        s = s * b / 1000;
        t = t + s;
        if s > 100_000_000 {
            saturated = true;
        }
        d += 1;
        proof {
            assert(estimate_state(hc, d as int) == (b as int, s as int, t as int));
        }
    }
    proof {
        if saturated {
            lemma_estimate_stable(hc, d as int, max_depth as int);
        }
        assert(estimate_state(hc, max_depth as int).2 == t as int);
    }
    let padded = t * 11 / 10 / 1000;
    let r: usize = if padded > 1_000_000 {
        1_000_000
    } else {
        padded as usize
    };
    proof {
        assert(t as int * 11 / 10 / 1000 >= 1int);
    }
    r
}

/// Progress percentage in milli-percent. An emptied frontier after at least
/// one expansion is the reserved 99.9% "essentially done" value; otherwise
/// the ratio of explored states to the estimate, rescaled by queue size when
/// the estimate has been overrun, clamped into [0.1%, 99.9%], and bumped to
/// 1% once more than ten states have been explored.
pub open spec fn progress_spec(states_explored: int, queue_size: int, estimated_total: int) -> int {
    if queue_size == 0 && states_explored > 0 {
        99_900
    } else if estimated_total == 0 {
        0
    } else {
        let raw = states_explored * 100_000 / estimated_total;
        let adjusted = if states_explored > estimated_total {
            if queue_size < 100 {
                90_000 + (100 - queue_size) * 99
            } else {
                50_000 + states_explored * 40_000 / (states_explored + queue_size)
            }
        } else {
            raw
        };
        let clamped = max(100, min(99_900, adjusted));
        if clamped < 1000 && states_explored > 10 {
            1000
        } else {
            clamped
        }
    }
}

/// The percentage always lies in [0.1%, 99.9%] whenever the estimate is
/// positive; 100% is never produced — a solution is reported as data, not as
/// a percentage.
pub proof fn lemma_progress_bounds(states_explored: int, queue_size: int, estimated_total: int)
    requires
        states_explored >= 0,
        queue_size >= 0,
        estimated_total >= 1,
    ensures
        100 <= progress_spec(states_explored, queue_size, estimated_total) <= 99_900,
{
}

/// Progress percentage in milli-percent for the given counters.
pub fn calculate_progress_percentage(
    states_explored: usize,
    queue_size: usize,
    estimated_total: usize,
) -> (r: u64)
    ensures
        r as int == progress_spec(states_explored as int, queue_size as int, estimated_total as int),
        estimated_total >= 1 ==> 100 <= r <= 99_900,
{
    if queue_size == 0 && states_explored > 0 {
        return 99_900;
    }
    if estimated_total == 0 {
        return 0;
    }
    let adjusted: u128 = if states_explored > estimated_total {
        if queue_size < 100 {
            90_000 + (100 - queue_size as u128) * 99
        } else {
            50_000 + (states_explored as u128) * 40_000 / (states_explored as u128
                + queue_size as u128)
        }
    } else {
        (states_explored as u128) * 100_000 / (estimated_total as u128)
    };
    let clamped: u64 = if adjusted < 100 {
        100
    } else if adjusted > 99_900 {
        99_900
    } else {
        adjusted as u64
    };
    if clamped < 1000 && states_explored > 10 {
        1000
    } else {
        clamped
    }
}

} // verus!
