//! The search-space estimator and the progress percentage, both in exact
//! fixed-point units.

use pathfinder::progress::{calculate_progress_percentage, estimate_search_space};

#[test]
fn estimate_degenerate_cases() {
    assert_eq!(estimate_search_space(0, 5), 1);
    assert_eq!(estimate_search_space(7, 0), 1);
    assert_eq!(estimate_search_space(0, 0), 1);
}

#[test]
fn estimate_exact_small_values() {
    // 10 hints: branching starts at 1.5, shrinks to 1.2 then 0.96;
    // totals 1 + 1.2 + 1.152 = 3.352, padded by 10% and floored: 3.
    assert_eq!(estimate_search_space(10, 2), 3);
    // 1 hint: branching floor 1.0, shrinks to 0.8; total 1.8 -> 1.98 -> 1.
    assert_eq!(estimate_search_space(1, 1), 1);
}

#[test]
fn estimate_is_capped_at_one_million() {
    let e = estimate_search_space(usize::MAX / 200, 100);
    assert_eq!(e, 1_000_000);
}

#[test]
fn percentage_empty_queue_after_progress_is_reserved_value() {
    assert_eq!(calculate_progress_percentage(10, 0, 100), 99_900);
}

#[test]
fn percentage_zero_estimate_is_zero() {
    assert_eq!(calculate_progress_percentage(0, 5, 0), 0);
}

#[test]
fn percentage_plain_ratio() {
    // 50 of 100 states: 50%, i.e. 50000 milli-percent.
    assert_eq!(calculate_progress_percentage(50, 5, 100), 50_000);
}

#[test]
fn percentage_clamps_to_lower_bound() {
    // 0 of 100: clamped up to 0.1%.
    assert_eq!(calculate_progress_percentage(0, 5, 100), 100);
}

#[test]
fn percentage_overrun_with_small_queue() {
    // Estimate overrun, queue below 100: 90 + (100 - 50) * 0.099 = 94.95%.
    assert_eq!(calculate_progress_percentage(200, 50, 100), 94_950);
}

#[test]
fn percentage_overrun_with_large_queue() {
    // Estimate overrun, queue at least 100: 50 + 40 * 200/350 = 72.857%.
    assert_eq!(calculate_progress_percentage(200, 150, 100), 72_857);
}

#[test]
fn percentage_bumps_to_one_percent_after_ten_states() {
    // 11 of 10000 is 0.11%, reported as 1% once more than ten states are
    // explored.
    assert_eq!(calculate_progress_percentage(11, 5, 10_000), 1_000);
}

#[test]
fn percentage_stays_within_bounds() {
    for (se, qs, est) in [
        (0usize, 0usize, 1usize),
        (1, 0, 1),
        (5, 3, 7),
        (1_000_000, 1, 3),
        (3, 1_000_000, 1_000_000),
        (12, 120, 10_000),
    ] {
        let p = calculate_progress_percentage(se, qs, est);
        assert!((100..=99_900).contains(&p));
    }
}
