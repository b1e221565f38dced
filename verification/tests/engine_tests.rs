//! End-to-end engine scenarios: immediate solutions, one-step discoveries,
//! exhaustion, progress bounds, and the distance-cache guard.

use pathfinder::distance::score;
use pathfinder::engine::{EngineError, PathfinderEngine, RunOutcome};
use pathfinder::hints::{Hint, HintOperation};

fn hint(name: &str, kind: &str, target: &str, replacement: Option<&str>) -> Hint {
    Hint {
        name: name.to_string(),
        reading: String::new(),
        operation: HintOperation {
            op_type: kind.to_string(),
            target: target.to_string(),
            replacement: replacement.map(|r| r.to_string()),
        },
        description: String::new(),
    }
}

#[test]
fn start_equal_to_target_solves_immediately() {
    let catalog = vec![hint("any", "remove", "a", None)];
    let mut engine = PathfinderEngine::new("cat", "cat", catalog, 3).unwrap();
    match engine.run_iterations(1) {
        RunOutcome::Solved(res) => {
            assert!(res.found);
            assert!(res.path.is_empty());
            assert_eq!(res.steps, vec!["cat".to_string()]);
            assert_eq!(res.total_states_explored, 1);
        },
        RunOutcome::Progress(_) => panic!("expected a solution"),
    }
}

#[test]
fn start_equal_to_target_with_zero_depth() {
    let catalog = vec![hint("any", "remove", "a", None)];
    let mut engine = PathfinderEngine::new("cat", "cat", catalog, 0).unwrap();
    match engine.run_iterations(1) {
        RunOutcome::Solved(res) => {
            assert!(res.found);
            assert!(res.path.is_empty());
            assert_eq!(res.steps, vec!["cat".to_string()]);
        },
        RunOutcome::Progress(_) => panic!("expected a solution"),
    }
}

#[test]
fn one_step_path_is_discovered() {
    // "hello" -> "helo" by rewriting the double l to a single one.
    let catalog = vec![hint("drop-l", "replace", "ll", Some("l"))];
    let mut engine = PathfinderEngine::new("hello", "helo", catalog, 2).unwrap();
    let mut solved = false;
    for _ in 0..10 {
        match engine.run_iterations(5) {
            RunOutcome::Solved(res) => {
                assert!(res.found);
                assert_eq!(res.path, vec!["drop-l".to_string()]);
                assert_eq!(res.steps, vec!["hello".to_string(), "helo".to_string()]);
                solved = true;
                break;
            },
            RunOutcome::Progress(_) => {},
        }
    }
    assert!(solved);
}

#[test]
fn exhaustion_reports_single_best_attempt() {
    // No hint applies to "abc", so the search exhausts after one expansion.
    let catalog = vec![hint("useless", "remove", "q", None)];
    let mut engine = PathfinderEngine::new("abc", "xyz", catalog, 3).unwrap();
    let mut rounds = 0;
    while !engine.is_complete() {
        match engine.run_iterations(10) {
            RunOutcome::Solved(_) => panic!("no solution exists"),
            RunOutcome::Progress(_) => {},
        }
        rounds += 1;
        assert!(rounds < 100);
    }
    let result = engine.get_result();
    assert!(!result.found);
    assert!(result.path.is_empty());
    assert!(result.steps.is_empty());
    assert_eq!(result.best_attempts.len(), 1);
    assert_eq!(result.best_attempts[0].text, "abc");
    assert_eq!(result.best_attempts[0].distance, score("abc", "xyz"));
    assert_eq!(result.total_states_explored, 1);
}

#[test]
fn duplicate_hint_names_are_rejected() {
    let catalog = vec![
        hint("same", "remove", "a", None),
        hint("same", "remove", "b", None),
    ];
    let r = PathfinderEngine::new("x", "y", catalog, 2);
    assert!(matches!(r, Err(EngineError::DuplicateHintName)));
}

#[test]
fn progress_fields_stay_within_bounds() {
    // A branching search that cannot reach the target.
    let catalog = vec![
        hint("ab", "replace", "a", Some("b")),
        hint("bc", "replace", "b", Some("c")),
        hint("cd", "replace", "c", Some("d")),
    ];
    let mut engine = PathfinderEngine::new("abcabc", "zzz", catalog, 4).unwrap();
    loop {
        match engine.run_iterations(3) {
            RunOutcome::Solved(_) => panic!("no solution exists"),
            RunOutcome::Progress(p) => {
                assert!((100..=99_900).contains(&p.progress_percentage));
                assert!(p.depth_progress <= 99_900);
                assert!(p.max_depth_reached <= 4);
                if p.queue_size == 0 {
                    break;
                }
            },
        }
    }
}

#[test]
fn deeper_search_finds_two_step_path() {
    let catalog = vec![
        hint("a-to-b", "replace", "a", Some("b")),
        hint("b-to-c", "replace", "b", Some("c")),
    ];
    let mut engine = PathfinderEngine::new("aa", "cc", catalog, 3).unwrap();
    let mut solved = false;
    for _ in 0..50 {
        match engine.run_iterations(5) {
            RunOutcome::Solved(res) => {
                assert_eq!(
                    res.path,
                    vec!["a-to-b".to_string(), "b-to-c".to_string()]
                );
                assert_eq!(
                    res.steps,
                    vec!["aa".to_string(), "bb".to_string(), "cc".to_string()]
                );
                solved = true;
                break;
            },
            RunOutcome::Progress(_) => {},
        }
    }
    assert!(solved);
}

#[test]
fn depth_bound_prevents_expansion() {
    // The target needs two steps but the depth bound is one.
    let catalog = vec![
        hint("a-to-b", "replace", "a", Some("b")),
        hint("b-to-c", "replace", "b", Some("c")),
    ];
    let mut engine = PathfinderEngine::new("aa", "cc", catalog, 1).unwrap();
    let mut rounds = 0;
    while !engine.is_complete() {
        match engine.run_iterations(10) {
            RunOutcome::Solved(_) => panic!("target is out of depth range"),
            RunOutcome::Progress(p) => assert!(p.max_depth_reached <= 1),
        }
        rounds += 1;
        assert!(rounds < 100);
    }
    assert!(!engine.get_result().found);
}

#[test]
fn distance_cache_clears_past_ten_thousand_entries() {
    let catalog = vec![hint("any", "remove", "q", None)];
    let mut engine = PathfinderEngine::new("aaa", "zzz", catalog, 2).unwrap();
    let expected = score("hello", "zz");
    // Fill the cache to its limit; the guard clears it wholesale on the
    // insertion that pushes it past 10000 entries.
    for i in 0..10_000u32 {
        let key = format!("k{}", i);
        let v = score(&key, "zz");
        engine.distance_cache.push((key, "zz".to_string(), v));
    }
    assert_eq!(engine.distance_cache.len(), 10_000);
    let d = engine.calculate_distance("hello", "zz");
    assert_eq!(d, expected);
    assert_eq!(engine.distance_cache.len(), 0);
    // Values stay correct after the clear: the next call recomputes.
    let d2 = engine.calculate_distance("hello", "zz");
    assert_eq!(d2, expected);
    assert_eq!(engine.distance_cache.len(), 1);
}

#[test]
fn distance_cache_values_stay_correct_across_inserts() {
    let catalog = vec![hint("any", "remove", "q", None)];
    let mut engine = PathfinderEngine::new("aaa", "zzz", catalog, 2).unwrap();
    for i in 0..300u32 {
        let key = format!("word{}", i);
        let fresh = score(&key, "zz");
        assert_eq!(engine.calculate_distance(&key, "zz"), fresh);
    }
    // Cached lookups return the same values.
    for i in 0..300u32 {
        let key = format!("word{}", i);
        assert_eq!(engine.calculate_distance(&key, "zz"), score(&key, "zz"));
    }
}

#[test]
fn empty_strings_round_trip() {
    let catalog = vec![hint("any", "remove", "q", None)];
    let mut engine = PathfinderEngine::new("", "", catalog, 1).unwrap();
    match engine.run_iterations(1) {
        RunOutcome::Solved(res) => {
            assert!(res.found);
            assert_eq!(res.steps, vec![String::new()]);
        },
        RunOutcome::Progress(_) => panic!("expected a solution"),
    }
}

#[test]
fn best_distance_tracks_closest_attempt() {
    let catalog = vec![hint("a-to-x", "replace", "a", Some("x"))];
    let mut engine = PathfinderEngine::new("ab", "xb", catalog, 1).unwrap();
    let mut solved = false;
    for _ in 0..10 {
        match engine.run_iterations(5) {
            RunOutcome::Solved(res) => {
                assert_eq!(res.path, vec!["a-to-x".to_string()]);
                solved = true;
                break;
            },
            RunOutcome::Progress(p) => {
                assert!(p.states_explored >= 1);
            },
        }
    }
    assert!(solved);
}

#[test]
fn iteration_budget_is_exact_while_frontier_lasts() {
    let catalog = vec![
        hint("ab", "replace", "a", Some("b")),
        hint("bc", "replace", "b", Some("c")),
        hint("cd", "replace", "c", Some("d")),
    ];
    let mut engine = PathfinderEngine::new("abcabc", "zzz", catalog, 4).unwrap();
    match engine.run_iterations(2) {
        RunOutcome::Solved(_) => panic!("no solution exists"),
        RunOutcome::Progress(p) => {
            assert!(p.states_explored == 2 || p.queue_size == 0);
            assert_eq!(p.states_explored, 2);
        },
    }
    match engine.run_iterations(3) {
        RunOutcome::Solved(_) => panic!("no solution exists"),
        RunOutcome::Progress(p) => {
            assert!(p.states_explored == 5 || p.queue_size == 0);
        },
    }
}

#[test]
fn terminal_calls_are_no_ops() {
    let catalog = vec![hint("useless", "remove", "q", None)];
    let mut engine = PathfinderEngine::new("abc", "xyz", catalog, 3).unwrap();
    while !engine.is_complete() {
        engine.run_iterations(10);
    }
    let before = engine.get_result();
    // Step requests after exhaustion change nothing and keep reporting the
    // same terminal information.
    engine.run_iterations(7);
    engine.run_iterations(1);
    let after = engine.get_result();
    assert_eq!(before.total_states_explored, after.total_states_explored);
    assert_eq!(before.best_attempts.len(), after.best_attempts.len());
    assert_eq!(before.best_attempts[0].text, after.best_attempts[0].text);
    assert_eq!(before.best_attempts[0].distance, after.best_attempts[0].distance);
    assert!(engine.is_complete());
}
