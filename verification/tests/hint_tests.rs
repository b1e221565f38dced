//! Hint application: remove, replace, unknown kinds, absent targets, and
//! agreement between the cached and uncached applicators.

use pathfinder::hints::{apply_hint_uncached, Hint, HintOperation};
use pathfinder::engine::PathfinderEngine;

fn hint(name: &str, kind: &str, target: &str, replacement: Option<&str>) -> Hint {
    Hint {
        name: name.to_string(),
        reading: String::new(),
        operation: HintOperation {
            op_type: kind.to_string(),
            target: target.to_string(),
            replacement: replacement.map(|r| r.to_string()),
        },
        description: String::new(),
    }
}

#[test]
fn remove_deletes_every_occurrence() {
    let h = hint("h", "remove", "l", None);
    assert_eq!(apply_hint_uncached("hello", &h), Some("heo".to_string()));
}

#[test]
fn replace_rewrites_every_occurrence() {
    let h = hint("h", "replace", "l", Some("L"));
    assert_eq!(apply_hint_uncached("hello", &h), Some("heLLo".to_string()));
}

#[test]
fn absent_target_never_applies() {
    let h = hint("h", "remove", "xyz", None);
    assert_eq!(apply_hint_uncached("hello", &h), None);
    let h = hint("h", "replace", "q", Some("z"));
    assert_eq!(apply_hint_uncached("hello", &h), None);
}

#[test]
fn unchanged_text_is_not_applicable() {
    // The target occurs nowhere, so replacement leaves the text unchanged.
    let h = hint("h", "replace", "z", Some("z"));
    assert_eq!(apply_hint_uncached("hello", &h), None);
}

#[test]
fn replace_without_replacement_never_applies() {
    let h = hint("h", "replace", "l", None);
    assert_eq!(apply_hint_uncached("hello", &h), None);
}

#[test]
fn unknown_kind_never_applies() {
    let h = hint("h", "rotate", "l", Some("r"));
    assert_eq!(apply_hint_uncached("hello", &h), None);
}

#[test]
fn empty_target_interleaves_like_str_replace() {
    let h = hint("h", "replace", "", Some("x"));
    assert_eq!(apply_hint_uncached("ab", &h), Some("xaxbx".to_string()));
    let h = hint("h", "remove", "", None);
    assert_eq!(apply_hint_uncached("ab", &h), None);
}

#[test]
fn cached_and_uncached_application_agree() {
    let catalog = vec![
        hint("drop-l", "remove", "l", None),
        hint("swap", "replace", "he", Some("ha")),
        hint("noop", "replace", "q", Some("z")),
    ];
    let mut engine = PathfinderEngine::new("hello", "halo", catalog, 3).unwrap();
    for (name, kind, target, replacement) in [
        ("drop-l", "remove", "l", None),
        ("swap", "replace", "he", Some("ha")),
        ("noop", "replace", "q", Some("z")),
    ] {
        let h = hint(name, kind, target, replacement);
        for text in ["hello", "heo", "hallo", ""] {
            let direct = apply_hint_uncached(text, &h);
            let cached = engine.apply_hint(text, &h);
            assert_eq!(cached, direct);
            // A second call is answered from the cache and must agree too.
            let again = engine.apply_hint(text, &h);
            assert_eq!(again, direct);
        }
    }
}
