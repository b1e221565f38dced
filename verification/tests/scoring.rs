//! Scorer behaviour: identity, empty-string measures, single substitutions,
//! and exact fixed-point values.

use pathfinder::distance::{levenshtein, score};

#[test]
fn score_identical_is_zero() {
    assert_eq!(score("cat", "cat"), 0);
    assert_eq!(score("a", "a"), 0);
    assert_eq!(score("hello world", "hello world"), 0);
    assert_eq!(score("", ""), 0);
}

#[test]
fn score_against_empty_target_is_length() {
    assert_eq!(score("abc", ""), 3000);
    assert_eq!(score("a", ""), 1000);
}

#[test]
fn score_of_empty_candidate_is_double_target_length() {
    assert_eq!(score("", "abc"), 6000);
    assert_eq!(score("", "a"), 2000);
}

#[test]
fn levenshtein_single_substitution_is_one() {
    let a: Vec<char> = "cat".chars().collect();
    let b: Vec<char> = "cot".chars().collect();
    assert_eq!(levenshtein(&a, &b), 1);
    let a: Vec<char> = "x".chars().collect();
    let b: Vec<char> = "y".chars().collect();
    assert_eq!(levenshtein(&a, &b), 1);
}

#[test]
fn levenshtein_classic_example() {
    let a: Vec<char> = "kitten".chars().collect();
    let b: Vec<char> = "sitting".chars().collect();
    assert_eq!(levenshtein(&a, &b), 3);
}

#[test]
fn levenshtein_counts_unicode_scalars() {
    let a: Vec<char> = "caf\u{e9}".chars().collect();
    let b: Vec<char> = "cafe".chars().collect();
    assert_eq!(levenshtein(&a, &b), 1);
}

#[test]
fn score_exact_value_with_ngram_bonus() {
    // base edit distance 1; target bigrams {ab, bd}, trigrams {abd}:
    // weighted universe 2 + 2*1 = 4; only "ab" matches, so the bonus is
    // 1 * 1 * 400 / 4 = 100 milli-units; no length penalty.
    assert_eq!(score("abc", "abd"), 900);
}

#[test]
fn score_exact_value_with_surplus_penalty() {
    // base 1, no bonus (target shorter than two characters), 0.2 penalty
    // for the one surplus character.
    assert_eq!(score("ab", "a"), 1200);
}

#[test]
fn score_exact_value_with_missing_penalty() {
    // base 1, no bonus, 1.5 penalty for the one missing character.
    assert_eq!(score("a", "ab"), 2500);
}

#[test]
fn score_floors_at_zero() {
    // A candidate whose n-grams heavily repeat the target's can push the
    // bonus past the base distance; the score floors at zero.
    let s = score("ababababab", "ab");
    assert_eq!(s, 0);
}
