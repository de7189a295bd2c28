//! Tests of the language model builder and the fitness scorer.

use cipher_tool::model::{build_model, score};

#[test]
fn test_model_counts_single_letters() {
    // corpus "ABC" at width 1 scans positions 0 and 1: one "A", one "B",
    // two windows in all; millilog10(1/2) is -301
    let corpus = String::from("ABC").into_bytes();
    let m = build_model(&corpus, 1);
    assert_eq!(m.len(), 2);
    assert_eq!(m.lookup(&String::from("A").into_bytes()), Some(-301));
    assert_eq!(m.lookup(&String::from("B").into_bytes()), Some(-301));
    assert_eq!(m.lookup(&String::from("C").into_bytes()), None);
}

#[test]
fn test_model_certain_gram_has_value_zero() {
    // every scanned window is "A": probability 1, millilog10 0
    let corpus = String::from("AAAB").into_bytes();
    let m = build_model(&corpus, 1);
    assert_eq!(m.lookup(&String::from("A").into_bytes()), Some(0));
}

#[test]
fn test_model_skips_windows_with_spaces() {
    let corpus = String::from("AB CD").into_bytes();
    let m = build_model(&corpus, 2);
    assert_eq!(m.lookup(&String::from("AB").into_bytes()), Some(0));
    assert_eq!(m.lookup(&String::from("B ").into_bytes()), None);
    assert_eq!(m.lookup(&String::from(" C").into_bytes()), None);
}

#[test]
fn test_model_short_corpus_is_empty() {
    let corpus = String::from("AB").into_bytes();
    let m = build_model(&corpus, 3);
    assert_eq!(m.len(), 0);
}

#[test]
fn test_model_determinism() {
    let corpus = String::from("THE CAT SAT ON THE MAT").into_bytes();
    let m1 = build_model(&corpus, 3);
    let m2 = build_model(&corpus, 3);
    assert_eq!(m1.width, m2.width);
    assert_eq!(m1.grams, m2.grams);
    assert_eq!(m1.vals, m2.vals);
}

#[test]
fn test_score_all_unknown_windows() {
    // an empty model penalizes every window: 4 windows at -8000 each
    let corpus = String::from("").into_bytes();
    let m = build_model(&corpus, 1);
    let plaintext = String::from("ABCDE").into_bytes();
    assert_eq!(score(&plaintext, 1, &m), -32000);
}

#[test]
fn test_score_short_plaintext_is_zero() {
    let corpus = String::from("ABCDEF").into_bytes();
    let m = build_model(&corpus, 3);
    // a plaintext no longer than the width scores no window at all
    assert_eq!(score(&String::from("AB").into_bytes(), 5, &m), 0);
    assert_eq!(score(&String::from("AB").into_bytes(), 2, &m), 0);
}

#[test]
fn test_scorer_prefers_known_gram() {
    // "A" is the (only) highest-probability n-gram of the model; a
    // plaintext of it outscores one of an n-gram the model lacks
    let corpus = String::from("AAAB").into_bytes();
    let m = build_model(&corpus, 1);
    let known = score(&String::from("AAAA").into_bytes(), 1, &m);
    let unknown = score(&String::from("ZZZZ").into_bytes(), 1, &m);
    assert_eq!(known, 0);
    assert_eq!(unknown, -24000);
    assert!(known > unknown);
}

#[test]
fn test_score_idempotent() {
    let corpus = String::from("THE CAT SAT ON THE MAT").into_bytes();
    let m = build_model(&corpus, 3);
    let plaintext = String::from("THECATSAT").into_bytes();
    let first = score(&plaintext, 3, &m);
    let second = score(&plaintext, 3, &m);
    assert_eq!(first, second);
}

#[test]
fn test_score_mixed_known_and_unknown() {
    // corpus "ABC" at width 1: "A" and "B" at -301 each; scoring "ABZZ"
    // at width 1 sees windows "A", "B", "Z": -301 - 301 - 8000
    let corpus = String::from("ABC").into_bytes();
    let m = build_model(&corpus, 1);
    assert_eq!(score(&String::from("ABZZ").into_bytes(), 1, &m), -8602);
}
