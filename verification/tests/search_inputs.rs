//! Tests of input validation, text normalization and the hill-climbing
//! search.

use cipher_tool::inputs::{validate_inputs, AnalysisError};
use cipher_tool::model::{build_model, score};
use cipher_tool::plaintext::build_plaintext;
use cipher_tool::search::{distinct_windows, init_key, search_phase, search_step, SearchState};
use cipher_tool::text::ascii_uppercase;

#[test]
fn test_validate_rejects_zero_width() {
    let cipher = String::from("ABC").into_bytes();
    let corpus = String::from("ABCDEF").into_bytes();
    assert_eq!(validate_inputs(&cipher, &corpus, 0, 3), Err(AnalysisError::InvalidWidth));
    assert_eq!(validate_inputs(&cipher, &corpus, 1, 0), Err(AnalysisError::InvalidWidth));
}

#[test]
fn test_validate_rejects_short_ciphertext() {
    let cipher = String::from("A").into_bytes();
    let corpus = String::from("ABCDEF").into_bytes();
    assert_eq!(validate_inputs(&cipher, &corpus, 2, 3), Err(AnalysisError::CiphertextTooShort));
}

#[test]
fn test_validate_rejects_short_corpus() {
    let cipher = String::from("ABCD").into_bytes();
    let corpus = String::from("AB").into_bytes();
    assert_eq!(validate_inputs(&cipher, &corpus, 2, 3), Err(AnalysisError::CorpusTooShort));
}

#[test]
fn test_validate_accepts_good_inputs() {
    let cipher = String::from("ABCD").into_bytes();
    let corpus = String::from("ABCDEF").into_bytes();
    assert_eq!(validate_inputs(&cipher, &corpus, 2, 3), Ok(()));
}

#[test]
fn test_ascii_uppercase() {
    let s = String::from("abcZ;9 x").into_bytes();
    assert_eq!(ascii_uppercase(&s), String::from("ABCZ;9 X").into_bytes());
}

#[test]
fn test_distinct_windows_first_occurrence_order() {
    let c = String::from("AABBAACC").into_bytes();
    let wins = distinct_windows(&c, 2);
    let expected: Vec<Vec<u8>> = vec![
        String::from("AA").into_bytes(),
        String::from("BB").into_bytes(),
        String::from("CC").into_bytes(),
    ];
    assert_eq!(wins, expected);
}

#[test]
fn test_init_key_fills_then_leaves_empty() {
    let c = String::from("ABAB").into_bytes();
    let wins = distinct_windows(&c, 1);
    let key = init_key(&wins);
    assert_eq!(key.len(), 26);
    assert_eq!(key[0], String::from("A").into_bytes());
    assert_eq!(key[1], String::from("B").into_bytes());
    for slot in key.iter().skip(2) {
        assert!(slot.is_empty());
    }
}

#[test]
fn test_search_step_counts_a_non_improving_swap() {
    let corpus = String::from("THE CAT SAT ON THE MAT").into_bytes();
    let m = build_model(&corpus, 3);
    let cipher = String::from("XYZXYZ").into_bytes();
    let upper = ascii_uppercase(&cipher);
    let wins = distinct_windows(&upper, 1);
    assert!(wins.len() <= 26);
    let key = init_key(&wins);
    let plaintext = build_plaintext(&upper, &key);
    let fitness = score(&plaintext, 3, &m);
    let mut st = SearchState { key, plaintext, fitness, stall: 0 };
    // swapping a slot with itself cannot improve the fitness strictly,
    // so the plateau counter must grow by exactly one
    search_step(&mut st, &upper, 3, &m, 0, 0);
    assert_eq!(st.stall, 1);
    assert_eq!(st.fitness, fitness);
}

#[test]
fn test_search_phase_halts_at_plateau_and_stays_consistent() {
    let corpus = String::from("THE CAT SAT ON THE MAT").into_bytes();
    let m = build_model(&corpus, 2);
    let cipher = String::from("srqsrq").into_bytes();
    let upper = ascii_uppercase(&cipher);
    assert!(distinct_windows(&upper, 1).len() <= 26);
    let st = search_phase(&cipher, 1, 2, &m);
    // the phase ends just past the plateau limit
    assert_eq!(st.stall, 1001);
    // the reported plaintext and fitness are those of the reported key
    assert_eq!(st.plaintext, build_plaintext(&upper, &st.key));
    assert_eq!(st.fitness, score(&st.plaintext, 2, &m));
}
