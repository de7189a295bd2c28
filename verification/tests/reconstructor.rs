//! Tests of the key/plaintext reconstructor.

use cipher_tool::plaintext::build_plaintext;

fn key_of(slots: Vec<String>) -> Vec<Vec<u8>> {
    let mut key: Vec<Vec<u8>> = Vec::new();
    for s in slots {
        key.push(s.into_bytes());
    }
    key
}

#[test]
fn test_build_plaintext_mono() {
    let ciphertext = String::from("ZYXWVUTSRQPONMLKJIHGFEDCBA").into_bytes();
    let key = key_of(vec![
        String::from("Z"), String::from("Y"), String::from("X"),
        String::from("W"), String::from("V"), String::from("U"),
        String::from("T"), String::from("S"), String::from("R"),
        String::from("Q"), String::from("P"), String::from("O"),
        String::from("N"), String::from("M"), String::from("L"),
        String::from("K"), String::from("J"), String::from("I"),
        String::from("H"), String::from("G"), String::from("F"),
        String::from("E"), String::from("D"), String::from("C"),
        String::from("B"), String::from("A"),
    ]);
    assert_eq!(
        build_plaintext(&ciphertext, &key),
        String::from("ABCDEFGHIJKLMNOPQRSTUVWXYZ").into_bytes()
    );
}

#[test]
fn test_build_plaintext_digram() {
    let ciphertext =
        String::from("AABBCCDDEEFFGGHHIIJJKKLLMMNNOOPPQQRRSSTTUUVVWWXXYYZZ").into_bytes();
    let key = key_of(vec![
        String::from("AA"), String::from("BB"), String::from("CC"),
        String::from("DD"), String::from("EE"), String::from("FF"),
        String::from("GG"), String::from("HH"), String::from("II"),
        String::from("JJ"), String::from("KK"), String::from("LL"),
        String::from("MM"), String::from("NN"), String::from("OO"),
        String::from("PP"), String::from("QQ"), String::from("RR"),
        String::from("SS"), String::from("TT"), String::from("UU"),
        String::from("VV"), String::from("WW"), String::from("XX"),
        String::from("YY"), String::from("ZZ"),
    ]);
    assert_eq!(
        build_plaintext(&ciphertext, &key),
        String::from("ABCDEFGHIJKLMNOPQRSTUVWXYZ").into_bytes()
    );
}

fn sparse_key(first: &str) -> Vec<Vec<u8>> {
    let mut slots: Vec<String> = Vec::new();
    slots.push(String::from(first));
    while slots.len() < 26 {
        slots.push(String::new());
    }
    key_of(slots)
}

#[test]
fn test_unmatched_window_becomes_placeholder_block() {
    // slot 0 holds "QQ", so the substitution width is 2; the window "XX"
    // matches no slot and must become exactly two placeholders.
    let key = sparse_key("QQ");
    let ciphertext = String::from("QQXXQQ").into_bytes();
    assert_eq!(build_plaintext(&ciphertext, &key), String::from("A__A").into_bytes());
}

#[test]
fn test_ragged_suffix_is_dropped() {
    let key = sparse_key("QQ");
    let ciphertext = String::from("QQX").into_bytes();
    assert_eq!(build_plaintext(&ciphertext, &key), String::from("A").into_bytes());
}

#[test]
fn test_empty_key_defaults_to_width_one() {
    // with every slot empty the width defaults to 1 and nothing matches
    let key = key_of(vec![String::new(); 26]);
    let ciphertext = String::from("ABC").into_bytes();
    assert_eq!(build_plaintext(&ciphertext, &key), String::from("___").into_bytes());
}

#[test]
fn test_later_slot_shadows_earlier_duplicate() {
    // two slots hold "Q"; the later one wins, as repeated insertion into
    // an inverse map would make it
    let mut slots: Vec<String> = vec![String::new(); 26];
    slots[2] = String::from("Q");
    slots[7] = String::from("Q");
    let key = key_of(slots);
    let ciphertext = String::from("Q").into_bytes();
    assert_eq!(build_plaintext(&ciphertext, &key), String::from("H").into_bytes());
}
