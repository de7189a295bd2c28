//! Statistical cryptanalysis of n-gram simple substitution ciphers.
//!
//! The crate builds an n-gram language model from a reference corpus,
//! reconstructs candidate plaintexts from a ciphertext and a hypothesis
//! key, scores their fluency in fixed-point log10 units, and hill-climbs
//! through key space by random slot swaps until a plateau is reached.

pub mod text;
pub mod logprob;
pub mod model;
pub mod plaintext;
pub mod search;
pub mod inputs;
