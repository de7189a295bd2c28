//! Validation of the inputs fixed before the search loop begins.
//!
//! Degenerate inputs are rejected once, at startup: a zero width, a
//! ciphertext shorter than one substitution window, or a corpus shorter
//! than the model width.

use vstd::prelude::*;

verus! {

/// Why the fixed inputs of a run are unusable.
#[derive(Clone, Copy, Debug, PartialEq, Eq, Structural)]
pub enum AnalysisError {
    /// A width parameter is zero.
    InvalidWidth,
    /// The ciphertext is shorter than one substitution window.
    CiphertextTooShort,
    /// The corpus has fewer characters than the model width.
    CorpusTooShort,
}

/// The verdict on a run's fixed inputs, checking the widths first, then
/// the ciphertext, then the corpus.
pub open spec fn spec_validate(clen: int, plen: int, ssc: int, freq: int) -> Result<
    (),
    AnalysisError,
> {
    if ssc < 1 || freq < 1 {
        Err(AnalysisError::InvalidWidth)
    } else if clen < ssc {
        Err(AnalysisError::CiphertextTooShort)
    } else if plen < freq {
        Err(AnalysisError::CorpusTooShort)
    } else {
        Ok(())
    }
}

/// Checks the fixed inputs of a run once, before the search loop:
/// `Ok` exactly when both widths are positive, the ciphertext holds at
/// least one substitution window, and the corpus reaches the model
/// width; otherwise the first applicable error, in that order.
pub fn validate_inputs(
    cipher: &Vec<u8>,
    corpus: &Vec<u8>,
    ngram_ssc: usize,
    ngram_freq: usize,
) -> (r: Result<(), AnalysisError>)
    ensures
        r == spec_validate(
            cipher@.len() as int,
            corpus@.len() as int,
            ngram_ssc as int,
            ngram_freq as int,
        ),
{
    if ngram_ssc < 1 || ngram_freq < 1 {
        Err(AnalysisError::InvalidWidth)
    } else if cipher.len() < ngram_ssc {
        Err(AnalysisError::CiphertextTooShort)
    } else if corpus.len() < ngram_freq {
        Err(AnalysisError::CorpusTooShort)
    } else {
        Ok(())
    }
}

} // verus!
