//! Fixed-point base-10 logarithm of an empirical probability.
//!
//! The language model stores `log10(count / total)` scaled by 1000 and
//! rounded to an integer (a "millilog10" value), so that scores stay in
//! integer arithmetic.  The value is computed exactly as specified here:
//! the ratio `total / count` is normalized to a 32.32 fixed-point number,
//! its base-2 logarithm is extracted bit by bit by repeated squaring, and
//! the result is rescaled from base 2 to base 10.

use vstd::prelude::*;
use vstd::arithmetic::power2::{pow2, lemma2_to64, lemma_pow2_strictly_increases, lemma_pow2_unfold, lemma_pow2_pos};
use vstd::arithmetic::div_mod::{lemma_div_is_ordered, lemma_div_multiples_vanish, lemma_div_nonincreasing};
use vstd::arithmetic::mul::lemma_mul_inequality;

verus! {

/// How many times the fixed-point ratio must be halved to fall under `2^33`.
pub open spec fn spec_norm_shifts(q: int) -> int
    decreases q,
{
    if q < 0x2_0000_0000 {
        0
    } else {
        1 + spec_norm_shifts(q / 2)
    }
}

/// The fixed-point ratio after that normalization.
pub open spec fn spec_norm_q(q: int) -> int
    decreases q,
{
    if q < 0x2_0000_0000 {
        q
    } else {
        spec_norm_q(q / 2)
    }
}

/// The first `k` fractional bits of `log2(q / 2^32)`, as an integer in
/// `[0, 2^k)`, extracted by repeated squaring of the normalized ratio.
pub open spec fn spec_frac_bits(q: int, k: nat) -> int
    decreases k,
{
    if k == 0 {
        0
    } else {
        let q2 = (q * q) / 0x1_0000_0000;
        if q2 >= 0x2_0000_0000 {
            pow2((k - 1) as nat) + spec_frac_bits(q2 / 2, (k - 1) as nat)
        } else {
            spec_frac_bits(q2, (k - 1) as nat)
        }
    }
}

/// `1000 * log10(c / t)` in fixed point, for `1 <= c <= t`: the base-2
/// logarithm of `t / c` in 16-bit fixed point, rescaled to millilog10
/// and negated.
pub open spec fn spec_neg_millilog10(c: int, t: int) -> int {
    let q0 = (t * 0x1_0000_0000) / c;
    let e = spec_norm_shifts(q0);
    let f = spec_frac_bits(spec_norm_q(q0), 16);
    let l = e * 65536 + f;
    -((l * 1000) / 217706)
}

/// No millilog10 value of a probability lies below this floor.
pub const MILLILOG_FLOOR: i64 = -20000;

/// Millilog10 of the probability `c / t`, for `1 <= c <= t`.
///
/// The result is `0` when `c == t` and never falls below `MILLILOG_FLOOR`
/// for any `u64` counts.
pub fn neg_millilog10(c: u64, t: u64) -> (r: i64)
    requires
        1 <= c,
        c <= t,
    ensures
        r == spec_neg_millilog10(c as int, t as int),
        MILLILOG_FLOOR <= r <= 0,
{
    let q0: u128 = ((t as u128) * 0x1_0000_0000) / (c as u128);
    proof {
        lemma_div_is_ordered((c as int) * 0x1_0000_0000, (t as int) * 0x1_0000_0000, c as int);
        lemma_div_multiples_vanish(0x1_0000_0000, c as int);
        assert(((c as int) * 0x1_0000_0000) / (c as int) == 0x1_0000_0000);
        lemma_div_nonincreasing((t as int) * 0x1_0000_0000, c as int);
        assert((t as int) * 0x1_0000_0000 < 0x1_0000_0000_0000_0000_0000_0000) by (nonlinear_arith)
            requires (t as int) < 0x1_0000_0000_0000_0000;
    }
    assert(0x1_0000_0000 <= q0 < 0x1_0000_0000_0000_0000_0000_0000);

    // Normalize the ratio into [2^32, 2^33), counting the halvings: the
    // integer part of log2(t/c).
    let mut q: u128 = q0;
    let mut e: u64 = 0;
    proof {
        lemma2_to64();
        assert(pow2(0) == 1);
    }
    while q >= 0x2_0000_0000
        invariant
            0x1_0000_0000 <= q,
            q0 < 0x1_0000_0000_0000_0000_0000_0000,
            (q as int) * pow2(e as nat) <= q0 as int,
            spec_norm_shifts(q0 as int) == e + spec_norm_shifts(q as int),
            spec_norm_q(q0 as int) == spec_norm_q(q as int),
        decreases q,
    {
        proof {
            lemma_pow2_pos(e as nat);
            lemma_mul_inequality(0x1_0000_0000, q as int, pow2(e as nat) as int);
            assert(0x1_0000_0000 * pow2(e as nat) <= q0 as int);
            if e as nat >= 64 {
                if e as nat > 64 {
                    lemma_pow2_strictly_increases(64, e as nat);
                }
                lemma2_to64();
                assert(pow2(e as nat) >= 0x1_0000_0000_0000_0000);
                assert(0x1_0000_0000 * pow2(e as nat) >= 0x1_0000_0000 * 0x1_0000_0000_0000_0000) by (nonlinear_arith)
                    requires pow2(e as nat) >= 0x1_0000_0000_0000_0000;
                assert(false);
            }
            // the product bound is preserved by halving and doubling
            lemma_pow2_unfold((e + 1) as nat);
            assert((q as int / 2) * (2 * pow2(e as nat)) <= (q as int) * pow2(e as nat)) by (nonlinear_arith)
                requires pow2(e as nat) >= 1, (q as int) >= 0;
        }
        q = q / 2;
        e = e + 1;
    }
    proof {
        lemma_pow2_pos(e as nat);
        lemma_mul_inequality(0x1_0000_0000, q as int, pow2(e as nat) as int);
        if e as nat >= 64 {
            if e as nat > 64 {
                lemma_pow2_strictly_increases(64, e as nat);
            }
            lemma2_to64();
            assert(0x1_0000_0000 * pow2(e as nat) >= 0x1_0000_0000 * 0x1_0000_0000_0000_0000) by (nonlinear_arith)
                requires pow2(e as nat) >= 0x1_0000_0000_0000_0000;
            assert(false);
        }
    }
    assert(e <= 63);
    assert(spec_norm_shifts(q0 as int) == e);
    assert(spec_norm_q(q0 as int) == q);
    let ghost qn: int = q as int;

    // Extract 16 fractional bits of log2 by repeated squaring.
    let mut f: u64 = 0;
    let mut k: u64 = 0;
    proof {
        lemma2_to64();
        assert(f * pow2(16) == 0) by (nonlinear_arith)
            requires f == 0;
    }
    while k < 16
        invariant
            k <= 16,
            0x1_0000_0000 <= q < 0x2_0000_0000,
            f < pow2(k as nat),
            spec_frac_bits(qn, 16) == f * pow2((16 - k) as nat) + spec_frac_bits(
                q as int,
                (16 - k) as nat,
            ),
        decreases 16 - k,
    {
        proof {
            lemma2_to64();
            lemma_pow2_strictly_increases(k as nat, 16);
            assert(f < 65536);
            assert((q as int) * (q as int) < 0x4_0000_0000_0000_0000) by (nonlinear_arith)
                requires (q as int) < 0x2_0000_0000, (q as int) >= 0;
            assert((q as int) * (q as int) >= 0x1_0000_0000_0000_0000) by (nonlinear_arith)
                requires (q as int) >= 0x1_0000_0000;
            lemma_div_is_ordered(0x1_0000_0000_0000_0000, (q as int) * (q as int), 0x1_0000_0000);
            lemma_div_is_ordered((q as int) * (q as int), 0x3_ffff_ffff_ffff_ffff, 0x1_0000_0000);
        }
        let q2: u128 = (q * q) / 0x1_0000_0000;
        assert(0x1_0000_0000 <= q2 < 0x4_0000_0000);
        proof {
            lemma_pow2_unfold(((16 - k) as nat));
            lemma_pow2_pos(((16 - k - 1) as nat));
            lemma_pow2_unfold(((k + 1) as nat));
        }
        let ghost n: nat = (16 - k) as nat;
        let ghost fold: int = f as int;
        if q2 >= 0x2_0000_0000 {
            proof {
                assert(spec_frac_bits(q as int, n) == pow2((n - 1) as nat) + spec_frac_bits(
                    (q2 as int) / 2,
                    (n - 1) as nat,
                ));
                assert((2 * fold + 1) * pow2((n - 1) as nat) == fold * (2 * pow2(
                    (n - 1) as nat,
                )) + pow2((n - 1) as nat)) by (nonlinear_arith);
            }
            f = f * 2 + 1;
            q = q2 / 2;
        } else {
            proof {
                assert(spec_frac_bits(q as int, n) == spec_frac_bits(q2 as int, (n - 1) as nat));
                assert((2 * fold) * pow2((n - 1) as nat) == fold * (2 * pow2((n - 1) as nat)))
                    by (nonlinear_arith);
            }
            f = f * 2;
            q = q2;
        }
        k = k + 1;
    }
    proof {
        lemma2_to64();
        assert(pow2(16) == 65536);
        assert(pow2(0) == 1);
        assert(spec_frac_bits(q as int, 0) == 0);
        assert(f * pow2(0) == f) by (nonlinear_arith)
            requires pow2(0) == 1;
    }
    assert(f == spec_frac_bits(qn, 16));
    assert(f < 65536);

    let l: u64 = e * 65536 + f;
    assert(l <= 63 * 65536 + 65535);
    let v: u64 = (l * 1000) / 217706;
    proof {
        lemma_div_is_ordered((l as int) * 1000, 4194303000, 217706);
        assert(4194303000int / 217706 == 19265);
    }
    assert(v <= 19265);
    let r: i64 = 0 - (v as i64);
    assert(r == spec_neg_millilog10(c as int, t as int));
    r
}

} // verus!
