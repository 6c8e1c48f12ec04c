//! Nibble quantization.
//!
//! A sample is divided by the block's step, `2^(shift-1)`, rounded to the
//! nearest integer with halves going away from zero, and held to the range
//! of a signed nibble.

use vstd::prelude::*;
use vstd::arithmetic::div_mod::lemma_fundamental_div_mod;
use vstd::arithmetic::power2::{lemma2_to64, pow2};
use vstd::bits::lemma_u32_shl_is_mul;
use crate::shift::valid_shift;

verus! {

/// What one nibble step is worth under `shift`: `2^(shift-1)`.
pub open spec fn step(shift: int) -> int {
    pow2((shift - 1) as nat) as int
}

/// `x / d` rounded to the nearest integer, halves away from zero, for `d > 0`.
pub open spec fn round_half_away(x: int, d: int) -> int {
    if x >= 0 {
        (2 * x + d) / (2 * d)
    } else {
        -((d - 2 * x) / (2 * d))
    }
}

/// `q` held to the range of a signed nibble.
pub open spec fn clamp_nibble(q: int) -> int {
    if q < -8 {
        -8
    } else if q > 7 {
        7
    } else {
        q
    }
}

/// The nibble that stands for `sample` under `shift`.
pub open spec fn quantized(sample: i16, shift: int) -> int {
    clamp_nibble(round_half_away(sample as int, step(shift)))
}

/// The four bits that hold a nibble: its value in 4-bit two's complement.
pub open spec fn nibble_bits(nibble: int) -> u8 {
    if nibble < 0 {
        (nibble + 16) as u8
    } else {
        nibble as u8
    }
}

/// Rounding gives the nearest integer: the quotient lies within a half of
/// `x / d`, and a value exactly halfway goes to the integer further from zero.
pub proof fn lemma_round_half_away_is_nearest(x: int, d: int)
    requires
        d > 0,
    ensures
        ({
            let q = round_half_away(x, d);
            &&& x >= 0 ==> q >= 0 && (2 * q - 1) * d <= 2 * x < (2 * q + 1) * d
            &&& x < 0 ==> q <= 0 && (2 * q - 1) * d < 2 * x <= (2 * q + 1) * d
        }),
{
    let q = round_half_away(x, d);
    if x >= 0 {
        lemma_fundamental_div_mod(2 * x + d, 2 * d);
        assert(2 * x + d == (2 * d) * q + (2 * x + d) % (2 * d));
        assert((2 * d) * q == 2 * q * d) by (nonlinear_arith);
        assert((2 * q - 1) * d == 2 * q * d - d) by (nonlinear_arith);
        assert((2 * q + 1) * d == 2 * q * d + d) by (nonlinear_arith);
        assert(q >= 0) by (nonlinear_arith)
            requires
                q == (2 * x + d) / (2 * d),
                x >= 0,
                d > 0,
        ;
    } else {
        let p = (d - 2 * x) / (2 * d);
        lemma_fundamental_div_mod(d - 2 * x, 2 * d);
        assert(d - 2 * x == (2 * d) * p + (d - 2 * x) % (2 * d));
        assert((2 * d) * p == 2 * p * d) by (nonlinear_arith);
        assert((2 * q - 1) * d == -(2 * p * d) - d) by (nonlinear_arith)
            requires
                q == -p,
        ;
        assert((2 * q + 1) * d == -(2 * p * d) + d) by (nonlinear_arith)
            requires
                q == -p,
        ;
        assert(p >= 0) by (nonlinear_arith)
            requires
                p == (d - 2 * x) / (2 * d),
                x < 0,
                d > 0,
        ;
    }
}

/// Quantizes one sample under the block's exponent.
pub fn quantize(sample: i16, shift: u32) -> (nibble: i8)
    requires
        valid_shift(shift as int),
    ensures
        nibble == quantized(sample, shift as int),
        -8 <= nibble <= 7,
{
    let exponent: u32 = shift - 1;
    proof {
        lemma2_to64();
        lemma_u32_shl_is_mul(1, exponent);
    }
    let d: u32 = 1u32 << exponent;
    assert(d == step(shift as int));
    if sample >= 0 {
        let r: u32 = (2 * (sample as u32) + d) / (2 * d);
        if r > 7 {
            7
        } else {
            r as i8
        }
    } else {
        let a: u32 = (-(sample as i32)) as u32;
        let r: u32 = (2 * a + d) / (2 * d);
        if r > 8 {
            -8
        } else {
            -(r as i8)
        }
    }
}

} // verus!
