//! What decoding gives back of what was encoded.

use vstd::prelude::*;
use vstd::arithmetic::power2::lemma2_to64;
use crate::brr::{
    block_sample, decoded, decoded_block, lemma_decoded_first_block, nibble_value, reconstructed,
    scale,
};
use crate::encode::{
    encoded, encoded_frame, first_frame_len, frame_at, frame_nibbles, lemma_encoded_frame_shape,
};
use crate::pack::{packed, packed_byte};
use crate::quantize::{
    clamp_nibble, lemma_round_half_away_is_nearest, nibble_bits, quantized, round_half_away, step,
};
use crate::shift::{lemma_selected_shift_range, selected_shift};

verus! {

/// The value that comes back for `sample` from a block with exponent
/// `shift`: its nibble times the step.
pub open spec fn restored(sample: i16, shift: int) -> int {
    quantized(sample, shift) * step(shift)
}

/// The exponent of the block that sample `i` of a channel goes into.
pub open spec fn shift_at(samples: Seq<i16>, i: int) -> int {
    selected_shift(frame_at(samples, i / 16))
}

/// A nibble under an exponent that the encoder can choose is rebuilt
/// without loss of bits: the result is the nibble times the step.
pub proof fn lemma_rebuilt_nibble(nibble: int, shift: int)
    requires
        -8 <= nibble <= 7,
        1 <= shift <= 13,
    ensures
        nibble_bits(nibble) <= 15,
        nibble_value(nibble_bits(nibble)) == nibble,
        reconstructed(nibble_bits(nibble), shift as u8) == nibble * step(shift),
{
    lemma2_to64();
    let d = step(shift);
    assert(scale(shift as u8) == d);
    assert(1 <= d <= 4096);
    assert(-32768 <= nibble * d <= 28672) by (nonlinear_arith)
        requires
            -8 <= nibble <= 7,
            1 <= d <= 4096,
    ;
}

/// Decoding the block of a frame gives, sample for sample and in the
/// frame's order, the nibble of each sample times the step. Where the frame
/// holds an odd number of samples, one sample of value zero follows them.
pub proof fn lemma_frame_round_trip(frame: Seq<i16>)
    requires
        0 < frame.len() <= 16,
    ensures
        decoded_block(encoded_frame(frame)).len() == frame.len() + frame.len() % 2,
        forall|i: int|
            0 <= i < frame.len() ==> #[trigger] decoded_block(encoded_frame(frame))[i] == restored(
                frame[i],
                selected_shift(frame),
            ),
        frame.len() % 2 == 1 ==> decoded_block(encoded_frame(frame))[frame.len() as int] == 0,
{
    let shift = selected_shift(frame);
    let block = encoded_frame(frame);
    let run = frame_nibbles(frame, shift);
    lemma_selected_shift_range(frame);
    lemma_encoded_frame_shape(frame);
    assert(block[0] / 16 == shift);
    assert forall|j: int| 0 <= j < 2 * (block.len() - 1) implies #[trigger] block_sample(block, j)
        == (if j < frame.len() {
        restored(frame[j], shift)
    } else {
        0
    }) by {
        let byte = block[1 + j / 2];
        assert(byte == packed(run)[j / 2]);
        assert(byte == packed_byte(run, j / 2));
        let high = run[2 * (j / 2)];
        lemma_rebuilt_nibble(quantized(frame[2 * (j / 2)], shift), shift);
        assert(high <= 15);
        if 2 * (j / 2) + 1 < run.len() {
            let low = run[2 * (j / 2) + 1];
            lemma_rebuilt_nibble(quantized(frame[2 * (j / 2) + 1], shift), shift);
            assert(low <= 15);
            assert(byte == 16 * high + low);
            assert(byte / 16 == high && byte % 16 == low);
        } else {
            assert(byte == 16 * high);
            assert(byte / 16 == high && byte % 16 == 0);
            lemma_rebuilt_nibble(0, shift);
            assert(0 * step(shift) == 0);
        }
    }
}

/// What comes out of the decoder is what went into the encoder, in the
/// same order: sample `i` of the decoded stream is the nibble of sample `i`
/// of the channel times the step of its block. A channel with an odd number
/// of samples gets one more sample, of value zero, at its end.
pub proof fn lemma_round_trip_keeps_order(samples: Seq<i16>, i: int)
    requires
        0 <= i < samples.len(),
    ensures
        decoded(encoded(samples)).len() == samples.len() + samples.len() % 2,
        decoded(encoded(samples))[i] == restored(samples[i], shift_at(samples, i)),
    decreases samples.len(),
{
    let n = first_frame_len(samples);
    let first = samples.take(n);
    let rest = samples.skip(n);
    let block = encoded_frame(first);
    lemma_frame_round_trip(first);
    lemma_encoded_frame_shape(first);
    lemma_decoded_first_block(block, encoded(rest));
    assert(encoded(samples) == block + encoded(rest));
    assert(decoded(encoded(samples)) == decoded_block(block) + decoded(encoded(rest)));
    assert(frame_at(samples, 0) =~= first);
    if rest.len() > 0 {
        lemma_round_trip_keeps_order(rest, if i < 16 { 0 } else { i - 16 });
    }
    if i < 16 {
        assert(first[i] == samples[i]);
        assert(decoded_block(block)[i] == restored(first[i], selected_shift(first)));
    } else {
        assert(frame_at(rest, (i - 16) / 16) =~= frame_at(samples, i / 16));
        assert(rest[i - 16] == samples[i]);
    }
}

/// The error of a round trip. The value that comes back for a sample lies
/// within half a step of it exactly when the sample lies between -8.5 and
/// 7.5 steps, the range whose nearest nibbles exist. A sample outside that
/// range is held to the nearest nibble there is and comes back further off.
pub proof fn lemma_round_trip_error(samples: Seq<i16>, i: int)
    requires
        0 <= i < samples.len(),
    ensures
        ({
            let width = step(shift_at(samples, i));
            let back = decoded(encoded(samples))[i] as int;
            let error = if back < samples[i] {
                samples[i] - back
            } else {
                back - samples[i]
            };
            2 * error <= width <==> -17 * width <= 2 * samples[i] <= 15 * width
        }),
{
    lemma_round_trip_keeps_order(samples, i);
    let shift = shift_at(samples, i);
    lemma_selected_shift_range(frame_at(samples, i / 16));
    lemma2_to64();
    lemma_quantization_error(samples[i], shift);
}

/// The same, of one sample and one exponent.
pub proof fn lemma_quantization_error(sample: i16, shift: int)
    requires
        1 <= shift <= 14,
    ensures
        ({
            let width = step(shift);
            let back = restored(sample, shift);
            let error = if back < sample {
                sample - back
            } else {
                back - sample
            };
            2 * error <= width <==> -17 * width <= 2 * sample <= 15 * width
        }),
{
    lemma2_to64();
    let d = step(shift);
    let x = sample as int;
    let r = round_half_away(x, d);
    let q = clamp_nibble(r);
    assert(d >= 1);
    lemma_round_half_away_is_nearest(x, d);
    assert((2 * r - 1) * d == 2 * (r * d) - d) by (nonlinear_arith);
    assert((2 * r + 1) * d == 2 * (r * d) + d) by (nonlinear_arith);
    if r > 7 {
        assert(r * d >= 8 * d) by (nonlinear_arith)
            requires
                r >= 8,
                d >= 1,
        ;
    } else if r < -8 {
        assert(r * d <= -9 * d) by (nonlinear_arith)
            requires
                r <= -9,
                d >= 1,
        ;
    } else {
        assert(-8 * d <= r * d <= 7 * d) by (nonlinear_arith)
            requires
                -8 <= r <= 7,
                d >= 1,
        ;
    }
    assert(q * d == if r > 7 {
        7 * d
    } else if r < -8 {
        -8 * d
    } else {
        r * d
    }) by (nonlinear_arith)
        requires
            q == clamp_nibble(r),
    ;
}

} // verus!
