//! The block encoder.
//!
//! A channel is cut into frames of sixteen samples. Each frame becomes one
//! block: a header byte with the frame's shift exponent in its high four
//! bits, then the frame's nibbles, two to a byte.

use vstd::prelude::*;
use vstd::slice::slice_subrange;
use crate::pack::{into_bytes, new_buffer, nibbles, packed, push_nibble};
use crate::quantize::{nibble_bits, quantize, quantized};
use crate::shift::{lemma_selected_shift_range, select_shift, selected_shift};

verus! {

/// The number of samples in a full frame.
pub const FRAME_LEN: usize = 16;

/// The header of a block with exponent `shift`: the exponent in the high
/// four bits, the low four bits zero.
pub open spec fn header_byte(shift: int) -> u8 {
    (16 * shift) as u8
}

/// The nibbles of a frame under `shift`, in the order of its samples.
pub open spec fn frame_nibbles(frame: Seq<i16>, shift: int) -> Seq<u8> {
    Seq::new(frame.len(), |i: int| nibble_bits(quantized(frame[i], shift)))
}

/// The block that stands for `frame`. An empty frame gives no block.
pub open spec fn encoded_frame(frame: Seq<i16>) -> Seq<u8> {
    if frame.len() == 0 {
        Seq::empty()
    } else {
        let shift = selected_shift(frame);
        seq![header_byte(shift)] + packed(frame_nibbles(frame, shift))
    }
}

/// The length of the first frame of `samples`.
pub open spec fn first_frame_len(samples: Seq<i16>) -> int {
    if samples.len() < 16 {
        samples.len() as int
    } else {
        16
    }
}

/// The byte stream of a channel: the blocks of its frames, in order.
pub open spec fn encoded(samples: Seq<i16>) -> Seq<u8>
    decreases samples.len(),
{
    if samples.len() == 0 {
        Seq::empty()
    } else {
        let n = first_frame_len(samples);
        encoded_frame(samples.take(n)) + encoded(samples.skip(n))
    }
}

/// Frame `k` of a channel: sixteen samples from sample `16k` on, or as many
/// as are left.
pub open spec fn frame_at(samples: Seq<i16>, k: int) -> Seq<i16> {
    samples.subrange(
        16 * k,
        if samples.len() < 16 * k + 16 {
            samples.len() as int
        } else {
            16 * k + 16
        },
    )
}

/// A block is its header and one byte for every two samples, the last byte
/// half filled where the count is odd. The header holds the chosen exponent
/// in its high four bits, and its low four bits are zero.
pub proof fn lemma_encoded_frame_shape(frame: Seq<i16>)
    requires
        frame.len() > 0,
    ensures
        encoded_frame(frame).len() == 1 + (frame.len() + 1) / 2,
        encoded_frame(frame)[0] == header_byte(selected_shift(frame)),
        encoded_frame(frame)[0] % 16 == 0,
        encoded_frame(frame)[0] / 16 == selected_shift(frame),
{
    lemma_selected_shift_range(frame);
}

/// Block `k` of a stream stands at byte `9k` and is the block of frame `k`.
/// Every block before the last is nine bytes long, the last block ends the
/// stream, and the low four bits of every header are zero.
pub proof fn lemma_encoded_block(samples: Seq<i16>, k: int)
    requires
        0 <= k,
        16 * k < samples.len(),
    ensures
        ({
            let block = encoded_frame(frame_at(samples, k));
            &&& 9 * k + block.len() <= encoded(samples).len()
            &&& encoded(samples).subrange(9 * k, 9 * k + block.len()) == block
            &&& encoded(samples)[9 * k] % 16 == 0
            &&& 16 * k + 16 <= samples.len() ==> block.len() == 9
            &&& 16 * k + 16 >= samples.len() ==> 9 * k + block.len() == encoded(samples).len()
        }),
    decreases k,
{
    let n = first_frame_len(samples);
    let first = encoded_frame(samples.take(n));
    let rest = samples.skip(n);
    let block = encoded_frame(frame_at(samples, k));
    lemma_encoded_frame_shape(samples.take(n));
    assert(encoded(samples) == first + encoded(rest));
    if k == 0 {
        assert(frame_at(samples, 0) =~= samples.take(n));
        assert((first + encoded(rest)).subrange(0, first.len() as int) =~= first);
        if n < 16 || samples.len() == 16 {
            assert(rest.len() == 0);
            assert(encoded(rest) =~= Seq::<u8>::empty());
        }
    } else {
        lemma_encoded_block(rest, k - 1);
        assert(frame_at(rest, k - 1) =~= frame_at(samples, k));
        assert(first.len() == 9);
        assert((first + encoded(rest)).subrange(9 * k, 9 * k + block.len()) =~= encoded(
            rest,
        ).subrange(9 * (k - 1), 9 * (k - 1) + block.len()));
        assert((first + encoded(rest))[9 * k] == encoded(rest)[9 * (k - 1)]);
    }
}

/// Encodes one frame of at most sixteen samples as one block.
pub fn encode_frame(frame: &[i16]) -> (block: Vec<u8>)
    requires
        frame@.len() <= 16,
    ensures
        block@ == encoded_frame(frame@),
{
    if frame.len() == 0 {
        return Vec::new();
    }
    let shift: u32 = select_shift(frame);
    let mut buffer = new_buffer();
    let mut i: usize = 0;
    while i < frame.len()
        invariant
            i <= frame.len() <= 16,
            1 <= shift <= 13,
            nibbles(buffer) == frame_nibbles(frame@, shift as int).take(i as int),
        decreases frame.len() - i,
    {
        let nibble: i8 = quantize(frame[i], shift);
        let bits: u8 = if nibble < 0 {
            (nibble + 16) as u8
        } else {
            nibble as u8
        };
        push_nibble(&mut buffer, bits);
        assert(nibbles(buffer) =~= frame_nibbles(frame@, shift as int).take(i + 1));
        i += 1;
    }
    assert(frame_nibbles(frame@, shift as int).take(i as int) =~= frame_nibbles(
        frame@,
        shift as int,
    ));
    let narrow: u8 = shift as u8;
    assert(narrow << 4 == 16 * narrow) by (bit_vector)
        requires
            narrow <= 13,
    ;
    let mut block: Vec<u8> = Vec::new();
    block.push(narrow << 4);
    let mut data: Vec<u8> = into_bytes(buffer);
    block.append(&mut data);
    assert(block@ =~= encoded_frame(frame@));
    block
}

/// Encodes a whole channel, frame by frame.
pub fn encode_channel(samples: &[i16]) -> (stream: Vec<u8>)
    ensures
        stream@ == encoded(samples@),
{
    let mut stream: Vec<u8> = Vec::new();
    let mut start: usize = 0;
    assert(samples@.skip(0) =~= samples@);
    while start < samples.len()
        invariant
            start <= samples.len(),
            stream@ + encoded(samples@.skip(start as int)) == encoded(samples@),
        decreases samples.len() - start,
    {
        let end: usize = if samples.len() - start < FRAME_LEN {
            samples.len()
        } else {
            start + FRAME_LEN
        };
        let frame = slice_subrange(samples, start, end);
        let mut block: Vec<u8> = encode_frame(frame);
        proof {
            let rest = samples@.skip(start as int);
            let n = first_frame_len(rest);
            assert(rest.take(n) =~= frame@);
            assert(rest.skip(n) =~= samples@.skip(end as int));
            assert((stream@ + block@) + encoded(samples@.skip(end as int)) =~= stream@ + encoded(
                rest,
            ));
        }
        stream.append(&mut block);
        start = end;
    }
    assert(stream@ + encoded(samples@.skip(start as int)) =~= stream@);
    stream
}

/// The number of interleaved samples in a full stereo chunk: one frame for
/// each of the two channels.
pub const CHUNK_LEN: usize = 32;

/// The samples that the next stereo chunk takes: the first 32, or all of
/// them where there are fewer.
pub open spec fn stereo_chunk(samples: Seq<i16>) -> Seq<i16> {
    if samples.len() < 32 {
        samples
    } else {
        samples.take(32)
    }
}

/// The left channel of interleaved samples: those at even places.
pub open spec fn left_channel(samples: Seq<i16>) -> Seq<i16> {
    Seq::new(((samples.len() + 1) / 2) as nat, |i: int| samples[2 * i])
}

/// The right channel of interleaved samples: those at odd places.
pub open spec fn right_channel(samples: Seq<i16>) -> Seq<i16> {
    Seq::new((samples.len() / 2) as nat, |i: int| samples[2 * i + 1])
}

/// Encodes the next chunk of interleaved stereo samples: one block for the
/// left channel and one for the right. Samples past the first 32 are left
/// for the next call. A channel that gets no sample gets no block.
pub fn get_next_nibbles(samples: &[i16]) -> (blocks: (Vec<u8>, Vec<u8>))
    ensures
        blocks.0@ == encoded_frame(left_channel(stereo_chunk(samples@))),
        blocks.1@ == encoded_frame(right_channel(stereo_chunk(samples@))),
{
    let taken: usize = if samples.len() < CHUNK_LEN {
        samples.len()
    } else {
        CHUNK_LEN
    };
    let ghost chunk = stereo_chunk(samples@);
    let mut left: Vec<i16> = Vec::new();
    let mut right: Vec<i16> = Vec::new();
    let mut i: usize = 0;
    while i < taken
        invariant
            i <= taken <= 32,
            taken == chunk.len(),
            taken <= samples.len(),
            forall|k: int| 0 <= k < taken ==> chunk[k] == samples@[k],
            left@.len() == (i + 1) / 2,
            right@.len() == i / 2,
            forall|k: int| 0 <= k < left@.len() ==> left@[k] == chunk[2 * k],
            forall|k: int| 0 <= k < right@.len() ==> right@[k] == chunk[2 * k + 1],
        decreases taken - i,
    {
        if i % 2 == 0 {
            left.push(samples[i]);
        } else {
            right.push(samples[i]);
        }
        i += 1;
    }
    assert(left@ =~= left_channel(chunk));
    assert(right@ =~= right_channel(chunk));
    (encode_frame(left.as_slice()), encode_frame(right.as_slice()))
}

} // verus!
