//! The streaming block decoder.

use vstd::prelude::*;
use vstd::arithmetic::power2::{lemma2_to64, pow2};
use vstd::bits::lemma_u32_shl_is_mul;
use vstd::std_specs::iter::IteratorSpec;
use std::collections::VecDeque;

verus! {

/// The value of a nibble read as 4-bit two's complement: 8 to 15 stand for
/// -8 to -1.
pub open spec fn nibble_value(nib: u8) -> int {
    if nib >= 8 {
        nib as int - 16
    } else {
        nib as int
    }
}

/// What one nibble step is worth under the exponent of a header:
/// `2^(scalar-1)`, and nothing where the header holds no exponent.
pub open spec fn scale(scalar: u8) -> int {
    if scalar == 0 {
        0
    } else {
        pow2((scalar - 1) as nat) as int
    }
}

/// `value` brought into 16 bits as two's complement arithmetic does it.
pub open spec fn wrap16(value: int) -> i16 {
    ((value + 32768) % 65536 - 32768) as i16
}

/// The sample that a nibble stands for under the exponent `scalar`.
pub open spec fn reconstructed(nib: u8, scalar: u8) -> i16 {
    wrap16(nibble_value(nib) * scale(scalar))
}

/// Rebuilds a sample from a nibble and the exponent of its block.
pub fn convert_with_sign(nib: u8, scalar: u8) -> (sample: i16)
    requires
        nib <= 15,
        scalar <= 15,
    ensures
        sample == reconstructed(nib, scalar),
        -32768 <= nibble_value(nib) * scale(scalar) <= 32767 ==> sample == nibble_value(nib)
            * scale(scalar),
{
    if scalar == 0 {
        return 0;
    }
    let exponent: u32 = (scalar - 1) as u32;
    proof {
        lemma2_to64();
        lemma_u32_shl_is_mul(1, exponent);
    }
    let factor: i32 = (1u32 << exponent) as i32;
    let signed: i32 = if nib >= 8 {
        nib as i32 - 16
    } else {
        nib as i32
    };
    assert(-131072 <= signed * factor <= 131072) by (nonlinear_arith)
        requires
            -8 <= signed <= 7,
            1 <= factor <= 16384,
    ;
    let wide: i32 = signed * factor;
    let lifted: u32 = (wide + 0x28000) as u32;
    let low: u32 = lifted % 0x10000;
    (low as i32 - 0x8000) as i16
}

/// The length of the first block of `stream`: its header and up to eight
/// data bytes.
pub open spec fn block_len(stream: Seq<u8>) -> int {
    if stream.len() < 9 {
        stream.len() as int
    } else {
        9
    }
}

/// Sample `j` of a block: the high nibble of a data byte comes before its
/// low nibble, and the exponent is the high nibble of the header. The low
/// nibble of the header has no part in it.
pub open spec fn block_sample(block: Seq<u8>, j: int) -> i16 {
    let byte = block[1 + j / 2];
    let nib = if j % 2 == 0 {
        byte / 16
    } else {
        byte % 16
    };
    reconstructed(nib, block[0] / 16)
}

/// The samples of one block: two for each data byte that follows the header.
pub open spec fn decoded_block(block: Seq<u8>) -> Seq<i16> {
    Seq::new((2 * (block.len() - 1)) as nat, |j: int| block_sample(block, j))
}

/// The samples of a whole stream: those of its blocks, in order. The last
/// block may be cut short.
pub open spec fn decoded(stream: Seq<u8>) -> Seq<i16>
    decreases stream.len(),
{
    if stream.len() == 0 {
        Seq::empty()
    } else {
        let n = block_len(stream);
        decoded_block(stream.take(n)) + decoded(stream.skip(n))
    }
}

/// A decoder as a value: the samples that are decoded and wait to be
/// handed out, the bytes that its source has yet to give, and the exponent
/// of the last header read.
pub struct DecoderModel {
    pub ready: Seq<i16>,
    pub unread: Seq<u8>,
    pub scalar: u8,
}

/// One pull: the sample handed out, if any, and the decoder afterwards.
///
/// A waiting sample is handed out as it is. With none waiting the next
/// block is read whole, its first sample handed out and the others kept.
/// With no byte left either the decoder is exhausted and stays as it is.
pub open spec fn pull(m: DecoderModel) -> (Option<i16>, DecoderModel) {
    if m.ready.len() > 0 {
        (
            Some(m.ready[0]),
            DecoderModel { ready: m.ready.drop_first(), unread: m.unread, scalar: m.scalar },
        )
    } else if m.unread.len() == 0 {
        (None, m)
    } else {
        let n = block_len(m.unread);
        let block = decoded_block(m.unread.take(n));
        let scalar = m.unread[0] / 16;
        if block.len() == 0 {
            (None, DecoderModel { ready: block, unread: m.unread.skip(n), scalar })
        } else {
            (
                Some(block[0]),
                DecoderModel { ready: block.drop_first(), unread: m.unread.skip(n), scalar },
            )
        }
    }
}

/// A stream that starts with a whole block decodes to the samples of that
/// block, then those of what follows. A block that is cut short ends its
/// stream.
pub proof fn lemma_decoded_first_block(block: Seq<u8>, rest: Seq<u8>)
    requires
        1 <= block.len() <= 9,
        block.len() == 9 || rest.len() == 0,
    ensures
        decoded(block + rest) == decoded_block(block) + decoded(rest),
{
    let stream = block + rest;
    assert(stream.take(block_len(stream)) =~= block);
    assert(stream.skip(block_len(stream)) =~= rest);
}

/// Pulling hands out the samples of the stream in order: what waits comes
/// first, then what the unread bytes decode to. Each pull gives the first
/// of these and leaves the others, and gives nothing only when none is left.
pub proof fn lemma_pull_follows_stream(m: DecoderModel)
    ensures
        ({
            let before = m.ready + decoded(m.unread);
            let after = pull(m).1.ready + decoded(pull(m).1.unread);
            &&& before.len() > 0 ==> pull(m).0 == Some(before[0]) && after == before.drop_first()
            &&& before.len() == 0 ==> pull(m).0 is None && after == before
        }),
{
    let before = m.ready + decoded(m.unread);
    let after = pull(m).1.ready + decoded(pull(m).1.unread);
    if m.ready.len() > 0 {
        assert(after =~= before.drop_first());
    } else if m.unread.len() == 0 {
        assert(after =~= before);
    } else {
        let n = block_len(m.unread);
        let block = decoded_block(m.unread.take(n));
        assert(before =~= block + decoded(m.unread.skip(n)));
        if block.len() == 0 {
            assert(m.unread.skip(n).len() == 0);
            assert(after =~= before);
        } else {
            assert(after =~= before.drop_first());
        }
    }
}

/// A decoder that has handed out nothing is exhausted: nothing waits, no
/// byte is left, and every later pull hands out nothing and changes nothing.
/// A decoder over no bytes is exhausted at its first pull.
pub proof fn lemma_exhaustion_is_final(m: DecoderModel)
    ensures
        m.ready.len() == 0 && m.unread.len() == 0 ==> pull(m).0 is None,
        pull(m).0 is None ==> {
            let end = pull(m).1;
            &&& end.ready.len() == 0
            &&& end.unread.len() == 0
            &&& pull(end) == (None::<i16>, end)
        },
{
    if m.ready.len() == 0 && m.unread.len() > 0 {
        let n = block_len(m.unread);
        if decoded_block(m.unread.take(n)).len() == 0 {
            assert(m.unread.skip(n).len() == 0);
        }
    }
}

/// A lazy sequence of samples over a source of bytes.
pub struct BrrIterator<T: Iterator<Item = u8>> {
    iter: T,
    buffer: VecDeque<i16>,
    scalar: u8,
}

impl<T: Iterator<Item = u8>> BrrIterator<T> {
    /// The source of bytes, as it stands.
    pub closed spec fn source(&self) -> T {
        self.iter
    }

    /// The samples that are decoded and wait to be handed out, next first.
    pub closed spec fn waiting(&self) -> Seq<i16> {
        self.buffer@.reverse()
    }

    /// The exponent of the last header read, 0 before the first.
    pub closed spec fn last_scalar(&self) -> u8 {
        self.scalar
    }

    /// The decoder as a value, given the bytes that its source will yet give.
    pub open spec fn model(&self, unread: Seq<u8>) -> DecoderModel {
        DecoderModel { ready: self.waiting(), unread, scalar: self.last_scalar() }
    }

    /// A decoder that has read nothing of `iter` yet.
    pub fn new(iter: T) -> (decoder: BrrIterator<T>)
        ensures
            decoder.source() == iter,
            decoder.waiting() == Seq::<i16>::empty(),
            decoder.last_scalar() == 0,
    {
        let decoder = BrrIterator { iter, buffer: VecDeque::new(), scalar: 0 };
        assert(decoder.buffer@.reverse() =~= Seq::<i16>::empty());
        decoder
    }

    /// The exponent of the last header read, 0 before the first.
    pub fn get_scalar(&self) -> (scalar: u8)
        ensures
            scalar == self.last_scalar(),
    {
        self.scalar
    }

    /// Pulls the next sample.
    ///
    /// A sample that waits is handed out without a look at the source. With
    /// none waiting, one block is pulled from the source: its header, then
    /// data bytes until there are eight or the source has no more. Of a
    /// source that keeps to the laws of iterators, the pull is the one that
    /// `pull` describes.
    pub fn next(&mut self) -> (sample: Option<i16>)
        ensures
            old(self).waiting().len() > 0 ==> {
                &&& sample == Some(old(self).waiting()[0])
                &&& final(self).waiting() == old(self).waiting().drop_first()
                &&& final(self).source() == old(self).source()
                &&& final(self).last_scalar() == old(self).last_scalar()
            },
            final(self).source().obeys_prophetic_iter_laws() == old(
                self,
            ).source().obeys_prophetic_iter_laws(),
            old(self).source().obeys_prophetic_iter_laws() ==> (
                sample,
                final(self).model(final(self).source().remaining()),
            ) == pull(old(self).model(old(self).source().remaining())),
    {
        let ghost lawful = self.iter.obeys_prophetic_iter_laws();
        let ghost stream = self.iter.remaining();
        let ghost waiting = self.buffer@.reverse();
        if self.buffer.len() == 0 {
            let header: u8 = match self.iter.next() {
                Some(b) => b,
                None => {
                    return None;
                },
            };
            assert(header >> 4 == header / 16) by (bit_vector);
            self.scalar = header >> 4;
            let mut read: usize = 0;
            assert(lawful ==> stream.take(1) =~= seq![header]);
            assert(lawful ==> self.buffer@.reverse() =~= decoded_block(stream.take(1)));
            assert(lawful ==> self.iter.remaining() =~= stream.skip(1));
            while read < 8
                invariant
                    read <= 8,
                    self.iter.obeys_prophetic_iter_laws() == lawful,
                    self.scalar <= 15,
                    lawful ==> 1 + read <= stream.len(),
                    lawful ==> self.scalar == stream[0] / 16,
                    lawful ==> self.iter.remaining() == stream.skip(1 + read),
                    lawful ==> self.buffer@.reverse() == decoded_block(stream.take(1 + read)),
                ensures
                    self.iter.obeys_prophetic_iter_laws() == lawful,
                    lawful ==> self.scalar == stream[0] / 16,
                    lawful ==> self.iter.remaining() == stream.skip(block_len(stream)),
                    lawful ==> self.buffer@.reverse() == decoded_block(
                        stream.take(block_len(stream)),
                    ),
                decreases 8 - read,
            {
                let byte: u8 = match self.iter.next() {
                    Some(b) => b,
                    None => {
                        assert(lawful ==> stream.len() == 1 + read);
                        break ;
                    },
                };
                assert((byte & 0xF0) >> 4 == byte / 16) by (bit_vector);
                assert(byte & 0x0F == byte % 16) by (bit_vector);
                let top: u8 = (byte & 0xF0) >> 4;
                let bottom: u8 = byte & 0x0F;
                let ghost before = self.buffer@;
                self.buffer.push_front(convert_with_sign(top, self.scalar));
                self.buffer.push_front(convert_with_sign(bottom, self.scalar));
                proof {
                    if lawful {
                        let shorter = stream.take(1 + read);
                        let longer = stream.take(2 + read);
                        assert(stream.skip(1 + read).drop_first() =~= stream.skip(2 + read));
                        assert(byte == stream[1 + read]);
                        assert forall|j: int| 0 <= j < 2 * read implies block_sample(shorter, j)
                            == block_sample(longer, j) by {
                            assert(shorter[1 + j / 2] == longer[1 + j / 2]);
                        }
                        assert(block_sample(longer, 2 * read) == reconstructed(top, self.scalar));
                        assert(block_sample(longer, 2 * read + 1) == reconstructed(
                            bottom,
                            self.scalar,
                        ));
                        let now = self.buffer@;
                        assert(before.reverse().len() == 2 * read);
                        assert(now.len() == 2 * read + 2);
                        assert forall|j: int| 0 <= j < now.len() implies now.reverse()[j]
                            == decoded_block(longer)[j] by {
                            if j < 2 * read {
                                assert(now.reverse()[j] == before.reverse()[j]);
                                assert(before.reverse()[j] == block_sample(shorter, j));
                            }
                        }
                        assert(now.reverse() =~= decoded_block(longer));
                    }
                }
                read += 1;
            }
        }
        let sample = self.buffer.pop_back();
        proof {
            if lawful {
                let m = DecoderModel { ready: waiting, unread: stream, scalar: old(self).scalar };
                let after = pull(m).1;
                assert(self.buffer@.reverse() =~= after.ready);
                assert(sample == pull(m).0);
                assert(self.iter.remaining() =~= after.unread);
            }
        }
        sample
    }
}

} // verus!
