//! Packing nibbles two to a byte.
//!
//! The packing itself is done by the `nibble_vec` crate. This module says
//! what comes out of it and keeps the calls in one place.

use vstd::prelude::*;
use nibble_vec::Nibblet;

verus! {

/// A growing run of nibbles, kept by `nibble_vec::Nibblet`.
#[verifier::external_body]
pub struct NibbleBuffer {
    inner: Nibblet,
}

/// The nibbles that a buffer holds, oldest first. Each is a value below 16.
pub uninterp spec fn nibbles(buffer: NibbleBuffer) -> Seq<u8>;

/// Byte `i` of the packed form: nibble `2i` in the high four bits, nibble
/// `2i + 1` in the low four, which are zero where the run ends on nibble `2i`.
pub open spec fn packed_byte(run: Seq<u8>, i: int) -> u8 {
    let high = run[2 * i] as int;
    let low = if 2 * i + 1 < run.len() {
        run[2 * i + 1] as int
    } else {
        0
    };
    (16 * high + low) as u8
}

/// A run of nibbles, each below 16, as bytes.
pub open spec fn packed(run: Seq<u8>) -> Seq<u8> {
    Seq::new(((run.len() + 1) / 2) as nat, |i: int| packed_byte(run, i))
}

/// `Nibblet::new`: a buffer that holds no nibble.
#[verifier::external_body]
pub(crate) fn new_buffer() -> (buffer: NibbleBuffer)
    ensures
        nibbles(buffer) == Seq::<u8>::empty(),
{
    NibbleBuffer { inner: Nibblet::new() }
}

/// `NibbleVec::push`: the low four bits of `value` become the last nibble;
/// the nibbles before it stay as they are. The crate counts the nibbles in
/// a `usize`, so the run must have room for one more.
#[verifier::external_body]
pub(crate) fn push_nibble(buffer: &mut NibbleBuffer, value: u8)
    requires
        nibbles(*old(buffer)).len() < usize::MAX,
    ensures
        nibbles(*final(buffer)) == nibbles(*old(buffer)).push(value % 16),
{
    buffer.inner.push(value)
}

/// `NibbleVec::into_bytes`: the bytes in which the crate keeps the nibbles,
/// two to a byte, the earlier one in the high half; the low half of the
/// last byte is zero when the count is odd.
#[verifier::external_body]
pub(crate) fn into_bytes(buffer: NibbleBuffer) -> (bytes: Vec<u8>)
    ensures
        bytes@ == packed(nibbles(buffer)),
{
    buffer.inner.into_bytes()
}

} // verus!
