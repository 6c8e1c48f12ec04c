//! A codec for block-quantized 4-bit audio.
//!
//! Sixteen-bit samples are packed into blocks of nine bytes: a header with a
//! shift exponent, then sixteen nibbles. The encoder works frame by frame;
//! the decoder pulls bytes from a source and hands out samples one by one.

pub mod brr;
pub mod encode;
pub mod pack;
pub mod quantize;
pub mod roundtrip;
pub mod shift;
