//! Decoder for runs of fixed-width bit-packed unsigned integers.
//!
//! A packed buffer holds elements of 1 to 16 bits each, one after the other
//! with no padding, least significant bit first. Decoding expands them into
//! 16-bit slots, 32 elements per step, the way a 512-bit vector unit with
//! byte permute and multishift does it: a masked load of the packed window,
//! a byte gather, an unaligned per-byte shift, and a final mask. The steps
//! are carried out lane by lane on a register held as plain bytes, so the
//! decoder runs on any host, and every decoded slot is proved to hold the
//! element that the packed layout defines.

use crate::packing::decoded_prefix;
use vstd::prelude::*;

pub mod packing;
pub mod table;
pub mod vbmi;
pub mod vector;

pub use crate::vbmi::BitpackDecoderVBMI;

verus! {

/// Why a decode request was turned down.
#[derive(Debug)]
pub enum DecoderError {
    /// The bitwidth is not one the decoder supports.
    InvalidBitwidth(usize),
    /// The packed buffer holds `available` bytes where `required` are needed.
    BufferUnderrun { available: usize, required: usize },
}

/// A decoder of fixed-width bit-packed runs into 16-bit slots.
pub trait Decoder {
    /// Decodes elements of `bitwidth` bits each from `input` into `output`,
    /// first element first, and returns how many were decoded. The slots
    /// are only written, never read. On an error nothing is written.
    ///
    /// For a bitwidth of 1 to 16 the slots must not span more bytes than a
    /// `usize` can count, which holds of every slice in memory.
    fn decode(&mut self, input: &[u8], bitwidth: usize, output: &mut [u16]) -> (result: Result<
        usize,
        DecoderError,
    >)
        requires
            1 <= bitwidth <= 16 ==> 2 * old(output)@.len() <= usize::MAX,
        ensures
            final(output)@.len() == old(output)@.len(),
            result matches Ok(count) ==> count <= old(output)@.len() && decoded_prefix(
                input@,
                bitwidth as nat,
                final(output)@,
                count as int,
            ),
            result is Err ==> final(output)@ == old(output)@,
    ;
}

} // verus!
