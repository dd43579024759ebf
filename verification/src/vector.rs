//! A 512-bit vector register held as 64 bytes, with the few byte-wise and
//! word-wise operations the unpack kernel is composed of.
//!
//! Each operation does, lane by lane, what the AVX-512 instruction of the
//! same name does, so the kernel built on them reads like its vectorised
//! counterpart and runs on any host.

use crate::packing::{byte_bit, stream_bit};
use vstd::prelude::*;

verus! {

/// Whether lane `i` is selected by a lane mask (bit `i` of the mask is set).
pub open spec fn mask_bit(mask: u64, i: int) -> bool {
    0 <= i < 64 && (mask >> (i as u64)) & 1 == 1
}

/// Sixty-four byte lanes, also read as thirty-two little-endian 16-bit lanes
/// or as eight 64-bit groups.
pub struct Vector512 {
    pub bytes: [u8; 64],
}

impl View for Vector512 {
    type V = Seq<u8>;

    open spec fn view(&self) -> Seq<u8> {
        self.bytes@
    }
}

impl Vector512 {
    /// The 16-bit lane `lane`: byte `2 * lane` is its low half.
    pub open spec fn lane16(&self, lane: int) -> int {
        self@[2 * lane] + 256 * self@[2 * lane + 1]
    }

    /// Loads all 64 bytes of `src`.
    pub fn loadu_epi8(src: &[u8; 64]) -> (r: Vector512)
        ensures
            r@ == src@,
    {
        Vector512 { bytes: *src }
    }

    /// Loads up to 64 bytes of `src` starting at `offset`. A lane is read
    /// only where `mask` selects it; every other lane is zero, and the
    /// bytes behind it need not exist.
    pub fn maskz_loadu_epi8(mask: u64, src: &[u8], offset: usize) -> (r: Vector512)
        requires
            forall|i: int| #[trigger] mask_bit(mask, i) ==> offset + i < src@.len(),
        ensures
            forall|i: int|
                0 <= i < 64 ==> #[trigger] r@[i] == (if mask_bit(mask, i) {
                    src@[offset + i]
                } else {
                    0u8
                }),
    {
        let len: usize = src.len();
        let mut bytes = [0u8; 64];
        let mut i: usize = 0;
        while i < 64
            invariant
                i <= 64,
                len == src@.len(),
                forall|k: int| #[trigger] mask_bit(mask, k) ==> offset + k < src@.len(),
                forall|k: int|
                    0 <= k < i ==> #[trigger] bytes@[k] == (if mask_bit(mask, k) {
                        src@[offset + k]
                    } else {
                        0u8
                    }),
            decreases 64 - i,
        {
            if (mask >> (i as u64)) & 1 == 1 {
                assert(mask_bit(mask, i as int));
                bytes[i] = src[offset + i];
            } else {
                bytes[i] = 0;
            }
            i += 1;
        }
        Vector512 { bytes }
    }

    /// Shuffles bytes across the whole register: lane `i` of the result is
    /// the lane of `a` that the low six bits of lane `i` of `idx` name.
    pub fn permutexvar_epi8(idx: &Vector512, a: &Vector512) -> (r: Vector512)
        ensures
            forall|i: int| 0 <= i < 64 ==> #[trigger] r@[i] == a@[idx@[i] as int % 64],
    {
        let mut bytes = [0u8; 64];
        let mut i: usize = 0;
        while i < 64
            invariant
                i <= 64,
                forall|k: int| 0 <= k < i ==> #[trigger] bytes@[k] == a@[idx@[k] as int % 64],
            decreases 64 - i,
        {
            let from: usize = (idx.bytes[i] % 64) as usize;
            bytes[i] = a.bytes[from];
            i += 1;
        }
        Vector512 { bytes }
    }

    /// Picks an unaligned byte out of each 64-bit group: bit `l` of result
    /// lane `i` is bit `(c + l) mod 64` of the group of `data` that lane `i`
    /// lies in, where `c` is the low six bits of lane `i` of `ctrl`.
    pub fn multishift_epi64_epi8(ctrl: &Vector512, data: &Vector512) -> (r: Vector512)
        ensures
            forall|i: int, l: u8|
                0 <= i < 64 && l < 8 ==> #[trigger] byte_bit(r@[i], l) == stream_bit(
                    data@,
                    64 * (i / 8) + (ctrl@[i] % 64 + l) % 64,
                ),
    {
        let mut bytes = [0u8; 64];
        let mut i: usize = 0;
        while i < 64
            invariant
                i <= 64,
                forall|k: int, l: u8|
                    0 <= k < i && l < 8 ==> #[trigger] byte_bit(bytes@[k], l) == stream_bit(
                        data@,
                        64 * (k / 8) + (ctrl@[k] % 64 + l) % 64,
                    ),
            decreases 64 - i,
        {
            let c: u8 = ctrl.bytes[i] % 64;
            let group: usize = i / 8 * 8;
            let first: usize = (c / 8) as usize;
            let shift: u8 = c % 8;
            let lo: u8 = data.bytes[group + first];
            let hi: u8 = data.bytes[group + (first + 1) % 8];
            let pair: u16 = lo as u16 + 256 * (hi as u16);
            let picked: u8 = #[verifier::truncate]
            ((pair >> shift) as u8);
            proof {
                assert forall|l: u8| l < 8 implies #[trigger] byte_bit(picked, l) == stream_bit(
                    data@,
                    64 * (i as int / 8) + (ctrl@[i as int] % 64 + l) % 64,
                ) by {
                    lemma_multishift_lane(data@, i as int, c, picked, l);
                }
            }
            bytes[i] = picked;
            i += 1;
        }
        Vector512 { bytes }
    }

    /// Sets every 16-bit lane to `value`.
    pub fn set1_epi16(value: u16) -> (r: Vector512)
        ensures
            forall|i: int|
                0 <= i < 64 ==> #[trigger] r@[i] == (if i % 2 == 0 {
                    value % 256
                } else {
                    value / 256
                }),
    {
        let lo: u8 = (value % 256) as u8;
        let hi: u8 = (value / 256) as u8;
        let mut bytes = [0u8; 64];
        let mut i: usize = 0;
        while i < 64
            invariant
                i <= 64,
                lo == value % 256,
                hi == value / 256,
                forall|k: int|
                    0 <= k < i ==> #[trigger] bytes@[k] == (if k % 2 == 0 {
                        value % 256
                    } else {
                        value / 256
                    }),
            decreases 64 - i,
        {
            bytes[i] = if i % 2 == 0 { lo } else { hi };
            i += 1;
        }
        Vector512 { bytes }
    }

    /// Bitwise AND of two registers.
    pub fn and_si512(a: &Vector512, b: &Vector512) -> (r: Vector512)
        ensures
            forall|i: int| 0 <= i < 64 ==> #[trigger] r@[i] == a@[i] & b@[i],
    {
        let mut bytes = [0u8; 64];
        let mut i: usize = 0;
        while i < 64
            invariant
                i <= 64,
                forall|k: int| 0 <= k < i ==> #[trigger] bytes@[k] == a@[k] & b@[k],
            decreases 64 - i,
        {
            bytes[i] = a.bytes[i] & b.bytes[i];
            i += 1;
        }
        Vector512 { bytes }
    }

    /// Stores all thirty-two 16-bit lanes into `out`, starting at slot
    /// `offset`. No other slot changes.
    pub fn storeu_epi16(&self, out: &mut [u16], offset: usize)
        requires
            offset + 32 <= old(out)@.len(),
        ensures
            final(out)@.len() == old(out)@.len(),
            forall|j: int|
                0 <= j < old(out)@.len() ==> #[trigger] final(out)@[j] == (if offset <= j < offset
                    + 32 {
                    self.lane16(j - offset)
                } else {
                    old(out)@[j] as int
                }),
    {
        let len: usize = out.len();
        let mut lane: usize = 0;
        while lane < 32
            invariant
                lane <= 32,
                len == out@.len(),
                out@.len() == old(out)@.len(),
                offset + 32 <= out@.len(),
                forall|j: int|
                    0 <= j < out@.len() ==> #[trigger] out@[j] == (if offset <= j < offset + lane {
                        self.lane16(j - offset)
                    } else {
                        old(out)@[j] as int
                    }),
            decreases 32 - lane,
        {
            let lo: u8 = self.bytes[2 * lane];
            let hi: u8 = self.bytes[2 * lane + 1];
            out[offset + lane] = lo as u16 + 256 * (hi as u16);
            lane += 1;
        }
    }

    /// Stores the 16-bit lanes that `mask` selects into `out`, lane `e` to
    /// slot `offset + e`. A slot whose lane is not selected is neither
    /// written nor required to exist.
    pub fn mask_storeu_epi16(&self, out: &mut [u16], offset: usize, mask: u32)
        requires
            forall|e: int|
                0 <= e < 32 && #[trigger] mask_bit(mask as u64, e) ==> offset + e < old(out)@.len(),
        ensures
            final(out)@.len() == old(out)@.len(),
            forall|j: int|
                0 <= j < old(out)@.len() ==> #[trigger] final(out)@[j] == (if offset <= j < offset
                    + 32 && mask_bit(mask as u64, j - offset) {
                    self.lane16(j - offset)
                } else {
                    old(out)@[j] as int
                }),
    {
        let len: usize = out.len();
        let mut lane: usize = 0;
        while lane < 32
            invariant
                lane <= 32,
                len == out@.len(),
                out@.len() == old(out)@.len(),
                forall|e: int|
                    0 <= e < 32 && #[trigger] mask_bit(mask as u64, e) ==> offset + e < out@.len(),
                forall|j: int|
                    0 <= j < out@.len() ==> #[trigger] out@[j] == (if offset <= j < offset + lane
                        && mask_bit(mask as u64, j - offset) {
                        self.lane16(j - offset)
                    } else {
                        old(out)@[j] as int
                    }),
            decreases 32 - lane,
        {
            if ((mask as u64) >> (lane as u64)) & 1 == 1 {
                assert(mask_bit(mask as u64, lane as int));
                let lo: u8 = self.bytes[2 * lane];
                let hi: u8 = self.bytes[2 * lane + 1];
                out[offset + lane] = lo as u16 + 256 * (hi as u16);
            }
            lane += 1;
        }
    }
}

/// One result bit of the multishift, traced back to the bit of the 64-bit
/// group it was taken from.
proof fn lemma_multishift_lane(data: Seq<u8>, i: int, c: u8, picked: u8, l: u8)
    requires
        data.len() == 64,
        0 <= i < 64,
        c < 64,
        l < 8,
        picked == ((data[i / 8 * 8 + c / 8] + 256 * data[i / 8 * 8 + (c / 8 + 1) % 8]) as u16 >> (c
            % 8) as u8) as u8,
    ensures
        byte_bit(picked, l) == stream_bit(data, 64 * (i / 8) + (c + l) % 64),
{
    let first: int = c as int / 8;
    let shift: u8 = c % 8;
    let lo: u8 = data[i / 8 * 8 + first];
    let hi: u8 = data[i / 8 * 8 + (first + 1) % 8];
    let pair: u16 = (lo + 256 * hi) as u16;
    lemma_pick_from_pair(lo, hi, pair, shift, l, picked);
    let pos: int = (c + l) % 64;
    let at: int = 64 * (i / 8) + pos;
    if shift + l < 8 {
        assert(pos == c + l);
        assert(at / 8 == i / 8 * 8 + first);
        assert(at % 8 == shift + l);
    } else if first < 7 {
        assert(pos == c + l);
        assert(at / 8 == i / 8 * 8 + first + 1);
        assert(at % 8 == shift + l - 8);
    } else {
        assert(pos == c + l - 64);
        assert(at / 8 == i / 8 * 8);
        assert(at % 8 == shift + l - 8);
    }
}

/// A byte cut out of a little-endian pair at bit `shift`: its bit `l` is bit
/// `shift + l` of the pair.
proof fn lemma_pick_from_pair(lo: u8, hi: u8, pair: u16, shift: u8, l: u8, picked: u8)
    requires
        pair == lo + 256 * hi,
        shift < 8,
        l < 8,
        picked == (pair >> shift) as u8,
    ensures
        byte_bit(picked, l) == (if shift + l < 8 {
            byte_bit(lo, (shift + l) as u8)
        } else {
            byte_bit(hi, (shift + l - 8) as u8)
        }),
{
    let low: u8 = (shift + l) as u8;
    let high: u8 = if shift + l >= 8 { (shift + l - 8) as u8 } else { 0u8 };
    assert(((picked >> l) & 1 == 1) == (if shift + l < 8 {
        (lo >> low) & 1 == 1
    } else {
        (hi >> high) & 1 == 1
    })) by (bit_vector)
        requires
            pair == lo as u16 + 256 * (hi as u16),
            shift < 8,
            l < 8,
            picked == (pair >> shift) as u8,
            low == shift + l,
            shift + l >= 8 ==> high == shift + l - 8,
    ;
}

} // verus!
