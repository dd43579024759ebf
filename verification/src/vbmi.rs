//! The unpack kernel: one step expands a window of packed bytes into 32
//! sixteen-bit elements by a masked load, a byte gather, a multishift and a
//! final mask.

use crate::packing::{
    byte_bit, decoded_prefix, lemma_bits_value_agree, lemma_bits_value_high_clear,
    lemma_bits_value_pair, lemma_packed_value_in_window, packed_value, required_bytes, stream_bit,
};
use crate::table::{gather_index, lemma_table_entries_below_64, shift_control, table_for};
use crate::{Decoder, DecoderError};
use crate::vector::{mask_bit, Vector512};
use vstd::prelude::*;

verus! {

/// How many bytes one step loads: a full window of `4 * bitwidth` bytes, or,
/// in a masked step, no more than the `input_len` bytes that are left.
pub open spec fn loaded_bytes(masked: bool, bitwidth: int, input_len: int) -> int {
    if masked && input_len < 4 * bitwidth {
        input_len
    } else {
        4 * bitwidth
    }
}

/// Bit-unpacking decoder for elements of 1 to 16 bits.
#[derive(Default, Debug)]
pub struct BitpackDecoderVBMI;

impl BitpackDecoderVBMI {
    /// Checks a request for `num_elements` elements of `bitwidth` bits from
    /// `input_len` packed bytes; nothing else can make a decode fail.
    pub fn validate(input_len: usize, bitwidth: usize, num_elements: usize) -> (result: Result<
        (),
        DecoderError,
    >)
        requires
            1 <= bitwidth <= 16 ==> 2 * num_elements <= usize::MAX,
        ensures
            !(1 <= bitwidth <= 16) ==> (result matches Err(DecoderError::InvalidBitwidth(w)) && w
                == bitwidth),
            1 <= bitwidth <= 16 && input_len < required_bytes(
                num_elements as nat,
                bitwidth as nat,
            ) ==> (result matches Err(DecoderError::BufferUnderrun { available, required })
                && available == input_len && required == required_bytes(
                num_elements as nat,
                bitwidth as nat,
            )),
            1 <= bitwidth <= 16 && input_len >= required_bytes(
                num_elements as nat,
                bitwidth as nat,
            ) ==> result is Ok,
    {
        if bitwidth == 0 || bitwidth > 16 {
            return Err(DecoderError::InvalidBitwidth(bitwidth));
        }
        assert(0 <= num_elements * bitwidth <= 16 * num_elements) by (nonlinear_arith)
            requires
                0 <= num_elements,
                1 <= bitwidth <= 16,
        ;
        let needed_bits: u128 = (num_elements as u128) * (bitwidth as u128);
        if (input_len as u128) * 8 < needed_bits {
            return Err(
                DecoderError::BufferUnderrun {
                    required: ((needed_bits + 7) / 8) as usize,
                    available: input_len,
                },
            );
        }
        Ok(())
    }

    /// One unpack step on the window of `input` that starts at byte
    /// `offset`. Lane `e` of the result is element `e` of the window; where
    /// the window ends early, the missing bits read as clear.
    pub fn unpack16_step<const MASKED: bool>(
        &self,
        x: &Vector512,
        y: &Vector512,
        bitwidth: usize,
        input: &[u8],
        offset: usize,
        input_len: usize,
    ) -> (unpacked: Vector512)
        requires
            1 <= bitwidth <= 16,
            forall|lane: int| 0 <= lane < 64 ==> #[trigger] x@[lane] == gather_index(bitwidth as int, lane),
            forall|lane: int| 0 <= lane < 64 ==> #[trigger] y@[lane] == shift_control(bitwidth as int, lane),
            offset + loaded_bytes(MASKED, bitwidth as int, input_len as int) <= input@.len(),
        ensures
            forall|e: int|
                0 <= e < 32 ==> #[trigger] unpacked.lane16(e) == packed_value(
                    input@.subrange(
                        offset as int,
                        offset + loaded_bytes(MASKED, bitwidth as int, input_len as int),
                    ),
                    bitwidth as nat,
                    e as nat,
                ),
    {
        let full_shift: u64 = (64 - 4 * bitwidth) as u64;
        let load_mask: u64 = u64::MAX >> full_shift;
        let word_mask: u16 = u16::MAX >> ((16 - bitwidth) as u16);
        let mask = Vector512::set1_epi16(word_mask);

        let cut: usize = (4 * bitwidth).saturating_sub(input_len);
        let load_mask: u64 = if MASKED {
            if cut < 64 {
                load_mask >> (cut as u64)
            } else {
                0
            }
        } else {
            load_mask
        };
        let ghost loaded = loaded_bytes(MASKED, bitwidth as int, input_len as int);
        proof {
            assert forall|i: int| #[trigger] mask_bit(load_mask, i) == (0 <= i < loaded) by {
                if 0 <= i < 64 {
                    lemma_load_mask(full_shift, MASKED, cut as u64, i as u64, load_mask);
                }
            }
        }
        let data = Vector512::maskz_loadu_epi8(load_mask, input, offset);
        let gathered = Vector512::permutexvar_epi8(x, &data);
        let shifted = Vector512::multishift_epi64_epi8(y, &gathered);
        let unpacked = Vector512::and_si512(&shifted, &mask);
        proof {
            assert forall|e: int| 0 <= e < 32 implies #[trigger] unpacked.lane16(e) == packed_value(
                input@.subrange(offset as int, offset + loaded),
                bitwidth as nat,
                e as nat,
            ) by {
                lemma_step_lane(
                    bitwidth as nat,
                    input@,
                    offset as int,
                    loaded,
                    load_mask,
                    x@,
                    y@,
                    data@,
                    gathered@,
                    shifted@,
                    mask@,
                    unpacked@,
                    word_mask,
                    e,
                );
            }
        }
        unpacked
    }
}

impl Decoder for BitpackDecoderVBMI {
    /// Decodes `output.len()` elements. The request is turned down, and
    /// nothing written, when `bitwidth` is not in `1..=16` or when `input`
    /// is too short to hold that many elements; otherwise every slot
    /// receives its element.
    fn decode(&mut self, input: &[u8], bitwidth: usize, output: &mut [u16]) -> (result: Result<
        usize,
        DecoderError,
    >)
        ensures
            !(1 <= bitwidth <= 16) ==> (result matches Err(DecoderError::InvalidBitwidth(w)) && w
                == bitwidth),
            1 <= bitwidth <= 16 && input@.len() < required_bytes(
                old(output)@.len(),
                bitwidth as nat,
            ) ==> (result matches Err(DecoderError::BufferUnderrun { available, required })
                && available == input@.len() && required == required_bytes(
                old(output)@.len(),
                bitwidth as nat,
            )),
            1 <= bitwidth <= 16 && input@.len() >= required_bytes(
                old(output)@.len(),
                bitwidth as nat,
            ) ==> (result matches Ok(count) && count == old(output)@.len()),
            result is Ok ==> decoded_prefix(
                input@,
                bitwidth as nat,
                final(output)@,
                old(output)@.len() as int,
            ),
            result is Err ==> final(output)@ == old(output)@,
    {
        let num_elements: usize = output.len();
        let input_len: usize = input.len();
        match Self::validate(input_len, bitwidth, num_elements) {
            Err(refusal) => {
                return Err(refusal);
            },
            Ok(_) => {},
        }
        let out_elems_per_step: usize = 32;
        let in_bytes_per_step: usize = bitwidth * 4;

        let mut bytes: usize = 0;
        let mut elems: usize = 0;

        let table = table_for(bitwidth);
        let x = Vector512::loadu_epi8(&table.gather);
        let y = Vector512::loadu_epi8(&table.shift_ctl);

        assert(8 * bytes == elems * bitwidth) by (nonlinear_arith)
            requires
                bytes == 0,
                elems == 0,
        ;
        while num_elements - elems >= 4 * out_elems_per_step
            invariant
                1 <= bitwidth <= 16,
                out_elems_per_step == 32,
                in_bytes_per_step == 4 * bitwidth,
                num_elements == output@.len(),
                input_len == input@.len(),
                8 * input_len >= num_elements * bitwidth,
                elems <= num_elements,
                8 * bytes == elems * bitwidth,
                table.is_for(bitwidth as int),
                x@ == table.gather@,
                y@ == table.shift_ctl@,
                decoded_prefix(input@, bitwidth as nat, output@, elems as int),
            decreases num_elements - elems,
        {
            let mut i: usize = 0;
            while i < 4
                invariant
                    i <= 4,
                    1 <= bitwidth <= 16,
                    out_elems_per_step == 32,
                    in_bytes_per_step == 4 * bitwidth,
                    num_elements == output@.len(),
                    input_len == input@.len(),
                    8 * input_len >= num_elements * bitwidth,
                    elems + 128 <= num_elements,
                    8 * bytes == elems * bitwidth,
                    table.is_for(bitwidth as int),
                    x@ == table.gather@,
                    y@ == table.shift_ctl@,
                    decoded_prefix(input@, bitwidth as nat, output@, elems + 32 * i),
                decreases 4 - i,
            {
                proof {
                    lemma_cursor(
                        elems as int,
                        bytes as int,
                        i as int,
                        in_bytes_per_step as int,
                        32,
                        bitwidth as int,
                        num_elements as int,
                    );
                }
                let unpacked = self.unpack16_step::<false>(
                    &x,
                    &y,
                    bitwidth,
                    input,
                    bytes + i * in_bytes_per_step,
                    in_bytes_per_step,
                );
                let ghost before = output@;
                unpacked.storeu_epi16(output, elems + i * out_elems_per_step);
                proof {
                    lemma_stored_window(
                        input@,
                        bitwidth as nat,
                        before,
                        output@,
                        unpacked,
                        bytes + i * in_bytes_per_step,
                        4 * bitwidth,
                        elems + 32 * i,
                        32,
                    );
                }
                i += 1;
            }

            proof {
                lemma_cursor(
                    elems as int,
                    bytes as int,
                    4,
                    in_bytes_per_step as int,
                    0,
                    bitwidth as int,
                    num_elements as int,
                );
            }
            bytes += 4 * in_bytes_per_step;
            elems += 4 * out_elems_per_step;
        }
        while num_elements - elems >= out_elems_per_step
            invariant
                1 <= bitwidth <= 16,
                out_elems_per_step == 32,
                in_bytes_per_step == 4 * bitwidth,
                num_elements == output@.len(),
                input_len == input@.len(),
                8 * input_len >= num_elements * bitwidth,
                elems <= num_elements,
                8 * bytes == elems * bitwidth,
                table.is_for(bitwidth as int),
                x@ == table.gather@,
                y@ == table.shift_ctl@,
                decoded_prefix(input@, bitwidth as nat, output@, elems as int),
            decreases num_elements - elems,
        {
            proof {
                lemma_cursor(
                    elems as int,
                    bytes as int,
                    0,
                    in_bytes_per_step as int,
                    32,
                    bitwidth as int,
                    num_elements as int,
                );
            }
            let unpacked = self.unpack16_step::<false>(
                &x,
                &y,
                bitwidth,
                input,
                bytes,
                in_bytes_per_step,
            );
            let ghost before = output@;
            unpacked.storeu_epi16(output, elems);
            proof {
                lemma_stored_window(
                    input@,
                    bitwidth as nat,
                    before,
                    output@,
                    unpacked,
                    bytes as int,
                    4 * bitwidth,
                    elems as int,
                    32,
                );
                lemma_cursor(
                    elems as int,
                    bytes as int,
                    1,
                    in_bytes_per_step as int,
                    0,
                    bitwidth as int,
                    num_elements as int,
                );
            }
            bytes += in_bytes_per_step;
            elems += out_elems_per_step;
        }
        if elems < num_elements {
            proof {
                lemma_cursor(
                    elems as int,
                    bytes as int,
                    0,
                    in_bytes_per_step as int,
                    num_elements - elems,
                    bitwidth as int,
                    num_elements as int,
                );
            }
            let rem_bytes: usize = input_len - bytes;
            let rem_elems: usize = num_elements - elems;
            let unpacked = self.unpack16_step::<true>(&x, &y, bitwidth, input, bytes, rem_bytes);
            let store_shift: u32 = out_elems_per_step.saturating_sub(rem_elems) as u32;
            let store_mask: u32 = u32::MAX >> store_shift;
            proof {
                assert forall|e: int| 0 <= e < 32 implies #[trigger] mask_bit(store_mask as u64, e)
                    == (e < rem_elems) by {
                    lemma_store_mask(store_shift, e as u64, store_mask);
                }
            }
            let ghost before = output@;
            unpacked.mask_storeu_epi16(output, elems, store_mask);
            proof {
                lemma_stored_window(
                    input@,
                    bitwidth as nat,
                    before,
                    output@,
                    unpacked,
                    bytes as int,
                    loaded_bytes(true, bitwidth as int, rem_bytes as int),
                    elems as int,
                    rem_elems as int,
                );
            }
            elems += rem_elems;
        }
        Ok(elems)
    }
}

/// Cursor arithmetic of the decode loops. Element `elems` starts at byte
/// `bytes`; `steps` whole steps further on, the byte cursor has advanced by
/// `steps * step_bytes`, and the `next` elements that follow are still
/// covered by whatever covers all `total` elements.
proof fn lemma_cursor(
    elems: int,
    bytes: int,
    steps: int,
    step_bytes: int,
    next: int,
    bitwidth: int,
    total: int,
)
    requires
        0 <= elems,
        0 <= steps,
        0 <= next,
        1 <= bitwidth <= 16,
        step_bytes == 4 * bitwidth,
        8 * bytes == elems * bitwidth,
        elems + 32 * steps + next <= total,
    ensures
        0 <= steps * step_bytes,
        steps <= 4 ==> steps * step_bytes <= 256,
        8 * (bytes + steps * step_bytes) == (elems + 32 * steps) * bitwidth,
        (elems + 32 * steps) * bitwidth + next * bitwidth <= total * bitwidth,
        0 <= next * bitwidth,
        next <= 32 ==> next * bitwidth <= 8 * step_bytes,
{
    assert(0 <= steps * step_bytes && (steps <= 4 ==> steps * step_bytes <= 256) && 8 * (steps
        * step_bytes) == (32 * steps) * bitwidth) by (nonlinear_arith)
        requires
            0 <= steps,
            1 <= bitwidth <= 16,
            step_bytes == 4 * bitwidth,
    ;
    assert((elems + 32 * steps) * bitwidth == elems * bitwidth + (32 * steps) * bitwidth && (elems
        + 32 * steps) * bitwidth + next * bitwidth <= total * bitwidth && 0 <= next * bitwidth
        && (next <= 32 ==> next * bitwidth <= 32 * bitwidth)) by (nonlinear_arith)
        requires
            0 <= elems,
            0 <= steps,
            0 <= next,
            1 <= bitwidth,
            elems + 32 * steps + next <= total,
    ;
}

/// The store mask of the tail selects exactly the lanes that are left: a
/// full mask shifted down by `shift` keeps lane `e` when `e + shift < 32`.
proof fn lemma_store_mask(shift: u32, e: u64, mask: u32)
    requires
        shift < 32,
        e < 32,
        mask == u32::MAX >> shift,
    ensures
        (((mask as u64) >> e) & 1 == 1) == (e + shift < 32),
{
    assert((((mask as u64) >> e) & 1 == 1) == (e + shift < 32)) by (bit_vector)
        requires
            shift < 32,
            e < 32,
            mask == 0xffff_ffffu32 >> shift,
    ;
}

/// After the lanes of a step have been stored, the decoded prefix has grown
/// by the `count` elements the step covered.
proof fn lemma_stored_window(
    input: Seq<u8>,
    bitwidth: nat,
    before: Seq<u16>,
    after: Seq<u16>,
    unpacked: Vector512,
    offset: int,
    loaded: int,
    first: int,
    count: int,
)
    requires
        1 <= bitwidth <= 16,
        0 <= offset,
        0 <= loaded,
        offset + loaded <= input.len(),
        0 <= first,
        0 <= count <= 32,
        first + count <= before.len(),
        after.len() == before.len(),
        8 * offset == first * bitwidth,
        count * bitwidth <= 8 * loaded,
        decoded_prefix(input, bitwidth, before, first),
        forall|e: int|
            0 <= e < 32 ==> #[trigger] unpacked.lane16(e) == packed_value(
                input.subrange(offset, offset + loaded),
                bitwidth,
                e as nat,
            ),
        forall|j: int|
            0 <= j < before.len() ==> #[trigger] after[j] == (if first <= j < first + 32 && (j
                - first < count) {
                unpacked.lane16(j - first)
            } else {
                before[j] as int
            }),
    ensures
        decoded_prefix(input, bitwidth, after, first + count),
{
    assert forall|j: int| 0 <= j < first + count implies #[trigger] after[j] == packed_value(
        input,
        bitwidth,
        j as nat,
    ) by {
        if j >= first {
            let e: int = j - first;
            assert(after[j] == unpacked.lane16(e));
            assert((e + 1) * bitwidth <= count * bitwidth) by (nonlinear_arith)
                requires
                    e + 1 <= count,
                    0 <= bitwidth,
            ;
            lemma_packed_value_in_window(input, offset, loaded, bitwidth, first as nat, e as nat);
        } else {
            assert(after[j] == before[j]);
        }
    }
}

/// The load mask of a step selects exactly the first lanes: a full mask
/// shifted down by `full_shift`, and in a masked step by `drop` more, keeps
/// lane `i` when `i` plus the shifts stays below 64.
proof fn lemma_load_mask(full_shift: u64, masked: bool, drop: u64, i: u64, mask: u64)
    requires
        full_shift < 64,
        i < 64,
        mask == (if !masked {
            u64::MAX >> full_shift
        } else if drop < 64 {
            (u64::MAX >> full_shift) >> drop
        } else {
            0
        }),
    ensures
        ((mask >> i) & 1 == 1) == (i + (if masked {
            drop as int
        } else {
            0
        }) + full_shift < 64),
{
    assert(((mask >> i) & 1 == 1) == (i + (if masked {
        drop as int
    } else {
        0
    }) + full_shift < 64)) by (bit_vector)
        requires
            full_shift < 64,
            i < 64,
            mask == (if !masked {
                0xffff_ffff_ffff_ffffu64 >> full_shift
            } else if drop < 64 {
                (0xffff_ffff_ffff_ffffu64 >> full_shift) >> drop
            } else {
                0
            }),
    ;
}

/// The bits of the element mask: the word `0xffff >> (16 - bitwidth)`, laid
/// out low byte first, has exactly its lowest `bitwidth` bits set.
proof fn lemma_word_mask_bit(bitwidth: u16, word_mask: u16, b: u8)
    requires
        1 <= bitwidth <= 16,
        word_mask == 0xffffu16 >> ((16 - bitwidth) as u16),
        b < 16,
    ensures
        byte_bit(
            if b < 8 {
                (word_mask % 256) as u8
            } else {
                (word_mask / 256) as u8
            },
            b % 8,
        ) == (b < bitwidth),
{
    let shift: u16 = (16 - bitwidth) as u16;
    let half: u8 = if b < 8 { (word_mask % 256) as u8 } else { (word_mask / 256) as u8 };
    let l: u8 = b % 8;
    assert(((half >> l) & 1 == 1) == (b < bitwidth)) by (bit_vector)
        requires
            1 <= bitwidth <= 16,
            shift == 16 - bitwidth,
            word_mask == 0xffffu16 >> shift,
            b < 16,
            l == b % 8,
            half == (if b < 8 {
                (word_mask % 256) as u8
            } else {
                (word_mask / 256) as u8
            }),
    ;
}

/// A bit survives an AND when it is set on both sides; no bit of zero is
/// set.
proof fn lemma_and_bit(a: u8, m: u8, l: u8)
    requires
        l < 8,
    ensures
        byte_bit(a & m, l) == (byte_bit(a, l) && byte_bit(m, l)),
        !byte_bit(0, l),
{
    assert((((a & m) >> l) & 1 == 1) == (((a >> l) & 1 == 1) && ((m >> l) & 1 == 1)))
        by (bit_vector);
    assert(!((0u8 >> l) & 1 == 1)) by (bit_vector);
}

/// Bit `b` of result lane `e` of a step is bit `b` of element `e` of the
/// window, for the bits below the bitwidth; the bits above are clear. The
/// premises are what the load, the gather, the multishift and the final AND
/// each promise of their result.
proof fn lemma_step_bit(
    width: nat,
    input: Seq<u8>,
    offset: int,
    loaded: int,
    load_mask: u64,
    x: Seq<u8>,
    y: Seq<u8>,
    data: Seq<u8>,
    gathered: Seq<u8>,
    shifted: Seq<u8>,
    mask: Seq<u8>,
    unpacked: Seq<u8>,
    word_mask: u16,
    e: int,
    b: u8,
)
    requires
        1 <= width <= 16,
        0 <= e < 32,
        0 <= offset,
        0 <= loaded <= 4 * width,
        offset + loaded <= input.len(),
        x.len() == 64,
        y.len() == 64,
        data.len() == 64,
        gathered.len() == 64,
        shifted.len() == 64,
        mask.len() == 64,
        unpacked.len() == 64,
        word_mask == 0xffffu16 >> ((16 - width) as u16),
        forall|lane: int| 0 <= lane < 64 ==> #[trigger] x[lane] == gather_index(width as int, lane),
        forall|lane: int| 0 <= lane < 64 ==> #[trigger] y[lane] == shift_control(width as int, lane),
        forall|i: int| #[trigger] mask_bit(load_mask, i) == (0 <= i < loaded),
        forall|i: int|
            0 <= i < 64 ==> #[trigger] data[i] == (if mask_bit(load_mask, i) {
                input[offset + i]
            } else {
                0u8
            }),
        forall|i: int| 0 <= i < 64 ==> #[trigger] gathered[i] == data[x[i] as int % 64],
        forall|i: int, l: u8|
            0 <= i < 64 && l < 8 ==> #[trigger] byte_bit(shifted[i], l) == stream_bit(
                gathered,
                64 * (i / 8) + (y[i] % 64 + l) % 64,
            ),
        forall|i: int|
            0 <= i < 64 ==> #[trigger] mask[i] == (if i % 2 == 0 {
                word_mask % 256
            } else {
                word_mask / 256
            }),
        forall|i: int| 0 <= i < 64 ==> #[trigger] unpacked[i] == shifted[i] & mask[i],
        b < 16,
    ensures
        stream_bit(unpacked, 16 * e + b) == (b < width && stream_bit(
            input.subrange(offset, offset + loaded),
            e * width + b,
        )),
{
    let bitwidth: int = width as int;
    let window = input.subrange(offset, offset + loaded);
    let l: u8 = b % 8;
    let lane: int = 2 * e + b as int / 8;
    assert((16 * e + b) / 8 == lane && (16 * e + b) % 8 == l);
    assert(stream_bit(unpacked, 16 * e + b) == byte_bit(unpacked[lane], l));
    assert(unpacked[lane] == shifted[lane] & mask[lane]);
    lemma_and_bit(shifted[lane], mask[lane], l);
    lemma_word_mask_bit(bitwidth as u16, word_mask, b);
    assert(byte_bit(mask[lane], l) == (b < bitwidth));
    if b < bitwidth {
        lemma_lane_geometry(bitwidth, e, b as int);
        let pos: int = shift_control(bitwidth, lane) + l;
        let from: int = 8 * (lane / 8) + pos / 8;
        let source: int = gather_index(bitwidth, from);
        assert(y[lane] == shift_control(bitwidth, lane));
        assert(byte_bit(shifted[lane], l) == stream_bit(gathered, 64 * (lane / 8) + (y[lane] % 64
            + l) % 64));
        assert(stream_bit(gathered, 64 * (lane / 8) + pos) == byte_bit(
            gathered[from],
            (pos % 8) as u8,
        ));
        assert(x[from] == source);
        assert(gathered[from] == data[x[from] as int % 64]);
        assert(mask_bit(load_mask, source) == (0 <= source < loaded));
        assert(data[source] == (if mask_bit(load_mask, source) {
            input[offset + source]
        } else {
            0u8
        }));
        if source < loaded {
            assert(window[source] == input[offset + source]);
        } else {
            lemma_and_bit(0, 0, (pos % 8) as u8);
        }
    }
}

/// Where bit `b` of element `e` of a window travels in one step: the result
/// byte it ends in, the bit of the 64-bit group it is taken from (which
/// never wraps round the group), the gathered byte that holds that bit, and
/// the window byte that was gathered there.
proof fn lemma_lane_geometry(bitwidth: int, e: int, b: int)
    requires
        1 <= bitwidth <= 16,
        0 <= e < 32,
        0 <= b < bitwidth,
    ensures
        ({
            let lane = 2 * e + b / 8;
            let control = shift_control(bitwidth, lane);
            let pos = control + b % 8;
            let from = 8 * (lane / 8) + pos / 8;
            let source = gather_index(bitwidth, from);
            &&& 0 <= lane < 64
            &&& 0 <= control < 58
            &&& 0 <= pos < 64
            &&& (control % 64 + b % 8) % 64 == pos
            &&& 0 <= from < 64
            &&& (64 * (lane / 8) + pos) / 8 == from
            &&& (64 * (lane / 8) + pos) % 8 == pos % 8
            &&& 0 <= source < 64
            &&& source % 64 == source
            &&& (e * bitwidth + b) / 8 == source
            &&& (e * bitwidth + b) % 8 == pos % 8
            &&& 0 <= e * bitwidth + b
        }),
{
    let half: int = b / 8;
    let lane: int = 2 * e + half;
    let group: int = e / 4;
    let element: int = e % 4;
    assert(lane / 8 == group && lane % 8 / 2 == element && lane % 2 == half);
    let group_bits: int = group * bitwidth;
    let element_bits: int = element * bitwidth;
    assert(0 <= group_bits <= 7 * bitwidth && 0 <= element_bits <= 3 * bitwidth && e * bitwidth == 4
        * group_bits + element_bits) by (nonlinear_arith)
        requires
            group_bits == group * bitwidth,
            element_bits == element * bitwidth,
            e == 4 * group + element,
            0 <= group <= 7,
            0 <= element <= 3,
            1 <= bitwidth,
    ;
    if bitwidth == 16 {
        assert(group_bits % 2 == 0) by (nonlinear_arith)
            requires
                group_bits == group * bitwidth,
                bitwidth == 16,
        ;
    }
    lemma_table_entries_below_64(bitwidth, lane);
    let control: int = shift_control(bitwidth, lane);
    assert(control == 4 * (group_bits % 2) + element_bits + 8 * half);
    let pos: int = control + b % 8;
    assert(pos == 4 * (group_bits % 2) + element_bits + b);
    assert(0 <= pos < 64);
    let from: int = 8 * group + pos / 8;
    assert(from / 8 == group && from % 8 == pos / 8);
    lemma_table_entries_below_64(bitwidth, from);
    let source: int = gather_index(bitwidth, from);
    assert(source == group_bits / 2 + pos / 8);
    assert(8 * source + pos % 8 == e * bitwidth + b);
}

/// Result lane `e` of a step holds element `e` of the window; same premises
/// as above.
proof fn lemma_step_lane(
    width: nat,
    input: Seq<u8>,
    offset: int,
    loaded: int,
    load_mask: u64,
    x: Seq<u8>,
    y: Seq<u8>,
    data: Seq<u8>,
    gathered: Seq<u8>,
    shifted: Seq<u8>,
    mask: Seq<u8>,
    unpacked: Seq<u8>,
    word_mask: u16,
    e: int,
)
    requires
        1 <= width <= 16,
        0 <= e < 32,
        0 <= offset,
        0 <= loaded <= 4 * width,
        offset + loaded <= input.len(),
        x.len() == 64,
        y.len() == 64,
        data.len() == 64,
        gathered.len() == 64,
        shifted.len() == 64,
        mask.len() == 64,
        unpacked.len() == 64,
        word_mask == 0xffffu16 >> ((16 - width) as u16),
        forall|lane: int| 0 <= lane < 64 ==> #[trigger] x[lane] == gather_index(width as int, lane),
        forall|lane: int| 0 <= lane < 64 ==> #[trigger] y[lane] == shift_control(width as int, lane),
        forall|i: int| #[trigger] mask_bit(load_mask, i) == (0 <= i < loaded),
        forall|i: int|
            0 <= i < 64 ==> #[trigger] data[i] == (if mask_bit(load_mask, i) {
                input[offset + i]
            } else {
                0u8
            }),
        forall|i: int| 0 <= i < 64 ==> #[trigger] gathered[i] == data[x[i] as int % 64],
        forall|i: int, l: u8|
            0 <= i < 64 && l < 8 ==> #[trigger] byte_bit(shifted[i], l) == stream_bit(
                gathered,
                64 * (i / 8) + (y[i] % 64 + l) % 64,
            ),
        forall|i: int|
            0 <= i < 64 ==> #[trigger] mask[i] == (if i % 2 == 0 {
                word_mask % 256
            } else {
                word_mask / 256
            }),
        forall|i: int| 0 <= i < 64 ==> #[trigger] unpacked[i] == shifted[i] & mask[i],
    ensures
        packed_value(input.subrange(offset, offset + loaded), width, e as nat) == unpacked[2 * e]
            + 256 * unpacked[2 * e + 1],
{
    let window = input.subrange(offset, offset + loaded);
    let start: int = (e as nat * width) as int;
    assert(start == e * width) by (nonlinear_arith)
        requires
            start == (e as nat * width) as int,
            0 <= e,
    ;
    assert forall|p: int| 16 * e <= p < 16 * e + 16 implies #[trigger] stream_bit(unpacked, p) == (p
        - 16 * e < width && stream_bit(window, p - 16 * e + start)) by {
        lemma_step_bit(width, input, offset, loaded, load_mask, x, y, data, gathered, shifted, mask, unpacked, word_mask, e, (p - 16 * e) as u8);
    }
    lemma_bits_value_pair(unpacked, 2 * e);
    lemma_bits_value_high_clear(unpacked, 16 * e, width, 16);
    lemma_bits_value_agree(unpacked, 16 * e, window, start, width);
}

} // verus!
