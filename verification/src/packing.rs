//! The packed layout, stated over bits.
//!
//! A packed buffer is a byte sequence read as one long string of bits: bit
//! `p` of the buffer is bit `p % 8` of byte `p / 8`, least significant bit
//! first. Element `i` of a run packed at `w` bits per element occupies the
//! bits `i * w .. (i + 1) * w`, and its value weighs the first of them as 1,
//! the next as 2, and so on.

use vstd::prelude::*;

verus! {

/// Bit `b` of `byte`, counted from the least significant end.
pub open spec fn byte_bit(byte: u8, b: u8) -> bool {
    (byte >> b) & 1 == 1
}

/// Bit `pos` of a byte buffer. Positions outside the buffer read as clear.
pub open spec fn stream_bit(bytes: Seq<u8>, pos: int) -> bool {
    0 <= pos < 8 * bytes.len() && byte_bit(bytes[pos / 8], (pos % 8) as u8)
}

/// The unsigned number held in the `n` bits that start at bit `start`,
/// lowest bit first.
pub open spec fn bits_value(bytes: Seq<u8>, start: int, n: nat) -> nat
    decreases n,
{
    if n == 0 {
        0
    } else {
        (if stream_bit(bytes, start) { 1nat } else { 0nat })
            + 2 * bits_value(bytes, start + 1, (n - 1) as nat)
    }
}

/// Element `index` of a buffer packed at `bitwidth` bits per element.
pub open spec fn packed_value(bytes: Seq<u8>, bitwidth: nat, index: nat) -> nat {
    bits_value(bytes, (index * bitwidth) as int, bitwidth)
}

/// Bytes needed to hold `count` elements of `bitwidth` bits each.
pub open spec fn required_bytes(count: nat, bitwidth: nat) -> nat {
    ((count * bitwidth + 7) / 8) as nat
}

/// Whether the first `count` slots of `output` hold the first `count`
/// elements of `input`, packed at `bitwidth` bits per element.
pub open spec fn decoded_prefix(input: Seq<u8>, bitwidth: nat, output: Seq<u16>, count: int) -> bool {
    forall|i: int| 0 <= i < count ==> #[trigger] output[i] == packed_value(input, bitwidth, i as nat)
}

/// Bit `b` of a byte is its binary digit of weight `2^b`.
pub proof fn lemma_byte_bit_is_binary_digit(byte: u8, b: u8)
    requires
        b < 8,
    ensures
        byte_bit(byte, b) == ((byte as int / vstd::arithmetic::power2::pow2(b as nat) as int) % 2
            == 1),
{
    let weight: u8 = 1u8 << b;
    assert(weight == (if b == 0 {
        1u8
    } else if b == 1 {
        2u8
    } else if b == 2 {
        4u8
    } else if b == 3 {
        8u8
    } else if b == 4 {
        16u8
    } else if b == 5 {
        32u8
    } else if b == 6 {
        64u8
    } else {
        128u8
    }) && ((byte >> b) & 1 == 1) == ((byte / weight) % 2 == 1)) by (bit_vector)
        requires
            b < 8,
            weight == 1u8 << b,
    ;
    vstd::arithmetic::power2::lemma2_to64();
}

/// Two bit ranges that agree bit for bit hold the same number.
pub proof fn lemma_bits_value_agree(a: Seq<u8>, sa: int, b: Seq<u8>, sb: int, n: nat)
    requires
        forall|p: int| sa <= p < sa + n ==> #[trigger] stream_bit(a, p) == stream_bit(b, p - sa + sb),
    ensures
        bits_value(a, sa, n) == bits_value(b, sb, n),
    decreases n,
{
    if n > 0 {
        assert(stream_bit(a, sa) == stream_bit(b, sa - sa + sb));
        assert forall|p: int| sa + 1 <= p < sa + 1 + (n - 1) implies #[trigger] stream_bit(a, p)
            == stream_bit(b, p - (sa + 1) + (sb + 1)) by {
            assert(stream_bit(a, p) == stream_bit(b, p - sa + sb));
        }
        lemma_bits_value_agree(a, sa + 1, b, sb + 1, (n - 1) as nat);
    }
}

/// Clear bits above the first `n` add nothing to the number.
pub proof fn lemma_bits_value_high_clear(a: Seq<u8>, start: int, n: nat, m: nat)
    requires
        n <= m,
        forall|p: int| start + n <= p < start + m ==> !#[trigger] stream_bit(a, p),
    ensures
        bits_value(a, start, m) == bits_value(a, start, n),
    decreases m,
{
    if m > 0 {
        if n == 0 {
            assert(!stream_bit(a, start));
            lemma_bits_value_high_clear(a, start + 1, 0, (m - 1) as nat);
        } else {
            lemma_bits_value_high_clear(a, start + 1, (n - 1) as nat, (m - 1) as nat);
        }
    }
}

/// The number in `n` bits is below `2^n`; stated for the widths in use.
pub proof fn lemma_bits_value_bound(a: Seq<u8>, start: int, n: nat)
    requires
        n <= 16,
    ensures
        bits_value(a, start, n) < vstd::arithmetic::power2::pow2(n),
        bits_value(a, start, n) <= 0xffff,
    decreases n,
{
    vstd::arithmetic::power2::lemma2_to64();
    if n > 0 {
        lemma_bits_value_bound(a, start + 1, (n - 1) as nat);
        vstd::arithmetic::power2::lemma_pow2_unfold(n);
    }
}

/// A byte is the sum of its bits, each weighed by its place.
proof fn lemma_byte_is_sum_of_bits(x: u8)
    ensures
        x == (if byte_bit(x, 0) { 1int } else { 0 }) + (if byte_bit(x, 1) { 2int } else { 0 }) + (if byte_bit(x, 2) { 4int } else { 0 })
            + (if byte_bit(x, 3) { 8int } else { 0 }) + (if byte_bit(x, 4) { 16int } else { 0 }) + (if byte_bit(x, 5) { 32int } else { 0 })
            + (if byte_bit(x, 6) { 64int } else { 0 }) + (if byte_bit(x, 7) { 128int } else { 0 }),
{
    assert(x == (if (x >> 0u8) & 1 == 1 { 1u8 } else { 0u8 }) + (if (x >> 1u8) & 1 == 1 { 2u8 } else { 0u8 })
        + (if (x >> 2u8) & 1 == 1 { 4u8 } else { 0u8 }) + (if (x >> 3u8) & 1 == 1 { 8u8 } else { 0u8 })
        + (if (x >> 4u8) & 1 == 1 { 16u8 } else { 0u8 }) + (if (x >> 5u8) & 1 == 1 { 32u8 } else { 0u8 })
        + (if (x >> 6u8) & 1 == 1 { 64u8 } else { 0u8 }) + (if (x >> 7u8) & 1 == 1 { 128u8 } else { 0u8 })) by (bit_vector);
}

/// Eight bits that start on a byte boundary hold that byte.
pub proof fn lemma_bits_value_byte(a: Seq<u8>, j: int)
    requires
        0 <= j < a.len(),
    ensures
        bits_value(a, 8 * j, 8) == a[j],
{
    let x = a[j];
    lemma_byte_is_sum_of_bits(x);
    assert(stream_bit(a, 8 * j) == byte_bit(x, 0));
    assert(stream_bit(a, 8 * j + 1) == byte_bit(x, 1));
    assert(stream_bit(a, 8 * j + 2) == byte_bit(x, 2));
    assert(stream_bit(a, 8 * j + 3) == byte_bit(x, 3));
    assert(stream_bit(a, 8 * j + 4) == byte_bit(x, 4));
    assert(stream_bit(a, 8 * j + 5) == byte_bit(x, 5));
    assert(stream_bit(a, 8 * j + 6) == byte_bit(x, 6));
    assert(stream_bit(a, 8 * j + 7) == byte_bit(x, 7));
    reveal_with_fuel(bits_value, 9);
}

/// A range of bits splits after its first eight: the rest weighs 256 times
/// as much.
pub proof fn lemma_bits_value_split8(a: Seq<u8>, start: int, m: nat)
    ensures
        bits_value(a, start, 8 + m) == bits_value(a, start, 8) + 256 * bits_value(a, start + 8, m),
{
    reveal_with_fuel(bits_value, 9);
}

/// Sixteen bits that start on a byte boundary hold the little-endian number
/// of the two bytes.
pub proof fn lemma_bits_value_pair(a: Seq<u8>, j: int)
    requires
        0 <= j,
        j + 1 < a.len(),
    ensures
        bits_value(a, 8 * j, 16) == a[j] + 256 * a[j + 1],
{
    lemma_bits_value_split8(a, 8 * j, 8);
    lemma_bits_value_byte(a, j);
    lemma_bits_value_byte(a, j + 1);
}

/// `required_bytes` is the least number of bytes that cover the elements: a
/// buffer is long enough exactly when its bits are at least the bits of all
/// elements.
pub proof fn lemma_required_bytes_is_least(len: nat, count: nat, bitwidth: nat)
    ensures
        len >= required_bytes(count, bitwidth) <==> 8 * len >= count * bitwidth,
{
}

/// An element of `bitwidth` bits is below `2^bitwidth`: no bit above the
/// bitwidth is ever set, and every element of at most 16 bits fits a
/// 16-bit slot.
pub proof fn lemma_packed_value_bound(input: Seq<u8>, bitwidth: nat, index: nat)
    requires
        bitwidth <= 16,
    ensures
        packed_value(input, bitwidth, index) < vstd::arithmetic::power2::pow2(bitwidth),
        packed_value(input, bitwidth, index) <= 0xffff,
{
    lemma_bits_value_bound(input, (index * bitwidth) as int, bitwidth);
}

/// At eight bits per element the elements are the bytes themselves.
pub proof fn lemma_packed_value_width_8(input: Seq<u8>, index: nat)
    requires
        index < input.len(),
    ensures
        packed_value(input, 8, index) == input[index as int],
{
    lemma_bits_value_byte(input, index as int);
}

/// At sixteen bits per element the elements are the little-endian words of
/// the buffer.
pub proof fn lemma_packed_value_width_16(input: Seq<u8>, index: nat)
    requires
        2 * index + 1 < input.len(),
    ensures
        packed_value(input, 16, index) == input[2 * index as int] + 256 * input[2 * index as int
            + 1],
{
    lemma_bits_value_pair(input, 2 * index as int);
}

/// An element that lies inside a window of the buffer can be read from the
/// window alone: when the window starts where element `first` starts,
/// element `e` of the window is element `first + e` of the buffer.
pub proof fn lemma_packed_value_in_window(
    input: Seq<u8>,
    offset: int,
    len: int,
    bitwidth: nat,
    first: nat,
    e: nat,
)
    requires
        0 <= offset,
        0 <= len,
        offset + len <= input.len(),
        8 * offset == first * bitwidth,
        (e + 1) * bitwidth <= 8 * len,
    ensures
        packed_value(input.subrange(offset, offset + len), bitwidth, e) == packed_value(
            input,
            bitwidth,
            first + e,
        ),
{
    let window = input.subrange(offset, offset + len);
    let in_window: int = (e * bitwidth) as int;
    let in_input: int = ((first + e) * bitwidth) as int;
    assert(in_input == 8 * offset + in_window && in_window + bitwidth <= 8 * len && in_window >= 0)
        by (nonlinear_arith)
        requires
            in_window == e * bitwidth,
            in_input == (first + e) * bitwidth,
            8 * offset == first * bitwidth,
            (e + 1) * bitwidth <= 8 * len,
    ;
    assert forall|p: int| in_window <= p < in_window + bitwidth implies #[trigger] stream_bit(
        window,
        p,
    ) == stream_bit(input, p - in_window + in_input) by {
        assert(window[p / 8] == input[offset + p / 8]);
        assert((p + 8 * offset) / 8 == offset + p / 8 && (p + 8 * offset) % 8 == p % 8);
    }
    lemma_bits_value_agree(window, in_window, input, in_input, bitwidth);
}

} // verus!
