//! The control vectors of the unpack step, one pair per bitwidth.
//!
//! One step turns a window of `4 * bitwidth` packed bytes into 32 elements.
//! The 64 result bytes fall into eight groups of eight; group `g` holds the
//! elements `4 * g .. 4 * g + 4`, whose bits start `4 * g * bitwidth` bits
//! into the window. That is byte `g * bitwidth / 2`, and four bits further
//! when `g * bitwidth` is odd. The gather vector brings the eight window
//! bytes from there on into the group; the shift vector then names, for
//! each result byte, the bit of the group at which it starts.

use vstd::prelude::*;

verus! {

/// The window byte that is routed to byte lane `lane`.
pub open spec fn gather_index(bitwidth: int, lane: int) -> int {
    (lane / 8) * bitwidth / 2 + lane % 8
}

/// The bit of its 64-bit group at which result byte `lane` starts: element
/// `lane % 8 / 2` of the group, its low half for an even lane and its high
/// half for an odd one.
pub open spec fn shift_control(bitwidth: int, lane: int) -> int {
    4 * ((lane / 8) * bitwidth % 2) + (lane % 8 / 2) * bitwidth + 8 * (lane % 2)
}

/// The gather and shift vectors for one bitwidth.
pub struct UnpackTable {
    pub gather: [u8; 64],
    pub shift_ctl: [u8; 64],
}

impl UnpackTable {
    /// Whether this is the table of `bitwidth`.
    pub open spec fn is_for(&self, bitwidth: int) -> bool {
        &&& forall|lane: int|
            0 <= lane < 64 ==> #[trigger] self.gather@[lane] == gather_index(bitwidth, lane)
        &&& forall|lane: int|
            0 <= lane < 64 ==> #[trigger] self.shift_ctl@[lane] == shift_control(bitwidth, lane)
    }
}

/// Every table entry names a lane, or a bit, below 64.
pub proof fn lemma_table_entries_below_64(bitwidth: int, lane: int)
    requires
        1 <= bitwidth <= 16,
        0 <= lane < 64,
    ensures
        0 <= gather_index(bitwidth, lane) < 64,
        0 <= shift_control(bitwidth, lane) < 58,
{
    let g = lane / 8;
    let k = lane % 8 / 2;
    assert(0 <= g * bitwidth <= 7 * bitwidth) by (nonlinear_arith)
        requires
            0 <= g <= 7,
            1 <= bitwidth,
    ;
    assert(0 <= k * bitwidth <= 3 * bitwidth) by (nonlinear_arith)
        requires
            0 <= k <= 3,
            1 <= bitwidth,
    ;
    if bitwidth == 16 {
        assert(g * bitwidth == 16 * g) by (nonlinear_arith)
            requires
                bitwidth == 16,
        ;
    }
}

/// Builds the table of `bitwidth`.
pub fn table_for(bitwidth: usize) -> (table: UnpackTable)
    requires
        1 <= bitwidth <= 16,
    ensures
        table.is_for(bitwidth as int),
{
    let mut gather = [0u8; 64];
    let mut shift_ctl = [0u8; 64];
    let mut lane: usize = 0;
    while lane < 64
        invariant
            lane <= 64,
            1 <= bitwidth <= 16,
            forall|i: int|
                0 <= i < lane ==> #[trigger] gather@[i] == gather_index(bitwidth as int, i),
            forall|i: int|
                0 <= i < lane ==> #[trigger] shift_ctl@[i] == shift_control(bitwidth as int, i),
        decreases 64 - lane,
    {
        let group: usize = lane / 8;
        let element: usize = lane % 8 / 2;
        proof {
            lemma_table_entries_below_64(bitwidth as int, lane as int);
            assert(0 <= group * bitwidth <= 112) by (nonlinear_arith)
                requires
                    0 <= group <= 7,
                    1 <= bitwidth <= 16,
            ;
            assert(0 <= element * bitwidth <= 48) by (nonlinear_arith)
                requires
                    0 <= element <= 3,
                    1 <= bitwidth <= 16,
            ;
        }
        let group_bits: usize = group * bitwidth;
        gather[lane] = (group_bits / 2 + lane % 8) as u8;
        shift_ctl[lane] = (4 * (group_bits % 2) + element * bitwidth + 8 * (lane % 2)) as u8;
        lane += 1;
    }
    UnpackTable { gather, shift_ctl }
}

} // verus!
