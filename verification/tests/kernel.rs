use vbmi_bitpack_decoder::table::table_for;
use vbmi_bitpack_decoder::vector::Vector512;
use vbmi_bitpack_decoder::BitpackDecoderVBMI;

fn counting() -> [u8; 64] {
    let mut bytes = [0u8; 64];
    for i in 0..64 {
        bytes[i] = i as u8;
    }
    bytes
}

fn lane16(v: &Vector512, lane: usize) -> u16 {
    v.bytes[2 * lane] as u16 + 256 * v.bytes[2 * lane + 1] as u16
}

#[test]
fn table_for_eight_bits_spreads_bytes_over_words() {
    let table = table_for(8);
    for lane in 0..64usize {
        // Group g takes the window bytes 4g .. 4g + 8.
        assert_eq!(table.gather[lane] as usize, (lane / 8) * 4 + lane % 8);
        // Element k of a group starts at bit 8k; odd lanes take the high half.
        assert_eq!(
            table.shift_ctl[lane] as usize,
            (lane % 8 / 2) * 8 + 8 * (lane % 2)
        );
    }
}

#[test]
fn table_for_three_bits_has_the_half_byte_offset_in_odd_groups() {
    let table = table_for(3);
    assert_eq!(&table.gather[0..8], &[0, 1, 2, 3, 4, 5, 6, 7]);
    assert_eq!(&table.shift_ctl[0..8], &[0, 8, 3, 11, 6, 14, 9, 17]);
    // Group 1 starts at bit 12: byte 1, bit 4.
    assert_eq!(&table.gather[8..16], &[1, 2, 3, 4, 5, 6, 7, 8]);
    assert_eq!(&table.shift_ctl[8..16], &[4, 12, 7, 15, 10, 18, 13, 21]);
    // Group 7 starts at bit 84: byte 10, bit 4.
    assert_eq!(&table.gather[56..64], &[10, 11, 12, 13, 14, 15, 16, 17]);
    assert_eq!(&table.shift_ctl[56..64], &[4, 12, 7, 15, 10, 18, 13, 21]);
}

#[test]
fn table_entries_stay_below_64() {
    for bitwidth in 1..=16usize {
        let table = table_for(bitwidth);
        for lane in 0..64usize {
            assert!(table.gather[lane] < 64);
            assert!(table.shift_ctl[lane] < 64);
        }
    }
    let table = table_for(16);
    assert_eq!(table.gather[63], 63);
    assert_eq!(table.shift_ctl[63], 56);
}

#[test]
fn loadu_copies_all_lanes() {
    let v = Vector512::loadu_epi8(&counting());
    assert_eq!(v.bytes, counting());
}

#[test]
fn maskz_load_reads_only_selected_lanes() {
    let src = [10u8, 11, 12, 13, 14];
    // Lanes 0, 1 and 3 of the window that starts at byte 1.
    let v = Vector512::maskz_loadu_epi8(0b1011, &src, 1);
    assert_eq!(&v.bytes[0..5], &[11, 12, 0, 14, 0]);
    assert!(v.bytes[5..].iter().all(|&b| b == 0));

    // Nothing selected: nothing read, even at the very end.
    let v = Vector512::maskz_loadu_epi8(0, &src, 5);
    assert!(v.bytes.iter().all(|&b| b == 0));

    // All 64 lanes.
    let v = Vector512::maskz_loadu_epi8(u64::MAX, &counting(), 0);
    assert_eq!(v.bytes, counting());
}

#[test]
fn permute_uses_the_low_six_bits_of_each_index() {
    let data = Vector512::loadu_epi8(&counting());
    let mut idx = [0u8; 64];
    for i in 0..64 {
        idx[i] = (63 - i) as u8;
    }
    idx[0] = 64 + 5;
    idx[1] = 255;
    let idx = Vector512::loadu_epi8(&idx);
    let r = Vector512::permutexvar_epi8(&idx, &data);
    assert_eq!(r.bytes[0], 5);
    assert_eq!(r.bytes[1], 63);
    for i in 2..64 {
        assert_eq!(r.bytes[i] as usize, 63 - i);
    }
}

#[test]
fn multishift_extracts_unaligned_bytes_from_each_group() {
    let mut data = [0u8; 64];
    // Group 0 holds 0x0807060504030201; group 1 holds 0xF0E0D0C0B0A09080.
    for j in 0..8 {
        data[j] = (j + 1) as u8;
        data[8 + j] = 0x80 + 0x10 * j as u8;
    }
    let mut ctrl = [0u8; 64];
    ctrl[0] = 0;
    ctrl[1] = 8;
    ctrl[2] = 4;
    ctrl[3] = 60;
    ctrl[4] = 56;
    ctrl[5] = 64 + 16;
    ctrl[6] = 1;
    ctrl[7] = 63;
    ctrl[8] = 0;
    ctrl[9] = 4;
    ctrl[10] = 60;
    let r = Vector512::multishift_epi64_epi8(
        &Vector512::loadu_epi8(&ctrl),
        &Vector512::loadu_epi8(&data),
    );
    let g0: u64 = 0x0807060504030201;
    let g1: u64 = 0xF0E0D0C0B0A09080;
    assert_eq!(r.bytes[0], 0x01);
    assert_eq!(r.bytes[1], 0x02);
    assert_eq!(r.bytes[2], (g0 >> 4) as u8);
    assert_eq!(r.bytes[3], g0.rotate_right(60) as u8);
    assert_eq!(r.bytes[3], 0x10);
    assert_eq!(r.bytes[4], 0x08);
    assert_eq!(r.bytes[5], 0x03);
    assert_eq!(r.bytes[6], (g0 >> 1) as u8);
    assert_eq!(r.bytes[7], g0.rotate_right(63) as u8);
    assert_eq!(r.bytes[8], 0x80);
    assert_eq!(r.bytes[9], (g1 >> 4) as u8);
    assert_eq!(r.bytes[10], g1.rotate_right(60) as u8);
    assert_eq!(r.bytes[10], 0x0F);
}

#[test]
fn set1_fills_every_word() {
    let v = Vector512::set1_epi16(0x12AB);
    for lane in 0..32 {
        assert_eq!(v.bytes[2 * lane], 0xAB);
        assert_eq!(v.bytes[2 * lane + 1], 0x12);
        assert_eq!(lane16(&v, lane), 0x12AB);
    }
}

#[test]
fn and_is_bytewise() {
    let a = Vector512::loadu_epi8(&counting());
    let b = Vector512::set1_epi16(0x0F35);
    let r = Vector512::and_si512(&a, &b);
    for i in 0..64usize {
        let m = if i % 2 == 0 { 0x35 } else { 0x0F };
        assert_eq!(r.bytes[i], (i as u8) & m);
    }
}

#[test]
fn store_writes_thirty_two_slots_and_no_other() {
    let v = Vector512::loadu_epi8(&counting());
    let mut out = vec![0xBEEFu16; 40];
    v.storeu_epi16(&mut out, 5);
    for j in 0..40usize {
        if j >= 5 && j < 37 {
            let lane = j - 5;
            assert_eq!(out[j] as usize, 2 * lane + 256 * (2 * lane + 1));
        } else {
            assert_eq!(out[j], 0xBEEF);
        }
    }
}

#[test]
fn masked_store_writes_only_selected_lanes() {
    let v = Vector512::loadu_epi8(&counting());
    let mut out = vec![0xBEEFu16; 6];
    // Lanes 0, 2 and 3, stored from slot 2 on; the slots of lanes 4.. do not exist.
    v.mask_storeu_epi16(&mut out, 2, 0b1101);
    assert_eq!(out, vec![0xBEEF, 0xBEEF, 0x0100, 0xBEEF, 0x0504, 0x0706]);

    let mut out = vec![0xBEEFu16; 2];
    v.mask_storeu_epi16(&mut out, 2, 0);
    assert_eq!(out, vec![0xBEEF, 0xBEEF]);
}

#[test]
fn full_step_unpacks_a_window_of_five_bit_elements() {
    let decoder = BitpackDecoderVBMI::default();
    let table = table_for(5);
    let x = Vector512::loadu_epi8(&table.gather);
    let y = Vector512::loadu_epi8(&table.shift_ctl);
    // Elements 0..32 at five bits each take 20 bytes; put them after 3 bytes of padding.
    let mut input = vec![0xFFu8; 3];
    let mut acc: u64 = 0;
    let mut bits = 0;
    for e in 0..32u64 {
        acc |= e << bits;
        bits += 5;
        while bits >= 8 {
            input.push(acc as u8);
            acc >>= 8;
            bits -= 8;
        }
    }
    assert_eq!(input.len(), 23);
    let r = decoder.unpack16_step::<false>(&x, &y, 5, &input, 3, 20);
    for e in 0..32usize {
        assert_eq!(lane16(&r, e) as usize, e);
    }
}

#[test]
fn masked_step_reads_missing_bytes_as_zero() {
    let decoder = BitpackDecoderVBMI::default();
    let table = table_for(8);
    let x = Vector512::loadu_epi8(&table.gather);
    let y = Vector512::loadu_epi8(&table.shift_ctl);
    let input = [7u8, 8, 9];
    let r = decoder.unpack16_step::<true>(&x, &y, 8, &input, 1, 2);
    assert_eq!(lane16(&r, 0), 8);
    assert_eq!(lane16(&r, 1), 9);
    for e in 2..32 {
        assert_eq!(lane16(&r, e), 0);
    }
    // No bytes left at all.
    let r = decoder.unpack16_step::<true>(&x, &y, 8, &input, 3, 0);
    assert!(r.bytes.iter().all(|&b| b == 0));
    // A masked step with a full window behaves like an unmasked one.
    let long = counting();
    let masked = decoder.unpack16_step::<true>(&x, &y, 8, &long, 0, 64);
    let plain = decoder.unpack16_step::<false>(&x, &y, 8, &long, 0, 32);
    assert_eq!(masked.bytes, plain.bytes);
    for e in 0..32usize {
        assert_eq!(lane16(&plain, e) as usize, e);
    }
}
