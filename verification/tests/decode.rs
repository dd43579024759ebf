use vbmi_bitpack_decoder::{BitpackDecoderVBMI, Decoder, DecoderError};

fn decode8(input: &[u8]) {
    let mut decoder = BitpackDecoderVBMI::default();
    let expected = input.iter().copied().map(u16::from).collect::<Vec<_>>();

    let mut output = vec![0xA5A5u16; expected.len()];

    let len = decoder.decode(input, 8, &mut output).unwrap();
    output.truncate(len);
    assert_eq!(&output, &expected);
}

/// Element `index` of `input` at `bitwidth` bits per element, read one bit
/// at a time.
fn scalar_unpack(input: &[u8], bitwidth: usize, index: usize) -> u16 {
    let mut value: u16 = 0;
    for b in 0..bitwidth {
        let pos = index * bitwidth + b;
        let bit = (input[pos / 8] >> (pos % 8)) & 1;
        value |= (bit as u16) << b;
    }
    value
}

/// A fixed, well-mixed byte pattern.
fn pattern(len: usize, seed: u32) -> Vec<u8> {
    let mut state = seed;
    let mut bytes = Vec::with_capacity(len);
    for _ in 0..len {
        state = state.wrapping_mul(1664525).wrapping_add(1013904223);
        bytes.push((state >> 24) as u8);
    }
    bytes
}

#[test]
fn test_remainder() {
    let input = (0..8).collect::<Vec<u8>>();
    for i in 1..input.len() {
        decode8(&input[..i]);
    }
}

#[test]
fn test_small_batches_1() {
    let input = (0..64).collect::<Vec<u8>>();
    for i in 2..input.len() {
        decode8(&input[..i]);
    }
}

#[test]
fn test_large() {
    let input = (0..1024).map(|i| (i % 256) as u8).collect::<Vec<u8>>();
    decode8(&input);
}

#[test]
fn decodes_every_bitwidth_like_the_scalar_unpacker() {
    let mut decoder = BitpackDecoderVBMI::default();
    for bitwidth in 1..=16usize {
        for &count in &[1usize, 2, 7, 31, 32, 33, 63, 64, 65, 127, 128, 129, 160, 255, 256, 300] {
            let bytes = (count * bitwidth + 7) / 8;
            let input = pattern(bytes, (bitwidth * 1000 + count) as u32);
            let mut output = vec![0xFFFFu16; count];
            let decoded = decoder.decode(&input, bitwidth, &mut output);
            assert!(matches!(decoded, Ok(n) if n == count));
            for i in 0..count {
                assert_eq!(
                    output[i],
                    scalar_unpack(&input, bitwidth, i),
                    "bitwidth {} count {} element {}",
                    bitwidth,
                    count,
                    i
                );
            }
        }
    }
}

#[test]
fn returns_the_output_length_on_success() {
    let mut decoder = BitpackDecoderVBMI::default();
    let input = pattern(600, 7);
    for &count in &[0usize, 1, 31, 32, 100, 128, 200] {
        let mut output = vec![0u16; count];
        let decoded = decoder.decode(&input, 11, &mut output);
        assert!(matches!(decoded, Ok(n) if n == count));
    }
}

#[test]
fn decodes_the_three_bit_counting_run() {
    // 0, 1, .., 7 at three bits each.
    let input = [0x88u8, 0xC6, 0xFA];
    let mut output = [0u16; 8];
    let mut decoder = BitpackDecoderVBMI::default();
    let decoded = decoder.decode(&input, 3, &mut output);
    assert!(matches!(decoded, Ok(8)));
    assert_eq!(output, [0, 1, 2, 3, 4, 5, 6, 7]);
}

#[test]
fn decodes_single_bits() {
    let input = [0b1010_0101u8, 0b0000_0011];
    let mut output = [9u16; 10];
    let mut decoder = BitpackDecoderVBMI::default();
    let decoded = decoder.decode(&input, 1, &mut output);
    assert!(matches!(decoded, Ok(10)));
    assert_eq!(output, [1, 0, 1, 0, 0, 1, 0, 1, 1, 1]);
}

#[test]
fn decodes_sixteen_bits_as_little_endian_words() {
    let input = [0x34u8, 0x12, 0xFF, 0xFF, 0x00, 0x80];
    let mut output = [0u16; 3];
    let mut decoder = BitpackDecoderVBMI::default();
    let decoded = decoder.decode(&input, 16, &mut output);
    assert!(matches!(decoded, Ok(3)));
    assert_eq!(output, [0x1234, 0xFFFF, 0x8000]);
}

#[test]
fn clears_the_bits_above_the_bitwidth() {
    let input = vec![0xFFu8; 64];
    let mut decoder = BitpackDecoderVBMI::default();
    for bitwidth in 1..=16usize {
        let count = 64 * 8 / bitwidth;
        let mut output = vec![0u16; count];
        let decoded = decoder.decode(&input, bitwidth, &mut output);
        assert!(matches!(decoded, Ok(n) if n == count));
        let all_ones = (((1u32 << bitwidth) - 1) & 0xFFFF) as u16;
        assert!(output.iter().all(|&v| v == all_ones));
    }
}

#[test]
fn ignores_input_past_the_last_element() {
    let input = pattern(200, 99);
    let mut decoder = BitpackDecoderVBMI::default();
    let mut output = vec![0u16; 5];
    let decoded = decoder.decode(&input, 13, &mut output);
    assert!(matches!(decoded, Ok(5)));
    for i in 0..5 {
        assert_eq!(output[i], scalar_unpack(&input, 13, i));
    }
}

#[test]
fn accepts_an_empty_output() {
    let mut decoder = BitpackDecoderVBMI::default();
    let mut output: [u16; 0] = [];
    assert!(matches!(decoder.decode(&[], 5, &mut output), Ok(0)));
    assert!(matches!(decoder.decode(&[1, 2, 3], 16, &mut output), Ok(0)));
}

#[test]
fn rejects_bitwidth_17() {
    let mut decoder = BitpackDecoderVBMI::default();
    let input = pattern(256, 3);
    let mut output = vec![0xBEEFu16; 40];
    let decoded = decoder.decode(&input, 17, &mut output);
    assert!(matches!(decoded, Err(DecoderError::InvalidBitwidth(17))));
    assert!(output.iter().all(|&v| v == 0xBEEF));

    let mut nothing: [u16; 0] = [];
    let decoded = decoder.decode(&[], 17, &mut nothing);
    assert!(matches!(decoded, Err(DecoderError::InvalidBitwidth(17))));
}

#[test]
fn rejects_bitwidths_outside_1_to_16() {
    let mut decoder = BitpackDecoderVBMI::default();
    let input = pattern(256, 4);
    let mut output = vec![0xBEEFu16; 3];
    for &bitwidth in &[0usize, 18, 32, 64, usize::MAX] {
        let decoded = decoder.decode(&input, bitwidth, &mut output);
        assert!(matches!(decoded, Err(DecoderError::InvalidBitwidth(w)) if w == bitwidth));
        assert!(output.iter().all(|&v| v == 0xBEEF));
    }
}

#[test]
fn rejects_short_input() {
    let mut decoder = BitpackDecoderVBMI::default();
    // Ten elements of three bits need ceil(30 / 8) = 4 bytes.
    let input = [0xFFu8; 3];
    let mut output = vec![0xBEEFu16; 10];
    let decoded = decoder.decode(&input, 3, &mut output);
    assert!(matches!(
        decoded,
        Err(DecoderError::BufferUnderrun {
            available: 3,
            required: 4
        })
    ));
    assert!(output.iter().all(|&v| v == 0xBEEF));

    // One byte more is enough.
    let input = [0xFFu8; 4];
    let decoded = decoder.decode(&input, 3, &mut output);
    assert!(matches!(decoded, Ok(10)));
    assert!(output.iter().all(|&v| v == 7));
}

#[test]
fn reports_required_bytes_for_every_bitwidth() {
    let mut decoder = BitpackDecoderVBMI::default();
    for bitwidth in 1..=16usize {
        for &count in &[1usize, 9, 33, 129, 1000] {
            let required = (count * bitwidth + 7) / 8;
            let input = vec![0u8; required - 1];
            let mut output = vec![0xBEEFu16; count];
            let decoded = decoder.decode(&input, bitwidth, &mut output);
            match decoded {
                Err(DecoderError::BufferUnderrun {
                    available,
                    required: needed,
                }) => {
                    assert_eq!(available, required - 1);
                    assert_eq!(needed, required);
                }
                other => panic!("expected an underrun, got {:?}", other),
            }
            assert!(output.iter().all(|&v| v == 0xBEEF));
        }
    }
}

#[test]
fn rejects_an_empty_input_for_a_nonempty_output() {
    let mut decoder = BitpackDecoderVBMI::default();
    let mut output = [0u16; 1];
    let decoded = decoder.decode(&[], 1, &mut output);
    assert!(matches!(
        decoded,
        Err(DecoderError::BufferUnderrun {
            available: 0,
            required: 1
        })
    ));
}

#[test]
fn validate_accepts_exactly_the_covered_requests() {
    for bitwidth in 1..=16usize {
        for count in 0..70usize {
            let required = (count * bitwidth + 7) / 8;
            assert!(matches!(
                BitpackDecoderVBMI::validate(required, bitwidth, count),
                Ok(())
            ));
            assert!(matches!(
                BitpackDecoderVBMI::validate(required + 5, bitwidth, count),
                Ok(())
            ));
            if required > 0 {
                assert!(matches!(
                    BitpackDecoderVBMI::validate(required - 1, bitwidth, count),
                    Err(DecoderError::BufferUnderrun { available, required: needed })
                        if available == required - 1 && needed == required
                ));
            }
        }
    }
}

#[test]
fn validate_checks_the_bitwidth_first() {
    assert!(matches!(
        BitpackDecoderVBMI::validate(0, 17, 1000),
        Err(DecoderError::InvalidBitwidth(17))
    ));
    assert!(matches!(
        BitpackDecoderVBMI::validate(1000, 0, 0),
        Err(DecoderError::InvalidBitwidth(0))
    ));
    assert!(matches!(
        BitpackDecoderVBMI::validate(0, usize::MAX, usize::MAX),
        Err(DecoderError::InvalidBitwidth(usize::MAX))
    ));
}
