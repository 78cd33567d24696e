//! Eight-group batched kernel paths, exercised one byte per value.

use streamvbyte64::coder1234;
use streamvbyte64::group0124;
use streamvbyte64::group1234;

#[test]
fn super_decode_1byte() {
    // Input is 32 bytes (enumerate) with a packed tag word of 0.
    let input: Vec<u8> = (0..32).map(|i| i as u8).collect();
    let mut output: Vec<u32> = vec![0u32; 32];
    let dlen = coder1234::decode8(0, &input, 0, &mut output, 0);

    assert_eq!(dlen, 32);
    let expected: Vec<u32> = input.iter().map(|v| *v as u32).collect();
    assert_eq!(expected, output);
}

#[test]
fn super_decode_deltas_1byte() {
    let input: Vec<u8> = std::iter::repeat(1u8).take(32).collect();
    let mut output: Vec<u32> = vec![0u32; 32];
    let (dlen, _) = coder1234::decode_deltas8(0, &input, 0, 1, &mut output, 0);

    assert_eq!(dlen, 32);
    let expected: Vec<u32> = (0..32).map(|i| i as u32 + 2).collect();
    assert_eq!(expected, output);
}

#[test]
fn super_skip_deltas_1byte() {
    // Input is 32 bytes (enumerate) with a packed tag word of 0.
    let input: Vec<u8> = (0..32).map(|i| i as u8).collect();
    let (dlen, sum) = coder1234::skip_deltas8(0, &input, 0);

    assert_eq!(dlen, 32);
    assert_eq!(input.iter().map(|v| *v as u32).sum::<u32>(), sum);
}

#[test]
fn decode8_1byte() {
    // Input is 32 bytes (enumerate) with a tag8 of 0.
    let input: Vec<u8> = (0..32).map(|i| i as u8).collect();
    let mut output: Vec<u32> = vec![0u32; 32];
    let dlen = coder1234::decode8(0, &input, 0, &mut output, 0);

    assert_eq!(dlen, 32);
    assert_eq!(input.iter().map(|v| *v as u32).collect::<Vec<_>>(), output);
}

#[test]
fn decode_deltas8_1byte() {
    let input: Vec<u8> = std::iter::repeat(1u8).take(32).collect();
    let mut output: Vec<u32> = vec![0u32; 32];
    let (dlen, _) = coder1234::decode_deltas8(0, &input, 0, 1, &mut output, 0);

    assert_eq!(dlen, 32);
    let expected: Vec<u32> = (0..32).map(|i| i as u32 + 2).collect();
    assert_eq!(expected, output);
}

#[test]
fn skip_deltas8_1byte() {
    // Input is 32 bytes (enumerate) with a tag8 of 0.
    let input: Vec<u8> = (0..32).map(|i| i as u8).collect();
    let (dlen, sum) = coder1234::skip_deltas8(0, &input, 0);

    assert_eq!(dlen, 32);
    assert_eq!(input.iter().map(|v| *v as u32).sum::<u32>(), sum);
}

#[test]
fn tag8_offsets() {
    assert_eq!(
        group1234::tag8_offsets(0b00000010_11111111_10011100),
        (0x30_2c_28_24_20_1a_0a_00, 0x34)
    );
    assert_eq!(
        group1234::tag8_offsets(u64::MAX),
        (0x70_60_50_40_30_20_10_00, 128)
    );
}

#[test]
fn neon_tag8_offsets() {
    assert_eq!(
        group0124::tag8_offsets(0b00000010_11111111_10011100),
        (0x19_19_19_19_19_17_07_00, 0x19)
    );
    assert_eq!(
        group0124::tag8_offsets(u64::MAX),
        (0x70_60_50_40_30_20_10_00, 0x80)
    );
}

#[test]
fn data_len8_matches_per_tag_sum() {
    for tag8 in [
        0u64,
        u64::MAX,
        0b00000010_11111111_10011100,
        0x0123_4567_89ab_cdef,
    ] {
        let expected32: usize = tag8
            .to_le_bytes()
            .iter()
            .map(|t| coder1234::data_len(*t))
            .sum();
        assert_eq!(coder1234::data_len8(tag8), expected32);
        let expected0124: usize = tag8
            .to_le_bytes()
            .iter()
            .map(|t| streamvbyte64::coder0124::data_len(*t))
            .sum();
        assert_eq!(streamvbyte64::coder0124::data_len8(tag8), expected0124);
        let expected1248: usize = tag8
            .to_le_bytes()
            .iter()
            .map(|t| streamvbyte64::coder1248::data_len(*t))
            .sum();
        assert_eq!(streamvbyte64::coder1248::data_len8(tag8), expected1248);
    }
}
