//! Stream coding under the `1248` layout for 64-bit values.

use streamvbyte64::Coder1248;
use streamvbyte64::coder1248;

fn buffers(n: usize) -> (Vec<u8>, Vec<u8>) {
    let (tag_len, data_len) = Coder1248::max_compressed_bytes(n);
    (vec![0u8; tag_len], vec![0u8; data_len])
}

#[test]
fn width_selection_64() {
    let coder = Coder1248::new();
    let values: Vec<u64> = vec![1, 0x100, 0x1000_0000, 0xFF_FFFF_FFFF_FFFF];
    let (mut tags, mut data) = buffers(values.len());
    let written = coder.encode(&values, &mut tags, &mut data);
    // Value-tags 0,1,2,3, so 1 + 2 + 4 + 8 payload bytes.
    assert_eq!(tags[0], 0b11_10_01_00);
    assert_eq!(written, 15);

    let mut decoded: Vec<u64> = vec![0; values.len()];
    assert_eq!(coder.decode(&tags, &data, &mut decoded), 15);
    assert_eq!(decoded, values);
}

#[test]
fn tag_value_boundaries_64() {
    assert_eq!(coder1248::tag_value(0), (0, 1));
    assert_eq!(coder1248::tag_value(0xFF), (0, 1));
    assert_eq!(coder1248::tag_value(0x100), (1, 2));
    assert_eq!(coder1248::tag_value(0xFFFF), (1, 2));
    assert_eq!(coder1248::tag_value(0x1_0000), (2, 4));
    assert_eq!(coder1248::tag_value(0xFFFF_FFFF), (2, 4));
    assert_eq!(coder1248::tag_value(0x1_0000_0000), (3, 8));
    assert_eq!(coder1248::tag_value(u64::MAX), (3, 8));
}

#[test]
fn round_trip_wide_values() {
    let coder = Coder1248::new();
    let values: Vec<u64> = vec![
        u64::MAX,
        0x1234_5678_9abc_def0,
        3,
        0xFFFF,
        0x10000,
        0xFFFF_FFFF,
        0x1_0000_0000,
        0,
    ];
    let (mut tags, mut data) = buffers(values.len());
    let written = coder.encode(&values, &mut tags, &mut data);
    assert_eq!(written, coder.data_len(&tags));
    let mut decoded: Vec<u64> = vec![0; values.len()];
    assert_eq!(coder.decode(&tags, &data, &mut decoded), written);
    assert_eq!(decoded, values);
}

#[test]
fn delta_round_trip_64() {
    let coder = Coder1248::new();
    let initial: u64 = u64::MAX - 5;
    // Wraps past the top of the 64-bit range.
    let values: Vec<u64> = vec![u64::MAX - 1, 2, 70000, 0x1_0000_0000];
    let (mut tags, mut data) = buffers(values.len());
    let written = coder.encode_deltas(initial, &values, &mut tags, &mut data);
    let mut decoded: Vec<u64> = vec![0; values.len()];
    assert_eq!(coder.decode_deltas(initial, &tags, &data, &mut decoded), written);
    assert_eq!(decoded, values);

    let (read, sum) = coder.skip_deltas(&tags, &data);
    assert_eq!(read, written);
    assert_eq!(sum, 0x1_0000_0000u64.wrapping_sub(initial));
}

#[test]
fn batched_tail_64() {
    let coder = Coder1248::new();
    let values: Vec<u64> = (0..36u64).map(|i| 1u64 << (i % 60)).collect();
    let (mut tags, mut data) = buffers(values.len());
    let written = coder.encode(&values, &mut tags, &mut data);
    data.truncate(written);
    let mut decoded: Vec<u64> = vec![0; values.len()];
    assert_eq!(coder.decode(&tags, &data, &mut decoded), written);
    assert_eq!(decoded, values);
}

#[test]
fn nibble_helpers_split_tags() {
    assert_eq!(coder1248::nibble_tags(0xE4), (0x4, 0xE));
    assert_eq!(coder1248::nibble_data_len((0x4, 0xE)), (1 + 2, 4 + 8));
    for t in 0..256usize {
        let (lo, hi) = coder1248::nibble_tag_lens(t);
        assert_eq!(lo + hi, coder1248::data_len(t as u8));
    }
}

#[test]
fn has_any_tag3_spots_widest_values() {
    assert!(!coder1248::has_any_tag3(0));
    assert!(!coder1248::has_any_tag3(0x5555_5555_5555_5555));
    assert!(!coder1248::has_any_tag3(0xAAAA_AAAA_AAAA_AAAA));
    assert!(coder1248::has_any_tag3(0x3));
    assert!(coder1248::has_any_tag3(0xC0));
    assert!(coder1248::has_any_tag3(0x0300_0000_0000_0000));
    assert!(coder1248::has_any_tag3(u64::MAX));
}
