//! Stream coding under the `0124` layout, where a zero value occupies no
//! payload bytes.

use streamvbyte64::Coder0124;
use streamvbyte64::coder0124;

fn buffers(n: usize) -> (Vec<u8>, Vec<u8>) {
    let (tag_len, data_len) = Coder0124::max_compressed_bytes(n);
    (vec![0u8; tag_len], vec![0u8; data_len])
}

#[test]
fn zero_group_occupies_no_data() {
    let coder = Coder0124::new();
    let values: Vec<u32> = vec![0, 0, 0, 0];
    let (mut tags, mut data) = buffers(values.len());
    let written = coder.encode(&values, &mut tags, &mut data);
    assert_eq!(written, 0);
    assert_eq!(tags[0], 0x00);

    let mut decoded: Vec<u32> = vec![7; values.len()];
    let read = coder.decode(&tags, &data, &mut decoded);
    assert_eq!(read, 0);
    assert_eq!(decoded, values);
}

#[test]
fn mixed_widths_round_trip_0124() {
    let coder = Coder0124::new();
    let values: Vec<u32> = vec![0, 200, 60000, 16777216, 1, 0, u32::MAX, 65535];
    let (mut tags, mut data) = buffers(values.len());
    let written = coder.encode(&values, &mut tags, &mut data);
    // Value-tags 0,1,2,3 then 1,0,3,2.
    assert_eq!(tags[0], 0b11_10_01_00);
    assert_eq!(tags[1], 0b10_11_00_01);
    assert_eq!(written, 0 + 1 + 2 + 4 + 1 + 0 + 4 + 2);
    assert_eq!(written, coder.data_len(&tags));

    let mut decoded: Vec<u32> = vec![0; values.len()];
    assert_eq!(coder.decode(&tags, &data, &mut decoded), written);
    assert_eq!(decoded, values);
}

#[test]
fn three_byte_values_take_four_bytes() {
    // Both three- and four-byte values encode as the 4-byte variant.
    assert_eq!(coder0124::tag_value(0), (0, 0));
    assert_eq!(coder0124::tag_value(1), (1, 1));
    assert_eq!(coder0124::tag_value(255), (1, 1));
    assert_eq!(coder0124::tag_value(256), (2, 2));
    assert_eq!(coder0124::tag_value(65535), (2, 2));
    assert_eq!(coder0124::tag_value(65536), (3, 4));
    assert_eq!(coder0124::tag_value(16777215), (3, 4));
    assert_eq!(coder0124::tag_value(u32::MAX), (3, 4));
}

#[test]
fn delta_round_trip_0124() {
    let coder = Coder0124::new();
    let initial: u32 = 5;
    let values: Vec<u32> = vec![5, 5, 300, 70000, 70000, 70000, 70001, 4000000000];
    let (mut tags, mut data) = buffers(values.len());
    let written = coder.encode_deltas(initial, &values, &mut tags, &mut data);
    let mut decoded: Vec<u32> = vec![0; values.len()];
    assert_eq!(coder.decode_deltas(initial, &tags, &data, &mut decoded), written);
    assert_eq!(decoded, values);
    let (read, sum) = coder.skip_deltas(&tags, &data);
    assert_eq!(read, written);
    assert_eq!(sum, 4000000000u32.wrapping_sub(5));
}

#[test]
fn repeated_values_compress_to_nothing_in_delta_mode() {
    let coder = Coder0124::new();
    let values: Vec<u32> = vec![9, 9, 9, 9];
    let (mut tags, mut data) = buffers(values.len());
    let written = coder.encode_deltas(9, &values, &mut tags, &mut data);
    assert_eq!(written, 0);
    assert_eq!(tags[0], 0x00);
}

#[test]
fn data_len_0124_table() {
    assert_eq!(coder0124::data_len(0x00), 0);
    assert_eq!(coder0124::data_len(0b11_10_01_00), 7);
    assert_eq!(coder0124::data_len(0xFF), 16);
}
