//! Stream coding under the `1234` layout.

use streamvbyte64::Coder1234;
use streamvbyte64::coder1234;

fn buffers(n: usize) -> (Vec<u8>, Vec<u8>) {
    let (tag_len, data_len) = Coder1234::max_compressed_bytes(n);
    (vec![0u8; tag_len], vec![0u8; data_len])
}

#[test]
fn empty_input_writes_nothing() {
    let coder = Coder1234::new();
    let values: Vec<u32> = vec![];
    let mut tags: Vec<u8> = vec![9u8, 9, 9];
    let mut data: Vec<u8> = vec![7u8; 5];
    let written = coder.encode(&values, &mut tags, &mut data);
    assert_eq!(written, 0);
    assert_eq!(tags, vec![9u8, 9, 9]);
    assert_eq!(data, vec![7u8; 5]);
}

#[test]
fn single_group_mixed_widths() {
    let coder = Coder1234::new();
    let values: Vec<u32> = vec![1, 256, 65536, 16777216];
    let (mut tags, mut data) = buffers(values.len());
    let written = coder.encode(&values, &mut tags, &mut data);
    assert_eq!(written, 10);
    assert_eq!(tags[0], 0b11_10_01_00);
    assert_eq!(&data[..10], &[1, 0, 1, 0, 0, 1, 0, 0, 0, 1]);

    let mut decoded: Vec<u32> = vec![0; values.len()];
    let read = coder.decode(&tags, &data, &mut decoded);
    assert_eq!(read, 10);
    assert_eq!(decoded, values);
}

#[test]
fn widest_group_round_trips() {
    let coder = Coder1234::new();
    let values: Vec<u32> = vec![u32::MAX, u32::MAX - 1, 0xFFFFFF + 1, u32::MAX / 2];
    let (mut tags, mut data) = buffers(values.len());
    let written = coder.encode(&values, &mut tags, &mut data);
    assert_eq!(written, 16);
    assert_eq!(tags[0], 0xFF);
    let mut decoded: Vec<u32> = vec![0; values.len()];
    assert_eq!(coder.decode(&tags, &data, &mut decoded), 16);
    assert_eq!(decoded, values);
}

#[test]
fn round_trip_many_groups() {
    let coder = Coder1234::new();
    let mut values: Vec<u32> = Vec::new();
    let mut x: u32 = 1;
    for i in 0..64u32 {
        x = x.wrapping_mul(2654435761).wrapping_add(i);
        values.push(x >> (i % 31));
    }
    let (mut tags, mut data) = buffers(values.len());
    let written = coder.encode(&values, &mut tags, &mut data);
    assert_eq!(written, coder.data_len(&tags));
    let mut decoded: Vec<u32> = vec![0; values.len()];
    assert_eq!(coder.decode(&tags, &data, &mut decoded), written);
    assert_eq!(decoded, values);
}

#[test]
fn delta_trivial() {
    let coder = Coder1234::new();
    let values: Vec<u32> = vec![1, 2, 3, 4];
    let (mut tags, mut data) = buffers(values.len());
    let written = coder.encode_deltas(0, &values, &mut tags, &mut data);
    assert_eq!(written, 4);
    assert_eq!(tags[0], 0x00);
    assert_eq!(&data[..4], &[1, 1, 1, 1]);

    let mut decoded: Vec<u32> = vec![0; values.len()];
    assert_eq!(coder.decode_deltas(0, &tags, &data, &mut decoded), 4);
    assert_eq!(decoded, values);

    assert_eq!(coder.skip_deltas(&tags, &data), (4, 4));
}

#[test]
fn delta_round_trip_nonzero_initial() {
    let coder = Coder1234::new();
    let initial: u32 = 1000;
    let values: Vec<u32> = vec![1000, 1001, 2000, 70000, 70001, 70002, 16777216, 16777217];
    let (mut tags, mut data) = buffers(values.len());
    let written = coder.encode_deltas(initial, &values, &mut tags, &mut data);
    let mut decoded: Vec<u32> = vec![0; values.len()];
    assert_eq!(coder.decode_deltas(initial, &tags, &data, &mut decoded), written);
    assert_eq!(decoded, values);
}

#[test]
fn skip_deltas_sums_to_last_minus_initial() {
    let coder = Coder1234::new();
    let initial: u32 = 10;
    // Decreasing values exercise the wrapping subtraction.
    let values: Vec<u32> = vec![8, 6, 4, 2];
    let (mut tags, mut data) = buffers(values.len());
    let written = coder.encode_deltas(initial, &values, &mut tags, &mut data);
    let (read, sum) = coder.skip_deltas(&tags, &data);
    assert_eq!(read, written);
    assert_eq!(sum, 2u32.wrapping_sub(10));
}

#[test]
fn skip_then_resume_mid_stream() {
    let coder = Coder1234::new();
    let initial: u32 = 0;
    let values: Vec<u32> = (1..=16u32).map(|i| i * i).collect();
    let (mut tags, mut data) = buffers(values.len());
    let written = coder.encode_deltas(initial, &values, &mut tags, &mut data);
    data.truncate(written);

    // Skip the first two groups, then decode the rest from the middle.
    let (skipped, resume) = coder.skip_deltas(&tags[..2], &data);
    assert_eq!(resume, values[7]);
    let mut rest: Vec<u32> = vec![0; 8];
    coder.decode_deltas(resume, &tags[2..], &data[skipped..], &mut rest);
    assert_eq!(&rest, &values[8..]);
}

#[test]
fn batched_tail() {
    // Nine groups: one full batch of eight tags and one tail group.
    let coder = Coder1234::new();
    let values: Vec<u32> = (0..36u32).map(|i| (i * 37) % 70000).collect();
    let (mut tags, mut data) = buffers(values.len());
    assert_eq!(tags.len(), 9);
    let written = coder.encode(&values, &mut tags, &mut data);
    data.truncate(written);
    let mut decoded: Vec<u32> = vec![0; values.len()];
    assert_eq!(coder.decode(&tags, &data, &mut decoded), written);
    assert_eq!(decoded, values);
}

#[test]
fn tag_value_picks_minimal_widths() {
    assert_eq!(coder1234::tag_value(0), (0, 1));
    assert_eq!(coder1234::tag_value(255), (0, 1));
    assert_eq!(coder1234::tag_value(256), (1, 2));
    assert_eq!(coder1234::tag_value(65535), (1, 2));
    assert_eq!(coder1234::tag_value(65536), (2, 3));
    assert_eq!(coder1234::tag_value(16777215), (2, 3));
    assert_eq!(coder1234::tag_value(16777216), (3, 4));
    assert_eq!(coder1234::tag_value(u32::MAX), (3, 4));
}

#[test]
fn data_len_sums_selected_lengths() {
    for t in 0..=255u8 {
        let expected = ((t & 3) + 1) as usize + (((t >> 2) & 3) + 1) as usize + (((t >> 4) & 3)
            + 1) as usize + (((t >> 6) & 3) + 1) as usize;
        assert_eq!(coder1234::data_len(t), expected);
    }
    assert_eq!(coder1234::data_len(0x00), 4);
    assert_eq!(coder1234::data_len(0xE4), 10);
    assert_eq!(coder1234::data_len(0xFF), 16);
}

#[test]
fn max_compressed_bytes_sizes() {
    assert_eq!(Coder1234::max_compressed_bytes(0), (0, 0));
    assert_eq!(Coder1234::max_compressed_bytes(4), (1, 16));
    assert_eq!(Coder1234::max_compressed_bytes(36), (9, 144));
}
