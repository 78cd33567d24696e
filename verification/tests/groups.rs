//! The group-oriented handles, which mirror the coder handles.

use streamvbyte64::Group0124;
use streamvbyte64::Group1234;
use streamvbyte64::Group1248;

#[test]
fn group1234_encode_decode() {
    let coder = Group1234::new();
    let values: Vec<u32> = vec![
        0, 128, 256, 1024, 70, 36, 1000000, 378, 45, 888, 26, 262144, 88, 89, 90, 16777216,
    ];
    let (tbytes, dbytes) = Group1234::max_compressed_bytes(values.len());
    let mut tags: Vec<u8> = vec![0u8; tbytes];
    let mut data: Vec<u8> = vec![0u8; dbytes];

    let data_len = coder.encode(&values, &mut tags, &mut data);
    data.truncate(data_len);
    assert_eq!(data_len, coder.data_len(&tags));
    let mut actual: Vec<u32> = vec![0; values.len()];
    assert_eq!(data_len, coder.decode(&tags, &data, &mut actual));
    assert_eq!(values, actual);
}

#[test]
fn group1234_encode_decode_deltas() {
    let coder = Group1234::scalar_impl();
    let mut sum: u32 = 0;
    let values: Vec<u32> = [
        0u32, 128, 256, 1024, 70, 36, 1000000, 378, 45, 888, 26, 262144, 88, 89, 90, 16777216,
    ]
    .iter()
    .map(|x| {
        sum = sum.wrapping_add(*x);
        sum
    })
    .collect();
    let (tbytes, dbytes) = Group1234::max_compressed_bytes(values.len());
    let mut tags: Vec<u8> = vec![0u8; tbytes];
    let mut data: Vec<u8> = vec![0u8; dbytes];

    let data_len = coder.encode_deltas(0, &values, &mut tags, &mut data);
    data.truncate(data_len);
    assert_eq!(
        (data_len, values.last().unwrap().wrapping_sub(0)),
        coder.skip_deltas(&tags, &data)
    );
    let mut actual: Vec<u32> = vec![0; values.len()];
    assert_eq!(data_len, coder.decode_deltas(0, &tags, &data, &mut actual));
    assert_eq!(values, actual);
}

#[test]
fn group0124_encode_decode() {
    let coder = Group0124::new();
    let values: Vec<u32> = vec![0, 0, 3, 70000, 255, 256, 65535, 65536];
    let (tbytes, dbytes) = Group0124::max_compressed_bytes(values.len());
    let mut tags: Vec<u8> = vec![0u8; tbytes];
    let mut data: Vec<u8> = vec![0u8; dbytes];
    let data_len = coder.encode(&values, &mut tags, &mut data);
    assert_eq!(data_len, coder.data_len(&tags));
    let mut actual: Vec<u32> = vec![1; values.len()];
    assert_eq!(data_len, coder.decode(&tags, &data, &mut actual));
    assert_eq!(values, actual);
}

#[test]
fn group1248_encode_decode_deltas() {
    let coder = Group1248::new();
    let initial: u64 = 77;
    let values: Vec<u64> = vec![
        100,
        200,
        0x1_0000,
        0x1_0000_0000,
        0x1_0000_0001,
        0x2_0000_0000,
        u64::MAX - 1,
        u64::MAX,
    ];
    let (tbytes, dbytes) = Group1248::max_compressed_bytes(values.len());
    let mut tags: Vec<u8> = vec![0u8; tbytes];
    let mut data: Vec<u8> = vec![0u8; dbytes];
    let data_len = coder.encode_deltas(initial, &values, &mut tags, &mut data);
    data.truncate(data_len);
    let mut actual: Vec<u64> = vec![0; values.len()];
    assert_eq!(
        data_len,
        coder.decode_deltas(initial, &tags, &data, &mut actual)
    );
    assert_eq!(values, actual);
    assert_eq!(
        (data_len, u64::MAX.wrapping_sub(initial)),
        coder.skip_deltas(&tags, &data)
    );
}

#[test]
fn group_tag_values() {
    assert_eq!(streamvbyte64::group1234::tag_value(65536), 2);
    assert_eq!(streamvbyte64::group1248::tag_value(65536), 2);
    assert_eq!(streamvbyte64::group1248::tag_value(0x1_0000_0000), 3);
}

#[test]
fn le_byte_helpers_round_trip() {
    let mut buf: Vec<u8> = vec![0u8; 12];
    streamvbyte64::write_le32(&mut buf, 1, 0xA1B2C3, 3);
    assert_eq!(&buf[..5], &[0, 0xC3, 0xB2, 0xA1, 0]);
    assert_eq!(streamvbyte64::read_le32(&buf, 1, 3), 0xA1B2C3);
    streamvbyte64::write_le64(&mut buf, 4, 0x1122_3344_5566_7788, 8);
    assert_eq!(streamvbyte64::read_le64(&buf, 4, 8), 0x1122_3344_5566_7788);
}
