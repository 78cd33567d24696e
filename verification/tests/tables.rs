//! Tag-derived tables: per-tag lengths, value masks and shuffle controls.

use streamvbyte64::shuffle;
use streamvbyte64::tag_utils;

#[test]
fn length_table_sums_tag_lengths() {
    let table = tag_utils::tag_length_table([1, 2, 3, 4]);
    assert_eq!(table.len(), 256);
    assert_eq!(table[0x00], 4);
    assert_eq!(table[0xE4], 10);
    assert_eq!(table[0xFF], 16);
    for t in 0..256usize {
        assert_eq!(
            table[t] as usize,
            tag_utils::tag_to_encoded_len(t as u8, [1, 2, 3, 4])
        );
    }

    let table0124 = tag_utils::tag_length_table([0, 1, 2, 4]);
    assert_eq!(table0124[0x00], 0);
    assert_eq!(table0124[0xFF], 16);
    assert_eq!(table0124[0b11_10_01_00], 0 + 1 + 2 + 4);
}

#[test]
fn mask_tables_cover_each_width() {
    assert_eq!(tag_utils::tag_mask32(0), 0);
    assert_eq!(tag_utils::tag_mask32(3), 0xFF_FFFF);
    assert_eq!(
        tag_utils::tag_mask_table32([1, 2, 3, 4]),
        [0xFF, 0xFFFF, 0xFF_FFFF, 0xFFFF_FFFF]
    );
    assert_eq!(
        tag_utils::tag_mask_table32([0, 1, 2, 4]),
        [0, 0xFF, 0xFFFF, 0xFFFF_FFFF]
    );
    assert_eq!(tag_utils::tag_mask64(5), 0xFF_FFFF_FFFF);
    assert_eq!(
        tag_utils::tag_mask_table64([1, 2, 4, 8]),
        [0xFF, 0xFFFF, 0xFFFF_FFFF, u64::MAX]
    );
}

#[test]
fn encode_shuffle_entries_gather_live_bytes() {
    // Tag 0b11_10_01_00 under 1234: lengths 1, 2, 3, 4.
    let e = shuffle::encode_shuffle_entry(0b11_10_01_00, [1, 2, 3, 4], 4, 255);
    assert_eq!(
        e,
        vec![0, 4, 5, 8, 9, 10, 12, 13, 14, 15, 255, 255, 255, 255, 255, 255]
    );
    // Tag zero gathers the first byte of each value.
    let e0 = shuffle::encode_shuffle_entry(0, [1, 2, 3, 4], 4, 255);
    assert_eq!(
        e0,
        vec![0, 4, 8, 12, 255, 255, 255, 255, 255, 255, 255, 255, 255, 255, 255, 255]
    );
}

#[test]
fn decode_shuffle_entries_scatter_packed_bytes() {
    let e = shuffle::decode_shuffle_entry(0b11_10_01_00, [1, 2, 3, 4], 4, 255);
    assert_eq!(
        e,
        vec![0, 255, 255, 255, 1, 2, 255, 255, 3, 4, 5, 255, 6, 7, 8, 9]
    );
}

#[test]
fn shuffle_tables_hold_all_tags() {
    let enc = shuffle::encode_shuffle_table([0, 1, 2, 4], 4, 255);
    let dec = shuffle::decode_shuffle_table([0, 1, 2, 4], 4, 255);
    assert_eq!(enc.len(), 256);
    assert_eq!(dec.len(), 256);
    assert_eq!(
        enc[0b11_10_01_00],
        shuffle::encode_shuffle_entry(0b11_10_01_00, [0, 1, 2, 4], 4, 255)
    );
    assert_eq!(
        dec[0xFF],
        shuffle::decode_shuffle_entry(0xFF, [0, 1, 2, 4], 4, 255)
    );
}

#[test]
fn nibble_length_table() {
    let t = shuffle::generate_nibble_tag_len_table([1, 2, 3, 4]);
    assert_eq!(
        t,
        vec![2, 3, 4, 5, 3, 4, 5, 6, 4, 5, 6, 7, 5, 6, 7, 8]
    );
    let t1248 = shuffle::generate_nibble_tag_len_table([1, 2, 4, 8]);
    assert_eq!(
        t1248,
        vec![2, 3, 5, 9, 3, 4, 6, 10, 5, 6, 8, 12, 9, 10, 12, 16]
    );
}

#[test]
fn wide_shuffle_tables_1248() {
    let enc = streamvbyte64::coder1248::generate_encode_shuffle_table();
    let dec = streamvbyte64::coder1248::generate_decode_shuffle_table();
    assert_eq!(enc.len(), 16);
    assert_eq!(dec.len(), 16);
    // Nibble 0b01_00: first value 1 byte, second 2 bytes.
    assert_eq!(
        enc[0b01_00],
        [0, 8, 9, 128, 128, 128, 128, 128, 128, 128, 128, 128, 128, 128, 128, 128]
    );
    assert_eq!(
        dec[0b01_00],
        [0, 128, 128, 128, 128, 128, 128, 128, 1, 2, 128, 128, 128, 128, 128, 128]
    );
}

#[test]
fn dist_shuffle_tables_match_entries() {
    let enc1234 = streamvbyte64::group1234::tag_encode_shuffle_table();
    assert_eq!(enc1234.len(), 256);
    assert_eq!(
        enc1234[0b11_10_01_00].to_vec(),
        shuffle::encode_shuffle_entry(0b11_10_01_00, [1, 2, 3, 4], 4, 255)
    );
    let dec1234 = streamvbyte64::group1234::tag_decode_shuffle_table();
    assert_eq!(
        dec1234[0xE4].to_vec(),
        shuffle::decode_shuffle_entry(0xE4, [1, 2, 3, 4], 4, 255)
    );
    let enc1248 = streamvbyte64::group1248::tag_encode_shuffle_table();
    assert_eq!(
        enc1248[0xE4].to_vec(),
        shuffle::encode_shuffle_entry(0xE4, [1, 2, 4, 8], 8, 255)
    );
    let dec1248 = streamvbyte64::group1248::tag_decode_shuffle_table();
    assert_eq!(
        dec1248[0xE4].to_vec(),
        shuffle::decode_shuffle_entry(0xE4, [1, 2, 4, 8], 8, 255)
    );
}
