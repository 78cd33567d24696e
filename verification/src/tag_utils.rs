//! The tag byte shared by every parameterization.
//!
//! A tag byte packs four 2-bit value-tags, little-endian within the byte:
//! bits `[2i, 2i+2)` describe value `i` of the group. Each parameterization
//! maps a value-tag to a byte length through its own `tag_len` table; the
//! helpers here are the table-independent parts.

use vstd::prelude::*;

verus! {

/// Value-tag `i` of `tag`: bits `[2i, 2i+2)`.
pub open spec fn vt(tag: u8, i: int) -> u8 {
    if i == 0 {
        tag & 3
    } else if i == 1 {
        (tag >> 2) & 3
    } else if i == 2 {
        (tag >> 4) & 3
    } else {
        (tag >> 6) & 3
    }
}

/// Every value-tag is a 2-bit quantity.
pub proof fn lemma_vt_bound(tag: u8)
    by (bit_vector)
    ensures
        tag & 3 < 4,
        (tag >> 2) & 3 < 4,
        (tag >> 4) & 3 < 4,
        (tag >> 6) & 3 < 4,
{
}

/// Packing four 2-bit value-tags into a byte and extracting them again
/// yields the original four.
pub proof fn lemma_vt_pack(t0: u8, t1: u8, t2: u8, t3: u8)
    by (bit_vector)
    requires
        t0 < 4,
        t1 < 4,
        t2 < 4,
        t3 < 4,
    ensures
        (t0 | (t1 << 2) | (t2 << 4) | (t3 << 6)) & 3 == t0,
        ((t0 | (t1 << 2) | (t2 << 4) | (t3 << 6)) >> 2) & 3 == t1,
        ((t0 | (t1 << 2) | (t2 << 4) | (t3 << 6)) >> 4) & 3 == t2,
        ((t0 | (t1 << 2) | (t2 << 4) | (t3 << 6)) >> 6) & 3 == t3,
{
}

/// Tag byte `k` of a packed word of eight tags.
pub open spec fn tag8_byte(tag8: u64, k: int) -> u8 {
    ((tag8 >> (8 * k)) & 0xff) as u8
}

/// The eight tag bytes packed little-endian in one word, as a sequence.
pub open spec fn tag8_seq(tag8: u64) -> Seq<u8> {
    Seq::new(8, |k: int| tag8_byte(tag8, k))
}

/// Packing seven byte-sized offsets above a zero byte and extracting each
/// byte again yields the offsets.
pub proof fn lemma_pack8(b1: u64, b2: u64, b3: u64, b4: u64, b5: u64, b6: u64, b7: u64)
    by (bit_vector)
    requires
        b1 < 256,
        b2 < 256,
        b3 < 256,
        b4 < 256,
        b5 < 256,
        b6 < 256,
        b7 < 256,
    ensures
        (((b1 << 8) | (b2 << 16) | (b3 << 24) | (b4 << 32) | (b5 << 40) | (b6 << 48) | (b7
            << 56)) >> 0) & 0xff == 0,
        (((b1 << 8) | (b2 << 16) | (b3 << 24) | (b4 << 32) | (b5 << 40) | (b6 << 48) | (b7
            << 56)) >> 8) & 0xff == b1,
        (((b1 << 8) | (b2 << 16) | (b3 << 24) | (b4 << 32) | (b5 << 40) | (b6 << 48) | (b7
            << 56)) >> 16) & 0xff == b2,
        (((b1 << 8) | (b2 << 16) | (b3 << 24) | (b4 << 32) | (b5 << 40) | (b6 << 48) | (b7
            << 56)) >> 24) & 0xff == b3,
        (((b1 << 8) | (b2 << 16) | (b3 << 24) | (b4 << 32) | (b5 << 40) | (b6 << 48) | (b7
            << 56)) >> 32) & 0xff == b4,
        (((b1 << 8) | (b2 << 16) | (b3 << 24) | (b4 << 32) | (b5 << 40) | (b6 << 48) | (b7
            << 56)) >> 40) & 0xff == b5,
        (((b1 << 8) | (b2 << 16) | (b3 << 24) | (b4 << 32) | (b5 << 40) | (b6 << 48) | (b7
            << 56)) >> 48) & 0xff == b6,
        (((b1 << 8) | (b2 << 16) | (b3 << 24) | (b4 << 32) | (b5 << 40) | (b6 << 48) | (b7
            << 56)) >> 56) & 0xff == b7,
{
}

/// Packing eight tag bytes little-endian into one word and extracting
/// each byte again yields the tags.
pub proof fn lemma_pack_tags8(b0: u64, b1: u64, b2: u64, b3: u64, b4: u64, b5: u64, b6: u64,
    b7: u64)
    by (bit_vector)
    requires
        b0 < 256,
        b1 < 256,
        b2 < 256,
        b3 < 256,
        b4 < 256,
        b5 < 256,
        b6 < 256,
        b7 < 256,
    ensures
        ((b0 | (b1 << 8) | (b2 << 16) | (b3 << 24) | (b4 << 32) | (b5 << 40) | (b6 << 48) | (
        b7 << 56)) >> 0) & 0xff == b0,
        ((b0 | (b1 << 8) | (b2 << 16) | (b3 << 24) | (b4 << 32) | (b5 << 40) | (b6 << 48) | (
        b7 << 56)) >> 8) & 0xff == b1,
        ((b0 | (b1 << 8) | (b2 << 16) | (b3 << 24) | (b4 << 32) | (b5 << 40) | (b6 << 48) | (
        b7 << 56)) >> 16) & 0xff == b2,
        ((b0 | (b1 << 8) | (b2 << 16) | (b3 << 24) | (b4 << 32) | (b5 << 40) | (b6 << 48) | (
        b7 << 56)) >> 24) & 0xff == b3,
        ((b0 | (b1 << 8) | (b2 << 16) | (b3 << 24) | (b4 << 32) | (b5 << 40) | (b6 << 48) | (
        b7 << 56)) >> 32) & 0xff == b4,
        ((b0 | (b1 << 8) | (b2 << 16) | (b3 << 24) | (b4 << 32) | (b5 << 40) | (b6 << 48) | (
        b7 << 56)) >> 40) & 0xff == b5,
        ((b0 | (b1 << 8) | (b2 << 16) | (b3 << 24) | (b4 << 32) | (b5 << 40) | (b6 << 48) | (
        b7 << 56)) >> 48) & 0xff == b6,
        ((b0 | (b1 << 8) | (b2 << 16) | (b3 << 24) | (b4 << 32) | (b5 << 40) | (b6 << 48) | (
        b7 << 56)) >> 56) & 0xff == b7,
{
}

/// Reads eight consecutive tag bytes as one packed little-endian word.
pub fn read_tag8(tags: &[u8], g: usize) -> (tag8: u64)
    requires
        g + 8 <= tags@.len(),
    ensures
        tag8_seq(tag8) == tags@.subrange(g as int, g + 8),
{
    let b0 = tags[g] as u64;
    let b1 = tags[g + 1] as u64;
    let b2 = tags[g + 2] as u64;
    let b3 = tags[g + 3] as u64;
    let b4 = tags[g + 4] as u64;
    let b5 = tags[g + 5] as u64;
    let b6 = tags[g + 6] as u64;
    let b7 = tags[g + 7] as u64;
    let tag8: u64 = b0 | (b1 << 8) | (b2 << 16) | (b3 << 24) | (b4 << 32) | (b5 << 40) | (b6
        << 48) | (b7 << 56);
    proof {
        lemma_pack_tags8(b0, b1, b2, b3, b4, b5, b6, b7);
        assert(tag8_seq(tag8) =~= tags@.subrange(g as int, g + 8));
    }
    tag8
}

/// The number of payload bytes that `tag` selects, given the byte length of
/// each 2-bit value-tag.
pub fn tag_to_encoded_len(tag: u8, tag_len: [usize; 4]) -> (r: usize)
    requires
        forall|k: int| 0 <= k < 4 ==> tag_len@[k] <= 8,
    ensures
        r == tag_len@[vt(tag, 0) as int] + tag_len@[vt(tag, 1) as int] + tag_len@[vt(
            tag,
            2,
        ) as int] + tag_len@[vt(tag, 3) as int],
{
    proof {
        lemma_vt_bound(tag);
    }
    tag_len[(tag & 3) as usize] + tag_len[((tag >> 2) & 3) as usize] + tag_len[((tag >> 4)
        & 3) as usize] + tag_len[((tag >> 6) & 3) as usize]
}

/// The 256-entry table mapping each tag byte to its payload length.
pub fn tag_length_table(tag_len: [usize; 4]) -> (r: Vec<u8>)
    requires
        forall|k: int| 0 <= k < 4 ==> tag_len@[k] <= 8,
    ensures
        r@.len() == 256,
        forall|t: int|
            0 <= t < 256 ==> r@[t] == tag_len@[vt(t as u8, 0) as int] + tag_len@[vt(
                t as u8,
                1,
            ) as int] + tag_len@[vt(t as u8, 2) as int] + tag_len@[vt(t as u8, 3) as int],
{
    let mut table: Vec<u8> = Vec::new();
    let mut t: usize = 0;
    while t < 256
        invariant
            t <= 256,
            table@.len() == t,
            forall|k: int| 0 <= k < 4 ==> tag_len@[k] <= 8,
            forall|u: int|
                0 <= u < t ==> table@[u] == tag_len@[vt(u as u8, 0) as int] + tag_len@[vt(
                    u as u8,
                    1,
                ) as int] + tag_len@[vt(u as u8, 2) as int] + tag_len@[vt(u as u8, 3) as int],
        decreases 256 - t,
    {
        proof {
            lemma_vt_bound(t as u8);
        }
        let len: usize = tag_to_encoded_len(t as u8, tag_len);
        table.push(len as u8);
        t = t + 1;
    }
    table
}

/// The mask covering a 32-bit value stored in `len` bytes.
pub fn tag_mask32(len: usize) -> (r: u32)
    requires
        len <= 4,
    ensures
        r == crate::bytes::max_val32(len as nat),
{
    if len == 4 {
        u32::MAX
    } else if len == 3 {
        0xffffff
    } else if len == 2 {
        0xffff
    } else if len == 1 {
        0xff
    } else {
        0
    }
}

/// The masks covering 32-bit values for each of the four value-tags.
pub fn tag_mask_table32(tag_len: [usize; 4]) -> (r: [u32; 4])
    requires
        forall|k: int| 0 <= k < 4 ==> tag_len@[k] <= 4,
    ensures
        forall|k: int|
            0 <= k < 4 ==> r@[k] == crate::bytes::max_val32(tag_len@[k] as nat),
{
    [
        tag_mask32(tag_len[0]),
        tag_mask32(tag_len[1]),
        tag_mask32(tag_len[2]),
        tag_mask32(tag_len[3]),
    ]
}

/// The mask covering a 64-bit value stored in `len` bytes.
pub fn tag_mask64(len: usize) -> (r: u64)
    requires
        len <= 8,
    ensures
        r == crate::bytes::max_val64(len as nat),
{
    if len == 8 {
        u64::MAX
    } else if len == 7 {
        0xffffff_ffffffff
    } else if len == 6 {
        0xffff_ffffffff
    } else if len == 5 {
        0xff_ffffffff
    } else if len == 4 {
        0xffffffff
    } else if len == 3 {
        0xffffff
    } else if len == 2 {
        0xffff
    } else if len == 1 {
        0xff
    } else {
        0
    }
}

/// The masks covering 64-bit values for each of the four value-tags.
pub fn tag_mask_table64(tag_len: [usize; 4]) -> (r: [u64; 4])
    requires
        forall|k: int| 0 <= k < 4 ==> tag_len@[k] <= 8,
    ensures
        forall|k: int|
            0 <= k < 4 ==> r@[k] == crate::bytes::max_val64(tag_len@[k] as nat),
{
    [
        tag_mask64(tag_len[0]),
        tag_mask64(tag_len[1]),
        tag_mask64(tag_len[2]),
        tag_mask64(tag_len[3]),
    ]
}

} // verus!
