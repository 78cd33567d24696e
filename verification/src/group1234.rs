//! Group-oriented handle for the `1234` layout, with the table builders
//! and packed-tag helpers that accelerated decoders are built from.

use vstd::prelude::*;

use crate::bytes::lemma_byte_mask64;
use crate::coder1234::Coder1234;
use crate::coder1234::data_len;
use crate::coder1234::data_len_spec;
use crate::coder1234::dec_spec;
use crate::coder1234::dl_upto;
use crate::coder1234::enc_data_spec;
use crate::coder1234::enc_tags_spec;
use crate::coder1234::lemma_voff4;
use crate::coder1234::total_data_len;
use crate::coder1234::value_tag;
use crate::coder1234::voff;
use crate::coder1234::vtag_len;
use crate::delta::deltas32;
use crate::delta::psum_at32;
use crate::delta::psums32;
use crate::tag_utils::lemma_vt_bound;
use crate::tag_utils::tag8_byte;
use crate::tag_utils::tag8_seq;
use crate::tag_utils::vt;

verus! {

broadcast use vstd::array::group_array_axioms;

/// The value-tag the encoder assigns to `v`.
pub fn tag_value(v: u32) -> (t: u8)
    ensures
        t == value_tag(v),
{
    if v <= 0xff {
        0
    } else if v <= 0xffff {
        1
    } else if v <= 0xffffff {
        2
    } else {
        3
    }
}

/// Per-byte 2-bit field sums of the packed tag word: byte lane `k` holds
/// the sum of the four 2-bit value-tags of tag `k`.
pub open spec fn swar_pair_sums(tag8: u64) -> u64 {
    ((((tag8 >> 2) & 0x3333333333333333) + (tag8 & 0x3333333333333333)) as u64)
}

/// Byte lane `k` holds the payload length of tag `k`: its 2-bit field sum
/// plus four, one byte per value.
pub open spec fn swar_lengths(tag8: u64) -> u64 {
    (((((swar_pair_sums(tag8) >> 4) & 0x0f0f0f0f0f0f0f0f) + (swar_pair_sums(tag8)
        & 0x0f0f0f0f0f0f0f0f)) as u64 + 0x0404040404040404) as u64)
}

/// One doubling step of the byte-lane prefix sum.
pub open spec fn swar_step(x: u64, sh: u64) -> u64 {
    ((x + (x << sh)) as u64)
}

/// Byte lane `k` holds the summed payload lengths of tags `0..=k`: a
/// log-step prefix sum across the byte lanes.
pub open spec fn swar_prefix(tag8: u64) -> u64 {
    swar_step(swar_step(swar_step(swar_lengths(tag8), 8), 16), 32)
}

/// The summed payload lengths of the first `k` of eight packed tags,
/// read off the packed word's bits.
pub open spec fn swar_total(tag8: u64, k: u64) -> u64
    decreases k,
{
    if k == 0 || k > 8 {
        0
    } else {
        ((swar_total(tag8, (k - 1) as u64) + (((tag8 >> (8 * (k - 1))) & 3) + ((tag8 >> (8 * (k
            - 1) + 2)) & 3) + ((tag8 >> (8 * (k - 1) + 4)) & 3) + ((tag8 >> (8 * (k - 1) + 6))
            & 3) + 4)) as u64)
    }
}

/// The byte-lane prefix sums' top lane holds the total length of all
/// eight tags.
#[verifier::rlimit(100)]
proof fn lemma_swar_offsets_total(tag8: u64)
    by (bit_vector)
    ensures
        (swar_prefix(tag8) >> 56) & 0xff == swar_total(tag8, 8),
{
}

/// The byte-lane prefix sums, shifted up one lane, hold the start
/// offsets of the first four tags.
#[verifier::rlimit(100)]
proof fn lemma_swar_offsets_low(tag8: u64)
    by (bit_vector)
    ensures
        ((swar_prefix(tag8) << 8) >> 0) & 0xff == 0,
        ((swar_prefix(tag8) << 8) >> 8) & 0xff == swar_total(tag8, 1),
        ((swar_prefix(tag8) << 8) >> 16) & 0xff == swar_total(tag8, 2),
        ((swar_prefix(tag8) << 8) >> 24) & 0xff == swar_total(tag8, 3),
{
}

/// Byte lane four of the shifted prefix sums holds the fifth tag's
/// start offset.
#[verifier::rlimit(100)]
proof fn lemma_swar_offsets_4(tag8: u64)
    by (bit_vector)
    ensures
        ((swar_prefix(tag8) << 8) >> 32) & 0xff == swar_total(tag8, 4),
{
}

/// Byte lane five of the shifted prefix sums holds the sixth tag's
/// start offset.
#[verifier::rlimit(100)]
proof fn lemma_swar_offsets_5(tag8: u64)
    by (bit_vector)
    ensures
        ((swar_prefix(tag8) << 8) >> 40) & 0xff == swar_total(tag8, 5),
{
}

/// Byte lane six of the shifted prefix sums holds the seventh tag's
/// start offset.
#[verifier::rlimit(100)]
proof fn lemma_swar_offsets_6(tag8: u64)
    by (bit_vector)
    ensures
        ((swar_prefix(tag8) << 8) >> 48) & 0xff == swar_total(tag8, 6),
{
}

/// Byte lane seven of the shifted prefix sums holds the eighth tag's
/// start offset.
#[verifier::rlimit(100)]
proof fn lemma_swar_offsets_7(tag8: u64)
    by (bit_vector)
    ensures
        ((swar_prefix(tag8) << 8) >> 56) & 0xff == swar_total(tag8, 7),
{
}

/// A wrapping sum equals the truncated mathematical sum.
proof fn lemma_wadd_trunc(x: u64, y: u64)
    by (bit_vector)
    ensures
        vstd::wrapping::u64_specs::wrapping_add(x, y) == ((x + y) as u64),
{
}

/// The four 2-bit fields of a byte extracted from a packed word match the
/// fields extracted from the word directly.
proof fn lemma_byte_fields(x: u64, s: u64)
    by (bit_vector)
    requires
        s <= 56,
    ensures
        ((((x >> s) & 0xff) as u8) & 3) == ((x >> s) & 3) as u8,
        ((((x >> s) & 0xff) as u8) >> 2) & 3 == ((x >> ((s + 2) as u64)) & 3) as u8,
        ((((x >> s) & 0xff) as u8) >> 4) & 3 == ((x >> ((s + 4) as u64)) & 3) as u8,
        ((((x >> s) & 0xff) as u8) >> 6) & 3 == ((x >> ((s + 6) as u64)) & 3) as u8,
        (x >> s) & 3 < 4,
        (x >> ((s + 2) as u64)) & 3 < 4,
        (x >> ((s + 4) as u64)) & 3 < 4,
        (x >> ((s + 6) as u64)) & 3 < 4,
{
}

/// The start offset of each of eight groups within their shared data
/// stream, one offset per byte of the returned word, and the total
/// payload length of all eight.
pub fn tag8_offsets(tag8: u64) -> (r: (u64, usize))
    ensures
        r.1 == total_data_len(tag8_seq(tag8)),
        forall|k: int| 0 <= k < 8 ==> tag8_byte(r.0, k) as int == dl_upto(tag8_seq(tag8), k),
{
    let ghost t8 = tag8_seq(tag8);
    let m2: u64 = 0x3333333333333333;
    let m4: u64 = 0x0f0f0f0f0f0f0f0f;
    let mut lengths8: u64 = ((tag8 >> 2) & m2).wrapping_add(tag8 & m2);
    lengths8 = ((lengths8 >> 4) & m4).wrapping_add(lengths8 & m4);
    lengths8 = lengths8.wrapping_add(0x0404040404040404);
    let mut offsets8: u64 = lengths8.wrapping_add(lengths8 << 8);
    offsets8 = offsets8.wrapping_add(offsets8 << 16);
    offsets8 = offsets8.wrapping_add(offsets8 << 32);
    let total64: u64 = (offsets8 >> 56) & 0xff;
    proof {
        lemma_wadd_trunc((tag8 >> 2) & m2, tag8 & m2);
        lemma_wadd_trunc((swar_pair_sums(tag8) >> 4) & m4, swar_pair_sums(tag8) & m4);
        lemma_wadd_trunc(
            ((((swar_pair_sums(tag8) >> 4) & m4) + (swar_pair_sums(tag8) & m4)) as u64),
            0x0404040404040404,
        );
        assert(swar_lengths(tag8) == lengths8);
        lemma_wadd_trunc(swar_lengths(tag8), swar_lengths(tag8) << 8);
        lemma_wadd_trunc(swar_step(swar_lengths(tag8), 8), swar_step(swar_lengths(tag8), 8) << 16);
        lemma_wadd_trunc(
            swar_step(swar_step(swar_lengths(tag8), 8), 16),
            swar_step(swar_step(swar_lengths(tag8), 8), 16) << 32,
        );
        assert(offsets8 == swar_prefix(tag8));
        lemma_swar_offsets_low(tag8);
        lemma_swar_offsets_4(tag8);
        lemma_swar_offsets_5(tag8);
        lemma_swar_offsets_6(tag8);
        lemma_swar_offsets_7(tag8);
        lemma_swar_offsets_total(tag8);
        lemma_byte_fields(tag8, 0);
        lemma_byte_fields(tag8, 8);
        lemma_byte_fields(tag8, 16);
        lemma_byte_fields(tag8, 24);
        lemma_byte_fields(tag8, 32);
        lemma_byte_fields(tag8, 40);
        lemma_byte_fields(tag8, 48);
        lemma_byte_fields(tag8, 56);
        lemma_byte_mask64(offsets8 >> 56);
        assert(dl_upto(t8, 0) == 0);
        assert(dl_upto(t8, 1) == dl_upto(t8, 0) + data_len_spec(t8[0]));
        assert(dl_upto(t8, 2) == dl_upto(t8, 1) + data_len_spec(t8[1]));
        assert(dl_upto(t8, 3) == dl_upto(t8, 2) + data_len_spec(t8[2]));
        assert(dl_upto(t8, 4) == dl_upto(t8, 3) + data_len_spec(t8[3]));
        assert(dl_upto(t8, 5) == dl_upto(t8, 4) + data_len_spec(t8[4]));
        assert(dl_upto(t8, 6) == dl_upto(t8, 5) + data_len_spec(t8[5]));
        assert(dl_upto(t8, 7) == dl_upto(t8, 6) + data_len_spec(t8[6]));
        assert(dl_upto(t8, 8) == dl_upto(t8, 7) + data_len_spec(t8[7]));
        assert(swar_total(tag8, 0) == 0);
        assert(swar_total(tag8, 1) == dl_upto(t8, 1));
        assert(swar_total(tag8, 2) == dl_upto(t8, 2));
        assert(swar_total(tag8, 3) == dl_upto(t8, 3));
        assert(swar_total(tag8, 4) == dl_upto(t8, 4));
        assert(swar_total(tag8, 5) == dl_upto(t8, 5));
        assert(swar_total(tag8, 6) == dl_upto(t8, 6));
        assert(swar_total(tag8, 7) == dl_upto(t8, 7));
        assert(swar_total(tag8, 8) == dl_upto(t8, 8));
        assert forall|k: int|
            0 <= k < 8 implies tag8_byte(offsets8 << 8, k) as int == dl_upto(t8, k) by {}
    }
    (offsets8 << 8, total64 as usize)
}

/// Groups-of-four codec over the `1234` layout. The same operations as
/// [`Coder1234`], under the group-oriented name.
#[derive(Clone, Copy)]
pub struct Group1234;

impl Group1234 {
    /// The portable implementation, which every handle uses.
    pub fn scalar_impl() -> Group1234 {
        Group1234
    }

    /// Creates a handle.
    pub fn new() -> Group1234 {
        Group1234
    }

    /// Tag and data buffer sizes sufficient to encode `len` values.
    pub fn max_compressed_bytes(len: usize) -> (r: (usize, usize))
        requires
            len + 3 <= usize::MAX,
            ((len + 3) / 4) * 16 <= usize::MAX,
        ensures
            r.0 == (len + 3) / 4,
            r.1 == 16 * ((len + 3) / 4),
    {
        Coder1234::max_compressed_bytes(len)
    }

    /// Encodes `values` into the tag and data streams; returns the data
    /// bytes written.
    pub fn encode(&self, values: &[u32], tags: &mut Vec<u8>, data: &mut Vec<u8>) -> (written:
        usize)
        requires
            values@.len() % 4 == 0,
            old(tags)@.len() >= values@.len() / 4,
            old(data)@.len() >= 4 * values@.len(),
        ensures
            final(tags)@.len() == old(tags)@.len(),
            final(data)@.len() == old(data)@.len(),
            written == total_data_len(enc_tags_spec(values@)),
            final(tags)@.subrange(0, values@.len() as int / 4) == enc_tags_spec(values@),
            final(data)@.subrange(0, written as int) == enc_data_spec(values@),
            forall|k: int|
                values@.len() as int / 4 <= k < final(tags)@.len() ==> final(tags)@[k] == old(
                    tags,
                )@[k],
            forall|k: int|
                written <= k < final(data)@.len() ==> final(data)@[k] == old(data)@[k],
    {
        Coder1234.encode(values, tags, data)
    }

    /// Encodes `values` as deltas against `initial`.
    pub fn encode_deltas(
        &self,
        initial: u32,
        values: &[u32],
        tags: &mut Vec<u8>,
        data: &mut Vec<u8>,
    ) -> (written: usize)
        requires
            values@.len() % 4 == 0,
            old(tags)@.len() >= values@.len() / 4,
            old(data)@.len() >= 4 * values@.len(),
        ensures
            final(tags)@.len() == old(tags)@.len(),
            final(data)@.len() == old(data)@.len(),
            written == total_data_len(enc_tags_spec(deltas32(initial, values@))),
            final(tags)@.subrange(0, values@.len() as int / 4) == enc_tags_spec(
                deltas32(initial, values@),
            ),
            final(data)@.subrange(0, written as int) == enc_data_spec(deltas32(initial, values@)),
            forall|k: int|
                values@.len() as int / 4 <= k < final(tags)@.len() ==> final(tags)@[k] == old(
                    tags,
                )@[k],
            forall|k: int|
                written <= k < final(data)@.len() ==> final(data)@[k] == old(data)@[k],
    {
        Coder1234.encode_deltas(initial, values, tags, data)
    }

    /// Decodes `tags.len()` groups into `values`; returns the data bytes
    /// consumed.
    pub fn decode(&self, tags: &[u8], data: &[u8], values: &mut Vec<u32>) -> (read: usize)
        requires
            old(values)@.len() == 4 * tags@.len(),
            total_data_len(tags@) <= data@.len(),
        ensures
            read == total_data_len(tags@),
            final(values)@.len() == old(values)@.len(),
            final(values)@ == dec_spec(tags@, data@),
    {
        Coder1234.decode(tags, data, values)
    }

    /// Decodes `tags.len()` groups of deltas, integrating from `initial`.
    pub fn decode_deltas(
        &self,
        initial: u32,
        tags: &[u8],
        data: &[u8],
        values: &mut Vec<u32>,
    ) -> (read: usize)
        requires
            old(values)@.len() == 4 * tags@.len(),
            total_data_len(tags@) <= data@.len(),
        ensures
            read == total_data_len(tags@),
            final(values)@.len() == old(values)@.len(),
            final(values)@ == psums32(initial, dec_spec(tags@, data@)),
    {
        Coder1234.decode_deltas(initial, tags, data, values)
    }

    /// Sums the payload lengths of every tag.
    pub fn data_len(&self, tags: &[u8]) -> (r: usize)
        requires
            total_data_len(tags@) <= usize::MAX,
        ensures
            r == total_data_len(tags@),
    {
        Coder1234.data_len(tags)
    }

    /// Skips `tags.len()` groups of deltas; returns the data bytes
    /// consumed and the wrapping sum of the skipped deltas.
    pub fn skip_deltas(&self, tags: &[u8], data: &[u8]) -> (r: (usize, u32))
        requires
            total_data_len(tags@) <= data@.len(),
        ensures
            r.0 == total_data_len(tags@),
            r.1 == psum_at32(0, dec_spec(tags@, data@), 4 * tags@.len() - 1),
    {
        Coder1234.skip_deltas(tags, data)
    }
}

/// Gathered (encode-side) shuffle entry: for each value `i` of the group,
/// the positions of its live bytes, packed back to back; unused entries
/// hold the fill byte 255, whose high bit makes a hardware byte shuffle
/// emit zero.
pub open spec fn encode_entry_ok(tag: u8, e: Seq<u8>) -> bool {
    &&& e.len() == 16
    &&& forall|i: int, j: int|
        0 <= i < 4 && 0 <= j < vtag_len(vt(tag, i)) ==> #[trigger] e[voff(tag, i) + j] == (4 * i
            + j) as u8
    &&& forall|j: int| data_len_spec(tag) <= j < 16 ==> e[j] == 255
}

/// Scattered (decode-side) shuffle entry: byte `j` of value `i` comes
/// from input position `voff(tag, i) + j`; bytes beyond the value's
/// width hold the fill byte 255.
pub open spec fn decode_entry_ok(tag: u8, e: Seq<u8>) -> bool {
    &&& e.len() == 16
    &&& forall|i: int, j: int|
        0 <= i < 4 && 0 <= j < 4 ==> #[trigger] e[4 * i + j] == if j < vtag_len(vt(tag, i)) {
            ((voff(tag, i) + j) as u8)
        } else {
            255u8
        }
}

/// Writes the encode-side shuffle bytes of value `i` at `oidx`, returning
/// the updated entry and the next write position.
pub fn fill_encode_shuffle(tag: u8, i: u8, shuf: [u8; 16], oidx: usize) -> (r: ([u8; 16], usize))
    requires
        i < 4,
        oidx + 4 <= 16,
    ensures
        r.1 == oidx + vtag_len(vt(tag, i as int)),
        forall|j: int|
            0 <= j < vtag_len(vt(tag, i as int)) ==> #[trigger] r.0@[oidx + j] == (4 * i
                + j) as u8,
        forall|j: int|
            0 <= j < 16 && !(oidx <= j < oidx + vtag_len(vt(tag, i as int))) ==> r.0@[j]
                == shuf@[j],
{
    let mut shuf = shuf;
    let vtag: u8 = if i == 0 {
        tag & 3
    } else if i == 1 {
        (tag >> 2) & 3
    } else if i == 2 {
        (tag >> 4) & 3
    } else {
        (tag >> 6) & 3
    };
    proof {
        lemma_vt_bound(tag);
        assert(vtag == vt(tag, i as int));
    }
    shuf[oidx] = i * 4;
    if vtag >= 1 {
        shuf[oidx + 1] = i * 4 + 1;
    }
    if vtag >= 2 {
        shuf[oidx + 2] = i * 4 + 2;
    }
    if vtag >= 3 {
        shuf[oidx + 3] = i * 4 + 3;
    }
    (shuf, oidx + (vtag as usize) + 1)
}

/// The 256-entry encode-side shuffle table.
pub fn tag_encode_shuffle_table() -> (r: Vec<[u8; 16]>)
    ensures
        r@.len() == 256,
        forall|t: int| 0 <= t < 256 ==> encode_entry_ok(t as u8, #[trigger] r@[t]@),
{
    let mut table: Vec<[u8; 16]> = Vec::new();
    let mut t: usize = 0;
    while t < 256
        invariant
            t <= 256,
            table@.len() == t,
            forall|u: int| 0 <= u < t ==> encode_entry_ok(u as u8, #[trigger] table@[u]@),
        decreases 256 - t,
    {
        let tag: u8 = t as u8;
        proof {
            lemma_vt_bound(tag);
            lemma_voff4(tag);
        }
        let fill: [u8; 16] = vstd::array::array_fill_for_copy_types(255u8);
        let (e0, o1) = fill_encode_shuffle(tag, 0, fill, 0);
        let (e1, o2) = fill_encode_shuffle(tag, 1, e0, o1);
        let (e2, o3) = fill_encode_shuffle(tag, 2, e1, o2);
        let (shuf, o4) = fill_encode_shuffle(tag, 3, e2, o3);
        proof {
            assert(o1 == voff(tag, 1) && o2 == voff(tag, 2) && o3 == voff(tag, 3) && o4 == voff(
                tag,
                4,
            ));
            assert forall|i: int, j: int|
                0 <= i < 4 && 0 <= j < vtag_len(vt(tag, i)) implies #[trigger] shuf@[voff(tag, i)
                + j] == (4 * i + j) as u8 by {
                if i == 0 {
                    assert(e0@[voff(tag, 0) + j] == (4 * i + j) as u8);
                } else if i == 1 {
                    assert(e1@[voff(tag, 1) + j] == (4 * i + j) as u8);
                } else if i == 2 {
                    assert(e2@[voff(tag, 2) + j] == (4 * i + j) as u8);
                }
            }
            assert forall|j: int| data_len_spec(tag) <= j < 16 implies shuf@[j] == 255 by {
                assert(fill@[j] == 255);
                assert(e0@[j] == 255);
            }
            assert(encode_entry_ok(tag, shuf@));
        }
        table.push(shuf);
        t = t + 1;
    }
    table
}

/// Writes the decode-side shuffle bytes of value `i`, returning the
/// updated entry and the next input position.
pub fn fill_decode_shuffle(tag: u8, i: usize, shuf: [u8; 16], iidx: u8) -> (r: ([u8; 16], u8))
    requires
        i < 4,
        iidx as int + 4 <= 16,
    ensures
        r.1 == iidx + vtag_len(vt(tag, i as int)),
        forall|j: int|
            0 <= j < 4 ==> #[trigger] r.0@[4 * i + j] == if j < vtag_len(vt(tag, i as int)) {
                ((iidx + j) as u8)
            } else {
                shuf@[4 * i + j]
            },
        forall|j: int|
            0 <= j < 16 && !(4 * i <= j < 4 * i + 4) ==> r.0@[j] == shuf@[j],
{
    let mut shuf = shuf;
    let vtag: u8 = if i == 0 {
        tag & 3
    } else if i == 1 {
        (tag >> 2) & 3
    } else if i == 2 {
        (tag >> 4) & 3
    } else {
        (tag >> 6) & 3
    };
    proof {
        lemma_vt_bound(tag);
        assert(vtag == vt(tag, i as int));
    }
    shuf[4 * i] = iidx;
    if vtag >= 1 {
        shuf[4 * i + 1] = iidx + 1;
    }
    if vtag >= 2 {
        shuf[4 * i + 2] = iidx + 2;
    }
    if vtag >= 3 {
        shuf[4 * i + 3] = iidx + 3;
    }
    (shuf, iidx + vtag + 1)
}

/// The 256-entry decode-side shuffle table.
pub fn tag_decode_shuffle_table() -> (r: Vec<[u8; 16]>)
    ensures
        r@.len() == 256,
        forall|t: int| 0 <= t < 256 ==> decode_entry_ok(t as u8, #[trigger] r@[t]@),
{
    let mut table: Vec<[u8; 16]> = Vec::new();
    let mut t: usize = 0;
    while t < 256
        invariant
            t <= 256,
            table@.len() == t,
            forall|u: int| 0 <= u < t ==> decode_entry_ok(u as u8, #[trigger] table@[u]@),
        decreases 256 - t,
    {
        let tag: u8 = t as u8;
        proof {
            lemma_vt_bound(tag);
            lemma_voff4(tag);
        }
        let fill: [u8; 16] = vstd::array::array_fill_for_copy_types(255u8);
        let (e0, o1) = fill_decode_shuffle(tag, 0, fill, 0);
        let (e1, o2) = fill_decode_shuffle(tag, 1, e0, o1);
        let (e2, o3) = fill_decode_shuffle(tag, 2, e1, o2);
        let (shuf, _o4) = fill_decode_shuffle(tag, 3, e2, o3);
        proof {
            assert(o1 == voff(tag, 1) && o2 == voff(tag, 2) && o3 == voff(tag, 3));
            assert forall|i: int, j: int| 0 <= i < 4 && 0 <= j < 4 implies #[trigger] shuf@[4 * i
                + j] == (if j < vtag_len(vt(tag, i)) {
                ((voff(tag, i) + j) as u8)
            } else {
                255u8
            }) by {
                if i == 0 {
                    assert(e0@[4 * i + j] == if j < vtag_len(vt(tag, 0)) {
                        ((0 + j) as u8)
                    } else {
                        255u8
                    });
                } else if i == 1 {
                    assert(e1@[4 * i + j] == if j < vtag_len(vt(tag, 1)) {
                        ((o1 + j) as u8)
                    } else {
                        e0@[4 * i + j]
                    });
                    assert(fill@[4 * i + j] == 255);
                    assert(e0@[4 * i + j] == 255);
                } else if i == 2 {
                    assert(e2@[4 * i + j] == if j < vtag_len(vt(tag, 2)) {
                        ((o2 + j) as u8)
                    } else {
                        e1@[4 * i + j]
                    });
                    assert(fill@[4 * i + j] == 255);
                    assert(e0@[4 * i + j] == 255);
                    assert(e1@[4 * i + j] == 255);
                } else {
                    assert(shuf@[4 * i + j] == if j < vtag_len(vt(tag, 3)) {
                        ((o3 + j) as u8)
                    } else {
                        e2@[4 * i + j]
                    });
                    assert(fill@[4 * i + j] == 255);
                    assert(e0@[4 * i + j] == 255);
                    assert(e1@[4 * i + j] == 255);
                    assert(e2@[4 * i + j] == 255);
                }
            }
            assert(decode_entry_ok(tag, shuf@));
        }
        table.push(shuf);
        t = t + 1;
    }
    table
}

} // verus!
