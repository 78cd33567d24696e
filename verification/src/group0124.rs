//! Group-oriented handle for the `0124` layout, with the packed-tag
//! offset helper that accelerated decoders are built from.

use vstd::prelude::*;

use crate::bytes::lemma_byte_mask64;
use crate::coder0124::Coder0124;
use crate::coder0124::data_len;
use crate::coder0124::data_len_spec;
use crate::coder0124::dec_spec;
use crate::delta::deltas32;
use crate::coder0124::dl_upto;
use crate::coder0124::enc_data_spec;
use crate::coder0124::enc_tags_spec;
use crate::coder0124::lemma_voff4;
use crate::delta::psum_at32;
use crate::delta::psums32;
use crate::coder0124::total_data_len;
use crate::tag_utils::lemma_pack8;
use crate::tag_utils::tag8_byte;
use crate::tag_utils::tag8_seq;

verus! {

/// The start offset of each of eight groups within their shared data
/// stream, one offset per byte of the returned word, and the total
/// payload length of all eight.
pub fn tag8_offsets(tag8: u64) -> (r: (u64, usize))
    ensures
        r.1 == total_data_len(tag8_seq(tag8)),
        forall|k: int| 0 <= k < 8 ==> tag8_byte(r.0, k) as int == dl_upto(tag8_seq(tag8), k),
{
    let ghost t8 = tag8_seq(tag8);
    proof {
        lemma_byte_mask64(tag8 >> 0u32);
        lemma_byte_mask64(tag8 >> 8u32);
        lemma_byte_mask64(tag8 >> 16u32);
        lemma_byte_mask64(tag8 >> 24u32);
        lemma_byte_mask64(tag8 >> 32u32);
        lemma_byte_mask64(tag8 >> 40u32);
        lemma_byte_mask64(tag8 >> 48u32);
        lemma_byte_mask64(tag8 >> 56u32);
        lemma_voff4(t8[0]);
        lemma_voff4(t8[1]);
        lemma_voff4(t8[2]);
        lemma_voff4(t8[3]);
        lemma_voff4(t8[4]);
        lemma_voff4(t8[5]);
        lemma_voff4(t8[6]);
        lemma_voff4(t8[7]);
    }
    let l0 = data_len(((tag8 >> 0u32) & 0xff) as u8);
    let l1 = data_len(((tag8 >> 8u32) & 0xff) as u8);
    let l2 = data_len(((tag8 >> 16u32) & 0xff) as u8);
    let l3 = data_len(((tag8 >> 24u32) & 0xff) as u8);
    let l4 = data_len(((tag8 >> 32u32) & 0xff) as u8);
    let l5 = data_len(((tag8 >> 40u32) & 0xff) as u8);
    let l6 = data_len(((tag8 >> 48u32) & 0xff) as u8);
    let l7 = data_len(((tag8 >> 56u32) & 0xff) as u8);
    let s1: usize = l0;
    let s2: usize = s1 + l1;
    let s3: usize = s2 + l2;
    let s4: usize = s3 + l3;
    let s5: usize = s4 + l4;
    let s6: usize = s5 + l5;
    let s7: usize = s6 + l6;
    let total: usize = s7 + l7;
    let offsets: u64 = ((s1 as u64) << 8) | ((s2 as u64) << 16) | ((s3 as u64) << 24) | ((
    s4 as u64) << 32) | ((s5 as u64) << 40) | ((s6 as u64) << 48) | ((s7 as u64) << 56);
    proof {
        lemma_pack8(s1 as u64, s2 as u64, s3 as u64, s4 as u64, s5 as u64, s6 as u64,
            s7 as u64);
        assert(dl_upto(t8, 0) == 0);
        assert(dl_upto(t8, 1) == dl_upto(t8, 0) + data_len_spec(t8[0]));
        assert(dl_upto(t8, 2) == dl_upto(t8, 1) + data_len_spec(t8[1]));
        assert(dl_upto(t8, 3) == dl_upto(t8, 2) + data_len_spec(t8[2]));
        assert(dl_upto(t8, 4) == dl_upto(t8, 3) + data_len_spec(t8[3]));
        assert(dl_upto(t8, 5) == dl_upto(t8, 4) + data_len_spec(t8[4]));
        assert(dl_upto(t8, 6) == dl_upto(t8, 5) + data_len_spec(t8[5]));
        assert(dl_upto(t8, 7) == dl_upto(t8, 6) + data_len_spec(t8[6]));
        assert(dl_upto(t8, 8) == dl_upto(t8, 7) + data_len_spec(t8[7]));
    }
    (offsets, total)
}

/// Groups-of-four codec over the `0124` layout. The same operations as
/// [`Coder0124`], under the group-oriented name.
#[derive(Clone, Copy)]
pub struct Group0124;

impl Group0124 {
    /// Creates a handle.
    pub fn new() -> Group0124 {
        Group0124
    }

    /// Tag and data buffer sizes sufficient to encode `len` values.
    pub fn max_compressed_bytes(len: usize) -> (r: (usize, usize))
        requires
            len + 3 <= usize::MAX,
            ((len + 3) / 4) * 16 <= usize::MAX,
        ensures
            r.0 == (len + 3) / 4,
            r.1 == 16 * ((len + 3) / 4),
    {
        Coder0124::max_compressed_bytes(len)
    }

    /// Encodes `values` into the tag and data streams; returns the data
    /// bytes written.
    pub fn encode(&self, values: &[u32], tags: &mut Vec<u8>, data: &mut Vec<u8>) -> (written:
        usize)
        requires
            values@.len() % 4 == 0,
            old(tags)@.len() >= values@.len() / 4,
            old(data)@.len() >= 4 * values@.len(),
        ensures
            final(tags)@.len() == old(tags)@.len(),
            final(data)@.len() == old(data)@.len(),
            written == total_data_len(enc_tags_spec(values@)),
            final(tags)@.subrange(0, values@.len() as int / 4) == enc_tags_spec(values@),
            final(data)@.subrange(0, written as int) == enc_data_spec(values@),
            forall|k: int|
                values@.len() as int / 4 <= k < final(tags)@.len() ==> final(tags)@[k] == old(
                    tags,
                )@[k],
            forall|k: int|
                written <= k < final(data)@.len() ==> final(data)@[k] == old(data)@[k],
    {
        Coder0124.encode(values, tags, data)
    }

    /// Encodes `values` as deltas against `initial`.
    pub fn encode_deltas(
        &self,
        initial: u32,
        values: &[u32],
        tags: &mut Vec<u8>,
        data: &mut Vec<u8>,
    ) -> (written: usize)
        requires
            values@.len() % 4 == 0,
            old(tags)@.len() >= values@.len() / 4,
            old(data)@.len() >= 4 * values@.len(),
        ensures
            final(tags)@.len() == old(tags)@.len(),
            final(data)@.len() == old(data)@.len(),
            written == total_data_len(enc_tags_spec(deltas32(initial, values@))),
            final(tags)@.subrange(0, values@.len() as int / 4) == enc_tags_spec(
                deltas32(initial, values@),
            ),
            final(data)@.subrange(0, written as int) == enc_data_spec(deltas32(initial, values@)),
            forall|k: int|
                values@.len() as int / 4 <= k < final(tags)@.len() ==> final(tags)@[k] == old(
                    tags,
                )@[k],
            forall|k: int|
                written <= k < final(data)@.len() ==> final(data)@[k] == old(data)@[k],
    {
        Coder0124.encode_deltas(initial, values, tags, data)
    }

    /// Decodes `tags.len()` groups into `values`; returns the data bytes
    /// consumed.
    pub fn decode(&self, tags: &[u8], data: &[u8], values: &mut Vec<u32>) -> (read: usize)
        requires
            old(values)@.len() == 4 * tags@.len(),
            total_data_len(tags@) <= data@.len(),
        ensures
            read == total_data_len(tags@),
            final(values)@.len() == old(values)@.len(),
            final(values)@ == dec_spec(tags@, data@),
    {
        Coder0124.decode(tags, data, values)
    }

    /// Decodes `tags.len()` groups of deltas, integrating from `initial`.
    pub fn decode_deltas(
        &self,
        initial: u32,
        tags: &[u8],
        data: &[u8],
        values: &mut Vec<u32>,
    ) -> (read: usize)
        requires
            old(values)@.len() == 4 * tags@.len(),
            total_data_len(tags@) <= data@.len(),
        ensures
            read == total_data_len(tags@),
            final(values)@.len() == old(values)@.len(),
            final(values)@ == psums32(initial, dec_spec(tags@, data@)),
    {
        Coder0124.decode_deltas(initial, tags, data, values)
    }

    /// Sums the payload lengths of every tag.
    pub fn data_len(&self, tags: &[u8]) -> (r: usize)
        requires
            total_data_len(tags@) <= usize::MAX,
        ensures
            r == total_data_len(tags@),
    {
        Coder0124.data_len(tags)
    }

    /// Skips `tags.len()` groups of deltas; returns the data bytes
    /// consumed and the wrapping sum of the skipped deltas.
    pub fn skip_deltas(&self, tags: &[u8], data: &[u8]) -> (r: (usize, u32))
        requires
            total_data_len(tags@) <= data@.len(),
        ensures
            r.0 == total_data_len(tags@),
            r.1 == psum_at32(0, dec_spec(tags@, data@), 4 * tags@.len() - 1),
    {
        Coder0124.skip_deltas(tags, data)
    }
}

} // verus!
