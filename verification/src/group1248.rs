//! Group-oriented handle for the `1248` layout, with the table builders
//! that accelerated decoders are built from.

use vstd::prelude::*;

use crate::coder1248::Coder1248;
use crate::coder1248::data_len_spec;
use crate::coder1248::dec_spec;
use crate::delta::deltas64;
use crate::coder1248::enc_data_spec;
use crate::coder1248::enc_tags_spec;
use crate::coder1248::lemma_voff4;
use crate::delta::psum_at64;
use crate::delta::psums64;
use crate::coder1248::total_data_len;
use crate::coder1248::value_tag;
use crate::coder1248::voff;
use crate::coder1248::vtag_len;
use crate::tag_utils::lemma_vt_bound;
use crate::tag_utils::vt;

verus! {

broadcast use vstd::array::group_array_axioms;

/// The value-tag the encoder assigns to `v`.
pub fn tag_value(v: u64) -> (t: u8)
    ensures
        t == value_tag(v),
{
    if v <= 0xff {
        0
    } else if v <= 0xffff {
        1
    } else if v <= 0xffffffff {
        2
    } else {
        3
    }
}

/// Groups-of-four codec over the `1248` layout. The same operations as
/// [`Coder1248`], under the group-oriented name.
#[derive(Clone, Copy)]
pub struct Group1248;

impl Group1248 {
    /// Creates a handle.
    pub fn new() -> Group1248 {
        Group1248
    }

    /// Tag and data buffer sizes sufficient to encode `len` values.
    pub fn max_compressed_bytes(len: usize) -> (r: (usize, usize))
        requires
            len + 3 <= usize::MAX,
            ((len + 3) / 4) * 32 <= usize::MAX,
        ensures
            r.0 == (len + 3) / 4,
            r.1 == 32 * ((len + 3) / 4),
    {
        Coder1248::max_compressed_bytes(len)
    }

    /// Encodes `values` into the tag and data streams; returns the data
    /// bytes written.
    pub fn encode(&self, values: &[u64], tags: &mut Vec<u8>, data: &mut Vec<u8>) -> (written:
        usize)
        requires
            values@.len() % 4 == 0,
            old(tags)@.len() >= values@.len() / 4,
            old(data)@.len() >= 8 * values@.len(),
        ensures
            final(tags)@.len() == old(tags)@.len(),
            final(data)@.len() == old(data)@.len(),
            written == total_data_len(enc_tags_spec(values@)),
            final(tags)@.subrange(0, values@.len() as int / 4) == enc_tags_spec(values@),
            final(data)@.subrange(0, written as int) == enc_data_spec(values@),
            forall|k: int|
                values@.len() as int / 4 <= k < final(tags)@.len() ==> final(tags)@[k] == old(
                    tags,
                )@[k],
            forall|k: int|
                written <= k < final(data)@.len() ==> final(data)@[k] == old(data)@[k],
    {
        Coder1248.encode(values, tags, data)
    }

    /// Encodes `values` as deltas against `initial`.
    pub fn encode_deltas(
        &self,
        initial: u64,
        values: &[u64],
        tags: &mut Vec<u8>,
        data: &mut Vec<u8>,
    ) -> (written: usize)
        requires
            values@.len() % 4 == 0,
            old(tags)@.len() >= values@.len() / 4,
            old(data)@.len() >= 8 * values@.len(),
        ensures
            final(tags)@.len() == old(tags)@.len(),
            final(data)@.len() == old(data)@.len(),
            written == total_data_len(enc_tags_spec(deltas64(initial, values@))),
            final(tags)@.subrange(0, values@.len() as int / 4) == enc_tags_spec(
                deltas64(initial, values@),
            ),
            final(data)@.subrange(0, written as int) == enc_data_spec(deltas64(initial, values@)),
            forall|k: int|
                values@.len() as int / 4 <= k < final(tags)@.len() ==> final(tags)@[k] == old(
                    tags,
                )@[k],
            forall|k: int|
                written <= k < final(data)@.len() ==> final(data)@[k] == old(data)@[k],
    {
        Coder1248.encode_deltas(initial, values, tags, data)
    }

    /// Decodes `tags.len()` groups into `values`; returns the data bytes
    /// consumed.
    pub fn decode(&self, tags: &[u8], data: &[u8], values: &mut Vec<u64>) -> (read: usize)
        requires
            old(values)@.len() == 4 * tags@.len(),
            total_data_len(tags@) <= data@.len(),
        ensures
            read == total_data_len(tags@),
            final(values)@.len() == old(values)@.len(),
            final(values)@ == dec_spec(tags@, data@),
    {
        Coder1248.decode(tags, data, values)
    }

    /// Decodes `tags.len()` groups of deltas, integrating from `initial`.
    pub fn decode_deltas(
        &self,
        initial: u64,
        tags: &[u8],
        data: &[u8],
        values: &mut Vec<u64>,
    ) -> (read: usize)
        requires
            old(values)@.len() == 4 * tags@.len(),
            total_data_len(tags@) <= data@.len(),
        ensures
            read == total_data_len(tags@),
            final(values)@.len() == old(values)@.len(),
            final(values)@ == psums64(initial, dec_spec(tags@, data@)),
    {
        Coder1248.decode_deltas(initial, tags, data, values)
    }

    /// Sums the payload lengths of every tag.
    pub fn data_len(&self, tags: &[u8]) -> (r: usize)
        requires
            total_data_len(tags@) <= usize::MAX,
        ensures
            r == total_data_len(tags@),
    {
        Coder1248.data_len(tags)
    }

    /// Skips `tags.len()` groups of deltas; returns the data bytes
    /// consumed and the wrapping sum of the skipped deltas.
    pub fn skip_deltas(&self, tags: &[u8], data: &[u8]) -> (r: (usize, u64))
        requires
            total_data_len(tags@) <= data@.len(),
        ensures
            r.0 == total_data_len(tags@),
            r.1 == psum_at64(0, dec_spec(tags@, data@), 4 * tags@.len() - 1),
    {
        Coder1248.skip_deltas(tags, data)
    }
}

/// Gathered (encode-side) shuffle entry: for each value `i` of the group,
/// the positions of its live bytes, packed back to back; unused entries
/// hold the fill byte 255, whose high bit makes a hardware byte shuffle
/// emit zero.
pub open spec fn encode_entry_ok(tag: u8, e: Seq<u8>) -> bool {
    &&& e.len() == 32
    &&& forall|i: int, j: int|
        0 <= i < 4 && 0 <= j < vtag_len(vt(tag, i)) ==> #[trigger] e[voff(tag, i) + j] == (8 * i
            + j) as u8
    &&& forall|j: int| data_len_spec(tag) <= j < 32 ==> e[j] == 255
}

/// Scattered (decode-side) shuffle entry: byte `j` of value `i` comes
/// from input position `voff(tag, i) + j`; bytes beyond the value's
/// width hold the fill byte 255.
pub open spec fn decode_entry_ok(tag: u8, e: Seq<u8>) -> bool {
    &&& e.len() == 32
    &&& forall|i: int, j: int|
        0 <= i < 4 && 0 <= j < 8 ==> #[trigger] e[8 * i + j] == if j < vtag_len(vt(tag, i)) {
            ((voff(tag, i) + j) as u8)
        } else {
            255u8
        }
}

/// Writes the encode-side shuffle bytes of value `i` at `oidx`, returning
/// the updated entry and the next write position.
pub fn fill_encode_shuffle(tag: u8, i: u8, shuf: [u8; 32], oidx: usize) -> (r: ([u8; 32], usize))
    requires
        i < 4,
        oidx + 8 <= 32,
    ensures
        r.1 == oidx + vtag_len(vt(tag, i as int)),
        forall|j: int|
            0 <= j < vtag_len(vt(tag, i as int)) ==> #[trigger] r.0@[oidx + j] == (8 * i
                + j) as u8,
        forall|j: int|
            0 <= j < 32 && !(oidx <= j < oidx + vtag_len(vt(tag, i as int))) ==> r.0@[j]
                == shuf@[j],
{
    let mut shuf = shuf;
    let vtag: u8 = if i == 0 {
        tag & 3
    } else if i == 1 {
        (tag >> 2) & 3
    } else if i == 2 {
        (tag >> 4) & 3
    } else {
        (tag >> 6) & 3
    };
    proof {
        lemma_vt_bound(tag);
        assert(vtag == vt(tag, i as int));
    }
    shuf[oidx] = i * 8;
    if vtag >= 1 {
        shuf[oidx + 1] = i * 8 + 1;
    }
    if vtag >= 2 {
        shuf[oidx + 2] = i * 8 + 2;
        shuf[oidx + 3] = i * 8 + 3;
    }
    if vtag >= 3 {
        shuf[oidx + 4] = i * 8 + 4;
        shuf[oidx + 5] = i * 8 + 5;
        shuf[oidx + 6] = i * 8 + 6;
        shuf[oidx + 7] = i * 8 + 7;
    }
    (shuf, oidx + crate::coder1248::vt_len(vtag))
}

/// The 256-entry encode-side shuffle table.
pub fn tag_encode_shuffle_table() -> (r: Vec<[u8; 32]>)
    ensures
        r@.len() == 256,
        forall|t: int| 0 <= t < 256 ==> encode_entry_ok(t as u8, #[trigger] r@[t]@),
{
    let mut table: Vec<[u8; 32]> = Vec::new();
    let mut t: usize = 0;
    while t < 256
        invariant
            t <= 256,
            table@.len() == t,
            forall|u: int| 0 <= u < t ==> encode_entry_ok(u as u8, #[trigger] table@[u]@),
        decreases 256 - t,
    {
        let tag: u8 = t as u8;
        proof {
            lemma_vt_bound(tag);
            lemma_voff4(tag);
        }
        let fill: [u8; 32] = vstd::array::array_fill_for_copy_types(255u8);
        let (e0, o1) = fill_encode_shuffle(tag, 0, fill, 0);
        let (e1, o2) = fill_encode_shuffle(tag, 1, e0, o1);
        let (e2, o3) = fill_encode_shuffle(tag, 2, e1, o2);
        let (shuf, o4) = fill_encode_shuffle(tag, 3, e2, o3);
        proof {
            assert(o1 == voff(tag, 1) && o2 == voff(tag, 2) && o3 == voff(tag, 3) && o4 == voff(
                tag,
                4,
            ));
            assert forall|i: int, j: int|
                0 <= i < 4 && 0 <= j < vtag_len(vt(tag, i)) implies #[trigger] shuf@[voff(tag, i)
                + j] == (8 * i + j) as u8 by {
                if i == 0 {
                    assert(e0@[voff(tag, 0) + j] == (8 * i + j) as u8);
                } else if i == 1 {
                    assert(e1@[voff(tag, 1) + j] == (8 * i + j) as u8);
                } else if i == 2 {
                    assert(e2@[voff(tag, 2) + j] == (8 * i + j) as u8);
                }
            }
            assert forall|j: int| data_len_spec(tag) <= j < 32 implies shuf@[j] == 255 by {
                assert(fill@[j] == 255);
                assert(e0@[j] == 255);
            }
            assert(encode_entry_ok(tag, shuf@));
        }
        table.push(shuf);
        t = t + 1;
    }
    table
}

/// Writes the decode-side shuffle bytes of value `i`, returning the
/// updated entry and the next input position.
pub fn fill_decode_shuffle(tag: u8, i: usize, shuf: [u8; 32], iidx: u8) -> (r: ([u8; 32], u8))
    requires
        i < 4,
        iidx as int + 8 <= 32,
    ensures
        r.1 == iidx + vtag_len(vt(tag, i as int)),
        forall|j: int|
            0 <= j < 8 ==> #[trigger] r.0@[8 * i + j] == if j < vtag_len(vt(tag, i as int)) {
                ((iidx + j) as u8)
            } else {
                shuf@[8 * i + j]
            },
        forall|j: int|
            0 <= j < 32 && !(8 * i <= j < 8 * i + 8) ==> r.0@[j] == shuf@[j],
{
    let mut shuf = shuf;
    let vtag: u8 = if i == 0 {
        tag & 3
    } else if i == 1 {
        (tag >> 2) & 3
    } else if i == 2 {
        (tag >> 4) & 3
    } else {
        (tag >> 6) & 3
    };
    proof {
        lemma_vt_bound(tag);
        assert(vtag == vt(tag, i as int));
    }
    shuf[8 * i] = iidx;
    if vtag >= 1 {
        shuf[8 * i + 1] = iidx + 1;
    }
    if vtag >= 2 {
        shuf[8 * i + 2] = iidx + 2;
        shuf[8 * i + 3] = iidx + 3;
    }
    if vtag >= 3 {
        shuf[8 * i + 4] = iidx + 4;
        shuf[8 * i + 5] = iidx + 5;
        shuf[8 * i + 6] = iidx + 6;
        shuf[8 * i + 7] = iidx + 7;
    }
    let step: u8 = if vtag == 0 {
        1
    } else if vtag == 1 {
        2
    } else if vtag == 2 {
        4
    } else {
        8
    };
    (shuf, iidx + step)
}

/// The 256-entry decode-side shuffle table.
pub fn tag_decode_shuffle_table() -> (r: Vec<[u8; 32]>)
    ensures
        r@.len() == 256,
        forall|t: int| 0 <= t < 256 ==> decode_entry_ok(t as u8, #[trigger] r@[t]@),
{
    let mut table: Vec<[u8; 32]> = Vec::new();
    let mut t: usize = 0;
    while t < 256
        invariant
            t <= 256,
            table@.len() == t,
            forall|u: int| 0 <= u < t ==> decode_entry_ok(u as u8, #[trigger] table@[u]@),
        decreases 256 - t,
    {
        let tag: u8 = t as u8;
        proof {
            lemma_vt_bound(tag);
            lemma_voff4(tag);
        }
        let fill: [u8; 32] = vstd::array::array_fill_for_copy_types(255u8);
        let (e0, o1) = fill_decode_shuffle(tag, 0, fill, 0);
        let (e1, o2) = fill_decode_shuffle(tag, 1, e0, o1);
        let (e2, o3) = fill_decode_shuffle(tag, 2, e1, o2);
        let (shuf, _o4) = fill_decode_shuffle(tag, 3, e2, o3);
        proof {
            assert(o1 == voff(tag, 1) && o2 == voff(tag, 2) && o3 == voff(tag, 3));
            assert forall|i: int, j: int| 0 <= i < 4 && 0 <= j < 8 implies #[trigger] shuf@[8 * i
                + j] == (if j < vtag_len(vt(tag, i)) {
                ((voff(tag, i) + j) as u8)
            } else {
                255u8
            }) by {
                if i == 0 {
                    assert(e0@[8 * i + j] == if j < vtag_len(vt(tag, 0)) {
                        ((0 + j) as u8)
                    } else {
                        255u8
                    });
                } else if i == 1 {
                    assert(e1@[8 * i + j] == if j < vtag_len(vt(tag, 1)) {
                        ((o1 + j) as u8)
                    } else {
                        e0@[8 * i + j]
                    });
                    assert(fill@[8 * i + j] == 255);
                    assert(e0@[8 * i + j] == 255);
                } else if i == 2 {
                    assert(e2@[8 * i + j] == if j < vtag_len(vt(tag, 2)) {
                        ((o2 + j) as u8)
                    } else {
                        e1@[8 * i + j]
                    });
                    assert(fill@[8 * i + j] == 255);
                    assert(e0@[8 * i + j] == 255);
                    assert(e1@[8 * i + j] == 255);
                } else {
                    assert(shuf@[8 * i + j] == if j < vtag_len(vt(tag, 3)) {
                        ((o3 + j) as u8)
                    } else {
                        e2@[8 * i + j]
                    });
                    assert(fill@[8 * i + j] == 255);
                    assert(e0@[8 * i + j] == 255);
                    assert(e1@[8 * i + j] == 255);
                    assert(e2@[8 * i + j] == 255);
                }
            }
            assert(decode_entry_ok(tag, shuf@));
        }
        table.push(shuf);
        t = t + 1;
    }
    table
}

} // verus!
