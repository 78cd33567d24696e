//! The `0124` parameterization: 32-bit values stored in 0, 1, 2 or 4 bytes.
//!
//! A value-tag of zero means the value is literally zero and occupies no
//! payload bytes.

use vstd::prelude::*;

use crate::bytes::le_bytes32;
use crate::bytes::le_val32;
use crate::bytes::lemma_le_roundtrip32;
use crate::bytes::max_val32;
use crate::bytes::read_le32;
use crate::bytes::write_le32;
use crate::delta::deltas32;
use crate::delta::lemma_psum_deltas32;
use crate::delta::lemma_sum_deltas32;
use crate::delta::psum_at32;
use crate::delta::psums32;
use crate::delta::wadd32;
use crate::delta::wsub32;
use crate::bytes::lemma_byte_mask64;
use crate::tag_utils::lemma_vt_bound;
use crate::tag_utils::lemma_vt_pack;
use crate::tag_utils::tag8_byte;
use crate::tag_utils::tag8_seq;
use crate::tag_utils::vt;

verus! {

/// The byte length selected by a 2-bit value-tag.
pub open spec fn vtag_len(t: u8) -> nat {
    if t == 0 {
        0
    } else if t == 1 {
        1
    } else if t == 2 {
        2
    } else {
        4
    }
}

/// The byte length selected by a 2-bit value-tag.
pub fn vt_len(t: u8) -> (r: usize)
    requires
        t < 4,
    ensures
        r == vtag_len(t),
{
    if t == 0 {
        0
    } else if t == 1 {
        1
    } else if t == 2 {
        2
    } else {
        4
    }
}

/// The largest value a value-tag can store.
pub open spec fn tag_max(t: u8) -> u32 {
    max_val32(vtag_len(t))
}

/// The value-tag the encoder assigns to `v`: the smallest whose mask
/// covers `v`.
pub open spec fn value_tag(v: u32) -> u8 {
    if v == 0 {
        0
    } else if v <= 0xff {
        1
    } else if v <= 0xffff {
        2
    } else {
        3
    }
}

/// The encoder picks the smallest value-tag whose mask covers the value,
/// and never a larger one.
pub proof fn lemma_value_tag_minimal(v: u32)
    ensures
        v <= tag_max(value_tag(v)),
        forall|t: u8| t < value_tag(v) ==> v > tag_max(t),
{
}

/// Group `g` of a value sequence: the four values `vs[4g..4g+4]`.
pub open spec fn group_seq(vs: Seq<u32>, g: int) -> Seq<u32> {
    vs.subrange(4 * g, 4 * g + 4)
}

/// The tag byte of one group of four values.
pub open spec fn group_tag_spec(vs: Seq<u32>) -> u8 {
    value_tag(vs[0]) | (value_tag(vs[1]) << 2) | (value_tag(vs[2]) << 4) | (value_tag(vs[3])
        << 6)
}

/// The payload bytes of one group: each value's low bytes, least
/// significant first, back to back.
pub open spec fn group_payload(vs: Seq<u32>) -> Seq<u8> {
    le_bytes32(vs[0], vtag_len(value_tag(vs[0]))) + le_bytes32(vs[1], vtag_len(value_tag(vs[1])))
        + le_bytes32(vs[2], vtag_len(value_tag(vs[2]))) + le_bytes32(
        vs[3],
        vtag_len(value_tag(vs[3])),
    )
}

/// The number of payload bytes a group with byte `tag` occupies:
/// the sum of the four selected lengths.
pub open spec fn data_len_spec(tag: u8) -> nat {
    vtag_len(vt(tag, 0)) + vtag_len(vt(tag, 1)) + vtag_len(vt(tag, 2)) + vtag_len(vt(tag, 3))
}

/// Offset of value `i` within its group's payload.
pub open spec fn voff(tag: u8, i: int) -> nat
    decreases i,
{
    if i <= 0 {
        0
    } else {
        voff(tag, i - 1) + vtag_len(vt(tag, i - 1))
    }
}

/// The four values decoded from payload `p` under byte `tag`.
pub open spec fn dec_group(tag: u8, p: Seq<u8>) -> Seq<u32> {
    Seq::new(4, |i: int| le_val32(p.subrange(voff(tag, i) as int, voff(tag, i) + vtag_len(vt(tag, i)) as int)))
}

/// The group offsets in payload order, written out.
pub proof fn lemma_voff4(tag: u8)
    ensures
        voff(tag, 0) == 0,
        voff(tag, 1) == vtag_len(vt(tag, 0)),
        voff(tag, 2) == vtag_len(vt(tag, 0)) + vtag_len(vt(tag, 1)),
        voff(tag, 3) == vtag_len(vt(tag, 0)) + vtag_len(vt(tag, 1)) + vtag_len(vt(tag, 2)),
        voff(tag, 4) == data_len_spec(tag),
        data_len_spec(tag) <= 16,
{
    lemma_vt_bound(tag);
    assert(voff(tag, 0) == 0);
    assert(voff(tag, 1) == voff(tag, 0) + vtag_len(vt(tag, 0)));
    assert(voff(tag, 2) == voff(tag, 1) + vtag_len(vt(tag, 1)));
    assert(voff(tag, 3) == voff(tag, 2) + vtag_len(vt(tag, 2)));
    assert(voff(tag, 4) == voff(tag, 3) + vtag_len(vt(tag, 3)));
}

/// The value-tag of `v` with its byte length.
pub fn tag_value(v: u32) -> (r: (u8, usize))
    ensures
        r.0 == value_tag(v),
        r.1 == vtag_len(value_tag(v)),
{
    if v == 0 {
        (0, 0)
    } else if v <= 0xff {
        (1, 1)
    } else if v <= 0xffff {
        (2, 2)
    } else {
        (3, 4)
    }
}

/// The payload length of a group with byte `tag`.
pub fn data_len(tag: u8) -> (r: usize)
    ensures
        r == data_len_spec(tag),
{
    proof {
        lemma_vt_bound(tag);
    }
    vt_len(tag & 3) + vt_len((tag >> 2) & 3) + vt_len((tag >> 4) & 3) + vt_len((tag >> 6) & 3)
}

/// Encodes the four values of one group at `data[pos..]`, returning the
/// tag byte and the number of payload bytes written. No byte outside
/// `[pos, pos + written)` changes.
fn encode_quad(data: &mut Vec<u8>, pos: usize, v0: u32, v1: u32, v2: u32, v3: u32) -> (r: (
    u8,
    usize,
))
    requires
        pos + 16 <= old(data)@.len(),
    ensures
        r.0 == group_tag_spec(seq![v0, v1, v2, v3]),
        r.1 == data_len_spec(r.0),
        r.1 <= 16,
        final(data)@.len() == old(data)@.len(),
        final(data)@.subrange(pos as int, pos + r.1) == group_payload(seq![v0, v1, v2, v3]),
        forall|k: int|
            0 <= k < final(data)@.len() && !(pos <= k < pos + r.1) ==> final(data)@[k]
                == old(data)@[k],
{
    let dn: usize = data.len();
    let (t0, l0) = tag_value(v0);
    let (t1, l1) = tag_value(v1);
    let (t2, l2) = tag_value(v2);
    let (t3, l3) = tag_value(v3);
    write_le32(data, pos, v0, l0);
    let ghost d0 = data@;
    write_le32(data, pos + l0, v1, l1);
    let ghost d1 = data@;
    write_le32(data, pos + l0 + l1, v2, l2);
    let ghost d2 = data@;
    write_le32(data, pos + l0 + l1 + l2, v3, l3);
    let tag: u8 = t0 | (t1 << 2) | (t2 << 4) | (t3 << 6);
    let written: usize = l0 + l1 + l2 + l3;
    proof {
        lemma_vt_pack(t0, t1, t2, t3);
        assert(vt(tag, 0) == t0 && vt(tag, 1) == t1 && vt(tag, 2) == t2 && vt(tag, 3) == t3);
        let vs = seq![v0, v1, v2, v3];
        let p = group_payload(vs);
        assert(p.len() == written);
        assert forall|k: int| 0 <= k < written implies data@.subrange(pos as int, pos + written)[k]
            == p[k] by {
            if k < l0 {
                assert(data@[pos + k] == d0[pos + k]);
                assert(d0.subrange(pos as int, pos + l0)[k] == le_bytes32(v0, l0 as nat)[k]);
            } else if k < l0 + l1 {
                assert(data@[pos + k] == d1[pos + k]);
                assert(d1.subrange(pos + l0, pos + l0 + l1)[k - l0] == le_bytes32(
                    v1,
                    l1 as nat,
                )[k - l0]);
            } else if k < l0 + l1 + l2 {
                assert(data@[pos + k] == d2[pos + k]);
                assert(d2.subrange(pos + l0 + l1, pos + l0 + l1 + l2)[k - l0 - l1] == le_bytes32(
                    v2,
                    l2 as nat,
                )[k - l0 - l1]);
            } else {
                assert(data@.subrange(pos + l0 + l1 + l2, pos + written)[k - l0 - l1 - l2]
                    == le_bytes32(v3, l3 as nat)[k - l0 - l1 - l2]);
            }
        }
        assert(data@.subrange(pos as int, pos + written) =~= p);
    }
    (tag, written)
}

/// Encodes group `g` of `values` at `data[pos..]`, returning the tag byte
/// and the number of payload bytes written.
pub fn encode_group(values: &[u32], g: usize, data: &mut Vec<u8>, pos: usize) -> (r: (u8, usize))
    requires
        4 * g + 4 <= values@.len(),
        pos + 16 <= old(data)@.len(),
    ensures
        r.0 == group_tag_spec(group_seq(values@, g as int)),
        r.1 == data_len_spec(r.0),
        r.1 <= 16,
        final(data)@.len() == old(data)@.len(),
        final(data)@.subrange(pos as int, pos + r.1) == group_payload(group_seq(values@, g as int)),
        forall|k: int|
            0 <= k < final(data)@.len() && !(pos <= k < pos + r.1) ==> final(data)@[k]
                == old(data)@[k],
{
    let n: usize = values.len();
    let base: usize = 4 * g;
    let v0 = values[base];
    let v1 = values[base + 1];
    let v2 = values[base + 2];
    let v3 = values[base + 3];
    proof {
        assert(group_seq(values@, g as int) =~= seq![v0, v1, v2, v3]);
    }
    encode_quad(data, pos, v0, v1, v2, v3)
}

/// The prefix sums of the four values decoded from `p`, started at `prev`:
/// what delta decoding recovers from one group.
pub open spec fn dec_group_deltas(prev: u32, tag: u8, p: Seq<u8>) -> Seq<u32> {
    psums32(prev, dec_group(tag, p))
}

/// The wrapping sum of the four values decoded from `p`.
pub open spec fn group_sum(tag: u8, p: Seq<u8>) -> u32 {
    psum_at32(0, dec_group(tag, p), 3)
}

/// Decoding a group's payload under its own tag restores the four values.
pub proof fn lemma_group_roundtrip(vs: Seq<u32>)
    requires
        vs.len() == 4,
    ensures
        group_payload(vs).len() == data_len_spec(group_tag_spec(vs)),
        dec_group(group_tag_spec(vs), group_payload(vs)) == vs,
{
    let tag = group_tag_spec(vs);
    let p = group_payload(vs);
    let t0 = value_tag(vs[0]);
    let t1 = value_tag(vs[1]);
    let t2 = value_tag(vs[2]);
    let t3 = value_tag(vs[3]);
    lemma_vt_pack(t0, t1, t2, t3);
    lemma_voff4(tag);
    let l0 = vtag_len(t0);
    let l1 = vtag_len(t1);
    let l2 = vtag_len(t2);
    let l3 = vtag_len(t3);
    assert(p.subrange(voff(tag, 0) as int, voff(tag, 0) + l0 as int) =~= le_bytes32(vs[0], l0));
    assert(p.subrange(voff(tag, 1) as int, voff(tag, 1) + l1 as int) =~= le_bytes32(vs[1], l1));
    assert(p.subrange(voff(tag, 2) as int, voff(tag, 2) + l2 as int) =~= le_bytes32(vs[2], l2));
    assert(p.subrange(voff(tag, 3) as int, voff(tag, 3) + l3 as int) =~= le_bytes32(vs[3], l3));
    lemma_value_tag_minimal(vs[0]);
    lemma_value_tag_minimal(vs[1]);
    lemma_value_tag_minimal(vs[2]);
    lemma_value_tag_minimal(vs[3]);
    lemma_le_roundtrip32(vs[0], l0);
    lemma_le_roundtrip32(vs[1], l1);
    lemma_le_roundtrip32(vs[2], l2);
    lemma_le_roundtrip32(vs[3], l3);
    assert(dec_group(tag, p) =~= vs);
}

/// Decodes the group with byte `tag` from `data[pos..]` into
/// `values[4g..4g+4]`, returning the number of payload bytes read.
pub fn decode_group(tag: u8, data: &[u8], pos: usize, values: &mut Vec<u32>, g: usize) -> (read:
    usize)
    requires
        4 * g + 4 <= old(values)@.len(),
        pos + data_len_spec(tag) <= data@.len(),
    ensures
        read == data_len_spec(tag),
        final(values)@.len() == old(values)@.len(),
        final(values)@.subrange(4 * g, 4 * g + 4) == dec_group(
            tag,
            data@.subrange(pos as int, pos + read),
        ),
        forall|k: int|
            0 <= k < final(values)@.len() && !(4 * g <= k < 4 * g + 4) ==> final(values)@[k]
                == old(values)@[k],
{
    proof {
        lemma_vt_bound(tag);
        lemma_voff4(tag);
    }
    let dn: usize = data.len();
    let vn: usize = values.len();
    let l0: usize = vt_len(tag & 3);
    let l1: usize = vt_len((tag >> 2) & 3);
    let l2: usize = vt_len((tag >> 4) & 3);
    let l3: usize = vt_len((tag >> 6) & 3);
    let v0 = read_le32(data, pos, l0);
    let v1 = read_le32(data, pos + l0, l1);
    let v2 = read_le32(data, pos + l0 + l1, l2);
    let v3 = read_le32(data, pos + l0 + l1 + l2, l3);
    let read: usize = l0 + l1 + l2 + l3;
    let base: usize = 4 * g;
    values[base] = v0;
    values[base + 1] = v1;
    values[base + 2] = v2;
    values[base + 3] = v3;
    proof {
        let p = data@.subrange(pos as int, pos + read);
        assert(p.subrange(voff(tag, 0) as int, voff(tag, 0) + vtag_len(vt(tag, 0)) as int)
            =~= data@.subrange(pos as int, pos + l0));
        assert(p.subrange(voff(tag, 1) as int, voff(tag, 1) + vtag_len(vt(tag, 1)) as int)
            =~= data@.subrange(pos + l0, pos + l0 + l1));
        assert(p.subrange(voff(tag, 2) as int, voff(tag, 2) + vtag_len(vt(tag, 2)) as int)
            =~= data@.subrange(pos + l0 + l1, pos + l0 + l1 + l2));
        assert(p.subrange(voff(tag, 3) as int, voff(tag, 3) + vtag_len(vt(tag, 3)) as int)
            =~= data@.subrange(pos + l0 + l1 + l2, pos + read));
        assert(values@.subrange(4 * g, 4 * g + 4) =~= dec_group(tag, p));
    }
    read
}

/// Decodes one group of deltas from `data[pos..]` and integrates them,
/// writing absolute values into `values[4g..4g+4]` starting from `prev`.
/// Returns the bytes read and the last recovered value.
pub fn decode_group_deltas(
    tag: u8,
    data: &[u8],
    pos: usize,
    prev: u32,
    values: &mut Vec<u32>,
    g: usize,
) -> (r: (usize, u32))
    requires
        4 * g + 4 <= old(values)@.len(),
        pos + data_len_spec(tag) <= data@.len(),
    ensures
        r.0 == data_len_spec(tag),
        final(values)@.len() == old(values)@.len(),
        final(values)@.subrange(4 * g, 4 * g + 4) == dec_group_deltas(
            prev,
            tag,
            data@.subrange(pos as int, pos + r.0),
        ),
        r.1 == final(values)@[4 * g + 3],
        forall|k: int|
            0 <= k < final(values)@.len() && !(4 * g <= k < 4 * g + 4) ==> final(values)@[k]
                == old(values)@[k],
{
    let read = decode_group(tag, data, pos, values, g);
    let ghost p = data@.subrange(pos as int, pos + read);
    let ghost d = dec_group(tag, p);
    let vn: usize = values.len();
    let base: usize = 4 * g;
    let a0 = prev.wrapping_add(values[base]);
    let a1 = a0.wrapping_add(values[base + 1]);
    let a2 = a1.wrapping_add(values[base + 2]);
    let a3 = a2.wrapping_add(values[base + 3]);
    values[base] = a0;
    values[base + 1] = a1;
    values[base + 2] = a2;
    values[base + 3] = a3;
    proof {
        assert(psum_at32(prev, d, -1) == prev);
        assert(a0 == psum_at32(prev, d, 0));
        assert(a1 == psum_at32(prev, d, 1));
        assert(a2 == psum_at32(prev, d, 2));
        assert(a3 == psum_at32(prev, d, 3));
        assert(values@.subrange(4 * g, 4 * g + 4) =~= dec_group_deltas(prev, tag, p));
    }
    (read, a3)
}

/// Reads one group of deltas from `data[pos..]` without integrating,
/// returning the bytes read and the wrapping sum of the four deltas.
pub fn skip_group_deltas(tag: u8, data: &[u8], pos: usize) -> (r: (usize, u32))
    requires
        pos + data_len_spec(tag) <= data@.len(),
    ensures
        r.0 == data_len_spec(tag),
        r.1 == group_sum(tag, data@.subrange(pos as int, pos + r.0)),
{
    proof {
        lemma_vt_bound(tag);
        lemma_voff4(tag);
    }
    let dn: usize = data.len();
    let l0: usize = vt_len(tag & 3);
    let l1: usize = vt_len((tag >> 2) & 3);
    let l2: usize = vt_len((tag >> 4) & 3);
    let l3: usize = vt_len((tag >> 6) & 3);
    let v0 = read_le32(data, pos, l0);
    let v1 = read_le32(data, pos + l0, l1);
    let v2 = read_le32(data, pos + l0 + l1, l2);
    let v3 = read_le32(data, pos + l0 + l1 + l2, l3);
    let read: usize = l0 + l1 + l2 + l3;
    let sum = v0.wrapping_add(v1).wrapping_add(v2).wrapping_add(v3);
    proof {
        let p = data@.subrange(pos as int, pos + read);
        let d = dec_group(tag, p);
        assert(p.subrange(voff(tag, 0) as int, voff(tag, 0) + vtag_len(vt(tag, 0)) as int)
            =~= data@.subrange(pos as int, pos + l0));
        assert(p.subrange(voff(tag, 1) as int, voff(tag, 1) + vtag_len(vt(tag, 1)) as int)
            =~= data@.subrange(pos + l0, pos + l0 + l1));
        assert(p.subrange(voff(tag, 2) as int, voff(tag, 2) + vtag_len(vt(tag, 2)) as int)
            =~= data@.subrange(pos + l0 + l1, pos + l0 + l1 + l2));
        assert(p.subrange(voff(tag, 3) as int, voff(tag, 3) + vtag_len(vt(tag, 3)) as int)
            =~= data@.subrange(pos + l0 + l1 + l2, pos + read));
        assert(d[0] == v0 && d[1] == v1 && d[2] == v2 && d[3] == v3);
        assert(psum_at32(0, d, -1) == 0);
        assert(psum_at32(0, d, 0) == wadd32(0, v0));
        assert(psum_at32(0, d, 1) == wadd32(psum_at32(0, d, 0), v1));
        assert(psum_at32(0, d, 2) == wadd32(psum_at32(0, d, 1), v2));
        assert(psum_at32(0, d, 3) == wadd32(psum_at32(0, d, 2), v3));
        assert(sum == group_sum(tag, p));
    }
    (read, sum)
}

/// Encodes group `g` of `values` as deltas against `prev` (the value just
/// before the group) at `data[pos..]`, returning the tag byte and the
/// number of payload bytes written.
pub fn encode_group_deltas(values: &[u32], g: usize, prev: u32, data: &mut Vec<u8>, pos: usize)
    -> (r: (u8, usize))
    requires
        4 * g + 4 <= values@.len(),
        pos + 16 <= old(data)@.len(),
    ensures
        ({
            let ds = seq![
                wsub32(values@[4 * g], prev),
                wsub32(values@[4 * g + 1], values@[4 * g]),
                wsub32(values@[4 * g + 2], values@[4 * g + 1]),
                wsub32(values@[4 * g + 3], values@[4 * g + 2]),
            ];
            &&& r.0 == group_tag_spec(ds)
            &&& r.1 == data_len_spec(r.0)
            &&& r.1 <= 16
            &&& final(data)@.len() == old(data)@.len()
            &&& final(data)@.subrange(pos as int, pos + r.1) == group_payload(ds)
            &&& forall|k: int|
                0 <= k < final(data)@.len() && !(pos <= k < pos + r.1) ==> final(data)@[k]
                    == old(data)@[k]
        }),
{
    let n: usize = values.len();
    let base: usize = 4 * g;
    let v0 = values[base];
    let v1 = values[base + 1];
    let v2 = values[base + 2];
    let v3 = values[base + 3];
    let d0 = v0.wrapping_sub(prev);
    let d1 = v1.wrapping_sub(v0);
    let d2 = v2.wrapping_sub(v1);
    let d3 = v3.wrapping_sub(v2);
    encode_quad(data, pos, d0, d1, d2, d3)
}

/// The tag stream of `vs`: one byte per group of four values.
pub open spec fn enc_tags_spec(vs: Seq<u32>) -> Seq<u8> {
    Seq::new(vs.len() / 4, |g: int| group_tag_spec(group_seq(vs, g)))
}

/// The data stream of the first `g` groups of `vs`.
pub open spec fn enc_data_upto(vs: Seq<u32>, g: int) -> Seq<u8>
    decreases g,
{
    if g <= 0 {
        Seq::empty()
    } else {
        enc_data_upto(vs, g - 1) + group_payload(group_seq(vs, g - 1))
    }
}

/// The data stream of `vs`: every group's payload, in group order.
pub open spec fn enc_data_spec(vs: Seq<u32>) -> Seq<u8> {
    enc_data_upto(vs, vs.len() as int / 4)
}

/// The payload bytes occupied by the first `g` groups of `tags`.
pub open spec fn dl_upto(tags: Seq<u8>, g: int) -> int
    decreases g,
{
    if g <= 0 {
        0
    } else {
        dl_upto(tags, g - 1) + data_len_spec(tags[g - 1])
    }
}

/// The payload bytes occupied by the whole tag stream.
pub open spec fn total_data_len(tags: Seq<u8>) -> int {
    dl_upto(tags, tags.len() as int)
}

/// The values decoded from the first `g` tags of `tags` and the payload
/// bytes they select in `data`.
pub open spec fn dec_upto(tags: Seq<u8>, data: Seq<u8>, g: int) -> Seq<u32>
    decreases g,
{
    if g <= 0 {
        Seq::empty()
    } else {
        dec_upto(tags, data, g - 1) + dec_group(
            tags[g - 1],
            data.subrange(dl_upto(tags, g - 1), dl_upto(tags, g)),
        )
    }
}

/// The values decoded from tag stream `tags` and data stream `data`:
/// four per tag.
pub open spec fn dec_spec(tags: Seq<u8>, data: Seq<u8>) -> Seq<u32> {
    dec_upto(tags, data, tags.len() as int)
}

/// Each tag selects between 4 and 16 payload bytes.
pub proof fn lemma_dl_upto_bounds(tags: Seq<u8>, g: int)
    requires
        0 <= g <= tags.len(),
    ensures
        0 <= dl_upto(tags, g) <= 16 * g,
    decreases g,
{
    if g > 0 {
        lemma_dl_upto_bounds(tags, g - 1);
        lemma_voff4(tags[g - 1]);
    }
}

/// Consumed payload grows with the number of groups decoded.
pub proof fn lemma_dl_upto_mono(tags: Seq<u8>, g: int, h: int)
    requires
        0 <= g <= h <= tags.len(),
    ensures
        dl_upto(tags, g) <= dl_upto(tags, h),
    decreases h,
{
    if g < h {
        lemma_dl_upto_mono(tags, g, h - 1);
        lemma_voff4(tags[h - 1]);
    }
}

/// Payload offsets within a block of eight tags match the offsets
/// within the whole stream, shifted by the bytes before the block.
pub proof fn lemma_dl_upto_shift(tags: Seq<u8>, g: int, k: int)
    requires
        0 <= g,
        g + 8 <= tags.len(),
        0 <= k <= 8,
    ensures
        dl_upto(tags.subrange(g, g + 8), k) == dl_upto(tags, g + k) - dl_upto(tags, g),
    decreases k,
{
    if k > 0 {
        lemma_dl_upto_shift(tags, g, k - 1);
        assert(tags.subrange(g, g + 8)[k - 1] == tags[g + k - 1]);
    }
}

/// Decoding yields four values per tag.
pub proof fn lemma_dec_upto_len(tags: Seq<u8>, data: Seq<u8>, g: int)
    requires
        0 <= g <= tags.len(),
    ensures
        dec_upto(tags, data, g).len() == 4 * g,
    decreases g,
{
    if g > 0 {
        lemma_dec_upto_len(tags, data, g - 1);
    }
}

/// The data stream of the first `g` groups is as long as their tags say.
pub proof fn lemma_enc_data_upto_len(vs: Seq<u32>, g: int)
    requires
        0 <= g,
        4 * g <= vs.len(),
    ensures
        enc_data_upto(vs, g).len() == dl_upto(enc_tags_spec(vs), g),
    decreases g,
{
    if g > 0 {
        lemma_enc_data_upto_len(vs, g - 1);
        lemma_group_roundtrip(group_seq(vs, g - 1));
    }
}

/// The data stream of the first `g` groups is a prefix of the data stream
/// of the first `h`.
pub proof fn lemma_enc_data_upto_prefix(vs: Seq<u32>, g: int, h: int)
    requires
        0 <= g <= h,
        4 * h <= vs.len(),
    ensures
        enc_data_upto(vs, g).len() <= enc_data_upto(vs, h).len(),
        enc_data_upto(vs, h).subrange(0, enc_data_upto(vs, g).len() as int) == enc_data_upto(
            vs,
            g,
        ),
    decreases h,
{
    if g < h {
        lemma_enc_data_upto_prefix(vs, g, h - 1);
        assert(enc_data_upto(vs, h).subrange(0, enc_data_upto(vs, g).len() as int)
            =~= enc_data_upto(vs, h - 1).subrange(0, enc_data_upto(vs, g).len() as int));
    } else {
        assert(enc_data_upto(vs, h).subrange(0, enc_data_upto(vs, g).len() as int)
            =~= enc_data_upto(vs, g));
    }
}

/// Group `g`'s payload sits at its tag-derived offset in the data stream.
pub proof fn lemma_enc_data_window(vs: Seq<u32>, g: int)
    requires
        0 <= g,
        4 * (g + 1) <= vs.len(),
    ensures
        enc_data_spec(vs).subrange(
            dl_upto(enc_tags_spec(vs), g),
            dl_upto(enc_tags_spec(vs), g + 1),
        ) == group_payload(group_seq(vs, g)),
{
    let n4 = vs.len() as int / 4;
    let tags = enc_tags_spec(vs);
    let all = enc_data_spec(vs);
    let pre = enc_data_upto(vs, g);
    let pre1 = enc_data_upto(vs, g + 1);
    let p = group_payload(group_seq(vs, g));
    lemma_enc_data_upto_len(vs, g);
    lemma_enc_data_upto_len(vs, g + 1);
    lemma_enc_data_upto_prefix(vs, g + 1, n4);
    assert(pre1 == pre + p);
    assert(all.subrange(0, pre1.len() as int) == pre1);
    assert forall|k: int| dl_upto(tags, g) <= k < dl_upto(tags, g + 1) implies all[k] == p[k
        - dl_upto(tags, g)] by {
        assert(all[k] == all.subrange(0, pre1.len() as int)[k]);
        assert(pre1[k] == (pre + p)[k]);
    }
    assert(all.subrange(dl_upto(tags, g), dl_upto(tags, g + 1)) =~= p);
}

/// Decoding the first `g` tags yields a prefix of decoding them all.
pub proof fn lemma_dec_upto_prefix(tags: Seq<u8>, data: Seq<u8>, g: int, h: int)
    requires
        0 <= g <= h <= tags.len(),
    ensures
        dec_upto(tags, data, h).subrange(0, 4 * g) == dec_upto(tags, data, g),
    decreases h,
{
    lemma_dec_upto_len(tags, data, g);
    lemma_dec_upto_len(tags, data, h);
    if g < h {
        lemma_dec_upto_prefix(tags, data, g, h - 1);
        lemma_dec_upto_len(tags, data, h - 1);
        assert(dec_upto(tags, data, h).subrange(0, 4 * g) =~= dec_upto(tags, data, h - 1).subrange(
            0,
            4 * g,
        ));
    } else {
        assert(dec_upto(tags, data, h).subrange(0, 4 * g) =~= dec_upto(tags, data, g));
    }
}

/// The values of group `g` in a decoded stream are the group's own
/// decoding.
pub proof fn lemma_dec_window(tags: Seq<u8>, data: Seq<u8>, g: int)
    requires
        0 <= g < tags.len(),
    ensures
        dec_spec(tags, data).subrange(4 * g, 4 * g + 4) == dec_group(
            tags[g],
            data.subrange(dl_upto(tags, g), dl_upto(tags, g + 1)),
        ),
{
    let all = dec_spec(tags, data);
    let pre1 = dec_upto(tags, data, g + 1);
    let d = dec_group(tags[g], data.subrange(dl_upto(tags, g), dl_upto(tags, g + 1)));
    lemma_dec_upto_prefix(tags, data, g + 1, tags.len() as int);
    lemma_dec_upto_len(tags, data, g);
    lemma_dec_upto_len(tags, data, g + 1);
    lemma_dec_upto_len(tags, data, tags.len() as int);
    assert(pre1 == dec_upto(tags, data, g) + d);
    assert forall|k: int| 4 * g <= k < 4 * g + 4 implies all[k] == d[k - 4 * g] by {
        assert(all.subrange(0, 4 * (g + 1))[k] == all[k]);
        assert(pre1[k] == (dec_upto(tags, data, g) + d)[k]);
    }
    assert(all.subrange(4 * g, 4 * g + 4) =~= d);
}

/// Round trip, group by group: decoding the first `g` encoded groups
/// restores the first `4g` values.
proof fn lemma_round_trip_upto(vs: Seq<u32>, g: int)
    requires
        vs.len() % 4 == 0,
        0 <= g <= vs.len() as int / 4,
    ensures
        dec_upto(enc_tags_spec(vs), enc_data_spec(vs), g) == vs.subrange(0, 4 * g),
    decreases g,
{
    if g > 0 {
        lemma_round_trip_upto(vs, g - 1);
        lemma_enc_data_window(vs, g - 1);
        lemma_group_roundtrip(group_seq(vs, g - 1));
        assert(dec_upto(enc_tags_spec(vs), enc_data_spec(vs), g) =~= vs.subrange(0, 4 * g));
    } else {
        assert(dec_upto(enc_tags_spec(vs), enc_data_spec(vs), 0) =~= vs.subrange(0, 0));
    }
}

/// Round trip: decoding an encoded stream restores the input values.
pub proof fn lemma_round_trip(vs: Seq<u32>)
    requires
        vs.len() % 4 == 0,
    ensures
        dec_spec(enc_tags_spec(vs), enc_data_spec(vs)) == vs,
{
    lemma_round_trip_upto(vs, vs.len() as int / 4);
    assert(vs.subrange(0, vs.len() as int) =~= vs);
}

/// Delta round trip: integrating the decoded deltas of a delta-encoded
/// stream restores the input values.
pub proof fn lemma_delta_round_trip(initial: u32, vs: Seq<u32>)
    requires
        vs.len() % 4 == 0,
    ensures
        psums32(
            initial,
            dec_spec(
                enc_tags_spec(deltas32(initial, vs)),
                enc_data_spec(deltas32(initial, vs)),
            ),
        ) == vs,
{
    let ds = deltas32(initial, vs);
    lemma_round_trip(ds);
    assert forall|i: int| 0 <= i < vs.len() implies psums32(initial, ds)[i] == vs[i] by {
        lemma_psum_deltas32(initial, vs, i);
    }
    assert(psums32(initial, dec_spec(enc_tags_spec(ds), enc_data_spec(ds))) =~= vs);
}

/// Skipping a delta-encoded stream consumes exactly its data bytes and
/// sums the deltas to `last - initial`, wrapping.
pub proof fn lemma_skip_equals_sum(initial: u32, vs: Seq<u32>)
    requires
        vs.len() % 4 == 0,
        vs.len() > 0,
    ensures
        ({
            let ds = deltas32(initial, vs);
            let tags = enc_tags_spec(ds);
            let data = enc_data_spec(ds);
            &&& total_data_len(tags) == data.len()
            &&& psum_at32(0, dec_spec(tags, data), vs.len() - 1) == wsub32(
                vs.last(),
                initial,
            )
        }),
{
    let ds = deltas32(initial, vs);
    lemma_round_trip(ds);
    lemma_enc_data_upto_len(ds, ds.len() as int / 4);
    lemma_sum_deltas32(initial, vs, vs.len() as int);
}

/// Sums the payload lengths of eight tags packed little-endian in one
/// word.
pub fn data_len8(tag8: u64) -> (r: usize)
    ensures
        r == total_data_len(tag8_seq(tag8)),
        r <= 128,
{
    let ghost t8 = tag8_seq(tag8);
    let mut k: usize = 0;
    let mut acc: usize = 0;
    while k < 8
        invariant
            t8 == tag8_seq(tag8),
            k <= 8,
            acc == dl_upto(t8, k as int),
            acc <= 16 * k,
        decreases 8 - k,
    {
        let shift: u32 = 8 * (k as u32);
        proof {
            lemma_byte_mask64(tag8 >> shift);
        }
        let tag: u8 = ((tag8 >> shift) & 0xff) as u8;
        proof {
            assert(tag == tag8_byte(tag8, k as int));
            lemma_voff4(tag);
        }
        let len = data_len(tag);
        acc = acc + len;
        k = k + 1;
    }
    acc
}

/// Decodes eight groups, 32 values, from `data[pos..]` under the packed
/// tags `tag8`, writing `values[4g..4g+32]`. Returns the bytes read.
pub fn decode8(tag8: u64, data: &[u8], pos: usize, values: &mut Vec<u32>, g: usize) -> (read:
    usize)
    requires
        4 * g + 32 <= old(values)@.len(),
        pos + total_data_len(tag8_seq(tag8)) <= data@.len(),
    ensures
        read == total_data_len(tag8_seq(tag8)),
        final(values)@.len() == old(values)@.len(),
        forall|k: int|
            0 <= k < 8 ==> final(values)@.subrange(4 * (g + k), 4 * (g + k) + 4) == dec_group(
                tag8_byte(tag8, k),
                data@.subrange(
                    pos + dl_upto(tag8_seq(tag8), k),
                    pos + dl_upto(tag8_seq(tag8), k + 1),
                ),
            ),
        forall|j: int|
            0 <= j < final(values)@.len() && !(4 * g <= j < 4 * g + 32) ==> final(values)@[j]
                == old(values)@[j],
{
    let ghost t8 = tag8_seq(tag8);
    let dn: usize = data.len();
    let vn: usize = values.len();
    let mut k: usize = 0;
    let mut cur: usize = pos;
    while k < 8
        invariant
            t8 == tag8_seq(tag8),
            4 * g + 32 <= vn,
            vn == values@.len(),
            values@.len() == old(values)@.len(),
            dn == data@.len(),
            pos + total_data_len(t8) <= dn,
            k <= 8,
            cur == pos + dl_upto(t8, k as int),
            cur >= pos,
            forall|i: int|
                0 <= i < k ==> values@.subrange(4 * (g + i), 4 * (g + i) + 4) == dec_group(
                    tag8_byte(tag8, i),
                    data@.subrange(pos + dl_upto(t8, i), pos + dl_upto(t8, i + 1)),
                ),
            forall|j: int|
                0 <= j < vn && !(4 * g <= j < 4 * g + 4 * k) ==> values@[j] == old(values)@[j],
        decreases 8 - k,
    {
        let shift: u32 = 8 * (k as u32);
        proof {
            lemma_dl_upto_bounds(t8, k as int);
            lemma_dl_upto_mono(t8, k + 1, 8);
            lemma_byte_mask64(tag8 >> shift);
        }
        let tag: u8 = ((tag8 >> shift) & 0xff) as u8;
        proof {
            assert(tag == tag8_byte(tag8, k as int));
            assert(t8[k as int] == tag);
            lemma_voff4(tag);
            assert(dl_upto(t8, k as int + 1) == dl_upto(t8, k as int) + data_len_spec(tag));
        }
        let ghost prev_values = values@;
        let read = decode_group(tag, data, cur, values, g + k);
        proof {
            assert forall|i: int|
                0 <= i < k implies values@.subrange(4 * (g + i), 4 * (g + i) + 4) == dec_group(
                tag8_byte(tag8, i),
                data@.subrange(pos + dl_upto(t8, i), pos + dl_upto(t8, i + 1)),
            ) by {
                assert(values@.subrange(4 * (g + i), 4 * (g + i) + 4) =~= prev_values.subrange(
                    4 * (g + i),
                    4 * (g + i) + 4,
                ));
            }
        }
        cur = cur + read;
        k = k + 1;
    }
    cur - pos
}

/// Decodes eight groups of deltas from `data[pos..]` and integrates them
/// from `base`, writing absolute values into `values[4g..4g+32]`.
/// Returns the bytes read and the last recovered value.
pub fn decode_deltas8(
    tag8: u64,
    data: &[u8],
    pos: usize,
    base: u32,
    values: &mut Vec<u32>,
    g: usize,
) -> (r: (usize, u32))
    requires
        4 * g + 32 <= old(values)@.len(),
        pos + total_data_len(tag8_seq(tag8)) <= data@.len(),
    ensures
        r.0 == total_data_len(tag8_seq(tag8)),
        final(values)@.len() == old(values)@.len(),
        final(values)@.subrange(4 * g, 4 * g + 32) == psums32(
            base,
            dec_spec(tag8_seq(tag8), data@.subrange(pos as int, pos + r.0)),
        ),
        r.1 == final(values)@[4 * g + 31],
        forall|j: int|
            0 <= j < final(values)@.len() && !(4 * g <= j < 4 * g + 32) ==> final(values)@[j]
                == old(values)@[j],
{
    let ghost t8 = tag8_seq(tag8);
    let dn: usize = data.len();
    let vn: usize = values.len();
    proof {
        lemma_dl_upto_bounds(t8, 8);
        lemma_dec_upto_len(t8, data@.subrange(pos as int, pos + total_data_len(t8)), 8);
    }
    let ghost w = data@.subrange(pos as int, pos + total_data_len(t8));
    let ghost full = dec_spec(t8, w);
    let mut k: usize = 0;
    let mut cur: usize = pos;
    let mut prev: u32 = base;
    while k < 8
        invariant
            t8 == tag8_seq(tag8),
            w == data@.subrange(pos as int, pos + total_data_len(t8)),
            full == dec_spec(t8, w),
            full.len() == 32,
            4 * g + 32 <= vn,
            vn == values@.len(),
            values@.len() == old(values)@.len(),
            dn == data@.len(),
            pos + total_data_len(t8) <= dn,
            k <= 8,
            cur == pos + dl_upto(t8, k as int),
            cur >= pos,
            prev == psum_at32(base, full, 4 * (k as int) - 1),
            forall|i: int|
                0 <= i < 4 * k ==> values@[4 * g + i] == psum_at32(base, full, i),
            forall|j: int|
                0 <= j < vn && !(4 * g <= j < 4 * g + 4 * k) ==> values@[j] == old(values)@[j],
        decreases 8 - k,
    {
        let shift: u32 = 8 * (k as u32);
        proof {
            lemma_dl_upto_bounds(t8, k as int);
            lemma_dl_upto_mono(t8, k + 1, 8);
            lemma_byte_mask64(tag8 >> shift);
        }
        let tag: u8 = ((tag8 >> shift) & 0xff) as u8;
        proof {
            assert(tag == tag8_byte(tag8, k as int));
            assert(t8[k as int] == tag);
            lemma_voff4(tag);
            assert(dl_upto(t8, k as int + 1) == dl_upto(t8, k as int) + data_len_spec(tag));
        }
        let ghost prev_values = values@;
        let (read, last) = decode_group_deltas(tag, data, cur, prev, values, g + k);
        proof {
            lemma_dec_window(t8, w, k as int);
            let d = dec_group(tag, data@.subrange(cur as int, cur + read));
            assert(w.subrange(dl_upto(t8, k as int), dl_upto(t8, k as int + 1)) =~= data@.subrange(
                cur as int,
                cur + read,
            ));
            assert(full.subrange(4 * (k as int), 4 * (k as int) + 4) == d);
            assert forall|i: int| 0 <= i < 4 implies d[i] == full[4 * (k as int) + i] by {}
            crate::delta::lemma_psum_block32(base, full, prev, d, 4 * (k as int));
            assert(values@.subrange(4 * (g + k), 4 * (g + k) + 4) == psums32(prev, d));
            assert forall|i: int|
                4 * k <= i < 4 * k + 4 implies values@[4 * g + i] == psum_at32(base, full, i) by {
                assert(values@[4 * g + i] == values@.subrange(4 * (g + k), 4 * (g + k) + 4)[i - 4
                    * (k as int)]);
            }
            assert forall|i: int|
                0 <= i < 4 * k implies values@[4 * g + i] == psum_at32(base, full, i) by {
                assert(values@[4 * g + i] == prev_values[4 * g + i]);
            }
        }
        prev = last;
        cur = cur + read;
        k = k + 1;
    }
    proof {
        assert(values@.subrange(4 * g, 4 * g + 32) =~= psums32(base, full));
    }
    (cur - pos, prev)
}

/// Reads eight groups of deltas under the packed tags `tag8` without
/// integrating them. Returns the bytes read and the wrapping sum of the
/// 32 deltas.
pub fn skip_deltas8(tag8: u64, data: &[u8], pos: usize) -> (r: (usize, u32))
    requires
        pos + total_data_len(tag8_seq(tag8)) <= data@.len(),
    ensures
        r.0 == total_data_len(tag8_seq(tag8)),
        r.1 == psum_at32(
            0,
            dec_spec(tag8_seq(tag8), data@.subrange(pos as int, pos + r.0)),
            31,
        ),
{
    let ghost t8 = tag8_seq(tag8);
    let dn: usize = data.len();
    proof {
        lemma_dl_upto_bounds(t8, 8);
        lemma_dec_upto_len(t8, data@.subrange(pos as int, pos + total_data_len(t8)), 8);
    }
    let ghost w = data@.subrange(pos as int, pos + total_data_len(t8));
    let ghost full = dec_spec(t8, w);
    let mut k: usize = 0;
    let mut cur: usize = pos;
    let mut acc: u32 = 0;
    while k < 8
        invariant
            t8 == tag8_seq(tag8),
            w == data@.subrange(pos as int, pos + total_data_len(t8)),
            full == dec_spec(t8, w),
            full.len() == 32,
            dn == data@.len(),
            pos + total_data_len(t8) <= dn,
            k <= 8,
            cur == pos + dl_upto(t8, k as int),
            cur >= pos,
            acc == psum_at32(0, full, 4 * (k as int) - 1),
        decreases 8 - k,
    {
        let shift: u32 = 8 * (k as u32);
        proof {
            lemma_dl_upto_bounds(t8, k as int);
            lemma_dl_upto_mono(t8, k + 1, 8);
            lemma_byte_mask64(tag8 >> shift);
        }
        let tag: u8 = ((tag8 >> shift) & 0xff) as u8;
        proof {
            assert(tag == tag8_byte(tag8, k as int));
            assert(t8[k as int] == tag);
            lemma_voff4(tag);
            assert(dl_upto(t8, k as int + 1) == dl_upto(t8, k as int) + data_len_spec(tag));
        }
        let (read, gsum) = skip_group_deltas(tag, data, cur);
        proof {
            lemma_dec_window(t8, w, k as int);
            let d = dec_group(tag, data@.subrange(cur as int, cur + read));
            assert(w.subrange(dl_upto(t8, k as int), dl_upto(t8, k as int + 1)) =~= data@.subrange(
                cur as int,
                cur + read,
            ));
            assert(full.subrange(4 * (k as int), 4 * (k as int) + 4) == d);
            assert forall|i: int| 0 <= i < 4 implies d[i] == full[4 * (k as int) + i] by {}
            crate::delta::lemma_sum_block32(full, d, 4 * (k as int));
        }
        acc = acc.wrapping_add(gsum);
        cur = cur + read;
        k = k + 1;
    }
    (cur - pos, acc)
}

/// Codes 32-bit values in groups of four, each value in 0, 1, 2 or 4
/// bytes. The handle is a plain value; every operation borrows the
/// caller's buffers only for the call.
#[derive(Clone, Copy)]
pub struct Coder0124;

impl Coder0124 {
    /// Creates a coder handle.
    pub fn new() -> Coder0124 {
        Coder0124
    }

    /// Tag and data buffer sizes sufficient to encode `len` values:
    /// one tag byte per group, and the widest payload every group could
    /// take.
    pub fn max_compressed_bytes(len: usize) -> (r: (usize, usize))
        requires
            len + 3 <= usize::MAX,
            ((len + 3) / 4) * 16 <= usize::MAX,
        ensures
            r.0 == (len + 3) / 4,
            r.1 == 16 * ((len + 3) / 4),
    {
        let num_groups: usize = (len + 3) / 4;
        (num_groups, num_groups * 16)
    }

    /// Encodes `values`, writing one tag byte per group into `tags` and
    /// the payload bytes into `data`. Returns the number of data bytes
    /// written; bytes past the returned length are untouched.
    pub fn encode(&self, values: &[u32], tags: &mut Vec<u8>, data: &mut Vec<u8>) -> (written:
        usize)
        requires
            values@.len() % 4 == 0,
            old(tags)@.len() >= values@.len() / 4,
            old(data)@.len() >= 4 * values@.len(),
        ensures
            final(tags)@.len() == old(tags)@.len(),
            final(data)@.len() == old(data)@.len(),
            written == total_data_len(enc_tags_spec(values@)),
            written == enc_data_spec(values@).len(),
            final(tags)@.subrange(0, values@.len() as int / 4) == enc_tags_spec(values@),
            final(data)@.subrange(0, written as int) == enc_data_spec(values@),
            forall|k: int|
                values@.len() as int / 4 <= k < final(tags)@.len() ==> final(tags)@[k] == old(
                    tags,
                )@[k],
            forall|k: int|
                written <= k < final(data)@.len() ==> final(data)@[k] == old(data)@[k],
    {
        let n: usize = values.len();
        let num_groups: usize = n / 4;
        let tn: usize = tags.len();
        let dn: usize = data.len();
        let mut g: usize = 0;
        let mut pos: usize = 0;
        while g < num_groups
            invariant
                n == values@.len(),
                n % 4 == 0,
                num_groups == n / 4,
                g <= num_groups,
                tn == tags@.len(),
                tn == old(tags)@.len(),
                tn >= num_groups,
                dn == data@.len(),
                dn == old(data)@.len(),
                dn >= 4 * n,
                pos == enc_data_upto(values@, g as int).len(),
                pos <= 16 * g,
                forall|k: int| 0 <= k < g ==> tags@[k] == enc_tags_spec(values@)[k],
                forall|k: int| g <= k < tn ==> tags@[k] == old(tags)@[k],
                data@.subrange(0, pos as int) == enc_data_upto(values@, g as int),
                forall|k: int| pos <= k < dn ==> data@[k] == old(data)@[k],
            decreases num_groups - g,
        {
            let ghost prev_data = data@;
            let ghost prev_pos = pos as int;
            let (tag, len) = encode_group(values, g, data, pos);
            tags[g] = tag;
            proof {
                assert(enc_data_upto(values@, g + 1) == enc_data_upto(values@, g as int)
                    + group_payload(group_seq(values@, g as int)));
                assert(data@.subrange(0, prev_pos + len) =~= enc_data_upto(values@, g + 1));
            }
            pos = pos + len;
            g = g + 1;
        }
        proof {
            assert(tags@.subrange(0, num_groups as int) =~= enc_tags_spec(values@));
            lemma_enc_data_upto_len(values@, num_groups as int);
        }
        pos
    }

    /// Encodes `values` as deltas against `initial`: the differences
    /// between consecutive values are written in place of the values.
    pub fn encode_deltas(
        &self,
        initial: u32,
        values: &[u32],
        tags: &mut Vec<u8>,
        data: &mut Vec<u8>,
    ) -> (written: usize)
        requires
            values@.len() % 4 == 0,
            old(tags)@.len() >= values@.len() / 4,
            old(data)@.len() >= 4 * values@.len(),
        ensures
            final(tags)@.len() == old(tags)@.len(),
            final(data)@.len() == old(data)@.len(),
            written == total_data_len(enc_tags_spec(deltas32(initial, values@))),
            written == enc_data_spec(deltas32(initial, values@)).len(),
            final(tags)@.subrange(0, values@.len() as int / 4) == enc_tags_spec(
                deltas32(initial, values@),
            ),
            final(data)@.subrange(0, written as int) == enc_data_spec(deltas32(initial, values@)),
            forall|k: int|
                values@.len() as int / 4 <= k < final(tags)@.len() ==> final(tags)@[k] == old(
                    tags,
                )@[k],
            forall|k: int|
                written <= k < final(data)@.len() ==> final(data)@[k] == old(data)@[k],
    {
        let ghost ds = deltas32(initial, values@);
        let n: usize = values.len();
        let num_groups: usize = n / 4;
        let tn: usize = tags.len();
        let dn: usize = data.len();
        let mut g: usize = 0;
        let mut pos: usize = 0;
        let mut prev: u32 = initial;
        while g < num_groups
            invariant
                ds == deltas32(initial, values@),
                n == values@.len(),
                n % 4 == 0,
                num_groups == n / 4,
                g <= num_groups,
                tn == tags@.len(),
                tn == old(tags)@.len(),
                tn >= num_groups,
                dn == data@.len(),
                dn == old(data)@.len(),
                dn >= 4 * n,
                prev == if g == 0 { initial } else { values@[4 * g - 1] },
                pos == enc_data_upto(ds, g as int).len(),
                pos <= 16 * g,
                forall|k: int| 0 <= k < g ==> tags@[k] == enc_tags_spec(ds)[k],
                forall|k: int| g <= k < tn ==> tags@[k] == old(tags)@[k],
                data@.subrange(0, pos as int) == enc_data_upto(ds, g as int),
                forall|k: int| pos <= k < dn ==> data@[k] == old(data)@[k],
            decreases num_groups - g,
        {
            let ghost prev_data = data@;
            let ghost prev_pos = pos as int;
            let (tag, len) = encode_group_deltas(values, g, prev, data, pos);
            tags[g] = tag;
            proof {
                assert(group_seq(ds, g as int) =~= seq![
                    wsub32(values@[4 * g], prev),
                    wsub32(values@[4 * g + 1], values@[4 * g]),
                    wsub32(values@[4 * g + 2], values@[4 * g + 1]),
                    wsub32(values@[4 * g + 3], values@[4 * g + 2]),
                ]);
                assert(enc_data_upto(ds, g + 1) == enc_data_upto(ds, g as int) + group_payload(
                    group_seq(ds, g as int),
                ));
                assert(data@.subrange(0, prev_pos + len) =~= enc_data_upto(ds, g + 1));
            }
            prev = values[4 * g + 3];
            pos = pos + len;
            g = g + 1;
        }
        proof {
            assert(tags@.subrange(0, num_groups as int) =~= enc_tags_spec(ds));
            lemma_enc_data_upto_len(ds, num_groups as int);
        }
        pos
    }

    /// Decodes `tags.len()` groups from the two streams into `values`,
    /// returning the number of data bytes consumed.
    #[verifier::rlimit(100)]
    pub fn decode(&self, tags: &[u8], data: &[u8], values: &mut Vec<u32>) -> (read: usize)
        requires
            old(values)@.len() == 4 * tags@.len(),
            total_data_len(tags@) <= data@.len(),
        ensures
            read == total_data_len(tags@),
            final(values)@.len() == old(values)@.len(),
            final(values)@ == dec_spec(tags@, data@),
    {
        let tn: usize = tags.len();
        let dn: usize = data.len();
        let vn: usize = values.len();
        let mut g: usize = 0;
        let mut pos: usize = 0;
        while g + 8 <= tn
            invariant
                tn == tags@.len(),
                dn == data@.len(),
                vn == values@.len(),
                values@.len() == old(values)@.len(),
                vn == 4 * tn,
                total_data_len(tags@) <= dn,
                g <= tn,
                pos == dl_upto(tags@, g as int),
                values@.subrange(0, 4 * g) == dec_upto(tags@, data@, g as int),
            decreases tn - g,
        {
            let tag8 = crate::tag_utils::read_tag8(tags, g);
            let ghost sub = tags@.subrange(g as int, g as int + 8);
            proof {
                lemma_dl_upto_bounds(tags@, g as int);
                lemma_dl_upto_mono(tags@, g + 8, tn as int);
                assert forall|k: int|
                    0 <= k <= 8 implies #[trigger] dl_upto(sub, k) == dl_upto(tags@, g + k)
                    - dl_upto(tags@, g as int) by {
                    lemma_dl_upto_shift(tags@, g as int, k);
                }
                assert(total_data_len(sub) == dl_upto(sub, 8));
            }
            let ghost prev_values = values@;
            let read = decode8(tag8, data, pos, values, g);
            proof {
                assert forall|k: int|
                    0 <= k < 8 implies #[trigger] values@.subrange(4 * (g + k), 4 * (g + k) + 4)
                        == dec_group(
                        tags@[g + k],
                        data@.subrange(dl_upto(tags@, g + k), dl_upto(tags@, g + k + 1)),
                    ) by {
                    assert(tag8_byte(tag8, k) == sub[k]);
                    assert(pos + dl_upto(sub, k) == dl_upto(tags@, g + k));
                    assert(pos + dl_upto(sub, k + 1) == dl_upto(tags@, g + k + 1));
                }
                assert forall|j: int| 0 <= j < 4 * g implies values@[j] == prev_values[j] by {}
                assert(values@.subrange(0, 4 * g) =~= dec_upto(tags@, data@, g as int));
                assert(values@.subrange(0, 4 * (g + 1)) =~= dec_upto(tags@, data@, g + 1));
                assert(values@.subrange(0, 4 * (g + 2)) =~= dec_upto(tags@, data@, g + 2));
                assert(values@.subrange(0, 4 * (g + 3)) =~= dec_upto(tags@, data@, g + 3));
                assert(values@.subrange(0, 4 * (g + 4)) =~= dec_upto(tags@, data@, g + 4));
                assert(values@.subrange(0, 4 * (g + 5)) =~= dec_upto(tags@, data@, g + 5));
                assert(values@.subrange(0, 4 * (g + 6)) =~= dec_upto(tags@, data@, g + 6));
                assert(values@.subrange(0, 4 * (g + 7)) =~= dec_upto(tags@, data@, g + 7));
                assert(values@.subrange(0, 4 * (g + 8)) =~= dec_upto(tags@, data@, g + 8));
            }
            pos = pos + read;
            g = g + 8;
        }
        while g < tn
            invariant
                tn == tags@.len(),
                dn == data@.len(),
                vn == values@.len(),
                values@.len() == old(values)@.len(),
                vn == 4 * tn,
                total_data_len(tags@) <= dn,
                g <= tn,
                pos == dl_upto(tags@, g as int),
                values@.subrange(0, 4 * g) == dec_upto(tags@, data@, g as int),
            decreases tn - g,
        {
            let tag = tags[g];
            proof {
                lemma_dl_upto_bounds(tags@, g as int);
                lemma_dl_upto_mono(tags@, g + 1, tn as int);
                lemma_voff4(tag);
            }
            let read = decode_group(tag, data, pos, values, g);
            proof {
                assert(values@.subrange(0, 4 * (g + 1)) =~= dec_upto(tags@, data@, g + 1));
            }
            pos = pos + read;
            g = g + 1;
        }
        proof {
            assert(values@ =~= dec_spec(tags@, data@));
        }
        pos
    }

    /// Decodes `tags.len()` groups of deltas and integrates them starting
    /// from `initial`, writing absolute values into `values`. Returns the
    /// number of data bytes consumed.
    pub fn decode_deltas(
        &self,
        initial: u32,
        tags: &[u8],
        data: &[u8],
        values: &mut Vec<u32>,
    ) -> (read: usize)
        requires
            old(values)@.len() == 4 * tags@.len(),
            total_data_len(tags@) <= data@.len(),
        ensures
            read == total_data_len(tags@),
            final(values)@.len() == old(values)@.len(),
            final(values)@ == psums32(initial, dec_spec(tags@, data@)),
    {
        let ghost full = dec_spec(tags@, data@);
        let tn: usize = tags.len();
        let dn: usize = data.len();
        let vn: usize = values.len();
        let mut g: usize = 0;
        let mut pos: usize = 0;
        let mut prev: u32 = initial;
        proof {
            lemma_dec_upto_len(tags@, data@, tn as int);
        }
        while g < tn
            invariant
                full == dec_spec(tags@, data@),
                full.len() == 4 * tn,
                tn == tags@.len(),
                dn == data@.len(),
                vn == values@.len(),
                values@.len() == old(values)@.len(),
                vn == 4 * tn,
                total_data_len(tags@) <= dn,
                g <= tn,
                pos == dl_upto(tags@, g as int),
                prev == psum_at32(initial, full, 4 * g - 1),
                forall|k: int| 0 <= k < 4 * g ==> values@[k] == psum_at32(initial, full, k),
            decreases tn - g,
        {
            let tag = tags[g];
            proof {
                lemma_dl_upto_bounds(tags@, g as int);
                lemma_dl_upto_mono(tags@, g + 1, tn as int);
                lemma_voff4(tag);
            }
            let (read, last) = decode_group_deltas(tag, data, pos, prev, values, g);
            proof {
                lemma_dec_window(tags@, data@, g as int);
                let d = dec_group(tag, data@.subrange(pos as int, pos + read));
                assert(full.subrange(4 * g, 4 * g + 4) == d);
                assert forall|k: int| 0 <= k < 4 implies d[k] == full[4 * g + k] by {}
                crate::delta::lemma_psum_block32(initial, full, prev, d, 4 * g);
                assert(values@.subrange(4 * g, 4 * g + 4) == psums32(prev, d));
                assert forall|k: int| 4 * g <= k < 4 * g + 4 implies values@[k] == psum_at32(
                    initial,
                    full,
                    k,
                ) by {
                    assert(values@[k] == values@.subrange(4 * g, 4 * g + 4)[k - 4 * g]);
                }
            }
            prev = last;
            pos = pos + read;
            g = g + 1;
        }
        proof {
            assert(values@ =~= psums32(initial, full));
        }
        pos
    }

    /// Sums the payload lengths of every tag without touching the data
    /// stream.
    pub fn data_len(&self, tags: &[u8]) -> (r: usize)
        requires
            total_data_len(tags@) <= usize::MAX,
        ensures
            r == total_data_len(tags@),
    {
        let tn: usize = tags.len();
        let mut g: usize = 0;
        let mut acc: usize = 0;
        while tn - g >= 8
            invariant
                tn == tags@.len(),
                total_data_len(tags@) <= usize::MAX,
                g <= tn,
                acc == dl_upto(tags@, g as int),
            decreases tn - g,
        {
            let tag8 = crate::tag_utils::read_tag8(tags, g);
            let ghost sub = tags@.subrange(g as int, g as int + 8);
            proof {
                lemma_dl_upto_bounds(tags@, g as int);
                lemma_dl_upto_mono(tags@, g + 8, tn as int);
                lemma_dl_upto_shift(tags@, g as int, 8);
            }
            let len8 = data_len8(tag8);
            acc = acc + len8;
            g = g + 8;
        }
        while g < tn
            invariant
                tn == tags@.len(),
                total_data_len(tags@) <= usize::MAX,
                g <= tn,
                acc == dl_upto(tags@, g as int),
            decreases tn - g,
        {
            proof {
                lemma_dl_upto_bounds(tags@, g as int);
                lemma_dl_upto_mono(tags@, g + 1, tn as int);
                lemma_voff4(tags@[g as int]);
            }
            let len = data_len(tags[g]);
            acc = acc + len;
            g = g + 1;
        }
        acc
    }

    /// Reads `tags.len()` groups of deltas without integrating them.
    /// Returns the data bytes consumed and the wrapping sum of every
    /// delta, which is the value to resume decoding with.
    pub fn skip_deltas(&self, tags: &[u8], data: &[u8]) -> (r: (usize, u32))
        requires
            total_data_len(tags@) <= data@.len(),
        ensures
            r.0 == total_data_len(tags@),
            r.1 == psum_at32(0, dec_spec(tags@, data@), 4 * tags@.len() - 1),
    {
        let ghost full = dec_spec(tags@, data@);
        let tn: usize = tags.len();
        let dn: usize = data.len();
        let mut g: usize = 0;
        let mut pos: usize = 0;
        let mut acc: u32 = 0;
        proof {
            lemma_dec_upto_len(tags@, data@, tn as int);
        }
        while g < tn
            invariant
                full == dec_spec(tags@, data@),
                full.len() == 4 * tn,
                tn == tags@.len(),
                dn == data@.len(),
                total_data_len(tags@) <= dn,
                g <= tn,
                pos == dl_upto(tags@, g as int),
                acc == psum_at32(0, full, 4 * g - 1),
            decreases tn - g,
        {
            let tag = tags[g];
            proof {
                lemma_dl_upto_bounds(tags@, g as int);
                lemma_dl_upto_mono(tags@, g + 1, tn as int);
                lemma_voff4(tag);
            }
            let (read, gsum) = skip_group_deltas(tag, data, pos);
            proof {
                lemma_dec_window(tags@, data@, g as int);
                let d = dec_group(tag, data@.subrange(pos as int, pos + read));
                assert(full.subrange(4 * g, 4 * g + 4) == d);
                assert forall|k: int| 0 <= k < 4 implies d[k] == full[4 * g + k] by {}
                crate::delta::lemma_sum_block32(full, d, 4 * g);
            }
            acc = acc.wrapping_add(gsum);
            pos = pos + read;
            g = g + 1;
        }
        (pos, acc)
    }
}

} // verus!
