//! Architecture-independent builders for byte-shuffle control tables.
//!
//! Hardware byte-shuffle instructions take a control vector of source
//! indices; an index with the high bit set yields a zero byte. For each
//! tag byte these builders lay out the control that gathers a group's
//! live bytes together (encode) or scatters packed bytes back into
//! fixed-width lanes (decode), for any per-value-tag length table.

use vstd::prelude::*;

use crate::tag_utils::lemma_vt_bound;
use crate::tag_utils::vt;

verus! {

/// Offset of value `i`'s bytes within a packed entry: the lengths of the
/// values before it, summed.
pub open spec fn shuffle_off(tag: u8, tl: Seq<usize>, i: int) -> int
    decreases i,
{
    if i <= 0 {
        0
    } else {
        shuffle_off(tag, tl, i - 1) + tl[vt(tag, i - 1) as int]
    }
}

/// Lane arithmetic: an earlier lane ends at or before a later lane
/// starts, and all four lanes fit in `4 * elem_len <= 32` bytes.
proof fn lemma_lane_step(q: int, i: int, elem_len: int)
    by (nonlinear_arith)
    requires
        0 <= q < i <= 4,
        0 <= elem_len <= 8,
    ensures
        q * elem_len + elem_len <= i * elem_len,
        0 <= q * elem_len,
        i * elem_len <= 4 * elem_len,
        i * elem_len <= 32,
{
}

/// Packed offsets stay within `i` elements' worth of bytes.
pub proof fn lemma_shuffle_off_bound(tag: u8, tl: Seq<usize>, elem_len: int, i: int)
    requires
        0 <= i <= 4,
        0 <= elem_len <= 8,
        tl.len() == 4,
        forall|k: int| 0 <= k < 4 ==> tl[k] <= elem_len,
    ensures
        0 <= shuffle_off(tag, tl, i) <= i * elem_len,
        shuffle_off(tag, tl, i) <= 32,
    decreases i,
{
    lemma_vt_bound(tag);
    if i > 0 {
        lemma_shuffle_off_bound(tag, tl, elem_len, i - 1);
        lemma_lane_step(i - 1, i, elem_len);
    }
}

/// Earlier values' bytes end at or before a later value's offset.
pub proof fn lemma_shuffle_off_mono(tag: u8, tl: Seq<usize>, q: int, i: int)
    requires
        0 <= q < i <= 4,
        tl.len() == 4,
    ensures
        shuffle_off(tag, tl, q) + tl[vt(tag, q) as int] <= shuffle_off(tag, tl, i),
    decreases i,
{
    lemma_vt_bound(tag);
    if q + 1 < i {
        lemma_shuffle_off_mono(tag, tl, q, i - 1);
    }
}

/// The value-tag of `tag` at position `i`, as executable code.
fn vt_of(tag: u8, i: usize) -> (r: u8)
    requires
        i < 4,
    ensures
        r == vt(tag, i as int),
        r < 4,
{
    proof {
        lemma_vt_bound(tag);
    }
    if i == 0 {
        tag & 3
    } else if i == 1 {
        (tag >> 2) & 3
    } else if i == 2 {
        (tag >> 4) & 3
    } else {
        (tag >> 6) & 3
    }
}

/// The control entry that gathers the live bytes of four values, each
/// `elem_len` bytes wide, to the head of the entry; unused positions
/// hold `fill_byte`.
pub fn encode_shuffle_entry(tag: u8, tag_len: [usize; 4], elem_len: usize, fill_byte: u8) -> (r:
    Vec<u8>)
    requires
        1 <= elem_len <= 8,
        forall|k: int| 0 <= k < 4 ==> tag_len@[k] <= elem_len,
    ensures
        r@.len() == 4 * elem_len,
        forall|i: int, j: int|
            0 <= i < 4 && 0 <= j < tag_len@[vt(tag, i) as int] ==> #[trigger] r@[shuffle_off(
                tag,
                tag_len@,
                i,
            ) + j] == (i * elem_len + j) as u8,
        forall|j: int|
            shuffle_off(tag, tag_len@, 4) <= j < 4 * elem_len ==> r@[j] == fill_byte,
{
    let entry_len: usize = 4 * elem_len;
    let mut entry: Vec<u8> = Vec::new();
    let mut f: usize = 0;
    while f < entry_len
        invariant
            f <= entry_len,
            entry@.len() == f,
            forall|j: int| 0 <= j < f ==> entry@[j] == fill_byte,
        decreases entry_len - f,
    {
        entry.push(fill_byte);
        f = f + 1;
    }
    let mut shuf_idx: usize = 0;
    let mut i: usize = 0;
    while i < 4
        invariant
            i <= 4,
            1 <= elem_len <= 8,
            entry_len == 4 * elem_len,
            entry@.len() == entry_len,
            forall|k: int| 0 <= k < 4 ==> tag_len@[k] <= elem_len,
            shuf_idx == shuffle_off(tag, tag_len@, i as int),
            shuf_idx <= entry_len,
            forall|q: int, j: int|
                0 <= q < i && 0 <= j < tag_len@[vt(tag, q) as int] ==> #[trigger] entry@[
                shuffle_off(tag, tag_len@, q) + j] == (q * elem_len + j) as u8,
            forall|j: int| shuf_idx <= j < entry_len ==> entry@[j] == fill_byte,
        decreases 4 - i,
    {
        proof {
            lemma_vt_bound(tag);
            lemma_shuffle_off_bound(tag, tag_len@, elem_len as int, i as int);
            lemma_lane_step(i as int, i as int + 1, elem_len as int);
            lemma_shuffle_off_mono(tag, tag_len@, i as int, 4);
            lemma_shuffle_off_bound(tag, tag_len@, elem_len as int, 4);
        }
        let vtag: u8 = vt_of(tag, i);
        let len: usize = tag_len[vtag as usize];
        let ghost start = shuf_idx as int;
        let lane: usize = i * elem_len;
        let mut j: usize = 0;
        while j < len
            invariant
                j <= len,
                1 <= elem_len <= 8,
                i < 4,
                lane == i * elem_len,
                lane + elem_len <= 32,
                len == tag_len@[vt(tag, i as int) as int],
                len <= elem_len,
                entry_len == 4 * elem_len,
                entry@.len() == entry_len,
                forall|k: int| 0 <= k < 4 ==> tag_len@[k] <= elem_len,
                0 <= start,
                start == shuffle_off(tag, tag_len@, i as int),
                start + len <= entry_len,
                shuf_idx == start + j,
                forall|q: int, jj: int|
                    0 <= q < i && 0 <= jj < tag_len@[vt(tag, q) as int] ==> #[trigger] entry@[
                    shuffle_off(tag, tag_len@, q) + jj] == (q * elem_len + jj) as u8,
                forall|jj: int|
                    0 <= jj < j ==> #[trigger] entry@[start + jj] == (i * elem_len + jj) as u8,
                forall|jj: int| shuf_idx <= jj < entry_len ==> entry@[jj] == fill_byte,
            decreases len - j,
        {
            proof {
                assert forall|q: int|
                    0 <= q < i implies shuffle_off(tag, tag_len@, q) + tag_len@[vt(
                    tag,
                    q,
                ) as int] <= start by {
                    lemma_shuffle_off_mono(tag, tag_len@, q, i as int);
                }
            }
            let b: usize = lane + j;
            let ghost prev_entry = entry@;
            entry[shuf_idx] = b as u8;
            proof {
                assert(prev_entry.len() == entry_len);
                assert(entry@ == prev_entry.update(start + j, b as u8));
                assert forall|jj: int|
                    0 <= jj < j + 1 implies #[trigger] entry@[start + jj] == (i * elem_len
                    + jj) as u8 by {
                    if jj < j {
                        assert(prev_entry[start + jj] == (i * elem_len + jj) as u8);
                        assert(0 <= start + jj < prev_entry.len() && start + jj != start + j);
                        assert(prev_entry.update(start + j, b as u8)[start + jj] == prev_entry[start
                            + jj]);
                        assert(entry@[start + jj] == prev_entry[start + jj]);
                    } else {
                        assert(entry@[start + j] == b as u8);
                        assert(b == i * elem_len + j);
                    }
                }
                assert forall|q: int, jj: int|
                    0 <= q < i && 0 <= jj < tag_len@[vt(tag, q) as int] implies #[trigger] entry@[
                    shuffle_off(tag, tag_len@, q) + jj] == (q * elem_len + jj) as u8 by {
                    lemma_shuffle_off_mono(tag, tag_len@, q, i as int);
                    lemma_shuffle_off_bound(tag, tag_len@, elem_len as int, q);
                    assert(prev_entry[shuffle_off(tag, tag_len@, q) + jj] == (q * elem_len
                        + jj) as u8);
                    assert(shuffle_off(tag, tag_len@, q) + jj < start + j);
                    assert(entry@[shuffle_off(tag, tag_len@, q) + jj] == prev_entry[shuffle_off(
                        tag,
                        tag_len@,
                        q,
                    ) + jj]);
                }
                assert forall|jj: int|
                    start + j + 1 <= jj < entry_len implies entry@[jj] == fill_byte by {
                    assert(prev_entry[jj] == fill_byte);
                }
            }
            shuf_idx = shuf_idx + 1;
            j = j + 1;
        }
        i = i + 1;
        proof {
            assert(shuffle_off(tag, tag_len@, i as int) == shuffle_off(tag, tag_len@, i - 1)
                + tag_len@[vt(tag, i - 1) as int]);
            lemma_shuffle_off_bound(tag, tag_len@, elem_len as int, i as int);
        }
    }
    entry
}

/// The control entry that scatters packed bytes back into four lanes of
/// `elem_len` bytes; lane bytes beyond a value's width hold `fill_byte`.
pub fn decode_shuffle_entry(tag: u8, tag_len: [usize; 4], elem_len: usize, fill_byte: u8) -> (r:
    Vec<u8>)
    requires
        1 <= elem_len <= 8,
        forall|k: int| 0 <= k < 4 ==> tag_len@[k] <= elem_len,
    ensures
        r@.len() == 4 * elem_len,
        forall|i: int, j: int|
            0 <= i < 4 && 0 <= j < elem_len ==> #[trigger] r@[i * elem_len + j] == if j
                < tag_len@[vt(tag, i) as int] {
                ((shuffle_off(tag, tag_len@, i) + j) as u8)
            } else {
                fill_byte
            },
{
    let entry_len: usize = 4 * elem_len;
    let mut entry: Vec<u8> = Vec::new();
    let mut f: usize = 0;
    while f < entry_len
        invariant
            f <= entry_len,
            entry@.len() == f,
            forall|j: int| 0 <= j < f ==> entry@[j] == fill_byte,
        decreases entry_len - f,
    {
        entry.push(fill_byte);
        f = f + 1;
    }
    let mut shuf_idx: usize = 0;
    let mut i: usize = 0;
    while i < 4
        invariant
            i <= 4,
            1 <= elem_len <= 8,
            entry_len == 4 * elem_len,
            entry@.len() == entry_len,
            forall|k: int| 0 <= k < 4 ==> tag_len@[k] <= elem_len,
            shuf_idx == shuffle_off(tag, tag_len@, i as int),
            shuf_idx <= entry_len,
            forall|q: int, j: int|
                0 <= q < i && 0 <= j < elem_len ==> #[trigger] entry@[q * elem_len + j] == if j
                    < tag_len@[vt(tag, q) as int] {
                    ((shuffle_off(tag, tag_len@, q) + j) as u8)
                } else {
                    fill_byte
                },
            forall|j: int| i * elem_len <= j < entry_len ==> entry@[j] == fill_byte,
        decreases 4 - i,
    {
        proof {
            lemma_vt_bound(tag);
            lemma_shuffle_off_bound(tag, tag_len@, elem_len as int, i as int);
            lemma_lane_step(i as int, i as int + 1, elem_len as int);
        }
        let vtag: u8 = vt_of(tag, i);
        let len: usize = tag_len[vtag as usize];
        let ghost start = shuf_idx as int;
        let lane: usize = i * elem_len;
        let mut j: usize = 0;
        while j < len
            invariant
                j <= len,
                1 <= elem_len <= 8,
                i < 4,
                lane == i * elem_len,
                lane + elem_len <= entry_len,
                lane + elem_len <= 32,
                len == tag_len@[vt(tag, i as int) as int],
                len <= elem_len,
                entry_len == 4 * elem_len,
                entry@.len() == entry_len,
                forall|k: int| 0 <= k < 4 ==> tag_len@[k] <= elem_len,
                0 <= start,
                start == shuffle_off(tag, tag_len@, i as int),
                start + len <= 32,
                shuf_idx == start + j,
                forall|q: int, jj: int|
                    0 <= q < i && 0 <= jj < elem_len ==> #[trigger] entry@[q * elem_len + jj]
                        == if jj < tag_len@[vt(tag, q) as int] {
                        ((shuffle_off(tag, tag_len@, q) + jj) as u8)
                    } else {
                        fill_byte
                    },
                forall|jj: int|
                    0 <= jj < j ==> #[trigger] entry@[lane + jj] == (start + jj) as u8,
                forall|jj: int| lane + j <= jj < entry_len ==> entry@[jj] == fill_byte,
            decreases len - j,
        {
            proof {
                assert forall|q: int|
                    0 <= q < i implies #[trigger] (q * elem_len) + elem_len <= lane by {
                    lemma_lane_step(q, i as int, elem_len as int);
                }
            }
            let ghost prev_entry = entry@;
            entry[lane + j] = shuf_idx as u8;
            proof {
                assert(entry@ == prev_entry.update(lane + j, (start + j) as u8));
                assert forall|jj: int|
                    0 <= jj < j + 1 implies #[trigger] entry@[lane + jj] == (start + jj) as u8 by {
                    if jj < j {
                        assert(prev_entry[lane + jj] == (start + jj) as u8);
                        assert(entry@[lane + jj] == prev_entry[lane + jj]);
                    } else {
                        assert(entry@[lane + j] == (start + j) as u8);
                    }
                }
                assert forall|q: int, jj: int|
                    0 <= q < i && 0 <= jj < elem_len implies #[trigger] entry@[q * elem_len + jj]
                        == if jj < tag_len@[vt(tag, q) as int] {
                        ((shuffle_off(tag, tag_len@, q) + jj) as u8)
                    } else {
                        fill_byte
                    } by {
                    lemma_lane_step(q, i as int, elem_len as int);
                    assert(prev_entry[q * elem_len + jj] == if jj < tag_len@[vt(tag, q) as int] {
                        ((shuffle_off(tag, tag_len@, q) + jj) as u8)
                    } else {
                        fill_byte
                    });
                    assert(q * elem_len + jj < lane + j);
                    assert(entry@[q * elem_len + jj] == prev_entry[q * elem_len + jj]);
                }
                assert forall|jj: int|
                    lane + j + 1 <= jj < entry_len implies entry@[jj] == fill_byte by {
                    assert(prev_entry[jj] == fill_byte);
                }
            }
            shuf_idx = shuf_idx + 1;
            j = j + 1;
        }
        i = i + 1;
        proof {
            assert(shuffle_off(tag, tag_len@, i as int) == shuffle_off(tag, tag_len@, i - 1)
                + tag_len@[vt(tag, i - 1) as int]);
            lemma_shuffle_off_bound(tag, tag_len@, elem_len as int, i as int);
            assert forall|q: int, jj: int|
                0 <= q < i && 0 <= jj < elem_len implies #[trigger] entry@[q * elem_len + jj]
                    == if jj < tag_len@[vt(tag, q) as int] {
                    ((shuffle_off(tag, tag_len@, q) + jj) as u8)
                } else {
                    fill_byte
                } by {
                if q < i - 1 {
                    lemma_lane_step(q, i - 1, elem_len as int);
                }
            }
        }
    }
    entry
}

/// The 256-entry table of encode-side shuffle controls.
pub fn encode_shuffle_table(tag_len: [usize; 4], elem_len: usize, fill_byte: u8) -> (r: Vec<
    Vec<u8>,
>)
    requires
        1 <= elem_len <= 8,
        forall|k: int| 0 <= k < 4 ==> tag_len@[k] <= elem_len,
    ensures
        r@.len() == 256,
        forall|t: int| 0 <= t < 256 ==> (#[trigger] r@[t])@.len() == 4 * elem_len,
        forall|t: int, i: int, j: int|
            0 <= t < 256 && 0 <= i < 4 && 0 <= j < tag_len@[vt(t as u8, i) as int]
                ==> #[trigger] r@[t]@[shuffle_off(t as u8, tag_len@, i) + j] == (i * elem_len
                + j) as u8,
{
    let mut table: Vec<Vec<u8>> = Vec::new();
    let mut t: usize = 0;
    while t < 256
        invariant
            t <= 256,
            1 <= elem_len <= 8,
            forall|k: int| 0 <= k < 4 ==> tag_len@[k] <= elem_len,
            table@.len() == t,
            forall|u: int| 0 <= u < t ==> (#[trigger] table@[u])@.len() == 4 * elem_len,
            forall|u: int, i: int, j: int|
                0 <= u < t && 0 <= i < 4 && 0 <= j < tag_len@[vt(u as u8, i) as int]
                    ==> #[trigger] table@[u]@[shuffle_off(u as u8, tag_len@, i) + j] == (i
                    * elem_len + j) as u8,
        decreases 256 - t,
    {
        let entry = encode_shuffle_entry(t as u8, tag_len, elem_len, fill_byte);
        table.push(entry);
        t = t + 1;
    }
    table
}

/// The 256-entry table of decode-side shuffle controls.
pub fn decode_shuffle_table(tag_len: [usize; 4], elem_len: usize, fill_byte: u8) -> (r: Vec<
    Vec<u8>,
>)
    requires
        1 <= elem_len <= 8,
        forall|k: int| 0 <= k < 4 ==> tag_len@[k] <= elem_len,
    ensures
        r@.len() == 256,
        forall|t: int| 0 <= t < 256 ==> (#[trigger] r@[t])@.len() == 4 * elem_len,
        forall|t: int, i: int, j: int|
            0 <= t < 256 && 0 <= i < 4 && 0 <= j < elem_len ==> #[trigger] r@[t]@[i * elem_len
                + j] == if j < tag_len@[vt(t as u8, i) as int] {
                ((shuffle_off(t as u8, tag_len@, i) + j) as u8)
            } else {
                fill_byte
            },
{
    let mut table: Vec<Vec<u8>> = Vec::new();
    let mut t: usize = 0;
    while t < 256
        invariant
            t <= 256,
            1 <= elem_len <= 8,
            forall|k: int| 0 <= k < 4 ==> tag_len@[k] <= elem_len,
            table@.len() == t,
            forall|u: int| 0 <= u < t ==> (#[trigger] table@[u])@.len() == 4 * elem_len,
            forall|u: int, i: int, j: int|
                0 <= u < t && 0 <= i < 4 && 0 <= j < elem_len ==> #[trigger] table@[u]@[i
                    * elem_len + j] == if j < tag_len@[vt(u as u8, i) as int] {
                    ((shuffle_off(u as u8, tag_len@, i) + j) as u8)
                } else {
                    fill_byte
                },
        decreases 256 - t,
    {
        let entry = decode_shuffle_entry(t as u8, tag_len, elem_len, fill_byte);
        table.push(entry);
        t = t + 1;
    }
    table
}

/// The 16-entry table mapping a tag's low nibble (two value-tags) to the
/// payload length of those two values.
pub fn generate_nibble_tag_len_table(tag_len: [usize; 4]) -> (r: Vec<u8>)
    requires
        forall|k: int| 0 <= k < 4 ==> tag_len@[k] <= 8,
    ensures
        r@.len() == 16,
        forall|t: int|
            0 <= t < 16 ==> #[trigger] r@[t] == tag_len@[vt(t as u8, 0) as int] + tag_len@[vt(
                t as u8,
                1,
            ) as int],
{
    let mut table: Vec<u8> = Vec::new();
    let mut t: usize = 0;
    while t < 16
        invariant
            t <= 16,
            table@.len() == t,
            forall|k: int| 0 <= k < 4 ==> tag_len@[k] <= 8,
            forall|u: int|
                0 <= u < t ==> #[trigger] table@[u] == tag_len@[vt(u as u8, 0) as int]
                    + tag_len@[vt(u as u8, 1) as int],
        decreases 16 - t,
    {
        let tag: u8 = t as u8;
        proof {
            lemma_vt_bound(tag);
        }
        let len: usize = tag_len[(tag & 3) as usize] + tag_len[((tag >> 2) & 3) as usize];
        table.push(len as u8);
        t = t + 1;
    }
    table
}

} // verus!
