//! Delta coding: first differences against an initial value, and their
//! wrapping prefix sums.
//!
//! Delta mode serializes `v[i] - v[i-1]` (wrapping, with `v[-1]` the
//! caller's initial value) in place of `v[i]`. The lemmas here show that
//! the prefix sums of those differences restore the original values and
//! that their total telescopes to `last - initial`.

use vstd::prelude::*;

verus! {

/// Wrapping 32-bit addition.
pub open spec fn wadd32(a: u32, b: u32) -> u32 {
    vstd::wrapping::u32_specs::wrapping_add(a, b)
}

/// Wrapping 32-bit subtraction.
pub open spec fn wsub32(a: u32, b: u32) -> u32 {
    vstd::wrapping::u32_specs::wrapping_sub(a, b)
}

/// Wrapping 64-bit addition.
pub open spec fn wadd64(a: u64, b: u64) -> u64 {
    vstd::wrapping::u64_specs::wrapping_add(a, b)
}

/// Wrapping 64-bit subtraction.
pub open spec fn wsub64(a: u64, b: u64) -> u64 {
    vstd::wrapping::u64_specs::wrapping_sub(a, b)
}

/// The first differences of `vs` against `initial`.
pub open spec fn deltas32(initial: u32, vs: Seq<u32>) -> Seq<u32> {
    Seq::new(vs.len(), |i: int| wsub32(vs[i], if i == 0 { initial } else { vs[i - 1] }))
}

/// The first differences of `vs` against `initial`.
pub open spec fn deltas64(initial: u64, vs: Seq<u64>) -> Seq<u64> {
    Seq::new(vs.len(), |i: int| wsub64(vs[i], if i == 0 { initial } else { vs[i - 1] }))
}

/// The wrapping prefix sum `initial + ds[0] + ... + ds[i]`.
pub open spec fn psum_at32(initial: u32, ds: Seq<u32>, i: int) -> u32
    decreases i + 1,
{
    if i < 0 {
        initial
    } else {
        wadd32(psum_at32(initial, ds, i - 1), ds[i])
    }
}

/// The wrapping prefix sum `initial + ds[0] + ... + ds[i]`.
pub open spec fn psum_at64(initial: u64, ds: Seq<u64>, i: int) -> u64
    decreases i + 1,
{
    if i < 0 {
        initial
    } else {
        wadd64(psum_at64(initial, ds, i - 1), ds[i])
    }
}

/// All wrapping prefix sums of `ds` started at `initial`.
pub open spec fn psums32(initial: u32, ds: Seq<u32>) -> Seq<u32> {
    Seq::new(ds.len(), |i: int| psum_at32(initial, ds, i))
}

/// All wrapping prefix sums of `ds` started at `initial`.
pub open spec fn psums64(initial: u64, ds: Seq<u64>) -> Seq<u64> {
    Seq::new(ds.len(), |i: int| psum_at64(initial, ds, i))
}

/// Adding a wrapping difference back cancels: `a + (b - a) == b`.
pub proof fn lemma_wadd_wsub_cancel32(a: u32, b: u32)
    ensures
        wadd32(a, wsub32(b, a)) == b,
{
}

/// Adding a wrapping difference back cancels: `a + (b - a) == b`.
pub proof fn lemma_wadd_wsub_cancel64(a: u64, b: u64)
    ensures
        wadd64(a, wsub64(b, a)) == b,
{
}

/// Wrapping addition is associative.
pub proof fn lemma_wadd_assoc32(a: u32, b: u32, c: u32)
    ensures
        wadd32(wadd32(a, b), c) == wadd32(a, wadd32(b, c)),
{
}

/// Wrapping addition is associative.
pub proof fn lemma_wadd_assoc64(a: u64, b: u64, c: u64)
    ensures
        wadd64(wadd64(a, b), c) == wadd64(a, wadd64(b, c)),
{
}

/// The prefix sums of the first differences of `vs` restore `vs`:
/// `initial + (vs[0] - initial) + (vs[1] - vs[0]) + ... + (vs[i] - vs[i-1])
/// == vs[i]`.
pub proof fn lemma_psum_deltas32(initial: u32, vs: Seq<u32>, i: int)
    requires
        0 <= i < vs.len(),
    ensures
        psum_at32(initial, deltas32(initial, vs), i) == vs[i],
    decreases i,
{
    let ds = deltas32(initial, vs);
    if i == 0 {
        assert(psum_at32(initial, ds, -1) == initial);
        lemma_wadd_wsub_cancel32(initial, vs[0]);
    } else {
        lemma_psum_deltas32(initial, vs, i - 1);
        lemma_wadd_wsub_cancel32(vs[i - 1], vs[i]);
    }
}

/// The prefix sums of the first differences of `vs` restore `vs`.
pub proof fn lemma_psum_deltas64(initial: u64, vs: Seq<u64>, i: int)
    requires
        0 <= i < vs.len(),
    ensures
        psum_at64(initial, deltas64(initial, vs), i) == vs[i],
    decreases i,
{
    let ds = deltas64(initial, vs);
    if i == 0 {
        assert(psum_at64(initial, ds, -1) == initial);
        lemma_wadd_wsub_cancel64(initial, vs[0]);
    } else {
        lemma_psum_deltas64(initial, vs, i - 1);
        lemma_wadd_wsub_cancel64(vs[i - 1], vs[i]);
    }
}

/// The wrapping sum of the first differences telescopes:
/// `(vs[0] - initial) + (vs[1] - vs[0]) + ... + (vs[i-1] - vs[i-2])
/// == vs[i-1] - initial`. The sum is `psum_at` started at zero.
pub proof fn lemma_sum_deltas32(initial: u32, vs: Seq<u32>, i: int)
    requires
        0 < i <= vs.len(),
    ensures
        psum_at32(0, deltas32(initial, vs), i - 1) == wsub32(vs[i - 1], initial),
    decreases i,
{
    let ds = deltas32(initial, vs);
    if i == 1 {
        assert(psum_at32(0, ds, -1) == 0);
        assert(psum_at32(0, ds, 0) == wadd32(0, ds[0]));
    } else {
        lemma_sum_deltas32(initial, vs, i - 1);
        assert(wadd32(wsub32(vs[i - 2], initial), wsub32(vs[i - 1], vs[i - 2])) == wsub32(
            vs[i - 1],
            initial,
        ));
    }
}

/// The wrapping sum of the first differences telescopes.
pub proof fn lemma_sum_deltas64(initial: u64, vs: Seq<u64>, i: int)
    requires
        0 < i <= vs.len(),
    ensures
        psum_at64(0, deltas64(initial, vs), i - 1) == wsub64(vs[i - 1], initial),
    decreases i,
{
    let ds = deltas64(initial, vs);
    if i == 1 {
        assert(psum_at64(0, ds, -1) == 0);
        assert(psum_at64(0, ds, 0) == wadd64(0, ds[0]));
    } else {
        lemma_sum_deltas64(initial, vs, i - 1);
        assert(wadd64(wsub64(vs[i - 2], initial), wsub64(vs[i - 1], vs[i - 2])) == wsub64(
            vs[i - 1],
            initial,
        ));
    }
}

/// Prefix sums over a block of four entries agree with prefix sums over
/// the whole sequence, when started from the sum just before the block.
pub proof fn lemma_psum_block32(initial: u32, full: Seq<u32>, prev: u32, d: Seq<u32>, b: int)
    requires
        0 <= b,
        b + 4 <= full.len(),
        d.len() == 4,
        forall|k: int| 0 <= k < 4 ==> d[k] == full[b + k],
        prev == psum_at32(initial, full, b - 1),
    ensures
        forall|k: int| 0 <= k < 4 ==> psum_at32(prev, d, k) == psum_at32(initial, full, b + k),
{
    assert(psum_at32(prev, d, -1) == prev);
    assert(psum_at32(prev, d, 0) == psum_at32(initial, full, b));
    assert(psum_at32(prev, d, 1) == psum_at32(initial, full, b + 1));
    assert(psum_at32(prev, d, 2) == psum_at32(initial, full, b + 2));
    assert(psum_at32(prev, d, 3) == psum_at32(initial, full, b + 3));
}

/// Prefix sums over a block of four entries agree with prefix sums over
/// the whole sequence, when started from the sum just before the block.
pub proof fn lemma_psum_block64(initial: u64, full: Seq<u64>, prev: u64, d: Seq<u64>, b: int)
    requires
        0 <= b,
        b + 4 <= full.len(),
        d.len() == 4,
        forall|k: int| 0 <= k < 4 ==> d[k] == full[b + k],
        prev == psum_at64(initial, full, b - 1),
    ensures
        forall|k: int| 0 <= k < 4 ==> psum_at64(prev, d, k) == psum_at64(initial, full, b + k),
{
    assert(psum_at64(prev, d, -1) == prev);
    assert(psum_at64(prev, d, 0) == psum_at64(initial, full, b));
    assert(psum_at64(prev, d, 1) == psum_at64(initial, full, b + 1));
    assert(psum_at64(prev, d, 2) == psum_at64(initial, full, b + 2));
    assert(psum_at64(prev, d, 3) == psum_at64(initial, full, b + 3));
}

/// A running total advances by a block's own wrapping sum.
pub proof fn lemma_sum_block32(full: Seq<u32>, d: Seq<u32>, b: int)
    requires
        0 <= b,
        b + 4 <= full.len(),
        d.len() == 4,
        forall|k: int| 0 <= k < 4 ==> d[k] == full[b + k],
    ensures
        psum_at32(0, full, b + 3) == wadd32(psum_at32(0, full, b - 1), psum_at32(0, d, 3)),
{
    let a = psum_at32(0, full, b - 1);
    assert(psum_at32(0, d, -1) == 0);
    assert(wadd32(a, 0) == a);
    assert(psum_at32(0, full, b) == wadd32(a, psum_at32(0, d, 0))) by {
        lemma_wadd_assoc32(a, 0, d[0]);
    }
    assert(psum_at32(0, full, b + 1) == wadd32(a, psum_at32(0, d, 1))) by {
        lemma_wadd_assoc32(a, psum_at32(0, d, 0), d[1]);
    }
    assert(psum_at32(0, full, b + 2) == wadd32(a, psum_at32(0, d, 2))) by {
        lemma_wadd_assoc32(a, psum_at32(0, d, 1), d[2]);
    }
    assert(psum_at32(0, full, b + 3) == wadd32(a, psum_at32(0, d, 3))) by {
        lemma_wadd_assoc32(a, psum_at32(0, d, 2), d[3]);
    }
}

/// A running total advances by a block's own wrapping sum.
pub proof fn lemma_sum_block64(full: Seq<u64>, d: Seq<u64>, b: int)
    requires
        0 <= b,
        b + 4 <= full.len(),
        d.len() == 4,
        forall|k: int| 0 <= k < 4 ==> d[k] == full[b + k],
    ensures
        psum_at64(0, full, b + 3) == wadd64(psum_at64(0, full, b - 1), psum_at64(0, d, 3)),
{
    let a = psum_at64(0, full, b - 1);
    assert(psum_at64(0, d, -1) == 0);
    assert(wadd64(a, 0) == a);
    assert(psum_at64(0, full, b) == wadd64(a, psum_at64(0, d, 0))) by {
        lemma_wadd_assoc64(a, 0, d[0]);
    }
    assert(psum_at64(0, full, b + 1) == wadd64(a, psum_at64(0, d, 1))) by {
        lemma_wadd_assoc64(a, psum_at64(0, d, 0), d[1]);
    }
    assert(psum_at64(0, full, b + 2) == wadd64(a, psum_at64(0, d, 2))) by {
        lemma_wadd_assoc64(a, psum_at64(0, d, 1), d[2]);
    }
    assert(psum_at64(0, full, b + 3) == wadd64(a, psum_at64(0, d, 3))) by {
        lemma_wadd_assoc64(a, psum_at64(0, d, 2), d[3]);
    }
}

} // verus!
