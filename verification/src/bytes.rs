//! Little-endian byte serialization of 32- and 64-bit values.
//!
//! A value of byte width `n` is stored as its `n` low bytes, least
//! significant first. Reading zero-extends. These helpers are the only
//! place where the crate touches individual payload bytes.

use vstd::prelude::*;

verus! {

/// Byte `j` (counting from the least significant) of `v`.
pub open spec fn byte_of32(v: u32, j: int) -> u8 {
    (((v >> (8 * j)) & 0xff) as u8)
}

/// Byte `j` (counting from the least significant) of `v`.
pub open spec fn byte_of64(v: u64, j: int) -> u8 {
    (((v >> (8 * j)) & 0xff) as u8)
}

/// The `n` low bytes of `v`, least significant first.
pub open spec fn le_bytes32(v: u32, n: nat) -> Seq<u8> {
    Seq::new(n, |j: int| byte_of32(v, j))
}

/// The `n` low bytes of `v`, least significant first.
pub open spec fn le_bytes64(v: u64, n: nat) -> Seq<u8> {
    Seq::new(n, |j: int| byte_of64(v, j))
}

/// The value of the bytes `s[j..]` read as a little-endian integer.
pub open spec fn le_val32_from(s: Seq<u8>, j: int) -> u32
    decreases s.len() - j,
{
    if j < 0 || j >= s.len() {
        0
    } else {
        (s[j] as u32) | (le_val32_from(s, j + 1) << 8)
    }
}

/// The value of `s` read as a little-endian integer, zero-extended.
pub open spec fn le_val32(s: Seq<u8>) -> u32 {
    le_val32_from(s, 0)
}

/// The value of the bytes `s[j..]` read as a little-endian integer.
pub open spec fn le_val64_from(s: Seq<u8>, j: int) -> u64
    decreases s.len() - j,
{
    if j < 0 || j >= s.len() {
        0
    } else {
        (s[j] as u64) | (le_val64_from(s, j + 1) << 8)
    }
}

/// The value of `s` read as a little-endian integer, zero-extended.
pub open spec fn le_val64(s: Seq<u8>) -> u64 {
    le_val64_from(s, 0)
}

/// The largest value representable in `n` bytes.
pub open spec fn max_val32(n: nat) -> u32 {
    if n == 0 {
        0
    } else if n == 1 {
        0xff
    } else if n == 2 {
        0xffff
    } else if n == 3 {
        0xffffff
    } else {
        0xffffffff
    }
}

/// The largest value representable in `n` bytes.
pub open spec fn max_val64(n: nat) -> u64 {
    if n == 0 {
        0
    } else if n == 1 {
        0xff
    } else if n == 2 {
        0xffff
    } else if n == 3 {
        0xffffff
    } else if n == 4 {
        0xffffffff
    } else if n == 5 {
        0xff_ffffffff
    } else if n == 6 {
        0xffff_ffffffff
    } else if n == 7 {
        0xffffff_ffffffff
    } else {
        0xffffffff_ffffffff
    }
}

/// A masked byte fits in `u8`.
pub proof fn lemma_byte_mask32(x: u32)
    by (bit_vector)
    ensures
        x & 0xff < 256,
{
}

/// A masked byte fits in `u8`.
pub proof fn lemma_byte_mask64(x: u64)
    by (bit_vector)
    ensures
        x & 0xff < 256,
{
}

/// Storing the `n` low bytes of `v` and reading them back yields `v`,
/// provided `v` fits in `n` bytes.
pub proof fn lemma_le_roundtrip32(v: u32, n: nat)
    requires
        n <= 4,
        v <= max_val32(n),
    ensures
        le_val32(le_bytes32(v, n)) == v,
{
    let s = le_bytes32(v, n);
    assert(s.len() == n);
    if n == 0 {
        assert(le_val32_from(s, 0) == 0);
    } else if n == 1 {
        assert(le_val32_from(s, 1) == 0);
        assert(le_val32_from(s, 0) == (s[0] as u32) | (0u32 << 8));
        assert(v <= 0xff ==> ((((v >> 0) & 0xff) as u8 as u32) | (0u32 << 8)) == v)
            by (bit_vector);
    } else if n == 2 {
        assert(le_val32_from(s, 2) == 0);
        assert(le_val32_from(s, 1) == (s[1] as u32) | (0u32 << 8));
        assert(le_val32_from(s, 0) == (s[0] as u32) | (le_val32_from(s, 1) << 8));
        assert(v <= 0xffff ==> ((((v >> 0) & 0xff) as u8 as u32) | (((((v >> 8) & 0xff) as u8
            as u32) | (0u32 << 8)) << 8)) == v) by (bit_vector);
    } else if n == 3 {
        assert(le_val32_from(s, 3) == 0);
        assert(le_val32_from(s, 2) == (s[2] as u32) | (0u32 << 8));
        assert(le_val32_from(s, 1) == (s[1] as u32) | (le_val32_from(s, 2) << 8));
        assert(le_val32_from(s, 0) == (s[0] as u32) | (le_val32_from(s, 1) << 8));
        assert(v <= 0xffffff ==> ((((v >> 0) & 0xff) as u8 as u32) | (((((v >> 8) & 0xff) as u8
            as u32) | (((((v >> 16) & 0xff) as u8 as u32) | (0u32 << 8)) << 8)) << 8)) == v)
            by (bit_vector);
    } else {
        assert(le_val32_from(s, 4) == 0);
        assert(le_val32_from(s, 3) == (s[3] as u32) | (0u32 << 8));
        assert(le_val32_from(s, 2) == (s[2] as u32) | (le_val32_from(s, 3) << 8));
        assert(le_val32_from(s, 1) == (s[1] as u32) | (le_val32_from(s, 2) << 8));
        assert(le_val32_from(s, 0) == (s[0] as u32) | (le_val32_from(s, 1) << 8));
        assert(((((v >> 0) & 0xff) as u8 as u32) | (((((v >> 8) & 0xff) as u8 as u32) | (((((v
            >> 16) & 0xff) as u8 as u32) | (((((v >> 24) & 0xff) as u8 as u32) | (0u32 << 8))
            << 8)) << 8)) << 8)) == v) by (bit_vector);
    }
}

/// Storing the `n` low bytes of `v` and reading them back yields `v`,
/// provided `v` fits in `n` bytes.
pub proof fn lemma_le_roundtrip64(v: u64, n: nat)
    requires
        n == 1 || n == 2 || n == 4 || n == 8,
        v <= max_val64(n),
    ensures
        le_val64(le_bytes64(v, n)) == v,
{
    let s = le_bytes64(v, n);
    assert(s.len() == n);
    if n == 1 {
        assert(le_val64_from(s, 1) == 0);
        assert(le_val64_from(s, 0) == (s[0] as u64) | (0u64 << 8));
        assert(v <= 0xff ==> ((((v >> 0) & 0xff) as u8 as u64) | (0u64 << 8)) == v)
            by (bit_vector);
    } else if n == 2 {
        assert(le_val64_from(s, 2) == 0);
        assert(le_val64_from(s, 1) == (s[1] as u64) | (0u64 << 8));
        assert(le_val64_from(s, 0) == (s[0] as u64) | (le_val64_from(s, 1) << 8));
        assert(v <= 0xffff ==> ((((v >> 0) & 0xff) as u8 as u64) | (((((v >> 8) & 0xff) as u8
            as u64) | (0u64 << 8)) << 8)) == v) by (bit_vector);
    } else if n == 4 {
        assert(le_val64_from(s, 4) == 0);
        assert(le_val64_from(s, 3) == (s[3] as u64) | (0u64 << 8));
        assert(le_val64_from(s, 2) == (s[2] as u64) | (le_val64_from(s, 3) << 8));
        assert(le_val64_from(s, 1) == (s[1] as u64) | (le_val64_from(s, 2) << 8));
        assert(le_val64_from(s, 0) == (s[0] as u64) | (le_val64_from(s, 1) << 8));
        assert(v <= 0xffffffff ==> ((((v >> 0) & 0xff) as u8 as u64) | (((((v >> 8) & 0xff)
            as u8 as u64) | (((((v >> 16) & 0xff) as u8 as u64) | (((((v >> 24) & 0xff) as u8
            as u64) | (0u64 << 8)) << 8)) << 8)) << 8)) == v) by (bit_vector);
    } else {
        assert(le_val64_from(s, 8) == 0);
        assert(le_val64_from(s, 7) == (s[7] as u64) | (0u64 << 8));
        assert(le_val64_from(s, 6) == (s[6] as u64) | (le_val64_from(s, 7) << 8));
        assert(le_val64_from(s, 5) == (s[5] as u64) | (le_val64_from(s, 6) << 8));
        assert(le_val64_from(s, 4) == (s[4] as u64) | (le_val64_from(s, 5) << 8));
        assert(le_val64_from(s, 3) == (s[3] as u64) | (le_val64_from(s, 4) << 8));
        assert(le_val64_from(s, 2) == (s[2] as u64) | (le_val64_from(s, 3) << 8));
        assert(le_val64_from(s, 1) == (s[1] as u64) | (le_val64_from(s, 2) << 8));
        assert(le_val64_from(s, 0) == (s[0] as u64) | (le_val64_from(s, 1) << 8));
        assert(((((v >> 0) & 0xff) as u8 as u64) | (((((v >> 8) & 0xff) as u8 as u64)
            | (((((v >> 16) & 0xff) as u8 as u64) | (((((v >> 24) & 0xff) as u8 as u64)
            | (((((v >> 32) & 0xff) as u8 as u64) | (((((v >> 40) & 0xff) as u8 as u64)
            | (((((v >> 48) & 0xff) as u8 as u64) | (((((v >> 56) & 0xff) as u8 as u64)
            | (0u64 << 8)) << 8)) << 8)) << 8)) << 8)) << 8)) << 8)) << 8)) == v)
            by (bit_vector);
    }
}

/// Reads `len` bytes starting at `pos` as a little-endian value.
pub fn read_le32(data: &[u8], pos: usize, len: usize) -> (v: u32)
    requires
        len <= 4,
        pos + len <= data@.len(),
    ensures
        v == le_val32(data@.subrange(pos as int, pos + len)),
{
    let ghost s = data@.subrange(pos as int, pos + len);
    let dlen: usize = data.len();
    let mut v: u32 = 0;
    let mut j: usize = len;
    while j > 0
        invariant
            pos + len <= dlen,
            j <= len,
            len <= 4,
            pos + len <= data@.len(),
            s == data@.subrange(pos as int, pos + len),
            v == le_val32_from(s, j as int),
        decreases j,
    {
        j = j - 1;
        v = (data[pos + j] as u32) | (v << 8);
    }
    v
}

/// Reads `len` bytes starting at `pos` as a little-endian value.
pub fn read_le64(data: &[u8], pos: usize, len: usize) -> (v: u64)
    requires
        len <= 8,
        pos + len <= data@.len(),
    ensures
        v == le_val64(data@.subrange(pos as int, pos + len)),
{
    let ghost s = data@.subrange(pos as int, pos + len);
    let dlen: usize = data.len();
    let mut v: u64 = 0;
    let mut j: usize = len;
    while j > 0
        invariant
            pos + len <= dlen,
            j <= len,
            len <= 8,
            pos + len <= data@.len(),
            s == data@.subrange(pos as int, pos + len),
            v == le_val64_from(s, j as int),
        decreases j,
    {
        j = j - 1;
        v = (data[pos + j] as u64) | (v << 8);
    }
    v
}

/// Writes the `len` low bytes of `v` at `pos`, least significant first.
pub fn write_le32(data: &mut Vec<u8>, pos: usize, v: u32, len: usize)
    requires
        len <= 4,
        pos + len <= old(data)@.len(),
    ensures
        final(data)@.len() == old(data)@.len(),
        final(data)@.subrange(pos as int, pos + len) == le_bytes32(v, len as nat),
        forall|k: int|
            0 <= k < final(data)@.len() && !(pos <= k < pos + len) ==> final(data)@[k]
                == old(data)@[k],
{
    let dlen: usize = data.len();
    let mut j: usize = 0;
    while j < len
        invariant
            pos + len <= dlen,
            j <= len,
            len <= 4,
            pos + len <= data@.len(),
            data@.len() == old(data)@.len(),
            forall|k: int| 0 <= k < j ==> data@[pos + k] == byte_of32(v, k),
            forall|k: int|
                0 <= k < data@.len() && !(pos <= k < pos + j) ==> data@[k] == old(data)@[k],
        decreases len - j,
    {
        let shift: u32 = 8 * (j as u32);
        let masked: u32 = (v >> shift) & 0xff;
        proof {
            lemma_byte_mask32(v >> shift);
        }
        data[pos + j] = masked as u8;
        proof {
            assert(masked as u8 == byte_of32(v, j as int));
        }
        j = j + 1;
    }
    proof {
        assert(data@.subrange(pos as int, pos + len) =~= le_bytes32(v, len as nat));
    }
}

/// Writes the `len` low bytes of `v` at `pos`, least significant first.
pub fn write_le64(data: &mut Vec<u8>, pos: usize, v: u64, len: usize)
    requires
        len <= 8,
        pos + len <= old(data)@.len(),
    ensures
        final(data)@.len() == old(data)@.len(),
        final(data)@.subrange(pos as int, pos + len) == le_bytes64(v, len as nat),
        forall|k: int|
            0 <= k < final(data)@.len() && !(pos <= k < pos + len) ==> final(data)@[k]
                == old(data)@[k],
{
    let dlen: usize = data.len();
    let mut j: usize = 0;
    while j < len
        invariant
            pos + len <= dlen,
            j <= len,
            len <= 8,
            pos + len <= data@.len(),
            data@.len() == old(data)@.len(),
            forall|k: int| 0 <= k < j ==> data@[pos + k] == byte_of64(v, k),
            forall|k: int|
                0 <= k < data@.len() && !(pos <= k < pos + j) ==> data@[k] == old(data)@[k],
        decreases len - j,
    {
        let shift: u32 = 8 * (j as u32);
        let masked: u64 = (v >> shift) & 0xff;
        proof {
            lemma_byte_mask64(v >> shift);
        }
        data[pos + j] = masked as u8;
        proof {
            assert(masked as u8 == byte_of64(v, j as int));
        }
        j = j + 1;
    }
    proof {
        assert(data@.subrange(pos as int, pos + len) =~= le_bytes64(v, len as nat));
    }
}

} // verus!
