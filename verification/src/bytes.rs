//! Little-endian primitive readers over a byte buffer.
use vstd::prelude::*;

verus! {

/// The unsigned little-endian integer held by `width` bytes of `b`
/// starting at `off`.
pub open spec fn le_uint(b: Seq<u8>, off: int, width: int) -> int
    decreases width,
{
    if width <= 0 {
        0
    } else {
        b[off] + 256 * le_uint(b, off + 1, width - 1)
    }
}

/// Reads a `u16` from two little-endian bytes.
pub fn read_u16(b: &Vec<u8>, off: usize) -> (r: u16)
    requires
        off + 2 <= b@.len(),
    ensures
        r == le_uint(b@, off as int, 2),
{
    let n = b.len();
    let lo = b[off] as u16;
    let hi = b[off + 1] as u16;
    proof {
        assert(le_uint(b@, off as int, 2)
            == b@[off as int] + 256 * le_uint(b@, off + 1, 1));
        assert(le_uint(b@, off + 1, 1) == b@[off + 1] + 256 * le_uint(b@, off + 2, 0));
    }
    lo + hi * 256
}

/// Reads a `u32` from four little-endian bytes.
pub fn read_u32(b: &Vec<u8>, off: usize) -> (r: u32)
    requires
        off + 4 <= b@.len(),
    ensures
        r == le_uint(b@, off as int, 4),
{
    let n = b.len();
    let b0 = b[off] as u32;
    let b1 = b[off + 1] as u32;
    let b2 = b[off + 2] as u32;
    let b3 = b[off + 3] as u32;
    proof {
        reveal_le_uint_4(b@, off as int);
    }
    b0 + b1 * 256 + b2 * 65536 + b3 * 16777216
}

/// Unfolds `le_uint` at width 4 into an explicit polynomial.
proof fn reveal_le_uint_4(b: Seq<u8>, off: int)
    ensures
        le_uint(b, off, 4) == b[off] + 256 * b[off + 1] + 65536 * b[off + 2]
            + 16777216 * b[off + 3],
{
    assert(le_uint(b, off + 3, 1) == b[off + 3] + 256 * le_uint(b, off + 4, 0));
    assert(le_uint(b, off + 2, 2) == b[off + 2] + 256 * le_uint(b, off + 3, 1));
    assert(le_uint(b, off + 1, 3) == b[off + 1] + 256 * le_uint(b, off + 2, 2));
    assert(le_uint(b, off, 4) == b[off] + 256 * le_uint(b, off + 1, 3));
}

/// Reads a `u64` from eight little-endian bytes.
pub fn read_u64(b: &Vec<u8>, off: usize) -> (r: u64)
    requires
        off + 8 <= b@.len(),
    ensures
        r == le_uint(b@, off as int, 8),
{
    let n = b.len();
    let lo = read_u32(b, off) as u64;
    let hi = read_u32(b, off + 4) as u64;
    proof {
        lemma_le_uint_split(b@, off as int, 4, 8);
        lemma_le_uint_bound(b@, off as int, 4);
        lemma_le_uint_bound(b@, off + 4, 4);
        lemma_pow256_4();
    }
    lo + hi * 0x1_0000_0000
}

/// Evaluates the first few powers of 256.
proof fn lemma_pow256_4()
    ensures
        pow256(4) == 0x1_0000_0000,
{
    assert(pow256(0) == 1);
    assert(pow256(1) == 256 * pow256(0));
    assert(pow256(2) == 256 * pow256(1));
    assert(pow256(3) == 256 * pow256(2));
    assert(pow256(4) == 256 * pow256(3));
}

/// `le_uint` over `w` bytes splits at any point `k` into a low and a high part.
pub proof fn lemma_le_uint_split(b: Seq<u8>, off: int, k: int, w: int)
    requires
        0 <= k <= w,
    ensures
        le_uint(b, off, w) == le_uint(b, off, k) + pow256(k) * le_uint(b, off + k, w - k),
    decreases k,
{
    if k <= 0 {
        assert(pow256(0) == 1);
    } else {
        lemma_le_uint_split(b, off + 1, k - 1, w - 1);
        assert(le_uint(b, off, w) == b[off] + 256 * le_uint(b, off + 1, w - 1));
        assert(le_uint(b, off, k) == b[off] + 256 * le_uint(b, off + 1, k - 1));
        assert(pow256(k) == 256 * pow256(k - 1));
        assert(256 * (le_uint(b, off + 1, k - 1) + pow256(k - 1) * le_uint(b, off + k, w - k))
            == 256 * le_uint(b, off + 1, k - 1) + 256 * (pow256(k - 1) * le_uint(b, off + k, w
            - k))) by (nonlinear_arith);
        assert(256 * (pow256(k - 1) * le_uint(b, off + k, w - k))
            == (256 * pow256(k - 1)) * le_uint(b, off + k, w - k)) by (nonlinear_arith);
    }
}

/// 256 raised to the power `k`.
pub open spec fn pow256(k: int) -> int
    decreases k,
{
    if k <= 0 {
        1
    } else {
        256 * pow256(k - 1)
    }
}

/// Evaluates `pow256` at the widths the formats use.
pub proof fn lemma_pow256_small()
    ensures
        pow256(1) == 0x100,
        pow256(2) == 0x1_0000,
        pow256(3) == 0x100_0000,
        pow256(4) == 0x1_0000_0000,
        pow256(8) == 0x1_0000_0000_0000_0000,
{
    assert(pow256(0) == 1);
    assert(pow256(1) == 256 * pow256(0));
    assert(pow256(2) == 256 * pow256(1));
    assert(pow256(3) == 256 * pow256(2));
    assert(pow256(4) == 256 * pow256(3));
    assert(pow256(5) == 256 * pow256(4));
    assert(pow256(6) == 256 * pow256(5));
    assert(pow256(7) == 256 * pow256(6));
    assert(pow256(8) == 256 * pow256(7));
}

/// Each byte of `b` is below 256, so `le_uint` over `w` bytes lies in
/// `[0, pow256(w))`.
pub proof fn lemma_le_uint_bound(b: Seq<u8>, off: int, w: int)
    ensures
        0 <= le_uint(b, off, w) < pow256(w),
    decreases w,
{
    if w <= 0 {
    } else {
        lemma_le_uint_bound(b, off + 1, w - 1);
        assert(256 * le_uint(b, off + 1, w - 1) <= 256 * (pow256(w - 1) - 1))
            by (nonlinear_arith)
            requires
                le_uint(b, off + 1, w - 1) <= pow256(w - 1) - 1,
        ;
    }
}

/// The index of the first zero byte of `b` at or after `off`; `b.len()`
/// if there is none.
pub open spec fn find_nul(b: Seq<u8>, off: int) -> int
    decreases b.len() - off,
{
    if off < 0 || off >= b.len() {
        b.len() as int
    } else if b[off] == 0 {
        off
    } else {
        find_nul(b, off + 1)
    }
}

/// `find_nul` never answers before the position it starts from.
pub proof fn lemma_find_nul_ge(b: Seq<u8>, off: int)
    requires
        0 <= off <= b.len(),
    ensures
        off <= find_nul(b, off) <= b.len(),
    decreases b.len() - off,
{
    if off < b.len() && b[off] != 0 {
        lemma_find_nul_ge(b, off + 1);
    }
}

/// Scans for the first zero byte at or after `off`.
pub fn find_nul_at(b: &Vec<u8>, off: usize) -> (r: usize)
    requires
        off <= b@.len(),
    ensures
        r == find_nul(b@, off as int),
        off <= r <= b@.len(),
{
    let n = b.len();
    let mut j = off;
    while j < n && b[j] != 0
        invariant
            off <= j <= n,
            n == b@.len(),
            find_nul(b@, off as int) == find_nul(b@, j as int),
        decreases n - j,
    {
        j = j + 1;
    }
    j
}

/// Copies `len` bytes of `b` starting at `off` into a fresh vector.
pub fn slice_bytes(b: &Vec<u8>, off: usize, len: usize) -> (r: Vec<u8>)
    requires
        off + len <= b@.len(),
    ensures
        r@ == b@.subrange(off as int, off + len),
{
    let n = b.len();
    let mut out: Vec<u8> = Vec::new();
    let mut i: usize = 0;
    while i < len
        invariant
            i <= len,
            off + len <= b@.len(),
            off + len <= usize::MAX,
            out@ == b@.subrange(off as int, off + i),
        decreases len - i,
    {
        out.push(b[off + i]);
        proof {
            assert(out@ =~= b@.subrange(off as int, off + i + 1));
        }
        i = i + 1;
    }
    out
}

/// Joins two byte vectors into a fresh one.
pub fn concat_bytes(a: &Vec<u8>, b: &Vec<u8>) -> (r: Vec<u8>)
    ensures
        r@ == a@ + b@,
{
    let mut out = slice_bytes(a, 0, a.len());
    proof {
        assert(out@ =~= a@ + b@.subrange(0, 0));
    }
    let n = b.len();
    let mut i: usize = 0;
    while i < n
        invariant
            i <= n,
            n == b@.len(),
            out@ == a@ + b@.subrange(0, i as int),
        decreases n - i,
    {
        out.push(b[i]);
        proof {
            assert(out@ =~= a@ + b@.subrange(0, i + 1));
        }
        i = i + 1;
    }
    proof {
        assert(a@ + b@.subrange(0, n as int) =~= a@ + b@);
    }
    out
}

} // verus!
