//! The 64-bit path hash: FNV-1a over the bytes of a virtual path.
//!
//! The index's file table keys every entry by this hash; lookups by path
//! go through it, so two paths with equal hashes alias the same entry.
use vstd::prelude::*;

verus! {

/// FNV-1a over a byte sequence: start from the offset basis, then for each
/// byte xor it in and multiply by the FNV prime, wrapping at 64 bits.
pub open spec fn fnv1a(s: Seq<u8>) -> u64
    decreases s.len(),
{
    if s.len() == 0 {
        0xcbf29ce484222325u64
    } else {
        vstd::wrapping::u64_specs::wrapping_mul(
            fnv1a(s.drop_last()) ^ (s.last() as u64),
            0x100000001b3u64,
        )
    }
}

/// Computes the FNV-1a hash of a path's bytes.
pub fn path_hash(s: &Vec<u8>) -> (r: u64)
    ensures
        r == fnv1a(s@),
{
    let mut h: u64 = 0xcbf29ce484222325;
    let mut i: usize = 0;
    let n = s.len();
    while i < n
        invariant
            i <= n,
            n == s@.len(),
            h == fnv1a(s@.subrange(0, i as int)),
        decreases n - i,
    {
        h = (h ^ (s[i] as u64)).wrapping_mul(0x100000001b3);
        proof {
            assert(s@.subrange(0, i + 1).drop_last() =~= s@.subrange(0, i as int));
            assert(s@.subrange(0, i + 1).last() == s@[i as int]);
        }
        i = i + 1;
    }
    proof {
        assert(s@.subrange(0, n as int) =~= s@);
    }
    h
}

} // verus!
