//! Expansion of the index's compressed path tree into full virtual paths.
//!
//! The payload is a run of records. Each record starts with a little-endian
//! 32-bit value. Zero toggles between two phases: building a table of
//! reusable path prefixes, and emitting full paths (entering the building
//! phase clears the table). A nonzero value `ix` names prefix `ix - 1` of
//! the table, to be extended with the null-terminated byte string that
//! follows (a reference past the table's end stands for the empty prefix,
//! which is how the first prefixes are made); the result is pushed onto
//! the table in the building phase and emitted as a finished path
//! otherwise. A record that runs past the payload's end, or a fragment
//! with no terminator, is an `IndexCorrupt` error.
use vstd::prelude::*;

use crate::DecodeError;
use crate::bytes::concat_bytes;
use crate::bytes::find_nul;
use crate::bytes::find_nul_at;
use crate::bytes::le_uint;
use crate::bytes::lemma_find_nul_ge;
use crate::bytes::slice_bytes;

verus! {

/// Runs the expansion from the state `(off, base, temp, out)`: `base` is
/// true in the prefix-building phase, `temp` holds the reusable prefixes,
/// and `out` the paths emitted so far. Yields the paths left when the
/// payload is consumed, or nothing on a malformed payload.
pub open spec fn spec_expand(
    d: Seq<u8>,
    off: int,
    base: bool,
    temp: Seq<Seq<u8>>,
    out: Seq<Seq<u8>>,
) -> Option<Seq<Seq<u8>>>
    decreases d.len() - off,
    via spec_expand_dec
{
    if off == d.len() {
        Some(out)
    } else if off < 0 || off + 4 > d.len() {
        None
    } else {
        let ix = le_uint(d, off, 4);
        if ix == 0 {
            spec_expand(d, off + 4, !base, if !base { Seq::empty() } else { temp }, out)
        } else {
            let z = find_nul(d, off + 4);
            if z >= d.len() {
                None
            } else {
                let prefix: Seq<u8> = if ix - 1 < temp.len() {
                    temp[ix - 1]
                } else {
                    Seq::empty()
                };
                let p = prefix + d.subrange(off + 4, z);
                if base {
                    spec_expand(d, z + 1, base, temp.push(p), out)
                } else {
                    spec_expand(d, z + 1, base, temp, out.push(p))
                }
            }
        }
    }
}

#[via_fn]
proof fn spec_expand_dec(d: Seq<u8>, off: int, base: bool, temp: Seq<Seq<u8>>, out: Seq<Seq<u8>>) {
    if off != d.len() && 0 <= off && off + 4 <= d.len() {
        lemma_find_nul_ge(d, off + 4);
    }
}

/// The complete expansion of a path payload, from the initial state.
pub open spec fn spec_expand_all(d: Seq<u8>) -> Option<Seq<Seq<u8>>> {
    spec_expand(d, 0, false, Seq::empty(), Seq::empty())
}

/// Expands a path payload into the full list of virtual paths, in the
/// order the payload emits them.
pub fn expand_paths(d: &Vec<u8>) -> (r: Result<Vec<Vec<u8>>, DecodeError>)
    ensures
        match r {
            Ok(ps) => spec_expand_all(d@) == Some(ps.deep_view()),
            Err(e) => {
                &&& spec_expand_all(d@) is None
                &&& e == DecodeError::IndexCorrupt
            },
        },
{
    let n = d.len();
    let mut off: usize = 0;
    let mut base = false;
    let mut temp: Vec<Vec<u8>> = Vec::new();
    let mut out: Vec<Vec<u8>> = Vec::new();
    proof {
        assert(temp.deep_view() =~= Seq::<Seq<u8>>::empty());
        assert(out.deep_view() =~= Seq::<Seq<u8>>::empty());
    }
    while off < n
        invariant
            off <= n,
            n == d@.len(),
            spec_expand_all(d@) == spec_expand(
                d@,
                off as int,
                base,
                temp.deep_view(),
                out.deep_view(),
            ),
        decreases n - off,
    {
        let rem = n - off;
        if rem < 4 {
            return Err(DecodeError::IndexCorrupt);
        }
        let ix = crate::bytes::read_u32(d, off);
        proof {
            crate::bytes::lemma_le_uint_bound(d@, off as int, 4);
            crate::bytes::lemma_pow256_small();
        }
        if ix == 0 {
            if !base {
                temp = Vec::new();
                proof {
                    assert(temp.deep_view() =~= Seq::<Seq<u8>>::empty());
                }
            }
            base = !base;
            off = off + 4;
        } else {
            let z = find_nul_at(d, off + 4);
            if z >= n {
                return Err(DecodeError::IndexCorrupt);
            }
            let frag = slice_bytes(d, off + 4, z - (off + 4));
            let p = if (ix as usize) - 1 < temp.len() {
                let joined = concat_bytes(&temp[(ix as usize) - 1], &frag);
                proof {
                    assert(temp.deep_view()[ix - 1] =~= temp@[ix - 1]@);
                }
                joined
            } else {
                frag
            };
            proof {
                assert(Seq::<u8>::empty() + d@.subrange(off + 4, z as int) =~= d@.subrange(
                    off + 4,
                    z as int,
                ));
            }
            if base {
                let ghost prev = temp.deep_view();
                temp.push(p);
                proof {
                    assert(temp.deep_view() =~~= prev.push(p@));
                }
            } else {
                let ghost prev = out.deep_view();
                out.push(p);
                proof {
                    assert(out.deep_view() =~~= prev.push(p@));
                }
            }
            off = z + 1;
        }
    }
    Ok(out)
}

} // verus!
