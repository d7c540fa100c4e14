//! Decoder for the archive's root index.
//!
//! The index bytes hold, in order: a bundle table (a count, then per bundle
//! a length-prefixed name and its declared decompressed size), a file table
//! (a count, then per entry a 64-bit path hash and the bundle index, byte
//! offset and byte length of the entry's content), and finally the
//! compressed path-tree payload, which runs to the end of the buffer.
//! All integers are little-endian. Any truncated section, or a file entry
//! naming a bundle the bundle table does not declare, is an `IndexCorrupt`
//! error.
use vstd::prelude::*;

use crate::DecodeError;
use crate::bytes::le_uint;
use crate::bytes::lemma_le_uint_bound;
use crate::bytes::read_u32;
use crate::bytes::read_u64;
use crate::bytes::slice_bytes;

verus! {

/// One declared bundle: its name and its decompressed size in bytes.
pub struct BundleRecord {
    pub name: Vec<u8>,
    pub uncompressed_size: u32,
}

/// The mathematical shape of a bundle record.
pub struct BundleRecordV {
    pub name: Seq<u8>,
    pub uncompressed_size: u32,
}

impl View for BundleRecord {
    type V = BundleRecordV;

    open spec fn view(&self) -> BundleRecordV {
        BundleRecordV { name: self.name@, uncompressed_size: self.uncompressed_size }
    }
}

impl DeepView for BundleRecord {
    type V = BundleRecordV;

    open spec fn deep_view(&self) -> BundleRecordV {
        self.view()
    }
}

/// One file entry: a path hash mapped to a byte range of a bundle.
#[derive(Clone, Copy, Debug, PartialEq, Eq, Structural)]
pub struct FileRecord {
    pub hash: u64,
    pub bundle_index: u32,
    pub offset: u32,
    pub size: u32,
}

/// The decoded root index: the bundle table, the file table, and the raw
/// path-tree payload that follows them.
pub struct Index {
    pub bundles: Vec<BundleRecord>,
    pub files: Vec<FileRecord>,
    pub path_data: Vec<u8>,
}

/// The mathematical shape of a decoded index.
pub struct IndexV {
    pub bundles: Seq<BundleRecordV>,
    pub files: Seq<FileRecord>,
    pub path_data: Seq<u8>,
}

impl View for Index {
    type V = IndexV;

    open spec fn view(&self) -> IndexV {
        IndexV {
            bundles: self.bundles.deep_view(),
            files: self.files@,
            path_data: self.path_data@,
        }
    }
}

/// Parses one bundle-table entry at `off`: a 4-byte name length, the name,
/// and a 4-byte declared size. Yields the entry and the offset after it.
pub open spec fn spec_parse_bundle(b: Seq<u8>, off: int) -> Option<(BundleRecordV, int)> {
    if off + 4 > b.len() {
        None
    } else {
        let nl = le_uint(b, off, 4);
        if off + 8 + nl > b.len() {
            None
        } else {
            Some(
                (
                    BundleRecordV {
                        name: b.subrange(off + 4, off + 4 + nl),
                        uncompressed_size: le_uint(b, off + 4 + nl, 4) as u32,
                    },
                    off + 8 + nl,
                ),
            )
        }
    }
}

/// Parses `n` bundle-table entries starting at `off`, appending to `acc`.
pub open spec fn spec_parse_bundles(
    b: Seq<u8>,
    off: int,
    n: int,
    acc: Seq<BundleRecordV>,
) -> Option<(Seq<BundleRecordV>, int)>
    decreases n,
{
    if n <= 0 {
        Some((acc, off))
    } else {
        match spec_parse_bundle(b, off) {
            None => None,
            Some((e, off2)) => spec_parse_bundles(b, off2, n - 1, acc.push(e)),
        }
    }
}

/// The 20-byte file-table entry at `off`.
pub open spec fn spec_file_at(b: Seq<u8>, off: int) -> FileRecord {
    FileRecord {
        hash: le_uint(b, off, 8) as u64,
        bundle_index: le_uint(b, off + 8, 4) as u32,
        offset: le_uint(b, off + 12, 4) as u32,
        size: le_uint(b, off + 16, 4) as u32,
    }
}

/// Parses a whole index buffer, or nothing if any section is truncated or
/// a file entry points at an undeclared bundle.
pub open spec fn spec_parse_index(b: Seq<u8>) -> Option<IndexV> {
    if b.len() < 4 {
        None
    } else {
        let bc = le_uint(b, 0, 4);
        match spec_parse_bundles(b, 4, bc, Seq::empty()) {
            None => None,
            Some((bundles, off1)) => {
                if off1 + 4 > b.len() {
                    None
                } else {
                    let fc = le_uint(b, off1, 4);
                    if off1 + 4 + 20 * fc > b.len() {
                        None
                    } else {
                        let files = Seq::new(
                            fc as nat,
                            |i: int| spec_file_at(b, off1 + 4 + 20 * i),
                        );
                        if forall|i: int|
                            0 <= i < fc ==> (#[trigger] files[i]).bundle_index < bundles.len() {
                            Some(
                                IndexV {
                                    bundles,
                                    files,
                                    path_data: b.subrange(off1 + 4 + 20 * fc, b.len() as int),
                                },
                            )
                        } else {
                            None
                        }
                    }
                }
            },
        }
    }
}

/// Decodes the root index from its raw (already decompressed) bytes.
pub fn parse_index(b: &Vec<u8>) -> (r: Result<Index, DecodeError>)
    ensures
        match r {
            Ok(idx) => spec_parse_index(b@) == Some(idx@),
            Err(e) => {
                &&& spec_parse_index(b@) is None
                &&& e == DecodeError::IndexCorrupt
            },
        },
{
    let len = b.len();
    if len < 4 {
        return Err(DecodeError::IndexCorrupt);
    }
    let bc = read_u32(b, 0);
    proof {
        lemma_le_uint_bound(b@, 0, 4);
    }
    let mut bundles: Vec<BundleRecord> = Vec::new();
    proof {
        assert(bundles.deep_view() =~= Seq::<BundleRecordV>::empty());
    }
    let mut off: usize = 4;
    let mut i: u32 = 0;
    while i < bc
        invariant
            i <= bc,
            len == b@.len(),
            4 <= off <= len,
            bc == le_uint(b@, 0, 4),
            bundles@.len() == i,
            spec_parse_bundles(b@, 4, bc as int, Seq::empty()) == spec_parse_bundles(
                b@,
                off as int,
                bc - i,
                bundles.deep_view(),
            ),
        decreases bc - i,
    {
        let rem = len - off;
        if rem < 8 {
            proof {
                lemma_le_uint_bound(b@, off as int, 4);
                assert(spec_parse_bundle(b@, off as int) is None);
            }
            return Err(DecodeError::IndexCorrupt);
        }
        let nl = read_u32(b, off);
        proof {
            lemma_le_uint_bound(b@, off as int, 4);
            crate::bytes::lemma_pow256_small();
        }
        if (nl as u64) > (rem as u64) - 8 {
            proof {
                assert(spec_parse_bundle(b@, off as int) is None);
            }
            return Err(DecodeError::IndexCorrupt);
        }
        let name = slice_bytes(b, off + 4, nl as usize);
        let us = read_u32(b, off + 4 + (nl as usize));
        proof {
            lemma_le_uint_bound(b@, off + 4 + nl, 4);
        }
        let ghost prev = bundles.deep_view();
        bundles.push(BundleRecord { name, uncompressed_size: us });
        proof {
            let e = BundleRecordV {
                name: b@.subrange(off + 4, off + 4 + nl),
                uncompressed_size: le_uint(b@, off + 4 + nl, 4) as u32,
            };
            assert(spec_parse_bundle(b@, off as int) == Some((e, off + 8 + nl)));
            assert(bundles.deep_view() =~= prev.push(e));
        }
        off = off + 8 + (nl as usize);
        i = i + 1;
    }
    let rem = len - off;
    if rem < 4 {
        return Err(DecodeError::IndexCorrupt);
    }
    let fc = read_u32(b, off);
    proof {
        lemma_le_uint_bound(b@, off as int, 4);
        crate::bytes::lemma_pow256_small();
    }
    if (fc as u64) * 20 > (rem as u64) - 4 {
        return Err(DecodeError::IndexCorrupt);
    }
    let files_base = off + 4;
    let ghost off1 = off as int;
    let mut files: Vec<FileRecord> = Vec::new();
    let mut k: u32 = 0;
    while k < fc
        invariant
            k <= fc,
            len == b@.len(),
            b@.len() >= 4,
            bc == le_uint(b@, 0, 4),
            spec_parse_bundles(b@, 4, bc as int, Seq::empty()) == Some(
                (bundles.deep_view(), off1),
            ),
            fc == le_uint(b@, off1, 4),
            files_base == off1 + 4,
            4 <= off1,
            off1 + 4 + 20 * (fc as int) <= len,
            bundles@.len() <= u32::MAX,
            files@ == Seq::new(k as nat, |j: int| spec_file_at(b@, off1 + 4 + 20 * j)),
            forall|j: int|
                0 <= j < k ==> (#[trigger] files@[j]).bundle_index < bundles@.len(),
        decreases fc - k,
    {
        proof {
            assert(20 * (k as int) + 20 <= 20 * (fc as int) && 0 <= 20 * (k as int))
                by (nonlinear_arith)
                requires
                    k < fc,
            ;
        }
        let eoff = files_base + 20 * (k as usize);
        let hash = read_u64(b, eoff);
        let bundle_index = read_u32(b, eoff + 8);
        let offset = read_u32(b, eoff + 12);
        let size = read_u32(b, eoff + 16);
        proof {
            lemma_le_uint_bound(b@, eoff as int, 8);
            lemma_le_uint_bound(b@, eoff + 8, 4);
            lemma_le_uint_bound(b@, eoff + 12, 4);
            lemma_le_uint_bound(b@, eoff + 16, 4);
            crate::bytes::lemma_pow256_small();
        }
        let fr = FileRecord { hash, bundle_index, offset, size };
        if (bundle_index as usize) >= bundles.len() {
            proof {
                let files_all = Seq::new(
                    fc as nat,
                    |j: int| spec_file_at(b@, off1 + 4 + 20 * j),
                );
                assert(files_all[k as int].bundle_index >= bundles.deep_view().len());
            }
            return Err(DecodeError::IndexCorrupt);
        }
        files.push(fr);
        proof {
            assert(files@ =~= Seq::new((k + 1) as nat, |j: int| spec_file_at(b@, off1 + 4 + 20 * j)));
        }
        k = k + 1;
    }
    let pd_start = files_base + 20 * (fc as usize);
    let path_data = slice_bytes(b, pd_start, len - pd_start);
    let idx = Index { bundles, files, path_data };
    proof {
        let parsed = spec_parse_index(b@);
        assert(files@ =~= Seq::new(fc as nat, |j: int| spec_file_at(b@, off1 + 4 + 20 * j)));
        assert(idx@.path_data =~= b@.subrange(off1 + 4 + 20 * (fc as int), len as int));
        assert(parsed == Some(idx@));
    }
    Ok(idx)
}

} // verus!
