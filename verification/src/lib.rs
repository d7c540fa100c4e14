//! Decoder for a packed game-asset archive: a bundle-backed virtual
//! filesystem (content-addressed index, hashed path lookup, path-tree
//! expansion) and a schema-driven binary table decoder.
use vstd::prelude::*;

pub mod bytes;
pub mod hash;
pub mod index;
pub mod paths;
pub mod source;
pub mod store;
pub mod table;
pub mod vfs;

verus! {

/// The error taxonomy of the library.
///
/// `SourceUnavailable` and `IoFailure` describe failures of the surrounding
/// I/O layer; the decoders themselves raise `IndexCorrupt`, `BundleCorrupt`,
/// `SchemaMismatch` and `NotFound`.
#[derive(Clone, Copy, Debug, PartialEq, Eq, Structural)]
pub enum DecodeError {
    /// The content source (network or local tree) could not be reached.
    SourceUnavailable,
    /// A requested virtual path or table is absent.
    NotFound,
    /// The archive index failed to decode structurally.
    IndexCorrupt,
    /// A bundle's payload size or a read range disagrees with the index.
    BundleCorrupt,
    /// A table file's layout disagrees with its schema.
    SchemaMismatch,
    /// A local read or write failed.
    IoFailure,
}

} // verus!
