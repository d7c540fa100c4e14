//! The bundle store: decompressed bundle payloads served by byte range.
//!
//! Payloads are loaded once per bundle and kept for the rest of the run.
//! Decompression itself happens outside the library; a payload is accepted
//! only if its length equals the bundle's declared decompressed size, and
//! a read past a payload's end fails loudly instead of truncating.
use vstd::prelude::*;

use crate::DecodeError;
use crate::bytes::slice_bytes;

verus! {

/// Holds, for each declared bundle, its declared decompressed size and,
/// once loaded, its payload.
pub struct BundleStore {
    pub declared: Vec<u32>,
    pub payloads: Vec<Option<Vec<u8>>>,
}

impl BundleStore {
    /// One payload slot per declared bundle, and every loaded payload has
    /// exactly its declared length.
    pub open spec fn wf(self) -> bool {
        &&& self.payloads@.len() == self.declared@.len()
        &&& forall|i: int|
            0 <= i < self.payloads@.len() ==> ((#[trigger] self.payloads@[i]) matches Some(p)
                ==> p@.len() == self.declared@[i])
    }

    /// The loaded payload of bundle `id`, if any.
    pub open spec fn payload_of(self, id: int) -> Option<Seq<u8>> {
        match self.payloads@[id] {
            Some(p) => Some(p@),
            None => None,
        }
    }

    /// What a range read yields: the requested slice of the payload, or
    /// `BundleCorrupt` for an undeclared bundle or an out-of-range request,
    /// or `SourceUnavailable` while the payload is not loaded.
    pub open spec fn spec_read_range(self, id: int, off: int, len: int) -> Result<
        Seq<u8>,
        DecodeError,
    > {
        if !(0 <= id < self.payloads@.len()) {
            Err(DecodeError::BundleCorrupt)
        } else {
            match self.payload_of(id) {
                None => Err(DecodeError::SourceUnavailable),
                Some(p) => if off + len > p.len() {
                    Err(DecodeError::BundleCorrupt)
                } else {
                    Ok(p.subrange(off, off + len))
                },
            }
        }
    }

    /// Creates a store for the declared bundle sizes, nothing loaded.
    pub fn new(declared: Vec<u32>) -> (r: BundleStore)
        ensures
            r.wf(),
            r.declared@ == declared@,
            r.payloads@.len() == declared@.len(),
            forall|i: int| 0 <= i < r.payloads@.len() ==> (#[trigger] r.payloads@[i]) is None,
    {
        let n = declared.len();
        let mut payloads: Vec<Option<Vec<u8>>> = Vec::new();
        let mut i: usize = 0;
        while i < n
            invariant
                i <= n,
                payloads@.len() == i,
                forall|j: int| 0 <= j < i ==> (#[trigger] payloads@[j]) is None,
            decreases n - i,
        {
            payloads.push(None);
            i = i + 1;
        }
        BundleStore { declared, payloads }
    }

    /// Whether bundle `id` is declared but not yet loaded.
    pub fn needs_load(&self, id: usize) -> (r: bool)
        ensures
            r == (id < self.payloads@.len() && self.payload_of(id as int) is None),
    {
        id < self.payloads.len() && self.payloads[id].is_none()
    }

    /// Installs the decompressed payload of bundle `id`. Rejects an
    /// undeclared bundle, and a payload whose length is not the declared
    /// decompressed size, as `BundleCorrupt`.
    pub fn insert_payload(&mut self, id: usize, bytes: Vec<u8>) -> (r: Result<(), DecodeError>)
        requires
            old(self).wf(),
        ensures
            final(self).wf(),
            final(self).declared@ == old(self).declared@,
            match r {
                Ok(()) => {
                    &&& id < old(self).payloads@.len()
                    &&& bytes@.len() == old(self).declared@[id as int]
                    &&& final(self).payloads@ == old(self).payloads@.update(
                        id as int,
                        Some(bytes),
                    )
                },
                Err(e) => {
                    &&& e == DecodeError::BundleCorrupt
                    &&& !(id < old(self).payloads@.len() && bytes@.len() == old(
                        self,
                    ).declared@[id as int])
                    &&& final(self).payloads@ == old(self).payloads@
                },
            },
    {
        if id >= self.payloads.len() {
            return Err(DecodeError::BundleCorrupt);
        }
        let declared = self.declared[id];
        if bytes.len() as u64 != declared as u64 {
            return Err(DecodeError::BundleCorrupt);
        }
        self.payloads[id] = Some(bytes);
        Ok(())
    }

    /// Reads `len` bytes of bundle `id`'s payload starting at `off`.
    pub fn read_range(&self, id: usize, off: usize, len: usize) -> (r: Result<Vec<u8>, DecodeError>)
        ensures
            match r {
                Ok(v) => self.spec_read_range(id as int, off as int, len as int) == Ok::<
                    Seq<u8>,
                    DecodeError,
                >(v@),
                Err(e) => self.spec_read_range(id as int, off as int, len as int) == Err::<
                    Seq<u8>,
                    DecodeError,
                >(e),
            },
    {
        if id >= self.payloads.len() {
            return Err(DecodeError::BundleCorrupt);
        }
        match &self.payloads[id] {
            None => Err(DecodeError::SourceUnavailable),
            Some(p) => {
                let pl = p.len();
                if off > pl || len > pl - off {
                    Err(DecodeError::BundleCorrupt)
                } else {
                    Ok(slice_bytes(p, off, len))
                }
            },
        }
    }
}

} // verus!
