//! Decisions of the content source's two-tier cache.
//!
//! The I/O layer reads the cache directory and the cached patch marker and
//! performs fetches; this module decides, from those plain observations,
//! whether a fetch is needed. A cached entry is reused exactly when it
//! exists and its recorded patch version matches the current one; any
//! mismatch forces a refetch, and a missing cache entry is never an error.
use vstd::prelude::*;

verus! {

/// What to do about one identifier: serve the cached bytes, or fetch and
/// rewrite the cache entry.
#[derive(Clone, Copy, Debug, PartialEq, Eq, Structural)]
pub enum FetchPlan {
    UseCache,
    Refetch,
}

/// The plan for `(identifier, patch)`: use the cache exactly when an entry
/// exists whose recorded patch version equals the current one.
pub open spec fn spec_plan(has_entry: bool, cached_patch: Seq<u8>, patch: Seq<u8>) -> FetchPlan {
    if has_entry && cached_patch == patch {
        FetchPlan::UseCache
    } else {
        FetchPlan::Refetch
    }
}

/// Compares two byte strings.
pub fn bytes_eq(a: &Vec<u8>, b: &Vec<u8>) -> (r: bool)
    ensures
        r == (a@ == b@),
{
    let n = a.len();
    if n != b.len() {
        proof {
            assert(a@.len() != b@.len());
        }
        return false;
    }
    let mut i: usize = 0;
    while i < n
        invariant
            i <= n,
            n == a@.len(),
            n == b@.len(),
            forall|j: int| 0 <= j < i ==> a@[j] == b@[j],
        decreases n - i,
    {
        if a[i] != b[i] {
            return false;
        }
        i = i + 1;
    }
    proof {
        assert(a@ =~= b@);
    }
    true
}

/// Decides whether a cached entry can be served. `has_entry` says whether
/// the cache directory holds bytes for the identifier, `cached_patch` the
/// patch version recorded beside them, `patch` the current patch version.
pub fn plan_fetch(has_entry: bool, cached_patch: &Vec<u8>, patch: &Vec<u8>) -> (r: FetchPlan)
    ensures
        r == spec_plan(has_entry, cached_patch@, patch@),
{
    if has_entry && bytes_eq(cached_patch, patch) {
        FetchPlan::UseCache
    } else {
        FetchPlan::Refetch
    }
}

/// Cache correctness: once a run has fetched and cached an identifier
/// under some patch version, a later run under the same patch version
/// plans no fetch for it.
pub proof fn lemma_cached_run_fetches_nothing(cached_patch: Seq<u8>, patch: Seq<u8>)
    requires
        cached_patch == patch,
    ensures
        spec_plan(true, cached_patch, patch) == FetchPlan::UseCache,
{
}

} // verus!
