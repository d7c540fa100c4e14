//! The virtual filesystem facade: every expanded path paired with its file
//! entry, over the bundle store.
//!
//! Lookup goes by the 64-bit path hash, as the file table does, so two
//! paths with equal hashes alias the same entry. An expanded path whose
//! hash the file table does not know is not a file and is left out; a file
//! entry no expanded path hashes to is unreachable by name and simply
//! never listed. The filesystem is read-only.
use vstd::prelude::*;

use crate::DecodeError;
use crate::bytes::slice_bytes;
use crate::hash::fnv1a;
use crate::hash::path_hash;
use crate::index::FileRecord;
use crate::index::Index;
use crate::index::spec_parse_index;
use crate::paths::expand_paths;
use crate::paths::spec_expand_all;
use crate::store::BundleStore;

verus! {

/// One virtual file: its full path and its file-table entry.
pub struct PathEntry {
    pub path: Vec<u8>,
    pub record: FileRecord,
}

/// The mathematical shape of a virtual file entry.
pub struct PathEntryV {
    pub path: Seq<u8>,
    pub record: FileRecord,
}

impl View for PathEntry {
    type V = PathEntryV;

    open spec fn view(&self) -> PathEntryV {
        PathEntryV { path: self.path@, record: self.record }
    }
}

impl DeepView for PathEntry {
    type V = PathEntryV;

    open spec fn deep_view(&self) -> PathEntryV {
        self.view()
    }
}

/// The first file record at or after `j` whose hash is `h`.
pub open spec fn find_record_from(files: Seq<FileRecord>, h: u64, j: int) -> Option<FileRecord>
    decreases files.len() - j,
{
    if j < 0 || j >= files.len() {
        None
    } else if files[j].hash == h {
        Some(files[j])
    } else {
        find_record_from(files, h, j + 1)
    }
}

/// The first file record whose hash is `h`.
pub open spec fn find_record(files: Seq<FileRecord>, h: u64) -> Option<FileRecord> {
    find_record_from(files, h, 0)
}

/// The entries of the filesystem: each expanded path whose hash the file
/// table knows, paired with the first record of that hash, in path order.
pub open spec fn spec_match_paths(paths: Seq<Seq<u8>>, files: Seq<FileRecord>) -> Seq<PathEntryV>
    decreases paths.len(),
{
    if paths.len() == 0 {
        Seq::empty()
    } else {
        let rest = spec_match_paths(paths.drop_last(), files);
        match find_record(files, fnv1a(paths.last())) {
            None => rest,
            Some(rec) => rest.push(PathEntryV { path: paths.last(), record: rec }),
        }
    }
}

/// The first entry at or after `j` whose record hash is `h`.
pub open spec fn find_entry_from(entries: Seq<PathEntryV>, h: u64, j: int) -> Option<FileRecord>
    decreases entries.len() - j,
{
    if j < 0 || j >= entries.len() {
        None
    } else if entries[j].record.hash == h {
        Some(entries[j].record)
    } else {
        find_entry_from(entries, h, j + 1)
    }
}

/// What looking a path up yields: the first entry whose hash is the
/// path's hash.
pub open spec fn spec_lookup(entries: Seq<PathEntryV>, path: Seq<u8>) -> Option<FileRecord> {
    find_entry_from(entries, fnv1a(path), 0)
}

/// What reading a path yields: its entry's byte range of the store, or
/// `NotFound` for a path no entry's hash matches.
pub open spec fn spec_read(entries: Seq<PathEntryV>, store: BundleStore, path: Seq<u8>) -> Result<
    Seq<u8>,
    DecodeError,
> {
    match spec_lookup(entries, path) {
        None => Err(DecodeError::NotFound),
        Some(rec) => store.spec_read_range(
            rec.bundle_index as int,
            rec.offset as int,
            rec.size as int,
        ),
    }
}

/// The listed paths: each entry's path, in entry order.
pub open spec fn spec_list(entries: Seq<PathEntryV>) -> Seq<Seq<u8>> {
    entries.map_values(|e: PathEntryV| e.path)
}

/// Lexicographic order on byte strings: a proper prefix comes first.
pub open spec fn lex_le(a: Seq<u8>, b: Seq<u8>) -> bool
    decreases a.len(),
{
    if a.len() == 0 {
        true
    } else if b.len() == 0 {
        false
    } else if a[0] < b[0] {
        true
    } else if a[0] > b[0] {
        false
    } else {
        lex_le(a.drop_first(), b.drop_first())
    }
}

/// `p` placed before the first element it precedes in `s`.
pub open spec fn insert_sorted(p: Seq<u8>, s: Seq<Seq<u8>>) -> Seq<Seq<u8>>
    decreases s.len(),
{
    if s.len() == 0 {
        seq![p]
    } else if lex_le(p, s[0]) {
        seq![p] + s
    } else {
        seq![s[0]] + insert_sorted(p, s.drop_first())
    }
}

/// The paths in lexicographic order: an insertion sort, left to right.
pub open spec fn sort_paths(s: Seq<Seq<u8>>) -> Seq<Seq<u8>>
    decreases s.len(),
{
    if s.len() == 0 {
        Seq::empty()
    } else {
        insert_sorted(s.last(), sort_paths(s.drop_last()))
    }
}

/// Inserting before the first element `p` precedes is a positional insert.
proof fn lemma_insert_sorted_at(p: Seq<u8>, s: Seq<Seq<u8>>, pos: int)
    requires
        0 <= pos <= s.len(),
        forall|k: int| 0 <= k < pos ==> !lex_le(p, #[trigger] s[k]),
        pos < s.len() ==> lex_le(p, s[pos]),
    ensures
        insert_sorted(p, s) == s.insert(pos, p),
    decreases pos,
{
    if s.len() == 0 {
        assert(insert_sorted(p, s) =~= s.insert(0, p));
    } else if pos == 0 {
        assert(seq![p] + s =~= s.insert(0, p));
    } else {
        assert(forall|k: int| 0 <= k < pos - 1 ==> !lex_le(p, #[trigger] s.drop_first()[k]));
        lemma_insert_sorted_at(p, s.drop_first(), pos - 1);
        assert(seq![s[0]] + s.drop_first().insert(pos - 1, p) =~= s.insert(pos, p));
    }
}

/// Inserting anywhere into a sequence adds one occurrence to its multiset.
proof fn lemma_seq_insert_multiset(s: Seq<Seq<u8>>, pos: int, x: Seq<u8>)
    requires
        0 <= pos <= s.len(),
    ensures
        s.insert(pos, x).to_multiset() == s.to_multiset().insert(x),
{
    broadcast use vstd::seq_lib::group_to_multiset_ensures;

    let t = s.insert(pos, x);
    assert(t.remove(pos) =~= s);
    assert(t[pos] == x);
    assert(t.to_multiset().count(x) > 0);
    assert(t.to_multiset() =~= s.to_multiset().insert(x));
}

/// Insertion keeps the collection: the result holds the new path once
/// more and every other path as often as before.
proof fn lemma_insert_sorted_multiset(p: Seq<u8>, s: Seq<Seq<u8>>)
    ensures
        insert_sorted(p, s).to_multiset() == s.to_multiset().insert(p),
    decreases s.len(),
{
    if s.len() == 0 {
        assert(seq![p] =~= s.insert(0, p));
        lemma_seq_insert_multiset(s, 0, p);
    } else if lex_le(p, s[0]) {
        assert(seq![p] + s =~= s.insert(0, p));
        lemma_seq_insert_multiset(s, 0, p);
    } else {
        lemma_insert_sorted_multiset(p, s.drop_first());
        let inner = insert_sorted(p, s.drop_first());
        assert(seq![s[0]] + inner =~= inner.insert(0, s[0]));
        lemma_seq_insert_multiset(inner, 0, s[0]);
        assert(s.drop_first().insert(0, s[0]) =~= s);
        lemma_seq_insert_multiset(s.drop_first(), 0, s[0]);
        assert(s.drop_first().to_multiset().insert(p).insert(s[0])
            =~= s.drop_first().to_multiset().insert(s[0]).insert(p));
    }
}

/// The sorted listing is a permutation of the entries' paths: it holds
/// exactly the paths the filesystem knows, each as often as it occurs.
pub proof fn lemma_sort_paths_permutes(s: Seq<Seq<u8>>)
    ensures
        sort_paths(s).to_multiset() == s.to_multiset(),
    decreases s.len(),
{
    broadcast use vstd::seq_lib::group_to_multiset_ensures;

    if s.len() > 0 {
        lemma_sort_paths_permutes(s.drop_last());
        lemma_insert_sorted_multiset(s.last(), sort_paths(s.drop_last()));
        assert(s =~= s.drop_last().push(s.last()));
    }
}

/// Compares two byte strings in lexicographic order.
fn lex_le_exec(a: &Vec<u8>, b: &Vec<u8>) -> (r: bool)
    ensures
        r == lex_le(a@, b@),
{
    let an = a.len();
    let bn = b.len();
    proof {
        assert(a@.skip(0) =~= a@);
        assert(b@.skip(0) =~= b@);
    }
    let mut i: usize = 0;
    while i < an && i < bn
        invariant
            i <= an,
            i <= bn,
            an == a@.len(),
            bn == b@.len(),
            lex_le(a@, b@) == lex_le(a@.skip(i as int), b@.skip(i as int)),
        decreases an - i,
    {
        proof {
            assert(a@.skip(i as int)[0] == a@[i as int]);
            assert(b@.skip(i as int)[0] == b@[i as int]);
            assert(a@.skip(i as int).drop_first() =~= a@.skip(i + 1));
            assert(b@.skip(i as int).drop_first() =~= b@.skip(i + 1));
        }
        if a[i] < b[i] {
            return true;
        }
        if a[i] > b[i] {
            return false;
        }
        i = i + 1;
    }
    proof {
        if i < an {
            assert(b@.skip(i as int).len() == 0);
        } else {
            assert(a@.skip(i as int).len() == 0);
        }
    }
    i == an
}

/// Every entry of a built filesystem carries the first file record of its
/// path's hash.
pub open spec fn entries_from(entries: Seq<PathEntryV>, files: Seq<FileRecord>) -> bool {
    forall|i: int|
        0 <= i < entries.len() ==> find_record(files, fnv1a((#[trigger] entries[i]).path))
            == Some(entries[i].record)
}

/// A found record carries the hash it was found by.
pub proof fn lemma_find_record_hash(files: Seq<FileRecord>, h: u64, j: int)
    ensures
        find_record_from(files, h, j) matches Some(r) ==> r.hash == h,
    decreases files.len() - j,
{
    if 0 <= j < files.len() && files[j].hash != h {
        lemma_find_record_hash(files, h, j + 1);
    }
}

/// What `build_entries` yields satisfies `entries_from`.
pub proof fn lemma_match_paths_from(paths: Seq<Seq<u8>>, files: Seq<FileRecord>)
    ensures
        entries_from(spec_match_paths(paths, files), files),
    decreases paths.len(),
{
    if paths.len() > 0 {
        lemma_match_paths_from(paths.drop_last(), files);
    }
}

/// Two entries whose records share a hash share the whole record: both
/// records are the file table's first record of that hash.
pub proof fn lemma_same_hash_same_record(
    entries: Seq<PathEntryV>,
    files: Seq<FileRecord>,
    i: int,
    j: int,
)
    requires
        entries_from(entries, files),
        0 <= i < entries.len(),
        0 <= j < entries.len(),
        entries[i].record.hash == entries[j].record.hash,
    ensures
        entries[i].record == entries[j].record,
{
    lemma_find_record_hash(files, fnv1a(entries[i].path), 0);
    lemma_find_record_hash(files, fnv1a(entries[j].path), 0);
}

/// A hash scan from `j` hits: it yields exactly the record of any entry at
/// or after `j` whose record carries the sought hash.
pub proof fn lemma_find_entry_hits(
    entries: Seq<PathEntryV>,
    files: Seq<FileRecord>,
    h: u64,
    j: int,
    i: int,
)
    requires
        entries_from(entries, files),
        0 <= j <= i < entries.len(),
        entries[i].record.hash == h,
    ensures
        find_entry_from(entries, h, j) == Some(entries[i].record),
    decreases i - j,
{
    if entries[j].record.hash == h {
        lemma_same_hash_same_record(entries, files, j, i);
    } else {
        lemma_find_entry_hits(entries, files, h, j + 1, i);
    }
}

/// The store holds every payload the entries reference, each long enough
/// for its entry's range.
pub open spec fn fully_loaded(entries: Seq<PathEntryV>, store: BundleStore) -> bool {
    forall|i: int|
        0 <= i < entries.len() ==> {
            let rec = (#[trigger] entries[i]).record;
            &&& rec.bundle_index < store.payloads@.len()
            &&& store.payload_of(rec.bundle_index as int) is Some
            &&& rec.offset + rec.size <= store.payload_of(rec.bundle_index as int).unwrap().len()
        }
}

/// Round trip: every path the filesystem lists reads back successfully,
/// with exactly the byte length its file entry declares, once the store
/// holds every payload the entries reference.
pub proof fn lemma_round_trip(
    entries: Seq<PathEntryV>,
    files: Seq<FileRecord>,
    store: BundleStore,
    i: int,
)
    requires
        entries_from(entries, files),
        fully_loaded(entries, store),
        0 <= i < entries.len(),
    ensures
        spec_read(entries, store, spec_list(entries)[i]) is Ok,
        spec_read(entries, store, spec_list(entries)[i]).unwrap().len()
            == entries[i].record.size,
{
    lemma_find_record_hash(files, fnv1a(entries[i].path), 0);
    lemma_find_entry_hits(entries, files, fnv1a(entries[i].path), 0, i);
}

/// Idempotence: two listings of one filesystem are identical, both being
/// the same function of its entries.
pub proof fn lemma_list_idempotent(entries: Seq<PathEntryV>, l1: Seq<Seq<u8>>, l2: Seq<Seq<u8>>)
    requires
        l1 == sort_paths(spec_list(entries)),
        l2 == sort_paths(spec_list(entries)),
    ensures
        l1 == l2,
{
}

/// Idempotence: two reads of one path on one filesystem are identical,
/// both being the same function of its state and the path.
pub proof fn lemma_read_idempotent(
    entries: Seq<PathEntryV>,
    store: BundleStore,
    path: Seq<u8>,
    r1: Result<Seq<u8>, DecodeError>,
    r2: Result<Seq<u8>, DecodeError>,
)
    requires
        r1 == spec_read(entries, store, path),
        r2 == spec_read(entries, store, path),
    ensures
        r1 == r2,
{
}

/// Path-hash aliasing: two paths with equal hashes resolve to the same
/// entry, so reading either yields the same bytes.
pub proof fn lemma_hash_alias(
    entries: Seq<PathEntryV>,
    store: BundleStore,
    p1: Seq<u8>,
    p2: Seq<u8>,
)
    requires
        fnv1a(p1) == fnv1a(p2),
    ensures
        spec_read(entries, store, p1) == spec_read(entries, store, p2),
{
}

/// The virtual filesystem: the matched path entries and the bundle store.
pub struct Vfs {
    pub entries: Vec<PathEntry>,
    pub store: BundleStore,
}

/// Finds the first file record with hash `h`.
pub fn find_record_exec(files: &Vec<FileRecord>, h: u64) -> (r: Option<FileRecord>)
    ensures
        r == find_record(files@, h),
{
    let n = files.len();
    let mut j: usize = 0;
    while j < n
        invariant
            j <= n,
            n == files@.len(),
            find_record(files@, h) == find_record_from(files@, h, j as int),
        decreases n - j,
    {
        if files[j].hash == h {
            return Some(files[j]);
        }
        j = j + 1;
    }
    None
}

/// Pairs every expanded path that the file table knows with its record.
pub fn build_entries(paths: &Vec<Vec<u8>>, files: &Vec<FileRecord>) -> (r: Vec<PathEntry>)
    ensures
        r.deep_view() == spec_match_paths(paths.deep_view(), files@),
{
    let n = paths.len();
    let mut entries: Vec<PathEntry> = Vec::new();
    proof {
        assert(paths.deep_view().subrange(0, 0) =~= Seq::<Seq<u8>>::empty());
        assert(entries.deep_view() =~= Seq::<PathEntryV>::empty());
    }
    let mut i: usize = 0;
    while i < n
        invariant
            i <= n,
            n == paths@.len(),
            entries.deep_view() == spec_match_paths(paths.deep_view().subrange(0, i as int), files@),
        decreases n - i,
    {
        let p = &paths[i];
        let h = path_hash(p);
        proof {
            assert(paths.deep_view().subrange(0, i + 1).drop_last() =~= paths.deep_view().subrange(
                0,
                i as int,
            ));
            assert(paths.deep_view().subrange(0, i + 1).last() =~= paths@[i as int]@);
        }
        match find_record_exec(files, h) {
            Some(rec) => {
                let path = slice_bytes(p, 0, p.len());
                proof {
                    assert(path@ =~= paths@[i as int]@);
                }
                let ghost prev = entries.deep_view();
                entries.push(PathEntry { path, record: rec });
                proof {
                    assert(entries.deep_view() =~= prev.push(
                        PathEntryV { path: paths@[i as int]@, record: rec },
                    ));
                }
            },
            None => {
            },
        }
        i = i + 1;
    }
    proof {
        assert(paths.deep_view().subrange(0, n as int) =~= paths.deep_view());
    }
    entries
}

/// The declared decompressed sizes of the index's bundles, in order.
pub fn bundle_sizes(idx: &Index) -> (r: Vec<u32>)
    ensures
        r@ == idx@.bundles.map_values(|b: crate::index::BundleRecordV| b.uncompressed_size),
{
    let n = idx.bundles.len();
    let mut sizes: Vec<u32> = Vec::new();
    let mut i: usize = 0;
    while i < n
        invariant
            i <= n,
            n == idx.bundles@.len(),
            sizes@ =~= idx@.bundles.subrange(0, i as int).map_values(
                |b: crate::index::BundleRecordV| b.uncompressed_size,
            ),
        decreases n - i,
    {
        sizes.push(idx.bundles[i].uncompressed_size);
        proof {
            assert(sizes@ =~= idx@.bundles.subrange(0, i + 1).map_values(
                |b: crate::index::BundleRecordV| b.uncompressed_size,
            ));
        }
        i = i + 1;
    }
    proof {
        assert(idx@.bundles.subrange(0, n as int) =~= idx@.bundles);
    }
    sizes
}

impl Vfs {
    /// Builds the filesystem from a decoded index and its expanded paths:
    /// entries for every path the file table knows, and an empty store
    /// sized by the bundle table.
    pub fn build(idx: &Index, paths: &Vec<Vec<u8>>) -> (r: Vfs)
        ensures
            r.entries.deep_view() == spec_match_paths(paths.deep_view(), idx@.files),
            entries_from(r.entries.deep_view(), idx@.files),
            r.store.wf(),
            r.store.declared@ == idx@.bundles.map_values(
                |b: crate::index::BundleRecordV| b.uncompressed_size,
            ),
            forall|i: int|
                0 <= i < r.store.payloads@.len() ==> (#[trigger] r.store.payloads@[i]) is None,
    {
        let entries = build_entries(paths, &idx.files);
        proof {
            lemma_match_paths_from(paths.deep_view(), idx@.files);
        }
        let sizes = bundle_sizes(idx);
        let store = BundleStore::new(sizes);
        Vfs { entries, store }
    }

    /// Builds the filesystem straight from raw index bytes: decodes the
    /// index, expands its path tree, and matches paths to file entries.
    pub fn from_index_bytes(b: &Vec<u8>) -> (r: Result<Vfs, DecodeError>)
        ensures
            match r {
                Ok(v) => {
                    &&& spec_parse_index(b@) matches Some(idx)
                    &&& spec_expand_all(idx.path_data) matches Some(ps)
                    &&& v.entries.deep_view() == spec_match_paths(ps, idx.files)
                    &&& entries_from(v.entries.deep_view(), idx.files)
                    &&& v.store.wf()
                    &&& v.store.declared@ == idx.bundles.map_values(
                        |bd: crate::index::BundleRecordV| bd.uncompressed_size,
                    )
                },
                Err(e) => {
                    &&& e == DecodeError::IndexCorrupt
                    &&& (spec_parse_index(b@) is None || (spec_parse_index(b@)
                        matches Some(idx) && spec_expand_all(idx.path_data) is None))
                },
            },
    {
        let idx = match crate::index::parse_index(b) {
            Ok(idx) => idx,
            Err(e) => {
                return Err(e);
            },
        };
        let paths = match expand_paths(&idx.path_data) {
            Ok(ps) => ps,
            Err(e) => {
                return Err(e);
            },
        };
        Ok(Vfs::build(&idx, &paths))
    }

    /// Lists every virtual path, in lexicographic order, so the listing
    /// is stable across runs whatever order the path tree encoded.
    pub fn list(&self) -> (r: Vec<Vec<u8>>)
        ensures
            r.deep_view() == sort_paths(spec_list(self.entries.deep_view())),
    {
        let n = self.entries.len();
        let mut out: Vec<Vec<u8>> = Vec::new();
        proof {
            assert(out.deep_view() =~= Seq::<Seq<u8>>::empty());
            assert(spec_list(self.entries.deep_view().subrange(0, 0)) =~= Seq::<Seq<u8>>::empty());
        }
        let mut i: usize = 0;
        while i < n
            invariant
                i <= n,
                n == self.entries@.len(),
                out.deep_view() == sort_paths(
                    spec_list(self.entries.deep_view().subrange(0, i as int)),
                ),
            decreases n - i,
        {
            let p = &self.entries[i].path;
            let copy = slice_bytes(p, 0, p.len());
            proof {
                assert(copy@ =~= self.entries@[i as int].path@);
            }
            let mut pos: usize = 0;
            let m = out.len();
            while pos < m && !lex_le_exec(&copy, &out[pos])
                invariant
                    pos <= m,
                    m == out@.len(),
                    copy@ == self.entries@[i as int].path@,
                    forall|k: int| 0 <= k < pos ==> !lex_le(copy@, #[trigger] out.deep_view()[k]),
                decreases m - pos,
            {
                proof {
                    assert(out.deep_view()[pos as int] =~= out@[pos as int]@);
                }
                pos = pos + 1;
            }
            let ghost prev = out.deep_view();
            proof {
                if pos < m {
                    assert(prev[pos as int] =~= out@[pos as int]@);
                }
            }
            out.insert(pos, copy);
            proof {
                lemma_insert_sorted_at(copy@, prev, pos as int);
                assert(out.deep_view() =~~= prev.insert(pos as int, copy@));
                let sub = self.entries.deep_view().subrange(0, i + 1);
                assert(sub.drop_last() =~= self.entries.deep_view().subrange(0, i as int));
                assert(spec_list(sub).drop_last() =~= spec_list(sub.drop_last()));
                assert(spec_list(sub).last() == copy@);
            }
            i = i + 1;
        }
        proof {
            assert(self.entries.deep_view().subrange(0, n as int) =~= self.entries.deep_view());
        }
        out
    }

    /// The bundle a path's content lives in, if the path resolves: what a
    /// loader must fetch before `read` can serve the path.
    pub fn required_bundle(&self, path: &Vec<u8>) -> (r: Option<u32>)
        ensures
            r == match spec_lookup(self.entries.deep_view(), path@) {
                Some(rec) => Some(rec.bundle_index),
                None => None::<u32>,
            },
    {
        let h = path_hash(path);
        let n = self.entries.len();
        let mut j: usize = 0;
        while j < n
            invariant
                j <= n,
                n == self.entries@.len(),
                h == fnv1a(path@),
                find_entry_from(self.entries.deep_view(), h, 0) == find_entry_from(
                    self.entries.deep_view(),
                    h,
                    j as int,
                ),
            decreases n - j,
        {
            if self.entries[j].record.hash == h {
                return Some(self.entries[j].record.bundle_index);
            }
            j = j + 1;
        }
        None
    }

    /// Reads a virtual path's bytes: hashes the path, finds its entry,
    /// and reads the entry's range from the store.
    pub fn read(&self, path: &Vec<u8>) -> (r: Result<Vec<u8>, DecodeError>)
        ensures
            match r {
                Ok(v) => spec_read(self.entries.deep_view(), self.store, path@) == Ok::<
                    Seq<u8>,
                    DecodeError,
                >(v@),
                Err(e) => spec_read(self.entries.deep_view(), self.store, path@) == Err::<
                    Seq<u8>,
                    DecodeError,
                >(e),
            },
    {
        let h = path_hash(path);
        let n = self.entries.len();
        let mut j: usize = 0;
        while j < n
            invariant
                j <= n,
                n == self.entries@.len(),
                h == fnv1a(path@),
                find_entry_from(self.entries.deep_view(), h, 0) == find_entry_from(
                    self.entries.deep_view(),
                    h,
                    j as int,
                ),
            decreases n - j,
        {
            if self.entries[j].record.hash == h {
                let rec = self.entries[j].record;
                return self.store.read_range(
                    rec.bundle_index as usize,
                    rec.offset as usize,
                    rec.size as usize,
                );
            }
            j = j + 1;
        }
        Err(DecodeError::NotFound)
    }
}

} // verus!
