use poe_files::DecodeError;
use poe_files::bytes::read_u32;
use poe_files::bytes::read_u64;
use poe_files::hash::path_hash;
use poe_files::index::parse_index;
use poe_files::paths::expand_paths;
use poe_files::source::FetchPlan;
use poe_files::source::plan_fetch;
use poe_files::store::BundleStore;
use poe_files::vfs::Vfs;

/// Path payload: toggle into the prefix phase, record "dir/" as prefix 1
/// (an out-of-range reference stands for the empty prefix), toggle back,
/// then emit two paths under the prefix and one bare path.
fn path_payload() -> Vec<u8> {
    let mut d = Vec::new();
    d.extend_from_slice(&0u32.to_le_bytes());
    d.extend_from_slice(&1u32.to_le_bytes());
    d.extend_from_slice(b"dir/\0");
    d.extend_from_slice(&0u32.to_le_bytes());
    d.extend_from_slice(&1u32.to_le_bytes());
    d.extend_from_slice(b"a.txt\0");
    d.extend_from_slice(&1u32.to_le_bytes());
    d.extend_from_slice(b"b.txt\0");
    d.extend_from_slice(&2u32.to_le_bytes());
    d.extend_from_slice(b"c.txt\0");
    d
}

fn bundle_entry(name: &[u8], size: u32) -> Vec<u8> {
    let mut e = Vec::new();
    e.extend_from_slice(&(name.len() as u32).to_le_bytes());
    e.extend_from_slice(name);
    e.extend_from_slice(&size.to_le_bytes());
    e
}

fn file_entry(hash: u64, bundle: u32, offset: u32, size: u32) -> Vec<u8> {
    let mut e = Vec::new();
    e.extend_from_slice(&hash.to_le_bytes());
    e.extend_from_slice(&bundle.to_le_bytes());
    e.extend_from_slice(&offset.to_le_bytes());
    e.extend_from_slice(&size.to_le_bytes());
    e
}

/// Index bytes declaring two bundles (100 and 200 bytes decompressed) and
/// three file entries covering the three expanded paths.
fn index_bytes() -> Vec<u8> {
    let h1 = path_hash(&b"dir/a.txt".to_vec());
    let h2 = path_hash(&b"dir/b.txt".to_vec());
    let h3 = path_hash(&b"c.txt".to_vec());
    let mut b = Vec::new();
    b.extend_from_slice(&2u32.to_le_bytes());
    b.extend_from_slice(&bundle_entry(b"alpha", 100));
    b.extend_from_slice(&bundle_entry(b"beta", 200));
    b.extend_from_slice(&3u32.to_le_bytes());
    b.extend_from_slice(&file_entry(h1, 0, 0, 10));
    b.extend_from_slice(&file_entry(h2, 0, 10, 20));
    b.extend_from_slice(&file_entry(h3, 1, 5, 7));
    b.extend_from_slice(&path_payload());
    b
}

fn loaded_vfs() -> Vfs {
    let mut vfs = Vfs::from_index_bytes(&index_bytes()).unwrap();
    let payload0: Vec<u8> = (0..100u32).map(|i| i as u8).collect();
    let payload1: Vec<u8> = (0..200u32).map(|i| (i as u8).wrapping_mul(3)).collect();
    vfs.store.insert_payload(0, payload0).unwrap();
    vfs.store.insert_payload(1, payload1).unwrap();
    vfs
}

#[test]
fn little_endian_readers() {
    let b = vec![0x78, 0x56, 0x34, 0x12, 0xEF, 0xCD, 0xAB, 0x90];
    assert_eq!(read_u32(&b, 0), 0x12345678);
    assert_eq!(read_u64(&b, 0), 0x90ABCDEF12345678);
}

#[test]
fn fnv1a_known_values() {
    assert_eq!(path_hash(&Vec::new()), 0xcbf29ce484222325);
    assert_eq!(path_hash(&b"a".to_vec()), 0xaf63dc4c8601ec8c);
    assert_eq!(path_hash(&b"foobar".to_vec()), 0x85944171f73967e8);
}

#[test]
fn index_decodes_tables() {
    let idx = parse_index(&index_bytes()).unwrap();
    assert_eq!(idx.bundles.len(), 2);
    assert_eq!(idx.bundles[0].name, b"alpha".to_vec());
    assert_eq!(idx.bundles[0].uncompressed_size, 100);
    assert_eq!(idx.bundles[1].uncompressed_size, 200);
    assert_eq!(idx.files.len(), 3);
    assert_eq!(idx.files[2].bundle_index, 1);
    assert_eq!(idx.files[2].offset, 5);
    assert_eq!(idx.files[2].size, 7);
}

#[test]
fn truncated_index_rejected() {
    let b = index_bytes();
    let cut = b[..b.len() - 2].to_vec();
    // Cutting into the path payload leaves a fragment without a terminator.
    assert_eq!(expand_paths(&parse_index(&cut).unwrap().path_data), Err(DecodeError::IndexCorrupt));
    let tiny = b[..7].to_vec();
    assert!(matches!(parse_index(&tiny), Err(DecodeError::IndexCorrupt)));
}

#[test]
fn file_entry_with_undeclared_bundle_rejected() {
    let h1 = path_hash(&b"x".to_vec());
    let mut b = Vec::new();
    b.extend_from_slice(&0u32.to_le_bytes());
    b.extend_from_slice(&1u32.to_le_bytes());
    b.extend_from_slice(&file_entry(h1, 0, 0, 1));
    assert!(matches!(parse_index(&b), Err(DecodeError::IndexCorrupt)));
}

#[test]
fn paths_expand_with_prefixes() {
    let paths = expand_paths(&path_payload()).unwrap();
    assert_eq!(
        paths,
        vec![b"dir/a.txt".to_vec(), b"dir/b.txt".to_vec(), b"c.txt".to_vec()]
    );
}

/// The example scenario: two bundles, three file entries; `list()` returns
/// exactly the 3 paths; `read()` on each returns bytes of the declared
/// length; a read of an absent path is `NotFound`.
#[test]
fn list_and_read_three_files() {
    let vfs = loaded_vfs();
    let listed = vfs.list();
    assert_eq!(
        listed,
        vec![b"c.txt".to_vec(), b"dir/a.txt".to_vec(), b"dir/b.txt".to_vec()]
    );
    let a = vfs.read(&b"dir/a.txt".to_vec()).unwrap();
    assert_eq!(a.len(), 10);
    assert_eq!(a, (0..10u8).collect::<Vec<u8>>());
    let b = vfs.read(&b"dir/b.txt".to_vec()).unwrap();
    assert_eq!(b.len(), 20);
    let c = vfs.read(&b"c.txt".to_vec()).unwrap();
    assert_eq!(c.len(), 7);
    assert_eq!(vfs.read(&b"/nonexistent".to_vec()), Err(DecodeError::NotFound));
}

/// Round trip: every listed path reads back with its entry's declared
/// length once the payloads are loaded.
#[test]
fn every_listed_path_reads_back() {
    let vfs = loaded_vfs();
    let sizes = [7usize, 10, 20];
    for (i, path) in vfs.list().into_iter().enumerate() {
        let bytes = vfs.read(&path).unwrap();
        assert_eq!(bytes.len(), sizes[i]);
    }
}

/// Idempotence: listing twice and reading twice give identical results.
#[test]
fn list_and_read_are_idempotent() {
    let vfs = loaded_vfs();
    assert_eq!(vfs.list(), vfs.list());
    let p = b"dir/b.txt".to_vec();
    assert_eq!(vfs.read(&p), vfs.read(&p));
}

/// Two distinct virtual paths whose entries share one file record read
/// back byte-identical content: aliasing one entry is legal.
#[test]
fn aliased_entries_read_same_bytes() {
    let h1 = path_hash(&b"Dir/Same.txt".to_vec());
    let h2 = path_hash(&b"other.txt".to_vec());
    let mut b = Vec::new();
    b.extend_from_slice(&1u32.to_le_bytes());
    b.extend_from_slice(&bundle_entry(b"only", 50));
    b.extend_from_slice(&2u32.to_le_bytes());
    b.extend_from_slice(&file_entry(h1, 0, 8, 16));
    b.extend_from_slice(&file_entry(h2, 0, 8, 16));
    b.extend_from_slice(&1u32.to_le_bytes());
    b.extend_from_slice(b"Dir/Same.txt\0");
    b.extend_from_slice(&1u32.to_le_bytes());
    b.extend_from_slice(b"other.txt\0");
    let mut vfs = Vfs::from_index_bytes(&b).unwrap();
    let payload: Vec<u8> = (0..50u8).collect();
    vfs.store.insert_payload(0, payload).unwrap();
    let one = vfs.read(&b"Dir/Same.txt".to_vec()).unwrap();
    let two = vfs.read(&b"other.txt".to_vec()).unwrap();
    assert_eq!(one, two);
    assert_eq!(one, (8..24u8).collect::<Vec<u8>>());
}

#[test]
fn store_checks_declared_sizes() {
    let mut store = BundleStore::new(vec![4, 8]);
    assert!(store.needs_load(0));
    assert_eq!(store.insert_payload(0, vec![1, 2, 3]), Err(DecodeError::BundleCorrupt));
    assert_eq!(store.insert_payload(2, vec![0; 4]), Err(DecodeError::BundleCorrupt));
    assert_eq!(store.insert_payload(0, vec![1, 2, 3, 4]), Ok(()));
    assert!(!store.needs_load(0));
    assert_eq!(store.read_range(0, 1, 2), Ok(vec![2, 3]));
    assert_eq!(store.read_range(0, 2, 3), Err(DecodeError::BundleCorrupt));
    assert_eq!(store.read_range(1, 0, 0), Err(DecodeError::SourceUnavailable));
    assert_eq!(store.read_range(9, 0, 0), Err(DecodeError::BundleCorrupt));
}

/// Cache correctness: with the cache filled under the same patch version,
/// the plan for an identifier is to use the cache; a stale or missing
/// entry forces a refetch.
#[test]
fn cache_plan_keeps_to_cache() {
    let current = b"3.26.1".to_vec();
    let same = b"3.26.1".to_vec();
    let stale = b"3.25.0".to_vec();
    assert_eq!(plan_fetch(true, &same, &current), FetchPlan::UseCache);
    assert_eq!(plan_fetch(true, &stale, &current), FetchPlan::Refetch);
    assert_eq!(plan_fetch(false, &same, &current), FetchPlan::Refetch);
}
