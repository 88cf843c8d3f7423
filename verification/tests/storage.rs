//! Frames, heap files, indexes and the page cache.

use evedb_core::error::{Error, Result};
use evedb_core::storage::frame;
use evedb_core::storage::heap::{self, HeapWriter};
use evedb_core::storage::index::{floor_at, lookup_at, scan_at, Key, Value};
use evedb_core::storage::index_writer::IndexWriter;
use evedb_core::storage::page::MAX_RECORD_SIZE;
use evedb_core::storage::pager::{FileId, Loaded};

#[test]
fn every_incomplete_prefix_is_distinguished_from_a_committed_frame() {
    let bytes = frame::encode(2, 123, b"one complete atomic transaction").unwrap();
    for cut in 0..bytes.len() {
        assert!(
            frame::read(&bytes[..cut], 0).unwrap().is_none(),
            "accepted cut at {cut}"
        );
    }
    let record = frame::read(&bytes, 0).unwrap().unwrap();
    assert_eq!(record.kind, 2);
    assert_eq!(record.lsn, 123);
    assert_eq!(record.payload, b"one complete atomic transaction");
    assert!(frame::read(&bytes, bytes.len()).unwrap().is_none());
    for offset in [0, 20, 28, 35, bytes.len() - 1] {
        let mut damaged = bytes.clone();
        damaged[offset] ^= 1;
        assert!(frame::read(&damaged, 0).is_err());
    }
}

/// Repeats an operation until the parts of a file that it needs are in memory.
fn with_file<T>(bytes: &[u8], mut operation: impl FnMut(&Loaded) -> Result<T>) -> Result<T> {
    let mut loaded = Loaded::new();
    loop {
        match operation(&loaded) {
            Err(Error::Unread { file, offset, length }) => {
                if length == 0 {
                    loaded.measure(file, bytes.len() as u64);
                    continue;
                }
                match bytes.get(offset as usize..(offset + length) as usize) {
                    Some(part) => loaded.insert(file, offset, length, part.to_vec()),
                    None => return Err(Error::Corrupt("short file".to_owned())),
                }
            }
            other => return other,
        }
    }
}

#[test]
fn inline_and_overflow_boundaries_roundtrip_with_identity_checks() {
    let file = FileId::new(1, 1, 0, 0);
    let mut writer = HeapWriter::create(19);
    let mut records = Vec::new();
    for size in [
        0,
        1,
        MAX_RECORD_SIZE - 1,
        MAX_RECORD_SIZE,
        MAX_RECORD_SIZE + 1,
        300_000,
    ] {
        let bytes: Vec<u8> = (0..size).map(|n| (n % 251) as u8).collect();
        let location = writer.append(&bytes).unwrap();
        records.push((location, bytes));
    }
    let image = writer.finish();
    for (location, bytes) in records {
        let read = with_file(&image, |loaded| heap::read(loaded, file, location, 19));
        assert_eq!(read.unwrap(), bytes);
    }
    assert!(with_file(&image, |loaded| heap::read(loaded, file, 0, 20)).is_err());
    assert!(with_file(&image, |loaded| heap::read(loaded, file, u64::MAX, 19)).is_err());
}

fn lookup(image: &[u8], file: FileId, lsn: u64, key: Key) -> Result<Option<Value>> {
    with_file(image, |loaded| lookup_at(loaded, file, lsn, 0, key))
}

fn floor(image: &[u8], file: FileId, lsn: u64, key: Key) -> Result<Option<(Key, Value)>> {
    with_file(image, |loaded| floor_at(loaded, file, lsn, 0, key))
}

fn scan(image: &[u8], file: FileId, lsn: u64, lower: Key, upper: Key) -> Vec<(Key, Value)> {
    with_file(image, |loaded| {
        let mut cursor = scan_at(loaded, file, lsn, 0, lower, upper)?;
        let mut found = Vec::new();
        while let Some(entry) = cursor.next(loaded) {
            found.push(entry?);
        }
        Ok(found)
    })
    .unwrap()
}

#[test]
fn three_level_tree_supports_point_floor_and_range_queries() {
    let file = FileId::new(1, 1, 3, 0);
    let mut index = IndexWriter::create(77);
    for n in 0..100_000 {
        index.append((n / 1000, n % 1000), (n, n * 2)).unwrap();
    }
    assert!(index.append((99, 999), (0, 0)).is_err());
    let image = index.finish();
    for n in [0, 253, 254, 338 * 254, 90_123, 99_999] {
        assert_eq!(
            lookup(&image, file, 77, (n / 1000, n % 1000)).unwrap(),
            Some((n, n * 2))
        );
    }
    assert_eq!(lookup(&image, file, 77, (100, 0)).unwrap(), None);
    assert_eq!(
        floor(&image, file, 77, (1, 1001)).unwrap(),
        Some(((1, 999), (1999, 3998)))
    );
    let range = scan(&image, file, 77, (3, 990), (4, 10));
    assert_eq!(range.len(), 21);
    assert_eq!(range.first().unwrap().0, (3, 990));
    assert_eq!(range.last().unwrap().0, (4, 10));
    assert!(lookup(&image, file, 78, (0, 0)).is_err());
}

#[test]
fn empty_tree_and_nonexistent_floor_are_supported() {
    let empty = FileId::new(1, 1, 3, 0);
    let image = IndexWriter::create(0).finish();
    assert_eq!(lookup(&image, empty, 0, (0, 0)).unwrap(), None);
    assert_eq!(floor(&image, empty, 0, (0, 0)).unwrap(), None);
    let single = FileId::new(1, 1, 4, 0);
    let mut index = IndexWriter::create(0);
    index.append((5, 2), (8, 9)).unwrap();
    let image = index.finish();
    assert_eq!(floor(&image, single, 0, (5, 1)).unwrap(), None);
}

/// The predecessor of a key may be the last entry of a preceding leaf.
///
/// Branch separators carry the first key of a subtree, so the descent must
/// land on the leaf that owns the predecessor rather than the next leaf.
#[test]
fn floor_crosses_leaf_boundaries() {
    let file = FileId::new(2, 1, 5, 0);
    let mut index = IndexWriter::create(3);
    // Even keys only, across several leaves, so odd probes fall between them.
    for n in 0..5_000u64 {
        index.append((0, n * 2), (n, 0)).unwrap();
    }
    let image = index.finish();
    for n in 0..5_000u64 {
        assert_eq!(
            floor(&image, file, 3, (0, n * 2 + 1)).unwrap(),
            Some(((0, n * 2), (n, 0))),
            "probe between entries {n} and {}",
            n + 1
        );
    }
    // A probe below every key still has no predecessor.
    assert_eq!(
        floor(&image, file, 3, (0, 0)).unwrap(),
        Some(((0, 0), (0, 0)))
    );
    let first = FileId::new(2, 1, 4, 0);
    let mut index = IndexWriter::create(3);
    for n in 1..5_000u64 {
        index.append((0, n * 2), (n, 0)).unwrap();
    }
    let image = index.finish();
    assert_eq!(floor(&image, first, 3, (0, 1)).unwrap(), None);
}

/// A node in memory must still be rejected when read for another generation.
#[test]
fn a_hot_node_is_still_checked_against_the_expected_sequence() {
    let file = FileId::new(3, 1, 3, 0);
    let mut index = IndexWriter::create(42);
    index.append((1, 1), (7, 7)).unwrap();
    let image = index.finish();
    assert_eq!(lookup(&image, file, 42, (1, 1)).unwrap(), Some((7, 7)));
    assert!(lookup(&image, file, 43, (1, 1)).is_err());
    assert_eq!(lookup(&image, file, 42, (1, 1)).unwrap(), Some((7, 7)));
}
