//! Byte formats, file names, messages and caches.

use std::sync::Arc;

use evedb_core::codec::{Decoder, Encoder};
use evedb_core::error::{corrupt, invalid, Error, Result};
use evedb_core::history::{event_location, event_split, pack, unpack};
use evedb_core::memory::{entity_bytes, event_bytes, value_bytes, Accounted};
use evedb_core::model::{Entity, Event, EventKind, Fields, Value};
use evedb_core::operation::{decode_ops, encode_ops, Operation};
use evedb_core::ordered_map::OrderedMap;
use evedb_core::partitions::{bucket, end, entity_slot, remap};
use evedb_core::shared::IsolationLevel;
use evedb_core::storage::heap::{locate, split};
use evedb_core::storage::pager::{page_key, FileCache, FileId, PageCache};
use evedb_core::text::{join, label, parse_number, to_decimal, to_padded};

#[test]
fn scalars_are_little_endian_and_strings_carry_their_length() {
    let mut out = Encoder::default();
    out.u8(7);
    out.bool(true);
    out.u32(0x0102_0304);
    out.u64(1);
    out.string("é");
    assert_eq!(
        out.0,
        [7, 1, 4, 3, 2, 1, 1, 0, 0, 0, 0, 0, 0, 0, 2, 0, 0, 0, 0, 0, 0, 0, 0xc3, 0xa9]
    );
    let mut input = Decoder::new(&out.0);
    assert_eq!(input.u8().unwrap(), 7);
    assert!(input.bool("flag").unwrap());
    assert_eq!(input.u32().unwrap(), 0x0102_0304);
    assert_eq!(input.u64().unwrap(), 1);
    assert_eq!(input.string().unwrap(), "é");
    assert!(input.finish().is_ok());
}

#[test]
fn damaged_scalars_are_rejected() {
    assert!(matches!(Decoder::new(&[2]).bool("flag"), Err(Error::Corrupt(m)) if m == "flag"));
    assert!(matches!(Decoder::new(&[1, 2, 3]).u32(), Err(Error::Corrupt(_))));
    assert!(matches!(Decoder::new(&[1]).finish(), Err(Error::Corrupt(_))));
    let mut invalid_text = Encoder::default();
    invalid_text.bytes(&[0xff, 0xfe]);
    assert!(matches!(Decoder::new(&invalid_text.0).string(), Err(Error::Corrupt(_))));
    // Three items of eight bytes each cannot follow in sixteen bytes.
    let mut count = Encoder::default();
    count.u64(3);
    count.u64(0);
    count.u64(0);
    assert!(matches!(Decoder::new(&count.0).count(8), Err(Error::Corrupt(_))));
    assert_eq!(Decoder::new(&count.0).count(5).unwrap(), 3);
}

#[test]
fn history_records_pack_runs_and_unpack_exactly() {
    let long = vec![9u8; 1000];
    let packed = pack(42, &long, true);
    assert!(packed.len() < 100);
    assert_eq!(unpack(&packed).unwrap(), (42, long.clone()));
    let plain = pack(42, &long, false);
    assert_eq!(plain.len(), 13 + 1000);
    assert_eq!(unpack(&plain).unwrap(), (42, long));
    let varied: Vec<u8> = (0..=255).collect();
    assert_eq!(unpack(&pack(u64::MAX, &varied, true)).unwrap(), (u64::MAX, varied));
    assert_eq!(unpack(&pack(1, &[], true)).unwrap(), (1, vec![]));
    assert!(matches!(unpack(&plain[..12]), Err(Error::Corrupt(_))));
    assert!(matches!(unpack(&plain[..1012]), Err(Error::Corrupt(_))));
    let mut unknown = plain.clone();
    unknown[8] = 2;
    assert!(matches!(unpack(&unknown), Err(Error::Corrupt(_))));
    let mut oversized = plain;
    oversized[12] = 0xff;
    assert!(matches!(unpack(&oversized), Err(Error::Corrupt(_))));
}

#[test]
fn event_locations_hold_a_segment_and_an_offset() {
    let place = event_location(0xffff, 0xffff_ffff_ffff).unwrap();
    assert_eq!(place, u64::MAX);
    assert_eq!(event_split(event_location(3, 8).unwrap()), (3, 8));
    assert!(matches!(event_location(0x1_0000, 0), Err(Error::Invalid(_))));
    assert!(matches!(event_location(0, 0x1_0000_0000_0000), Err(Error::Invalid(_))));
}

#[test]
fn buckets_are_aligned_and_cover_their_keys() {
    assert_eq!(bucket(3, (2047, 0)), (1024, 0));
    assert_eq!(end(3, (1024, 0)), (2047, u64::MAX));
    assert_eq!(bucket(4, (7, 1023)), (7, 0));
    assert_eq!(end(4, (7, 0)), (7, 1023));
    let top = bucket(3, (u64::MAX, 0));
    assert_eq!(top, (u64::MAX - 1023, 0));
    assert_eq!(end(3, top), (u64::MAX, u64::MAX));
}

#[test]
fn primary_entries_share_a_slot_that_can_be_rewritten() {
    let value = (locate(3, 500), locate(3, 900));
    assert_eq!(entity_slot(value).unwrap(), 3);
    let moved = remap(value, 9);
    assert_eq!(entity_slot(moved).unwrap(), 9);
    assert_eq!(split(moved.0), (9, 500));
    assert_eq!(split(moved.1), (9, 900));
    assert!(matches!(
        entity_slot((locate(1, 5), locate(2, 5))),
        Err(Error::Corrupt(_))
    ));
}

#[test]
fn numbers_are_written_and_read_back_with_their_padding() {
    assert_eq!(to_decimal(0), "0");
    assert_eq!(to_decimal(u64::MAX), "18446744073709551615");
    assert_eq!(to_padded(42, 20), "00000000000000000042");
    assert_eq!(join("a", "b"), "ab");
    assert_eq!(label("entity ", 7), "entity 7");
    assert_eq!(parse_number("00000000000000000042"), Some(42));
    assert_eq!(parse_number("18446744073709551615"), Some(u64::MAX));
    assert_eq!(parse_number("18446744073709551616"), None);
    assert_eq!(parse_number("42"), None);
    assert_eq!(parse_number("0000000000000000004x"), None);
}

#[test]
fn messages_name_what_failed() {
    let cases: Vec<(Error, &str)> = vec![
        (corrupt("x"), "corrupt storage: x"),
        (invalid("x"), "invalid operation: x"),
        (Error::Io("x".to_owned()), "storage I/O failed: x"),
        (Error::NotFound("entity 1".to_owned()), "not found: entity 1"),
        (Error::AlreadyExists("t".to_owned()), "already exists: t"),
        (Error::Locked, "the data directory is already open"),
        (Error::DeadlineExceeded, "operation deadline exceeded"),
        (Error::TransactionExpired, "transaction or snapshot expired"),
        (
            Error::LimitExceeded { resource: "queued commits", limit: 3 },
            "limit exceeded: queued commits (maximum 3)",
        ),
        (
            Error::UnsupportedIsolation(IsolationLevel::Serializable),
            "unsupported isolation level: Serializable",
        ),
        (
            Error::Conflict { table: Some(1), entity: None },
            "transaction conflict at table Some(1), entity None; retry the whole transaction",
        ),
        (
            Error::VersionUnavailable { requested: 9, first: 2, last: 5 },
            "version 9 is unavailable; retained range is 2..=5",
        ),
    ];
    for (error, message) in cases {
        assert_eq!(error.message(), message);
        assert_eq!(error.duplicate().message(), message);
    }
}

#[test]
fn decoded_sizes_count_what_values_hold() {
    let text = Value::Text("x".repeat(100));
    let bytes = Value::Bytes(vec![0; 300]);
    assert!(value_bytes(&text) >= value_bytes(&Value::Null) + 100);
    assert!(value_bytes(&bytes) >= value_bytes(&Value::Null) + 300);
    let mut roomy = Vec::with_capacity(5000);
    roomy.push(1u8);
    assert!(value_bytes(&Value::Bytes(roomy)) >= 5000);
    let mut roomy = String::with_capacity(5000);
    roomy.push('x');
    assert!(value_bytes(&Value::Text(roomy)) >= 5000);
    let mut fields = Fields::new();
    fields.insert(1, bytes);
    let entity = Entity { id: 1, version: 1, schema_version: 1, deleted: false, fields };
    assert!(entity_bytes(&entity) >= 300 + std::mem::size_of::<Entity>());
    let slot = Accounted { value: 5u8, memory: None };
    assert_eq!(slot.bytes(), 0);
    assert_eq!(slot.into_inner(), 5);
}

/// Pages of one file behind the caches.
struct Pages {
    file: Vec<Vec<u8>>,
    pages: PageCache<u8>,
    open: FileCache<u8>,
}

impl Pages {
    fn page(&mut self, id: FileId, number: u64, decode: fn(&[u8]) -> Result<u8>) -> Result<Arc<u8>> {
        let key = page_key(id, number);
        if let Some(page) = self.pages.get(key) {
            return Ok(page);
        }
        let handle = (id.table, id.generation, id.kind, id.segment);
        if self.open.get(handle).is_none() {
            self.open.insert(handle, 0);
        }
        let bytes = self
            .file
            .get(number as usize)
            .ok_or_else(|| Error::Io("end of file".to_owned()))?;
        let page = Arc::new(decode(bytes)?);
        self.pages.insert(key, page.clone());
        Ok(page)
    }
}

#[test]
fn cached_pages_are_decoded_once_and_evicted_under_a_budget() {
    let id = FileId { table: 1, generation: 1, kind: 3, segment: 0 };
    let mut pager = Pages {
        file: (0..16u8).map(|n| vec![n; 8192]).collect(),
        pages: PageCache::new(8 * 8192),
        open: FileCache::new(4),
    };
    let decode = |bytes: &[u8]| Ok(bytes[0]);
    assert_eq!(*pager.page(id, 0, decode).unwrap(), 0);
    assert_eq!(*pager.page(id, 0, decode).unwrap(), 0);
    assert_eq!(pager.pages.stats(), (1, 1));

    for n in 0..16 {
        assert_eq!(*pager.page(id, n, decode).unwrap(), n as u8);
    }
    assert!(pager.pages.len() <= 8);

    let cached = pager.pages.len();
    let missing = (0..16).find(|n| pager.pages.get(page_key(id, *n)).is_none()).unwrap();
    assert!(pager.page(id, missing, |_| Err(corrupt("rejected"))).is_err());
    assert!(pager.pages.len() <= cached);
    assert!(pager.page(id, 16, decode).is_err());

    pager.open.insert((1, 1, 3, 0), 0);
    pager.pages.retain(&OrderedMap::new());
    pager.open.retain(&OrderedMap::new());
    assert_eq!(pager.pages.len(), 0);
    assert!(pager.open.get((1, 1, 3, 0)).is_none());
}

#[test]
fn a_record_of_operations_holds_them_and_nothing_else() {
    let mut fields = Fields::new();
    fields.insert(1, Value::Int64(7));
    let create = Operation::Create(1, 2, fields);
    assert_eq!(create.encoded_len(), 38);
    let bytes = encode_ops(&vec![create]);
    assert_eq!(bytes.len(), 46);
    let more = vec![Operation::Delete(1, 2), Operation::Retain(1, 2, 3), Operation::Snapshot(1, 2)];
    assert_eq!(encode_ops(&more).len(), 8 + 17 + 25 + 17);
    assert_eq!(decode_ops(&encode_ops(&more)).unwrap().len(), 3);
    assert!(matches!(&decode_ops(&bytes).unwrap()[..], [Operation::Create(1, 2, _)]));
    assert!(matches!(decode_ops(&encode_ops(&Vec::new())), Err(Error::Corrupt(_))));
    let mut longer = bytes;
    longer.push(0);
    assert!(matches!(decode_ops(&longer), Err(Error::Corrupt(_))));
}

#[test]
fn only_the_files_that_are_kept_stay_cached() {
    let file = |segment: u64| FileId { table: 1, generation: 1, kind: 3, segment };
    let mut pages = PageCache::new(8 * 8192);
    let mut open = FileCache::new(4);
    for segment in 0..3 {
        pages.insert(page_key(file(segment), 0), Arc::new(segment));
        pages.insert(page_key(file(segment), 1), Arc::new(segment));
        open.insert((1, 1, 3, segment), segment);
    }
    let mut keep = OrderedMap::new();
    keep.insert(file(1), ());
    pages.retain(&keep);
    open.retain(&keep);
    assert_eq!(pages.len(), 2);
    assert_eq!(pages.get(page_key(file(1), 1)).as_deref(), Some(&1));
    assert!(pages.get(page_key(file(0), 0)).is_none());
    assert!(pages.get(page_key(file(2), 1)).is_none());
    assert_eq!(open.get((1, 1, 3, 1)), Some(&1));
    assert!(open.get((1, 1, 3, 0)).is_none());
    assert!(open.get((1, 1, 3, 2)).is_none());
}

#[test]
fn the_clock_takes_the_first_page_that_was_not_read_again() {
    let file = FileId { table: 1, generation: 1, kind: 3, segment: 0 };
    let mut pages = PageCache::new(8 * 8192);
    for number in 0..8u64 {
        pages.insert(page_key(file, number), Arc::new(number));
    }
    let capacity = pages.len() as u64;
    for number in 0..capacity {
        assert!(pages.get(page_key(file, number)).is_some());
    }
    // Every page was read, so the hand goes round once and takes the first.
    pages.insert(page_key(file, 100), Arc::new(100));
    assert_eq!(pages.len() as u64, capacity);
    assert!(pages.get(page_key(file, 0)).is_none());
    // The second was not read since and goes next, the third was and stays.
    assert!(pages.get(page_key(file, 2)).is_some());
    pages.insert(page_key(file, 101), Arc::new(101));
    assert!(pages.get(page_key(file, 1)).is_none());
    pages.insert(page_key(file, 102), Arc::new(102));
    assert!(pages.get(page_key(file, 3)).is_none());
    assert!(pages.get(page_key(file, 2)).is_some());
}

#[test]
fn the_oldest_open_file_is_closed_first() {
    let mut open = FileCache::new(4);
    for n in 0..4u64 {
        open.insert((1, n, 0, 0), n);
    }
    open.insert((1, 4, 0, 0), 4);
    assert!(open.get((1, 0, 0, 0)).is_none());
    assert_eq!(open.get((1, 1, 0, 0)), Some(&1));
    assert_eq!(open.get((1, 4, 0, 0)), Some(&4));
}

#[test]
fn event_sizes_grow_with_their_fields() {
    let mut fields = Fields::new();
    fields.insert(1, Value::Bytes(vec![0; 1000]));
    let mut event = an_event(Fields::new());
    let empty = event_bytes(&event);
    event = an_event(fields);
    assert!(event_bytes(&event) >= empty + 1000);
}

fn an_event(fields: Fields) -> Event {
    Event { version: 1, transaction: 1, schema_version: 1, kind: EventKind::Apply, fields }
}
