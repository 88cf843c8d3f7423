//! Heap files: records on slotted pages, long ones on chains of pages.
//!
//! A record begins with its kind: 0 for one that stands on a page of its own or
//! with others, 1 for a fragment of a chain. A fragment goes on with the length
//! of the whole record, its own number and the number of fragments.

use crate::bytes::copy_range;
use crate::bytes::get_le;
use crate::bytes::le;
use crate::bytes::lemma_le_len;
use crate::bytes::lemma_pow256;
use crate::bytes::lemma_un_le_bound;
use crate::bytes::lemma_un_le_le;
use crate::bytes::put_bytes;
use crate::bytes::put_le;
use crate::bytes::un_le;
use crate::codec::MAX_RECORD;
use crate::error::corrupt;
use crate::error::invalid;
use crate::error::Error;
use crate::error::Result;
use crate::storage::page::id_of;
use crate::storage::page::lsn_of;
use crate::storage::page::page_fault;
use crate::storage::page::records;
use crate::storage::page::SlottedPage;
use crate::storage::page::MAX_RECORD_SIZE;
use crate::storage::pager::page_request;
use crate::storage::pager::extent_of;
use crate::storage::pager::page_of;
use crate::storage::pager::Extent;
use crate::storage::pager::FileId;
use crate::storage::pager::Files;
use crate::storage::pager::Loaded;
use vstd::prelude::*;

verus! {

/// The number of generation slots one manifest can address.
pub const MAX_SLOTS: usize = 256;

/// Pages addressable by one heap file, leaving the top byte to the slot.
pub const PAGE_LIMIT: u64 = 0x100_0000_0000;

/// Stamps the generation slot of a manifest onto an in-file location.
pub fn locate(slot: u8, location: u64) -> (locator: u64)
    ensures
        locator == ((slot as u64) << 56) | location,
{
    ((slot as u64) << 56) | location
}

/// Splits a stored locator into its generation slot and in-file location.
pub fn split(locator: u64) -> (r: (u8, u64))
    ensures
        r.0 == (locator >> 56) as u8,
        r.1 == locator & 0xff_ffff_ffff_ffff,
{
    ((locator >> 56) as u8, locator & 0xff_ffff_ffff_ffff)
}

/// A locator splits into what it was made of.
pub proof fn lemma_locator(slot: u8, location: u64)
    requires
        location < 0x100_0000_0000_0000,
    ensures
        ((((slot as u64) << 56) | location) >> 56) as u8 == slot,
        (((slot as u64) << 56) | location) & 0xff_ffff_ffff_ffff == location,
{
    assert(((((slot as u64) << 56) | location) >> 56) as u8 == slot) by (bit_vector)
        requires
            location < 0x100_0000_0000_0000,
    ;
    assert((((slot as u64) << 56) | location) & 0xff_ffff_ffff_ffff == location) by (bit_vector)
        requires
            location < 0x100_0000_0000_0000,
    ;
}

/// A locator is made of what it splits into, and its location fits beside a slot.
pub proof fn lemma_split(locator: u64)
    ensures
        ((((locator >> 56) as u8) as u64) << 56) | (locator & 0xff_ffff_ffff_ffff) == locator,
        locator & 0xff_ffff_ffff_ffff < 0x100_0000_0000_0000,
{
    assert(((((locator >> 56) as u8) as u64) << 56) | (locator & 0xff_ffff_ffff_ffff) == locator)
        by (bit_vector);
    assert(locator & 0xff_ffff_ffff_ffff < 0x100_0000_0000_0000) by (bit_vector);
}

// ---- What heap files hold ----

/// The bytes of a page.
pub open spec fn page_bytes(c: Seq<u8>, n: nat) -> Seq<u8> {
    c.subrange((n * 8192) as int, (n * 8192 + 8192) as int)
}

/// Page bytes, if they are sound and those of the page that they should be.
pub open spec fn sound_page(b: Seq<u8>, n: nat, lsn: u64) -> Option<Seq<u8>> {
    if page_fault(b) is None && id_of(b) == n && lsn_of(b) == lsn {
        Some(b)
    } else {
        None
    }
}

/// A heap page of a file, if the file has it and it is sound.
pub open spec fn heap_page(c: Seq<u8>, n: nat, lsn: u64) -> Option<Seq<u8>> {
    if n * 8192 + 8192 <= c.len() {
        sound_page(page_bytes(c, n), n, lsn)
    } else {
        None
    }
}

/// The record in a slot of a heap page.
pub open spec fn heap_slot(c: Seq<u8>, n: nat, slot: nat, lsn: u64) -> Option<Seq<u8>> {
    match heap_page(c, n, lsn) {
        Some(b) => if slot < records(b).len() {
            records(b)[slot as int]
        } else {
            None
        },
        None => None,
    }
}

/// The bytes of the first fragments of a chain.
pub open spec fn chain(c: Seq<u8>, n: nat, lsn: u64, total: nat, count: nat, upto: nat) -> Option<
    Seq<u8>,
>
    decreases upto,
{
    if upto == 0 {
        Some(Seq::empty())
    } else {
        match (
            chain(c, n, lsn, total, count, (upto - 1) as nat),
            heap_slot(c, (n + upto - 1) as nat, 0, lsn),
        ) {
            (Some(before), Some(f)) => if f.len() >= 13 && f[0] == 1 && un_le(f.subrange(1, 5))
                == total && un_le(f.subrange(5, 9)) == upto - 1 && un_le(f.subrange(9, 13))
                == count && before.len() + f.len() - 13 <= total {
                Some(before + f.skip(13))
            } else {
                None
            },
            _ => None,
        }
    }
}

/// The number of fragments of a long record.
pub open spec fn fragments(total: nat) -> nat {
    (total + 8134) / 8135
}

/// The record at a location of a heap file.
pub open spec fn heap_record(c: Seq<u8>, location: u64, lsn: u64) -> Option<Seq<u8>> {
    let n = (location / 65536) as nat;
    let slot = (location % 65536) as nat;
    match heap_slot(c, n, slot, lsn) {
        None => None,
        Some(r) => if r.len() >= 1 && r[0] == 0 {
            Some(r.skip(1))
        } else if r.len() >= 13 && r[0] == 1 {
            let total = un_le(r.subrange(1, 5));
            let count = un_le(r.subrange(9, 13));
            if 8148 <= total <= MAX_RECORD && count == fragments(total) && slot == 0 {
                match chain(c, n, lsn, total, count, count) {
                    Some(bytes) => if bytes.len() == total {
                        Some(bytes)
                    } else {
                        None
                    },
                    None => None,
                }
            } else {
                None
            }
        } else {
            None
        },
    }
}

/// The record at a location of a checkpoint file.
pub open spec fn record_in(files: Files, file: FileId, location: u64, lsn: u64) -> Option<
    Seq<u8>,
> {
    if files.contains_key(file) {
        heap_record(files[file], location, lsn)
    } else {
        None
    }
}

/// The request for the fragments of a long record.
pub open spec fn chain_request(file: FileId, first: int, count: nat) -> Error {
    Error::Unread { file, offset: (first * 8192) as u64, length: (count * 8192) as u64 }
}

/// Whether reading the record at a location needs what a request names: its page, or the pages
/// of the fragments that it says it has.
pub open spec fn heap_asks(files: Files, file: FileId, location: u64, lsn: u64, e: Error) -> bool {
    let n = (location / 65536) as nat;
    ||| e == page_request(file, n as int)
    ||| match heap_slot(files[file], n, (location % 65536) as nat, lsn) {
        None => false,
        Some(r) => {
            let count = un_le(r.subrange(9, 13));
            r.len() >= 13 && r[0] == 1 && count == fragments(un_le(r.subrange(1, 5))) && e
                == chain_request(file, n as int, count)
        },
    }
}

// ---- Reading ----

/// Checks a page against the identity that it should have.
fn parse_page(bytes: &[u8], id: u64, lsn: u64) -> (r: Result<SlottedPage>)
    ensures
        match r {
            Ok(page) => page.bytes() == bytes@ && sound_page(bytes@, id as nat, lsn) == Some(
                bytes@,
            ),
            Err(e) => e is Corrupt && sound_page(bytes@, id as nat, lsn) is None,
        },
{
    match SlottedPage::from_bytes(bytes) {
        Err(e) => Err(Error::Corrupt(e.message())),
        Ok(page) => {
            if page.page_id() != id || page.lsn() != lsn {
                return Err(corrupt("misdirected heap page"));
            }
            Ok(page)
        },
    }
}

/// A page within a part of a file is a page of the file.
proof fn lemma_page_in(files: Files, e: Extent, first: nat, count: nat, k: nat, lsn: u64)
    requires
        e.offset == first * 8192,
        e.length == count * 8192,
        k < count,
        extent_of(files, e) is Some,
    ensures
        heap_page(files[e.file], first + k, lsn) == sound_page(
            page_bytes(extent_of(files, e).unwrap(), k),
            first + k,
            lsn,
        ),
        extent_of(files, e).unwrap().len() == count * 8192,
{
    let c = files[e.file];
    let part = extent_of(files, e).unwrap();
    assert(page_bytes(c, first + k) =~= page_bytes(part, k));
}

/// Reads the record at a location of a heap file.
pub fn read(loaded: &Loaded, file: FileId, location: u64, lsn: u64) -> (r: Result<Vec<u8>>)
    ensures
        match r {
            Ok(bytes) => forall|files: Files| #[trigger]
                loaded.agrees(files) ==> record_in(files, file, location, lsn) == Some(bytes@),
            Err(Error::Unread { file: f, offset, length }) => f == file && length > 0
                && !loaded.has(Extent { file, offset, length }) && forall|files: Files| #[trigger]
                loaded.agrees(files) ==> heap_asks(
                    files,
                    file,
                    location,
                    lsn,
                    Error::Unread { file: f, offset, length },
                ),
            Err(e) => e is Corrupt && forall|files: Files| #[trigger]
                loaded.agrees(files) ==> record_in(files, file, location, lsn) is None,
        },
{
    let page_id: u64 = location / 65536;
    let slot: u16 = (location % 65536) as u16;
    let first = loaded.page(file, page_id)?;
    proof {
        let e = Extent { file, offset: (page_id * 8192) as u64, length: 8192 };
        assert forall|files: Files| #[trigger] loaded.agrees(files) implies files.contains_key(file)
            && heap_page(files[file], page_id as nat, lsn) == sound_page(
            first@,
            page_id as nat,
            lsn,
        ) by {
            assert(page_of(files, file, page_id as nat) == extent_of(files, e));
            lemma_page_in(files, e, page_id as nat, 1, 0, lsn);
            assert(page_bytes(first@, 0) =~= first@);
        }
    }
    let page = parse_page(first.as_slice(), page_id, lsn)?;
    let record = match page.get(slot) {
        Some(record) => record,
        None => {
            return Err(corrupt("absent heap slot"));
        },
    };
    let ghost r = record@;
    assert(forall|files: Files| #[trigger]
        loaded.agrees(files) ==> files.contains_key(file) && heap_slot(
            files[file],
            page_id as nat,
            slot as nat,
            lsn,
        ) == Some(r));
    if record.len() >= 1 && record[0] == 0 {
        let bytes = copy_range(record, 1, record.len());
        assert(bytes@ =~= r.skip(1));
        return Ok(bytes);
    }
    if record.len() < 13 || record[0] != 1 {
        return Err(corrupt("unknown heap record kind"));
    }
    let total: usize = get_le(record, 1, 4) as usize;
    let count: usize = get_le(record, 9, 4) as usize;
    proof {
        lemma_pow256();
        lemma_un_le_bound(r.subrange(1, 5));
        lemma_un_le_bound(r.subrange(9, 13));
    }
    if total < MAX_RECORD_SIZE || total > MAX_RECORD || count != (total + 8134) / 8135 || slot
        != 0 {
        return Err(corrupt("invalid overflow chain"));
    }
    let bytes = read_chain(loaded, file, page_id, lsn, total, count)?;
    Ok(bytes)
}

/// Reads the fragments of a long record.
fn read_chain(
    loaded: &Loaded,
    file: FileId,
    page_id: u64,
    lsn: u64,
    total: usize,
    count: usize,
) -> (r: Result<Vec<u8>>)
    requires
        1 <= count <= 2063,
        total <= MAX_RECORD,
        page_id <= 0xffff_ffff_ffff,
    ensures
        match r {
            Ok(bytes) => bytes@.len() == total && forall|files: Files| #[trigger]
                loaded.agrees(files) ==> chain(
                    files[file],
                    page_id as nat,
                    lsn,
                    total as nat,
                    count as nat,
                    count as nat,
                ) == Some(bytes@),
            Err(Error::Unread { file: f, offset, length }) => f == file && length > 0
                && !loaded.has(Extent { file, offset, length }) && Error::Unread {
                file: f,
                offset,
                length,
            } == chain_request(file, page_id as int, count as nat),
            Err(e) => e is Corrupt && forall|files: Files| #[trigger]
                loaded.agrees(files) ==> match chain(
                    files[file],
                    page_id as nat,
                    lsn,
                    total as nat,
                    count as nat,
                    count as nat,
                ) {
                    Some(bytes) => bytes.len() != total,
                    None => true,
                },
        },
{
    let pages = loaded.extent(file, page_id * 8192, count as u64 * 8192)?;
    let ghost e = Extent {
        file,
        offset: (page_id * 8192) as u64,
        length: (count * 8192) as u64,
    };
    let ghost first = page_id as nat;
    let mut bytes: Vec<u8> = Vec::new();
    let mut index: usize = 0;
    if pages.len() != count * 8192 {
        proof {
            assert forall|files: Files| #[trigger] loaded.agrees(files) implies false by {
                lemma_page_in(files, e, first, count as nat, 0, lsn);
            }
        }
        return Err(corrupt("truncated overflow chain"));
    }
    while index < count
        invariant
            index <= count,
            count <= 2063,
            pages@.len() == count * 8192,
            page_id <= 0xffff_ffff_ffff,
            first == page_id,
            bytes@.len() <= total <= MAX_RECORD,
            e.file == file,
            e.offset == page_id * 8192,
            e.length == count * 8192,
            forall|files: Files| #[trigger]
                loaded.agrees(files) ==> extent_of(files, e) == Some(pages@) && chain(
                    files[file],
                    first,
                    lsn,
                    total as nat,
                    count as nat,
                    index as nat,
                ) == Some(bytes@),
        decreases count - index,
    {
        let from: usize = index * 8192;
        let slice = vstd::slice::slice_subrange(pages.as_slice(), from, from + 8192);
        let ghost k = index as nat;
        proof {
            assert(slice@ == page_bytes(pages@, k));
            assert forall|files: Files| #[trigger] loaded.agrees(files) implies heap_page(
                files[file],
                first + k,
                lsn,
            ) == sound_page(slice@, first + k, lsn) && (chain(
                files[file],
                first,
                lsn,
                total as nat,
                count as nat,
                k + 1,
            ) is None ==> chain(files[file], first, lsn, total as nat, count as nat, count as nat)
                is None) by {
                lemma_page_in(files, e, first, count as nat, k, lsn);
                if chain(files[file], first, lsn, total as nat, count as nat, k + 1) is None {
                    lemma_chain_end(files[file], first, lsn, total as nat, count as nat, k + 1);
                }
            }
        }
        let chunk_page = parse_page(slice, page_id + index as u64, lsn)?;
        let chunk = match chunk_page.get(0) {
            Some(chunk) => chunk,
            None => {
                return Err(corrupt("missing overflow record"));
            },
        };
        assert(forall|files: Files| #[trigger]
            loaded.agrees(files) ==> heap_slot(files[file], first + k, 0, lsn) == Some(chunk@));
        if chunk.len() < 13 || chunk[0] != 1 || get_le(chunk, 1, 4) != total as u64 || get_le(
            chunk,
            9,
            4,
        ) != count as u64 || get_le(chunk, 5, 4) != index as u64 {
            return Err(corrupt("invalid overflow fragment"));
        }
        if chunk.len() - 13 > total - bytes.len() {
            return Err(corrupt("overflow chain is too long"));
        }
        let body = vstd::slice::slice_subrange(chunk, 13, chunk.len());
        assert(body@ =~= chunk@.skip(13));
        put_bytes(&mut bytes, body);
        index = index + 1;
    }
    if bytes.len() != total {
        return Err(corrupt("truncated overflow chain"));
    }
    Ok(bytes)
}

/// A chain that breaks off early has no end.
proof fn lemma_chain_end(c: Seq<u8>, n: nat, lsn: u64, total: nat, count: nat, upto: nat)
    requires
        upto <= count,
        chain(c, n, lsn, total, count, upto) is None,
    ensures
        chain(c, n, lsn, total, count, count) is None,
    decreases count - upto,
{
    if upto < count {
        lemma_chain_end(c, n, lsn, total, count, upto + 1);
    }
}

// ---- Writing ----

/// Whether a file has every sound page of another, with at least its records.
#[verifier::opaque]
spec fn extends(a: Seq<u8>, b: Seq<u8>, lsn: u64) -> bool {
    forall|n: nat|
        (#[trigger] heap_page(a, n, lsn)) is Some ==> heap_page(b, n, lsn) is Some && records(
            heap_page(a, n, lsn).unwrap(),
        ).is_prefix_of(records(heap_page(b, n, lsn).unwrap()))
}

proof fn lemma_extends_trans(a: Seq<u8>, b: Seq<u8>, c: Seq<u8>, lsn: u64)
    requires
        extends(a, b, lsn),
        extends(b, c, lsn),
    ensures
        extends(a, c, lsn),
{
    reveal(extends);
    assert forall|n: nat| (#[trigger] heap_page(a, n, lsn)) is Some implies heap_page(c, n, lsn)
        is Some && records(heap_page(a, n, lsn).unwrap()).is_prefix_of(
        records(heap_page(c, n, lsn).unwrap()),
    ) by {
        let (x, y, z) = (
            records(heap_page(a, n, lsn).unwrap()),
            records(heap_page(b, n, lsn).unwrap()),
            records(heap_page(c, n, lsn).unwrap()),
        );
        assert(heap_page(b, n, lsn) is Some);
        assert(x =~= z.take(x.len() as int));
    }
}

proof fn lemma_slot_kept(a: Seq<u8>, b: Seq<u8>, lsn: u64, n: nat, slot: nat)
    requires
        extends(a, b, lsn),
        heap_slot(a, n, slot, lsn) is Some,
    ensures
        heap_slot(b, n, slot, lsn) == heap_slot(a, n, slot, lsn),
{
    reveal(extends);
    assert(heap_page(a, n, lsn) is Some);
    let (x, y) = (
        records(heap_page(a, n, lsn).unwrap()),
        records(heap_page(b, n, lsn).unwrap()),
    );
    assert(x[slot as int] == y.take(x.len() as int)[slot as int]);
}

proof fn lemma_chain_kept(
    a: Seq<u8>,
    b: Seq<u8>,
    n: nat,
    lsn: u64,
    total: nat,
    count: nat,
    upto: nat,
)
    requires
        extends(a, b, lsn),
        chain(a, n, lsn, total, count, upto) is Some,
    ensures
        chain(b, n, lsn, total, count, upto) == chain(a, n, lsn, total, count, upto),
    decreases upto,
{
    if upto > 0 {
        lemma_chain_kept(a, b, n, lsn, total, count, (upto - 1) as nat);
        lemma_slot_kept(a, b, lsn, (n + upto - 1) as nat, 0);
    }
}

/// A record stays where it is as a file grows.
proof fn lemma_record_kept(a: Seq<u8>, b: Seq<u8>, lsn: u64, location: u64)
    requires
        extends(a, b, lsn),
        heap_record(a, location, lsn) is Some,
    ensures
        heap_record(b, location, lsn) == heap_record(a, location, lsn),
{
    let n = (location / 65536) as nat;
    let slot = (location % 65536) as nat;
    lemma_slot_kept(a, b, lsn, n, slot);
    let r = heap_slot(a, n, slot, lsn).unwrap();
    if !(r.len() >= 1 && r[0] == 0) {
        let total = un_le(r.subrange(1, 5));
        let count = un_le(r.subrange(9, 13));
        lemma_chain_kept(a, b, n, lsn, total, count, count);
    }
}

/// Pages in front of a last one, which is there once it holds a record.
spec fn with_last(front: Seq<u8>, last: Seq<u8>) -> Seq<u8> {
    if records(last).len() > 0 {
        front + last
    } else {
        front
    }
}

/// A further record on the last page leaves what there was.
proof fn lemma_last_grows(front: Seq<u8>, a: Seq<u8>, b: Seq<u8>, n: nat, lsn: u64)
    requires
        front.len() == n * 8192,
        page_fault(a) is None && id_of(a) == n && lsn_of(a) == lsn,
        page_fault(b) is None && id_of(b) == n && lsn_of(b) == lsn,
        records(a).is_prefix_of(records(b)),
        records(b).len() > 0,
    ensures
        extends(with_last(front, a), with_last(front, b), lsn),
        heap_page(with_last(front, b), n, lsn) == Some(b),
{
    reveal(extends);
    let x = with_last(front, a);
    let y = with_last(front, b);
    assert(page_bytes(y, n) =~= b);
    assert forall|m: nat| (#[trigger] heap_page(x, m, lsn)) is Some implies heap_page(y, m, lsn)
        is Some && records(heap_page(x, m, lsn).unwrap()).is_prefix_of(
        records(heap_page(y, m, lsn).unwrap()),
    ) by {
        if m < n {
            assert(page_bytes(x, m) =~= page_bytes(y, m));
            let r = records(heap_page(x, m, lsn).unwrap());
            assert(r =~= r.take(r.len() as int));
        } else {
            assert(m == n);
            assert(page_bytes(x, m) =~= a);
        }
    }
}

/// Builds a heap file.
pub struct HeapWriter {
    out: Vec<u8>,
    page: SlottedPage,
    lsn: u64,
}

impl HeapWriter {
    /// Whether the page in hand is the next one of the file.
    pub closed spec fn sound(self) -> bool {
        &&& id_of(self.page.bytes()) * 8192 == self.out@.len()
        &&& lsn_of(self.page.bytes()) == self.lsn
        &&& page_fault(self.page.bytes()) is None
    }

    /// The file so far.
    pub closed spec fn image(self) -> Seq<u8> {
        with_last(self.out@, self.page.bytes())
    }

    /// The sequence number that the pages carry.
    pub closed spec fn sequence(self) -> u64 {
        self.lsn
    }

    /// The number of the page in hand.
    pub closed spec fn current(self) -> nat {
        id_of(self.page.bytes())
    }

    /// Starts a heap file whose pages carry a sequence number.
    pub fn create(lsn: u64) -> (w: Self)
        ensures
            w.sound(),
            w.image() == Seq::<u8>::empty(),
            w.sequence() == lsn,
            w.current() == 0,
    {
        let mut page = SlottedPage::new(0);
        page.set_lsn(lsn);
        let b = page.as_bytes();
        HeapWriter { out: Vec::new(), page, lsn }
    }

    /// Puts the page in hand into the file, if it holds a record, and begins the next.
    fn flush(&mut self)
        requires
            old(self).sound(),
        ensures
            final(self).sound(),
            final(self).image() == old(self).image(),
            final(self).sequence() == old(self).sequence(),
            final(self).page.slots().len() == 0,
            final(self).current() == (if old(self).page.slots().len() > 0 {
                old(self).current() + 1
            } else {
                old(self).current()
            }),
    {
        if self.page.record_count() == 0 {
            return;
        }
        let ghost before = *self;
        let bytes = self.page.as_bytes();
        put_bytes(&mut self.out, bytes);
        let id: u64 = self.page.page_id();
        let length: usize = self.out.len();
        assert(bytes@.len() == 8192);
        assert(length == (id + 1) * 8192);
        let mut next = SlottedPage::new(id + 1);
        next.set_lsn(self.lsn);
        let check = next.as_bytes();
        self.page = next;
        assert(self.image() =~= before.image());
    }

    /// Adds a record to the page in hand.
    fn insert(&mut self, record: &[u8]) -> (slot: u16)
        requires
            old(self).sound(),
            old(self).page.slots().len() == 0 || crate::storage::page::room(old(self).page.slots())
                + 4 + record@.len() <= 8152,
            record@.len() <= 8148,
        ensures
            final(self).sound(),
            final(self).sequence() == old(self).sequence(),
            final(self).current() == old(self).current(),
            slot == old(self).page.slots().len(),
            final(self).page.slots() == old(self).page.slots().push(Some(record@)),
            extends(old(self).image(), final(self).image(), old(self).sequence()),
            heap_slot(final(self).image(), old(self).current(), slot as nat, old(self).sequence())
                == Some(record@),
    {
        let ghost a = self.page.bytes();
        let ghost front = self.out@;
        let inserted = self.page.insert(record);
        let b = self.page.as_bytes();
        let slot: u16 = match inserted {
            Ok(slot) => slot,
            Err(_) => {
                proof {
                    assert(crate::storage::page::room(records(a)) == 0);
                    assert(false);
                }
                0
            },
        };
        proof {
            assert(records(a) =~= records(b@).take(records(a).len() as int));
            lemma_last_grows(front, a, b@, id_of(a), self.lsn);
        }
        slot
    }

    /// Appends a record and returns its location.
    pub fn append(&mut self, bytes: &[u8]) -> (r: Result<u64>)
        requires
            old(self).sound(),
        ensures
            final(self).sound(),
            final(self).sequence() == old(self).sequence(),
            match r {
                Ok(location) => {
                    &&& bytes@.len() <= MAX_RECORD && old(self).current() < PAGE_LIMIT
                    &&& old(self).current() + 1 < PAGE_LIMIT ==> location < 0x100_0000_0000_0000
                    &&& heap_record(final(self).image(), location, old(self).sequence()) == Some(
                        bytes@,
                    )
                    &&& forall|other: u64|
                        (#[trigger] heap_record(old(self).image(), other, old(self).sequence()))
                            is Some ==> heap_record(
                            final(self).image(),
                            other,
                            old(self).sequence(),
                        ) == heap_record(old(self).image(), other, old(self).sequence())
                },
                Err(e) => {
                    &&& e is Invalid
                    &&& bytes@.len() > MAX_RECORD || old(self).current() >= PAGE_LIMIT
                    &&& *final(self) == *old(self)
                },
            },
    {
        if bytes.len() > MAX_RECORD {
            return Err(invalid("record exceeds 16 MiB"));
        }
        if self.page.page_id() >= PAGE_LIMIT {
            return Err(invalid("heap file exceeds its addressable size"));
        }
        let ghost start = self.image();
        let ghost lsn = self.sequence();
        let location: u64 = if bytes.len() < MAX_RECORD_SIZE {
            self.append_inline(bytes)
        } else {
            self.append_chain(bytes)
        };
        proof {
            let c = self.image();
            assert forall|other: u64| (#[trigger] heap_record(start, other, lsn)) is Some implies heap_record(
                c,
                other,
                lsn,
            ) == heap_record(start, other, lsn) by {
                lemma_record_kept(start, c, lsn, other);
            }
        }
        Ok(location)
    }

    /// Appends a record that fits a page.
    fn append_inline(&mut self, bytes: &[u8]) -> (location: u64)
        requires
            old(self).sound(),
            old(self).current() < PAGE_LIMIT,
            bytes@.len() < 8148,
        ensures
            final(self).sound(),
            final(self).sequence() == old(self).sequence(),
            old(self).current() + 1 < PAGE_LIMIT ==> location < 0x100_0000_0000_0000,
            extends(old(self).image(), final(self).image(), old(self).sequence()),
            heap_record(final(self).image(), location, old(self).sequence()) == Some(bytes@),
    {
        let mut record: Vec<u8> = Vec::new();
        record.push(0);
        put_bytes(&mut record, bytes);
        let free: usize = self.page.free_space();
        if free < record.len() + 4 {
            self.flush();
        }
        let slot: u16 = self.insert(record.as_slice());
        let id: u64 = self.page.page_id();
        let location: u64 = id * 65536 + slot as u64;
        proof {
            assert(location as nat / 65536 == id && location as nat % 65536 == slot);
            assert(record@[0] == 0);
            assert(record@.skip(1) =~= bytes@);
        }
        location
    }

    /// Appends a record as a chain of fragments, each on a page of its own.
    fn append_chain(&mut self, bytes: &[u8]) -> (location: u64)
        requires
            old(self).sound(),
            old(self).current() < PAGE_LIMIT,
            8148 <= bytes@.len() <= MAX_RECORD,
        ensures
            final(self).sound(),
            final(self).sequence() == old(self).sequence(),
            old(self).current() + 1 < PAGE_LIMIT ==> location < 0x100_0000_0000_0000,
            extends(old(self).image(), final(self).image(), old(self).sequence()),
            heap_record(final(self).image(), location, old(self).sequence()) == Some(bytes@),
    {
        let ghost start = self.image();
        let ghost lsn = self.sequence();
        self.flush();
        let first: u64 = self.page.page_id();
        let total: usize = bytes.len();
        let count: usize = (total + 8134) / 8135;
        let ghost n = first as nat;
        let mut index: usize = 0;
        proof {
            lemma_extends_self(start, lsn);
            assert(bytes@.take(0) =~= Seq::empty());
            reveal(chained);
        }
        while index < count
            invariant
                index <= count,
                total == bytes@.len(),
                8148 <= total <= MAX_RECORD,
                count == (total + 8134) / 8135,
                n == first,
                first <= PAGE_LIMIT,
                self.sound(),
                self.sequence() == lsn,
                self.current() == first + index,
                self.page.slots().len() == 0,
                extends(start, self.image(), lsn),
                chained(self.image(), n, lsn, bytes@, count as nat, index as nat),
            decreases count - index,
        {
            let from: usize = index * 8135;
            let to: usize = if total - from < 8135 {
                total
            } else {
                from + 8135
            };
            let mut record: Vec<u8> = Vec::new();
            record.push(1);
            put_le(&mut record, total as u64, 4);
            put_le(&mut record, index as u64, 4);
            put_le(&mut record, count as u64, 4);
            put_bytes(&mut record, vstd::slice::slice_subrange(bytes, from, to));
            let ghost before = self.image();
            proof {
                lemma_pow256();
                assert(record@ =~= seq![1u8] + le(total as nat, 4) + le(index as nat, 4) + le(
                    count as nat,
                    4,
                ) + bytes@.subrange(from as int, to as int));
                lemma_fragment(
                    record@,
                    total as nat,
                    index as nat,
                    count as nat,
                    bytes@.subrange(from as int, to as int),
                );
            }
            let slot: u16 = self.insert(record.as_slice());
            proof {
                lemma_extends_trans(start, before, self.image(), lsn);
                lemma_chain_step(
                    before,
                    self.image(),
                    n,
                    lsn,
                    bytes@,
                    count as nat,
                    index as nat,
                    record@,
                );
            }
            self.flush();
            index = index + 1;
        }
        let location: u64 = first * 65536;
        proof {
            assert(location as nat / 65536 == n && location as nat % 65536 == 0);
            assert(bytes@.take(total as int) =~= bytes@);
            reveal(chained);
        }
        location
    }

    /// The finished file.
    pub fn finish(self) -> (bytes: Vec<u8>)
        requires
            self.sound(),
        ensures
            bytes@ == self.image(),
    {
        let mut w = self;
        w.flush();
        w.out
    }
}

/// Whether the first fragments of a long record are in place.
#[verifier::opaque]
spec fn chained(c: Seq<u8>, n: nat, lsn: u64, bytes: Seq<u8>, count: nat, index: nat) -> bool {
    &&& chain(c, n, lsn, bytes.len(), count, index) == Some(
        bytes.take(least((index * 8135) as int, bytes.len() as int)),
    )
    &&& index > 0 ==> heap_slot(c, n, 0, lsn) is Some && fragment_of(
        heap_slot(c, n, 0, lsn).unwrap(),
        bytes.len(),
        0,
        count,
    )
}

/// One fragment more.
proof fn lemma_chain_step(
    a: Seq<u8>,
    b: Seq<u8>,
    n: nat,
    lsn: u64,
    bytes: Seq<u8>,
    count: nat,
    index: nat,
    record: Seq<u8>,
)
    requires
        chained(a, n, lsn, bytes, count, index),
        extends(a, b, lsn),
        heap_slot(b, n + index, 0, lsn) == Some(record),
        index * 8135 < bytes.len(),
        fragment_of(record, bytes.len(), index, count),
        record.skip(13) == bytes.subrange(
            (index * 8135) as int,
            least(((index + 1) * 8135) as int, bytes.len() as int),
        ),
        record.len() == 13 + least(((index + 1) * 8135) as int, bytes.len() as int) - index * 8135,
    ensures
        chained(b, n, lsn, bytes, count, index + 1),
{
    reveal(chained);
    lemma_chain_kept(a, b, n, lsn, bytes.len(), count, index);
    if index > 0 {
        lemma_slot_kept(a, b, lsn, n, 0);
    }
    let (from, to) = ((index * 8135) as int, least(((index + 1) * 8135) as int, bytes.len() as int));
    assert(bytes.take(from) + bytes.subrange(from, to) =~= bytes.take(to));
}

proof fn lemma_extends_self(c: Seq<u8>, lsn: u64)
    ensures
        extends(c, c, lsn),
{
    reveal(extends);
    assert forall|n: nat| (#[trigger] heap_page(c, n, lsn)) is Some implies records(
        heap_page(c, n, lsn).unwrap(),
    ).is_prefix_of(records(heap_page(c, n, lsn).unwrap())) by {
        let r = records(heap_page(c, n, lsn).unwrap());
        assert(r =~= r.take(r.len() as int));
    }
}

spec fn least(a: int, b: int) -> int {
    if a <= b {
        a
    } else {
        b
    }
}

/// Whether a record is a fragment with a number.
spec fn fragment_of(f: Seq<u8>, total: nat, index: nat, count: nat) -> bool {
    &&& f.len() >= 13
    &&& f[0] == 1
    &&& un_le(f.subrange(1, 5)) == total
    &&& un_le(f.subrange(5, 9)) == index
    &&& un_le(f.subrange(9, 13)) == count
}

proof fn lemma_fragment(f: Seq<u8>, total: nat, index: nat, count: nat, body: Seq<u8>)
    requires
        f == seq![1u8] + le(total, 4) + le(index, 4) + le(count, 4) + body,
        total < 0x1_0000_0000,
        index < 0x1_0000_0000,
        count < 0x1_0000_0000,
    ensures
        fragment_of(f, total, index, count),
        f.len() == 13 + body.len(),
        f.skip(13) == body,
{
    broadcast use lemma_le_len;

    lemma_pow256();
    lemma_un_le_le(total, 4);
    lemma_un_le_le(index, 4);
    lemma_un_le_le(count, 4);
    assert(f.subrange(1, 5) =~= le(total, 4));
    assert(f.subrange(5, 9) =~= le(index, 4));
    assert(f.subrange(9, 13) =~= le(count, 4));
    assert(f.skip(13) =~= body);
}

} // verus!
