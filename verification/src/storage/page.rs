//! Fixed-size pages of variable-length records.
//!
//! A page begins with a header of 40 bytes:
//!
//! | bytes  | content                                   |
//! |--------|-------------------------------------------|
//! | 0..4   | `EVPG`                                    |
//! | 4..6   | format version, 2                         |
//! | 6..8   | page size                                 |
//! | 8..16  | page identifier                           |
//! | 16..18 | number of slots                           |
//! | 18..20 | lower end of the free space               |
//! | 20..22 | upper end of the free space               |
//! | 22..24 | zero                                      |
//! | 24..32 | transaction sequence number               |
//! | 32..36 | CRC-32C of the page with zeros here       |
//! | 36..40 | zero                                      |
//!
//! Behind it stand the slots, each with the offset and the length of its
//! record. The records fill the page from its end, in the order of the slots.

use crate::bytes::get_le;
use crate::bytes::le;
use crate::bytes::lemma_le_len;
use crate::bytes::lemma_le_un_le;
use crate::bytes::lemma_pow256;
use crate::bytes::lemma_un_le_bound;
use crate::bytes::lemma_un_le_le;
use crate::bytes::overwrite;
use crate::bytes::put_le;
use crate::bytes::un_le;
use crate::checksum::crc;
use crate::checksum::lemma_changed_byte;
use crate::checksum::lemma_remainder_concat;
use crate::checksum::Checksum;
use crate::text::label;
use crate::text::decimal;
use vstd::prelude::*;
use vstd::string::StringExecFns;

verus! {

/// The page size in bytes (8 KiB).
pub const PAGE_SIZE: usize = 8192;

const HEADER_SIZE: usize = 40;

const SLOT_SIZE: usize = 4;

const FORMAT_VERSION: u16 = 2;

const COUNT_OFFSET: usize = 16;

const LOWER_OFFSET: usize = 18;

const UPPER_OFFSET: usize = 20;

/// The largest record that fits on an otherwise empty page.
pub const MAX_RECORD_SIZE: usize = 8148;

/// A failure to decode a page or insert a record.
#[derive(Debug, Clone, Copy, PartialEq, Eq, Structural)]
pub enum PageError {
    /// The input is not exactly one page long.
    InvalidSize,
    /// The magic, page size, or reserved header bytes are invalid.
    InvalidHeader,
    /// The page uses an unsupported format version.
    UnsupportedVersion(u16),
    /// The slot directory or record boundaries are inconsistent.
    InvalidLayout,
    /// The record cannot fit even on an empty page.
    RecordTooLarge,
    /// The page has insufficient space for the record and its slot.
    Full,
    /// The checksum does not match the page bytes.
    ChecksumMismatch,
}

impl PageError {
    /// The message that describes this failure.
    pub open spec fn text(self) -> Seq<char> {
        match self {
            PageError::InvalidSize => "expected exactly 8192 page bytes"@,
            PageError::InvalidHeader => "invalid page header"@,
            PageError::UnsupportedVersion(version) => "unsupported page format version "@ + decimal(
                version as nat,
            ),
            PageError::InvalidLayout => "invalid slot directory or record boundaries"@,
            PageError::RecordTooLarge => "record exceeds 8148 bytes"@,
            PageError::Full => "insufficient space for the record and its slot"@,
            PageError::ChecksumMismatch => "page checksum mismatch"@,
        }
    }

    /// Describes this failure.
    pub fn message(&self) -> (s: String)
        ensures
            s@ == self.text(),
    {
        match self {
            PageError::InvalidSize => "expected exactly 8192 page bytes".to_owned(),
            PageError::InvalidHeader => "invalid page header".to_owned(),
            PageError::UnsupportedVersion(version) => label(
                "unsupported page format version ",
                *version as u64,
            ),
            PageError::InvalidLayout => "invalid slot directory or record boundaries".to_owned(),
            PageError::RecordTooLarge => "record exceeds 8148 bytes".to_owned(),
            PageError::Full => "insufficient space for the record and its slot".to_owned(),
            PageError::ChecksumMismatch => "page checksum mismatch".to_owned(),
        }
    }
}

// ---- What page bytes mean ----

/// The 16-bit integer at an offset.
pub open spec fn word(b: Seq<u8>, at: int) -> nat {
    b[at] as nat + 256 * (b[at + 1] as nat)
}

/// The number of slots.
pub open spec fn slot_count(b: Seq<u8>) -> nat {
    word(b, 16)
}

/// The lower end of the free space.
pub open spec fn lower(b: Seq<u8>) -> nat {
    word(b, 18)
}

/// The upper end of the free space.
pub open spec fn upper(b: Seq<u8>) -> nat {
    word(b, 20)
}

/// The offset in a slot.
pub open spec fn slot_offset(b: Seq<u8>, slot: int) -> nat {
    word(b, 40 + 4 * slot)
}

/// The length in a slot.
pub open spec fn slot_length(b: Seq<u8>, slot: int) -> nat {
    word(b, 42 + 4 * slot)
}

/// Whether a slot's record was removed.
pub open spec fn removed(b: Seq<u8>, slot: int) -> bool {
    slot_offset(b, slot) == 0 && slot_length(b, slot) == 0
}

/// Where the records of the first slots begin.
pub open spec fn packed_to(b: Seq<u8>, count: nat) -> nat
    decreases count,
{
    if count == 0 {
        8192
    } else if removed(b, count - 1) {
        packed_to(b, (count - 1) as nat)
    } else {
        slot_offset(b, count - 1)
    }
}

/// Whether a slot's record ends where those before it begin, above the free space.
pub open spec fn packed(b: Seq<u8>, slot: int) -> bool {
    removed(b, slot) || (slot_offset(b, slot) >= upper(b) && slot_offset(b, slot) + slot_length(
        b,
        slot,
    ) == packed_to(b, slot as nat))
}

/// Whether directory, free space and records take up the page without gap or overlap.
pub open spec fn valid_layout(b: Seq<u8>) -> bool {
    &&& lower(b) == 40 + 4 * slot_count(b)
    &&& lower(b) <= upper(b) <= 8192
    &&& forall|i: int| 0 <= i < slot_count(b) ==> #[trigger] packed(b, i)
    &&& packed_to(b, slot_count(b)) == upper(b)
}

/// The checksum that a page should carry.
pub open spec fn page_crc(b: Seq<u8>) -> u32 {
    crc(b.subrange(0, 32) + seq![0u8, 0u8, 0u8, 0u8] + b.subrange(36, 8192))
}

/// A page with the checksum that it should carry.
pub open spec fn checked(b: Seq<u8>) -> Seq<u8> {
    b.subrange(0, 32) + le(page_crc(b) as nat, 4) + b.subrange(36, 8192)
}

/// A page with another transaction sequence number, and the checksum that it should carry.
pub open spec fn with_lsn(b: Seq<u8>, lsn: u64) -> Seq<u8> {
    checked(b.subrange(0, 24) + le(lsn as nat, 8) + b.subrange(32, 8192))
}

/// Restoring the sequence number of a sound page restores its bytes.
pub proof fn lemma_lsn_restored(b: Seq<u8>, lsn: u64)
    requires
        page_fault(b) is None,
    ensures
        with_lsn(with_lsn(b, lsn), lsn_of(b) as u64) == b,
{
    lemma_pow256();
    lemma_le_len(lsn as nat, 8);
    lemma_le_len(lsn_of(b), 8);
    let x = b.subrange(0, 24) + le(lsn as nat, 8) + b.subrange(32, 8192);
    let y = checked(x);
    lemma_le_len(page_crc(x) as nat, 4);
    let z = y.subrange(0, 24) + le(lsn_of(b), 8) + y.subrange(32, 8192);
    lemma_un_le_bound(b.subrange(24, 32));
    lemma_le_un_le(b.subrange(24, 32));
    lemma_le_un_le(b.subrange(32, 36));
    assert(le(lsn_of(b), 8) == b.subrange(24, 32));
    assert(z.subrange(0, 32) =~= b.subrange(0, 32));
    assert(z.subrange(36, 8192) =~= b.subrange(36, 8192));
    assert(page_crc(z) == page_crc(b));
    assert(le(page_crc(b) as nat, 4) == b.subrange(32, 36));
    assert(b.subrange(0, 32) + b.subrange(32, 36) + b.subrange(36, 8192) =~= b);
}

/// What is wrong with page bytes, if anything.
pub open spec fn page_fault(b: Seq<u8>) -> Option<PageError> {
    if b.len() != 8192 {
        Some(PageError::InvalidSize)
    } else if b.subrange(0, 4) != seq![69u8, 86u8, 80u8, 71u8] {
        Some(PageError::InvalidHeader)
    } else if word(b, 4) != 2 {
        Some(PageError::UnsupportedVersion(word(b, 4) as u16))
    } else if word(b, 6) != 8192 || word(b, 22) != 0 || b.subrange(36, 40) != seq![
        0u8,
        0u8,
        0u8,
        0u8,
    ] {
        Some(PageError::InvalidHeader)
    } else if !valid_layout(b) {
        Some(PageError::InvalidLayout)
    } else if un_le(b.subrange(32, 36)) != page_crc(b) {
        Some(PageError::ChecksumMismatch)
    } else {
        None
    }
}

/// The record in a slot, unless it was removed.
pub open spec fn record_at(b: Seq<u8>, slot: int) -> Option<Seq<u8>> {
    if removed(b, slot) {
        None
    } else {
        Some(
            b.subrange(
                slot_offset(b, slot) as int,
                (slot_offset(b, slot) + slot_length(b, slot)) as int,
            ),
        )
    }
}

/// The records by slot.
pub open spec fn records(b: Seq<u8>) -> Seq<Option<Seq<u8>>> {
    Seq::new(slot_count(b), |i: int| record_at(b, i))
}

/// The page identifier.
pub open spec fn id_of(b: Seq<u8>) -> nat {
    un_le(b.subrange(8, 16))
}

/// The transaction sequence number.
pub open spec fn lsn_of(b: Seq<u8>) -> nat {
    un_le(b.subrange(24, 32))
}

/// The bytes that no slot or record uses.
pub open spec fn unused(b: Seq<u8>) -> Seq<u8> {
    b.subrange(lower(b) as int, upper(b) as int)
}

/// The room that records and their slots take.
pub open spec fn room(s: Seq<Option<Seq<u8>>>) -> nat
    decreases s.len(),
{
    if s.len() == 0 {
        0
    } else {
        room(s.drop_last()) + 4 + (match s.last() {
            Some(r) => r.len(),
            None => 0,
        })
    }
}

/// Zero bytes.
pub open spec fn zeros(n: nat) -> Seq<u8> {
    Seq::new(n, |i: int| 0u8)
}

// ---- Lemmas ----

/// Pages that agree on their directories pack their records alike.
proof fn lemma_packed_same(a: Seq<u8>, b: Seq<u8>, count: nat)
    requires
        forall|i: int|
            0 <= i < count ==> #[trigger] slot_offset(a, i) == slot_offset(b, i) && slot_length(
                a,
                i,
            ) == slot_length(b, i),
    ensures
        packed_to(a, count) == packed_to(b, count),
    decreases count,
{
    if count > 0 {
        lemma_packed_same(a, b, (count - 1) as nat);
        assert(slot_offset(a, count - 1) == slot_offset(b, count - 1));
    }
}

/// Records begin no later than the page ends, and lie within the page.
proof fn lemma_within(b: Seq<u8>, count: nat)
    requires
        valid_layout(b),
        count <= slot_count(b),
    ensures
        upper(b) <= packed_to(b, count) <= 8192,
        forall|i: int|
            0 <= i < count && !(#[trigger] removed(b, i)) ==> upper(b) <= slot_offset(b, i)
                && slot_offset(b, i) + slot_length(b, i) <= 8192,
    decreases count,
{
    if count > 0 {
        lemma_within(b, (count - 1) as nat);
        assert(packed(b, count - 1));
    }
}

/// What the first records take up lies between where they begin and the end of the page.
proof fn lemma_room(b: Seq<u8>, count: nat)
    requires
        valid_layout(b),
        count <= slot_count(b),
        b.len() == 8192,
    ensures
        room(records(b).take(count as int)) == 4 * count + 8192 - packed_to(b, count),
    decreases count,
{
    let s = records(b);
    if count > 0 {
        lemma_room(b, (count - 1) as nat);
        lemma_within(b, count);
        assert(s.take(count as int).drop_last() =~= s.take(count - 1));
        assert(packed(b, count - 1));
    } else {
        assert(s.take(0) =~= Seq::empty());
    }
}

/// The free space is what the records and their slots leave.
proof fn lemma_free(b: Seq<u8>)
    requires
        valid_layout(b),
        b.len() == 8192,
    ensures
        upper(b) - lower(b) == 8152 - room(records(b)),
{
    lemma_room(b, slot_count(b));
    assert(records(b).take(slot_count(b) as int) =~= records(b));
}

/// The first records take no more room than all of them.
proof fn lemma_room_prefix(s: Seq<Option<Seq<u8>>>, count: int)
    requires
        0 <= count <= s.len(),
    ensures
        room(s.take(count)) <= room(s),
        count < s.len() ==> room(s.take(count)) + 4 + (match s[count] {
            Some(r) => r.len(),
            None => 0,
        }) <= room(s),
    decreases s.len() - count,
{
    if count == s.len() {
        assert(s.take(count) =~= s);
    } else {
        lemma_room_prefix(s, count + 1);
        assert(s.take(count + 1).drop_last() =~= s.take(count));
    }
}

/// Emptying a slot takes its record's room away.
proof fn lemma_room_update(s: Seq<Option<Seq<u8>>>, at: int, x: Option<Seq<u8>>)
    requires
        0 <= at < s.len(),
    ensures
        room(s.update(at, x)) == room(s) - (match s[at] {
            Some(r) => r.len(),
            None => 0,
        }) + (match x {
            Some(r) => r.len(),
            None => 0,
        }),
    decreases s.len(),
{
    if at == s.len() - 1 {
        assert(s.update(at, x).drop_last() =~= s.drop_last());
    } else {
        lemma_room_update(s.drop_last(), at, x);
        assert(s.update(at, x).drop_last() =~= s.drop_last().update(at, x));
    }
}

/// A 16-bit integer as it is written.
proof fn lemma_word(b: Seq<u8>, at: int, x: u16)
    requires
        0 <= at,
        at + 2 <= b.len(),
    ensures
        word(overwrite(b, at, le(x as nat, 2)), at) == x,
        le(x as nat, 2).len() == 2,
{
    lemma_le_len(x as nat, 2);
    reveal_with_fuel(le, 3);
    let t = le(x as nat, 2);
    let c = overwrite(b, at, t);
    assert(t[0] == (x as nat % 256) as u8);
    assert(t[1] == ((x as nat / 256) % 256) as u8);
    assert(c[at] == t[0] && c[at + 1] == t[1]);
}

// ---- Writing ----

fn set(b: &mut [u8; PAGE_SIZE], at: usize, t: &[u8])
    requires
        at + t@.len() <= PAGE_SIZE,
    ensures
        final(b)@ == overwrite(old(b)@, at as int, t@),
{
    let mut i: usize = 0;
    let n: usize = t.len();
    while i < n
        invariant
            i <= n == t@.len(),
            at + n <= PAGE_SIZE,
            b@ == overwrite(old(b)@, at as int, t@.take(i as int)),
        decreases n - i,
    {
        b[at + i] = t[i];
        i = i + 1;
        assert(b@ =~= overwrite(old(b)@, at as int, t@.take(i as int)));
    }
    assert(t@.take(i as int) =~= t@);
}

fn set_word(b: &mut [u8; PAGE_SIZE], at: usize, x: u16)
    requires
        at + 2 <= PAGE_SIZE,
    ensures
        final(b)@ == overwrite(old(b)@, at as int, le(x as nat, 2)),
        final(b)@.len() == 8192,
        word(final(b)@, at as int) == x,
        forall|i: int|
            0 <= i < 8192 && !(at <= i < at + 2) ==> #[trigger] final(b)@[i] == old(b)@[i],
{
    let mut t: Vec<u8> = Vec::new();
    put_le(&mut t, x as u64, 2);
    proof {
        lemma_word(b@, at as int, x);
        assert(t@ =~= le(x as nat, 2));
    }
    set(b, at, &t);
}

fn get_word(b: &[u8; PAGE_SIZE], at: usize) -> (x: u16)
    requires
        at + 2 <= PAGE_SIZE,
    ensures
        x == word(b@, at as int),
{
    b[at] as u16 + 256 * (b[at + 1] as u16)
}

/// The checksum that a page should carry.
fn computed_checksum(b: &[u8; PAGE_SIZE]) -> (sum: u32)
    ensures
        sum == page_crc(b@),
{
    let head = vstd::slice::slice_subrange(b, 0, 32);
    let tail = vstd::slice::slice_subrange(b, 36, PAGE_SIZE);
    let zero: [u8; 4] = [0, 0, 0, 0];
    let mut sum = Checksum::new();
    sum.update(head);
    sum.update(&zero);
    sum.update(tail);
    proof {
        assert(zero@ =~= seq![0u8, 0u8, 0u8, 0u8]);
        lemma_remainder_concat(0xffff_ffff, head@, zero@);
        lemma_remainder_concat(0xffff_ffff, head@ + zero@, tail@);
    }
    sum.finish()
}

/// Whether the header says what every page's header says.
spec fn plain_header(b: Seq<u8>) -> bool {
    &&& b.len() == 8192
    &&& b.subrange(0, 4) == seq![69u8, 86u8, 80u8, 71u8]
    &&& word(b, 4) == 2
    &&& word(b, 6) == 8192
    &&& word(b, 22) == 0
    &&& b.subrange(36, 40) == seq![0u8, 0u8, 0u8, 0u8]
}

/// Gives a page the checksum that it should carry.
fn refresh_checksum(b: &mut [u8; PAGE_SIZE])
    requires
        plain_header(old(b)@),
        valid_layout(old(b)@),
    ensures
        page_fault(final(b)@) is None,
        final(b)@ == checked(old(b)@),
        records(final(b)@) == records(old(b)@),
        id_of(final(b)@) == id_of(old(b)@),
        lsn_of(final(b)@) == lsn_of(old(b)@),
        unused(final(b)@) == unused(old(b)@),
        upper(final(b)@) == upper(old(b)@),
        lower(final(b)@) == lower(old(b)@),
{
    let sum: u32 = computed_checksum(b);
    let mut t: Vec<u8> = Vec::new();
    put_le(&mut t, sum as u64, 4);
    proof {
        lemma_le_len(sum as nat, 4);
        assert(t@ =~= le(sum as nat, 4));
    }
    set(b, 32, &t);
    proof {
        let (x, y) = (old(b)@, b@);
        lemma_keep(x, y, 32, 36);
        assert(y.subrange(0, 32) =~= x.subrange(0, 32));
        assert(y.subrange(36, 8192) =~= x.subrange(36, 8192));
        assert(y.subrange(32, 36) =~= le(sum as nat, 4));
        assert(y =~= checked(x));
        lemma_pow256();
        lemma_un_le_le(sum as nat, 4);
        assert(y.subrange(0, 4) =~= x.subrange(0, 4));
        assert(y.subrange(36, 40) =~= x.subrange(36, 40));
        assert(id_of(y) == id_of(x)) by {
            assert(y.subrange(8, 16) =~= x.subrange(8, 16));
        }
        assert(lsn_of(y) == lsn_of(x)) by {
            assert(y.subrange(24, 32) =~= x.subrange(24, 32));
        }
    }
}

/// Writing header bytes that no layout depends on keeps the layout and what it holds.
proof fn lemma_keep(x: Seq<u8>, y: Seq<u8>, from: int, to: int)
    requires
        x.len() == 8192,
        y.len() == 8192,
        24 <= from <= to <= 36,
        forall|i: int| 0 <= i < 8192 && !(from <= i < to) ==> y[i] == x[i],
        valid_layout(x),
    ensures
        valid_layout(y),
        records(y) == records(x),
        unused(y) == unused(x),
        upper(y) == upper(x),
        lower(y) == lower(x),
{
    assert(slot_count(y) == slot_count(x) && lower(y) == lower(x) && upper(y) == upper(x));
    let n = slot_count(x);
    assert forall|i: int| 0 <= i < n implies #[trigger] slot_offset(y, i) == slot_offset(x, i)
        && slot_length(y, i) == slot_length(x, i) by {}
    lemma_within(x, n);
    assert forall|k: nat| k <= n implies #[trigger] packed_to(y, k) == packed_to(x, k) by {
        lemma_packed_same(y, x, k);
    }
    assert forall|i: int| 0 <= i < n implies #[trigger] packed(y, i) && record_at(y, i)
        == record_at(x, i) by {
        assert(packed(x, i));
        assert(slot_offset(y, i) == slot_offset(x, i));
        if !removed(x, i) {
            let (o, l) = (slot_offset(x, i) as int, slot_length(x, i) as int);
            assert(y.subrange(o, o + l) =~= x.subrange(o, o + l));
        }
    }
    assert(records(y) =~= records(x)) by {
        assert forall|i: int| 0 <= i < n implies records(y)[i] == records(x)[i] by {
            assert(packed(y, i));
        }
    }
    assert(unused(y) =~= unused(x));
}

/// A fixed-size page containing opaque variable-length records.
///
/// The slot directory grows forward; record bytes grow backward. Slots are
/// zero-based and remain valid as more records are inserted into this page.
/// Empty records are supported and still consume a slot.
pub struct SlottedPage {
    bytes: [u8; PAGE_SIZE],
}

impl Clone for SlottedPage {
    fn clone(&self) -> (copy: Self)
        ensures
            copy == *self,
    {
        proof {
            use_type_invariant(self);
        }
        SlottedPage { bytes: self.bytes }
    }
}

impl SlottedPage {
    #[verifier::type_invariant]
    spec fn sound(self) -> bool {
        page_fault(self.bytes@) is None
    }

    /// The page bytes.
    pub closed spec fn bytes(self) -> Seq<u8> {
        self.bytes@
    }

    /// The records by slot; removed ones are absent.
    pub open spec fn slots(self) -> Seq<Option<Seq<u8>>> {
        records(self.bytes())
    }

    /// Creates an empty page with a caller-assigned identifier.
    ///
    /// The caller is responsible for uniqueness within the owning table file.
    pub fn new(page_id: u64) -> (page: Self)
        ensures
            page.slots() == Seq::<Option<Seq<u8>>>::empty(),
            id_of(page.bytes()) == page_id,
            lsn_of(page.bytes()) == 0,
            unused(page.bytes()) == zeros(8152),
    {
        let mut b: [u8; PAGE_SIZE] = [0; PAGE_SIZE];
        let magic: [u8; 4] = [69, 86, 80, 71];
        set(&mut b, 0, &magic);
        set_word(&mut b, 4, FORMAT_VERSION);
        set_word(&mut b, 6, 8192);
        let mut id: Vec<u8> = Vec::new();
        put_le(&mut id, page_id, 8);
        proof {
            lemma_le_len(page_id as nat, 8);
            assert(id@ =~= le(page_id as nat, 8));
        }
        set(&mut b, 8, &id);
        set_word(&mut b, LOWER_OFFSET, 40);
        set_word(&mut b, UPPER_OFFSET, 8192);
        proof {
            assert(b@.subrange(0, 4) =~= seq![69u8, 86u8, 80u8, 71u8]);
            assert(b@.subrange(36, 40) =~= seq![0u8, 0u8, 0u8, 0u8]);
            assert(b@.subrange(8, 16) =~= le(page_id as nat, 8));
            lemma_pow256();
            lemma_un_le_le(page_id as nat, 8);
            assert(lsn_of(b@) == 0) by {
                let t = b@.subrange(24, 32);
                assert(t =~= zeros(8));
                reveal_with_fuel(un_le, 9);
            }
            assert(records(b@) =~= Seq::empty());
            assert(unused(b@) =~= zeros(8152));
        }
        refresh_checksum(&mut b);
        SlottedPage { bytes: b }
    }

    /// Decodes one page, checking its header and every slot before exposing data.
    ///
    /// Tightly packed records in reverse slot order are required. Gaps,
    /// overlapping records, and pointers into the header or free space fail
    /// validation. A CRC32C checksum covers the header, directory, and payload.
    pub fn from_bytes(bytes: &[u8]) -> (r: Result<Self, PageError>)
        ensures
            match r {
                Ok(page) => page_fault(bytes@) is None && page.bytes() == bytes@,
                Err(e) => page_fault(bytes@) == Some(e),
            },
    {
        if bytes.len() != PAGE_SIZE {
            return Err(PageError::InvalidSize);
        }
        let mut b: [u8; PAGE_SIZE] = [0; PAGE_SIZE];
        set(&mut b, 0, bytes);
        assert(b@ =~= bytes@);
        assert(b@.subrange(0, 4) == seq![69u8, 86u8, 80u8, 71u8] <==> b@[0] == 69 && b@[1] == 86
            && b@[2] == 80 && b@[3] == 71) by {
            if b@[0] == 69 && b@[1] == 86 && b@[2] == 80 && b@[3] == 71 {
                assert(b@.subrange(0, 4) =~= seq![69u8, 86u8, 80u8, 71u8]);
            }
            assert(b@.subrange(0, 4)[0] == b@[0] && b@.subrange(0, 4)[1] == b@[1] && b@.subrange(
                0,
                4,
            )[2] == b@[2] && b@.subrange(0, 4)[3] == b@[3]);
        }
        if !(b[0] == 69 && b[1] == 86 && b[2] == 80 && b[3] == 71) {
            return Err(PageError::InvalidHeader);
        }
        let version: u16 = get_word(&b, 4);
        if version != FORMAT_VERSION {
            return Err(PageError::UnsupportedVersion(version));
        }
        assert(b@.subrange(36, 40) == seq![0u8, 0u8, 0u8, 0u8] <==> b@[36] == 0 && b@[37] == 0
            && b@[38] == 0 && b@[39] == 0) by {
            if b@[36] == 0 && b@[37] == 0 && b@[38] == 0 && b@[39] == 0 {
                assert(b@.subrange(36, 40) =~= seq![0u8, 0u8, 0u8, 0u8]);
            }
            assert(b@.subrange(36, 40)[0] == b@[36] && b@.subrange(36, 40)[1] == b@[37]
                && b@.subrange(36, 40)[2] == b@[38] && b@.subrange(36, 40)[3] == b@[39]);
        }
        if get_word(&b, 6) != 8192 || get_word(&b, 22) != 0 || !(b[36] == 0 && b[37] == 0 && b[38]
            == 0 && b[39] == 0) {
            return Err(PageError::InvalidHeader);
        }
        let low: usize = get_word(&b, LOWER_OFFSET) as usize;
        let up: usize = get_word(&b, UPPER_OFFSET) as usize;
        let count: u16 = get_word(&b, COUNT_OFFSET);
        let directory_end: usize = HEADER_SIZE + count as usize * SLOT_SIZE;
        if low != directory_end || low > up || up > PAGE_SIZE {
            return Err(PageError::InvalidLayout);
        }
        let mut expected_end: usize = PAGE_SIZE;
        let mut slot: usize = 0;
        while slot < count as usize
            invariant
                slot <= count,
                count == slot_count(b@),
                up == upper(b@),
                40 + 4 * count <= up <= 8192,
                expected_end == packed_to(b@, slot as nat),
                forall|i: int| 0 <= i < slot ==> #[trigger] packed(b@, i),
                plain_header(bytes@),
                b@ == bytes@,
            decreases count - slot,
        {
            let entry: usize = HEADER_SIZE + slot * SLOT_SIZE;
            let offset: usize = get_word(&b, entry) as usize;
            let length: usize = get_word(&b, entry + 2) as usize;
            assert(offset == slot_offset(b@, slot as int) && length == slot_length(
                b@,
                slot as int,
            ));
            if !(offset == 0 && length == 0) {
                if offset < up || offset + length != expected_end {
                    assert(!packed(b@, slot as int));
                    return Err(PageError::InvalidLayout);
                }
                expected_end = offset;
            }
            assert(packed(b@, slot as int));
            slot = slot + 1;
        }
        if expected_end != up {
            return Err(PageError::InvalidLayout);
        }
        let carried: u64 = get_le(&b, 32, 4);
        if carried != computed_checksum(&b) as u64 {
            return Err(PageError::ChecksumMismatch);
        }
        Ok(SlottedPage { bytes: b })
    }

    /// Returns the exact page representation, including its header.
    pub fn as_bytes(&self) -> (b: &[u8; PAGE_SIZE])
        ensures
            b@ == self.bytes(),
            page_fault(b@) is None,
    {
        proof {
            use_type_invariant(self);
        }
        &self.bytes
    }

    /// Returns the identifier assigned when the page was created.
    pub fn page_id(&self) -> (id: u64)
        ensures
            id == id_of(self.bytes()),
    {
        get_le(&self.bytes, 8, 8)
    }

    /// Returns the transaction sequence number stored in this page.
    pub fn lsn(&self) -> (lsn: u64)
        ensures
            lsn == lsn_of(self.bytes()),
    {
        get_le(&self.bytes, 24, 8)
    }

    /// Sets the transaction sequence number and refreshes the checksum.
    pub fn set_lsn(&mut self, lsn: u64)
        ensures
            lsn_of(final(self).bytes()) == lsn,
            final(self).bytes() == with_lsn(old(self).bytes(), lsn),
            final(self).slots() == old(self).slots(),
            id_of(final(self).bytes()) == id_of(old(self).bytes()),
            unused(final(self).bytes()) == unused(old(self).bytes()),
    {
        proof {
            use_type_invariant(&*self);
        }
        let mut b: [u8; PAGE_SIZE] = self.bytes;
        let ghost x = b@;
        let mut t: Vec<u8> = Vec::new();
        put_le(&mut t, lsn, 8);
        proof {
            lemma_le_len(lsn as nat, 8);
            assert(t@ =~= le(lsn as nat, 8));
        }
        set(&mut b, 24, &t);
        proof {
            lemma_keep(x, b@, 24, 32);
            assert(b@.subrange(0, 4) =~= x.subrange(0, 4));
            assert(b@.subrange(36, 40) =~= x.subrange(36, 40));
            assert(b@.subrange(8, 16) =~= x.subrange(8, 16));
            assert(b@.subrange(24, 32) =~= le(lsn as nat, 8));
            lemma_pow256();
            lemma_un_le_le(lsn as nat, 8);
        }
        assert(b@ =~= x.subrange(0, 24) + le(lsn as nat, 8) + x.subrange(32, 8192));
        refresh_checksum(&mut b);
        self.bytes = b;
    }

    /// Returns allocated slot count, including empty records and removed slots.
    pub fn record_count(&self) -> (n: u16)
        ensures
            n == self.slots().len(),
    {
        get_word(&self.bytes, COUNT_OFFSET)
    }

    /// Returns unallocated bytes; each new record also needs a four-byte slot.
    pub fn free_space(&self) -> (n: usize)
        ensures
            n == 8152 - room(self.slots()),
            n == unused(self.bytes()).len(),
    {
        proof {
            use_type_invariant(self);
            lemma_free(self.bytes@);
        }
        (get_word(&self.bytes, UPPER_OFFSET) - get_word(&self.bytes, LOWER_OFFSET)) as usize
    }

    /// Inserts a record and returns its zero-based slot within this page.
    ///
    /// Fails if the record exceeds an empty page's capacity, or if this page lacks
    /// space. On either error, all page bytes remain unchanged.
    pub fn insert(&mut self, record: &[u8]) -> (r: Result<u16, PageError>)
        ensures
            match r {
                Ok(slot) => {
                    &&& slot == old(self).slots().len()
                    &&& final(self).slots() == old(self).slots().push(Some(record@))
                    &&& room(final(self).slots()) <= 8152
                    &&& id_of(final(self).bytes()) == id_of(old(self).bytes())
                    &&& lsn_of(final(self).bytes()) == lsn_of(old(self).bytes())
                    &&& unused(final(self).bytes()) == unused(old(self).bytes()).subrange(
                        4,
                        unused(old(self).bytes()).len() - record@.len(),
                    )
                },
                Err(e) => {
                    &&& *final(self) == *old(self)
                    &&& room(old(self).slots()) + 4 + record@.len() > 8152
                    &&& e == (if record@.len() > 8148 {
                        PageError::RecordTooLarge
                    } else {
                        PageError::Full
                    })
                },
            },
    {
        proof {
            use_type_invariant(&*self);
            lemma_free(self.bytes@);
        }
        if record.len() > MAX_RECORD_SIZE {
            return Err(PageError::RecordTooLarge);
        }
        if record.len() + SLOT_SIZE > self.free_space() {
            return Err(PageError::Full);
        }
        let slot: u16 = self.record_count();
        let low: usize = get_word(&self.bytes, LOWER_OFFSET) as usize;
        let up: usize = get_word(&self.bytes, UPPER_OFFSET) as usize;
        let offset: usize = up - record.len();
        let mut b: [u8; PAGE_SIZE] = self.bytes;
        let ghost x = b@;
        set(&mut b, offset, record);
        set_word(&mut b, low, offset as u16);
        set_word(&mut b, low + 2, record.len() as u16);
        set_word(&mut b, COUNT_OFFSET, slot + 1);
        set_word(&mut b, LOWER_OFFSET, (low + SLOT_SIZE) as u16);
        set_word(&mut b, UPPER_OFFSET, offset as u16);
        proof {
            assert(b@.subrange(offset as int, up as int) =~= record@);
            lemma_grown(x, b@, Some(record@));
        }
        refresh_checksum(&mut b);
        proof {
            assert(records(x).push(Some(record@)).drop_last() =~= records(x));
        }
        self.bytes = b;
        Ok(slot)
    }

    /// Reads a record by its zero-based slot, or returns `None` if it is absent.
    pub fn get(&self, slot: u16) -> (r: Option<&[u8]>)
        ensures
            match r {
                Some(record) => slot < self.slots().len() && self.slots()[slot as int] == Some(
                    record@,
                ),
                None => slot >= self.slots().len() || self.slots()[slot as int] is None,
            },
    {
        proof {
            use_type_invariant(self);
            lemma_within(self.bytes@, slot_count(self.bytes@));
        }
        if slot >= self.record_count() {
            return None;
        }
        let entry: usize = HEADER_SIZE + slot as usize * SLOT_SIZE;
        let offset: usize = get_word(&self.bytes, entry) as usize;
        let length: usize = get_word(&self.bytes, entry + 2) as usize;
        proof {
            assert(packed(self.bytes@, slot as int));
            assert(offset == slot_offset(self.bytes@, slot as int) && length == slot_length(
                self.bytes@,
                slot as int,
            ));
            assert(removed(self.bytes@, slot as int) == (offset == 0));
        }
        if offset == 0 {
            return None;
        }
        Some(vstd::slice::slice_subrange(&self.bytes, offset, offset + length))
    }

    /// Replaces a live record without changing its slot. Failure preserves the page.
    pub fn replace(&mut self, slot: u16, record: &[u8]) -> (r: Result<(), PageError>)
        ensures
            ({
                let old_slots = old(self).slots();
                let live = slot < old_slots.len() && old_slots[slot as int] is Some;
                let new_slots = old_slots.update(slot as int, Some(record@));
                match r {
                    Ok(_) => {
                        &&& live && record@.len() <= 8148 && room(new_slots) <= 8152
                        &&& final(self).slots() == new_slots
                        &&& id_of(final(self).bytes()) == id_of(old(self).bytes())
                        &&& lsn_of(final(self).bytes()) == lsn_of(old(self).bytes())
                        &&& unused(final(self).bytes()) == zeros(
                            unused(final(self).bytes()).len(),
                        )
                    },
                    Err(e) => {
                        &&& *final(self) == *old(self)
                        &&& e == (if !live {
                            PageError::InvalidLayout
                        } else if record@.len() > 8148 {
                            PageError::RecordTooLarge
                        } else {
                            PageError::Full
                        })
                        &&& live && record@.len() <= 8148 ==> room(new_slots) > 8152
                    },
                }
            }),
    {
        if self.get(slot).is_none() {
            return Err(PageError::InvalidLayout);
        }
        if record.len() > MAX_RECORD_SIZE {
            return Err(PageError::RecordTooLarge);
        }
        let ghost target = self.slots().update(slot as int, Some(record@));
        let mut rebuilt = Self::new(self.page_id());
        rebuilt.set_lsn(self.lsn());
        let count: u16 = self.record_count();
        let mut index: u16 = 0;
        assert(target.take(0) =~= Seq::empty());
        while index < count
            invariant
                index <= count == self.slots().len(),
                target == self.slots().update(slot as int, Some(record@)),
                slot < count,
                self.slots()[slot as int] is Some,
                record@.len() <= 8148,
                rebuilt.slots() == target.take(index as int),
                id_of(rebuilt.bytes()) == id_of(self.bytes()),
                lsn_of(rebuilt.bytes()) == lsn_of(self.bytes()),
                unused(rebuilt.bytes()) == zeros(unused(rebuilt.bytes()).len()),
                *self == *old(self),
            decreases count - index,
        {
            proof {
                lemma_room_prefix(target, index as int);
                assert(target.take(index + 1) =~= target.take(index as int).push(
                    target[index as int],
                ));
                use_type_invariant(&*self);
                self.lemma_sizes();
            }
            let next = if index == slot {
                Some(record)
            } else {
                self.get(index)
            };
            rebuilt.append_optional(next)?;
            index = index + 1;
        }
        proof {
            assert(target.take(count as int) =~= target);
            use_type_invariant(&rebuilt);
            rebuilt.lemma_sizes();
        }
        *self = rebuilt;
        Ok(())
    }

    /// Removes a live record and compacts its bytes, keeping other slots stable.
    /// Returns false if the slot is already absent. Removed slot IDs are not reused.
    pub fn remove(&mut self, slot: u16) -> (r: bool)
        ensures
            r == (slot < old(self).slots().len() && old(self).slots()[slot as int] is Some),
            !r ==> *final(self) == *old(self),
            r ==> {
                &&& final(self).slots() == old(self).slots().update(slot as int, None)
                &&& id_of(final(self).bytes()) == id_of(old(self).bytes())
                &&& lsn_of(final(self).bytes()) == lsn_of(old(self).bytes())
                &&& unused(final(self).bytes()) == zeros(unused(final(self).bytes()).len())
            },
    {
        if self.get(slot).is_none() {
            return false;
        }
        let ghost target = self.slots().update(slot as int, None);
        let mut rebuilt = Self::new(self.page_id());
        rebuilt.set_lsn(self.lsn());
        let count: u16 = self.record_count();
        let mut index: u16 = 0;
        proof {
            assert(target.take(0) =~= Seq::empty());
            lemma_room_update(self.slots(), slot as int, None);
            use_type_invariant(&*self);
            self.lemma_sizes();
        }
        while index < count
            invariant
                index <= count == self.slots().len(),
                target == self.slots().update(slot as int, None),
                slot < count,
                room(target) <= 8152,
                rebuilt.slots() == target.take(index as int),
                id_of(rebuilt.bytes()) == id_of(self.bytes()),
                lsn_of(rebuilt.bytes()) == lsn_of(self.bytes()),
                unused(rebuilt.bytes()) == zeros(unused(rebuilt.bytes()).len()),
            decreases count - index,
        {
            proof {
                lemma_room_prefix(target, index as int);
                assert(target.take(index + 1) =~= target.take(index as int).push(
                    target[index as int],
                ));
            }
            let next = if index == slot {
                None
            } else {
                self.get(index)
            };
            let appended = rebuilt.append_optional(next);
            assert(appended is Ok);
            index = index + 1;
        }
        assert(target.take(count as int) =~= target);
        *self = rebuilt;
        true
    }

    /// The records fit their page, each of them an empty one.
    proof fn lemma_sizes(&self)
        requires
            page_fault(self.bytes()) is None,
        ensures
            room(self.slots()) <= 8152,
            forall|i: int|
                0 <= i < self.slots().len() ==> match #[trigger] self.slots()[i] {
                    Some(r) => r.len() <= 8148,
                    None => true,
                },
    {
        lemma_free(self.bytes());
        let s = self.slots();
        assert forall|i: int| 0 <= i < s.len() implies match #[trigger] s[i] {
            Some(r) => r.len() <= 8148,
            None => true,
        } by {
            lemma_room_prefix(s, i);
        }
    }

    /// Appends a record or a removed slot.
    fn append_optional(&mut self, record: Option<&[u8]>) -> (r: Result<(), PageError>)
        requires
            record is Some ==> record.unwrap()@.len() <= 8148,
        ensures
            ({
                let (entry, length) = match record {
                    Some(t) => (Some(t@), t@.len()),
                    None => (None, 0),
                };
                match r {
                    Ok(_) => {
                        &&& room(old(self).slots()) + 4 + length <= 8152
                        &&& final(self).slots() == old(self).slots().push(entry)
                        &&& id_of(final(self).bytes()) == id_of(old(self).bytes())
                        &&& lsn_of(final(self).bytes()) == lsn_of(old(self).bytes())
                        &&& unused(final(self).bytes()) == unused(old(self).bytes()).subrange(
                            4,
                            unused(old(self).bytes()).len() - length,
                        )
                        &&& unused(old(self).bytes()) == zeros(unused(old(self).bytes()).len())
                            ==> unused(final(self).bytes()) == zeros(
                            unused(final(self).bytes()).len(),
                        )
                    },
                    Err(e) => room(old(self).slots()) + 4 + length > 8152 && e == PageError::Full,
                }
            }),
    {
        proof {
            use_type_invariant(&*self);
            lemma_free(self.bytes@);
        }
        match record {
            Some(record) => {
                self.insert(record)?;
                proof {
                    let n = (unused(old(self).bytes()).len() - record@.len()) as int;
                    assert(room(self.slots()) <= 8152);
                    assert(old(self).slots().push(Some(record@)).drop_last()
                        =~= old(self).slots());
                    assert(zeros(unused(old(self).bytes()).len()).subrange(4, n) =~= zeros(
                        (n - 4) as nat,
                    ));
                }
            },
            None => {
                if self.free_space() < SLOT_SIZE {
                    return Err(PageError::Full);
                }
                let low: usize = get_word(&self.bytes, LOWER_OFFSET) as usize;
                let count: u16 = self.record_count();
                let mut b: [u8; PAGE_SIZE] = self.bytes;
                let ghost x = b@;
                set_word(&mut b, low, 0);
                set_word(&mut b, low + 2, 0);
                set_word(&mut b, LOWER_OFFSET, (low + SLOT_SIZE) as u16);
                set_word(&mut b, COUNT_OFFSET, count + 1);
                proof {
                    lemma_grown(x, b@, None);
                    let n = unused(x).len() as int;
                    assert(zeros(n as nat).subrange(4, n) =~= zeros((n - 4) as nat));
                }
                refresh_checksum(&mut b);
                self.bytes = b;
            },
        }
        Ok(())
    }
}

/// A page with one slot more.
proof fn lemma_grown(x: Seq<u8>, y: Seq<u8>, record: Option<Seq<u8>>)
    requires
        page_fault(x) is None,
        y.len() == 8192,
        ({
            let length = match record {
                Some(r) => r.len(),
                None => 0,
            };
            let low = lower(x) as int;
            let up = upper(x) as int;
            &&& low + 4 + length <= up
            &&& slot_count(y) == slot_count(x) + 1
            &&& lower(y) == low + 4
            &&& upper(y) == up - length
            &&& match record {
                Some(r) => {
                    &&& word(y, low) == up - length
                    &&& word(y, low + 2) == length
                    &&& y.subrange(up - length, up) == r
                },
                None => word(y, low) == 0 && word(y, low + 2) == 0,
            }
            &&& forall|i: int|
                0 <= i < 8192 && !(16 <= i < 22) && !(low <= i < low + 4) && !(up - length <= i
                    < up) ==> y[i] == x[i]
        }),
    ensures
        plain_header(y),
        valid_layout(y),
        records(y) == records(x).push(record),
        id_of(y) == id_of(x),
        lsn_of(y) == lsn_of(x),
        unused(y) == unused(x).subrange(
            4,
            unused(x).len() - (match record {
                Some(r) => r.len(),
                None => 0,
            }),
        ),
{
    let n = slot_count(x);
    let low = lower(x) as int;
    let up = upper(x) as int;
    assert(y.subrange(0, 4) =~= x.subrange(0, 4));
    assert(y.subrange(36, 40) =~= x.subrange(36, 40));
    assert(y.subrange(8, 16) =~= x.subrange(8, 16));
    assert(y.subrange(24, 32) =~= x.subrange(24, 32));
    assert forall|i: int| 0 <= i < n implies #[trigger] slot_offset(y, i) == slot_offset(x, i)
        && slot_length(y, i) == slot_length(x, i) by {
        assert(40 + 4 * i + 4 <= low);
    }
    lemma_within(x, n);
    assert forall|k: nat| k <= n implies #[trigger] packed_to(y, k) == packed_to(x, k) by {
        lemma_packed_same(y, x, k);
    }
    assert forall|i: int| 0 <= i < n implies #[trigger] packed(y, i) && record_at(y, i)
        == record_at(x, i) by {
        assert(packed(x, i));
        assert(slot_offset(y, i) == slot_offset(x, i));
        assert(packed_to(y, i as nat) == packed_to(x, i as nat));
        if !removed(x, i) {
            let (o, l) = (slot_offset(x, i) as int, slot_length(x, i) as int);
            assert(y.subrange(o, o + l) =~= x.subrange(o, o + l));
        }
    }
    assert(packed_to(y, n) == up);
    assert(slot_offset(y, n as int) == word(y, low));
    assert(slot_length(y, n as int) == word(y, low + 2));
    assert(packed(y, n as int));
    match record {
        Some(r) => {
            assert(record_at(y, n as int) == record);
        },
        None => {},
    }
    assert(records(y) =~= records(x).push(record)) by {
        assert forall|i: int| 0 <= i < n + 1 implies records(y)[i] == records(x).push(record)[i] by {
            assert(packed(y, i));
        }
    }
    let length = match record {
        Some(r) => r.len(),
        None => 0,
    };
    assert(unused(y) =~= unused(x).subrange(4, unused(x).len() - length));
}

/// Changing one byte of a page makes it a page no more.
pub proof fn lemma_changed_page(b: Seq<u8>, at: int, x: u8)
    requires
        page_fault(b) is None,
        0 <= at < b.len(),
        x != b[at],
    ensures
        page_fault(b.update(at, x)) is Some,
{
    let c = b.update(at, x);
    let zero = seq![0u8, 0u8, 0u8, 0u8];
    let s = b.subrange(0, 32) + zero + b.subrange(36, 8192);
    let t = c.subrange(0, 32) + zero + c.subrange(36, 8192);
    if 32 <= at < 36 {
        assert(t =~= s);
        let (p, q) = (b.subrange(32, 36), c.subrange(32, 36));
        lemma_le_un_le(p);
        lemma_le_un_le(q);
        assert(p[at - 32] != q[at - 32]);
    } else {
        assert(t =~= s.update(at, x));
        lemma_changed_byte(s, at, x);
        assert(b.subrange(32, 36) =~= c.subrange(32, 36));
    }
}

} // verus!
