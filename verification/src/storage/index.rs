//! Index files: bulk-built immutable B+trees. Leaf pages are linked for ordered
//! scans.
//!
//! | bytes    | content                                                    |
//! |----------|------------------------------------------------------------|
//! | 0..4     | `EVIX`                                                     |
//! | 4..6     | format version, 1                                          |
//! | 6..8     | kind: 0 for the first page, 1 for leaves, 2 for branches   |
//! | 8..16    | page number                                                |
//! | 16..24   | checkpoint sequence number                                 |
//! | 24..26   | number of entries                                          |
//! | 26..28   | zero                                                       |
//! | 28..32   | CRC-32C of the page with zeros here                        |
//! | 32..40   | next leaf; on the first page, the root                     |
//! | 40..     | entries: two words of key, then two of value or a child    |

use crate::bytes::get_le;
use crate::bytes::un_le;
use crate::checksum::crc;
use crate::checksum::lemma_remainder_concat;
use crate::checksum::Checksum;
use crate::error::corrupt;
use crate::error::Error;
use crate::error::Result;
use crate::key::OrderedKey;
use crate::storage::heap::page_bytes;
use crate::storage::page::word;
use crate::storage::pager::length_request;
use crate::storage::pager::page_of;
use crate::storage::pager::page_request;
use crate::storage::pager::Extent;
use crate::storage::pager::FileId;
use crate::storage::pager::Files;
use crate::storage::pager::Loaded;
use vstd::prelude::*;

verus! {

/// An index key.
pub type Key = (u64, u64);

/// What an index holds under a key.
pub type Value = (u64, u64);

/// A key and its value.
pub type Entry = (Key, Value);

/// The entries of a full leaf.
pub const LEAF_CAPACITY: usize = 254;

/// The children of a full branch.
pub const BRANCH_CAPACITY: usize = 339;

// ---- What page bytes mean ----

/// The 64-bit integer at an offset.
pub open spec fn dword(b: Seq<u8>, at: int) -> u64 {
    un_le(b.subrange(at, at + 8)) as u64
}

/// The kind of a page.
pub open spec fn kind_of(b: Seq<u8>) -> nat {
    word(b, 6)
}

/// The number of entries.
pub open spec fn count_of(b: Seq<u8>) -> nat {
    word(b, 24)
}

/// The checkpoint sequence number.
pub open spec fn sequence_of(b: Seq<u8>) -> u64 {
    dword(b, 16)
}

/// The next leaf, or the root.
pub open spec fn next_of(b: Seq<u8>) -> u64 {
    dword(b, 32)
}

/// A word behind the header.
pub open spec fn word_of(b: Seq<u8>, i: int) -> u64 {
    dword(b, 40 + 8 * i)
}

/// The words of an entry.
pub open spec fn stride(kind: nat) -> int {
    if kind == 1 {
        4
    } else {
        3
    }
}

/// The entries of a full page.
pub open spec fn capacity(kind: nat) -> nat {
    if kind == 1 {
        254
    } else {
        339
    }
}

/// The key of an entry.
pub open spec fn key_of(b: Seq<u8>, i: int) -> Key {
    (word_of(b, stride(kind_of(b)) * i), word_of(b, stride(kind_of(b)) * i + 1))
}

/// The value of a leaf entry.
pub open spec fn value_of(b: Seq<u8>, i: int) -> Value {
    (word_of(b, 4 * i + 2), word_of(b, 4 * i + 3))
}

/// The child of a branch entry.
pub open spec fn child_of(b: Seq<u8>, i: int) -> u64 {
    word_of(b, 3 * i + 2)
}

/// The entries of a leaf.
pub open spec fn entries_of(b: Seq<u8>) -> Seq<Entry> {
    Seq::new(count_of(b), |i: int| (key_of(b, i), value_of(b, i)))
}

/// The checksum that a page should carry.
pub open spec fn index_crc(b: Seq<u8>) -> u32 {
    crc(b.subrange(0, 28) + seq![0u8, 0u8, 0u8, 0u8] + b.subrange(32, 8192))
}

/// Whether the header is that of an index page with a number, and the checksum right.
pub open spec fn valid_header(b: Seq<u8>, id: nat) -> bool {
    &&& b.len() == 8192
    &&& b.subrange(0, 4) == seq![69u8, 86u8, 73u8, 88u8]
    &&& b.subrange(4, 6) == seq![1u8, 0u8]
    &&& dword(b, 8) == id
    &&& b.subrange(26, 28) == seq![0u8, 0u8]
    &&& un_le(b.subrange(28, 32)) == index_crc(b)
}

/// Whether an entry's key comes after the one before it, and its child before its page.
pub open spec fn valid_entry(b: Seq<u8>, id: nat, i: int) -> bool {
    &&& i > 0 ==> key_of(b, i - 1).before(key_of(b, i))
    &&& kind_of(b) == 2 ==> 0 < child_of(b, i) < id
}

/// Whether a page is a sound index page with a number.
///
/// Children are written before their parent, so a descent that only ever moves to a smaller
/// page number cannot cycle.
pub open spec fn valid_node(b: Seq<u8>, id: nat) -> bool {
    &&& valid_header(b, id)
    &&& if kind_of(b) == 0 {
        id == 0 && count_of(b) == 0
    } else {
        &&& kind_of(b) == 1 || kind_of(b) == 2
        &&& 1 <= count_of(b)
        &&& count_of(b) <= capacity(kind_of(b))
        &&& forall|i: int| 0 <= i < count_of(b) ==> #[trigger] valid_entry(b, id, i)
        &&& kind_of(b) == 1 ==> next_of(b) == 0 || next_of(b) > id
    }
}

/// Entries of a sound page stand in the order of their keys.
pub proof fn lemma_node_order(b: Seq<u8>, id: nat, i: int, j: int)
    requires
        valid_node(b, id),
        0 <= i < j < count_of(b),
    ensures
        key_of(b, i).before(key_of(b, j)),
    decreases j - i,
{
    assert(valid_entry(b, id, j));
    if i + 1 < j {
        lemma_node_order(b, id, i, j - 1);
    }
}

// ---- Nodes ----

pub(crate) fn compute_crc(b: &[u8]) -> (sum: u32)
    requires
        b@.len() == 8192,
    ensures
        sum == index_crc(b@),
{
    let head = vstd::slice::slice_subrange(b, 0, 28);
    let tail = vstd::slice::slice_subrange(b, 32, 8192);
    let zero: [u8; 4] = [0, 0, 0, 0];
    let mut sum = Checksum::new();
    sum.update(head);
    sum.update(&zero);
    sum.update(tail);
    proof {
        assert(zero@ =~= seq![0u8, 0u8, 0u8, 0u8]);
        lemma_remainder_concat(0xffff_ffff, head@, zero@);
        lemma_remainder_concat(0xffff_ffff, head@ + zero@, tail@);
    }
    sum.finish()
}

fn get_dword(b: &[u8], at: usize) -> (x: u64)
    requires
        at + 8 <= b@.len(),
    ensures
        x == dword(b@, at as int),
{
    get_le(b, at, 8)
}

fn get_word(b: &[u8], at: usize) -> (x: usize)
    requires
        at + 2 <= b@.len(),
    ensures
        x == word(b@, at as int),
{
    b[at] as usize + 256 * (b[at + 1] as usize)
}

fn get_key(b: &[u8], index: usize) -> (key: Key)
    requires
        b@.len() == 8192,
        index < capacity(kind_of(b@)),
    ensures
        key == key_of(b@, index as int),
{
    let width: usize = if get_word(b, 6) == 1 {
        4
    } else {
        3
    };
    let first: usize = width * index;
    (get_dword(b, 40 + 8 * first), get_dword(b, 40 + 8 * (first + 1)))
}

/// Whether two keys are the same.
pub fn same_key(a: Key, b: Key) -> (same: bool)
    ensures
        same == (a == b),
{
    a.0 == b.0 && a.1 == b.1
}

/// One fully validated index page.
pub struct Node<'a> {
    bytes: &'a [u8],
    id: u64,
}

impl<'a> Node<'a> {
    #[verifier::type_invariant]
    spec fn sound(self) -> bool {
        valid_node(self.bytes@, self.id as nat)
    }

    /// The page bytes.
    pub closed spec fn bytes(self) -> Seq<u8> {
        self.bytes@
    }

    /// Validates a page against the identity the caller expects to have read.
    ///
    /// The checkpoint sequence number is not checked here: it depends on which generation
    /// the caller is reading.
    pub fn decode(bytes: &'a [u8], expected_id: u64) -> (r: Result<Node<'a>>)
        ensures
            match r {
                Ok(node) => node.bytes() == bytes@ && valid_node(bytes@, expected_id as nat),
                Err(e) => !valid_node(bytes@, expected_id as nat) && e is Corrupt,
            },
    {
        let ghost b = bytes@;
        let front: [u8; 4] = [69, 86, 73, 88];
        let version: [u8; 2] = [1, 0];
        let zero: [u8; 2] = [0, 0];
        proof {
            assert(front@ =~= seq![69u8, 86u8, 73u8, 88u8]);
            assert(version@ =~= seq![1u8, 0u8]);
            assert(zero@ =~= seq![0u8, 0u8]);
        }
        if bytes.len() != 8192 || !crate::bytes::same_bytes(
            vstd::slice::slice_subrange(bytes, 0, 4),
            &front,
        ) || !crate::bytes::same_bytes(vstd::slice::slice_subrange(bytes, 4, 6), &version)
            || get_dword(bytes, 8) != expected_id || !crate::bytes::same_bytes(
            vstd::slice::slice_subrange(bytes, 26, 28),
            &zero,
        ) || get_le(bytes, 28, 4) != compute_crc(bytes) as u64 {
            return Err(corrupt("invalid index page header or checksum"));
        }
        let kind: usize = get_word(bytes, 6);
        let count: usize = get_word(bytes, 24);
        if kind == 0 && expected_id == 0 && count == 0 {
            return Ok(Node { bytes, id: expected_id });
        }
        let most: usize = if kind == 1 {
            LEAF_CAPACITY
        } else if kind == 2 {
            BRANCH_CAPACITY
        } else {
            return Err(corrupt("invalid index node kind"));
        };
        if count == 0 || count > most {
            return Err(corrupt("invalid index node count"));
        }
        let mut i: usize = 0;
        let mut previous: Key = (0, 0);
        while i < count
            invariant
                b == bytes@,
                valid_header(b, expected_id as nat),
                kind == kind_of(b),
                count == count_of(b),
                kind == 1 || kind == 2,
                1 <= count <= capacity(kind as nat),
                i <= count,
                i > 0 ==> previous == key_of(b, i - 1),
                forall|j: int| 0 <= j < i ==> #[trigger] valid_entry(b, expected_id as nat, j),
            decreases count - i,
        {
            let key: Key = get_key(bytes, i);
            if i > 0 && !previous.less(&key) {
                assert(!valid_entry(b, expected_id as nat, i as int));
                return Err(corrupt("unordered index node"));
            }
            if kind == 2 {
                let child: u64 = get_dword(bytes, 40 + 8 * (3 * i + 2));
                if child == 0 || child >= expected_id {
                    assert(!valid_entry(b, expected_id as nat, i as int));
                    return Err(corrupt("invalid index child"));
                }
            }
            assert(valid_entry(b, expected_id as nat, i as int));
            previous = key;
            i = i + 1;
        }
        let next: u64 = get_dword(bytes, 32);
        if kind == 1 && next != 0 && next <= expected_id {
            return Err(corrupt("cyclic index leaf chain"));
        }
        Ok(Node { bytes, id: expected_id })
    }

    /// The kind of the page.
    pub fn kind(&self) -> (kind: usize)
        ensures
            kind == kind_of(self.bytes()),
    {
        proof {
            use_type_invariant(self);
        }
        get_word(self.bytes, 6)
    }

    /// The number of entries.
    pub fn count(&self) -> (n: usize)
        ensures
            n == count_of(self.bytes()),
            n <= capacity(kind_of(self.bytes())),
    {
        proof {
            use_type_invariant(self);
        }
        get_word(self.bytes, 24)
    }

    /// The checkpoint sequence number.
    pub fn lsn(&self) -> (lsn: u64)
        ensures
            lsn == sequence_of(self.bytes()),
    {
        proof {
            use_type_invariant(self);
        }
        get_dword(self.bytes, 16)
    }

    /// The next leaf in the scan chain, or the root pointer on a metadata page.
    pub fn next(&self) -> (next: u64)
        ensures
            next == next_of(self.bytes()),
    {
        proof {
            use_type_invariant(self);
        }
        get_dword(self.bytes, 32)
    }

    /// The key of an entry.
    pub fn key(&self, index: usize) -> (key: Key)
        requires
            index < count_of(self.bytes()),
        ensures
            key == key_of(self.bytes(), index as int),
    {
        proof {
            use_type_invariant(self);
        }
        get_key(self.bytes, index)
    }

    /// The value of a leaf entry.
    pub fn value(&self, index: usize) -> (value: Value)
        requires
            index < count_of(self.bytes()),
            kind_of(self.bytes()) == 1,
        ensures
            value == value_of(self.bytes(), index as int),
    {
        proof {
            use_type_invariant(self);
        }
        (get_dword(self.bytes, 40 + 8 * (4 * index + 2)), get_dword(
            self.bytes,
            40 + 8 * (4 * index + 3),
        ))
    }

    /// The child of a branch entry.
    pub fn child(&self, index: usize) -> (child: u64)
        requires
            index < count_of(self.bytes()),
            kind_of(self.bytes()) == 2,
        ensures
            child == child_of(self.bytes(), index as int),
    {
        proof {
            use_type_invariant(self);
        }
        get_dword(self.bytes, 40 + 8 * (3 * index + 2))
    }

    /// Returns the first entry whose key is greater than or equal to `key`.
    pub fn lower_bound(&self, key: Key) -> (r: usize)
        requires
            kind_of(self.bytes()) != 0,
        ensures
            r == lower_bound_of(self.bytes(), key),
            divides(self.bytes(), key, r as nat),
    {
        proof {
            use_type_invariant(self);
        }
        let ghost b = self.bytes();
        let ghost id = self.id as nat;
        let mut low: usize = 0;
        let mut high: usize = self.count();
        while low < high
            invariant
                low <= high <= count_of(b),
                count_of(b) <= 339,
                b == self.bytes(),
                valid_node(b, id),
                kind_of(b) != 0,
                forall|i: int| 0 <= i < low ==> (#[trigger] key_of(b, i)).before(key),
                forall|i: int|
                    high <= i < count_of(b) ==> !(#[trigger] key_of(b, i)).before(key),
            decreases high - low,
        {
            let middle: usize = low + (high - low) / 2;
            let found: Key = self.key(middle);
            if found.less(&key) {
                proof {
                    assert forall|i: int| 0 <= i < middle + 1 implies (#[trigger] key_of(
                        b,
                        i,
                    )).before(key) by {
                        if i < middle {
                            lemma_node_order(b, id, i, middle as int);
                        }
                    }
                }
                low = middle + 1;
            } else {
                proof {
                    assert forall|i: int| middle <= i < count_of(b) implies !(#[trigger] key_of(
                        b,
                        i,
                    )).before(key) by {
                        if i > middle {
                            lemma_node_order(b, id, middle as int, i);
                        }
                    }
                }
                high = middle;
            }
        }
        proof {
            lemma_lower_bound(b, key, low as nat);
        }
        low
    }

    /// Returns the last entry whose key is less than or equal to `key`.
    pub fn floor_index(&self, key: Key) -> (r: Option<usize>)
        requires
            kind_of(self.bytes()) != 0,
        ensures
            match r {
                Some(i) => floor_of(self.bytes(), key) == Some(i as nat) && i < count_of(
                    self.bytes(),
                ),
                None => floor_of(self.bytes(), key) is None,
            },
    {
        let index: usize = self.lower_bound(key);
        if index < self.count() && same_key(self.key(index), key) {
            return Some(index);
        }
        if index == 0 {
            None
        } else {
            Some(index - 1)
        }
    }
}

/// Whether the first keys of a page, and only they, come before a key.
pub open spec fn divides(b: Seq<u8>, key: Key, n: nat) -> bool {
    &&& n <= count_of(b)
    &&& forall|i: int| 0 <= i < n ==> (#[trigger] key_of(b, i)).before(key)
    &&& forall|i: int| n <= i < count_of(b) ==> !(#[trigger] key_of(b, i)).before(key)
}

/// The number of keys of a page that come before a key.
pub open spec fn lower_bound_of(b: Seq<u8>, key: Key) -> nat {
    choose|n: nat| divides(b, key, n)
}

pub proof fn lemma_lower_bound(b: Seq<u8>, key: Key, n: nat)
    requires
        divides(b, key, n),
    ensures
        lower_bound_of(b, key) == n,
{
    let m = lower_bound_of(b, key);
    if m < n {
        assert(key_of(b, m as int).before(key));
    } else if n < m {
        assert(key_of(b, n as int).before(key));
    }
}

/// The last entry whose key does not come after a key.
pub open spec fn floor_of(b: Seq<u8>, key: Key) -> Option<nat> {
    let n = lower_bound_of(b, key);
    if n < count_of(b) && key_of(b, n as int) == key {
        Some(n)
    } else if n == 0 {
        None
    } else {
        Some((n - 1) as nat)
    }
}

// ---- What index files hold ----

/// The bytes from a page of a file on: those of the tree that starts there, and of what follows.
pub open spec fn tree_at(c: Seq<u8>, base: u64) -> Seq<u8> {
    if base * 8192 <= c.len() && c.len() <= u64::MAX {
        c.skip(base * 8192)
    } else {
        Seq::empty()
    }
}


/// A sound page of an index file with a sequence number.
pub open spec fn node_of(c: Seq<u8>, id: nat, lsn: u64) -> Option<Seq<u8>> {
    if id * 8192 + 8192 <= c.len() && id * 8192 <= u64::MAX && valid_node(page_bytes(c, id), id)
        && sequence_of(page_bytes(c, id)) == lsn {
        Some(page_bytes(c, id))
    } else {
        None
    }
}

/// Walks from a page to the leaf that would contain a key.
///
/// Branch separators are the first key of their subtree, so the chosen child always covers
/// the predecessor of the key as well as the key itself.
pub open spec fn walk(c: Seq<u8>, lsn: u64, id: nat, key: Key) -> Option<Option<nat>>
    decreases id,
{
    if id == 0 {
        Some(None)
    } else {
        match node_of(c, id, lsn) {
            None => None,
            Some(b) => if kind_of(b) == 1 {
                Some(Some(id))
            } else {
                let child = child_of(b, floor_index_of(b, key) as int) as nat;
                if child < id {
                    walk(c, lsn, child, key)
                } else {
                    None
                }
            },
        }
    }
}

/// The branch entry to follow for a key.
pub open spec fn floor_index_of(b: Seq<u8>, key: Key) -> nat {
    match floor_of(b, key) {
        Some(i) => i,
        None => 0,
    }
}

/// The leaf that would contain a key, if the index is sound on the way there.
pub open spec fn leaf_for(c: Seq<u8>, lsn: u64, key: Key) -> Option<Option<nat>> {
    if c.len() % 8192 != 0 {
        None
    } else {
        match node_of(c, 0, lsn) {
            Some(meta) => walk(c, lsn, next_of(meta) as nat, key),
            None => None,
        }
    }
}

/// Whether the walk from a page to the leaf that would contain a key reads a page.
pub open spec fn walks(c: Seq<u8>, lsn: u64, id: nat, key: Key, n: nat) -> bool
    decreases id,
{
    id != 0 && (n == id || match node_of(c, id, lsn) {
        None => false,
        Some(b) => {
            let child = child_of(b, floor_index_of(b, key) as int) as nat;
            kind_of(b) != 1 && child < id && walks(c, lsn, child, key, n)
        },
    })
}

/// Whether finding the leaf that would contain a key reads a page.
pub open spec fn reads_page(c: Seq<u8>, lsn: u64, key: Key, n: nat) -> bool {
    c.len() % 8192 == 0 && (n == 0 || match node_of(c, 0, lsn) {
        Some(meta) => walks(c, lsn, next_of(meta) as nat, key, n),
        None => false,
    })
}

/// Whether finding the leaf that would contain a key needs what a request names: the length of
/// the file, or a page on the way.
pub open spec fn leaf_asks(files: Files, file: FileId, base: u64, lsn: u64, key: Key, e: Error) -> bool {
    e == length_request(file) || exists|n: nat| #[trigger]
        reads_page(tree_at(files[file], base), lsn, key, n) && e == page_request(file, base + n)
}

/// Whether going through entries and the leaves behind them reads a page.
pub open spec fn streams(c: Seq<u8>, lsn: u64, es: Seq<Entry>, next: nat, upper: Key, n: nat) -> bool
    decreases (if next == 0 { 0int } else { 1int }), pages_left(c, next),
{
    upto(es, upper).len() == es.len() && next != 0 && (n == next || match node_of(c, next, lsn) {
        Some(b) => kind_of(b) == 1 && (next_of(b) == 0 || next_of(b) > next) && streams(
            c,
            lsn,
            entries_of(b),
            next_of(b) as nat,
            upper,
            n,
        ),
        None => false,
    })
}

/// Whether going through entries and the leaves behind them reads a page.
pub open spec fn streams_page(
    c: Seq<u8>,
    lsn: u64,
    es: Seq<Entry>,
    next: nat,
    upper: Key,
    n: nat,
) -> bool {
    streams(c, lsn, es, next, upper, n)
}

/// Whether a scan between two keys needs what a request names.
pub open spec fn scan_asks(
    files: Files,
    file: FileId,
    base: u64,
    lsn: u64,
    lower: Key,
    upper: Key,
    e: Error,
) -> bool {
    let c = tree_at(files[file], base);
    ||| leaf_asks(files, file, base, lsn, lower, e)
    ||| match leaf_for(c, lsn, lower) {
        Some(Some(id)) => {
            let b = page_bytes(c, id);
            let es = entries_of(b).skip(lower_bound_of(b, lower) as int);
            stream_asks(files, file, base, lsn, es, next_of(b) as nat, upper, e)
        },
        _ => false,
    }
}

/// Whether going through entries and the leaves behind them needs what a request names.
pub open spec fn stream_asks(
    files: Files,
    file: FileId,
    base: u64,
    lsn: u64,
    es: Seq<Entry>,
    next: nat,
    upper: Key,
    e: Error,
) -> bool {
    e == length_request(file) || exists|n: nat| #[trigger]
        streams_page(tree_at(files[file], base), lsn, es, next, upper, n) && e == page_request(
            file,
            base + n,
        )
}

/// The value under a key.
pub open spec fn lookup_of(c: Seq<u8>, lsn: u64, key: Key) -> Option<Option<Value>> {
    match leaf_for(c, lsn, key) {
        None => None,
        Some(None) => Some(None),
        Some(Some(id)) => {
            let b = page_bytes(c, id);
            let i = lower_bound_of(b, key);
            if i < count_of(b) && key_of(b, i as int) == key {
                Some(Some(value_of(b, i as int)))
            } else {
                Some(None)
            }
        },
    }
}

/// The entry with the last key that does not come after a key.
pub open spec fn floor_entry_of(c: Seq<u8>, lsn: u64, key: Key) -> Option<Option<Entry>> {
    match leaf_for(c, lsn, key) {
        None => None,
        Some(None) => Some(None),
        Some(Some(id)) => {
            let b = page_bytes(c, id);
            match floor_of(b, key) {
                Some(i) => Some(Some((key_of(b, i as int), value_of(b, i as int)))),
                None => Some(None),
            }
        },
    }
}

/// Entries as they come, and whether they end well.
pub struct Stream {
    /// The entries.
    pub items: Seq<Entry>,
    /// Whether nothing fails behind them.
    pub sound: bool,
}

/// The entries in front of the first one beyond an upper end.
pub open spec fn upto(es: Seq<Entry>, upper: Key) -> Seq<Entry>
    decreases es.len(),
{
    if es.len() == 0 || upper.before(es[0].0) {
        Seq::empty()
    } else {
        seq![es[0]] + upto(es.skip(1), upper)
    }
}

/// How far a page lies before the end of a file.
pub open spec fn pages_left(c: Seq<u8>, id: nat) -> nat {
    if id < c.len() {
        (c.len() - id) as nat
    } else {
        0
    }
}

/// The entries in hand and those of the leaves from `next` on, up to an upper end.
pub open spec fn stream(c: Seq<u8>, lsn: u64, es: Seq<Entry>, next: nat, upper: Key) -> Stream
    decreases (if next == 0 { 0int } else { 1int }), pages_left(c, next),
{
    let t = upto(es, upper);
    if t.len() < es.len() || next == 0 {
        Stream { items: t, sound: true }
    } else {
        match node_of(c, next, lsn) {
            Some(b) => if kind_of(b) == 1 {
                let more = stream(c, lsn, entries_of(b), next_of(b) as nat, upper);
                Stream { items: t + more.items, sound: more.sound }
            } else {
                Stream { items: t, sound: false }
            },
            None => Stream { items: t, sound: false },
        }
    }
}

/// The entries from a lower to an upper end, both included.
pub open spec fn scan_of(c: Seq<u8>, lsn: u64, lower: Key, upper: Key) -> Option<Stream> {
    match leaf_for(c, lsn, lower) {
        None => None,
        Some(None) => Some(Stream { items: Seq::empty(), sound: true }),
        Some(Some(id)) => {
            let b = page_bytes(c, id);
            Some(
                stream(
                    c,
                    lsn,
                    entries_of(b).skip(lower_bound_of(b, lower) as int),
                    next_of(b) as nat,
                    upper,
                ),
            )
        },
    }
}

proof fn lemma_node_more(c: Seq<u8>, d: Seq<u8>, id: nat, lsn: u64)
    requires
        node_of(c, id, lsn) is Some,
    ensures
        node_of(c + d, id, lsn) == node_of(c, id, lsn),
        page_bytes(c + d, id) == page_bytes(c, id),
{
    assert(page_bytes(c + d, id) =~= page_bytes(c, id));
}

proof fn lemma_walk_more(c: Seq<u8>, d: Seq<u8>, lsn: u64, id: nat, key: Key)
    requires
        walk(c, lsn, id, key) is Some,
    ensures
        walk(c + d, lsn, id, key) == walk(c, lsn, id, key),
        walk(c, lsn, id, key).unwrap() is Some ==> page_bytes(
            c + d,
            walk(c, lsn, id, key).unwrap().unwrap(),
        ) == page_bytes(c, walk(c, lsn, id, key).unwrap().unwrap()),
    decreases id,
{
    if id != 0 {
        lemma_node_more(c, d, id, lsn);
        let b = node_of(c, id, lsn).unwrap();
        if kind_of(b) != 1 {
            let child = child_of(b, floor_index_of(b, key) as int) as nat;
            lemma_walk_more(c, d, lsn, child, key);
        }
    }
}

proof fn lemma_stream_more(
    c: Seq<u8>,
    d: Seq<u8>,
    lsn: u64,
    es: Seq<Entry>,
    next: nat,
    upper: Key,
)
    requires
        stream(c, lsn, es, next, upper).sound,
    ensures
        stream(c + d, lsn, es, next, upper) == stream(c, lsn, es, next, upper),
    decreases (if next == 0 { 0int } else { 1int }), pages_left(c, next),
{
    let t = upto(es, upper);
    if !(t.len() < es.len() || next == 0) {
        lemma_node_more(c, d, next, lsn);
        let b = node_of(c, next, lsn).unwrap();
        lemma_stream_more(c, d, lsn, entries_of(b), next_of(b) as nat, upper);
    }
}

/// What follows a tree in its file changes nothing that is read from it.
pub proof fn lemma_tree_more(c: Seq<u8>, d: Seq<u8>, lsn: u64, key: Key, upper: Key)
    requires
        d.len() % 8192 == 0,
    ensures
        lookup_of(c, lsn, key) is Some ==> lookup_of(c + d, lsn, key) == lookup_of(c, lsn, key),
        floor_entry_of(c, lsn, key) is Some ==> floor_entry_of(c + d, lsn, key) == floor_entry_of(
            c,
            lsn,
            key,
        ),
        scan_of(c, lsn, key, upper) is Some && scan_of(c, lsn, key, upper).unwrap().sound
            ==> scan_of(c + d, lsn, key, upper) == scan_of(c, lsn, key, upper),
{
    if leaf_for(c, lsn, key) is Some {
        lemma_node_more(c, d, 0, lsn);
        let first = next_of(node_of(c, 0, lsn).unwrap()) as nat;
        lemma_walk_more(c, d, lsn, first, key);
        if let Some(id) = walk(c, lsn, first, key).unwrap() {
            let b = page_bytes(c, id);
            let es = entries_of(b).skip(lower_bound_of(b, key) as int);
            if stream(c, lsn, es, next_of(b) as nat, upper).sound {
                lemma_stream_more(c, d, lsn, es, next_of(b) as nat, upper);
            }
        }
    }
}

// ---- Reading ----

/// A page of an index file in memory.
fn node<'a>(loaded: &'a Loaded, file: FileId, base: u64, id: u64, lsn: u64) -> (r: Result<
    Node<'a>,
>)
    ensures
        match r {
            Ok(node) => valid_node(node.bytes(), id as nat) && forall|files: Files| #[trigger]
                loaded.agrees(files) ==> files.contains_key(file) && node_of(
                    tree_at(files[file], base),
                    id as nat,
                    lsn,
                ) == Some(node.bytes()) && page_bytes(tree_at(files[file], base), id as nat) == node.bytes(),
            Err(e) => unread(loaded, file, e) && (e == length_request(file) || e == page_request(
                file,
                base + id,
            )) || e is Corrupt && forall|files: Files| #[trigger]
                loaded.agrees(files) ==> node_of(tree_at(files[file], base), id as nat, lsn) is None,
        },
{
    let length: u64 = loaded.length(file)?;
    if id > u64::MAX - base {
        return Err(corrupt("invalid index page header or checksum"));
    }
    let number: u64 = base + id;
    if number >= length / 8192 {
        proof {
            assert forall|files: Files| #[trigger] loaded.agrees(files) implies node_of(
                tree_at(files[file], base),
                id as nat,
                lsn,
            ) is None by {
                assert(files[file].len() == length);
            }
        }
        return Err(corrupt("invalid index page header or checksum"));
    }
    let bytes = loaded.page(file, number)?;
    proof {
        assert forall|files: Files| #[trigger] loaded.agrees(files) implies files.contains_key(file)
            && id * 8192 + 8192 <= tree_at(files[file], base).len() && page_bytes(tree_at(files[file], base), id as nat)
            == bytes@ by {
            assert(page_of(files, file, number as nat) == Some(bytes@));
            assert(page_bytes(tree_at(files[file], base), id as nat) =~= bytes@);
        }
    }
    let node = Node::decode(bytes.as_slice(), id)?;
    if node.lsn() != lsn {
        return Err(corrupt("invalid index page header or checksum"));
    }
    Ok(node)
}

/// Walks to the leaf that would contain `key`.
fn descend<'a>(loaded: &'a Loaded, file: FileId, base: u64, lsn: u64, key: Key) -> (r: Result<
    Option<(u64, Node<'a>)>,
>)
    ensures
        match r {
            Ok(Some((id, leaf))) => valid_node(leaf.bytes(), id as nat) && kind_of(leaf.bytes())
                == 1 && forall|files: Files| #[trigger]
                loaded.agrees(files) ==> files.contains_key(file) && leaf_for(
                    tree_at(files[file], base),
                    lsn,
                    key,
                ) == Some(Some(id as nat)) && page_bytes(tree_at(files[file], base), id as nat) == leaf.bytes(),
            Ok(None) => forall|files: Files| #[trigger]
                loaded.agrees(files) ==> files.contains_key(file) && leaf_for(
                    tree_at(files[file], base),
                    lsn,
                    key,
                ) == Some(None::<nat>),
            Err(e) => unread(loaded, file, e) && (forall|files: Files| #[trigger]
                loaded.agrees(files) ==> leaf_asks(files, file, base, lsn, key, e)) || e is Corrupt
                && forall|files: Files| #[trigger]
                loaded.agrees(files) ==> leaf_for(tree_at(files[file], base), lsn, key) is None,
        },
{
    let length: u64 = loaded.length(file)?;
    if length % 8192 != 0 {
        return Err(corrupt("truncated index file"));
    }
    proof {
        assert forall|files: Files| #[trigger] loaded.agrees(files) implies reads_page(
            tree_at(files[file], base),
            lsn,
            key,
            0,
        ) by {
            assert(files[file].len() == length);
        }
    }
    let meta = node(loaded, file, base, 0, lsn)?;
    let mut id: u64 = meta.next();
    while id != 0
        invariant
            forall|files: Files, n: nat|
                #![trigger loaded.agrees(files), reads_page(tree_at(files[file], base), lsn, key, n)]
                loaded.agrees(files) && walks(tree_at(files[file], base), lsn, id as nat, key, n)
                    ==> reads_page(tree_at(files[file], base), lsn, key, n),
            forall|files: Files| #[trigger]
                loaded.agrees(files) ==> files.contains_key(file) && leaf_for(
                    tree_at(files[file], base),
                    lsn,
                    key,
                ) == walk(tree_at(files[file], base), lsn, id as nat, key),
        decreases id,
    {
        proof {
            assert forall|files: Files| #[trigger] loaded.agrees(files) implies reads_page(
                tree_at(files[file], base),
                lsn,
                key,
                id as nat,
            ) by {
                assert(walks(tree_at(files[file], base), lsn, id as nat, key, id as nat));
            }
        }
        let current = node(loaded, file, base, id, lsn)?;
        if current.kind() == 1 {
            return Ok(Some((id, current)));
        }
        let index: usize = match current.floor_index(key) {
            Some(index) => index,
            None => 0,
        };
        let child: u64 = current.child(index);
        assert(valid_entry(current.bytes(), id as nat, index as int));
        id = child;
    }
    Ok(None)
}

/// Whether a failed read of an index file asks for a part of it that is not in memory.
pub open spec fn unread(loaded: &Loaded, file: FileId, e: Error) -> bool {
    match e {
        Error::Unread { file: f, offset, length } => f == file && if length == 0 {
            !loaded.measured(file)
        } else {
            !loaded.has(Extent { file, offset, length })
        },
        _ => false,
    }
}

/// Looks a key up.
pub fn lookup_at(loaded: &Loaded, file: FileId, lsn: u64, base: u64, key: Key) -> (r: Result<Option<Value>>)
    ensures
        match r {
            Ok(v) => forall|files: Files| #[trigger]
                loaded.agrees(files) ==> files.contains_key(file) && lookup_of(
                    tree_at(files[file], base),
                    lsn,
                    key,
                ) == Some(v),
            Err(e) => unread(loaded, file, e) && (forall|files: Files| #[trigger]
                loaded.agrees(files) ==> leaf_asks(files, file, base, lsn, key, e)) || e is Corrupt
                && forall|files: Files| #[trigger]
                loaded.agrees(files) ==> lookup_of(tree_at(files[file], base), lsn, key) is None,
        },
{
    match descend(loaded, file, base, lsn, key)? {
        None => Ok(None),
        Some((id, leaf)) => {
            let index: usize = leaf.lower_bound(key);
            if index < leaf.count() && same_key(leaf.key(index), key) {
                Ok(Some(leaf.value(index)))
            } else {
                Ok(None)
            }
        },
    }
}

/// Finds the entry with the last key that does not come after `key`.
pub fn floor_at(loaded: &Loaded, file: FileId, lsn: u64, base: u64, key: Key) -> (r: Result<Option<Entry>>)
    ensures
        match r {
            Ok(v) => forall|files: Files| #[trigger]
                loaded.agrees(files) ==> files.contains_key(file) && floor_entry_of(
                    tree_at(files[file], base),
                    lsn,
                    key,
                ) == Some(v),
            Err(e) => unread(loaded, file, e) && (forall|files: Files| #[trigger]
                loaded.agrees(files) ==> leaf_asks(files, file, base, lsn, key, e)) || e is Corrupt
                && forall|files: Files| #[trigger]
                loaded.agrees(files) ==> floor_entry_of(tree_at(files[file], base), lsn, key) is None,
        },
{
    match descend(loaded, file, base, lsn, key)? {
        None => Ok(None),
        Some((id, leaf)) => match leaf.floor_index(key) {
            Some(index) => Ok(Some((leaf.key(index), leaf.value(index)))),
            None => Ok(None),
        },
    }
}

/// The entries of a leaf.
fn leaf_entries(leaf: &Node<'_>) -> (es: Vec<Entry>)
    requires
        kind_of(leaf.bytes()) == 1,
    ensures
        es@ == entries_of(leaf.bytes()),
{
    let count: usize = leaf.count();
    let mut es: Vec<Entry> = Vec::new();
    let mut i: usize = 0;
    while i < count
        invariant
            i <= count == count_of(leaf.bytes()),
            kind_of(leaf.bytes()) == 1,
            es@ == entries_of(leaf.bytes()).take(i as int),
        decreases count - i,
    {
        es.push((leaf.key(i), leaf.value(i)));
        i = i + 1;
        assert(es@ =~= entries_of(leaf.bytes()).take(i as int));
    }
    assert(entries_of(leaf.bytes()).take(count as int) =~= entries_of(leaf.bytes()));
    es
}

/// A scan over the leaves of an index.
pub struct IndexCursor {
    file: FileId,
    base: u64,
    lsn: u64,
    upper: Key,
    entries: Vec<Entry>,
    position: usize,
    next: u64,
    failed: bool,
}

/// Starts a scan from `lower` to `upper`, both included.
pub fn scan_at(loaded: &Loaded, file: FileId, lsn: u64, base: u64, lower: Key, upper: Key) -> (r: Result<
    IndexCursor,
>)
    ensures
        match r {
            Ok(cursor) => cursor.sound() && cursor.source() == file && cursor.start() == base && forall|files: Files|
                #[trigger]
                loaded.agrees(files) ==> files.contains_key(file) && scan_of(
                    tree_at(files[file], base),
                    lsn,
                    lower,
                    upper,
                ) == Some(cursor.remaining(tree_at(files[file], base))) && forall|e: Error| #[trigger]
                    cursor.asks(files, e) ==> scan_asks(files, file, base, lsn, lower, upper, e),
            Err(e) => unread(loaded, file, e) && (forall|files: Files| #[trigger]
                loaded.agrees(files) ==> scan_asks(files, file, base, lsn, lower, upper, e)) || e
                is Corrupt && forall|files: Files| #[trigger]
                loaded.agrees(files) ==> scan_of(tree_at(files[file], base), lsn, lower, upper) is None,
        },
{
    match descend(loaded, file, base, lsn, lower)? {
        None => {
            let cursor = IndexCursor {
                file,
                base,
                lsn,
                upper,
                entries: Vec::new(),
                position: 0,
                next: 0,
                failed: false,
            };
            assert(cursor.entries@.skip(0) =~= Seq::empty());
            Ok(cursor)
        },
        Some((id, leaf)) => Ok(
            IndexCursor {
                file,
                base,
                lsn,
                upper,
                entries: leaf_entries(&leaf),
                position: leaf.lower_bound(lower),
                next: leaf.next(),
                failed: false,
            },
        ),
    }
}

impl IndexCursor {
    /// Whether the position is one in the entries in hand.
    pub closed spec fn sound(self) -> bool {
        self.position <= self.entries@.len()
    }

    /// The file that the scan reads.
    pub closed spec fn source(self) -> FileId {
        self.file
    }

    /// The first page of the tree that the scan reads.
    pub closed spec fn start(self) -> u64 {
        self.base
    }

    /// What is still to come from a tree.
    pub closed spec fn remaining(self, c: Seq<u8>) -> Stream {
        if self.failed {
            Stream { items: Seq::empty(), sound: true }
        } else {
            stream(
                c,
                self.lsn,
                self.entries@.skip(self.position as int),
                self.next as nat,
                self.upper,
            )
        }
    }

    /// Whether what is still to come needs what a request names.
    pub closed spec fn asks(self, files: Files, e: Error) -> bool {
        !self.failed && stream_asks(
            files,
            self.file,
            self.base,
            self.lsn,
            self.entries@.skip(self.position as int),
            self.next as nat,
            self.upper,
            e,
        )
    }

    /// The next entry. A failed scan has none; one that only lacks a part of the file in
    /// memory goes on from where it is.
    pub fn next(&mut self, loaded: &Loaded) -> (r: Option<Result<Entry>>)
        requires
            old(self).sound(),
        ensures
            final(self).sound(),
            final(self).source() == old(self).source(),
            final(self).start() == old(self).start(),
            match r {
                Some(Ok(e)) => forall|files: Files| #[trigger]
                    loaded.agrees(files) ==> {
                        let was = old(self).remaining(tree_at(files[old(self).source()], old(self).start()));
                        let is = final(self).remaining(tree_at(files[old(self).source()], old(self).start()));
                        was.items == seq![e] + is.items && was.sound == is.sound && forall|x: Error|
                            #[trigger]
                            final(self).asks(files, x) ==> old(self).asks(files, x)
                    },
                Some(Err(e)) => if unread(loaded, old(self).source(), e) {
                    forall|files: Files| #[trigger]
                        loaded.agrees(files) ==> old(self).asks(files, e) && (forall|x: Error|
                            #[trigger]
                            final(self).asks(files, x) ==> old(self).asks(files, x)) && final(self).remaining(
                            tree_at(files[old(self).source()], old(self).start()),
                        ) == old(self).remaining(tree_at(files[old(self).source()], old(self).start()))
                } else {
                    e is Corrupt && forall|files: Files| #[trigger]
                        loaded.agrees(files) ==> {
                            let was = old(self).remaining(tree_at(files[old(self).source()], old(self).start()));
                            was.items.len() == 0 && !was.sound
                        }
                },
                None => forall|files: Files| #[trigger]
                    loaded.agrees(files) ==> {
                        let was = old(self).remaining(tree_at(files[old(self).source()], old(self).start()));
                        was.items.len() == 0 && was.sound
                    },
            },
    {
        if self.failed {
            return None;
        }
        let ghost file = self.file;
        let ghost base = self.base;
        loop
            invariant
                self.sound(),
                !self.failed,
                self.file == file,
                self.base == base,
                base == old(self).base,
                file == old(self).file,
                forall|files: Files| #[trigger]
                    loaded.agrees(files) ==> self.remaining(tree_at(files[file], base)) == old(self).remaining(
                        tree_at(files[file], base),
                    ),
                forall|files: Files, x: Error|
                    #![trigger loaded.agrees(files), old(self).asks(files, x)]
                    #![trigger loaded.agrees(files), self.asks(files, x)]
                    loaded.agrees(files) && self.asks(files, x) ==> old(self).asks(files, x),
            decreases (if self.next == 0 { 0int } else { 1int }), u64::MAX - self.next,
                self.entries@.len() - self.position,
        {
            let ghost es = self.entries@.skip(self.position as int);
            let ghost before = *self;
            if self.position < self.entries.len() {
                let entry: Entry = self.entries[self.position];
                assert(es[0] == entry);
                if self.upper.less(&entry.0) {
                    self.next = 0;
                    self.position = self.entries.len();
                    proof {
                        assert(self.entries@.skip(self.position as int) =~= Seq::empty());
                    }
                    return None;
                }
                self.position = self.position + 1;
                proof {
                    assert(es.skip(1) =~= self.entries@.skip(self.position as int));
                    assert forall|files: Files| #[trigger] loaded.agrees(files) implies ({
                        let was = old(self).remaining(tree_at(files[file], base));
                        let is = self.remaining(tree_at(files[file], base));
                        was.items == seq![entry] + is.items && was.sound == is.sound
                    }) by {
                        lemma_stream_step(tree_at(files[file], base), self.lsn, es, self.next as nat, self.upper);
                    }
                    assert forall|files: Files, x: Error|
                        loaded.agrees(files) && #[trigger] self.asks(files, x) implies old(self).asks(files, x) by {
                        lemma_asks_step(
                            files,
                            file,
                            base,
                            self.lsn,
                            es,
                            self.next as nat,
                            self.upper,
                            x,
                        );
                        assert(before.asks(files, x));
                    }
                }
                return Some(Ok(entry));
            }
            assert(es =~= Seq::empty());
            if self.next == 0 {
                return None;
            }
            match node(loaded, self.file, self.base, self.next, self.lsn) {
                Ok(leaf) => {
                    if leaf.kind() != 1 {
                        self.failed = true;
                        return Some(Err(corrupt("leaf chain points to a branch")));
                    }
                    let entries = leaf_entries(&leaf);
                    let next: u64 = leaf.next();
                    self.entries = entries;
                    self.position = 0;
                    self.next = next;
                    proof {
                        assert(self.entries@.skip(0) =~= entries_of(leaf.bytes()));
                        assert forall|files: Files| #[trigger] loaded.agrees(files) implies
                            self.remaining(tree_at(files[file], base)) == old(self).remaining(tree_at(files[file], base)) by {
                            let more = stream(
                                tree_at(files[file], base),
                                self.lsn,
                                entries_of(leaf.bytes()),
                                next as nat,
                                self.upper,
                            );
                            assert(Seq::<Entry>::empty() + more.items =~= more.items);
                        }
                        assert forall|files: Files, x: Error|
                            loaded.agrees(files) && #[trigger] self.asks(files, x) implies old(self).asks(files, x) by {
                            lemma_asks_leaf(
                                files,
                                file,
                                base,
                                self.lsn,
                                before.next as nat,
                                self.upper,
                                x,
                            );
                            assert(before.asks(files, x));
                        }
                    }
                },
                Err(e) => {
                    proof {
                        if unread(loaded, file, e) {
                            assert forall|files: Files| #[trigger] loaded.agrees(files) implies old(self).asks(files, e) by {
                                assert(streams_page(
                                    tree_at(files[file], base),
                                    self.lsn,
                                    es,
                                    self.next as nat,
                                    self.upper,
                                    self.next as nat,
                                ));
                                assert(before.asks(files, e));
                            }
                        }
                    }
                    match e {
                        Error::Unread { file: f, offset, length } => {},
                        _ => {
                            self.failed = true;
                        },
                    }
                    return Some(Err(e));
                },
            }
        }
    }
}

/// Taking the first entry off a stream.
proof fn lemma_stream_step(c: Seq<u8>, lsn: u64, es: Seq<Entry>, next: nat, upper: Key)
    requires
        es.len() > 0,
        !upper.before(es[0].0),
    ensures
        stream(c, lsn, es, next, upper).items == seq![es[0]] + stream(
            c,
            lsn,
            es.skip(1),
            next,
            upper,
        ).items,
        stream(c, lsn, es, next, upper).sound == stream(c, lsn, es.skip(1), next, upper).sound,
{
    let t = upto(es, upper);
    let u = upto(es.skip(1), upper);
    assert(t == seq![es[0]] + u);
    if !(t.len() < es.len() || next == 0) {
        if let Some(b) = node_of(c, next, lsn) {
            let more = stream(c, lsn, entries_of(b), next_of(b) as nat, upper);
            assert(t + more.items =~= seq![es[0]] + (u + more.items));
        }
    }
}

/// What the entries behind the first need, all of them need.
proof fn lemma_asks_step(
    files: Files,
    file: FileId,
    base: u64,
    lsn: u64,
    es: Seq<Entry>,
    next: nat,
    upper: Key,
    e: Error,
)
    requires
        es.len() > 0,
        !upper.before(es[0].0),
        stream_asks(files, file, base, lsn, es.skip(1), next, upper, e),
    ensures
        stream_asks(files, file, base, lsn, es, next, upper, e),
{
    let c = tree_at(files[file], base);
    assert(upto(es, upper) == seq![es[0]] + upto(es.skip(1), upper));
    if e != length_request(file) {
        let n = choose|n: nat| #[trigger]
            streams_page(c, lsn, es.skip(1), next, upper, n) && e == page_request(file, base + n);
        assert(streams_page(c, lsn, es, next, upper, n));
    }
}

/// What a leaf and those behind it need is needed to go through the leaves from it on.
proof fn lemma_asks_leaf(
    files: Files,
    file: FileId,
    base: u64,
    lsn: u64,
    next: nat,
    upper: Key,
    e: Error,
)
    requires
        next != 0,
        ({
            let b = node_of(tree_at(files[file], base), next, lsn);
            &&& b is Some
            &&& kind_of(b.unwrap()) == 1
            &&& next_of(b.unwrap()) == 0 || next_of(b.unwrap()) > next
            &&& stream_asks(
                files,
                file,
                base,
                lsn,
                entries_of(b.unwrap()),
                next_of(b.unwrap()) as nat,
                upper,
                e,
            )
        }),
    ensures
        stream_asks(files, file, base, lsn, Seq::empty(), next, upper, e),
{
    let c = tree_at(files[file], base);
    if e != length_request(file) {
        let b = node_of(c, next, lsn).unwrap();
        let n = choose|n: nat| #[trigger]
            streams_page(c, lsn, entries_of(b), next_of(b) as nat, upper, n) && e == page_request(
                file,
                base + n,
            );
        assert(streams_page(c, lsn, Seq::empty(), next, upper, n));
    }
}

} // verus!
