//! The identity of checkpoint files, the parts of them that are in memory, and
//! the caches of pages and open files.
//!
//! Checkpoint files never change once they are published, so what was read from
//! one stays true of it.

use crate::error::Error;
use crate::error::Result;
use crate::key::OrderedKey;
use crate::ordered_map::OrderedMap;
use crate::storage::page::PAGE_SIZE;
use crate::text::join;
use crate::text::padded;
use crate::text::to_padded;
use std::collections::BTreeMap;
use std::collections::VecDeque;
use std::sync::Arc;
use vstd::prelude::*;

verus! {

/// The default page cache budget in bytes.
pub const DEFAULT_CACHE_BYTES: usize = 64 * 1024 * 1024;

/// The default number of checkpoint files kept open.
pub const DEFAULT_OPEN_FILES: usize = 256;

/// The physical identity of one checkpoint file.
#[derive(Clone, Copy, Debug, PartialEq, Eq, Structural)]
pub struct FileId {
    /// The table.
    pub table: u64,
    /// The generation that wrote the file.
    pub generation: u64,
    /// What the file holds, 0 to 6.
    pub kind: u8,
    /// The segment of a history file.
    pub segment: u64,
}

/// The name of a checkpoint file in its generation's directory.
pub open spec fn file_name(kind: u8, segment: u64) -> Seq<char> {
    if kind == 0 {
        "/current.pages"@
    } else if kind == 1 {
        "/bases.pages"@
    } else if kind == 2 {
        "/snapshots.pages"@
    } else if kind == 3 {
        "/primary.index"@
    } else if kind == 4 {
        "/history.index"@
    } else if kind == 5 {
        "/snapshots.index"@
    } else {
        "/history/"@ + padded(segment as nat, 20) + ".events"@
    }
}

/// The directory of one table generation.
pub open spec fn generation_path(root: Seq<char>, table: u64, generation: u64) -> Seq<char> {
    root + "/tables/"@ + padded(table as nat, 20) + "/"@ + padded(generation as nat, 20)
}

impl FileId {
    /// Names a checkpoint file.
    pub fn new(table: u64, generation: u64, kind: u8, segment: u64) -> (id: Self)
        ensures
            id == (FileId { table, generation, kind, segment }),
    {
        Self { table, generation, kind, segment }
    }

    /// Resolves this file inside a database directory.
    pub fn path(&self, root: &str) -> (path: String)
        requires
            self.kind <= 6,
        ensures
            path@ == generation_path(root@, self.table, self.generation) + file_name(
                self.kind,
                self.segment,
            ),
    {
        let dir = table_path(root, self.table, self.generation);
        match self.kind {
            0 => join(dir.as_str(), "/current.pages"),
            1 => join(dir.as_str(), "/bases.pages"),
            2 => join(dir.as_str(), "/snapshots.pages"),
            3 => join(dir.as_str(), "/primary.index"),
            4 => join(dir.as_str(), "/history.index"),
            5 => join(dir.as_str(), "/snapshots.index"),
            _ => {
                let segment = join("/history/", to_padded(self.segment, 20).as_str());
                join(dir.as_str(), join(segment.as_str(), ".events").as_str())
            },
        }
    }
}

/// Resolves the directory holding one table generation.
pub fn table_path(root: &str, table: u64, generation: u64) -> (path: String)
    ensures
        path@ == generation_path(root@, table, generation),
{
    let tables = join(root, "/tables/");
    let dir = join(tables.as_str(), to_padded(table, 20).as_str());
    join(join(dir.as_str(), "/").as_str(), to_padded(generation, 20).as_str())
}

/// A run of bytes of a checkpoint file.
#[derive(Clone, Copy, Debug, PartialEq, Eq, Structural)]
pub struct Extent {
    /// The file.
    pub file: FileId,
    /// The first byte.
    pub offset: u64,
    /// The number of bytes.
    pub length: u64,
}

impl OrderedKey for FileId {
    open spec fn before(self, other: Self) -> bool {
        self.table < other.table || (self.table == other.table && (self.generation
            < other.generation || (self.generation == other.generation && (self.kind < other.kind
            || (self.kind == other.kind && self.segment < other.segment)))))
    }

    proof fn order_laws() {
    }

    fn less(&self, other: &Self) -> (r: bool) {
        self.table < other.table || (self.table == other.table && (self.generation
            < other.generation || (self.generation == other.generation && (self.kind < other.kind
            || (self.kind == other.kind && self.segment < other.segment)))))
    }

    fn same(&self) -> (r: Self) {
        *self
    }
}

impl OrderedKey for Extent {
    open spec fn before(self, other: Self) -> bool {
        self.file.before(other.file) || (self.file == other.file && (self.offset < other.offset || (
        self.offset == other.offset && self.length < other.length)))
    }

    proof fn order_laws() {
        FileId::order_laws();
    }

    fn less(&self, other: &Self) -> (r: bool) {
        if self.file.less(&other.file) {
            true
        } else {
            self.file == other.file && (self.offset < other.offset || (self.offset == other.offset
                && self.length < other.length))
        }
    }

    fn same(&self) -> (r: Self) {
        *self
    }
}

/// The parts of checkpoint files that are in memory.
///
/// A read that needs another part fails with [`Error::Unread`], which names it. The caller
/// loads it from disk, adds it here and repeats the read.
pub struct Loaded {
    extents: OrderedMap<Extent, Vec<u8>>,
    lengths: OrderedMap<FileId, u64>,
}

/// What the checkpoint files hold.
pub type Files = Map<FileId, Seq<u8>>;

/// The bytes of a file from an offset on, if it has as many.
pub open spec fn extent_of(files: Files, e: Extent) -> Option<Seq<u8>> {
    if files.contains_key(e.file) && e.offset + e.length <= files[e.file].len() {
        Some(files[e.file].subrange(e.offset as int, e.offset + e.length))
    } else {
        None
    }
}

impl Default for Loaded {
    fn default() -> (loaded: Self)
        ensures
            forall|files: Files| #[trigger] loaded.agrees(files),
            forall|e: Extent| !(#[trigger] loaded.has(e)),
            forall|f: FileId| !(#[trigger] loaded.measured(f)),
    {
        Loaded { extents: OrderedMap::new(), lengths: OrderedMap::new() }
    }
}

impl Loaded {
    /// Whether a part is in memory.
    pub closed spec fn has(self, e: Extent) -> bool {
        self.extents@.contains_key(e)
    }

    /// Whether the length of a file is known.
    pub closed spec fn measured(self, file: FileId) -> bool {
        self.lengths@.contains_key(file)
    }

    /// Whether what is in memory is what files hold.
    pub closed spec fn agrees(self, files: Files) -> bool {
        &&& forall|e: Extent| #[trigger]
            self.extents@.contains_key(e) ==> extent_of(files, e) == Some(self.extents@[e]@)
        &&& forall|f: FileId| #[trigger]
            self.lengths@.contains_key(f) ==> files.contains_key(f) && files[f].len()
                == self.lengths@[f]
    }

    /// Nothing in memory.
    pub fn new() -> (loaded: Self)
        ensures
            forall|files: Files| #[trigger] loaded.agrees(files),
            forall|e: Extent| !(#[trigger] loaded.has(e)),
            forall|f: FileId| !(#[trigger] loaded.measured(f)),
    {
        Self::default()
    }

    /// Adds a part of a file.
    pub fn insert(&mut self, file: FileId, offset: u64, length: u64, bytes: Vec<u8>)
        ensures
            ({
                let e = Extent { file, offset, length };
                &&& final(self).has(e)
                &&& forall|other: Extent| #[trigger]
                    final(self).has(other) == (other == e || old(self).has(other))
                &&& forall|f: FileId| #[trigger]
                    final(self).measured(f) == old(self).measured(f)
                &&& forall|files: Files|
                    old(self).agrees(files) && extent_of(files, e) == Some(bytes@)
                        ==> #[trigger] final(self).agrees(files)
            }),
    {
        let e = Extent { file, offset, length };
        self.extents.insert(e, bytes);
    }

    /// Adds the length of a file.
    pub fn measure(&mut self, file: FileId, length: u64)
        ensures
            final(self).measured(file),
            forall|e: Extent| #[trigger] final(self).has(e) == old(self).has(e),
            forall|f: FileId| #[trigger]
                final(self).measured(f) == (f == file || old(self).measured(f)),
            forall|files: Files|
                old(self).agrees(files) && files.contains_key(file) && files[file].len() == length
                    ==> #[trigger] final(self).agrees(files),
    {
        self.lengths.insert(file, length);
    }

    /// The bytes of a part that is in memory.
    pub fn extent(&self, file: FileId, offset: u64, length: u64) -> (r: Result<&Vec<u8>>)
        ensures
            match r {
                Ok(bytes) => self.has(Extent { file, offset, length }) && forall|files: Files|
                    #[trigger]
                    self.agrees(files) ==> extent_of(files, Extent { file, offset, length })
                        == Some(bytes@),
                Err(e) => !self.has(Extent { file, offset, length }) && e == (Error::Unread {
                    file,
                    offset,
                    length,
                }),
            },
    {
        match self.extents.get(&Extent { file, offset, length }) {
            Some(bytes) => Ok(bytes),
            None => Err(Error::Unread { file, offset, length }),
        }
    }

    /// Whether a request names something that is not in memory.
    pub fn wants(&self, file: FileId, offset: u64, length: u64) -> (r: bool)
        ensures
            r == lacks(self, Error::Unread { file, offset, length }),
    {
        if length == 0 {
            !self.lengths.contains_key(&file)
        } else {
            !self.extents.contains_key(&Extent { file, offset, length })
        }
    }

    /// The length of a file that was measured. The request for it has no length.
    pub fn length(&self, file: FileId) -> (r: Result<u64>)
        ensures
            match r {
                Ok(n) => self.measured(file) && forall|files: Files| #[trigger]
                    self.agrees(files) ==> files.contains_key(file) && files[file].len() == n,
                Err(e) => !self.measured(file) && e == (Error::Unread {
                    file,
                    offset: 0,
                    length: 0,
                }),
            },
    {
        match self.lengths.get(&file) {
            Some(n) => Ok(*n),
            None => Err(Error::Unread { file, offset: 0, length: 0 }),
        }
    }

    /// A page that is in memory.
    pub fn page(&self, file: FileId, number: u64) -> (r: Result<&Vec<u8>>)
        ensures
            match r {
                Ok(bytes) => forall|files: Files| #[trigger]
                    self.agrees(files) ==> page_of(files, file, number as nat) == Some(bytes@),
                Err(Error::Unread { file: f, offset, length }) => f == file && !self.has(
                    Extent { file, offset, length },
                ) && offset == number * 8192 && length == 8192,
                Err(e) => e is Corrupt && number * 8192 > u64::MAX && forall|files: Files|
                    #[trigger]
                    self.agrees(files) ==> page_of(files, file, number as nat) is None,
            },
    {
        if number > u64::MAX / 8192 {
            return Err(crate::error::corrupt("page offset overflow"));
        }
        self.extent(file, number * 8192, 8192)
    }
}

/// The request for a page of a file.
pub open spec fn page_request(file: FileId, number: int) -> Error {
    Error::Unread { file, offset: (number * 8192) as u64, length: 8192 }
}

/// The request for the length of a file.
pub open spec fn length_request(file: FileId) -> Error {
    Error::Unread { file, offset: 0, length: 0 }
}

/// Whether a failed read asks for something that is not in memory.
pub open spec fn lacks(loaded: &Loaded, e: Error) -> bool {
    match e {
        Error::Unread { file, offset, length } => if length == 0 {
            !loaded.measured(file)
        } else {
            !loaded.has(Extent { file, offset, length })
        },
        _ => false,
    }
}

/// A page of a file, if the file has it within the reach of a 64-bit offset.
pub open spec fn page_of(files: Files, file: FileId, number: nat) -> Option<Seq<u8>> {
    if number * 8192 <= u64::MAX {
        extent_of(files, Extent { file, offset: (number * 8192) as u64, length: 8192 })
    } else {
        None
    }
}

/// Standard maps take the keys of pages and files in their order.
proof fn lemma_ordered()
    ensures
        vstd::std_specs::btree::key_obeys_cmp_spec::<PageKey>(),
        vstd::std_specs::btree::key_obeys_cmp_spec::<FileKey>(),
{
    broadcast use vstd::std_specs::btree::group_btree_axioms;
    broadcast use vstd::laws_cmp::group_laws_cmp;

}

// ---- Page cache ----

/// A page of a checkpoint file: table, generation, kind, segment and page number.
pub type PageKey = (u64, u64, u8, u64, u64);

/// The key of a page.
pub fn page_key(file: FileId, number: u64) -> (key: PageKey)
    ensures
        key == (file.table, file.generation, file.kind, file.segment, number),
{
    (file.table, file.generation, file.kind, file.segment, number)
}

struct Slot<V> {
    key: PageKey,
    value: Arc<V>,
    referenced: bool,
}

/// A clock replacement cache: eviction sweeps slots and clears reference bits.
pub struct PageCache<V> {
    index: BTreeMap<PageKey, usize>,
    slots: Vec<Option<Slot<V>>>,
    hand: usize,
    limit: usize,
    hits: u64,
    misses: u64,
}

/// Whether an index says where the occupied slots are.
spec fn indexes<V>(index: Map<PageKey, usize>, slots: Seq<Option<Slot<V>>>) -> bool {
    &&& forall|k: PageKey| #[trigger]
        index.contains_key(k) ==> index[k] < slots.len() && slots[index[k] as int] is Some
            && slots[index[k] as int].unwrap().key == k
    &&& forall|i: int|
        0 <= i < slots.len() && (#[trigger] slots[i]) is Some ==> index.contains_key(
            slots[i].unwrap().key,
        ) && index[slots[i].unwrap().key] == i
}

/// A cached page in its place: the page, and whether it was used since the last sweep.
pub struct PlaceV<V> {
    /// The key of the page.
    pub key: PageKey,
    /// The page.
    pub value: V,
    /// Whether it was used.
    pub referenced: bool,
}

/// What a slot stands for.
spec fn place_of<V>(slot: Option<Slot<V>>) -> Option<PlaceV<V>> {
    match slot {
        None => None,
        Some(s) => Some(PlaceV { key: s.key, value: *s.value, referenced: s.referenced }),
    }
}

/// A sweep of at most so many steps from a place on: it stops at the first place that is free
/// or was not used, and marks those that it passes as not used. The place where it stops, the
/// places behind it, and where the next sweep starts.
pub open spec fn swept<V>(places: Seq<Option<PlaceV<V>>>, hand: int, left: nat) -> (
    int,
    Seq<Option<PlaceV<V>>>,
    int,
)
    decreases left,
{
    let next = if hand + 1 < places.len() {
        hand + 1
    } else {
        0
    };
    if left == 0 {
        (hand, places, hand)
    } else {
        match places[hand] {
            None => (hand, places, next),
            Some(p) => if !p.referenced {
                (hand, places, next)
            } else {
                swept(
                    places.update(hand, Some(PlaceV { referenced: false, ..p })),
                    next,
                    (left - 1) as nat,
                )
            },
        }
    }
}

/// The file of a page.
pub open spec fn file_of(key: PageKey) -> FileId {
    FileId { table: key.0, generation: key.1, kind: key.2, segment: key.3 }
}

impl<V> PageCache<V> {
    /// Whether the cache is in order: its index says where its pages are, and it keeps to its
    /// capacity.
    pub closed spec fn sound(self) -> bool {
        &&& indexes(self.index@, self.slots@)
        &&& self.slots@.len() <= self.limit
        &&& 8 <= self.limit <= usize::MAX / 2
        &&& self.hand <= self.slots@.len()
        &&& self.slots@.len() > 0 ==> self.hand < self.slots@.len()
    }

    /// The cached pages.
    pub closed spec fn pages(self) -> Map<PageKey, V> {
        Map::new(
            |k: PageKey| self.index@.contains_key(k),
            |k: PageKey| *self.slots@[self.index@[k] as int].unwrap().value,
        )
    }

    /// The places of the cache.
    pub closed spec fn places(self) -> Seq<Option<PlaceV<V>>> {
        self.slots@.map_values(|slot: Option<Slot<V>>| place_of(slot))
    }

    /// The place where the next sweep starts.
    pub closed spec fn hand(self) -> int {
        self.hand as int
    }

    /// The cached pages are those in the places, each in one place.
    pub proof fn lemma_places(self)
        requires
            self.sound(),
        ensures
            self.places().len() <= self.capacity(),
            forall|i: int|
                0 <= i < self.places().len() && (#[trigger] self.places()[i]) is Some ==> {
                    let p = self.places()[i].unwrap();
                    self.pages().contains_key(p.key) && self.pages()[p.key] == p.value
                },
            forall|k: PageKey| #[trigger]
                self.pages().contains_key(k) ==> exists|i: int|
                    0 <= i < self.places().len() && (#[trigger] self.places()[i]) is Some
                        && self.places()[i].unwrap().key == k,
            forall|i: int, j: int|
                0 <= i < j < self.places().len() && (#[trigger] self.places()[i]) is Some && (
                #[trigger] self.places()[j]) is Some ==> self.places()[i].unwrap().key
                    != self.places()[j].unwrap().key,
    {
        assert forall|k: PageKey| #[trigger] self.pages().contains_key(k) implies exists|i: int|
            0 <= i < self.places().len() && (#[trigger] self.places()[i]) is Some
                && self.places()[i].unwrap().key == k by {
            let i = self.index@[k] as int;
            assert(self.places()[i].unwrap().key == k);
        }
        assert forall|i: int|
            0 <= i < self.places().len() && (#[trigger] self.places()[i]) is Some implies ({
            let p = self.places()[i].unwrap();
            self.pages().contains_key(p.key) && self.pages()[p.key] == p.value
        }) by {
            assert(self.slots@[i] is Some);
        }
        assert forall|i: int, j: int|
            0 <= i < j < self.places().len() && (#[trigger] self.places()[i]) is Some && (
            #[trigger] self.places()[j]) is Some implies self.places()[i].unwrap().key
            != self.places()[j].unwrap().key by {
            assert(self.slots@[i] is Some && self.slots@[j] is Some);
        }
    }

    /// The most pages that the cache holds.
    pub closed spec fn capacity(self) -> nat {
        self.limit as nat
    }

    /// The pages found and not found so far, counted up to the greatest number.
    pub closed spec fn counts(self) -> (u64, u64) {
        (self.hits, self.misses)
    }

    /// A cache of as many pages as fit a budget in bytes, but at least eight.
    pub fn new(cache_bytes: usize) -> (cache: Self)
        ensures
            cache.sound(),
            cache.pages() == Map::<PageKey, V>::empty(),
            cache.capacity() == (if cache_bytes / 8192 >= 8 {
                (cache_bytes / 8192) as nat
            } else {
                8
            }),
            cache.counts() == (0u64, 0u64),
            cache.places() == Seq::<Option<PlaceV<V>>>::empty(),
    {
        let fit: usize = cache_bytes / PAGE_SIZE;
        let limit: usize = if fit >= 8 {
            fit
        } else {
            8
        };
        let cache = PageCache {
            index: BTreeMap::new(),
            slots: Vec::new(),
            hand: 0,
            limit,
            hits: 0,
            misses: 0,
        };
        assert(cache.pages() =~= Map::empty());
        cache
    }

    /// The number of cached pages.
    pub fn len(&self) -> (n: usize)
        requires
            self.sound(),
        ensures
            n == self.pages().dom().len(),
            n <= self.capacity(),
    {
        broadcast use vstd::std_specs::btree::group_btree_axioms;

        proof {
            lemma_ordered();
        }
        proof {
            assert(self.pages().dom() =~= self.index@.dom());
            lemma_slots_bound(self.index@, self.slots@);
        }
        self.index.len()
    }

    /// How many pages were found and not found.
    pub fn stats(&self) -> (counts: (u64, u64))
        ensures
            counts == self.counts(),
    {
        (self.hits, self.misses)
    }

    /// A cached page, which stays for another sweep.
    pub fn get(&mut self, key: PageKey) -> (r: Option<Arc<V>>)
        requires
            old(self).sound(),
        ensures
            final(self).sound(),
            final(self).pages() == old(self).pages(),
            final(self).capacity() == old(self).capacity(),
            final(self).hand() == old(self).hand(),
            final(self).places().len() == old(self).places().len(),
            forall|i: int|
                0 <= i < old(self).places().len() ==> (#[trigger] final(self).places()[i]) == (
                match old(self).places()[i] {
                    Some(p) if p.key == key => Some(PlaceV { referenced: true, ..p }),
                    other => other,
                }),
            r == (if old(self).pages().contains_key(key) {
                Some(Arc::new(old(self).pages()[key]))
            } else {
                None
            }),
            final(self).counts() == (if r is Some {
                (
                    if old(self).counts().0 < u64::MAX {
                        (old(self).counts().0 + 1) as u64
                    } else {
                        u64::MAX
                    },
                    old(self).counts().1,
                )
            } else {
                (
                    old(self).counts().0,
                    if old(self).counts().1 < u64::MAX {
                        (old(self).counts().1 + 1) as u64
                    } else {
                        u64::MAX
                    },
                )
            }),
    {
        broadcast use vstd::std_specs::btree::group_btree_axioms;

        proof {
            lemma_ordered();
        }
        let position: usize = match self.index.get(&key) {
            Some(position) => *position,
            None => {
                if self.misses < u64::MAX {
                    self.misses = self.misses + 1;
                }
                assert(self.pages() =~= old(self).pages());
                return None;
            },
        };
        let value = match &self.slots[position] {
            Some(slot) => slot.value.clone(),
            None => {
                return None;
            },
        };
        self.slots.set(position, Some(Slot { key, value: value.clone(), referenced: true }));
        if self.hits < u64::MAX {
            self.hits = self.hits + 1;
        }
        assert(self.pages() =~= old(self).pages());
        Some(value)
    }

    /// Adds a page. Where all places are taken, the first page from the hand on that was not
    /// used since the last sweep leaves for it.
    pub fn insert(&mut self, key: PageKey, value: Arc<V>)
        requires
            old(self).sound(),
        ensures
            final(self).sound(),
            final(self).capacity() == old(self).capacity(),
            final(self).counts() == old(self).counts(),
            ({
                let (before, after) = (old(self).places(), final(self).places());
                let new = Some(PlaceV { key, value: *value, referenced: true });
                if old(self).pages().contains_key(key) {
                    &&& after == before && final(self).hand() == old(self).hand()
                    &&& final(self).pages() == old(self).pages()
                } else if before.len() < old(self).capacity() {
                    &&& after == before.push(new) && final(self).hand() == old(self).hand()
                    &&& final(self).pages() == old(self).pages().insert(key, *value)
                } else {
                    let (at, passed, hand) = swept(before, old(self).hand(), before.len() * 2);
                    &&& 0 <= at < before.len()
                    &&& after == passed.update(at, new) && final(self).hand() == hand
                    &&& final(self).pages() == (match before[at] {
                        None => old(self).pages(),
                        Some(p) => old(self).pages().remove(p.key),
                    }).insert(key, *value)
                }
            }),
    {
        broadcast use vstd::std_specs::btree::group_btree_axioms;

        proof {
            lemma_ordered();
        }
        if self.index.contains_key(&key) {
            return;
        }
        let slot = Slot { key, value, referenced: true };
        if self.slots.len() < self.limit {
            self.index.insert(key, self.slots.len());
            self.slots.push(Some(slot));
            assert(self.pages() =~= old(self).pages().insert(key, *value));
            assert(self.places() =~= old(self).places().push(
                Some(PlaceV { key, value: *value, referenced: true }),
            ));
            return;
        }
        let position: usize = self.evict();
        let ghost before = self.pages();
        let ghost passed = self.places();
        proof {
            assert(before =~= old(self).pages()) by {
                assert forall|i: int| 0 <= i < self.slots@.len() implies same_page(
                    #[trigger] self.slots@[i],
                    old(self).slots@[i],
                ) by {
                    assert(same_place(passed[i], old(self).places()[i]));
                }
            }
            assert(same_place(passed[position as int], old(self).places()[position as int]));
        }
        let gone: Option<PageKey> = match &self.slots[position] {
            Some(previous) => Some(previous.key),
            None => None,
        };
        match gone {
            Some(k) => {
                self.index.remove(&k);
            },
            None => {},
        }
        self.index.insert(key, position);
        self.slots.set(position, Some(slot));
        proof {
            assert(self.places() =~= passed.update(
                position as int,
                Some(PlaceV { key, value: *value, referenced: true }),
            ));
            match gone {
                Some(k) => {
                    assert(before.contains_key(k));
                    assert(self.pages() =~= before.remove(k).insert(key, *value));
                },
                None => {
                    assert(self.pages() =~= before.insert(key, *value));
                },
            }
        }
    }

    /// Returns a slot to reuse, clearing reference bits along the way.
    fn evict(&mut self) -> (position: usize)
        requires
            old(self).sound(),
            old(self).slots@.len() > 0,
        ensures
            position < final(self).slots@.len(),
            (position as int, final(self).places(), final(self).hand()) == swept(
                old(self).places(),
                old(self).hand(),
                old(self).slots@.len() * 2,
            ),
            final(self).places().len() == old(self).places().len(),
            forall|i: int|
                0 <= i < old(self).places().len() ==> same_place(
                    #[trigger] final(self).places()[i],
                    old(self).places()[i],
                ),
            final(self).index == old(self).index,
            final(self).limit == old(self).limit,
            final(self).hits == old(self).hits,
            final(self).misses == old(self).misses,
            final(self).sound(),
    {
        let count: usize = self.slots.len();
        let mut left: usize = count * 2;
        while left > 0
            invariant
                swept(self.places(), self.hand(), left as nat) == swept(
                    old(self).places(),
                    old(self).hand(),
                    (count * 2) as nat,
                ),
                self.places().len() == old(self).places().len(),
                forall|i: int|
                    0 <= i < old(self).places().len() ==> same_place(
                        #[trigger] self.places()[i],
                        old(self).places()[i],
                    ),
                self.index == old(self).index,
                self.limit == old(self).limit,
                self.hits == old(self).hits,
                self.misses == old(self).misses,
                count == self.slots@.len(),
                count == old(self).slots@.len(),
                count > 0,
                self.hand < count,
                self.sound(),
            decreases left,
        {
            let position: usize = self.hand;
            let ghost before = self.places();
            self.hand = if position + 1 < count {
                position + 1
            } else {
                0
            };
            assert(self.places() == before);
            assert(before[position as int] == place_of(self.slots@[position as int]));
            let cleared = match &self.slots[position] {
                None => {
                    return position;
                },
                Some(slot) => {
                    if !slot.referenced {
                        return position;
                    }
                    Slot { key: slot.key, value: slot.value.clone(), referenced: false }
                },
            };
            self.slots.set(position, Some(cleared));
            proof {
                let p = before[position as int].unwrap();
                assert(self.places() =~= before.update(
                    position as int,
                    Some(PlaceV { referenced: false, ..p }),
                ));
            }
            left = left - 1;
        }
        self.hand
    }

    /// Drops the pages of all files but those that are to be kept.
    pub fn retain(&mut self, keep: &OrderedMap<FileId, ()>)
        requires
            old(self).sound(),
        ensures
            final(self).sound(),
            final(self).capacity() == old(self).capacity(),
            final(self).counts() == old(self).counts(),
            final(self).hand() == old(self).hand(),
            final(self).places().len() == old(self).places().len(),
            forall|i: int|
                0 <= i < old(self).places().len() ==> (#[trigger] final(self).places()[i]) == (
                match old(self).places()[i] {
                    Some(p) if !keep@.contains_key(file_of(p.key)) => None,
                    other => other,
                }),
            final(self).pages() == old(self).pages().restrict(
                Set::new(|k: PageKey| keep@.contains_key(file_of(k))),
            ),
    {
        broadcast use vstd::std_specs::btree::group_btree_axioms;

        proof {
            lemma_ordered();
        }
        let count: usize = self.slots.len();
        let ghost start = old(self).slots@;
        let mut i: usize = 0;
        while i < count
            invariant
                count == self.slots@.len() == start.len(),
                start == old(self).slots@,
                i <= count,
                self.sound(),
                self.limit == old(self).limit,
                self.hand == old(self).hand,
                self.hits == old(self).hits,
                self.misses == old(self).misses,
                indexes(old(self).index@, start),
                forall|j: int|
                    0 <= j < count ==> (#[trigger] self.slots@[j]) == (if j < i && start[j] is Some
                        && !keep@.contains_key(file_of(start[j].unwrap().key)) {
                        None
                    } else {
                        start[j]
                    }),
            decreases count - i,
        {
            let gone: Option<PageKey> = match &self.slots[i] {
                Some(slot) => {
                    let k: PageKey = slot.key;
                    if keep.contains_key(
                        &FileId { table: k.0, generation: k.1, kind: k.2, segment: k.3 },
                    ) {
                        None
                    } else {
                        Some(k)
                    }
                },
                None => None,
            };
            match gone {
                Some(k) => {
                    self.index.remove(&k);
                    self.slots.set(i, None);
                },
                None => {},
            }
            i = i + 1;
        }
        proof {
            let kept = old(self).pages().restrict(
                Set::new(|k: PageKey| keep@.contains_key(file_of(k))),
            );
            assert forall|k: PageKey| #[trigger] self.index@.contains_key(k) implies old(
                self,
            ).index@.contains_key(k) && old(self).index@[k] == self.index@[k]
                && keep@.contains_key(file_of(k)) by {
                let j = self.index@[k] as int;
                assert(self.slots@[j] == start[j]);
            }
            assert forall|k: PageKey| #[trigger] old(self).index@.contains_key(k)
                && keep@.contains_key(file_of(k)) implies self.index@.contains_key(k)
                && self.index@[k] == old(self).index@[k] by {
                let j = old(self).index@[k] as int;
                assert(self.slots@[j] == start[j]);
            }
            assert(self.pages() =~= kept);
        }
    }
}

/// Whether a place holds the same page as another, or both none.
spec fn same_place<V>(a: Option<PlaceV<V>>, b: Option<PlaceV<V>>) -> bool {
    match (a, b) {
        (None, None) => true,
        (Some(x), Some(y)) => x.key == y.key && x.value == y.value,
        _ => false,
    }
}

/// Whether a slot holds the same page as another, or both none.
spec fn same_page<V>(a: Option<Slot<V>>, b: Option<Slot<V>>) -> bool {
    same_place(place_of(a), place_of(b))
}

/// An index of slots is no larger than there are slots.
proof fn lemma_slots_bound<V>(index: Map<PageKey, usize>, slots: Seq<Option<Slot<V>>>)
    requires
        indexes(index, slots),
        index.dom().finite(),
    ensures
        index.dom().len() <= slots.len(),
{
    let positions = Set::new(|i: int| 0 <= i < slots.len());
    assert(positions =~= vstd::set_lib::set_int_range(0, slots.len() as int));
    vstd::set_lib::lemma_int_range(0, slots.len() as int);
    let f = |k: PageKey| index[k] as int;
    let image = index.dom().map(f);
    assert(image.subset_of(positions)) by {
        assert forall|i: int| #[trigger] image.contains(i) implies positions.contains(i) by {
            let k = choose|k: PageKey| #[trigger] index.dom().contains(k) && f(k) == i;
            assert(index.contains_key(k));
        }
    }
    vstd::set_lib::lemma_map_size(index.dom(), image, f);
    vstd::set_lib::lemma_len_subset(image, positions);
}

// ---- Open files ----

/// The key of an open file: table, generation, kind and segment.
pub type FileKey = (u64, u64, u8, u64);

/// A bounded set of open files, from which the oldest leave first.
pub struct FileCache<H> {
    open: BTreeMap<FileKey, H>,
    order: VecDeque<FileKey>,
    limit: usize,
}

impl<H> FileCache<H> {
    /// Whether every open file has one place in the order.
    pub closed spec fn sound(self) -> bool {
        &&& self.limit >= 4
        &&& self.order@.no_duplicates()
        &&& forall|k: FileKey| #[trigger] self.order@.contains(k) <==> self.open@.contains_key(k)
    }

    /// The open files.
    pub closed spec fn files(self) -> Map<FileKey, H> {
        self.open@
    }

    /// The open files from the oldest on.
    pub closed spec fn ages(self) -> Seq<FileKey> {
        self.order@
    }

    /// The most files that are open at once.
    pub closed spec fn capacity(self) -> nat {
        self.limit as nat
    }

    /// Nothing open, and a limit of at least four files.
    pub fn new(max_open_files: usize) -> (cache: Self)
        ensures
            cache.sound(),
            cache.files() == Map::<FileKey, H>::empty(),
            cache.ages() == Seq::<FileKey>::empty(),
            cache.capacity() == (if max_open_files >= 4 {
                max_open_files as nat
            } else {
                4
            }),
    {
        FileCache {
            open: BTreeMap::new(),
            order: VecDeque::new(),
            limit: if max_open_files >= 4 {
                max_open_files
            } else {
                4
            },
        }
    }

    /// An open file.
    pub fn get(&self, key: FileKey) -> (r: Option<&H>)
        ensures
            r == (if self.files().contains_key(key) {
                Some(&self.files()[key])
            } else {
                None
            }),
    {
        broadcast use vstd::std_specs::btree::group_btree_axioms;

        proof {
            lemma_ordered();
        }
        self.open.get(&key)
    }

    /// Adds a file that is not open yet, closing the oldest ones to keep to the limit.
    pub fn insert(&mut self, key: FileKey, file: H)
        requires
            old(self).sound(),
            !old(self).files().contains_key(key),
        ensures
            final(self).sound(),
            final(self).capacity() == old(self).capacity(),
            ({
                let n = old(self).ages().len();
                let closed = if n >= old(self).capacity() {
                    n - old(self).capacity() + 1
                } else {
                    0
                };
                let kept = old(self).ages().skip(closed as int);
                &&& final(self).ages() == kept.push(key)
                &&& final(self).files() == old(self).files().restrict(kept.to_set()).insert(
                    key,
                    file,
                )
            }),
    {
        broadcast use vstd::std_specs::btree::group_btree_axioms;

        proof {
            lemma_ordered();
        }
        let ghost start = self.order@;
        let ghost mut closed: int = 0;
        proof {
            assert(start.skip(0) =~= start);
            assert(self.open@ =~= old(self).open@.restrict(start.to_set()));
        }
        while self.order.len() >= self.limit
            invariant
                0 <= closed <= start.len(),
                start == old(self).order@,
                start.no_duplicates(),
                self.order@ == start.skip(closed),
                self.limit == old(self).limit,
                self.limit >= 4,
                closed > 0 ==> start.len() - closed + 1 >= self.limit,
                self.open@ == old(self).open@.restrict(start.skip(closed).to_set()),
                forall|k: FileKey| #[trigger]
                    start.contains(k) <==> old(self).open@.contains_key(k),
            decreases self.order@.len(),
        {
            match self.order.pop_front() {
                Some(k) => {
                    self.open.remove(&k);
                    proof {
                        let rest = start.skip(closed + 1);
                        assert(start.skip(closed).skip(1) =~= rest);
                        assert(k == start[closed]);
                        assert forall|j: FileKey| #[trigger] rest.contains(j) <==> start.skip(
                            closed,
                        ).contains(j) && j != k by {
                            if rest.contains(j) {
                                let i = choose|i: int| 0 <= i < rest.len() && rest[i] == j;
                                assert(start.skip(closed)[i + 1] == j);
                                assert(start[closed + 1 + i] == j);
                            }
                            if start.skip(closed).contains(j) && j != k {
                                let i = choose|i: int|
                                    0 <= i < start.skip(closed).len() && start.skip(closed)[i] == j;
                                assert(rest[i - 1] == j);
                            }
                        }
                        assert(self.open@ =~= old(self).open@.restrict(rest.to_set()));
                        closed = closed + 1;
                    }
                },
                None => {},
            }
        }
        self.open.insert(key, file);
        self.order.push_back(key);
        proof {
            let kept = start.skip(closed);
            let now = kept.push(key);
            assert(forall|i: int| 0 <= i < kept.len() ==> kept[i] == start[i + closed]);
            assert(!start.contains(key));
            assert(now.no_duplicates());
            assert forall|k: FileKey| #[trigger] now.contains(k) <==> self.open@.contains_key(
                k,
            ) by {
                if now.contains(k) {
                    let i = choose|i: int| 0 <= i < now.len() && now[i] == k;
                    if i < kept.len() {
                        assert(kept[i] == k && start[i + closed] == k);
                        assert(kept.contains(k) && start.contains(k));
                    }
                }
                if self.open@.contains_key(k) {
                    if k == key {
                        assert(now[kept.len() as int] == k);
                    } else {
                        assert(kept.to_set().contains(k));
                        let i = choose|i: int| 0 <= i < kept.len() && kept[i] == k;
                        assert(now[i] == k);
                    }
                }
            }
        }
    }

    /// Closes all files but those that are to be kept.
    pub fn retain(&mut self, keep: &OrderedMap<FileId, ()>)
        requires
            old(self).sound(),
        ensures
            final(self).sound(),
            final(self).capacity() == old(self).capacity(),
            final(self).ages() == old(self).ages().filter(kept_key(keep@)),
            final(self).files() == old(self).files().restrict(
                Set::new(|k: FileKey| kept_key(keep@)(k)),
            ),
    {
        broadcast use vstd::std_specs::btree::group_btree_axioms;

        proof {
            lemma_ordered();
        }
        let mut order: VecDeque<FileKey> = VecDeque::new();
        let count: usize = self.order.len();
        let ghost start = self.order@;
        let ghost p = kept_key(keep@);
        let mut i: usize = 0;
        proof {
            reveal(Seq::filter);
            assert(start.take(0) =~= Seq::empty());
            assert(order@ =~= start.take(0).filter(p));
        }
        while i < count
            invariant
                i <= count == start.len(),
                start == old(self).order@,
                self.order@ == start,
                self.limit == old(self).limit,
                p == kept_key(keep@),
                start.no_duplicates(),
                order@.no_duplicates(),
                order@ == start.take(i as int).filter(p),
                forall|k: FileKey| #[trigger]
                    order@.contains(k) <==> start.take(i as int).contains(k) && p(k),
                self.open@ == old(self).open@.restrict(
                    Set::new(|k: FileKey| !(start.take(i as int).contains(k) && !p(k))),
                ),
            decreases count - i,
        {
            let k: FileKey = self.order[i];
            let ghost before = order@;
            let kept: bool = keep.contains_key(
                &FileId { table: k.0, generation: k.1, kind: k.2, segment: k.3 },
            );
            if kept {
                order.push_back(k);
            } else {
                self.open.remove(&k);
            }
            proof {
                let (a, b) = (start.take(i as int), start.take(i + 1));
                assert(b =~= a.push(k));
                assert(b.filter(p) == order@) by {
                    reveal(Seq::filter);
                    assert(b.drop_last() =~= a);
                }
                assert forall|j: FileKey| #[trigger] b.contains(j) <==> a.contains(j) || j == k by {
                    if a.contains(j) {
                        let n = choose|n: int| 0 <= n < a.len() && a[n] == j;
                        assert(b[n] == j);
                    }
                    if j == k {
                        assert(b[i as int] == j);
                    }
                    if b.contains(j) && j != k {
                        let n = choose|n: int| 0 <= n < b.len() && b[n] == j;
                        assert(a[n] == j);
                    }
                }
                assert(!a.contains(k));
                if kept {
                    assert forall|j: FileKey| #[trigger] order@.contains(j) <==> before.contains(j)
                        || j == k by {
                        if before.contains(j) {
                            let n = choose|n: int| 0 <= n < before.len() && before[n] == j;
                            assert(order@[n] == j);
                        }
                        if j == k {
                            assert(order@[before.len() as int] == j);
                        }
                    }
                    assert(!before.contains(k));
                }
                assert(self.open@ =~= old(self).open@.restrict(
                    Set::new(|j: FileKey| !(b.contains(j) && !p(j))),
                ));
            }
            i = i + 1;
        }
        self.order = order;
        proof {
            assert(start.take(count as int) =~= start);
            assert(self.open@ =~= old(self).open@.restrict(Set::new(|k: FileKey| p(k))));
        }
    }
}

/// Whether the file of a key is to be kept.
pub open spec fn kept_key(keep: Map<FileId, ()>) -> spec_fn(FileKey) -> bool {
    |k: FileKey|
        keep.contains_key(FileId { table: k.0, generation: k.1, kind: k.2, segment: k.3 })
}

} // verus!
