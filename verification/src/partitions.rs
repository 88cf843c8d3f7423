//! Disjoint immutable index partitions. A point lookup visits exactly one tree.

use crate::error::corrupt;
use crate::error::Error;
use crate::error::Result;
use crate::key::lemma_listing_is;
use crate::key::lemma_listing_map;
use crate::key::listing;
use crate::key::OrderedKey;
use crate::ordered_map::above;
use crate::ordered_map::within;
use crate::ordered_map::Bound;
use crate::ordered_map::OrderedMap;
use crate::snapshot::Root;
use crate::snapshot::RootV;
use crate::storage::heap;
use crate::storage::index::floor_at;
use crate::storage::index::floor_entry_of;
use crate::storage::index::leaf_asks;
use crate::storage::index::lookup_at;
use crate::storage::index::scan_asks;
use crate::storage::index::unread;
use crate::storage::index::lookup_of;
use crate::storage::index::scan_at;
use crate::storage::index::scan_of;
use crate::storage::index::tree_at;
use crate::storage::index::Entry;
use crate::storage::index::IndexCursor;
use crate::storage::index::Key;
use crate::storage::index::Stream;
use crate::storage::index::Value;
use crate::storage::pager::lacks;
use crate::storage::pager::FileId;
use crate::storage::pager::Files;
use crate::storage::pager::Loaded;
use vstd::prelude::*;

verus! {

/// The identifiers or versions that one partition covers.
pub const WIDTH: u64 = 1024;

/// Where a partition belongs: its table, its kind of index, and its lowest key.
#[derive(Clone, Copy, Debug, PartialEq, Eq, Structural)]
pub struct Route {
    /// The table.
    pub table: u64,
    /// 3 for the primary index, 4 for events, 5 for snapshots.
    pub kind: u8,
    /// The lowest key that the partition can hold, first word.
    pub low: u64,
    /// The lowest key that the partition can hold, second word.
    pub low_second: u64,
}

impl Route {
    /// The lowest key that the partition can hold.
    pub open spec fn lower(self) -> Key {
        (self.low, self.low_second)
    }
}

impl OrderedKey for Route {
    open spec fn before(self, other: Self) -> bool {
        self.table < other.table || (self.table == other.table && (self.kind < other.kind || (
        self.kind == other.kind && (self.low < other.low || (self.low == other.low
            && self.low_second < other.low_second)))))
    }

    proof fn order_laws() {
    }

    fn less(&self, other: &Self) -> (r: bool) {
        self.table < other.table || (self.table == other.table && (self.kind < other.kind || (
        self.kind == other.kind && (self.low < other.low || (self.low == other.low
            && self.low_second < other.low_second)))))
    }

    fn same(&self) -> (r: Self) {
        *self
    }
}

/// The lowest key of the partition that a key belongs to.
pub open spec fn bucket_of(kind: u8, key: Key) -> Key {
    if kind == 3 {
        ((key.0 / 1024 * 1024) as u64, 0)
    } else {
        (key.0, (key.1 / 1024 * 1024) as u64)
    }
}

/// The highest key that a partition can hold.
pub open spec fn end_of(kind: u8, lower: Key) -> Key {
    if kind == 3 {
        (
            if lower.0 + 1023 <= u64::MAX {
                (lower.0 + 1023) as u64
            } else {
                u64::MAX
            },
            u64::MAX,
        )
    } else {
        (
            lower.0,
            if lower.1 + 1023 <= u64::MAX {
                (lower.1 + 1023) as u64
            } else {
                u64::MAX
            },
        )
    }
}

/// The lowest key of the partition that a key belongs to.
pub fn bucket(kind: u8, key: Key) -> (lower: Key)
    ensures
        lower == bucket_of(kind, key),
{
    if kind == 3 {
        (key.0 / WIDTH * WIDTH, 0)
    } else {
        (key.0, key.1 / WIDTH * WIDTH)
    }
}

/// The highest key that a partition can hold.
pub fn end(kind: u8, lower: Key) -> (upper: Key)
    ensures
        upper == end_of(kind, lower),
{
    if kind == 3 {
        (
            if lower.0 <= u64::MAX - (WIDTH - 1) {
                lower.0 + (WIDTH - 1)
            } else {
                u64::MAX
            },
            u64::MAX,
        )
    } else {
        (
            lower.0,
            if lower.1 <= u64::MAX - (WIDTH - 1) {
                lower.1 + (WIDTH - 1)
            } else {
                u64::MAX
            },
        )
    }
}

/// What holds of a number and the start of its partition.
proof fn lemma_round(x: u64, y: u64)
    ensures
        x / WIDTH * WIDTH <= x,
        x - x / WIDTH * WIDTH < WIDTH,
        (x / WIDTH * WIDTH) as u64 / WIDTH == x / WIDTH,
        (x / WIDTH == y / WIDTH) <==> (x / WIDTH * WIDTH <= y && y - x / WIDTH * WIDTH < WIDTH),
{
}

/// A key lies in its partition and in no other: two keys share a partition exactly if the one
/// lies within the ends of the other's.
#[verifier::spinoff_prover]
pub proof fn lemma_bucket(kind: u8, a: Key, b: Key)
    ensures
        !a.before(bucket_of(kind, a)),
        !end_of(kind, bucket_of(kind, a)).before(a),
        bucket_of(kind, bucket_of(kind, a)) == bucket_of(kind, a),
        bucket_of(kind, a) == bucket_of(kind, b) <==> (!b.before(bucket_of(kind, a)) && !end_of(
            kind,
            bucket_of(kind, a),
        ).before(b)),
{
    if kind == 3 {
        lemma_round(a.0, b.0);
    } else {
        lemma_round(a.1, b.1);
    }
}

/// Partitions keep the order of the keys in them.
pub proof fn lemma_bucket_order(kind: u8, a: Key, b: Key)
    requires
        !b.before(a),
    ensures
        !bucket_of(kind, b).before(bucket_of(kind, a)),
{
}

/// One tree of an index.
pub struct Partition {
    /// The file that holds the tree.
    pub file: FileId,
    /// The sequence number that its pages carry.
    pub lsn: u64,
    /// The first page of the tree.
    pub base: u64,
    /// Its first key.
    pub first: Key,
    /// Its last key.
    pub last: Key,
    /// The slot as its tree encodes it -> this manifest's slot.
    pub slots: OrderedMap<u8, u8>,
    /// The history files that its entries point into.
    pub dependencies: OrderedMap<FileId, ()>,
}

/// What a partition stands for.
pub struct PartV {
    /// The file that holds the tree.
    pub file: FileId,
    /// The sequence number that its pages carry.
    pub lsn: u64,
    /// The first page of the tree.
    pub base: u64,
    /// Its first key.
    pub first: Key,
    /// Its last key.
    pub last: Key,
    /// Slots of the entries by slots of the manifest.
    pub slots: Map<u8, u8>,
    /// The history files that its entries point into.
    pub dependencies: Map<FileId, ()>,
}

impl View for Partition {
    type V = PartV;

    open spec fn view(&self) -> PartV {
        PartV {
            file: self.file,
            lsn: self.lsn,
            base: self.base,
            first: self.first,
            last: self.last,
            slots: self.slots@,
            dependencies: self.dependencies@,
        }
    }
}

impl Clone for Partition {
    fn clone(&self) -> (copy: Self)
        ensures
            copy@ == self@,
    {
        Partition {
            file: self.file,
            lsn: self.lsn,
            base: self.base,
            first: self.first,
            last: self.last,
            slots: self.slots.clone(),
            dependencies: self.dependencies.clone(),
        }
    }
}

// ---- Primary entries ----

/// The generation slot of a locator.
pub open spec fn slot_of(locator: u64) -> u8 {
    (locator >> 56) as u8
}

/// The location in a file that a locator gives.
pub open spec fn place_in(locator: u64) -> u64 {
    locator & 0xff_ffff_ffff_ffff
}

/// The generation slot that the locators of a primary entry share.
pub open spec fn shared_slot(v: Value) -> Option<u8> {
    if slot_of(v.0) == slot_of(v.1) {
        Some(slot_of(v.0))
    } else {
        None
    }
}

/// A primary entry with another generation slot.
pub open spec fn remapped(v: Value, slot: u8) -> Value {
    (((slot as u64) << 56) | place_in(v.0), ((slot as u64) << 56) | place_in(v.1))
}

/// Reads the generation slot shared by the locators of a primary-index entry.
pub fn entity_slot(value: Value) -> (r: Result<u8>)
    ensures
        match r {
            Ok(slot) => shared_slot(value) == Some(slot),
            Err(e) => shared_slot(value) is None && e is Corrupt,
        },
{
    let (slot, _) = heap::split(value.0);
    let (base, _) = heap::split(value.1);
    if slot != base {
        return Err(corrupt("entity state and base disagree on their generation"));
    }
    Ok(slot)
}

/// Rewrites the generation slot of a primary-index entry for a new manifest.
pub fn remap(value: Value, slot: u8) -> (r: Value)
    ensures
        r == remapped(value, slot),
{
    let (_, current) = heap::split(value.0);
    let (_, base) = heap::split(value.1);
    (heap::locate(slot, current), heap::locate(slot, base))
}

/// A rewritten entry has the new slot and the old places.
pub proof fn lemma_remapped(v: Value, slot: u8)
    ensures
        shared_slot(remapped(v, slot)) == Some(slot),
        place_in(remapped(v, slot).0) == place_in(v.0),
        place_in(remapped(v, slot).1) == place_in(v.1),
{
    heap::lemma_split(v.0);
    heap::lemma_split(v.1);
    heap::lemma_locator(slot, place_in(v.0));
    heap::lemma_locator(slot, place_in(v.1));
}

/// What an entry of a partition means under its manifest.
pub open spec fn translated(p: PartV, v: Value) -> Option<Value> {
    if p.file.kind != 3 {
        Some(v)
    } else {
        match shared_slot(v) {
            None => None,
            Some(slot) => if p.slots.contains_key(slot) {
                Some(remapped(v, p.slots[slot]))
            } else {
                None
            },
        }
    }
}

impl Partition {
    /// What an entry of this partition means under its manifest.
    pub fn translate(&self, value: Value) -> (r: Result<Value>)
        ensures
            match r {
                Ok(v) => translated(self@, value) == Some(v),
                Err(e) => translated(self@, value) is None && e is Corrupt,
            },
    {
        if self.file.kind != 3 {
            return Ok(value);
        }
        let slot: u8 = entity_slot(value)?;
        match self.slots.get(&slot) {
            Some(to) => Ok(remap(value, *to)),
            None => Err(corrupt("unmapped primary partition slot")),
        }
    }
}

// ---- What partitions hold ----

/// The route of a key.
pub open spec fn route_of(table: u64, kind: u8, key: Key) -> Route {
    let low = bucket_of(kind, key);
    Route { table, kind, low: low.0, low_second: low.1 }
}

/// The bytes of a partition's tree.
pub open spec fn tree_of(files: Files, p: PartV) -> Seq<u8> {
    tree_at(files[p.file], p.base)
}

/// The value under a key of an index.
#[verifier::opaque]
pub open spec fn index_lookup(r: RootV, files: Files, table: u64, kind: u8, key: Key) -> Option<
    Option<Value>,
> {
    let at = route_of(table, kind, key);
    if r.partitions.contains_key(at) {
        let p = r.partitions[at];
        match lookup_of(tree_of(files, p), p.lsn, key) {
            None => None,
            Some(None) => Some(None),
            Some(Some(v)) => match translated(p, v) {
                None => None,
                Some(v) => Some(Some(v)),
            },
        }
    } else {
        Some(None)
    }
}

/// Whether looking a key of an index up needs what a request names.
#[verifier::opaque]
pub open spec fn lookup_asks(
    r: RootV,
    files: Files,
    table: u64,
    kind: u8,
    key: Key,
    e: Error,
) -> bool {
    let at = route_of(table, kind, key);
    let p = r.partitions[at];
    r.partitions.contains_key(at) && leaf_asks(files, p.file, p.base, p.lsn, key, e)
}

/// Whether looking for the last key that does not come after a key needs what a request names,
/// from the last partition to the first.
pub open spec fn floor_over_asks(files: Files, parts: Seq<PartV>, key: Key, e: Error) -> bool
    decreases parts.len(),
{
    parts.len() > 0 && ({
        let p = parts.last();
        ||| leaf_asks(files, p.file, p.base, p.lsn, key, e)
        ||| floor_entry_of(tree_of(files, p), p.lsn, key) == Some(None::<Entry>)
            && floor_over_asks(files, parts.drop_last(), key, e)
    })
}

/// Whether looking for the last key of an index that does not come after a key needs what a
/// request names.
#[verifier::opaque]
pub open spec fn floor_asks(
    r: RootV,
    files: Files,
    table: u64,
    kind: u8,
    key: Key,
    e: Error,
) -> bool {
    floor_over_asks(
        files,
        parts_between(
            r,
            Route { table, kind, low: 0, low_second: 0 },
            route_of(table, kind, key),
        ),
        key,
        e,
    )
}

/// Whether a scan of partitions needs what a request names.
pub open spec fn scan_over_asks(
    files: Files,
    parts: Seq<PartV>,
    lower: Key,
    upper: Key,
    e: Error,
) -> bool
    decreases parts.len(),
{
    parts.len() > 0 && ({
        let p = parts[0];
        ||| scan_asks(files, p.file, p.base, p.lsn, lower, upper, e)
        ||| scan_over_asks(files, parts.skip(1), lower, upper, e)
    })
}

/// Whether a scan of an index between two keys needs what a request names.
#[verifier::opaque]
pub open spec fn range_asks(
    r: RootV,
    files: Files,
    table: u64,
    kind: u8,
    lower: Key,
    upper: Key,
    e: Error,
) -> bool {
    scan_over_asks(files, scan_parts(r, table, kind, lower, upper), lower, upper, e)
}

/// The partitions of an index between two routes, in order.
pub open spec fn parts_between(r: RootV, from: Route, to: Route) -> Seq<PartV> {
    listing(r.partitions).filter(between_routes(from, to)).map_values(|e: (Route, PartV)| e.1)
}

/// Whether a partition lies between two routes.
pub open spec fn between_routes(from: Route, to: Route) -> spec_fn((Route, PartV)) -> bool {
    |e: (Route, PartV)| !e.0.before(from) && !to.before(e.0)
}

/// The entry with the last key that does not come after a key, in the last of the partitions
/// that has one.
pub open spec fn floor_over(files: Files, parts: Seq<PartV>, key: Key) -> Option<Option<Entry>>
    decreases parts.len(),
{
    if parts.len() == 0 {
        Some(None)
    } else {
        let p = parts.last();
        match floor_entry_of(tree_of(files, p), p.lsn, key) {
            None => None,
            Some(None) => floor_over(files, parts.drop_last(), key),
            Some(Some((k, v))) => match translated(p, v) {
                None => None,
                Some(v) => Some(Some((k, v))),
            },
        }
    }
}

/// The entry of an index with the last key that does not come after a key.
#[verifier::opaque]
pub open spec fn index_floor(r: RootV, files: Files, table: u64, kind: u8, key: Key) -> Option<
    Option<Entry>,
> {
    floor_over(
        files,
        parts_between(
            r,
            Route { table, kind, low: 0, low_second: 0 },
            route_of(table, kind, key),
        ),
        key,
    )
}

/// Entries with what they mean, up to one that means nothing.
pub open spec fn translated_all(p: PartV, items: Seq<Entry>) -> Stream
    decreases items.len(),
{
    if items.len() == 0 {
        Stream { items: Seq::empty(), sound: true }
    } else {
        match translated(p, items[0].1) {
            None => Stream { items: Seq::empty(), sound: false },
            Some(v) => {
                let more = translated_all(p, items.skip(1));
                Stream { items: seq![(items[0].0, v)] + more.items, sound: more.sound }
            },
        }
    }
}

/// A stream with what its entries mean.
pub open spec fn through(p: PartV, st: Stream) -> Stream {
    let t = translated_all(p, st.items);
    Stream { items: t.items, sound: t.sound && st.sound }
}

/// One stream and, if it ends well, another.
pub open spec fn joined(a: Stream, b: Stream) -> Stream {
    if a.sound {
        Stream { items: a.items + b.items, sound: b.sound }
    } else {
        a
    }
}

/// The entries of one partition between two keys.
pub open spec fn part_stream(files: Files, p: PartV, lower: Key, upper: Key) -> Stream {
    match scan_of(tree_of(files, p), p.lsn, lower, upper) {
        None => Stream { items: Seq::empty(), sound: false },
        Some(st) => through(p, st),
    }
}

/// The entries of partitions between two keys.
pub open spec fn scan_over(files: Files, parts: Seq<PartV>, lower: Key, upper: Key) -> Stream
    decreases parts.len(),
{
    if parts.len() == 0 {
        Stream { items: Seq::empty(), sound: true }
    } else {
        joined(
            part_stream(files, parts[0], lower, upper),
            scan_over(files, parts.skip(1), lower, upper),
        )
    }
}

/// The partitions that a scan goes through.
pub open spec fn scan_parts(r: RootV, table: u64, kind: u8, lower: Key, upper: Key) -> Seq<PartV> {
    if upper.before(lower) {
        Seq::empty()
    } else {
        parts_between(r, route_of(table, kind, lower), route_of(table, kind, upper))
    }
}

/// The entries of an index between two keys.
#[verifier::opaque]
pub open spec fn index_scan(
    r: RootV,
    files: Files,
    table: u64,
    kind: u8,
    lower: Key,
    upper: Key,
) -> Stream {
    scan_over(files, scan_parts(r, table, kind, lower, upper), lower, upper)
}

/// What references to partitions stand for.
pub open spec fn views(parts: Seq<&Partition>) -> Seq<PartV> {
    parts.map_values(|p: &Partition| p@)
}

fn route(table: u64, kind: u8, key: Key) -> (at: Route)
    ensures
        at == route_of(table, kind, key),
{
    let low = bucket(kind, key);
    Route { table, kind, low: low.0, low_second: low.1 }
}

proof fn lemma_views(s: Seq<(Route, Partition)>, from: Route, to: Route)
    ensures
        s.filter(
            |e: (Route, Partition)| above(Bound::Included(from), e.0) && within(
                Bound::Included(to),
                e.0,
            ),
        ).map_values(|e: (Route, Partition)| (e.0, e.1@)) == s.map_values(
            |e: (Route, Partition)| (e.0, e.1@),
        ).filter(between_routes(from, to)),
    decreases s.len(),
{
    let p = |e: (Route, Partition)|
        above(Bound::Included(from), e.0) && within(Bound::Included(to), e.0);
    let f = |e: (Route, Partition)| (e.0, e.1@);
    let q = between_routes(from, to);
    reveal(Seq::filter);
    if s.len() > 0 {
        let t = s.drop_last();
        lemma_views(t, from, to);
        assert(s.map_values(f).drop_last() =~= t.map_values(f));
        assert(s.map_values(f).last() == f(s.last()));
        if p(s.last()) {
            assert(t.filter(p).push(s.last()).map_values(f) =~= t.filter(p).map_values(f).push(
                f(s.last()),
            ));
        }
    } else {
        assert(s.filter(p).map_values(f) =~= s.map_values(f).filter(q));
    }
}

impl Root {
    /// The partitions between two routes.
    fn parts(&self, from: Route, to: Route) -> (parts: Vec<&Partition>)
        ensures
            views(parts@) == parts_between(self@, from, to),
    {
        let mut range = self.partitions.range(Bound::Included(from), Bound::Included(to));
        let ghost f = |p: Partition| p@;
        let ghost g = |e: (Route, Partition)| (e.0, e.1@);
        let ghost all = range.remaining();
        proof {
            let s = self.partitions.entries();
            lemma_views(s, from, to);
            lemma_listing_map(s, self.partitions@, f);
            assert(s.map_values(|e: (Route, Partition)| (e.0, f(e.1))) =~= s.map_values(g));
            assert(self.partitions@.map_values(f) =~= self@.partitions);
            lemma_listing_is(s.map_values(g), self@.partitions);
        }
        let mut parts: Vec<&Partition> = Vec::new();
        proof {
            assert(views(parts@) =~= Seq::empty());
            assert(Seq::<PartV>::empty() + all.map_values(|e: (Route, Partition)| e.1@)
                =~= all.map_values(|e: (Route, Partition)| e.1@));
        }
        loop
            invariant
                views(parts@) + range.remaining().map_values(|e: (Route, Partition)| e.1@)
                    == all.map_values(|e: (Route, Partition)| e.1@),
                all.map_values(g) == listing(self@.partitions).filter(between_routes(from, to)),
                g == (|e: (Route, Partition)| (e.0, e.1@)),
            decreases range.remaining().len(),
        {
            let ghost before = range.remaining();
            match range.next() {
                None => {
                    proof {
                        assert(views(parts@) =~= all.map_values(|e: (Route, Partition)| e.1@));
                        assert(all.map_values(|e: (Route, Partition)| e.1@) =~= all.map_values(
                            g,
                        ).map_values(|e: (Route, PartV)| e.1));
                    }
                    return parts;
                },
                Some((k, v)) => {
                    let ghost old_parts = parts@;
                    parts.push(v);
                    proof {
                        let h = |e: (Route, Partition)| e.1@;
                        assert(before.map_values(h) =~= seq![v@] + range.remaining().map_values(h));
                        assert(views(parts@) =~= views(old_parts).push(v@));
                        assert(views(old_parts) + (seq![v@] + range.remaining().map_values(h))
                            =~= views(parts@) + range.remaining().map_values(h));
                    }
                },
            }
        }
    }

    /// The value under a key of an index.
    pub fn lookup_index(&self, loaded: &Loaded, table: u64, kind: u8, key: Key) -> (r: Result<
        Option<Value>,
    >)
        ensures
            match r {
                Ok(v) => forall|files: Files| #[trigger]
                    loaded.agrees(files) ==> index_lookup(self@, files, table, kind, key) == Some(
                        v,
                    ),
                Err(e) => lacks(loaded, e) && (forall|files: Files| #[trigger]
                    loaded.agrees(files) ==> lookup_asks(self@, files, table, kind, key, e)) || e
                    is Corrupt && forall|files: Files| #[trigger]
                    loaded.agrees(files) ==> index_lookup(self@, files, table, kind, key) is None,
            },
    {
        proof {
            reveal(index_lookup);
            reveal(lookup_asks);
        }
        match self.partitions.get(&route(table, kind, key)) {
            None => Ok(None),
            Some(part) => {
                match lookup_at(loaded, part.file, part.lsn, part.base, key)? {
                    None => Ok(None),
                    Some(value) => Ok(Some(part.translate(value)?)),
                }
            },
        }
    }

    /// The entry of an index with the last key that does not come after a key.
    pub fn floor_index(&self, loaded: &Loaded, table: u64, kind: u8, key: Key) -> (r: Result<
        Option<Entry>,
    >)
        ensures
            match r {
                Ok(v) => forall|files: Files| #[trigger]
                    loaded.agrees(files) ==> index_floor(self@, files, table, kind, key) == Some(v),
                Err(e) => lacks(loaded, e) && (forall|files: Files| #[trigger]
                    loaded.agrees(files) ==> floor_asks(self@, files, table, kind, key, e)) || e
                    is Corrupt && forall|files: Files| #[trigger]
                    loaded.agrees(files) ==> index_floor(self@, files, table, kind, key) is None,
            },
    {
        proof {
            reveal(index_floor);
            reveal(floor_asks);
        }
        let from = Route { table, kind, low: 0, low_second: 0 };
        let to = route(table, kind, key);
        let parts = self.parts(from, to);
        let ghost all = views(parts@);
        let mut left: usize = parts.len();
        proof {
            assert(all.take(left as int) =~= all);
        }
        while left > 0
            invariant
                left <= parts@.len(),
                all == views(parts@),
                all == parts_between(self@, from, to),
                from == (Route { table, kind, low: 0, low_second: 0 }),
                to == route_of(table, kind, key),
                forall|files: Files| #[trigger]
                    loaded.agrees(files) ==> index_floor(self@, files, table, kind, key)
                        == floor_over(files, all.take(left as int), key),
                forall|files: Files, e: Error|
                    #![trigger loaded.agrees(files), floor_asks(self@, files, table, kind, key, e)]
                    loaded.agrees(files) && floor_over_asks(files, all.take(left as int), key, e)
                        ==> floor_asks(self@, files, table, kind, key, e),
            decreases left,
        {
            let part = parts[left - 1];
            proof {
                assert(all.take(left as int).last() == part@);
                assert(all.take(left as int).drop_last() =~= all.take(left - 1));
            }
            match floor_at(loaded, part.file, part.lsn, part.base, key)? {
                Some((k, v)) => {
                    return Ok(Some((k, part.translate(v)?)));
                },
                None => {},
            }
            left = left - 1;
        }
        Ok(None)
    }
}

/// A scan through the partitions of an index.
pub struct Scan<'a> {
    parts: Vec<&'a Partition>,
    at: usize,
    current: Option<IndexCursor>,
    lower: Key,
    upper: Key,
    failed: bool,
}

impl<'a> Scan<'a> {
    /// Whether the scan is at one of its partitions.
    pub closed spec fn sound(self) -> bool {
        &&& self.at <= self.parts@.len()
        &&& self.current is Some ==> {
            &&& self.at < self.parts@.len()
            &&& self.current.unwrap().sound()
            &&& self.current.unwrap().source() == self.parts@[self.at as int].file
            &&& self.current.unwrap().start() == self.parts@[self.at as int].base
        }
    }

    /// What is still to come.
    pub closed spec fn remaining(self, files: Files) -> Stream {
        let all = views(self.parts@);
        if self.failed {
            Stream { items: Seq::empty(), sound: true }
        } else if let Some(cursor) = self.current {
            let p = all[self.at as int];
            joined(
                through(p, cursor.remaining(tree_of(files, p))),
                scan_over(files, all.skip(self.at + 1), self.lower, self.upper),
            )
        } else {
            scan_over(files, all.skip(self.at as int), self.lower, self.upper)
        }
    }

    /// Whether what is still to come needs what a request names.
    pub closed spec fn asks(self, files: Files, e: Error) -> bool {
        let all = views(self.parts@);
        !self.failed && if let Some(cursor) = self.current {
            ||| cursor.asks(files, e)
            ||| scan_over_asks(files, all.skip(self.at + 1), self.lower, self.upper, e)
        } else {
            scan_over_asks(files, all.skip(self.at as int), self.lower, self.upper, e)
        }
    }

    /// The next entry. A failed scan has none; one that only lacks a part of a file in memory
    /// goes on from where it is.
    pub fn next(&mut self, loaded: &Loaded) -> (r: Option<Result<Entry>>)
        requires
            old(self).sound(),
        ensures
            final(self).sound(),
            match r {
                Some(Ok(e)) => forall|files: Files| #[trigger]
                    loaded.agrees(files) ==> {
                        let was = old(self).remaining(files);
                        let is = final(self).remaining(files);
                        was.items == seq![e] + is.items && was.sound == is.sound && forall|x: Error|
                            #[trigger]
                            final(self).asks(files, x) ==> old(self).asks(files, x)
                    },
                Some(Err(e)) => if lacks(loaded, e) {
                    forall|files: Files| #[trigger]
                        loaded.agrees(files) ==> old(self).asks(files, e) && (forall|x: Error|
                            #[trigger]
                            final(self).asks(files, x) ==> old(self).asks(files, x)) && final(self).remaining(files) == old(self).remaining(files)
                } else {
                    e is Corrupt && forall|files: Files| #[trigger]
                        loaded.agrees(files) ==> {
                            let was = old(self).remaining(files);
                            was.items.len() == 0 && !was.sound
                        }
                },
                None => forall|files: Files| #[trigger]
                    loaded.agrees(files) ==> {
                        let was = old(self).remaining(files);
                        was.items.len() == 0 && was.sound
                    },
            },
    {
        if self.failed {
            return None;
        }
        let ghost all = views(self.parts@);
        loop
            invariant
                self.sound(),
                !self.failed,
                all == views(self.parts@),
                forall|files: Files| #[trigger]
                    loaded.agrees(files) ==> self.remaining(files) == old(self).remaining(files),
                forall|files: Files, x: Error|
                    #![trigger loaded.agrees(files), old(self).asks(files, x)]
                    #![trigger loaded.agrees(files), self.asks(files, x)]
                    loaded.agrees(files) && self.asks(files, x) ==> old(self).asks(files, x),
            decreases self.parts@.len() - self.at, (if self.current is Some { 0int } else { 1int }),
        {
            let ghost whole = *self;
            let mut current: Option<IndexCursor> = None;
            std::mem::swap(&mut current, &mut self.current);
            match current {
                None => {
                    if self.at == self.parts.len() {
                        assert(all.skip(self.at as int) =~= Seq::empty());
                        return None;
                    }
                    let part = self.parts[self.at];
                    proof {
                        let rest = all.skip(self.at as int);
                        assert(rest[0] == part@);
                        assert(rest.skip(1) =~= all.skip(self.at + 1));
                    }
                    match scan_at(
                        loaded,
                        part.file,
                        part.lsn,
                        part.base,
                        self.lower,
                        self.upper,
                    ) {
                        Ok(cursor) => {
                            self.current = Some(cursor);
                            proof {
                                assert forall|files: Files, x: Error|
                                    loaded.agrees(files) && #[trigger] self.asks(
                                        files,
                                        x,
                                    ) implies old(self).asks(files, x) by {
                                    assert(whole.asks(files, x));
                                }
                            }
                        },
                        Err(e) => {
                            proof {
                                if unread(loaded, part.file, e) {
                                    assert forall|files: Files| #[trigger]
                                        loaded.agrees(files) implies old(self).asks(files, e) by {
                                        assert(whole.asks(files, e));
                                    }
                                }
                            }
                            match e {
                                Error::Unread { file: f, offset, length } => {},
                                _ => {
                                    self.failed = true;
                                },
                            }
                            return Some(Err(e));
                        },
                    }
                },
                Some(cursor) => {
                    let mut cursor = cursor;
                    let ghost before = cursor;
                    let part = self.parts[self.at];
                    let ghost p = part@;
                    assert(all[self.at as int] == p);
                    match cursor.next(loaded) {
                        None => {
                            let count: usize = self.parts.len();
                            assert(self.at < count);
                            self.at = self.at + 1;
                            proof {
                                assert forall|files: Files| #[trigger]
                                    loaded.agrees(files) implies self.remaining(files) == old(self).remaining(files) by {
                                    let st = before.remaining(tree_of(files, p));
                                    assert(st.items =~= Seq::empty());
                                    let rest = scan_over(
                                        files,
                                        all.skip(self.at as int),
                                        self.lower,
                                        self.upper,
                                    );
                                    assert(Seq::<Entry>::empty() + rest.items =~= rest.items);
                                }
                                assert forall|files: Files, x: Error|
                                    loaded.agrees(files) && #[trigger] self.asks(
                                        files,
                                        x,
                                    ) implies old(self).asks(files, x) by {
                                    assert(whole.asks(files, x));
                                }
                            }
                        },
                        Some(Err(e)) => {
                            match e {
                                Error::Unread { file: f, offset, length } => {
                                    self.current = Some(cursor);
                                    proof {
                                        assert forall|files: Files, x: Error|
                                            loaded.agrees(files) && #[trigger] self.asks(
                                                files,
                                                x,
                                            ) implies old(self).asks(files, x) by {
                                            assert(cursor.asks(files, x) ==> before.asks(files, x));
                                            assert(whole.asks(files, x));
                                        }
                                        assert forall|files: Files| #[trigger]
                                            loaded.agrees(files) implies old(self).asks(
                                            files,
                                            e,
                                        ) by {
                                            assert(whole.asks(files, e));
                                        }
                                    }
                                },
                                _ => {
                                    self.failed = true;
                                    proof {
                                        assert forall|files: Files| #[trigger]
                                            loaded.agrees(files) implies ({
                                            let was = old(self).remaining(files);
                                            was.items.len() == 0 && !was.sound
                                        }) by {
                                            let st = before.remaining(tree_of(files, p));
                                            assert(st.items =~= Seq::empty());
                                        }
                                    }
                                },
                            }
                            return Some(Err(e));
                        },
                        Some(Ok((k, v))) => {
                            proof {
                                assert forall|files: Files| #[trigger]
                                    loaded.agrees(files) implies translated_all(
                                    p,
                                    before.remaining(tree_of(files, p)).items,
                                ) == (match translated(p, v) {
                                    None => Stream { items: Seq::empty(), sound: false },
                                    Some(w) => {
                                        let more = translated_all(
                                            p,
                                            cursor.remaining(tree_of(files, p)).items,
                                        );
                                        Stream {
                                            items: seq![(k, w)] + more.items,
                                            sound: more.sound,
                                        }
                                    },
                                }) by {
                                    let was = before.remaining(tree_of(files, p)).items;
                                    let is = cursor.remaining(tree_of(files, p)).items;
                                    assert(was == seq![(k, v)] + is);
                                    assert(was[0] == (k, v));
                                    assert(was.skip(1) =~= is);
                                }
                            }
                            match part.translate(v) {
                                Err(e) => {
                                    self.failed = true;
                                    return Some(Err(e));
                                },
                                Ok(w) => {
                                    self.current = Some(cursor);
                                    proof {
                                        assert forall|files: Files, x: Error|
                                            loaded.agrees(files) && #[trigger] self.asks(
                                                files,
                                                x,
                                            ) implies old(self).asks(files, x) by {
                                            assert(cursor.asks(files, x) ==> before.asks(files, x));
                                            assert(whole.asks(files, x));
                                        }
                                        assert forall|files: Files| #[trigger]
                                            loaded.agrees(files) implies ({
                                            let was = old(self).remaining(files);
                                            let is = self.remaining(files);
                                            was.items == seq![(k, w)] + is.items && was.sound
                                                == is.sound
                                        }) by {
                                            let was = old(self).remaining(files);
                                            let is = self.remaining(files);
                                            assert(was.items =~= seq![(k, w)] + is.items);
                                        }
                                    }
                                    return Some(Ok((k, w)));
                                },
                            }
                        },
                    }
                },
            }
        }
    }
}

impl Root {
    /// Starts a scan of an index between two keys.
    pub fn scan_index(&self, table: u64, kind: u8, lower: Key, upper: Key) -> (scan: Scan<'_>)
        ensures
            scan.sound(),
            forall|files: Files| #[trigger]
                scan.remaining(files) == index_scan(self@, files, table, kind, lower, upper),
            forall|files: Files, e: Error| #[trigger]
                scan.asks(files, e) == range_asks(self@, files, table, kind, lower, upper, e),
    {
        let parts: Vec<&Partition> = if upper.less(&lower) {
            Vec::new()
        } else {
            self.parts(route(table, kind, lower), route(table, kind, upper))
        };
        let scan = Scan { parts, at: 0, current: None, lower, upper, failed: false };
        proof {
            reveal(index_scan);
            reveal(range_asks);
            assert(views(scan.parts@) =~= scan_parts(self@, table, kind, lower, upper));
            assert(views(scan.parts@).skip(0) =~= views(scan.parts@));
        }
        scan
    }
}

} // verus!
