//! Writing the files of a table in a checkpoint.

use crate::copying::Step;
use crate::copying::history_steps;
use crate::copying::plan_history;
use crate::copying::history_asks;
use crate::copying::planned_to;
use crate::copying::steps_view;
use crate::copying::Copying;
use crate::copying::StepV;
use crate::entity::DataV;
use crate::entity::EntityData;
use crate::error::corrupt;
use crate::error::invalid;
use crate::error::Error;
use crate::error::Fault;
use crate::error::Outcome;
use crate::error::Result;
use crate::history::event_location;
use crate::history::event_split;
use crate::history::lemma_event_location;
use crate::history::offset_of;
use crate::history::pack;
use crate::history::packed;
use crate::history::segment_of;
use crate::checksum::crc;
use crate::checksum::crc32c;
use crate::history::lemma_packed;
use crate::indexes::built;
use crate::indexes::lemma_built;
use crate::indexes::find_file;
use crate::indexes::Indexes;
use crate::key::increasing;
use crate::key::lemma_filter_map;
use crate::keeping::finished_as;
use crate::key::lemma_listing_is;
use crate::key::lemma_listing_len;
use crate::key::lemma_listing_map;
use crate::key::listing;
use crate::key::lists;
use crate::key::OrderedKey;
use crate::model::Entity;
use crate::model::EntityV;
use crate::model::Event;
use crate::model::EventV;
use crate::ordered_map::above;
use crate::ordered_map::within;
use crate::ordered_map::Bound;
use crate::ordered_map::OrderedMap;
use crate::partitions::between_routes;
use crate::partitions::index_lookup;
use crate::partitions::route_of;
use crate::partitions::place_in;
use crate::partitions::remapped;
use crate::partitions::shared_slot;
use crate::partitions::PartV;
use crate::partitions::Partition;
use crate::partitions::Route;
use crate::reading::current_in;
use crate::reading::event_in;
use crate::reading::located;
use crate::reading::snapshot_in;
use crate::reading::state_in;
use crate::record::enc_entity;
use crate::record::enc_event;
use crate::record::encode_entity;
use crate::record::encodable_fields;
use crate::record::encode_event;
use crate::record::lemma_entity;
use crate::record::lemma_event;
use crate::snapshot::empty_root;
use crate::indexes::historic;
use crate::indexes::info_of;
use crate::snapshot::listed;
use crate::snapshot::FileInfo;
use crate::snapshot::Root;
use crate::snapshot::RootV;
use crate::snapshot::MAX_SLOTS;
use crate::storage::frame;
use crate::storage::frame::enc_frame;
use crate::storage::frame::lemma_frame;
use crate::storage::frame::FrameV;
use crate::codec::MAX_FRAME;
use crate::codec::MAX_RECORD;
use crate::storage::heap::heap_record;
use crate::storage::heap::heap_slot;
use crate::storage::heap::lemma_locator;
use crate::storage::heap::lemma_split;
use crate::storage::heap::locate;
use crate::storage::heap::HeapWriter;
use crate::storage::heap::PAGE_LIMIT;
use crate::storage::index::Entry;
use crate::storage::index::Key;
use crate::storage::index::Value;
use crate::storage::pager::FileId;
use crate::storage::pager::Files;
use crate::storage::pager::Loaded;
use vstd::prelude::*;

verus! {

// ---- What is written ----

/// Something that a checkpoint keeps of a table.
pub enum Item {
    /// An entity, with its current and its oldest state.
    Entity { id: u64, current: EntityV, base: EntityV },
    /// An entity that stays in its generation, by its locators.
    Carried { id: u64, value: Value },
    /// A snapshot.
    Snapshot { id: u64, state: EntityV },
    /// An event.
    Event { id: u64, event: EventV },
    /// History that stays in its generation, as a manifest has it.
    Link { kind: u8, key: Key, value: Value, from: RootV },
    /// An index partition that is taken over from a manifest.
    Part { route: Route, part: PartV, from: RootV },
}

/// The manifest that an item is taken over from.
pub open spec fn source(item: Item) -> RootV {
    match item {
        Item::Link { from, .. } => from,
        Item::Part { from, .. } => from,
        _ => empty_root(),
    }
}

/// The files of other generations that an item leads to: the one that a link points into, and
/// those that a partition depends on.
pub open spec fn needed(table: u64, item: Item) -> spec_fn(FileId) -> bool {
    match item {
        Item::Link { kind, value, .. } => |f: FileId| f == link_file(table, kind, value),
        Item::Part { part, .. } => |f: FileId| part.dependencies.contains_key(f),
        _ => |f: FileId| false,
    }
}

/// File references with those of more files, as a manifest lists them.
pub open spec fn note(m: Map<FileId, FileInfo>, r: RootV, need: spec_fn(FileId) -> bool) -> Map<
    FileId,
    FileInfo,
> {
    Map::new(
        |f: FileId| m.contains_key(f) || need(f),
        |f: FileId|
            if m.contains_key(f) {
                m[f]
            } else {
                info_of(r.files, f).unwrap()
            },
    )
}

/// Whether a file of a generation is needed that was not noted before.
pub open spec fn brings(m: Map<FileId, FileInfo>, need: spec_fn(FileId) -> bool, g: u64) -> bool {
    exists|f: FileId| #[trigger] need(f) && !m.contains_key(f) && f.generation == g
}

/// Sequence numbers of generations with those of more files, as a manifest has them.
pub open spec fn number(
    q: Map<u64, u64>,
    m: Map<FileId, FileInfo>,
    r: RootV,
    need: spec_fn(FileId) -> bool,
) -> Map<u64, u64> {
    Map::new(
        |g: u64| q.contains_key(g) || brings(m, need, g),
        |g: u64|
            if brings(m, need, g) {
                r.history_generations[g]
            } else {
                q[g]
            },
    )
}

/// Whether a manifest has what there is to note of the files that are needed.
pub open spec fn known(m: Map<FileId, FileInfo>, r: RootV, need: spec_fn(FileId) -> bool) -> bool {
    forall|f: FileId| #[trigger]
        need(f) && !m.contains_key(f) ==> listed(r.files, f) && r.history_generations.contains_key(
            f.generation,
        )
}

/// Whether each of several items is taken over from a manifest that has what there is to note.
pub open spec fn known_all(m: Map<FileId, FileInfo>, table: u64, items: Seq<Item>) -> bool
    decreases items.len(),
{
    items.len() > 0 ==> known_all(m, table, items.drop_last()) && known(
        note_all(m, table, items.drop_last()),
        source(items.last()),
        needed(table, items.last()),
    )
}

/// File references after items were taken.
pub open spec fn note_all(m: Map<FileId, FileInfo>, table: u64, items: Seq<Item>) -> Map<
    FileId,
    FileInfo,
>
    decreases items.len(),
{
    if items.len() == 0 {
        m
    } else {
        note(
            note_all(m, table, items.drop_last()),
            source(items.last()),
            needed(table, items.last()),
        )
    }
}

/// Sequence numbers of generations after items were taken.
pub open spec fn number_all(
    q: Map<u64, u64>,
    m: Map<FileId, FileInfo>,
    table: u64,
    items: Seq<Item>,
) -> Map<u64, u64>
    decreases items.len(),
{
    if items.len() == 0 {
        q
    } else {
        number(
            number_all(q, m, table, items.drop_last()),
            note_all(m, table, items.drop_last()),
            source(items.last()),
            needed(table, items.last()),
        )
    }
}

/// The index files that are taken over, after an item was taken.
pub open spec fn shelve(m: Map<FileId, FileInfo>, item: Item) -> Map<FileId, FileInfo> {
    match item {
        Item::Part { part, from, .. } => m.insert(part.file, info_of(from.files, part.file).unwrap()),
        _ => m,
    }
}

/// The index files that are taken over, after items were taken.
pub open spec fn shelve_all(m: Map<FileId, FileInfo>, items: Seq<Item>) -> Map<FileId, FileInfo>
    decreases items.len(),
{
    if items.len() == 0 {
        m
    } else {
        shelve(shelve_all(m, items.drop_last()), items.last())
    }
}

/// Whether a writer has noted what it had and some of the files that it needs, as a manifest has
/// them.
pub open spec fn noted_some(
    a: TableWriter,
    b: TableWriter,
    r: RootV,
    need: spec_fn(FileId) -> bool,
) -> bool {
    &&& forall|f: FileId| #[trigger]
        b.remembered().contains_key(f) ==> (a.remembered().contains_key(f) || need(f))
            && b.remembered()[f] == note(a.remembered(), r, need)[f]
    &&& forall|g: u64| #[trigger]
        b.sequences().contains_key(g) ==> (a.sequences().contains_key(g) && b.sequences()[g]
            == a.sequences()[g]) || (brings(a.remembered(), need, g) && b.sequences()[g]
            == r.history_generations[g])
    &&& b.index().taken() == a.index().taken()
}

/// Whether a writer has noted all of the files that an item needs.
pub open spec fn noted(a: TableWriter, b: TableWriter, item: Item) -> bool {
    let need = needed(a.place().0, item);
    &&& b.remembered() == note(a.remembered(), source(item), need)
    &&& b.sequences() == number(a.sequences(), a.remembered(), source(item), need)
    &&& b.index().taken() == shelve(a.index().taken(), item)
    &&& known(a.remembered(), source(item), need)
}

/// A writer that needs no file notes none.
proof fn lemma_noted_none(a: TableWriter, b: TableWriter, item: Item)
    requires
        !(item is Link) && !(item is Part),
        b.remembered() == a.remembered(),
        b.sequences() == a.sequences(),
        b.index().taken() == a.index().taken(),
    ensures
        noted(a, b, item),
        forall|r: RootV| #[trigger] noted_some(a, b, r, needed(a.place().0, item)),
{
    let need = needed(a.place().0, item);
    assert(note(a.remembered(), source(item), need) =~= a.remembered());
    assert(number(a.sequences(), a.remembered(), source(item), need) =~= a.sequences());
    assert forall|r: RootV| #[trigger] noted_some(a, b, r, need) by {
        assert(note(a.remembered(), r, need) =~= a.remembered());
    }
}

/// A writer that stays as it is has noted some.
proof fn lemma_noted_same(a: TableWriter, b: TableWriter, r: RootV, need: spec_fn(FileId) -> bool)
    requires
        b.remembered() == a.remembered(),
        b.sequences() == a.sequences(),
        b.index().taken() == a.index().taken(),
    ensures
        noted_some(a, b, r, need),
{
}

/// The key of an item in its index.
pub open spec fn item_key(item: Item) -> Key {
    match item {
        Item::Entity { id, .. } => (id, 0),
        Item::Carried { id, .. } => (id, 0),
        Item::Snapshot { id, state } => (id, state.version),
        Item::Event { id, event } => (id, event.version),
        Item::Link { key, .. } => key,
        Item::Part { .. } => (0, 0),
    }
}

/// The kind of index that an item stands in; none for a whole partition.
pub open spec fn item_kind(item: Item) -> u8 {
    match item {
        Item::Entity { .. } => 3,
        Item::Carried { .. } => 3,
        Item::Snapshot { .. } => 5,
        Item::Event { .. } => 4,
        Item::Link { kind, .. } => kind,
        Item::Part { .. } => 0,
    }
}

/// The index entries of items with their values, by partition.
pub open spec fn filed(journal: Seq<(Item, Value)>, table: u64, kind: u8) -> Map<Route, Seq<Entry>>
    decreases journal.len(),
{
    if journal.len() == 0 {
        Map::empty()
    } else {
        let m = filed(journal.drop_last(), table, kind);
        let (item, value) = journal.last();
        if item_kind(item) != kind {
            m
        } else {
            let key = item_key(item);
            let at = route_of(table, kind, key);
            let es = if m.contains_key(at) {
                m[at]
            } else {
                Seq::empty()
            };
            m.insert(at, es.push((key, value)))
        }
    }
}

/// Whether the index entries of items come in the order of their keys.
#[verifier::opaque]
pub open spec fn ascending(journal: Seq<(Item, Value)>, table: u64) -> bool {
    forall|kind: u8, at: Route|
        3 <= kind <= 5 && #[trigger] filed(journal, table, kind).contains_key(at) ==> increasing(
            filed(journal, table, kind)[at],
        )
}

/// Two locations under a generation slot.
pub open spec fn stamped(slot: u8, current: u64, base: u64) -> Value {
    (((slot as u64) << 56) | current, ((slot as u64) << 56) | base)
}

/// Whether a frame stands at an offset.
pub open spec fn framed(c: Seq<u8>, offset: u64, f: FrameV) -> bool {
    &&& offset + enc_frame(f).len() <= c.len()
    &&& c.subrange(offset as int, offset + enc_frame(f).len()) == enc_frame(f)
}

/// The frame of an event.
pub open spec fn event_frame(id: u64, event: EventV, compress: bool) -> FrameV {
    FrameV {
        kind: 3,
        lsn: event.transaction,
        payload: packed(id, enc_event(event), compress),
    }
}

/// The file that a link leads to.
pub open spec fn link_file(table: u64, kind: u8, value: Value) -> FileId {
    if kind == 5 {
        FileId { table, generation: value.0, kind: 2, segment: 0 }
    } else {
        FileId { table, generation: value.0, kind: 6, segment: segment_of(value.1) }
    }
}

/// The record at a location of a heap file.
#[verifier::opaque]
pub open spec fn record_at(c: Seq<u8>, location: u64, lsn: u64) -> Option<Seq<u8>> {
    heap_record(c, location, lsn)
}

/// Writes the files of one table in one generation.
pub struct TableWriter {
    current: HeapWriter,
    bases: HeapWriter,
    snapshots: HeapWriter,
    indexes: Indexes,
    history: Vec<Vec<u8>>,
    segment_limit: u64,
    compress: bool,
    table: u64,
    generation: u64,
    slot: u8,
    lsn: u64,
    entities: u64,
    reused: OrderedMap<FileId, FileInfo>,
    history_generations: OrderedMap<u64, u64>,
    kept: Ghost<Seq<(Item, Value)>>,
}

impl TableWriter {
    /// What was written, in order.
    pub closed spec fn journal(self) -> Seq<(Item, Value)> {
        self.kept@
    }

    /// The heap file of a kind.
    pub closed spec fn heap(self, kind: u8) -> HeapWriter {
        if kind == 0 {
            self.current
        } else if kind == 1 {
            self.bases
        } else {
            self.snapshots
        }
    }

    /// The index partitions.
    pub closed spec fn index(self) -> Indexes {
        self.indexes
    }

    /// The history segments.
    pub closed spec fn segments(self) -> Seq<Seq<u8>> {
        self.history@.map_values(|s: Vec<u8>| s@)
    }

    /// The table, the generation, the slot of the generation and its sequence number.
    pub closed spec fn place(self) -> (u64, u64, u8, u64) {
        (self.table, self.generation, self.slot, self.lsn)
    }

    /// How history is written: the size of a segment and whether events are compressed.
    pub closed spec fn manner(self) -> (u64, bool) {
        (self.segment_limit, self.compress)
    }

    /// How many entities were written.
    pub closed spec fn written(self) -> u64 {
        self.entities
    }

    /// The files of other generations that history leads to.
    pub closed spec fn remembered(self) -> Map<FileId, FileInfo> {
        self.reused@
    }

    /// The sequence numbers of generations with history.
    pub closed spec fn sequences(self) -> Map<u64, u64> {
        self.history_generations@
    }

    /// Whether an item is kept under an index value.
    pub open spec fn holds(self, item: Item, v: Value) -> bool {
        let (table, generation, slot, lsn) = self.place();
        match item {
            Item::Entity { current, base, .. } => exists|c: u64, b: u64|
                v == #[trigger] stamped(slot, c, b) && record_at(self.heap(0).image(), c, lsn)
                    == Some(enc_entity(current)) && record_at(self.heap(1).image(), b, lsn)
                    == Some(enc_entity(base)),
            Item::Carried { value, .. } => v == value,
            Item::Snapshot { state, .. } => v.0 == generation && record_at(
                self.heap(2).image(),
                v.1,
                lsn,
            ) == Some(enc_entity(state)),
            Item::Event { id, event } => v.0 == generation && segment_of(v.1)
                < self.segments().len() && framed(
                self.segments()[segment_of(v.1) as int],
                offset_of(v.1),
                event_frame(id, event, self.manner().1),
            ),
            Item::Link { kind, value, .. } => v == value && self.remembered().contains_key(
                link_file(table, kind, value),
            ),
            Item::Part { route, part, .. } => 3 <= route.kind <= 5 && self.index().lane(
                route.kind,
            ).finished().contains_key(route) && self.index().lane(route.kind).finished()[route]
                == part && self.index().taken().contains_key(part.file) && forall|f: FileId| #[trigger]
                part.dependencies.contains_key(f) ==> self.remembered().contains_key(f),
        }
    }

    /// Whether a file of history is one that is written here, or one of another generation that
    /// is known.
    pub open spec fn reaches(self, f: FileId) -> bool {
        ||| self.remembered().contains_key(f)
        ||| f.table == self.place().0 && f.generation == self.place().1 && (f.kind == 2 && f.segment
            == 0 || f.kind == 6 && f.segment < self.segments().len())
    }

    /// Whether the files hold what was written and the indexes lead to it.
    pub closed spec fn sound(self) -> bool {
        &&& self.current.sound() && self.bases.sound() && self.snapshots.sound()
        &&& self.current.sequence() == self.lsn
        &&& self.bases.sequence() == self.lsn
        &&& self.snapshots.sequence() == self.lsn
        &&& self.indexes.sound()
        &&& self.indexes.of(self.table, self.generation, self.lsn)
        &&& self.history@.len() > 0
        &&& forall|i: int|
            0 <= i < self.kept@.len() ==> self.holds(
                (#[trigger] self.kept@[i]).0,
                self.kept@[i].1,
            )
        &&& forall|kind: u8|
            3 <= kind <= 5 ==> (#[trigger] self.indexes.lane(kind)).contents() == filed(
                self.kept@,
                self.table,
                kind,
            )
        &&& ascending(self.kept@, self.table)
        &&& forall|kind: u8, f: FileId|
            3 <= kind <= 5 && #[trigger] self.indexes.lane(kind).uses(f) ==> self.reaches(f)
        &&& forall|kind: u8, at: Route|
            3 <= kind <= 5 && #[trigger] self.indexes.lane(kind).finished().contains_key(at)
                && !self.indexes.lane(kind).contents().contains_key(at) ==> adopted(self.kept@, at)
        &&& forall|f: FileId| #[trigger]
            self.reused@.contains_key(f) ==> self.reused@[f].named() == f
                && self.history_generations@.contains_key(f.generation) && f.generation
                != self.generation
        &&& self.history_generations@.contains_key(self.generation)
        &&& self.history_generations@[self.generation] == self.lsn
    }
}

/// Whether a journal has a partition that was taken over under a route.
pub open spec fn adopted(kept: Seq<(Item, Value)>, at: Route) -> bool {
    exists|n: int|
        0 <= n < kept.len() && (#[trigger] kept[n]).0 is Part && kept[n].0->Part_route == at
}

/// A journal that grows has the same partitions that were taken over.
proof fn lemma_adopted_more(a: Seq<(Item, Value)>, b: Seq<(Item, Value)>, at: Route)
    requires
        adopted(a, at),
        a.is_prefix_of(b),
    ensures
        adopted(b, at),
{
    let n = choose|n: int|
        0 <= n < a.len() && (#[trigger] a[n]).0 is Part && a[n].0->Part_route == at;
    assert(b[n] == a[n]);
}

/// Whether a later state of a writer keeps what an earlier one held.
#[verifier::opaque]
pub open spec fn grew(a: TableWriter, b: TableWriter) -> bool {
    &&& b.place() == a.place()
    &&& b.manner() == a.manner()
    &&& b.index().most() == a.index().most()
    &&& forall|kind: u8, at: u64|
        #![trigger record_at(a.heap(kind).image(), at, a.place().3)]
        kind <= 2 && record_at(a.heap(kind).image(), at, a.place().3) is Some ==> record_at(
            b.heap(kind).image(),
            at,
            a.place().3,
        ) == record_at(a.heap(kind).image(), at, a.place().3)
    &&& a.segments().len() <= b.segments().len()
    &&& forall|i: int|
        0 <= i < a.segments().len() ==> (#[trigger] a.segments()[i]).is_prefix_of(b.segments()[i])
    &&& forall|k: u8, r: Route|
        3 <= k <= 5 && #[trigger] a.index().lane(k).finished().contains_key(r)
            ==> b.index().lane(k).finished().contains_key(r) && b.index().lane(k).finished()[r]
            == a.index().lane(k).finished()[r]
    &&& forall|f: FileId| #[trigger]
        a.remembered().contains_key(f) ==> b.remembered().contains_key(f) && b.remembered()[f]
            == a.remembered()[f]
    &&& forall|g: u64| #[trigger] a.sequences().contains_key(g) ==> b.sequences().contains_key(g)
    &&& forall|f: FileId| #[trigger]
        a.index().taken().contains_key(f) ==> b.index().taken().contains_key(f)
}

/// Writers that grow twice have grown.
pub proof fn lemma_grew_twice(a: TableWriter, b: TableWriter, c: TableWriter)
    requires
        grew(a, b),
        grew(b, c),
    ensures
        grew(a, c),
{
    reveal(grew);
    assert forall|kind: u8, at: u64|
        #![trigger record_at(a.heap(kind).image(), at, a.place().3)]
        kind <= 2 && record_at(a.heap(kind).image(), at, a.place().3)
            is Some implies record_at(c.heap(kind).image(), at, a.place().3) == record_at(
        a.heap(kind).image(),
        at,
        a.place().3,
    ) by {
        assert(record_at(b.heap(kind).image(), at, b.place().3) is Some);
    }
    assert forall|i: int| 0 <= i < a.segments().len() implies (
    #[trigger] a.segments()[i]).is_prefix_of(c.segments()[i]) by {
        assert(b.segments()[i].is_prefix_of(c.segments()[i]));
    }
    assert forall|k: u8, r: Route|
        3 <= k <= 5 && #[trigger] a.index().lane(k).finished().contains_key(
            r,
        ) implies c.index().lane(k).finished().contains_key(r) && c.index().lane(
        k,
    ).finished()[r] == a.index().lane(k).finished()[r] by {
        assert(b.index().lane(k).finished().contains_key(r));
    }
}

/// What a writer kept, it keeps as it grows.
pub proof fn lemma_holds_on(a: TableWriter, b: TableWriter, item: Item, v: Value)
    requires
        grew(a, b),
        a.holds(item, v),
    ensures
        b.holds(item, v),
{
    reveal(grew);
    let lsn = a.place().3;
    match item {
        Item::Entity { current, base, .. } => {
            let (x, y) = choose|c: u64, d: u64|
                v == #[trigger] stamped(a.place().2, c, d) && record_at(
                    a.heap(0).image(),
                    c,
                    lsn,
                ) == Some(enc_entity(current)) && record_at(a.heap(1).image(), d, lsn) == Some(
                    enc_entity(base),
                );
            assert(record_at(b.heap(0).image(), x, lsn) == Some(enc_entity(current)));
            assert(record_at(b.heap(1).image(), y, lsn) == Some(enc_entity(base)));
            assert(v == stamped(b.place().2, x, y));
        },
        Item::Snapshot { state, .. } => {
            assert(record_at(b.heap(2).image(), v.1, lsn) == Some(enc_entity(state)));
        },
        Item::Event { id, event } => {
            let s = segment_of(v.1) as int;
            let f = event_frame(id, event, a.manner().1);
            let o = offset_of(v.1) as int;
            assert(a.segments()[s].is_prefix_of(b.segments()[s]));
            let n = enc_frame(f).len() as int;
            assert(b.segments()[s].subrange(o, o + n) =~= a.segments()[s].subrange(o, o + n));
        },
        Item::Link { .. } => {},
        Item::Carried { .. } => {},
        Item::Part { route, .. } => {
            assert(a.index().lane(route.kind).finished().contains_key(route));
        },
    }
}

/// Whether an index takes no entry under a key.
pub open spec fn index_refused(w: TableWriter, kind: u8, key: Key, value: Value, e: Error) -> bool {
    let lane = w.index().lane(kind);
    let at = route_of(w.place().0, kind, key);
    let c = lane.contents();
    let going = lane.open_route() == Some(at);
    if !going && w.index().total() >= w.index().most() {
        e == (Error::LimitExceeded {
            resource: "index partitions",
            limit: w.index().most() as usize,
        })
    } else {
        e is Corrupt && (!going && lane.has(at) || (going && c.contains_key(at) && c[at].len() > 0
            && !c[at].last().0.before(key)) || (kind == 3 && shared_slot(value) is None))
    }
}

impl TableWriter {
    /// Adds an index entry for an item that is in place.
    fn enter(
        &mut self,
        kind: u8,
        key: Key,
        value: Value,
        dependency: Option<FileId>,
        Ghost(item): Ghost<Item>,
    ) -> (r: Result<()>)
        requires
            old(self).sound(),
            3 <= kind <= 5,
            item_kind(item) == kind,
            item_key(item) == key,
            old(self).holds(item, value),
            dependency matches Some(f) ==> historic(f, old(self).place().0) && old(self).reaches(f),
        ensures
            final(self).sound(),
            grew(*old(self), *final(self)),
            final(self).remembered() == old(self).remembered(),
            final(self).sequences() == old(self).sequences(),
            final(self).written() == old(self).written(),
            final(self).index().taken() == old(self).index().taken(),
            final(self).segments() == old(self).segments(),
            match r {
                Ok(_) => final(self).journal() == old(self).journal().push((item, value)),
                Err(e) => final(self).journal() == old(self).journal() && index_refused(
                    *old(self),
                    kind,
                    key,
                    value,
                    e,
                ),
            },
    {
        let ghost before = *self;
        proof {
            before.indexes.lemma_lanes();
            assert(before.indexes.lane(kind).target().table == self.table);
        }
        match self.indexes.append(kind, key, value, dependency) {
            Err(e) => {
                proof {
                    lemma_indexed(before, *self, item, value, false);
                }
                Err(e)
            },
            Ok(_) => {
                self.kept = Ghost(self.kept@.push((item, value)));
                proof {
                    let at = route_of(self.table, kind, key);
                    if before.indexes.lane(kind).contents().contains_key(at) {
                        before.indexes.lane(kind).lemma_has(at);
                    }
                    lemma_indexed(before, *self, item, value, true);
                }
                Ok(())
            },
        }
    }
}

/// A writer is sound after its indexes changed with its journal.
proof fn lemma_indexed(a: TableWriter, b: TableWriter, item: Item, v: Value, added: bool)
    requires
        a.sound(),
        a.holds(item, v),
        3 <= item_kind(item) <= 5,
        b == (TableWriter { indexes: b.indexes, kept: b.kept, ..a }),
        b.kept@ == (if added {
            a.kept@.push((item, v))
        } else {
            a.kept@
        }),
        b.indexes.sound(),
        b.indexes.of(a.table, a.generation, a.lsn),
        b.indexes.most() == a.indexes.most(),
        b.indexes.taken() == a.indexes.taken(),
        forall|k: u8, r: Route|
            3 <= k <= 5 && #[trigger] a.indexes.lane(k).finished().contains_key(r)
                ==> b.indexes.lane(k).finished().contains_key(r) && b.indexes.lane(k).finished()[r]
                == a.indexes.lane(k).finished()[r],
        forall|k: u8, r: Route|
            3 <= k <= 5 && #[trigger] b.indexes.lane(k).finished().contains_key(r)
                ==> a.indexes.lane(k).finished().contains_key(r) || a.indexes.lane(
                k,
            ).contents().contains_key(r),
        forall|k: u8, f: FileId|
            3 <= k <= 5 && #[trigger] b.indexes.lane(k).uses(f) ==> a.indexes.lane(k).uses(f)
                || a.reaches(f),
        forall|k: u8|
            3 <= k <= 5 && (!added || k != item_kind(item)) ==> (#[trigger] b.indexes.lane(
                k,
            )).contents() == a.indexes.lane(k).contents(),
        added ==> ({
            let kind = item_kind(item);
            let c = a.indexes.lane(kind).contents();
            let at = route_of(a.table, kind, item_key(item));
            let es = if c.contains_key(at) {
                c[at]
            } else {
                Seq::empty()
            };
            &&& es.len() > 0 ==> es.last().0.before(item_key(item))
            &&& b.indexes.lane(kind).contents() == c.insert(at, es.push((item_key(item), v)))
        }),
    ensures
        b.sound(),
        grew(a, b),
{
    assert(grew(a, b)) by {
        reveal(grew);
        assert(b.segments() == a.segments());
        assert forall|i: int| 0 <= i < a.segments().len() implies (
        #[trigger] a.segments()[i]).is_prefix_of(b.segments()[i]) by {
        }
    }
    assert forall|i: int| 0 <= i < b.kept@.len() implies b.holds(
        (#[trigger] b.kept@[i]).0,
        b.kept@[i].1,
    ) by {
        if i < a.kept@.len() {
            assert(b.kept@[i] == a.kept@[i]);
            assert(a.holds(a.kept@[i].0, a.kept@[i].1));
            lemma_holds_on(a, b, b.kept@[i].0, b.kept@[i].1);
        } else {
            lemma_holds_on(a, b, item, v);
        }
    }
    assert forall|kind: u8| 3 <= kind <= 5 implies (#[trigger] b.indexes.lane(kind)).contents()
        == filed(b.kept@, b.table, kind) by {
        assert(a.indexes.lane(kind).contents() == filed(a.kept@, a.table, kind));
        if added {
            assert(b.kept@.drop_last() =~= a.kept@);
        }
    }
    assert forall|kind: u8, f: FileId|
        3 <= kind <= 5 && #[trigger] b.indexes.lane(kind).uses(f) implies b.reaches(f) by {
        assert(a.reaches(f));
    }
    assert forall|kind: u8, at: Route|
        3 <= kind <= 5 && #[trigger] b.indexes.lane(kind).finished().contains_key(at)
            && !b.indexes.lane(kind).contents().contains_key(at) implies adopted(b.kept@, at) by {
        assert(!a.indexes.lane(kind).contents().contains_key(at));
        assert(a.indexes.lane(kind).finished().contains_key(at));
        lemma_adopted_more(a.kept@, b.kept@, at);
    }
    assert(ascending(b.kept@, b.table)) by {
        reveal(ascending);
        if added {
            assert(b.kept@.drop_last() =~= a.kept@);
            assert forall|kind: u8, at: Route|
                3 <= kind <= 5 && #[trigger] filed(b.kept@, b.table, kind).contains_key(
                    at,
                ) implies increasing(filed(b.kept@, b.table, kind)[at]) by {
                let m = filed(a.kept@, a.table, kind);
                let key = item_key(item);
                if kind == item_kind(item) && at == route_of(a.table, kind, key) {
                    assert(a.indexes.lane(kind).contents() == m);
                    let es = if m.contains_key(at) {
                        m[at]
                    } else {
                        Seq::<Entry>::empty()
                    };
                    assert(increasing(es)) by {
                        reveal(increasing);
                    }
                    lemma_increasing_push(es, key, v);
                } else {
                    assert(m.contains_key(at));
                }
            }
        }
    }
}

proof fn lemma_increasing_push(es: Seq<Entry>, key: Key, v: Value)
    requires
        increasing(es),
        es.len() > 0 ==> es.last().0.before(key),
    ensures
        increasing(es.push((key, v))),
{
    reveal(increasing);
    Key::order_laws();
    let more = es.push((key, v));
    assert forall|i: int, j: int| 0 <= i < j < more.len() implies (#[trigger] more[i]).0.before(
        (#[trigger] more[j]).0,
    ) by {
        if j == es.len() && i < es.len() - 1 {
            assert(es[i].0.before(es.last().0));
        }
    }
}

/// A writer is sound after more was written, with the same indexes and journal.
proof fn lemma_stored(a: TableWriter, b: TableWriter)
    requires
        a.sound(),
        grew(a, b),
        b.indexes == a.indexes,
        b.kept == a.kept,
        b.current.sound() && b.bases.sound() && b.snapshots.sound(),
        b.current.sequence() == b.lsn,
        b.bases.sequence() == b.lsn,
        b.snapshots.sequence() == b.lsn,
        b.history@.len() > 0,
        forall|f: FileId| #[trigger]
            b.reused@.contains_key(f) ==> b.reused@[f].named() == f
                && b.history_generations@.contains_key(f.generation) && f.generation != b.generation,
        b.history_generations@.contains_key(b.generation),
        b.history_generations@[b.generation] == b.lsn,
    ensures
        b.sound(),
{
    assert(b.place() == a.place()) by {
        reveal(grew);
    }
    assert forall|i: int| 0 <= i < b.kept@.len() implies b.holds(
        (#[trigger] b.kept@[i]).0,
        b.kept@[i].1,
    ) by {
        assert(a.holds(a.kept@[i].0, a.kept@[i].1));
        lemma_holds_on(a, b, b.kept@[i].0, b.kept@[i].1);
    }
    assert forall|kind: u8, f: FileId|
        3 <= kind <= 5 && #[trigger] b.indexes.lane(kind).uses(f) implies b.reaches(f) by {
        assert(a.indexes.lane(kind).uses(f));
        assert(a.reaches(f));
        reveal(grew);
    }
}

/// Whether a heap file takes no record.
pub open spec fn heap_refused(w: TableWriter, kind: u8, bytes: Seq<u8>) -> bool {
    bytes.len() > MAX_RECORD || w.heap(kind).current() >= PAGE_LIMIT
}

/// The segment and the offset where the next event goes.
pub open spec fn next_place(w: TableWriter, payload: nat) -> (nat, nat) {
    let last = w.segments().last().len();
    if last != 0 && last + payload + 40 > w.manner().0 {
        (w.segments().len(), 0)
    } else {
        ((w.segments().len() - 1) as nat, last)
    }
}

/// History segments with bytes behind the last, or in a segment of their own.
pub open spec fn placed(segments: Seq<Seq<u8>>, at: (nat, nat), bytes: Seq<u8>) -> Seq<Seq<u8>> {
    if at.0 == segments.len() {
        segments.push(bytes)
    } else {
        segments.update(at.0 as int, segments[at.0 as int] + bytes)
    }
}

/// Whether history takes no event.
pub open spec fn history_refused(w: TableWriter, id: u64, event: EventV) -> bool {
    let f = event_frame(id, event, w.manner().1);
    let at = next_place(w, f.payload.len());
    enc_event(event).len() > u32::MAX || f.payload.len() > MAX_FRAME || at.0 > 0xffff || at.1
        >= 0x1_0000_0000_0000
}

/// Whether a file is not one of another generation that a writer knows or a manifest lists.
pub open spec fn unknown(w: TableWriter, r: RootV, f: FileId) -> bool {
    !w.remembered().contains_key(f) && (!listed(r.files, f) || !r.history_generations.contains_key(
        f.generation,
    ) || f.generation == w.place().1)
}

/// Whether the last page of a heap file of states is the last that a locator can name.
pub open spec fn crowded(w: TableWriter) -> bool {
    w.heap(0).current() + 1 >= PAGE_LIMIT || w.heap(1).current() + 1 >= PAGE_LIMIT
}

/// Whether a writer takes no item, reading history through a manifest.
pub open spec fn refused(w: TableWriter, r: RootV, item: Item, e: Error) -> bool {
    let kind = item_kind(item);
    let key = item_key(item);
    match item {
        Item::Entity { current, base, .. } => e is Invalid && (heap_refused(
            w,
            0,
            enc_entity(current),
        ) || heap_refused(w, 1, enc_entity(base))) || exists|v: Value|
            (shared_slot(v) is Some || crowded(w)) && #[trigger] index_refused(w, kind, key, v, e),
        Item::Carried { value, .. } => index_refused(w, kind, key, value, e),
        Item::Snapshot { state, .. } => e is Invalid && heap_refused(w, 2, enc_entity(state))
            || exists|v: Value| #[trigger] index_refused(w, kind, key, v, e),
        Item::Event { id, event } => e is Invalid && history_refused(w, id, event) || exists|
            v: Value,
        | #[trigger] index_refused(w, kind, key, v, e),
        Item::Link { value, .. } => e is Corrupt && unknown(
            w,
            r,
            link_file(w.place().0, kind, value),
        ) || index_refused(w, kind, key, value, e),
        Item::Part { route, part, .. } => e is Corrupt && (!r.partitions.contains_key(route) || !(3
            <= route.kind <= 5) || !listed(
            r.files,
            part.file,
        ) || w.index().lane(route.kind).has(route) || exists|f: FileId| #[trigger]
            part.dependencies.contains_key(f) && unknown(w, r, f)) || (w.index().total()
            >= w.index().most() && e == (Error::LimitExceeded {
            resource: "index partitions",
            limit: w.index().most() as usize,
        })),
    }
}

/// Whether a writer took an item, or did not for a reason.
pub open spec fn took(a: TableWriter, b: TableWriter, r: RootV, item: Item, result: Result<()>) -> bool {
    &&& b.sound()
    &&& grew(a, b)
    &&& match result {
        Ok(_) => b.journal().len() == a.journal().len() + 1 && b.journal().drop_last()
            == a.journal() && b.journal().last().0 == item && noted(a, b, item),
        Err(e) => b.journal() == a.journal() && refused(a, r, item, e) && noted_some(
            a,
            b,
            r,
            needed(a.place().0, item),
        ),
    }
}

impl TableWriter {
    /// Starts the files of a table.
    pub fn create(
        table: u64,
        generation: u64,
        slot: u8,
        lsn: u64,
        segment_limit: u64,
        compress: bool,
        partitions: usize,
    ) -> (w: Self)
        ensures
            w.sound(),
            w.journal() == Seq::<(Item, Value)>::empty(),
            w.place() == (table, generation, slot, lsn),
            w.manner() == (segment_limit, compress),
            w.index().most() == partitions,
            w.written() == 0,
            w.remembered() == Map::<FileId, FileInfo>::empty(),
            w.sequences() == map![generation => lsn],
            w.index().taken() == Map::<FileId, FileInfo>::empty(),
            w.segments() == seq![Seq::<u8>::empty()],
            recorded(w),
            forall|kind: u8| kind <= 2 ==> (#[trigger] w.heap(kind)).current() == 0,
    {
        let mut history: Vec<Vec<u8>> = Vec::new();
        history.push(Vec::new());
        let mut history_generations: OrderedMap<u64, u64> = OrderedMap::new();
        history_generations.insert(generation, lsn);
        let w = TableWriter {
            current: HeapWriter::create(lsn),
            bases: HeapWriter::create(lsn),
            snapshots: HeapWriter::create(lsn),
            indexes: Indexes::new(table, generation, lsn, partitions),
            history,
            segment_limit,
            compress,
            table,
            generation,
            slot,
            lsn,
            entities: 0,
            reused: OrderedMap::new(),
            history_generations,
            kept: Ghost(Seq::empty()),
        };
        assert(w.segments() =~= seq![Seq::<u8>::empty()]);
        assert(w.sequences() =~= map![generation => lsn]);
        assert(recorded(w)) by {
            reveal(recorded);
            assert(items_of(w) =~= Seq::empty());
        }
        assert(ascending(w.kept@, w.table)) by {
            reveal(ascending);
        }
        w
    }

    /// How many entities were written.
    pub fn count(&self) -> (n: u64)
        ensures
            n == self.written(),
    {
        self.entities
    }

    /// Puts a record into a heap file.
    fn store(&mut self, kind: u8, bytes: &[u8]) -> (r: Result<u64>)
        requires
            old(self).sound(),
            kind <= 2,
        ensures
            final(self).sound(),
            grew(*old(self), *final(self)),
            final(self).journal() == old(self).journal(),
            final(self).index() == old(self).index(),
            final(self).place() == old(self).place(),
            final(self).written() == old(self).written(),
            final(self).remembered() == old(self).remembered(),
            final(self).sequences() == old(self).sequences(),
            match r {
                Ok(at) => {
                    &&& record_at(final(self).heap(kind).image(), at, final(self).place().3)
                        == Some(bytes@)
                    &&& forall|k: u8| k != kind && k <= 2 ==> #[trigger] final(self).heap(k) == old(self).heap(k)
                    &&& old(self).heap(kind).current() + 1 < PAGE_LIMIT ==> at
                        < 0x100_0000_0000_0000
                },
                Err(e) => e is Invalid && heap_refused(*old(self), kind, bytes@),
            },
    {
        reveal(record_at);
        let ghost before = *self;
        let r = if kind == 0 {
            self.current.append(bytes)
        } else if kind == 1 {
            self.bases.append(bytes)
        } else {
            self.snapshots.append(bytes)
        };
        proof {
            lemma_grew_same(before, *self);
            lemma_stored(before, *self);
        }
        r
    }

    /// Writes a snapshot.
    pub fn append_snapshot(&mut self, id: u64, state: &Entity) -> (result: Result<()>)
        requires
            old(self).sound(),
        ensures
            forall|r: RootV| #[trigger]
                took(*old(self), *final(self), r, Item::Snapshot { id, state: state@ }, result),
            final(self).written() == old(self).written(),
    {
        let ghost before = *self;
        let ghost item = Item::Snapshot { id, state: state@ };
        let bytes = encode_entity(state);
        let location: u64 = match self.store(2, bytes.as_slice()) {
            Ok(location) => location,
            Err(e) => {
                proof {
                    lemma_noted_none(before, *self, item);
                }
                return Err(e);
            },
        };
        let file = FileId::new(self.table, self.generation, 2, 0);
        let ghost middle = *self;
        let value: Value = (self.generation, location);
        let r = self.enter(5, (id, state.version), value, Some(file), Ghost(item));
        proof {
            lemma_noted_none(before, *self, item);
            lemma_grew_twice(before, middle, *self);
            if r is Err {
                assert(index_refused(before, item_kind(item), item_key(item), value, r->Err_0));
            } else {
                assert(self.journal().drop_last() =~= before.journal());
            }
        }
        r
    }
}

/// A writer that only wrote records has grown.
proof fn lemma_grew_same(a: TableWriter, b: TableWriter)
    requires
        b == (TableWriter { current: b.current, bases: b.bases, snapshots: b.snapshots, ..a }),
        forall|kind: u8, at: u64|
            #![trigger record_at(a.heap(kind).image(), at, a.place().3)]
            kind <= 2 && record_at(a.heap(kind).image(), at, a.place().3) is Some ==> record_at(
                b.heap(kind).image(),
                at,
                a.place().3,
            ) == record_at(a.heap(kind).image(), at, a.place().3),
    ensures
        grew(a, b),
{
    reveal(grew);
    assert(b.segments() == a.segments());
    assert forall|i: int| 0 <= i < a.segments().len() implies (
    #[trigger] a.segments()[i]).is_prefix_of(b.segments()[i]) by {
    }
}

/// A writer that appended to its history has grown.
proof fn lemma_grew_history(a: TableWriter, b: TableWriter)
    requires
        b == (TableWriter { history: b.history, ..a }),
        a.segments().len() <= b.segments().len(),
        forall|i: int|
            0 <= i < a.segments().len() ==> (#[trigger] a.segments()[i]).is_prefix_of(
                b.segments()[i],
            ),
    ensures
        grew(a, b),
{
    reveal(grew);
}

impl TableWriter {
    /// Puts a frame behind a history that has room for it, in a new segment where the last has
    /// none.
    fn store_frame(&mut self, event: &Event, payload: &[u8]) -> (r: Result<u64>)
        requires
            old(self).sound(),
        ensures
            final(self).sound(),
            grew(*old(self), *final(self)),
            final(self).journal() == old(self).journal(),
            final(self).index() == old(self).index(),
            final(self).place() == old(self).place(),
            final(self).manner() == old(self).manner(),
            final(self).written() == old(self).written(),
            final(self).remembered() == old(self).remembered(),
            final(self).sequences() == old(self).sequences(),
            ({
                let at = next_place(*old(self), payload@.len());
                match r {
                    Ok(location) => {
                        &&& final(self).segments() == placed(
                            old(self).segments(),
                            at,
                            enc_frame(
                                FrameV { kind: 3, lsn: event.transaction, payload: payload@ },
                            ),
                        )
                        &&& at.0 <= 0xffff && at.1 < 0x1_0000_0000_0000
                        &&& segment_of(location) == at.0 && offset_of(location) == at.1
                        &&& at.0 < final(self).segments().len()
                        &&& framed(
                            final(self).segments()[at.0 as int],
                            offset_of(location),
                            FrameV { kind: 3, lsn: event.transaction, payload: payload@ },
                        )
                    },
                    Err(e) => e is Invalid && (payload@.len() > MAX_FRAME || at.0 > 0xffff || at.1
                        >= 0x1_0000_0000_0000),
                }
            }),
    {
        let ghost before = *self;
        proof {
            lemma_grew_same(before, before);
        }
        let count: usize = self.history.len();
        let offset: usize = self.history[count - 1].len();
        assert(self.segments().last() == self.history@[count - 1]@);
        let full: bool = offset != 0 && (offset as u128) + (payload.len() as u128) + 40 > (
        self.segment_limit as u128);
        let segment: usize = if full {
            count
        } else {
            count - 1
        };
        let start: usize = if full {
            0
        } else {
            offset
        };
        let location: u64 = event_location(segment as u64, start as u64)?;
        let mut bytes = frame::encode(3, event.transaction, payload)?;
        let ghost added = bytes@;
        let ghost f = FrameV { kind: 3, lsn: event.transaction, payload: payload@ };
        if full {
            self.history.push(bytes);
        } else {
            match self.history.pop() {
                None => {
                    assert(false);
                },
                Some(last) => {
                    let mut last = last;
                    last.append(&mut bytes);
                    self.history.push(last);
                },
            }
        }
        proof {
            lemma_event_location(segment as u64, start as u64);
            assert(added == enc_frame(f));
            let was = before.segments();
            let is = self.segments();
            if full {
                assert(is =~= was.push(added));
            } else {
                assert(is =~= was.update(count - 1, was[count - 1] + added));
            }
            assert forall|i: int| 0 <= i < was.len() implies (#[trigger] was[i]).is_prefix_of(
                is[i],
            ) by {
                if full || i < count - 1 {
                    assert(is[i] == was[i]);
                } else {
                    assert(is[i] == was[i] + added);
                }
            }
            lemma_grew_history(before, *self);
            lemma_stored(before, *self);
            assert(is[segment as int].subrange(start as int, start + added.len()) =~= added);
        }
        Ok(location)
    }

    /// Writes an event behind the history, in a new segment where the last would grow beyond
    /// its size.
    pub fn append_event(&mut self, id: u64, event: &Event) -> (result: Result<()>)
        requires
            old(self).sound(),
        ensures
            forall|r: RootV| #[trigger]
                took(*old(self), *final(self), r, Item::Event { id, event: event@ }, result),
            final(self).written() == old(self).written(),
            result is Ok ==> {
                let f = event_frame(id, event@, old(self).manner().1);
                let at = next_place(*old(self), f.payload.len());
                let v = final(self).journal().last().1;
                &&& v.0 == old(self).place().1
                &&& segment_of(v.1) == at.0 && offset_of(v.1) == at.1
                &&& final(self).segments() == placed(old(self).segments(), at, enc_frame(f))
            },
    {
        let ghost before = *self;
        let ghost item = Item::Event { id, event: event@ };
        proof {
            lemma_grew_same(before, before);
            lemma_noted_none(before, before, item);
        }
        let bytes = encode_event(event);
        if bytes.len() > 0xffff_ffff {
            return Err(invalid("event exceeds 4 GiB"));
        }
        let payload = pack(id, bytes.as_slice(), self.compress);
        let location: u64 = match self.store_frame(event, payload.as_slice()) {
            Ok(location) => location,
            Err(e) => {
                proof {
                    lemma_noted_none(before, *self, item);
                }
                return Err(e);
            },
        };
        let ghost middle = *self;
        let (segment, _) = event_split(location);
        let file = FileId::new(self.table, self.generation, 6, segment);
        let value: Value = (self.generation, location);
        let r = self.enter(4, (id, event.version), value, Some(file), Ghost(item));
        proof {
            lemma_noted_none(before, *self, item);
            lemma_grew_twice(before, middle, *self);
            if r is Err {
                assert(index_refused(before, item_kind(item), item_key(item), value, r->Err_0));
            } else {
                assert(self.journal().drop_last() =~= before.journal());
            }
        }
        r
    }

    /// Writes the current and the oldest state of an entity.
    fn append_entity(&mut self, id: u64, current: &Entity, base: &Entity) -> (result: Result<()>)
        requires
            old(self).sound(),
        ensures
            forall|r: RootV| #[trigger]
                took(
                    *old(self),
                    *final(self),
                    r,
                    Item::Entity { id, current: current@, base: base@ },
                    result,
                ),
            final(self).written() == old(self).written(),
    {
        let ghost before = *self;
        let ghost item = Item::Entity { id, current: current@, base: base@ };
        let newest = encode_entity(current);
        let oldest = encode_entity(base);
        let c: u64 = match self.store(0, newest.as_slice()) {
            Ok(c) => c,
            Err(e) => {
                proof {
                    lemma_noted_none(before, *self, item);
                }
                return Err(e);
            },
        };
        let ghost first = *self;
        let b: u64 = match self.store(1, oldest.as_slice()) {
            Ok(b) => b,
            Err(e) => {
                proof {
                    lemma_grew_twice(before, first, *self);
                    lemma_noted_none(before, *self, item);
                    assert(heap_refused(before, 1, enc_entity(base@)));
                }
                return Err(e);
            },
        };
        let ghost middle = *self;
        let value: Value = (locate(self.slot, c), locate(self.slot, b));
        proof {
            lemma_grew_twice(before, first, middle);
            assert(value == stamped(self.place().2, c, b));
            assert(record_at(self.heap(0).image(), c, self.place().3) == Some(enc_entity(current@)));
            assert(self.holds(item, value));
        }
        let r = self.enter(3, (id, 0), value, None, Ghost(item));
        proof {
            lemma_noted_none(before, *self, item);
            lemma_grew_twice(before, middle, *self);
            if r is Err {
                if !crowded(before) {
                    assert(first.heap(1) == before.heap(1));
                    crate::storage::heap::lemma_locator(middle.slot, c);
                    crate::storage::heap::lemma_locator(middle.slot, b);
                    assert(shared_slot(value) is Some);
                }
                assert(index_refused(before, item_kind(item), item_key(item), value, r->Err_0));
            } else {
                assert(self.journal().drop_last() =~= before.journal());
            }
        }
        r
    }

    /// Notes a file of another generation that history leads to.
    fn remember(&mut self, root: &Root, file: FileId) -> (r: Result<()>)
        requires
            old(self).sound(),
        ensures
            final(self).sound(),
            grew(*old(self), *final(self)),
            final(self).journal() == old(self).journal(),
            final(self).index() == old(self).index(),
            final(self).place() == old(self).place(),
            final(self).written() == old(self).written(),
            match r {
                Ok(_) => {
                    &&& !unknown(*old(self), root@, file)
                    &&& final(self).remembered() == (if old(self).remembered().contains_key(file) {
                        old(self).remembered()
                    } else {
                        old(self).remembered().insert(file, info_of(root@.files, file).unwrap())
                    })
                    &&& final(self).sequences() == (if old(self).remembered().contains_key(file) {
                        old(self).sequences()
                    } else {
                        old(self).sequences().insert(
                            file.generation,
                            root@.history_generations[file.generation],
                        )
                    })
                },
                Err(e) => e is Corrupt && unknown(*old(self), root@, file) && *final(self) == *old(
                    self,
                ),
            },
    {
        let ghost before = *self;
        proof {
            lemma_grew_same(before, before);
        }
        if self.reused.contains_key(&file) {
            return Ok(());
        }
        if file.generation == self.generation {
            return Err(corrupt("history references its own generation"));
        }
        let info = match find_file(&root.files, file) {
            Some(info) => info,
            None => {
                return Err(corrupt("history references an unlisted file"));
            },
        };
        let sequence: u64 = match root.history_generations.get(&file.generation) {
            Some(sequence) => *sequence,
            None => {
                return Err(corrupt("absent history sequence"));
            },
        };
        self.reused.insert(file, info);
        self.history_generations.insert(file.generation, sequence);
        proof {
            assert(grew(before, *self)) by {
                reveal(grew);
                assert(self.segments() == before.segments());
                assert forall|i: int| 0 <= i < before.segments().len() implies (
                #[trigger] before.segments()[i]).is_prefix_of(self.segments()[i]) by {
                }
            }
            lemma_stored(before, *self);
        }
        Ok(())
    }
}

// ---- Many items ----

/// Whether a writer took items in order.
pub open spec fn added(a: TableWriter, b: TableWriter, items: Seq<Item>) -> bool {
    &&& b.sound()
    &&& grew(a, b)
    &&& b.journal().len() == a.journal().len() + items.len()
    &&& b.journal().take(a.journal().len() as int) == a.journal()
    &&& forall|i: int|
        0 <= i < items.len() ==> (#[trigger] b.journal()[a.journal().len() + i]).0 == items[i]
    &&& noted_all(a, b, items)
}

/// Whether a writer has noted exactly what items need, each as the manifest has it that the item
/// is taken over from.
#[verifier::opaque]
pub open spec fn noted_all(a: TableWriter, b: TableWriter, items: Seq<Item>) -> bool {
    &&& b.remembered() == note_all(a.remembered(), a.place().0, items)
    &&& b.sequences() == number_all(a.sequences(), a.remembered(), a.place().0, items)
    &&& b.index().taken() == shelve_all(a.index().taken(), items)
    &&& known_all(a.remembered(), a.place().0, items)
}

/// What one run of items leaves noted and another after it.
proof fn lemma_noted_both(
    q: Map<u64, u64>,
    m: Map<FileId, FileInfo>,
    t: Map<FileId, FileInfo>,
    table: u64,
    x: Seq<Item>,
    y: Seq<Item>,
)
    ensures
        note_all(m, table, x + y) == note_all(note_all(m, table, x), table, y),
        number_all(q, m, table, x + y) == number_all(
            number_all(q, m, table, x),
            note_all(m, table, x),
            table,
            y,
        ),
        shelve_all(t, x + y) == shelve_all(shelve_all(t, x), y),
        known_all(m, table, x + y) == (known_all(m, table, x) && known_all(
            note_all(m, table, x),
            table,
            y,
        )),
    decreases y.len(),
{
    if y.len() == 0 {
        assert(x + y =~= x);
    } else {
        assert((x + y).drop_last() =~= x + y.drop_last());
        assert((x + y).last() == y.last());
        lemma_noted_both(q, m, t, table, x, y.drop_last());
    }
}

/// The items that a writer took, in order.
pub open spec fn items_of(w: TableWriter) -> Seq<Item> {
    w.journal().map_values(|e: (Item, Value)| e.0)
}

/// Whether a writer has noted of other generations what the items of its journal need, each as
/// the manifest has it that the item is taken over from, and nothing more.
#[verifier::opaque]
pub open spec fn recorded(w: TableWriter) -> bool {
    let (table, generation, slot, lsn) = w.place();
    &&& w.remembered() == note_all(Map::empty(), table, items_of(w))
    &&& w.sequences() == number_all(map![generation => lsn], Map::empty(), table, items_of(w))
    &&& w.index().taken() == shelve_all(Map::empty(), items_of(w))
    &&& known_all(Map::empty(), table, items_of(w))
}

/// A writer that takes items goes on to have noted what its journal needs, and nothing more.
pub proof fn lemma_recorded(a: TableWriter, b: TableWriter, items: Seq<Item>)
    requires
        recorded(a),
        added(a, b, items),
    ensures
        recorded(b),
        items_of(b) == items_of(a) + items,
{
    reveal(recorded);
    reveal(noted_all);
    assert(b.place() == a.place()) by {
        reveal(grew);
    }
    let k = a.journal().len() as int;
    assert(items_of(b) =~= items_of(a) + items) by {
        assert forall|i: int| 0 <= i < items_of(b).len() implies items_of(b)[i] == (items_of(a)
            + items)[i] by {
            if i < k {
                assert(b.journal()[i] == b.journal().take(k)[i]);
            } else {
                assert(b.journal()[k + (i - k)].0 == items[i - k]);
            }
        }
    }
    let (table, generation, slot, lsn) = a.place();
    lemma_noted_both(
        map![generation => lsn],
        Map::empty(),
        Map::empty(),
        table,
        items_of(a),
        items,
    );
}

/// Whether an item leads to a file of another generation: it needs the file, or is a partition
/// in it.
pub open spec fn calls_for(table: u64, item: Item, f: FileId) -> bool {
    needed(table, item)(f) || (item is Part && item->Part_part.file == f)
}

proof fn lemma_note_from(table: u64, items: Seq<Item>, f: FileId) -> (n: int)
    requires
        known_all(Map::empty(), table, items),
        note_all(Map::empty(), table, items).contains_key(f),
    ensures
        0 <= n < items.len(),
        needed(table, items[n])(f),
        listed(source(items[n]).files, f),
        source(items[n]).history_generations.contains_key(f.generation),
        note_all(Map::empty(), table, items)[f] == info_of(source(items[n]).files, f).unwrap(),
    decreases items.len(),
{
    if items.len() == 0 {
        assert(false);
        0
    } else {
        let front = items.drop_last();
        if note_all(Map::empty(), table, front).contains_key(f) {
            let n = lemma_note_from(table, front, f);
            assert(front[n] == items[n]);
            n
        } else {
            items.len() - 1
        }
    }
}

proof fn lemma_number_from(q: Map<u64, u64>, table: u64, items: Seq<Item>, g: u64) -> (n: (int, FileId))
    requires
        known_all(Map::empty(), table, items),
        number_all(q, Map::empty(), table, items).contains_key(g),
    ensures
        n.0 < items.len(),
        n.0 < 0 ==> q.contains_key(g) && number_all(q, Map::empty(), table, items)[g] == q[g],
        n.0 >= 0 ==> needed(table, items[n.0])(n.1) && n.1.generation == g && source(
            items[n.0],
        ).history_generations.contains_key(g) && number_all(q, Map::empty(), table, items)[g]
            == source(items[n.0]).history_generations[g],
    decreases items.len(),
{
    if items.len() == 0 {
        (-1, FileId { table, generation: g, kind: 0, segment: 0 })
    } else {
        let front = items.drop_last();
        let m = note_all(Map::empty(), table, front);
        let need = needed(table, items.last());
        if brings(m, need, g) {
            let f = choose|f: FileId| #[trigger] need(f) && !m.contains_key(f) && f.generation == g;
            (items.len() - 1, f)
        } else {
            let n = lemma_number_from(q, table, front, g);
            assert(n.0 >= 0 ==> front[n.0] == items[n.0]);
            n
        }
    }
}

proof fn lemma_shelve_from(items: Seq<Item>, f: FileId) -> (n: int)
    requires
        shelve_all(Map::empty(), items).contains_key(f),
    ensures
        0 <= n < items.len(),
        items[n] is Part,
        items[n]->Part_part.file == f,
        shelve_all(Map::empty(), items)[f] == info_of(source(items[n]).files, f).unwrap(),
    decreases items.len(),
{
    if items.len() == 0 {
        assert(false);
        0
    } else {
        let front = items.drop_last();
        if items.last() is Part && items.last()->Part_part.file == f {
            items.len() - 1
        } else {
            let n = lemma_shelve_from(front, f);
            assert(front[n] == items[n]);
            n
        }
    }
}

/// What a writer has noted of a file of another generation is what a manifest lists that an item
/// was taken over from which needs the file.
pub proof fn lemma_remembered_from(w: TableWriter, f: FileId) -> (n: int)
    requires
        recorded(w),
        w.remembered().contains_key(f),
    ensures
        0 <= n < w.journal().len(),
        needed(w.place().0, w.journal()[n].0)(f),
        listed(source(w.journal()[n].0).files, f),
        source(w.journal()[n].0).history_generations.contains_key(f.generation),
        w.remembered()[f] == info_of(source(w.journal()[n].0).files, f).unwrap(),
{
    reveal(recorded);
    let n = lemma_note_from(w.place().0, items_of(w), f);
    assert(items_of(w)[n] == w.journal()[n].0);
    n
}

/// The sequence number that a writer has noted of another generation is that of a manifest that
/// an item was taken over from which needs a file of the generation.
pub proof fn lemma_sequence_from(w: TableWriter, g: u64) -> (n: (int, FileId))
    requires
        recorded(w),
        w.sequences().contains_key(g),
    ensures
        n.0 < w.journal().len(),
        n.0 < 0 ==> g == w.place().1 && w.sequences()[g] == w.place().3,
        n.0 >= 0 ==> needed(w.place().0, w.journal()[n.0].0)(n.1) && n.1.generation == g && source(
            w.journal()[n.0].0,
        ).history_generations.contains_key(g) && w.sequences()[g] == source(
            w.journal()[n.0].0,
        ).history_generations[g],
{
    reveal(recorded);
    let (table, generation, slot, lsn) = w.place();
    let n = lemma_number_from(map![generation => lsn], table, items_of(w), g);
    assert(n.0 >= 0 ==> items_of(w)[n.0] == w.journal()[n.0].0);
    n
}

/// What a writer has noted of an index file that it takes a partition from is what a manifest
/// lists that the partition was taken over from.
pub proof fn lemma_taken_from(w: TableWriter, f: FileId) -> (n: int)
    requires
        recorded(w),
        w.index().taken().contains_key(f),
    ensures
        0 <= n < w.journal().len(),
        w.journal()[n].0 is Part,
        w.journal()[n].0->Part_part.file == f,
        w.index().taken()[f] == info_of(source(w.journal()[n].0).files, f).unwrap(),
{
    reveal(recorded);
    let n = lemma_shelve_from(items_of(w), f);
    assert(items_of(w)[n] == w.journal()[n].0);
    n
}

/// Whether a writer stops at one of the items, in the state that those before it lead to.
pub open spec fn stopped(a: TableWriter, r: RootV, items: Seq<Item>, e: Error) -> bool {
    exists|w: TableWriter, n: int|
        0 <= n < items.len() && #[trigger] added(a, w, items.take(n)) && refused(w, r, items[n], e)
}

/// Whether a writer took items, or some of them and then stopped.
pub open spec fn took_all(
    a: TableWriter,
    b: TableWriter,
    r: RootV,
    items: Seq<Item>,
    result: Result<()>,
) -> bool {
    match result {
        Ok(_) => added(a, b, items),
        Err(e) => b.sound() && grew(a, b) && stopped(a, r, items, e),
    }
}

/// A writer that takes nothing stays as it is.
pub proof fn lemma_added_none(a: TableWriter)
    requires
        a.sound(),
    ensures
        added(a, a, Seq::empty()),
{
    reveal(noted_all);
    lemma_grew_same(a, a);
    assert(a.journal().take(a.journal().len() as int) =~= a.journal());
}

/// One more item that a writer took, or at which it stopped.
pub proof fn lemma_added_one(
    a: TableWriter,
    b: TableWriter,
    c: TableWriter,
    r: RootV,
    all: Seq<Item>,
    n: int,
    result: Result<()>,
)
    requires
        0 <= n < all.len(),
        added(a, b, all.take(n)),
        took(b, c, r, all[n], result),
    ensures
        result is Ok ==> added(a, c, all.take(n + 1)),
        result is Err ==> took_all(a, c, r, all, result),
{
    lemma_grew_twice(a, b, c);
    let items = all.take(n);
    let more = all.take(n + 1);
    assert(b.place() == a.place()) by {
        reveal(grew);
    }
    if result is Ok {
        reveal(noted_all);
        assert(more.drop_last() =~= items);
        assert(more.last() == all[n]);
        let k = a.journal().len() as int;
        assert(c.journal().take(k) =~= c.journal().drop_last().take(k));
        assert forall|i: int| 0 <= i < more.len() implies (#[trigger] c.journal()[k + i]).0
            == more[i] by {
            if i < items.len() {
                assert(c.journal()[k + i] == c.journal().drop_last()[k + i]);
                assert(b.journal()[k + i].0 == items[i]);
            } else {
                assert(c.journal()[k + i] == c.journal().last());
            }
        }
    }
}

/// The item of a step.
pub open spec fn step_item(r: RootV, id: u64, s: StepV) -> Item {
    match s {
        StepV::Reuse(route) => Item::Part { route, part: r.partitions[route], from: r },
        StepV::Snapshot(state) => Item::Snapshot { id, state },
        StepV::SnapshotLink(key, value) => Item::Link { kind: 5, key, value, from: r },
        StepV::Event(event) => Item::Event { id, event },
        StepV::EventLink(key, value) => Item::Link { kind: 4, key, value, from: r },
    }
}

/// The items of steps.
pub open spec fn step_items(r: RootV, id: u64, s: Seq<StepV>) -> Seq<Item> {
    s.map_values(|x: StepV| step_item(r, id, x))
}

impl TableWriter {
    /// Refers to history where it is.
    fn link(&mut self, root: &Root, kind: u8, key: Key, value: Value) -> (result: Result<()>)
        requires
            old(self).sound(),
            4 <= kind <= 5,
        ensures
            took(
                *old(self),
                *final(self),
                root@,
                Item::Link { kind, key, value, from: root@ },
                result,
            ),
            final(self).written() == old(self).written(),
    {
        let ghost before = *self;
        let ghost item = Item::Link { kind, key, value, from: root@ };
        let ghost need = needed(self.place().0, item);
        let file = if kind == 5 {
            FileId::new(self.table, value.0, 2, 0)
        } else {
            FileId::new(self.table, value.0, 6, event_split(value.1).0)
        };
        match self.remember(root, file) {
            Ok(_) => {},
            Err(e) => {
                proof {
                    lemma_noted_same(before, *self, root@, need);
                }
                return Err(e);
            },
        }
        let ghost middle = *self;
        proof {
            lemma_noted_link(before, middle, item, file);
        }
        let r = self.enter(kind, key, value, Some(file), Ghost(item));
        proof {
            lemma_grew_twice(before, middle, *self);
            if r is Err {
                assert(index_refused(before, item_kind(item), item_key(item), value, r->Err_0));
            } else {
                assert(self.journal().drop_last() =~= before.journal());
            }
        }
        r
    }

    /// Notes the files that a partition leads to.
    fn remember_all(
        &mut self,
        root: &Root,
        part: &Partition,
        Ghost(need): Ghost<spec_fn(FileId) -> bool>,
    ) -> (r: Result<()>)
        requires
            old(self).sound(),
            forall|f: FileId| #[trigger] need(f) == part@.dependencies.contains_key(f),
        ensures
            final(self).sound(),
            grew(*old(self), *final(self)),
            final(self).journal() == old(self).journal(),
            final(self).index() == old(self).index(),
            final(self).place() == old(self).place(),
            final(self).written() == old(self).written(),
            match r {
                Ok(_) => final(self).remembered() == note(old(self).remembered(), root@, need)
                    && final(self).sequences() == number(
                    old(self).sequences(),
                    old(self).remembered(),
                    root@,
                    need,
                ) && known(old(self).remembered(), root@, need),
                Err(e) => e is Corrupt && noted_some(*old(self), *final(self), root@, need)
                    && exists|f: FileId| #[trigger]
                    part@.dependencies.contains_key(f) && unknown(*old(self), root@, f),
            },
    {
        let ghost before = *self;
        proof {
            lemma_grew_same(before, before);
        }
        let items = part.dependencies.items();
        let ghost s = part.dependencies.entries();
        let ghost pair = |e: (&FileId, &())| (*e.0, *e.1);
        proof {
            assert(items@.map_values(pair).len() == items@.len());
        }
        let mut i: usize = 0;
        while i < items.len()
            invariant
                i <= items@.len(),
                pair == (|e: (&FileId, &())| (*e.0, *e.1)),
                items@.map_values(pair) == s,
                lists(s, part.dependencies@),
                self.sound(),
                grew(before, *self),
                self.journal() == before.journal(),
                self.index() == before.index(),
                self.place() == before.place(),
                self.written() == before.written(),
                before == *old(self),
                forall|f: FileId| #[trigger] need(f) == part@.dependencies.contains_key(f),
                noted_some(before, *self, root@, need),
                forall|j: int|
                    0 <= j < i ==> self.remembered().contains_key((#[trigger] s[j]).0),
                forall|f: FileId| #[trigger]
                    self.remembered().contains_key(f) && !before.remembered().contains_key(f)
                        ==> listed(root@.files, f) && root@.history_generations.contains_key(
                        f.generation,
                    ) && self.sequences().contains_key(f.generation)
                        && self.sequences()[f.generation]
                        == root@.history_generations[f.generation],
            decreases items@.len() - i,
        {
            let file = *items[i].0;
            let ghost middle = *self;
            proof {
                assert(items@.map_values(pair)[i as int] == (file, ()));
                assert(part.dependencies@.contains_key(file)) by {
                    reveal(lists);
                    assert(s[i as int].0 == file);
                }
                assert(unknown(middle, root@, file) ==> unknown(before, root@, file)) by {
                    reveal(grew);
                }
            }
            match self.remember(root, file) {
                Err(e) => {
                    proof {
                        lemma_grew_twice(before, middle, *self);
                        assert(part@.dependencies.contains_key(file));
                    }
                    return Err(e);
                },
                Ok(_) => {},
            }
            proof {
                lemma_grew_twice(before, middle, *self);
                assert forall|j: int| 0 <= j < i + 1 implies self.remembered().contains_key(
                    (#[trigger] s[j]).0,
                ) by {
                    if j < i {
                        assert(middle.remembered().contains_key(s[j].0));
                        reveal(grew);
                    }
                }
                assert(need(file));
                assert(s[i as int].0 == file);
                lemma_noted_one(before, middle, *self, root@, need, file);
            }
            i = i + 1;
        }
        proof {
            assert forall|f: FileId| #[trigger]
                part@.dependencies.contains_key(f) implies self.remembered().contains_key(f) by {
                reveal(lists);
                let j = choose|j: int| 0 <= j < s.len() && (#[trigger] s[j]).0 == f;
                assert(s[j].0 == f);
            }
            assert forall|g: u64| brings(before.remembered(), need, g) implies #[trigger]
                self.sequences().contains_key(g) && self.sequences()[g]
                    == root@.history_generations[g] by {
                let f = choose|f: FileId| #[trigger]
                    need(f) && !before.remembered().contains_key(f) && f.generation == g;
                assert(self.remembered().contains_key(f));
            }
            lemma_noted_whole(before, *self, root@, need);
        }
        Ok(())
    }
}

/// A writer that notes the file of a link notes what the link needs.
proof fn lemma_noted_link(a: TableWriter, b: TableWriter, item: Item, file: FileId)
    requires
        item is Link,
        !unknown(a, source(item), file),
        file == link_file(a.place().0, item->Link_kind, item->Link_value),
        b.index() == a.index(),
        b.remembered() == (if a.remembered().contains_key(file) {
            a.remembered()
        } else {
            a.remembered().insert(file, info_of(source(item).files, file).unwrap())
        }),
        b.sequences() == (if a.remembered().contains_key(file) {
            a.sequences()
        } else {
            a.sequences().insert(
                file.generation,
                source(item).history_generations[file.generation],
            )
        }),
    ensures
        noted(a, b, item),
        noted_some(a, b, source(item), needed(a.place().0, item)),
{
    let need = needed(a.place().0, item);
    let r = source(item);
    assert(need(file));
    assert(b.remembered() =~= note(a.remembered(), r, need));
    assert forall|g: u64| #[trigger] brings(a.remembered(), need, g) == (
    !a.remembered().contains_key(file) && file.generation == g) by {
        if brings(a.remembered(), need, g) {
            let f = choose|f: FileId| #[trigger]
                need(f) && !a.remembered().contains_key(f) && f.generation == g;
            assert(f == file);
        }
    }
    assert(b.sequences() =~= number(a.sequences(), a.remembered(), r, need));
}

/// One more file that a writer notes.
proof fn lemma_noted_one(
    a: TableWriter,
    b: TableWriter,
    c: TableWriter,
    r: RootV,
    need: spec_fn(FileId) -> bool,
    file: FileId,
)
    requires
        noted_some(a, b, r, need),
        need(file),
        grew(a, b),
        c.index() == b.index(),
        c.remembered() == (if b.remembered().contains_key(file) {
            b.remembered()
        } else {
            b.remembered().insert(file, info_of(r.files, file).unwrap())
        }),
        c.sequences() == (if b.remembered().contains_key(file) {
            b.sequences()
        } else {
            b.sequences().insert(file.generation, r.history_generations[file.generation])
        }),
    ensures
        noted_some(a, c, r, need),
{
    if !b.remembered().contains_key(file) {
        assert(!a.remembered().contains_key(file)) by {
            reveal(grew);
        }
        assert(brings(a.remembered(), need, file.generation));
    }
}

/// A writer that notes every file that it needs notes exactly these.
proof fn lemma_noted_whole(
    a: TableWriter,
    b: TableWriter,
    r: RootV,
    need: spec_fn(FileId) -> bool,
)
    requires
        noted_some(a, b, r, need),
        grew(a, b),
        forall|f: FileId| #[trigger] need(f) ==> b.remembered().contains_key(f),
        forall|g: u64|
            brings(a.remembered(), need, g) ==> #[trigger] b.sequences().contains_key(g)
                && b.sequences()[g] == r.history_generations[g],
    ensures
        b.remembered() == note(a.remembered(), r, need),
        b.sequences() == number(a.sequences(), a.remembered(), r, need),
{
    reveal(grew);
    assert(b.remembered() =~= note(a.remembered(), r, need));
    assert forall|g: u64| a.sequences().contains_key(g) || brings(
        a.remembered(),
        need,
        g,
    ) implies #[trigger] b.sequences().contains_key(g) by {
    }
    assert(b.sequences() =~= number(a.sequences(), a.remembered(), r, need));
}

/// A writer is sound after it took a partition over.
proof fn lemma_adopted(
    a: TableWriter,
    b: TableWriter,
    route: Route,
    part: PartV,
    from: RootV,
    v: Value,
)
    requires
        a.sound(),
        3 <= route.kind <= 5,
        b == (TableWriter { indexes: b.indexes, kept: b.kept, ..a }),
        b.kept@ == a.kept@.push((Item::Part { route, part, from }, v)) || b.kept@ == a.kept@,
        b.kept@ != a.kept@ ==> b.holds(Item::Part { route, part, from }, v),
        forall|f: FileId| #[trigger]
            a.indexes.taken().contains_key(f) ==> b.indexes.taken().contains_key(f),
        b.indexes.sound(),
        b.indexes.of(a.table, a.generation, a.lsn),
        b.indexes.most() == a.indexes.most(),
        forall|k: u8, r: Route|
            3 <= k <= 5 && #[trigger] a.indexes.lane(k).finished().contains_key(r)
                ==> b.indexes.lane(k).finished().contains_key(r) && b.indexes.lane(k).finished()[r]
                == a.indexes.lane(k).finished()[r],
        forall|k: u8, r: Route|
            3 <= k <= 5 && #[trigger] b.indexes.lane(k).finished().contains_key(r)
                ==> a.indexes.lane(k).finished().contains_key(r) || a.indexes.lane(
                k,
            ).contents().contains_key(r) || (r == route && b.kept@ != a.kept@),
        forall|k: u8, f: FileId|
            3 <= k <= 5 && #[trigger] b.indexes.lane(k).uses(f) ==> a.indexes.lane(k).uses(f),
        forall|k: u8|
            3 <= k <= 5 ==> (#[trigger] b.indexes.lane(k)).contents() == a.indexes.lane(
                k,
            ).contents(),
    ensures
        b.sound(),
        grew(a, b),
{
    assert(grew(a, b)) by {
        reveal(grew);
        assert(b.segments() == a.segments());
        assert forall|i: int| 0 <= i < a.segments().len() implies (
        #[trigger] a.segments()[i]).is_prefix_of(b.segments()[i]) by {
        }
    }
    assert forall|i: int| 0 <= i < b.kept@.len() implies b.holds(
        (#[trigger] b.kept@[i]).0,
        b.kept@[i].1,
    ) by {
        if i < a.kept@.len() {
            assert(b.kept@[i] == a.kept@[i]);
            assert(a.holds(a.kept@[i].0, a.kept@[i].1));
            lemma_holds_on(a, b, b.kept@[i].0, b.kept@[i].1);
        }
    }
    assert forall|kind: u8| 3 <= kind <= 5 implies (#[trigger] b.indexes.lane(kind)).contents()
        == filed(b.kept@, b.table, kind) by {
        assert(a.indexes.lane(kind).contents() == filed(a.kept@, a.table, kind));
        if b.kept@ != a.kept@ {
            assert(b.kept@.drop_last() =~= a.kept@);
        }
    }
    assert forall|kind: u8, f: FileId|
        3 <= kind <= 5 && #[trigger] b.indexes.lane(kind).uses(f) implies b.reaches(f) by {
        assert(a.indexes.lane(kind).uses(f));
        assert(a.reaches(f));
    }
    assert forall|kind: u8, at: Route|
        3 <= kind <= 5 && #[trigger] b.indexes.lane(kind).finished().contains_key(at)
            && !b.indexes.lane(kind).contents().contains_key(at) implies adopted(b.kept@, at) by {
        assert(!a.indexes.lane(kind).contents().contains_key(at));
        if a.indexes.lane(kind).finished().contains_key(at) {
            lemma_adopted_more(a.kept@, b.kept@, at);
        } else {
            assert(b.kept@[a.kept@.len() as int].0 == (Item::Part { route, part, from }));
        }
    }
    assert(ascending(b.kept@, b.table)) by {
        reveal(ascending);
        if b.kept@ != a.kept@ {
            assert(b.kept@.drop_last() =~= a.kept@);
            assert forall|kind: u8, at: Route|
                3 <= kind <= 5 && #[trigger] filed(b.kept@, b.table, kind).contains_key(
                    at,
                ) implies increasing(filed(b.kept@, b.table, kind)[at]) by {
                assert(filed(a.kept@, a.table, kind).contains_key(at));
            }
        }
    }
}

impl TableWriter {
    /// Takes an index partition over, with the files that it leads to.
    fn adopt(&mut self, root: &Root, route: Route, part: Partition) -> (result: Result<()>)
        requires
            old(self).sound(),
        ensures
            took(
                *old(self),
                *final(self),
                root@,
                Item::Part { route, part: part@, from: root@ },
                result,
            ),
            final(self).written() == old(self).written(),
    {
        let ghost before = *self;
        let ghost v = part@;
        let ghost item = Item::Part { route, part: v, from: root@ };
        let ghost need = needed(self.place().0, item);
        proof {
            lemma_grew_same(before, before);
            lemma_noted_same(before, before, root@, need);
        }
        if route.kind < 3 || route.kind > 5 {
            return Err(corrupt("invalid partition kind"));
        }
        match self.remember_all(root, &part, Ghost(need)) {
            Err(e) => {
                return Err(e);
            },
            Ok(_) => {},
        }
        let ghost middle = *self;
        match self.indexes.reuse(route, part, &root.files) {
            Err(e) => {
                proof {
                    lemma_adopted(middle, *self, route, v, root@, (0u64, 0u64));
                    lemma_grew_twice(before, middle, *self);
                }
                Err(e)
            },
            Ok(_) => {
                self.kept = Ghost(self.kept@.push((item, (0u64, 0u64))));
                proof {
                    lemma_adopted(middle, *self, route, v, root@, (0u64, 0u64));
                    lemma_grew_twice(before, middle, *self);
                    assert(self.journal().drop_last() =~= before.journal());
                }
                Ok(())
            },
        }
    }

    /// Carries out one step of carrying history over.
    fn step(&mut self, root: &Root, id: u64, step: &Step) -> (result: Result<()>)
        requires
            old(self).sound(),
        ensures
            took(*old(self), *final(self), root@, step_item(root@, id, step@), result),
            final(self).written() == old(self).written(),
    {
        match step {
            Step::Reuse(route) => match root.partitions.get(route) {
                None => {
                    proof {
                        lemma_grew_same(*self, *self);
                        lemma_noted_same(
                            *self,
                            *self,
                            root@,
                            needed(self.place().0, step_item(root@, id, step@)),
                        );
                    }
                    Err(corrupt("absent partition"))
                },
                Some(part) => {
                    assert(part@ == root@.partitions[*route]);
                    self.adopt(root, *route, part.clone())
                },
            },
            Step::Snapshot(state) => {
                let r = self.append_snapshot(id, state);
                assert(took(
                    *old(self),
                    *self,
                    root@,
                    Item::Snapshot { id, state: state@ },
                    r,
                ));
                r
            },
            Step::SnapshotLink(key, value) => self.link(root, 5, *key, *value),
            Step::Event(event) => {
                let r = self.append_event(id, event);
                assert(took(*old(self), *self, root@, Item::Event { id, event: event@ }, r));
                r
            },
            Step::EventLink(key, value) => self.link(root, 4, *key, *value),
        }
    }

    /// Carries out steps, as a part of more items.
    fn steps(
        &mut self,
        root: &Root,
        id: u64,
        steps: &Vec<Step>,
        Ghost(start): Ghost<TableWriter>,
        Ghost(all): Ghost<Seq<Item>>,
        Ghost(n): Ghost<int>,
    ) -> (result: Result<()>)
        requires
            old(self).sound(),
            0 <= n,
            n + steps@.len() <= all.len(),
            added(start, *old(self), all.take(n)),
            all.subrange(n, n + steps@.len()) == step_items(root@, id, steps_view(steps@)),
        ensures
            match result {
                Ok(_) => added(start, *final(self), all.take(n + steps@.len())),
                Err(e) => took_all(start, *final(self), root@, all, result),
            },
            final(self).written() == old(self).written(),
    {
        let ghost items = step_items(root@, id, steps_view(steps@));
        let mut i: usize = 0;
        while i < steps.len()
            invariant
                i <= steps@.len(),
                0 <= n,
                n + steps@.len() <= all.len(),
                items == step_items(root@, id, steps_view(steps@)),
                all.subrange(n, n + steps@.len()) == items,
                self.sound(),
                added(start, *self, all.take(n + i)),
                self.written() == old(self).written(),
            decreases steps@.len() - i,
        {
            let ghost before = *self;
            proof {
                assert(steps_view(steps@)[i as int] == steps@[i as int]@);
                assert(items[i as int] == step_item(root@, id, steps@[i as int]@));
                assert(all.subrange(n, n + steps@.len())[i as int] == all[n + i]);
            }
            let r = self.step(root, id, &steps[i]);
            proof {
                lemma_added_one(start, before, *self, root@, all, n + i, r);
            }
            if r.is_err() {
                return r;
            }
            i = i + 1;
        }
        Ok(())
    }
}

// ---- Entities ----

/// Entries from a version on.
pub open spec fn from_version<T>(version: u64) -> spec_fn((u64, T)) -> bool {
    |e: (u64, T)| version <= e.0
}

/// Entries behind a version.
pub open spec fn past_version<T>(version: u64) -> spec_fn((u64, T)) -> bool {
    |e: (u64, T)| version < e.0
}

/// The snapshots of an entity that a checkpoint writes.
pub open spec fn kept_states(d: DataV) -> Seq<(u64, EntityV)> {
    listing(d.snapshots).filter(from_version(d.base.version))
}

/// The committed events of an entity that a checkpoint writes.
pub open spec fn kept_events(d: DataV) -> Seq<(u64, EventV)> {
    listing(d.committed).filter(past_version(d.base.version))
}

/// What a checkpoint writes of an entity: its states, the history that is carried over, newer
/// snapshots, newer committed events and staged events.
pub open spec fn entity_items(id: u64, d: DataV, r: RootV, steps: Seq<StepV>) -> Seq<Item> {
    seq![Item::Entity { id, current: d.current, base: d.base }] + step_items(r, id, steps)
        + kept_states(d).map_values(|e: (u64, EntityV)| Item::Snapshot { id, state: e.1 })
        + kept_events(d).map_values(|e: (u64, EventV)| Item::Event { id, event: e.1 })
        + d.events.map_values(|e: EventV| Item::Event { id, event: e })
}

/// The manifest that the history of an entity is in.
pub open spec fn history_root(d: DataV) -> RootV {
    match d.disk {
        Some(disk) => disk.root,
        None => empty_root(),
    }
}

/// The steps that carry the history of an entity over.
pub open spec fn entity_steps(c: Copying, files: Files, id: u64, d: DataV) -> Outcome<Seq<StepV>> {
    match d.disk {
        Some(disk) => if d.base.version <= disk.through {
            history_steps(c, disk.root, files, id, Some(d), d.base.version, disk.through)
        } else {
            Ok(Seq::empty())
        },
        None => Ok(Seq::empty()),
    }
}

/// Whether planning how the history of an entity is carried over needs what a request names.
pub open spec fn entity_steps_ask(c: Copying, files: Files, id: u64, d: DataV, e: Error) -> bool {
    match d.disk {
        Some(disk) => d.base.version <= disk.through && history_asks(
            c,
            disk.root,
            files,
            id,
            Some(d),
            d.base.version,
            disk.through,
            e,
        ),
        None => false,
    }
}

/// Plans how the history of an entity is carried over.
pub fn plan_entity(c: Copying, loaded: &Loaded, id: u64, data: &EntityData) -> (r: Result<Vec<Step>>)
    ensures
        planned_to(
            loaded,
            r,
            |files: Files| entity_steps(c, files, id, data@),
            |files: Files, e: Error| entity_steps_ask(c, files, id, data@, e),
        ),
        match r {
            Ok(steps) => data.disk is None ==> steps@.len() == 0,
            Err(_) => true,
        },
{
    match &data.disk {
        None => {},
        Some(disk) => {
            if data.base.version <= disk.through {
                return plan_history(
                    c,
                    &disk.root,
                    loaded,
                    id,
                    Some(data),
                    data.base.version,
                    disk.through,
                );
            }
        },
    }
    let steps: Vec<Step> = Vec::new();
    assert(steps_view(steps@) =~= Seq::empty());
    Ok(steps)
}

fn later_states(data: &EntityData) -> (out: Vec<&Entity>)
    ensures
        out@.map_values(|e: &Entity| e@) == kept_states(data@).map_values(
            |e: (u64, EntityV)| e.1,
        ),
{
    let from: u64 = data.base.version;
    let mut range = data.snapshots.range(Bound::Included(from), Bound::Unbounded);
    let ghost g = |e: (u64, Entity)| (e.0, e.1@);
    let ghost second = |e: (u64, EntityV)| e.1;
    let ghost h = |e: &Entity| e@;
    let ghost all = range.remaining().map_values(g);
    proof {
        let s = data.snapshots.entries();
        let f = |x: Entity| x@;
        let p = |e: (u64, Entity)|
            above(Bound::Included(from), e.0) && within(Bound::Unbounded, e.0);
        lemma_listing_map(s, data.snapshots@, f);
        assert(s.map_values(|e: (u64, Entity)| (e.0, f(e.1))) =~= s.map_values(g));
        assert(data.snapshots@.map_values(f) =~= data@.snapshots);
        lemma_listing_is(s.map_values(g), data@.snapshots);
        lemma_filter_map(s, p, g, from_version(from));
    }
    let mut out: Vec<&Entity> = Vec::new();
    proof {
        assert(all == kept_states(data@));
        assert(out@.map_values(h) + all.map_values(second) =~= all.map_values(second));
    }
    loop
        invariant
            g == (|e: (u64, Entity)| (e.0, e.1@)),
            second == (|e: (u64, EntityV)| e.1),
            h == (|e: &Entity| e@),
            out@.map_values(h) + range.remaining().map_values(g).map_values(second)
                == all.map_values(second),
            all == kept_states(data@),
        decreases range.remaining().len(),
    {
        let ghost before = range.remaining();
        match range.next() {
            None => {
                assert(out@.map_values(h) =~= all.map_values(second));
                return out;
            },
            Some((_, v)) => {
                let ghost was = out@;
                out.push(v);
                proof {
                    let rest = range.remaining().map_values(g).map_values(second);
                    assert(before.map_values(g).map_values(second) =~= seq![v@] + rest);
                    assert(out@.map_values(h) =~= was.map_values(h).push(v@));
                    assert(was.map_values(h) + (seq![v@] + rest) =~= out@.map_values(h) + rest);
                }
            },
        }
    }
}

fn later_events(data: &EntityData) -> (out: Vec<&Event>)
    ensures
        out@.map_values(|e: &Event| e@) == kept_events(data@).map_values(|e: (u64, EventV)| e.1)
            + data@.events,
{
    let from: u64 = data.base.version;
    let mut range = data.committed.range(Bound::Excluded(from), Bound::Unbounded);
    let ghost g = |e: (u64, Event)| (e.0, e.1@);
    let ghost second = |e: (u64, EventV)| e.1;
    let ghost h = |e: &Event| e@;
    let ghost all = range.remaining().map_values(g);
    proof {
        let s = data.committed.entries();
        let f = |x: Event| x@;
        let p = |e: (u64, Event)|
            above(Bound::Excluded(from), e.0) && within(Bound::Unbounded, e.0);
        lemma_listing_map(s, data.committed@, f);
        assert(s.map_values(|e: (u64, Event)| (e.0, f(e.1))) =~= s.map_values(g));
        assert(data.committed@.map_values(f) =~= data@.committed);
        lemma_listing_is(s.map_values(g), data@.committed);
        lemma_filter_map(s, p, g, past_version(from));
    }
    let mut out: Vec<&Event> = Vec::new();
    proof {
        assert(all == kept_events(data@));
        assert(out@.map_values(h) + all.map_values(second) =~= all.map_values(second));
    }
    let mut more: bool = true;
    while more
        invariant
            g == (|e: (u64, Event)| (e.0, e.1@)),
            second == (|e: (u64, EventV)| e.1),
            h == (|e: &Event| e@),
            out@.map_values(h) + range.remaining().map_values(g).map_values(second)
                == all.map_values(second),
            all == kept_events(data@),
            !more ==> out@.map_values(h) == all.map_values(second),
        decreases range.remaining().len(), (if more { 1int } else { 0int }),
    {
        let ghost before = range.remaining();
        match range.next() {
            None => {
                more = false;
                assert(out@.map_values(h) =~= all.map_values(second));
            },
            Some((_, v)) => {
                let ghost was = out@;
                out.push(v);
                proof {
                    let rest = range.remaining().map_values(g).map_values(second);
                    assert(before.map_values(g).map_values(second) =~= seq![v@] + rest);
                    assert(out@.map_values(h) =~= was.map_values(h).push(v@));
                    assert(was.map_values(h) + (seq![v@] + rest) =~= out@.map_values(h) + rest);
                }
            },
        }
    }
    let mut i: usize = 0;
    let ghost front = all.map_values(second);
    assert(front + data@.events.take(0) =~= front);
    while i < data.events.len()
        invariant
            i <= data.events@.len(),
            h == (|e: &Event| e@),
            out@.map_values(h) == front + data@.events.take(i as int),
        decreases data.events@.len() - i,
    {
        let ghost was = out@;
        let event = &data.events[i];
        out.push(event);
        proof {
            assert(out@.map_values(h) =~= was.map_values(h).push(event@));
            assert(data@.events[i as int] == event@);
            assert(front + data@.events.take(i + 1) =~= (front + data@.events.take(i as int)).push(
                event@,
            ));
        }
        i = i + 1;
    }
    assert(data@.events.take(i as int) =~= data@.events);
    out
}

impl TableWriter {
    /// Writes an entity with its history, of which some is carried over by steps.
    pub fn append(&mut self, id: u64, data: &EntityData, steps: &Vec<Step>) -> (result: Result<()>)
        requires
            old(self).sound(),
            old(self).written() < u64::MAX,
            data.disk is None ==> steps@.len() == 0,
        ensures
            took_all(
                *old(self),
                *final(self),
                history_root(data@),
                entity_items(id, data@, history_root(data@), steps_view(steps@)),
                result,
            ),
            result is Ok ==> final(self).written() == old(self).written() + 1,
    {
        let ghost start = *self;
        let ghost r = history_root(data@);
        let ghost all = entity_items(id, data@, r, steps_view(steps@));
        let states = later_states(data);
        let events = later_events(data);
        let ghost n1 = 1 + steps@.len();
        let ghost n2 = n1 + states@.len();
        proof {
            lemma_added_none(start);
            assert(all.take(0) =~= Seq::empty());
            let hs = |e: &Entity| e@;
            let he = |e: &Event| e@;
            let s1 = |e: (u64, EntityV)| e.1;
            let s2 = |e: (u64, EventV)| e.1;
            assert(states@.map_values(hs).len() == states@.len());
            assert(events@.map_values(he).len() == events@.len());
            assert(kept_states(data@).map_values(s1).len() == kept_states(data@).len());
            assert(all.len() == n2 + events@.len());
            assert forall|j: int| 0 <= j < states@.len() implies #[trigger] all[n1 + j]
                == (Item::Snapshot { id, state: states@[j]@ }) by {
                assert(states@.map_values(hs)[j] == states@[j]@);
                assert(kept_states(data@).map_values(s1)[j] == kept_states(data@)[j].1);
            }
            assert forall|j: int| 0 <= j < events@.len() implies #[trigger] all[n2 + j]
                == (Item::Event { id, event: events@[j]@ }) by {
                assert(events@.map_values(he)[j] == events@[j]@);
                let k = kept_events(data@).len() as int;
                if j < k {
                    assert(kept_events(data@).map_values(s2)[j] == kept_events(data@)[j].1);
                }
            }
            assert(all[0] == (Item::Entity { id, current: data@.current, base: data@.base }));
            assert(all.subrange(1, n1 as int) =~= step_items(r, id, steps_view(steps@)));
        }
        let first = self.append_entity(id, &data.current, &data.base);
        proof {
            assert(took(start, *self, r, all[0], first));
            lemma_added_one(start, start, *self, r, all, 0, first);
        }
        if first.is_err() {
            return first;
        }
        let ghost uncounted = *self;
        self.entities = self.entities + 1;
        proof {
            lemma_counted(start, uncounted, *self, all.take(1));
        }
        match &data.disk {
            None => {},
            Some(disk) => {
                let carried = self.steps(
                    &disk.root,
                    id,
                    steps,
                    Ghost(start),
                    Ghost(all),
                    Ghost(1),
                );
                if carried.is_err() {
                    return carried;
                }
            },
        }
        let mut i: usize = 0;
        while i < states.len()
            invariant
                i <= states@.len(),
                self.sound(),
                n2 == n1 + states@.len(),
                all.len() == n2 + events@.len(),
                0 <= n1,
                forall|j: int| 0 <= j < states@.len() ==> #[trigger] all[n1 + j]
                    == (Item::Snapshot { id, state: states@[j]@ }),
                added(start, *self, all.take(n1 + i)),
                self.written() == start.written() + 1,
                start == *old(self),
                r == history_root(data@),
                all == entity_items(id, data@, r, steps_view(steps@)),
            decreases states@.len() - i,
        {
            let ghost before = *self;
            let put = self.append_snapshot(id, states[i]);
            proof {
                assert(all[n1 + i] == (Item::Snapshot { id, state: states@[i as int]@ }));
                assert(took(before, *self, r, all[n1 + i], put));
                lemma_added_one(start, before, *self, r, all, n1 + i, put);
            }
            if put.is_err() {
                return put;
            }
            i = i + 1;
        }
        let mut k: usize = 0;
        while k < events.len()
            invariant
                k <= events@.len(),
                self.sound(),
                all.len() == n2 + events@.len(),
                0 <= n2,
                forall|j: int| 0 <= j < events@.len() ==> #[trigger] all[n2 + j]
                    == (Item::Event { id, event: events@[j]@ }),
                added(start, *self, all.take(n2 + k)),
                self.written() == start.written() + 1,
                start == *old(self),
                r == history_root(data@),
                all == entity_items(id, data@, r, steps_view(steps@)),
            decreases events@.len() - k,
        {
            let ghost before = *self;
            let put = self.append_event(id, events[k]);
            proof {
                assert(all[n2 + k] == (Item::Event { id, event: events@[k as int]@ }));
                assert(took(before, *self, r, all[n2 + k], put));
                lemma_added_one(start, before, *self, r, all, n2 + k, put);
            }
            if put.is_err() {
                return put;
            }
            k = k + 1;
        }
        assert(all.take(all.len() as int) =~= all);
        Ok(())
    }
}

/// Counting an entity changes nothing else.
proof fn lemma_counted(a: TableWriter, c: TableWriter, b: TableWriter, items: Seq<Item>)
    requires
        added(a, c, items),
        b == (TableWriter { entities: b.entities, ..c }),
    ensures
        added(a, b, items),
{
    assert(grew(c, b)) by {
        reveal(grew);
        assert forall|i: int| 0 <= i < c.segments().len() implies (
        #[trigger] c.segments()[i]).is_prefix_of(b.segments()[i]) by {
        }
    }
    lemma_stored(c, b);
    lemma_grew_twice(a, c, b);
    reveal(noted_all);
    assert(c.remembered() == b.remembered() && c.sequences() == b.sequences());
}

// ---- What stays in its generation ----

/// What a checkpoint keeps of an entity that stays where it is.
pub open spec fn carried_items(id: u64, value: Value, r: RootV, steps: Seq<StepV>) -> Seq<Item> {
    seq![Item::Carried { id, value }] + step_items(r, id, steps)
}

/// Whether the slots of a partition have new slots.
pub open spec fn movable(p: PartV, slots: Seq<Option<u8>>) -> bool {
    forall|s: u8| #[trigger] p.slots.contains_key(s) ==> slots[p.slots[s] as int] is Some
}

/// A partition with the slots of a new manifest.
pub open spec fn moved_part(p: PartV, slots: Seq<Option<u8>>) -> PartV {
    PartV { slots: p.slots.map_values(|s: u8| slots[s as int].unwrap()), ..p }
}

/// Gives a partition the slots of a new manifest.
fn move_part(part: &Partition, slots: &Vec<Option<u8>>) -> (r: Result<Partition>)
    requires
        slots@.len() == MAX_SLOTS,
    ensures
        match r {
            Ok(p) => movable(part@, slots@) && p@ == moved_part(part@, slots@),
            Err(e) => e is Corrupt && !movable(part@, slots@),
        },
{
    let mut moved: OrderedMap<u8, u8> = OrderedMap::new();
    let items = part.slots.items();
    let ghost s = part.slots.entries();
    let ghost pair = |e: (&u8, &u8)| (*e.0, *e.1);
    proof {
        assert(items@.map_values(pair).len() == items@.len());
    }
    let mut i: usize = 0;
    while i < items.len()
        invariant
            i <= items@.len(),
            slots@.len() == MAX_SLOTS,
            pair == (|e: (&u8, &u8)| (*e.0, *e.1)),
            items@.map_values(pair) == s,
            increasing(s),
            lists(s, part.slots@),
            forall|k: u8| #[trigger]
                moved@.contains_key(k) ==> part.slots@.contains_key(k)
                    && slots@[part.slots@[k] as int] == Some(moved@[k]),
            forall|j: int| 0 <= j < i ==> moved@.contains_key((#[trigger] s[j]).0),
        decreases items@.len() - i,
    {
        let (key, slot) = (*items[i].0, *items[i].1);
        proof {
            assert(items@.map_values(pair)[i as int] == (key, slot));
            reveal(lists);
            assert(s[i as int] == (key, slot));
        }
        match slots[slot as usize] {
            None => {
                assert(part@.slots.contains_key(key));
                return Err(corrupt("reused collected partition"));
            },
            Some(new) => {
                moved.insert(key, new);
            },
        }
        i = i + 1;
    }
    proof {
        assert forall|k: u8| #[trigger] part.slots@.contains_key(k) implies moved@.contains_key(
            k,
        ) by {
            reveal(lists);
            let j = choose|j: int| 0 <= j < s.len() && (#[trigger] s[j]).0 == k;
            assert(moved@.contains_key(s[j].0));
        }
        assert(moved@ =~= moved_part(part@, slots@).slots);
    }
    let mut out = part.clone();
    out.slots = moved;
    Ok(out)
}

impl TableWriter {
    /// Records an entity that already lives in a kept generation.
    ///
    /// Only the primary index entry is rewritten, with its locators remapped to the slots of the
    /// new manifest. No record is copied.
    pub fn carry(&mut self, id: u64, value: Value, root: &Root, steps: &Vec<Step>) -> (result: Result<
        (),
    >)
        requires
            old(self).sound(),
        ensures
            took_all(
                *old(self),
                *final(self),
                root@,
                carried_items(id, value, root@, steps_view(steps@)),
                result,
            ),
            final(self).written() == old(self).written(),
    {
        let ghost start = *self;
        let ghost all = carried_items(id, value, root@, steps_view(steps@));
        let ghost item = Item::Carried { id, value };
        proof {
            lemma_added_none(start);
            assert(all.take(0) =~= Seq::empty());
            assert(all[0] == item);
            assert(all.subrange(1, 1 + steps@.len() as int) =~= step_items(
                root@,
                id,
                steps_view(steps@),
            ));
        }
        let first = self.enter(3, (id, 0), value, None, Ghost(item));
        proof {
            lemma_noted_none(start, *self, item);
            if first is Err {
                assert(index_refused(start, item_kind(item), item_key(item), value, first->Err_0));
            } else {
                assert(self.journal().drop_last() =~= start.journal());
            }
            assert(took(start, *self, root@, all[0], first));
            lemma_added_one(start, start, *self, root@, all, 0, first);
        }
        if first.is_err() {
            return first;
        }
        let r = self.steps(root, id, steps, Ghost(start), Ghost(all), Ghost(1));
        assert(all.take(all.len() as int) =~= all);
        r
    }

    /// Takes an index partition of a manifest over, with the slots of the new one.
    pub fn carry_partition(&mut self, root: &Root, route: Route, slots: &Vec<Option<u8>>) -> (result:
        Result<()>)
        requires
            old(self).sound(),
            slots@.len() == MAX_SLOTS,
            root@.partitions.contains_key(route),
        ensures
            movable(root@.partitions[route], slots@) ==> took(
                *old(self),
                *final(self),
                root@,
                Item::Part {
                    route,
                    part: moved_part(root@.partitions[route], slots@),
                    from: root@,
                },
                result,
            ),
            !movable(root@.partitions[route], slots@) ==> *final(self) == *old(self) && match result {
                Ok(_) => false,
                Err(e) => e is Corrupt,
            },
            final(self).written() == old(self).written(),
    {
        match root.partitions.get(&route) {
            None => Err(corrupt("absent partition")),
            Some(part) => {
                assert(part@ == root@.partitions[route]);
                let moved = move_part(part, slots)?;
                self.adopt(root, route, moved)
            },
        }
    }

    /// Takes the index partitions of a kind over that hold history of a range of entities.
    fn carry_kind(
        &mut self,
        root: &Root,
        kind: u8,
        lower: u64,
        upper: u64,
        slots: &Vec<Option<u8>>,
    ) -> (result: Result<()>)
        requires
            old(self).sound(),
            slots@.len() == MAX_SLOTS,
        ensures
            ({
                let parts = range_parts(root@, old(self).place().0, kind, lower, upper);
                if all_movable(parts, slots@) {
                    took_all(*old(self), *final(self), root@, moved_items(root@, parts, slots@), result)
                } else {
                    result is Err && final(self).sound() && grew(*old(self), *final(self)) && (
                    result->Err_0 is Corrupt || result->Err_0 is LimitExceeded)
                }
            }),
            final(self).written() == old(self).written(),
            result is Err ==> !(result->Err_0 is Unread),
    {
        let from = Route { table: self.table, kind, low: lower, low_second: 0 };
        let to = Route { table: self.table, kind, low: upper, low_second: u64::MAX };
        let found = root.routed(from, to);
        let ghost h = |e: (Route, &Partition)| (e.0, e.1@);
        let ghost parts = range_parts(root@, self.place().0, kind, lower, upper);
        let ghost all = moved_items(root@, parts, slots@);
        let ghost start = *self;
        proof {
            assert(found@.map_values(h) == parts);
            lemma_added_none(start);
            assert(all.take(0) =~= Seq::empty());
        }
        let mut i: usize = 0;
        while i < found.len()
            invariant
                i <= found@.len(),
                slots@.len() == MAX_SLOTS,
                self.sound(),
                grew(start, *self),
                start == *old(self),
                h == (|e: (Route, &Partition)| (e.0, e.1@)),
                found@.map_values(h) == parts,
                parts == range_parts(root@, start.place().0, kind, lower, upper),
                all == moved_items(root@, parts, slots@),
                all_movable(parts, slots@) ==> added(start, *self, all.take(i as int)),
                forall|j: int| 0 <= j < i ==> movable((#[trigger] parts[j]).1, slots@),
                self.written() == start.written(),
            decreases found@.len() - i,
        {
            let (route, part) = found[i];
            let ghost before = *self;
            proof {
                assert(found@.map_values(h)[i as int] == (route, part@));
                assert(parts[i as int] == (route, part@));
            }
            let moved = match move_part(part, slots) {
                Ok(moved) => moved,
                Err(e) => {
                    return Err(e);
                },
            };
            let ghost v = moved@;
            let r = self.adopt(root, route, moved);
            proof {
                assert(all[i as int] == (Item::Part { route, part: v, from: root@ }));
                lemma_grew_twice(start, before, *self);
                if all_movable(parts, slots@) {
                    lemma_added_one(start, before, *self, root@, all, i as int, r);
                }
            }
            if r.is_err() {
                proof {
                    lemma_refused_known(
                        before,
                        root@,
                        Item::Part { route, part: v, from: root@ },
                        r->Err_0,
                    );
                }
                return r;
            }
            i = i + 1;
        }
        proof {
            assert(found@.map_values(h).len() == found@.len());
            assert(all_movable(parts, slots@));
            assert(all.take(all.len() as int) =~= all);
        }
        Ok(())
    }

    /// Takes the index partitions over that hold history of a range of entities: those of
    /// events, then those of snapshots.
    pub fn carry_partition_history(
        &mut self,
        root: &Root,
        lower: u64,
        upper: u64,
        slots: &Vec<Option<u8>>,
    ) -> (result: Result<()>)
        requires
            old(self).sound(),
            slots@.len() == MAX_SLOTS,
        ensures
            final(self).sound(),
            grew(*old(self), *final(self)),
            ({
                let events = range_parts(root@, old(self).place().0, 4, lower, upper);
                let states = range_parts(root@, old(self).place().0, 5, lower, upper);
                match result {
                    Ok(_) => all_movable(events, slots@) && all_movable(states, slots@) && added(
                        *old(self),
                        *final(self),
                        moved_items(root@, events, slots@) + moved_items(root@, states, slots@),
                    ),
                    Err(e) => (!all_movable(events, slots@) || !all_movable(states, slots@)) && (e
                        is Corrupt || e is LimitExceeded) || stopped(
                        *old(self),
                        root@,
                        moved_items(root@, events, slots@) + moved_items(root@, states, slots@),
                        e,
                    ),
                }
            }),
            final(self).written() == old(self).written(),
            result is Err ==> !(result->Err_0 is Unread),
    {
        let ghost start = *self;
        let ghost a = moved_items(root@, range_parts(root@, start.place().0, 4, lower, upper), slots@);
        let ghost b = moved_items(root@, range_parts(root@, start.place().0, 5, lower, upper), slots@);
        let first = self.carry_kind(root, 4, lower, upper, slots);
        if first.is_err() {
            proof {
                if all_movable(range_parts(root@, start.place().0, 4, lower, upper), slots@) {
                    lemma_stopped_first(start, root@, a, b, first->Err_0);
                }
            }
            return first;
        }
        let ghost middle = *self;
        proof {
            assert(middle.place() == start.place()) by {
                reveal(grew);
            }
        }
        let second = self.carry_kind(root, 5, lower, upper, slots);
        proof {
            lemma_grew_twice(start, middle, *self);
            if all_movable(range_parts(root@, start.place().0, 4, lower, upper), slots@)
                && all_movable(range_parts(root@, start.place().0, 5, lower, upper), slots@) {
                lemma_added_more(start, middle, a, b);
                if second is Ok {
                    lemma_added_both(start, middle, *self, a, b);
                } else {
                    lemma_stopped_second(start, middle, root@, a, b, second->Err_0);
                }
            }
        }
        second
    }
}

/// The partitions of a kind with entries of a range of entities.
pub open spec fn range_parts(r: RootV, table: u64, kind: u8, lower: u64, upper: u64) -> Seq<
    (Route, PartV),
> {
    listing(r.partitions).filter(
        between_routes(
            Route { table, kind, low: lower, low_second: 0 },
            Route { table, kind, low: upper, low_second: u64::MAX },
        ),
    )
}

/// Whether all of partitions have new slots.
pub open spec fn all_movable(parts: Seq<(Route, PartV)>, slots: Seq<Option<u8>>) -> bool {
    forall|i: int| 0 <= i < parts.len() ==> movable((#[trigger] parts[i]).1, slots)
}

/// Partitions with the slots of a new manifest.
pub open spec fn moved_items(r: RootV, parts: Seq<(Route, PartV)>, slots: Seq<Option<u8>>) -> Seq<
    Item,
> {
    parts.map_values(
        |e: (Route, PartV)| Item::Part { route: e.0, part: moved_part(e.1, slots), from: r },
    )
}

/// Items that a writer took, one run after another.
pub proof fn lemma_added_both(
    a: TableWriter,
    b: TableWriter,
    c: TableWriter,
    x: Seq<Item>,
    y: Seq<Item>,
)
    requires
        added(a, b, x),
        added(b, c, y),
    ensures
        added(a, c, x + y),
{
    lemma_grew_twice(a, b, c);
    assert(b.place() == a.place()) by {
        reveal(grew);
    }
    reveal(noted_all);
    lemma_noted_both(
        a.sequences(),
        a.remembered(),
        a.index().taken(),
        a.place().0,
        x,
        y,
    );
    let k = a.journal().len() as int;
    let m = b.journal().len() as int;
    assert(c.journal().take(k) =~= c.journal().take(m).take(k));
    assert forall|i: int| 0 <= i < (x + y).len() implies (#[trigger] c.journal()[k + i]).0 == (x
        + y)[i] by {
        if i < x.len() {
            assert(c.journal()[k + i] == c.journal().take(m)[k + i]);
            assert(b.journal()[k + i].0 == x[i]);
        } else {
            assert(c.journal()[m + (i - x.len())].0 == y[i - x.len()]);
        }
    }
}

proof fn lemma_added_more(a: TableWriter, b: TableWriter, x: Seq<Item>, y: Seq<Item>)
    requires
        added(a, b, x),
    ensures
        (x + y).take(x.len() as int) == x,
{
    assert((x + y).take(x.len() as int) =~= x);
}

proof fn lemma_stopped_first(a: TableWriter, r: RootV, x: Seq<Item>, y: Seq<Item>, e: Error)
    requires
        stopped(a, r, x, e),
    ensures
        stopped(a, r, x + y, e),
{
    let (w, n) = choose|w: TableWriter, n: int|
        0 <= n < x.len() && #[trigger] added(a, w, x.take(n)) && refused(w, r, x[n], e);
    assert((x + y).take(n) =~= x.take(n));
    assert((x + y)[n] == x[n]);
    assert(added(a, w, (x + y).take(n)));
}

proof fn lemma_stopped_second(
    a: TableWriter,
    b: TableWriter,
    r: RootV,
    x: Seq<Item>,
    y: Seq<Item>,
    e: Error,
)
    requires
        added(a, b, x),
        stopped(b, r, y, e),
    ensures
        stopped(a, r, x + y, e),
{
    let (w, n) = choose|w: TableWriter, n: int|
        0 <= n < y.len() && #[trigger] added(b, w, y.take(n)) && refused(w, r, y[n], e);
    lemma_added_both(a, b, w, x, y.take(n));
    let k = x.len() + n;
    assert((x + y).take(k) =~= x + y.take(n));
    assert((x + y)[k] == y[n]);
    assert(added(a, w, (x + y).take(k)));
}

// ---- Finished files ----

/// The files of a table, and what a manifest says of them.
pub struct TableOutput {
    /// The files with their bytes.
    pub contents: Vec<(FileId, Vec<u8>)>,
    /// Files of other generations that are still needed.
    pub reused: Vec<FileInfo>,
    /// How many entities were written.
    pub entities: u64,
    /// The sequence numbers of generations with history.
    pub history_generations: OrderedMap<u64, u64>,
    /// The index partitions.
    pub partitions: OrderedMap<Route, Partition>,
}

impl TableOutput {
    /// Whether a file is among the files.
    pub open spec fn has(self, file: FileId, bytes: Seq<u8>) -> bool {
        exists|i: int|
            0 <= i < self.contents@.len() && (#[trigger] self.contents@[i]).0 == file
                && self.contents@[i].1@ == bytes
    }

    /// Whether the files of a store hold these.
    pub open spec fn stands_in(self, files: Files) -> bool {
        forall|i: int|
            0 <= i < self.contents@.len() ==> files.contains_key((#[trigger] self.contents@[i]).0)
                && files[self.contents@[i].0] == self.contents@[i].1@
    }

    /// The index partitions.
    pub open spec fn parts(self) -> Map<Route, PartV> {
        self.partitions@.map_values(|p: Partition| p@)
    }

    /// The references to the written files.
    pub fn describe(&self) -> (infos: Vec<FileInfo>)
        ensures
            infos@.len() == self.contents@.len(),
            forall|i: int|
                0 <= i < infos@.len() ==> (#[trigger] infos@[i]).named() == self.contents@[i].0
                    && infos@[i].size == self.contents@[i].1@.len() && infos@[i].crc == crc(
                    self.contents@[i].1@,
                ),
    {
        let mut infos: Vec<FileInfo> = Vec::new();
        let mut i: usize = 0;
        while i < self.contents.len()
            invariant
                i <= self.contents@.len(),
                infos@.len() == i,
                forall|j: int|
                    0 <= j < i ==> (#[trigger] infos@[j]).named() == self.contents@[j].0
                        && infos@[j].size == self.contents@[j].1@.len() && infos@[j].crc == crc(
                        self.contents@[j].1@,
                    ),
            decreases self.contents@.len() - i,
        {
            let (file, bytes) = &self.contents[i];
            infos.push(
                FileInfo {
                    generation: file.generation,
                    table: file.table,
                    kind: file.kind,
                    segment: file.segment,
                    size: bytes.len() as u64,
                    crc: crc32c(bytes.as_slice()),
                },
            );
            i = i + 1;
        }
        infos
    }
}

/// Puts the partitions of one map into another.
pub fn merge(into: &mut OrderedMap<Route, Partition>, from: &OrderedMap<Route, Partition>)
    ensures
        forall|at: Route| #[trigger]
            final(into)@.contains_key(at) == (old(into)@.contains_key(at) || from@.contains_key(
                at,
            )),
        forall|at: Route|
            #![trigger final(into)@[at]]
            from@.contains_key(at) ==> final(into)@[at]@ == from@[at]@,
        forall|at: Route|
            #![trigger final(into)@[at]]
            old(into)@.contains_key(at) && !from@.contains_key(at) ==> final(into)@[at]
                == old(into)@[at],
{
    let items = from.items();
    let ghost s = from.entries();
    let ghost pair = |e: (&Route, &Partition)| (*e.0, *e.1);
    proof {
        assert(items@.map_values(pair).len() == items@.len());
    }
    let mut i: usize = 0;
    while i < items.len()
        invariant
            i <= items@.len(),
            pair == (|e: (&Route, &Partition)| (*e.0, *e.1)),
            items@.map_values(pair) == s,
            lists(s, from@),
            forall|at: Route| #[trigger]
                into@.contains_key(at) ==> old(into)@.contains_key(at) || from@.contains_key(at),
            forall|at: Route| #[trigger] old(into)@.contains_key(at) ==> into@.contains_key(at),
            forall|at: Route|
                #![trigger into@[at]]
                old(into)@.contains_key(at) && !from@.contains_key(at) ==> into@[at]
                    == old(into)@[at],
            forall|j: int|
                0 <= j < i ==> into@.contains_key((#[trigger] s[j]).0) && into@[s[j].0]@
                    == s[j].1@,
        decreases items@.len() - i,
    {
        let (route, part) = items[i];
        proof {
            assert(items@.map_values(pair)[i as int] == (*route, *part));
            reveal(lists);
            assert(s[i as int] == (*route, *part));
        }
        into.insert(*route, part.clone());
        proof {
            assert forall|j: int| 0 <= j < i + 1 implies into@.contains_key((#[trigger] s[j]).0)
                && into@[s[j].0]@ == s[j].1@ by {
                if j < i && s[j].0 == *route {
                    reveal(lists);
                    assert(from@[s[j].0] == s[j].1);
                }
            }
        }
        i = i + 1;
    }
    proof {
        assert forall|at: Route| #[trigger] from@.contains_key(at) implies into@.contains_key(at)
            && into@[at]@ == from@[at]@ by {
            reveal(lists);
            let j = choose|j: int| 0 <= j < s.len() && (#[trigger] s[j]).0 == at;
            assert(s[j].0 == at && from@[at] == s[j].1);
        }
    }
}

/// The references that a map holds, in the order of the files.
pub open spec fn infos(m: Map<FileId, FileInfo>) -> Seq<FileInfo> {
    listing(m).map_values(|e: (FileId, FileInfo)| e.1)
}

fn infos_of(map: &OrderedMap<FileId, FileInfo>, out: &mut Vec<FileInfo>)
    ensures
        final(out)@ == old(out)@ + infos(map@),
        map@.dom().finite(),
        forall|i: int|
            0 <= i < old(out)@.len() ==> final(out)@.contains(#[trigger] old(out)@[i]),
        forall|f: FileId| #[trigger] map@.contains_key(f) ==> final(out)@.contains(map@[f]),
        forall|i: int|
            0 <= i < final(out)@.len() ==> old(out)@.contains(#[trigger] final(out)@[i]) || exists|
                f: FileId,
            | #[trigger] map@.contains_key(f) && map@[f] == final(out)@[i],
{
    let items = map.items();
    let ghost s = map.entries();
    let ghost was = out@;
    let ghost pair = |e: (&FileId, &FileInfo)| (*e.0, *e.1);
    proof {
        assert(items@.map_values(pair).len() == items@.len());
    }
    let mut i: usize = 0;
    while i < items.len()
        invariant
            i <= items@.len(),
            was == old(out)@,
            pair == (|e: (&FileId, &FileInfo)| (*e.0, *e.1)),
            items@.map_values(pair) == s,
            lists(s, map@),
            out@.len() == was.len() + i,
            forall|j: int| 0 <= j < was.len() ==> #[trigger] out@[j] == was[j],
            forall|j: int| 0 <= j < i ==> out@[was.len() + j] == (#[trigger] s[j]).1,
        decreases items@.len() - i,
    {
        let info = *items[i].1;
        assert(items@.map_values(pair)[i as int] == s[i as int]);
        out.push(info);
        i = i + 1;
    }
    proof {
        lemma_listing_is(s, map@);
        lemma_listing_len(s, map@);
        assert(out@ =~= was + infos(map@));
    }
    proof {
        assert forall|j: int| 0 <= j < was.len() implies out@.contains(#[trigger] was[j]) by {
            assert(out@[j] == was[j]);
        }
        assert forall|f: FileId| #[trigger] map@.contains_key(f) implies out@.contains(map@[f]) by {
            reveal(lists);
            let j = choose|j: int| 0 <= j < s.len() && (#[trigger] s[j]).0 == f;
            assert(out@[was.len() + j] == s[j].1);
        }
        assert forall|j: int| 0 <= j < out@.len() implies was.contains(#[trigger] out@[j])
            || exists|f: FileId| #[trigger] map@.contains_key(f) && map@[f] == out@[j] by {
            if j < was.len() {
                assert(was[j] == out@[j]);
            } else {
                reveal(lists);
                let k = j - was.len();
                assert(out@[was.len() + k] == s[k].1);
                assert(map@.contains_key(s[k].0));
            }
        }
    }
}

impl TableWriter {
    /// Finishes the files.
    pub fn finish(self) -> (out: TableOutput)
        requires
            self.sound(),
        ensures
            finished_as(self, out),
            out.entities == self.written(),
            out.history_generations@ == self.sequences(),
            out.reused@ == infos(self.remembered()) + infos(self.index().taken()),
            self.remembered().dom().finite() && self.index().taken().dom().finite(),
            forall|at: Route, f: FileId|
                #![trigger out.parts()[at].dependencies.contains_key(f)]
                self.index().lane(at.kind).contents().contains_key(at) && 3 <= at.kind <= 5
                    && out.parts()[at].dependencies.contains_key(f) ==> self.reaches(f),
            forall|a: Route, b: Route|
                #![trigger out.parts()[a], out.parts()[b]]
                3 <= a.kind <= 5 && a.kind == b.kind && self.index().lane(
                    a.kind,
                ).contents().contains_key(a) && self.index().lane(a.kind).contents().contains_key(b)
                    && a != b ==> out.parts()[a].base != out.parts()[b].base,
            forall|i: int, j: int|
                0 <= i < j < out.contents@.len() <= u64::MAX ==> (#[trigger] out.contents@[i]).0 != (
                #[trigger] out.contents@[j]).0,
            forall|kind: u8|
                kind <= 2 ==> out.has(
                    FileId {
                        table: self.place().0,
                        generation: self.place().1,
                        kind,
                        segment: 0,
                    },
                    (#[trigger] self.heap(kind)).image(),
                ),
            forall|i: int|
                0 <= i < self.segments().len() && i <= u64::MAX ==> out.has(
                    FileId {
                        table: self.place().0,
                        generation: self.place().1,
                        kind: 6,
                        segment: i as u64,
                    },
                    #[trigger] self.segments()[i],
                ),
            forall|kind: u8, at: Route|
                3 <= kind <= 5 && #[trigger] self.index().lane(kind).contents().contains_key(at)
                    ==> stands(self, out, kind, at),
            forall|kind: u8, at: Route|
                3 <= kind <= 5 && #[trigger] self.index().lane(kind).finished().contains_key(at)
                    ==> out.parts().contains_key(at) && out.parts()[at] == self.index().lane(
                    kind,
                ).finished()[at],
            forall|f: FileId| #[trigger]
                self.remembered().contains_key(f) ==> out.reused@.contains(self.remembered()[f]),
            forall|f: FileId| #[trigger]
                self.index().taken().contains_key(f) ==> out.reused@.contains(
                    self.index().taken()[f],
                ),
            forall|i: int|
                0 <= i < out.reused@.len() ==> holds_info(
                    self.remembered(),
                    #[trigger] out.reused@[i],
                ) || holds_info(self.index().taken(), out.reused@[i]),
            forall|at: Route| #[trigger]
                out.parts().contains_key(at) ==> 3 <= at.kind <= 5 && self.index().lane(
                    at.kind,
                ).has(at),
            forall|i: int|
                0 <= i < out.contents@.len() && out.contents@.len() <= u64::MAX ==> own_file(
                    self,
                    (#[trigger] out.contents@[i]).0,
                    out.contents@[i].1@,
                ),
    {
        let ghost w = self;
        proof {
            w.indexes.lemma_lanes();
        }
        let (table, generation) = (self.table, self.generation);
        let mut contents: Vec<(FileId, Vec<u8>)> = Vec::new();
        let built = self.indexes.finish();
        let mut reused: Vec<FileInfo> = Vec::new();
        infos_of(&self.reused, &mut reused);
        let ghost some = reused@;
        infos_of(&built.taken, &mut reused);
        let mut partitions: OrderedMap<Route, Partition> = OrderedMap::new();
        merge(&mut partitions, &built.primary.1);
        merge(&mut partitions, &built.events.1);
        merge(&mut partitions, &built.snapshots.1);
        let ghost data = |kind: u8| built.data(kind);
        let ghost parts = |kind: u8| built.parts(kind);
        proof {
            assert forall|kind: u8, at: Route|
                3 <= kind <= 5 && #[trigger] parts(kind).contains_key(
                    at,
                ) implies partitions@.contains_key(at) && partitions@[at]@ == parts(kind)[at] by {
                assert(at.kind == kind);
            }
        }
        add_file(&mut contents, FileId::new(table, generation, 3, 0), built.primary.0);
        let ghost c3 = contents@;
        add_file(&mut contents, FileId::new(table, generation, 4, 0), built.events.0);
        let ghost c4 = contents@;
        add_file(&mut contents, FileId::new(table, generation, 5, 0), built.snapshots.0);
        let ghost c5 = contents@;
        contents.push((FileId::new(table, generation, 0, 0), self.current.finish()));
        contents.push((FileId::new(table, generation, 1, 0), self.bases.finish()));
        contents.push((FileId::new(table, generation, 2, 0), self.snapshots.finish()));
        let ghost front = contents@;
        let ghost segments = self.history@;
        let mut left = reversed(self.history);
        let ghost total = segments.len() as int;
        let mut segment: usize = 0;
        let count: usize = left.len();
        while left.len() > 0
            invariant
                total == segments.len(),
                left@.len() <= total,
                forall|i: int| 0 <= i < left@.len() ==> #[trigger] left@[i] == segments[total - 1 - i],
                contents@.len() == front.len() + total - left@.len(),
                forall|i: int| 0 <= i < front.len() ==> #[trigger] contents@[i] == front[i],
                forall|i: int|
                    front.len() <= i < contents@.len() && i - front.len() <= u64::MAX ==> (
                    #[trigger] contents@[i]).0 == (FileId {
                        table,
                        generation,
                        kind: 6,
                        segment: (i - front.len()) as u64,
                    }) && contents@[i].1 == segments[i - front.len()],
                front.len() <= contents@.len(),
                segment as int == total - left@.len(),
                total <= usize::MAX,
            decreases left@.len(),
        {
            match left.pop() {
                None => {},
                Some(bytes) => {
                    contents.push((FileId::new(table, generation, 6, segment as u64), bytes));
                    segment = segment + 1;
                },
            }
        }
        let out = TableOutput {
            contents,
            reused,
            entities: self.entities,
            history_generations: self.history_generations,
            partitions,
        };
        proof {
            let n = front.len() as int;
            assert forall|kind: u8| kind <= 2 implies out.has(
                FileId { table, generation, kind, segment: 0 },
                (#[trigger] w.heap(kind)).image(),
            ) by {
                let k = n - 3 + kind;
                assert(out.contents@[k] == front[k]);
            }
            assert forall|i: int|
                0 <= i < w.segments().len() && i <= u64::MAX implies out.has(
                FileId { table, generation, kind: 6, segment: i as u64 },
                #[trigger] w.segments()[i],
            ) by {
                assert(segments[i]@ == w.segments()[i]);
                assert(out.contents@[n + i].1 == segments[i]);
            }
            assert forall|kind: u8, at: Route|
                3 <= kind <= 5 && #[trigger] w.index().lane(kind).contents().contains_key(
                    at,
                ) implies stands(w, out, kind, at) by {
                assert(parts(kind).contains_key(at));
                let file = FileId { table, generation, kind, segment: 0 };
                assert(w.indexes.lane(kind).target() == file);
                assert(data(kind).len() > 0);
                let k = if kind == 3 {
                    c3.len() - 1
                } else if kind == 4 {
                    c4.len() - 1
                } else {
                    c5.len() - 1
                };
                assert(out.contents@[k] == front[k]);
                assert(out.has(file, data(kind)));
                assert(out.parts()[at] == parts(kind)[at]);
            }
            assert forall|at: Route, f: FileId|
                #![trigger out.parts()[at].dependencies.contains_key(f)]
                w.index().lane(at.kind).contents().contains_key(at) && 3 <= at.kind <= 5
                    && out.parts()[at].dependencies.contains_key(f) implies w.reaches(f) by {
                assert(built.parts(at.kind)[at].dependencies.contains_key(f));
                assert(w.indexes.lane(at.kind).uses(f));
            }
            assert forall|a: Route, b: Route|
                #![trigger out.parts()[a], out.parts()[b]]
                3 <= a.kind <= 5 && a.kind == b.kind && w.index().lane(
                    a.kind,
                ).contents().contains_key(a) && w.index().lane(a.kind).contents().contains_key(b)
                    && a != b implies out.parts()[a].base != out.parts()[b].base by {
                assert(parts(a.kind).contains_key(a) && parts(a.kind).contains_key(b));
            }
            assert forall|i: int, j: int| 0 <= i < j < out.contents@.len() <= u64::MAX implies (
            #[trigger] out.contents@[i]).0 != (#[trigger] out.contents@[j]).0 by {
                assert(i < n ==> out.contents@[i] == front[i]);
                assert(i < c5.len() ==> front[i] == c5[i]);
                assert(i < c4.len() ==> c5[i] == c4[i]);
                assert(i < c3.len() ==> c4[i] == c3[i]);
                assert(c4.len() <= i < c5.len() ==> c5[i] == c5.last());
                assert(c3.len() <= i < c4.len() ==> c4[i] == c4.last());
                assert(i < c3.len() ==> c3[i] == c3.last());
                assert(j < n ==> out.contents@[j] == front[j]);
                assert(j < c5.len() ==> front[j] == c5[j]);
                assert(j < c4.len() ==> c5[j] == c4[j]);
                assert(j < c3.len() ==> c4[j] == c3[j]);
                assert(c4.len() <= j < c5.len() ==> c5[j] == c5.last());
                assert(c3.len() <= j < c4.len() ==> c4[j] == c4.last());
                assert(j < c3.len() ==> c3[j] == c3.last());
            }
            assert forall|kind: u8, at: Route|
                3 <= kind <= 5 && #[trigger] w.index().lane(kind).finished().contains_key(
                    at,
                ) implies out.parts().contains_key(at) && out.parts()[at] == w.index().lane(
                kind,
            ).finished()[at] by {
                assert(parts(kind).contains_key(at));
            }
            assert forall|f: FileId| #[trigger] w.remembered().contains_key(
                f,
            ) implies out.reused@.contains(w.remembered()[f]) by {
                assert(some.contains(w.remembered()[f]));
                let j = choose|j: int| 0 <= j < some.len() && some[j] == w.remembered()[f];
                assert(out.reused@.contains(some[j]));
            }
            assert forall|i: int| 0 <= i < out.reused@.len() implies holds_info(
                w.remembered(),
                #[trigger] out.reused@[i],
            ) || holds_info(w.index().taken(), out.reused@[i]) by {
                if some.contains(out.reused@[i]) {
                    let j = choose|j: int| 0 <= j < some.len() && some[j] == out.reused@[i];
                    assert(holds_info(w.remembered(), some[j]));
                }
            }
            assert forall|at: Route| #[trigger] out.parts().contains_key(at) implies 3 <= at.kind
                <= 5 && w.index().lane(at.kind).has(at) by {
                assert(built.parts(at.kind).contains_key(at));
            }
            assert forall|i: int| 0 <= i < out.contents@.len() && out.contents@.len() <= u64::MAX implies own_file(
                w,
                (#[trigger] out.contents@[i]).0,
                out.contents@[i].1@,
            ) by {
                if i < n {
                    assert(out.contents@[i] == front[i]);
                    if i < n - 3 {
                        assert(front[i] == c5[i]);
                        if i < c4.len() {
                            assert(c5[i] == c4[i]);
                            if i < c3.len() {
                                assert(c4[i] == c3[i]);
                            }
                        }
                        let kind = out.contents@[i].0.kind;
                        assert(c3.len() <= i < c4.len() ==> c4[i] == c4.last());
                        assert(c4.len() <= i ==> c5[i] == c5.last());
                        assert(i < c3.len() ==> c3[i] == c3.last());
                        assert(out.contents@[i].1@ == built.data(kind));
                        let at = choose|at: Route| #[trigger]
                            w.indexes.lane(kind).contents().contains_key(at);
                        assert(w.index().lane(kind).contents().contains_key(at));
                    }
                } else {
                    assert(out.contents@[i].1 == segments[i - n]);
                    assert(segments[i - n]@ == w.segments()[i - n]);
                }
            }
        }
        out
    }
}

fn add_file(contents: &mut Vec<(FileId, Vec<u8>)>, file: FileId, bytes: Vec<u8>)
    ensures
        old(contents)@.len() <= final(contents)@.len(),
        forall|i: int| 0 <= i < old(contents)@.len() ==> #[trigger] final(contents)@[i] == old(contents)@[i],
        bytes@.len() > 0 ==> final(contents)@.len() == old(contents)@.len() + 1 && final(contents)@.last() == (file, bytes),
        bytes@.len() == 0 ==> final(contents)@ == old(contents)@,
{
    if bytes.len() > 0 {
        contents.push((file, bytes));
    }
}

fn reversed(list: Vec<Vec<u8>>) -> (out: Vec<Vec<u8>>)
    ensures
        out@.len() == list@.len(),
        forall|i: int| 0 <= i < out@.len() ==> #[trigger] out@[i] == list@[list@.len() - 1 - i],
{
    let mut left = list;
    let mut out: Vec<Vec<u8>> = Vec::new();
    while left.len() > 0
        invariant
            left@.len() + out@.len() == list@.len(),
            forall|i: int| 0 <= i < left@.len() ==> #[trigger] left@[i] == list@[i],
            forall|i: int| 0 <= i < out@.len() ==> #[trigger] out@[i] == list@[list@.len() - 1 - i],
        decreases left@.len(),
    {
        match left.pop() {
            None => {},
            Some(bytes) => {
                out.push(bytes);
            },
        }
    }
    out
}

/// Whether a reference is among those that a map holds.
pub open spec fn holds_info(m: Map<FileId, FileInfo>, info: FileInfo) -> bool {
    exists|f: FileId| #[trigger] m.contains_key(f) && m[f] == info
}

/// Whether a file is one that a writer writes: one of its three heaps, one of its segments, or
/// an index that is not empty.
pub open spec fn own_file(w: TableWriter, file: FileId, bytes: Seq<u8>) -> bool {
    &&& file.table == w.place().0
    &&& file.generation == w.place().1
    &&& file.kind <= 6
    &&& file.kind <= 5 ==> file.segment == 0
    &&& file.kind <= 2 ==> bytes == w.heap(file.kind).image()
    &&& 3 <= file.kind <= 5 ==> bytes.len() > 0 && exists|at: Route| #[trigger]
        w.index().lane(file.kind).contents().contains_key(at)
    &&& file.kind == 6 ==> file.segment < w.segments().len() && bytes == w.segments()[file.segment as int]
}

/// Whether a partition is among finished files and gives back what was put into it.
pub open spec fn stands(w: TableWriter, out: TableOutput, kind: u8, at: Route) -> bool {
    let file = FileId {
        table: w.place().0,
        generation: w.place().1,
        kind,
        segment: 0,
    };
    out.parts().contains_key(at) && exists|data: Seq<u8>| #[trigger]
        out.has(file, data) && built(
            data,
            w.place().3,
            file,
            at,
            out.parts()[at],
            w.index().lane(kind).contents()[at],
        )
}

// ---- Laws ----

/// The entry of an item that was written is among the entries of its partition, and the only
/// one under its key.
proof fn lemma_filed(w: TableWriter, i: int)
    requires
        w.sound(),
        0 <= i < w.journal().len(),
        3 <= item_kind(w.journal()[i].0) <= 5,
    ensures
        ({
            let (item, v) = w.journal()[i];
            let kind = item_kind(item);
            let at = route_of(w.place().0, kind, item_key(item));
            let c = w.index().lane(kind).contents();
            &&& c.contains_key(at)
            &&& c[at].contains((item_key(item), v))
            &&& increasing(c[at])
        }),
{
    let (item, v) = w.journal()[i];
    lemma_filed_in(w.kept@, w.table, i);
    assert(w.indexes.lane(item_kind(item)).contents() == filed(
        w.kept@,
        w.table,
        item_kind(item),
    ));
    assert(increasing(
        filed(w.kept@, w.table, item_kind(item))[route_of(
            w.table,
            item_kind(item),
            item_key(item),
        )],
    )) by {
        reveal(ascending);
    }
}

proof fn lemma_filed_in(journal: Seq<(Item, Value)>, table: u64, i: int)
    requires
        0 <= i < journal.len(),
    ensures
        ({
            let (item, v) = journal[i];
            let kind = item_kind(item);
            let at = route_of(table, kind, item_key(item));
            let m = filed(journal, table, kind);
            m.contains_key(at) && m[at].contains((item_key(item), v))
        }),
    decreases journal.len(),
{
    let (item, v) = journal[i];
    let kind = item_kind(item);
    let at = route_of(table, kind, item_key(item));
    let m = filed(journal, table, kind);
    let before = filed(journal.drop_last(), table, kind);
    if i < journal.len() - 1 {
        assert(journal.drop_last()[i] == journal[i]);
        lemma_filed_in(journal.drop_last(), table, i);
        let es = before[at];
        let j = choose|j: int| 0 <= j < es.len() && es[j] == (item_key(item), v);
        assert(m[at][j] == es[j]);
    } else {
        let es = m[at];
        assert(es.last() == (item_key(item), v));
        assert(es[es.len() - 1] == (item_key(item), v));
    }
}

/// What is in the journal is kept, and its index entry is filed.
pub(crate) proof fn lemma_kept_item(w: TableWriter, i: int)
    requires
        w.sound(),
        0 <= i < w.journal().len(),
    ensures
        w.holds(w.journal()[i].0, w.journal()[i].1),
        3 <= item_kind(w.journal()[i].0) <= 5 ==> w.index().lane(
            item_kind(w.journal()[i].0),
        ).contents().contains_key(
            route_of(w.place().0, item_kind(w.journal()[i].0), item_key(w.journal()[i].0)),
        ),
{
    assert(w.holds(w.kept@[i].0, w.kept@[i].1));
    if 3 <= item_kind(w.journal()[i].0) <= 5 {
        lemma_filed(w, i);
    }
}

/// The generations of files that history leads to have their sequence numbers noted.
pub(crate) proof fn lemma_remembered(w: TableWriter)
    requires
        w.sound(),
    ensures
        forall|f: FileId| #[trigger]
            w.remembered().contains_key(f) ==> w.sequences().contains_key(f.generation)
                && f.generation != w.place().1 && w.remembered()[f].named() == f,
        w.sequences().contains_key(w.place().1),
        w.sequences()[w.place().1] == w.place().3,
{
}

/// The value of an entity that was written has the slot of the generation, where the heaps stay
/// within the pages that a locator can give.
pub(crate) proof fn lemma_entity_slot(w: TableWriter, n: int)
    requires
        w.sound(),
        0 <= n < w.journal().len(),
        w.journal()[n].0 is Entity,
        w.heap(0).image().len() <= PAGE_LIMIT * 8192,
        w.heap(1).image().len() <= PAGE_LIMIT * 8192,
    ensures
        shared_slot(w.journal()[n].1) == Some(w.place().2),
{
    let v = w.journal()[n].1;
    let item = w.journal()[n].0;
    assert(w.holds(w.kept@[n].0, w.kept@[n].1));
    reveal(record_at);
    let (slot, lsn) = (w.place().2, w.place().3);
    let (c, b) = choose|c: u64, b: u64|
        v == #[trigger] stamped(slot, c, b) && record_at(w.heap(0).image(), c, lsn) == Some(
            enc_entity(item->Entity_current),
        ) && record_at(w.heap(1).image(), b, lsn) == Some(enc_entity(item->Entity_base));
    lemma_page_within(w.heap(0).image(), c, lsn);
    lemma_page_within(w.heap(1).image(), b, lsn);
    lemma_locator(slot, c);
    lemma_locator(slot, b);
}

/// The entries of a partition that is built have increasing keys.
pub(crate) proof fn lemma_contents_increase(w: TableWriter, kind: u8, at: Route)
    requires
        w.sound(),
        3 <= kind <= 5,
        w.index().lane(kind).contents().contains_key(at),
    ensures
        increasing(w.index().lane(kind).contents()[at]),
{
    assert(w.indexes.lane(kind).contents() == filed(w.kept@, w.table, kind));
    reveal(ascending);
}

/// A finished partition that was not built here was taken over.
pub proof fn lemma_adopted_from(w: TableWriter, at: Route) -> (n: int)
    requires
        w.sound(),
        3 <= at.kind <= 5,
        w.index().lane(at.kind).has(at),
        !w.index().lane(at.kind).contents().contains_key(at),
    ensures
        w.index().lane(at.kind).finished().contains_key(at),
        0 <= n < w.journal().len(),
        w.journal()[n].0 is Part,
        w.journal()[n].0->Part_route == at,
        w.index().lane(at.kind).finished()[at] == w.journal()[n].0->Part_part,
{
    w.index().lane(at.kind).lemma_either(at);
    assert(w.indexes.lane(at.kind).finished().contains_key(at));
    assert(adopted(w.kept@, at));
    let n = choose|n: int|
        0 <= n < w.kept@.len() && (#[trigger] w.kept@[n]).0 is Part && w.kept@[n].0->Part_route
            == at;
    assert(w.holds(w.kept@[n].0, w.kept@[n].1));
    n
}

/// Every index entry that is filed is that of an item in the journal.
pub(crate) proof fn lemma_filed_from(w: TableWriter, kind: u8, at: Route, j: int) -> (n: int)
    requires
        w.sound(),
        3 <= kind <= 5,
        w.index().lane(kind).contents().contains_key(at),
        0 <= j < w.index().lane(kind).contents()[at].len(),
    ensures
        0 <= n < w.journal().len(),
        item_kind(w.journal()[n].0) == kind,
        item_key(w.journal()[n].0) == w.index().lane(kind).contents()[at][j].0,
        w.journal()[n].1 == w.index().lane(kind).contents()[at][j].1,
{
    assert(w.indexes.lane(kind).contents() == filed(w.kept@, w.table, kind));
    lemma_filed_by(w.kept@, w.table, kind, at, j)
}

proof fn lemma_filed_by(
    journal: Seq<(Item, Value)>,
    table: u64,
    kind: u8,
    at: Route,
    j: int,
) -> (n: int)
    requires
        filed(journal, table, kind).contains_key(at),
        0 <= j < filed(journal, table, kind)[at].len(),
    ensures
        0 <= n < journal.len(),
        item_kind(journal[n].0) == kind,
        item_key(journal[n].0) == filed(journal, table, kind)[at][j].0,
        journal[n].1 == filed(journal, table, kind)[at][j].1,
    decreases journal.len(),
{
    let m = filed(journal.drop_last(), table, kind);
    let (item, value) = journal.last();
    let here = item_kind(item) == kind && route_of(table, kind, item_key(item)) == at;
    if here && (!m.contains_key(at) || j == m[at].len()) {
        journal.len() - 1
    } else {
        let n = lemma_filed_by(journal.drop_last(), table, kind, at, j);
        assert(journal.drop_last()[n] == journal[n]);
        n
    }
}

/// What was written is found under its key by the index of a manifest that takes the
/// partitions of the finished files up.
pub proof fn lemma_found(w: TableWriter, out: TableOutput, r: RootV, files: Files, i: int)
    requires
        w.sound(),
        0 <= i < w.journal().len(),
        3 <= item_kind(w.journal()[i].0) <= 5,
        stands(
            w,
            out,
            item_kind(w.journal()[i].0),
            route_of(w.place().0, item_kind(w.journal()[i].0), item_key(w.journal()[i].0)),
        ),
        out.stands_in(files),
        forall|at: Route| #[trigger]
            out.parts().contains_key(at) ==> r.partitions.contains_key(at) && r.partitions[at]
                == out.parts()[at],
    ensures
        index_lookup(
            r,
            files,
            w.place().0,
            item_kind(w.journal()[i].0),
            item_key(w.journal()[i].0),
        ) == Some(Some(w.journal()[i].1)),
{
    lemma_filed(w, i);
    let (item, v) = w.journal()[i];
    let kind = item_kind(item);
    let key = item_key(item);
    let at = route_of(w.place().0, kind, key);
    let es = w.index().lane(kind).contents()[at];
    let file = FileId { table: w.place().0, generation: w.place().1, kind, segment: 0 };
    let data = choose|data: Seq<u8>| #[trigger]
        out.has(file, data) && built(data, w.place().3, file, at, out.parts()[at], es);
    let n = choose|n: int|
        0 <= n < out.contents@.len() && (#[trigger] out.contents@[n]).0 == file
            && out.contents@[n].1@ == data;
    assert(files[out.contents@[n].0] == out.contents@[n].1@);
    let held = &out.contents@[n].1;
    assert(held@.len() <= u64::MAX) by {
        assert(held.len() == held@.len());
    }
    lemma_built(r, files, data, w.place().3, file, key, es);
    let found = index_lookup(r, files, file.table, file.kind, key).unwrap();
    let j = choose|j: int| 0 <= j < es.len() && es[j] == (key, v);
    match found {
        None => {
            assert(es[j].0 != key);
        },
        Some(x) => {
            let k = choose|k: int| 0 <= k < es.len() && es[k] == (key, x);
            reveal(increasing);
            Key::order_laws();
            if j < k {
                assert(es[j].0.before(es[k].0));
            } else if k < j {
                assert(es[k].0.before(es[j].0));
            }
        },
    }
}

/// An event that was written is read back from where its index entry leads.
pub proof fn lemma_event_kept(w: TableWriter, r: RootV, files: Files, i: int, id: u64, event: EventV)
    requires
        w.sound(),
        0 <= i < w.journal().len(),
        w.journal()[i].0 == (Item::Event { id, event }),
        encodable_fields(event.fields),
        enc_event(event).len() <= MAX_RECORD,
        r.history_generations.contains_key(w.place().1),
        files[FileId {
            table: w.place().0,
            generation: w.place().1,
            kind: 6,
            segment: segment_of(w.journal()[i].1.1),
        }] == w.segments()[segment_of(w.journal()[i].1.1) as int],
    ensures
        event_in(r, files, w.place().0, w.journal()[i].1) == Some((id, event, event.transaction)),
{
    let (item, v) = w.journal()[i];
    assert(w.holds(w.kept@[i].0, w.kept@[i].1));
    reveal(event_in);
    let f = event_frame(id, event, w.manner().1);
    let c = w.segments()[segment_of(v.1) as int];
    let o = offset_of(v.1) as int;
    let rest = c.skip(o + enc_frame(f).len());
    assert(c.skip(o) =~= enc_frame(f) + rest);
    lemma_packed(id, enc_event(event), w.manner().1);
    lemma_packed_len(id, enc_event(event), w.manner().1);
    lemma_frame(f, rest);
    lemma_event(event);
}

proof fn lemma_packed_len(id: u64, bytes: Seq<u8>, compress: bool)
    ensures
        packed(id, bytes, compress).len() <= 13 + bytes.len(),
{
    crate::bytes::lemma_le_len(id as nat, 8);
    crate::bytes::lemma_le_len(bytes.len(), 4);
}

/// A snapshot that was written is read back from where its index entry leads.
pub proof fn lemma_snapshot_kept(w: TableWriter, r: RootV, files: Files, i: int, state: EntityV)
    requires
        w.sound(),
        0 <= i < w.journal().len(),
        w.journal()[i].0 == (Item::Snapshot { id: state.id, state }),
        encodable_fields(state.fields),
        r.history_generations.contains_key(w.place().1),
        r.history_generations[w.place().1] == w.place().3,
        files.contains_key(
            FileId { table: w.place().0, generation: w.place().1, kind: 2, segment: 0 },
        ),
        files[FileId { table: w.place().0, generation: w.place().1, kind: 2, segment: 0 }]
            == w.heap(2).image(),
    ensures
        snapshot_in(r, files, w.place().0, w.journal()[i].1, state.id) == Some(state),
{
    assert(w.holds(w.kept@[i].0, w.kept@[i].1));
    reveal(snapshot_in);
    reveal(record_at);
    lemma_entity(state);
}

/// The states of an entity that was written are read back through the slot of their generation,
/// where the heap files stay within the pages that a locator can give.
pub proof fn lemma_entity_kept(
    w: TableWriter,
    r: RootV,
    files: Files,
    i: int,
    current: EntityV,
    base: EntityV,
)
    requires
        w.sound(),
        0 <= i < w.journal().len(),
        w.journal()[i].0 == (Item::Entity { id: current.id, current, base }),
        base.id == current.id,
        encodable_fields(current.fields),
        encodable_fields(base.fields),
        w.heap(0).image().len() <= PAGE_LIMIT * 8192,
        w.heap(1).image().len() <= PAGE_LIMIT * 8192,
        (w.place().2 as int) < r.generations.len(),
        r.generations[w.place().2 as int].generation == w.place().1,
        r.generations[w.place().2 as int].lsn == w.place().3,
        forall|kind: u8|
            kind <= 1 ==> files.contains_key(
                #[trigger] heap_file(w.place().0, w.place().1, kind),
            ) && files[heap_file(w.place().0, w.place().1, kind)] == w.heap(kind).image(),
    ensures
        state_in(r, files, w.place().0, 0, w.journal()[i].1.0, current.id) == Some(current),
        state_in(r, files, w.place().0, 1, w.journal()[i].1.1, current.id) == Some(base),
{
    let v = w.journal()[i].1;
    assert(w.holds(w.kept@[i].0, w.kept@[i].1));
    reveal(state_in);
    reveal(record_at);
    let slot = w.place().2;
    let lsn = w.place().3;
    let (c, b) = choose|c: u64, b: u64|
        v == #[trigger] stamped(slot, c, b) && record_at(w.heap(0).image(), c, lsn) == Some(
            enc_entity(current),
        ) && record_at(w.heap(1).image(), b, lsn) == Some(enc_entity(base));
    assert(files.contains_key(heap_file(w.place().0, w.place().1, 0)));
    assert(files.contains_key(heap_file(w.place().0, w.place().1, 1)));
    lemma_page_within(w.heap(0).image(), c, lsn);
    lemma_page_within(w.heap(1).image(), b, lsn);
    lemma_locator(slot, c);
    lemma_locator(slot, b);
    lemma_entity(current);
    lemma_entity(base);
}

/// The heap file of a kind.
pub open spec fn heap_file(table: u64, generation: u64, kind: u8) -> FileId {
    FileId { table, generation, kind, segment: 0 }
}

proof fn lemma_page_within(c: Seq<u8>, location: u64, lsn: u64)
    requires
        heap_record(c, location, lsn) is Some,
        c.len() <= PAGE_LIMIT * 8192,
    ensures
        location < 0x100_0000_0000_0000,
{
    let n = (location / 65536) as nat;
    assert(heap_slot(c, n, (location % 65536) as nat, lsn) is Some);
    assert((n + 1) * 8192 <= c.len());
}

/// An entity that a checkpoint wrote is read back as it was, current and base, through a
/// manifest that takes the finished files up.
pub proof fn lemma_written_is_read(
    w: TableWriter,
    out: TableOutput,
    r: RootV,
    files: Files,
    i: int,
    current: EntityV,
    base: EntityV,
)
    requires
        w.sound(),
        0 <= i < w.journal().len(),
        w.journal()[i].0 == (Item::Entity { id: current.id, current, base }),
        base.id == current.id,
        encodable_fields(current.fields),
        encodable_fields(base.fields),
        w.heap(0).image().len() <= PAGE_LIMIT * 8192,
        w.heap(1).image().len() <= PAGE_LIMIT * 8192,
        (w.place().2 as int) < r.generations.len(),
        r.generations[w.place().2 as int].generation == w.place().1,
        r.generations[w.place().2 as int].lsn == w.place().3,
        r.catalog.contains_key(w.place().0),
        stands(w, out, 3, route_of(w.place().0, 3, (current.id, 0))),
        forall|kind: u8|
            kind <= 1 ==> out.has(
                #[trigger] heap_file(w.place().0, w.place().1, kind),
                w.heap(kind).image(),
            ),
        out.stands_in(files),
        forall|at: Route| #[trigger]
            out.parts().contains_key(at) ==> r.partitions.contains_key(at) && r.partitions[at]
                == out.parts()[at],
    ensures
        current_in(r, files, w.place().0, current.id) == Ok::<_, Fault>(Some(current)),
        located(r, files, w.place().0, current.id) == Ok::<_, Fault>(Some(w.journal()[i].1)),
        state_in(r, files, w.place().0, 1, w.journal()[i].1.1, current.id) == Some(base),
{
    lemma_found(w, out, r, files, i);
    assert forall|kind: u8| kind <= 1 implies files.contains_key(
        #[trigger] heap_file(w.place().0, w.place().1, kind),
    ) && files[heap_file(w.place().0, w.place().1, kind)] == w.heap(kind).image() by {
        let f = heap_file(w.place().0, w.place().1, kind);
        assert(out.has(f, w.heap(kind).image()));
        let n = choose|n: int|
            0 <= n < out.contents@.len() && (#[trigger] out.contents@[n]).0 == f
                && out.contents@[n].1@ == w.heap(kind).image();
        assert(files[out.contents@[n].0] == out.contents@[n].1@);
    }
    lemma_entity_kept(w, r, files, i, current, base);
    reveal(located);
    let v = w.journal()[i].1;
    let slot = w.place().2;
    let lsn = w.place().3;
    assert(w.holds(w.kept@[i].0, w.kept@[i].1));
    let (c, b) = choose|c: u64, b: u64|
        v == #[trigger] stamped(slot, c, b) && record_at(w.heap(0).image(), c, lsn) == Some(
            enc_entity(current),
        ) && record_at(w.heap(1).image(), b, lsn) == Some(enc_entity(base));
    reveal(record_at);
    lemma_page_within(w.heap(0).image(), c, lsn);
    lemma_page_within(w.heap(1).image(), b, lsn);
    lemma_locator(slot, c);
    lemma_locator(slot, b);
}

/// A record that stays in its generation is read back through the slot that its generation has
/// in a new manifest.
pub proof fn lemma_moved_is_read(
    before: RootV,
    after: RootV,
    files: Files,
    table: u64,
    kind: u8,
    v: Value,
    slot: u8,
    id: u64,
)
    requires
        shared_slot(v) is Some,
        (shared_slot(v).unwrap() as int) < before.generations.len(),
        (slot as int) < after.generations.len(),
        after.generations[slot as int] == before.generations[shared_slot(v).unwrap() as int],
    ensures
        state_in(after, files, table, kind, remapped(v, slot).0, id) == state_in(
            before,
            files,
            table,
            kind,
            v.0,
            id,
        ),
        state_in(after, files, table, kind, remapped(v, slot).1, id) == state_in(
            before,
            files,
            table,
            kind,
            v.1,
            id,
        ),
{
    reveal(state_in);
    lemma_split(v.0);
    lemma_split(v.1);
    lemma_locator(slot, place_in(v.0));
    lemma_locator(slot, place_in(v.1));
}

/// An entity that a checkpoint left where it is is read through the new manifest as through
/// the one before.
pub proof fn lemma_carried_is_read(
    w: TableWriter,
    out: TableOutput,
    before: RootV,
    after: RootV,
    files: Files,
    i: int,
    id: u64,
    v: Value,
    slot: u8,
)
    requires
        w.sound(),
        0 <= i < w.journal().len(),
        w.journal()[i].0 == (Item::Carried { id, value: remapped(v, slot) }),
        located(before, files, w.place().0, id) == Ok::<_, Fault>(Some(v)),
        shared_slot(v) is Some,
        (shared_slot(v).unwrap() as int) < before.generations.len(),
        (slot as int) < after.generations.len(),
        after.generations[slot as int] == before.generations[shared_slot(v).unwrap() as int],
        after.catalog.contains_key(w.place().0),
        stands(w, out, 3, route_of(w.place().0, 3, (id, 0))),
        out.stands_in(files),
        forall|at: Route| #[trigger]
            out.parts().contains_key(at) ==> after.partitions.contains_key(at)
                && after.partitions[at] == out.parts()[at],
    ensures
        located(after, files, w.place().0, id) == Ok::<_, Fault>(Some(remapped(v, slot))),
        current_in(after, files, w.place().0, id) == current_in(before, files, w.place().0, id),
        state_in(after, files, w.place().0, 1, remapped(v, slot).1, id) == state_in(
            before,
            files,
            w.place().0,
            1,
            v.1,
            id,
        ),
{
    lemma_found(w, out, after, files, i);
    assert(w.holds(w.kept@[i].0, w.kept@[i].1));
    lemma_moved_is_read(before, after, files, w.place().0, 0, v, slot, id);
    lemma_moved_is_read(before, after, files, w.place().0, 1, v, slot, id);
    crate::partitions::lemma_remapped(v, slot);
    reveal(located);
}

/// A refused item is not for want of a part of a file.
pub proof fn lemma_refused_known(w: TableWriter, r: RootV, item: Item, e: Error)
    requires
        refused(w, r, item, e),
    ensures
        !(e is Unread),
{
}

/// A writer does not stop for want of a part of a file.
pub proof fn lemma_stopped_known(a: TableWriter, r: RootV, items: Seq<Item>, e: Error)
    requires
        stopped(a, r, items, e),
    ensures
        !(e is Unread),
{
    let (w, n) = choose|w: TableWriter, n: int|
        0 <= n < items.len() && #[trigger] added(a, w, items.take(n)) && refused(w, r, items[n], e);
    lemma_refused_known(w, r, items[n], e);
}

} // verus!
