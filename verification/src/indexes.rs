//! Building the index partitions of a table.

use crate::error::corrupt;
use crate::error::Error;
use crate::error::Result;
use crate::key::OrderedKey;
use crate::ordered_map::OrderedMap;
use crate::partitions::bucket;
use crate::partitions::bucket_of;
use crate::partitions::entity_slot;
use crate::partitions::index_lookup;
use crate::partitions::remapped;
use crate::partitions::route_of;
use crate::partitions::shared_slot;
use crate::partitions::tree_of;
use crate::partitions::PartV;
use crate::partitions::Partition;
use crate::partitions::Route;
use crate::snapshot::FileInfo;
use crate::snapshot::RootV;
use crate::storage::index::floor_entry_of;
use crate::storage::index::lemma_tree_more;
use crate::storage::index::lookup_of;
use crate::storage::index::scan_of;
use crate::storage::index::Entry;
use crate::storage::index::Key;
use crate::storage::index::Stream;
use crate::storage::index::Value;
use crate::storage::index_writer::between;
use crate::storage::index_writer::is_floor;
use crate::storage::index_writer::is_value;
use crate::storage::index_writer::IndexWriter;
use crate::storage::pager::FileId;
use crate::storage::pager::Files;
use vstd::prelude::*;

verus! {

// ---- What a tree holds ----

/// Whether a tree gives back entries: each under its key, the nearest before a key, and those
/// between two keys in order.
#[verifier::opaque]
pub open spec fn gives(c: Seq<u8>, lsn: u64, es: Seq<Entry>) -> bool {
    &&& forall|key: Key|
        (#[trigger] lookup_of(c, lsn, key)) is Some && is_value(
            es,
            key,
            lookup_of(c, lsn, key).unwrap(),
        )
    &&& forall|key: Key|
        (#[trigger] floor_entry_of(c, lsn, key)) is Some && is_floor(
            es,
            key,
            floor_entry_of(c, lsn, key).unwrap(),
        )
    &&& forall|lower: Key, upper: Key| #[trigger]
        scan_of(c, lsn, lower, upper) == Some(
            Stream { items: es.filter(between(lower, upper)), sound: true },
        )
}

/// A tree gives back its entries whatever pages follow it.
pub proof fn lemma_gives_more(c: Seq<u8>, d: Seq<u8>, lsn: u64, es: Seq<Entry>)
    requires
        gives(c, lsn, es),
        d.len() % 8192 == 0,
    ensures
        gives(c + d, lsn, es),
{
    reveal(gives);
    assert forall|key: Key|
        (#[trigger] lookup_of(c + d, lsn, key)) is Some && is_value(
            es,
            key,
            lookup_of(c + d, lsn, key).unwrap(),
        ) by {
        assert(lookup_of(c, lsn, key) is Some);
        lemma_tree_more(c, d, lsn, key, key);
    }
    assert forall|key: Key|
        (#[trigger] floor_entry_of(c + d, lsn, key)) is Some && is_floor(
            es,
            key,
            floor_entry_of(c + d, lsn, key).unwrap(),
        ) by {
        assert(floor_entry_of(c, lsn, key) is Some);
        lemma_tree_more(c, d, lsn, key, key);
    }
    assert forall|lower: Key, upper: Key| #[trigger]
        scan_of(c + d, lsn, lower, upper) == Some(
            Stream { items: es.filter(between(lower, upper)), sound: true },
        ) by {
        assert(scan_of(c, lsn, lower, upper) is Some);
        lemma_tree_more(c, d, lsn, lower, upper);
    }
}

/// A tree fills whole pages.
proof fn lemma_gives_pages(c: Seq<u8>, lsn: u64, es: Seq<Entry>)
    requires
        gives(c, lsn, es),
    ensures
        c.len() % 8192 == 0,
{
    reveal(gives);
    assert(lookup_of(c, lsn, (0u64, 0u64)) is Some);
}

// ---- One kind of index ----

struct Pending {
    writer: IndexWriter,
    route: Route,
    part: Partition,
}

/// The partitions of one kind of index, one after the other in one file.
pub struct Lane {
    file: FileId,
    lsn: u64,
    data: Vec<u8>,
    pending: Option<Pending>,
    parts: OrderedMap<Route, Partition>,
    sealed: Ghost<Map<Route, Seq<Entry>>>,
}

/// Whether an entry of a primary index has a slot.
pub open spec fn slotted(es: Seq<Entry>, slot: u8) -> bool {
    exists|i: int| 0 <= i < es.len() && shared_slot((#[trigger] es[i]).1) == Some(slot)
}

/// Whether a file holds history of a table: its snapshots, or a segment of its events.
pub open spec fn historic(f: FileId, table: u64) -> bool {
    f.table == table && (f.kind == 2 || f.kind == 6)
}

/// Whether a partition describes the entries of its tree.
pub open spec fn describes(p: PartV, route: Route, es: Seq<Entry>) -> bool {
    &&& es.len() > 0
    &&& p.first == es[0].0
    &&& p.last == es.last().0
    &&& forall|i: int|
        0 <= i < es.len() ==> bucket_of(route.kind, (#[trigger] es[i]).0) == route.lower()
    &&& route.kind == 3 ==> forall|i: int|
        0 <= i < es.len() ==> {
            let slot = shared_slot((#[trigger] es[i]).1);
            slot is Some && p.slots.contains_key(slot.unwrap()) && p.slots[slot.unwrap()]
                == slot.unwrap()
        }
    &&& forall|slot: u8| #[trigger]
        p.slots.contains_key(slot) ==> route.kind == 3 && p.slots[slot] == slot && slotted(es, slot)
    &&& forall|f: FileId| #[trigger] p.dependencies.contains_key(f) ==> historic(f, route.table)
}

/// Whether a partition built in a file gives back its entries.
pub open spec fn built(data: Seq<u8>, lsn: u64, file: FileId, route: Route, p: PartV, es: Seq<Entry>) -> bool {
    &&& p.file == file
    &&& p.lsn == lsn
    &&& route.table == file.table
    &&& route.kind == file.kind
    &&& p.base * 8192 < data.len()
    &&& data.len() % 8192 == 0
    &&& gives(data.skip(p.base * 8192), lsn, es)
    &&& describes(p, route, es)
}

impl Lane {
    /// The file that the partitions are built in.
    pub closed spec fn target(self) -> FileId {
        self.file
    }

    /// The sequence number of its pages.
    pub closed spec fn sequence(self) -> u64 {
        self.lsn
    }

    /// What the file holds so far.
    pub closed spec fn bytes(self) -> Seq<u8> {
        self.data@
    }

    /// The finished partitions.
    pub closed spec fn finished(self) -> Map<Route, PartV> {
        self.parts@.map_values(|p: Partition| p@)
    }

    /// The entries of the partitions built here, the one in progress among them.
    pub closed spec fn contents(self) -> Map<Route, Seq<Entry>> {
        match self.pending {
            None => self.sealed@,
            Some(p) => self.sealed@.insert(p.route, p.writer.entries()),
        }
    }

    /// The partition in progress.
    pub closed spec fn open_route(self) -> Option<Route> {
        match self.pending {
            None => None,
            Some(p) => Some(p.route),
        }
    }

    /// Whether a partition built here depends on a file.
    pub closed spec fn uses(self, f: FileId) -> bool {
        ||| self.pending is Some && self.pending.unwrap().part.dependencies@.contains_key(f)
        ||| exists|r: Route| #[trigger]
            self.sealed@.contains_key(r) && self.parts@[r]@.dependencies.contains_key(f)
    }

    /// Whether finished partitions give back their entries and the one in progress can go on.
    pub closed spec fn sound(self) -> bool {
        &&& self.data@.len() % 8192 == 0
        &&& self.data@.len() > 0 ==> exists|r: Route| #[trigger] self.sealed@.contains_key(r)
        &&& forall|a: Route, b: Route| #[trigger]
            self.sealed@.contains_key(a) && #[trigger] self.sealed@.contains_key(b) && a != b
                ==> self.parts@[a]@.base != self.parts@[b]@.base
        &&& self.parts@.dom().finite()
        &&& forall|r: Route| #[trigger]
            self.parts@.contains_key(r) ==> r.kind == self.file.kind
        &&& forall|r: Route| #[trigger]
            self.sealed@.contains_key(r) ==> self.parts@.contains_key(r) && built(
                self.data@,
                self.lsn,
                self.file,
                r,
                self.parts@[r]@,
                self.sealed@[r],
            )
        &&& match self.pending {
            None => true,
            Some(p) => {
                &&& p.writer.sound()
                &&& p.writer.sequence() == self.lsn
                &&& p.part.file == self.file
                &&& p.part.lsn == self.lsn
                &&& p.part.base * 8192 == self.data@.len()
                &&& p.route.table == self.file.table
                &&& p.route.kind == self.file.kind
                &&& !self.parts@.contains_key(p.route)
                &&& describes(p.part@, p.route, p.writer.entries())
            },
        }
    }

    /// No partitions.
    pub fn new(file: FileId, lsn: u64) -> (lane: Self)
        ensures
            lane.sound(),
            lane.target() == file,
            lane.sequence() == lsn,
            lane.bytes() == Seq::<u8>::empty(),
            lane.finished() == Map::<Route, PartV>::empty(),
            lane.contents() == Map::<Route, Seq<Entry>>::empty(),
            lane.open_route() is None,
            lane.total() == 0,
            forall|f: FileId| !(#[trigger] lane.uses(f)),
    {
        let lane = Lane {
            file,
            lsn,
            data: Vec::new(),
            pending: None,
            parts: OrderedMap::new(),
            sealed: Ghost(Map::empty()),
        };
        assert(lane.finished() =~= Map::empty());
        assert(lane.parts@.dom() =~= Set::empty());
        lane
    }

    /// Finishes the partition in progress.
    #[verifier::spinoff_prover]
    #[verifier::rlimit(40)]
    pub fn flush(&mut self)
        requires
            old(self).sound(),
        ensures
            final(self).sound(),
            final(self).target() == old(self).target(),
            final(self).sequence() == old(self).sequence(),
            final(self).contents() == old(self).contents(),
            final(self).open_route() is None,
            final(self).total() == old(self).total(),
            forall|r: Route| #[trigger] final(self).has(r) == old(self).has(r),
            forall|f: FileId| #[trigger] final(self).uses(f) ==> old(self).uses(f),
            forall|r: Route| #[trigger]
                final(self).finished().contains_key(r) ==> old(self).finished().contains_key(r)
                    || old(self).contents().contains_key(r),
            old(self).open_route() is None ==> final(self).finished() == old(self).finished()
                && final(self).bytes() == old(self).bytes(),
            old(self).open_route() is Some ==> {
                let r = old(self).open_route().unwrap();
                &&& !old(self).finished().contains_key(r)
                &&& final(self).finished().contains_key(r)
                &&& final(self).finished() == old(self).finished().insert(
                    r,
                    final(self).finished()[r],
                )
            },
    {
        let mut pending: Option<Pending> = None;
        std::mem::swap(&mut pending, &mut self.pending);
        match pending {
            None => {},
            Some(p) => {
                let ghost before = *old(self);
                let ghost es = p.writer.entries();
                let ghost d0 = self.data@;
                let ghost part = p.part;
                let ghost route = p.route;
                let mut bytes = p.writer.finish();
                let ghost tree = bytes@;
                proof {
                    assert(gives(tree, self.lsn, es)) by {
                        reveal(gives);
                    }
                    lemma_gives_pages(tree, self.lsn, es);
                    assert(tree.len() > 0) by {
                        reveal(gives);
                        assert(lookup_of(tree, self.lsn, (0u64, 0u64)) is Some);
                    }
                }
                self.data.append(&mut bytes);
                self.parts.insert(p.route, p.part);
                self.sealed = Ghost(self.sealed@.insert(route, es));
                proof {
                    assert(self.data@ =~= d0 + tree);
                    assert(self.data@.skip(d0.len() as int) =~= tree);
                    assert forall|r: Route| #[trigger]
                        self.sealed@.contains_key(r) implies self.parts@.contains_key(r) && built(
                        self.data@,
                        self.lsn,
                        self.file,
                        r,
                        self.parts@[r]@,
                        self.sealed@[r],
                    ) by {
                        if r != route {
                            assert(before.sealed@.contains_key(r));
                            let at = before.parts@[r]@.base * 8192;
                            assert(self.data@.skip(at) =~= d0.skip(at) + tree);
                            lemma_gives_more(d0.skip(at), tree, self.lsn, before.sealed@[r]);
                        }
                    }
                    assert(self.parts@.dom() =~= before.parts@.dom().insert(route));
                    assert(self.contents() =~= before.contents());
                    assert(self.finished() =~= before.finished().insert(route, part@));
                    assert(self.sealed@.contains_key(route));
                    assert forall|f: FileId| #[trigger] self.uses(f) implies before.uses(f) by {
                        let r = choose|r: Route| #[trigger]
                            self.sealed@.contains_key(r)
                                && self.parts@[r]@.dependencies.contains_key(f);
                        if r != route {
                            assert(before.sealed@.contains_key(r));
                        }
                    }
                    assert forall|a: Route, b: Route| #[trigger]
                        self.sealed@.contains_key(a) && #[trigger] self.sealed@.contains_key(b)
                            && a != b implies self.parts@[a]@.base != self.parts@[b]@.base by {
                        assert(a != route ==> before.sealed@.contains_key(a)
                            && before.parts@[a]@.base * 8192 < d0.len());
                        assert(b != route ==> before.sealed@.contains_key(b)
                            && before.parts@[b]@.base * 8192 < d0.len());
                        assert(part@.base * 8192 == d0.len());
                    }
                }
            },
        }
    }

    /// Adds an entry, in a new partition where its key belongs into one.
    ///
    /// A key must come after those of its partition, and a partition that is finished takes no
    /// more; the entry of a primary index must have one generation slot.
    pub fn append(&mut self, key: Key, value: Value, dependency: Option<FileId>) -> (r: Result<()>)
        requires
            old(self).sound(),
            dependency matches Some(f) ==> historic(f, old(self).target().table),
        ensures
            final(self).sound(),
            final(self).target() == old(self).target(),
            final(self).sequence() == old(self).sequence(),
            forall|r: Route| #[trigger]
                old(self).finished().contains_key(r) ==> final(self).finished().contains_key(r)
                    && final(self).finished()[r] == old(self).finished()[r],
            forall|r: Route| #[trigger]
                final(self).finished().contains_key(r) ==> old(self).finished().contains_key(r)
                    || old(self).contents().contains_key(r),
            forall|f: FileId| #[trigger]
                final(self).uses(f) ==> old(self).uses(f) || dependency == Some(f),
            ({
                let at = route_of(old(self).target().table, old(self).target().kind, key);
                let c = old(self).contents();
                let es = if c.contains_key(at) && old(self).open_route() == Some(at) {
                    c[at]
                } else {
                    Seq::<Entry>::empty()
                };
                let slotted = old(self).target().kind == 3 ==> shared_slot(value) is Some;
                let fresh = old(self).open_route() == Some(at) || !old(self).has(at);
                let ordered = es.len() > 0 ==> es.last().0.before(key);
                match r {
                    Ok(_) => {
                        &&& fresh && ordered && slotted
                        &&& final(self).contents() == c.insert(at, es.push((key, value)))
                        &&& final(self).open_route() == Some(at)
                        &&& final(self).total() == old(self).total() + (if old(self).open_route()
                            == Some(at) {
                            0int
                        } else {
                            1
                        })
                        &&& dependency is Some ==> final(self).depends(dependency.unwrap())
                    },
                    Err(e) => e is Corrupt && !(fresh && ordered && slotted)
                        && final(self).contents() == c && final(self).total() == old(self).total(),
                }
            }),
    {
        let route = self.route(key);
        let slot: Option<u8> = if self.file.kind == 3 {
            Some(entity_slot(value)?)
        } else {
            None
        };
        let same: bool = match &self.pending {
            None => false,
            Some(p) => p.route == route,
        };
        let ghost c = self.contents();
        let ghost was_open = self.open_route();
        if !same {
            let ghost before = *self;
            self.flush();
            let ghost flushed = *self;
            proof {
                assert(before.finished().contains_key(route) == before.parts@.contains_key(route));
                assert(self.finished().contains_key(route) == self.parts@.contains_key(route));
                assert(self.parts@.contains_key(route) == before.has(route));
            }
            if self.parts.contains_key(&route) {
                return Err(corrupt("append to sealed index partition"));
            }
            let base: u64 = (self.data.len() / 8192) as u64;
            let mut writer = IndexWriter::create(self.lsn);
            writer.append(key, value)?;
            let mut slots: OrderedMap<u8, u8> = OrderedMap::new();
            match slot {
                None => {},
                Some(slot) => {
                    slots.insert(slot, slot);
                },
            }
            let mut dependencies: OrderedMap<FileId, ()> = OrderedMap::new();
            match dependency {
                None => {},
                Some(file) => {
                    dependencies.insert(file, ());
                },
            }
            let ghost es = writer.entries();
            proof {
                assert(es =~= seq![(key, value)]);
                assert(Seq::<Entry>::empty().push((key, value)) =~= es);
                assert(!self.sealed@.contains_key(route));
            }
            self.pending = Some(
                Pending {
                    writer,
                    route,
                    part: Partition {
                        file: self.file,
                        lsn: self.lsn,
                        base,
                        first: key,
                        last: key,
                        slots,
                        dependencies,
                    },
                },
            );
            proof {
                let p = self.pending.unwrap().part@;
                assert forall|slot: u8| #[trigger] p.slots.contains_key(slot) implies route.kind
                    == 3 && p.slots[slot] == slot && slotted(es, slot) by {
                    assert(shared_slot(es[0].1) == Some(slot));
                }
                assert forall|f: FileId| #[trigger] self.uses(f) implies before.uses(f)
                    || dependency == Some(f) by {
                    if exists|r: Route| #[trigger]
                        self.sealed@.contains_key(r) && self.parts@[r]@.dependencies.contains_key(
                            f,
                        ) {
                        assert(flushed.uses(f));
                    }
                }
            }
            assert(self.contents() =~= c.insert(route, es));
            return Ok(());
        }
        let ghost before = *self;
        let mut pending: Option<Pending> = None;
        std::mem::swap(&mut pending, &mut self.pending);
        match pending {
            None => Ok(()),
            Some(p) => {
                let mut p = p;
                let ghost es = p.writer.entries();
                let ghost slots = p.part.slots@;
                let ghost was = p.part@;
                assert(describes(was, route, es));
                match p.writer.append(key, value) {
                    Err(e) => {
                        self.pending = Some(p);
                        assert(self.contents() =~= c);
                        assert forall|f: FileId| #[trigger] self.uses(f) implies before.uses(f) by {
                        }
                        return Err(e);
                    },
                    Ok(_) => {},
                }
                p.part.last = key;
                match slot {
                    None => {},
                    Some(slot) => {
                        p.part.slots.insert(slot, slot);
                    },
                }
                match dependency {
                    None => {},
                    Some(file) => {
                        p.part.dependencies.insert(file, ());
                    },
                }
                proof {
                    let more = p.writer.entries();
                    assert(more == es.push((key, value)));
                    assert(more[0] == es[0]);
                    assert forall|i: int| 0 <= i < more.len() implies bucket_of(
                        route.kind,
                        (#[trigger] more[i]).0,
                    ) == route.lower() by {
                        if i < es.len() {
                            assert(more[i] == es[i]);
                        }
                    }
                    if route.kind == 3 {
                        assert forall|i: int| 0 <= i < more.len() implies ({
                            let slot = shared_slot((#[trigger] more[i]).1);
                            slot is Some && p.part.slots@.contains_key(slot.unwrap())
                                && p.part.slots@[slot.unwrap()] == slot.unwrap()
                        }) by {
                            if i < es.len() {
                                assert(more[i] == es[i]);
                                assert(shared_slot(es[i].1) is Some);
                            }
                        }
                    }
                }
                proof {
                    let more = p.writer.entries();
                    let part = p.part@;
                    assert forall|slot: u8| #[trigger] part.slots.contains_key(
                        slot,
                    ) implies route.kind == 3 && part.slots[slot] == slot && slotted(
                        more,
                        slot,
                    ) by {
                        if was.slots.contains_key(slot) {
                            assert(slotted(es, slot));
                            let i = choose|i: int|
                                0 <= i < es.len() && shared_slot((#[trigger] es[i]).1) == Some(
                                    slot,
                                );
                            assert(more[i] == es[i]);
                        } else {
                            assert(shared_slot(more[es.len() as int].1) == Some(slot));
                        }
                    }
                    assert forall|f: FileId| #[trigger] part.dependencies.contains_key(
                        f,
                    ) implies historic(f, route.table) by {
                        assert(was.dependencies.contains_key(f) || dependency == Some(f));
                    }
                }
                self.pending = Some(p);
                assert(self.contents() =~= c.insert(route, es.push((key, value))));
                assert forall|f: FileId| #[trigger] self.uses(f) implies before.uses(f)
                    || dependency == Some(f) by {
                }
                Ok(())
            },
        }
    }

    /// Whether there is a partition under a route, finished or in progress.
    pub closed spec fn has(self, at: Route) -> bool {
        self.parts@.contains_key(at) || self.open_route() == Some(at)
    }

    /// Whether the partition in progress depends on a file.
    pub closed spec fn depends(self, f: FileId) -> bool {
        self.pending is Some && self.pending.unwrap().part.dependencies@.contains_key(f)
    }

    fn route(&self, key: Key) -> (at: Route)
        ensures
            at == route_of(self.target().table, self.target().kind, key),
    {
        let low = bucket(self.file.kind, key);
        Route { table: self.file.table, kind: self.file.kind, low: low.0, low_second: low.1 }
    }
}

impl Lane {
    /// What was put into a partition is under a route that there is.
    pub proof fn lemma_has(self, at: Route)
        requires
            self.sound(),
            self.contents().contains_key(at),
        ensures
            self.has(at),
    {
        if self.sealed@.contains_key(at) {
            assert(self.parts@.contains_key(at));
        }
    }

    /// A partition that there is was built here or is finished.
    pub proof fn lemma_either(self, at: Route)
        requires
            self.has(at),
        ensures
            self.contents().contains_key(at) || self.finished().contains_key(at),
    {
    }

    /// A finished partition is under a route that there is.
    pub proof fn lemma_finished_has(self, at: Route)
        requires
            self.finished().contains_key(at),
        ensures
            self.has(at),
    {
    }
}

impl Lane {
    /// How many partitions there are, the one in progress among them.
    pub closed spec fn total(self) -> nat {
        self.parts@.dom().len() + (if self.pending is Some {
            1nat
        } else {
            0
        })
    }

    /// Whether an entry under a key goes into the partition in progress.
    pub fn continues(&self, key: Key) -> (r: bool)
        ensures
            r == (self.open_route() == Some(
                route_of(self.target().table, self.target().kind, key),
            )),
    {
        let route = self.route(key);
        match &self.pending {
            None => false,
            Some(p) => p.route == route,
        }
    }

    /// Takes over a partition as it is.
    pub fn adopt(&mut self, route: Route, part: Partition) -> (r: Result<()>)
        requires
            old(self).sound(),
            route.kind == old(self).target().kind,
        ensures
            final(self).sound(),
            final(self).target() == old(self).target(),
            final(self).sequence() == old(self).sequence(),
            final(self).contents() == old(self).contents(),
            final(self).open_route() is None,
            forall|r: Route| #[trigger]
                old(self).finished().contains_key(r) ==> final(self).finished().contains_key(r)
                    && final(self).finished()[r] == old(self).finished()[r],
            forall|x: Route| #[trigger]
                final(self).finished().contains_key(x) ==> old(self).finished().contains_key(x)
                    || old(self).contents().contains_key(x) || (x == route && r is Ok),
            forall|f: FileId| #[trigger] final(self).uses(f) ==> old(self).uses(f),
            match r {
                Ok(_) => {
                    &&& !old(self).has(route)
                    &&& final(self).has(route)
                    &&& final(self).finished().contains_key(route)
                    &&& final(self).finished()[route] == part@
                    &&& final(self).total() == old(self).total() + 1
                },
                Err(e) => e is Corrupt && old(self).has(route) && final(self).total() == old(self).total(),
            },
    {
        self.flush();
        assert(self.has(route) == old(self).has(route));
        if self.parts.contains_key(&route) {
            return Err(corrupt("duplicate reused partition"));
        }
        let ghost before = *self;
        let ghost v = part@;
        self.parts.insert(route, part);
        proof {
            assert(!before.sealed@.contains_key(route));
            assert(self.parts@.dom() =~= before.parts@.dom().insert(route));
            assert(self.finished() =~= before.finished().insert(route, v));
            assert forall|r: Route| #[trigger]
                self.sealed@.contains_key(r) implies self.parts@.contains_key(r) && built(
                self.data@,
                self.lsn,
                self.file,
                r,
                self.parts@[r]@,
                self.sealed@[r],
            ) by {
                assert(before.sealed@.contains_key(r));
            }
            assert forall|f: FileId| #[trigger] self.uses(f) implies before.uses(f) by {
                let r = choose|r: Route| #[trigger]
                    self.sealed@.contains_key(r) && self.parts@[r]@.dependencies.contains_key(f);
                assert(before.sealed@.contains_key(r));
            }
            assert forall|a: Route, b: Route| #[trigger]
                self.sealed@.contains_key(a) && #[trigger] self.sealed@.contains_key(b) && a
                    != b implies self.parts@[a]@.base != self.parts@[b]@.base by {
                assert(before.sealed@.contains_key(a) && before.sealed@.contains_key(b));
            }
            if self.data@.len() > 0 {
                let r = choose|r: Route| #[trigger] before.sealed@.contains_key(r);
                assert(self.sealed@.contains_key(r));
            }
        }
        Ok(())
    }

    /// The bytes of the file and the partitions. Each partition built here gives back its
    /// entries from the file.
    pub fn finish(self) -> (r: (Vec<u8>, OrderedMap<Route, Partition>))
        requires
            self.sound(),
            self.open_route() is None,
        ensures
            r.0@ == self.bytes(),
            r.1@.map_values(|p: Partition| p@) == self.finished(),
            forall|at: Route| #[trigger] r.1@.contains_key(at) ==> at.kind == self.target().kind,
            forall|at: Route| #[trigger]
                self.contents().contains_key(at) ==> self.finished().contains_key(at) && built(
                    r.0@,
                    self.sequence(),
                    self.target(),
                    at,
                    self.finished()[at],
                    self.contents()[at],
                ),
            forall|at: Route, f: FileId|
                #![trigger self.finished()[at].dependencies.contains_key(f)]
                self.contents().contains_key(at) && self.finished()[at].dependencies.contains_key(f)
                    ==> self.uses(f),
            forall|a: Route, b: Route| #[trigger]
                self.contents().contains_key(a) && #[trigger] self.contents().contains_key(b) && a
                    != b ==> self.finished()[a].base != self.finished()[b].base,
            r.0@.len() > 0 ==> exists|at: Route| #[trigger] self.contents().contains_key(at),
    {
        proof {
            if self.data@.len() > 0 {
                let at = choose|at: Route| #[trigger] self.sealed@.contains_key(at);
                assert(self.contents().contains_key(at));
            }
            assert forall|at: Route, f: FileId|
                #![trigger self.finished()[at].dependencies.contains_key(f)]
                self.contents().contains_key(at) && self.finished()[at].dependencies.contains_key(
                    f,
                ) implies self.uses(f) by {
                assert(self.sealed@.contains_key(at));
            }
            assert forall|a: Route, b: Route| #[trigger]
                self.contents().contains_key(a) && #[trigger] self.contents().contains_key(b) && a
                    != b implies self.finished()[a].base != self.finished()[b].base by {
                assert(self.sealed@.contains_key(a) && self.sealed@.contains_key(b));
            }
        }
        (self.data, self.parts)
    }
}

/// What is read through a manifest from a partition that was built is what was put into it.
pub proof fn lemma_built(
    r: RootV,
    files: Files,
    data: Seq<u8>,
    lsn: u64,
    file: FileId,
    key: Key,
    es: Seq<Entry>,
)
    requires
        r.partitions.contains_key(route_of(file.table, file.kind, key)),
        files[file] == data,
        data.len() <= u64::MAX,
        built(
            data,
            lsn,
            file,
            route_of(file.table, file.kind, key),
            r.partitions[route_of(file.table, file.kind, key)],
            es,
        ),
    ensures
        index_lookup(r, files, file.table, file.kind, key) is Some,
        is_value(es, key, index_lookup(r, files, file.table, file.kind, key).unwrap()),
{
    reveal(index_lookup);
    reveal(gives);
    let at = route_of(file.table, file.kind, key);
    let p = r.partitions[at];
    let c = tree_of(files, p);
    assert(c == data.skip(p.base * 8192));
    assert(lookup_of(c, lsn, key) is Some);
    if let Some(v) = lookup_of(c, lsn, key).unwrap() {
        let i = choose|i: int| 0 <= i < es.len() && #[trigger] es[i] == (key, v);
        assert(es[i].1 == v);
        if file.kind == 3 {
            let slot = shared_slot(es[i].1).unwrap();
            lemma_same_slot(v, slot);
        }
    }
}

/// A primary entry rewritten to its own slot is the same.
proof fn lemma_same_slot(v: Value, slot: u8)
    requires
        shared_slot(v) == Some(slot),
    ensures
        remapped(v, slot) == v,
{
    let (a, b) = (v.0, v.1);
    assert(((((a >> 56) as u8) as u64) << 56) | (a & 0xff_ffff_ffff_ffff) == a) by (bit_vector);
    assert(((((b >> 56) as u8) as u64) << 56) | (b & 0xff_ffff_ffff_ffff) == b) by (bit_vector);
}

// ---- All indexes of a table ----

/// The indexes of a table: the primary one, events and snapshots.
pub struct Indexes {
    primary: Lane,
    events: Lane,
    snapshots: Lane,
    count: usize,
    limit: usize,
    files: OrderedMap<FileId, FileInfo>,
}

impl Indexes {
    /// The index of a kind.
    pub closed spec fn lane(self, kind: u8) -> Lane {
        if kind == 3 {
            self.primary
        } else if kind == 4 {
            self.events
        } else {
            self.snapshots
        }
    }

    /// How many partitions there are.
    pub closed spec fn total(self) -> nat {
        self.count as nat
    }

    /// How many there may be.
    pub closed spec fn most(self) -> nat {
        self.limit as nat
    }

    /// The files of partitions that were taken over.
    pub closed spec fn taken(self) -> Map<FileId, FileInfo> {
        self.files@
    }

    /// Whether the indexes are sound and their partitions counted.
    pub closed spec fn sound(self) -> bool {
        &&& self.primary.sound() && self.events.sound() && self.snapshots.sound()
        &&& self.count == self.primary.total() + self.events.total() + self.snapshots.total()
        &&& self.primary.target().kind == 3
        &&& self.events.target().kind == 4
        &&& self.snapshots.target().kind == 5
    }

    /// Whether the files are those of a generation of a table.
    pub open spec fn of(self, table: u64, generation: u64, lsn: u64) -> bool {
        forall|kind: u8|
            3 <= kind <= 5 ==> (#[trigger] self.lane(kind)).target() == (FileId {
                table,
                generation,
                kind,
                segment: 0,
            }) && self.lane(kind).sequence() == lsn
    }

    /// Each index of sound indexes is sound.
    pub proof fn lemma_lanes(self)
        requires
            self.sound(),
        ensures
            forall|kind: u8|
                3 <= kind <= 5 ==> (#[trigger] self.lane(kind)).sound() && self.lane(
                    kind,
                ).target().kind == kind,
    {
    }

    /// No partitions.
    pub fn new(table: u64, generation: u64, lsn: u64, limit: usize) -> (x: Self)
        ensures
            x.sound(),
            x.of(table, generation, lsn),
            x.most() == limit,
            x.total() == 0,
            x.taken() == Map::<FileId, FileInfo>::empty(),
            forall|kind: u8|
                3 <= kind <= 5 ==> (#[trigger] x.lane(kind)).contents() == Map::<
                    Route,
                    Seq<Entry>,
                >::empty() && x.lane(kind).finished() == Map::<Route, PartV>::empty(),
            forall|kind: u8, f: FileId| 3 <= kind <= 5 ==> !(#[trigger] x.lane(kind).uses(f)),
    {
        Indexes {
            primary: Lane::new(FileId::new(table, generation, 3, 0), lsn),
            events: Lane::new(FileId::new(table, generation, 4, 0), lsn),
            snapshots: Lane::new(FileId::new(table, generation, 5, 0), lsn),
            count: 0,
            limit,
            files: OrderedMap::new(),
        }
    }

    /// Adds an entry to the index of a kind.
    pub fn append(&mut self, kind: u8, key: Key, value: Value, dependency: Option<FileId>) -> (r:
        Result<()>)
        requires
            old(self).sound(),
            3 <= kind <= 5,
            dependency matches Some(f) ==> historic(f, old(self).lane(kind).target().table),
        ensures
            final(self).sound(),
            final(self).most() == old(self).most(),
            final(self).taken() == old(self).taken(),
            forall|k: u8, r: Route|
                3 <= k <= 5 && #[trigger] final(self).lane(k).finished().contains_key(r) ==> old(
                    self,
                ).lane(k).finished().contains_key(r) || old(self).lane(k).contents().contains_key(
                    r,
                ),
            forall|k: u8, f: FileId|
                3 <= k <= 5 && #[trigger] final(self).lane(k).uses(f) ==> old(self).lane(k).uses(f)
                    || dependency == Some(f),
            forall|k: u8, r: Route|
                3 <= k <= 5 && #[trigger] old(self).lane(k).finished().contains_key(r)
                    ==> final(self).lane(k).finished().contains_key(r) && final(self).lane(
                    k,
                ).finished()[r] == old(self).lane(k).finished()[r],
            forall|k: u8|
                3 <= k <= 5 ==> (#[trigger] final(self).lane(k)).target() == old(self).lane(
                    k,
                ).target() && final(self).lane(k).sequence() == old(self).lane(k).sequence(),
            forall|k: u8|
                3 <= k <= 5 && k != kind ==> #[trigger] final(self).lane(k) == old(self).lane(k),
            ({
                let lane = old(self).lane(kind);
                let at = route_of(lane.target().table, kind, key);
                let c = lane.contents();
                let going = lane.open_route() == Some(at);
                let es = if c.contains_key(at) && going {
                    c[at]
                } else {
                    Seq::<Entry>::empty()
                };
                match r {
                    Ok(_) => {
                        &&& going || (old(self).total() < old(self).most() && !lane.has(at))
                        &&& es.len() > 0 ==> es.last().0.before(key)
                        &&& kind == 3 ==> shared_slot(value) is Some
                        &&& final(self).lane(kind).contents() == c.insert(at, es.push((key, value)))
                        &&& final(self).lane(kind).open_route() == Some(at)
                        &&& dependency is Some ==> final(self).lane(kind).depends(
                            dependency.unwrap(),
                        )
                    },
                    Err(e) => {
                        &&& final(self).lane(kind).contents() == c
                        &&& if !going && old(self).total() >= old(self).most() {
                            e == (Error::LimitExceeded {
                                resource: "index partitions",
                                limit: old(self).most() as usize,
                            })
                        } else {
                            e is Corrupt && (!going && lane.has(at) || (es.len() > 0
                                && !es.last().0.before(key)) || (kind == 3 && shared_slot(value)
                                is None))
                        }
                    },
                }
            }),
    {
        let going: bool = if kind == 3 {
            self.primary.continues(key)
        } else if kind == 4 {
            self.events.continues(key)
        } else {
            self.snapshots.continues(key)
        };
        if !going && self.count >= self.limit {
            return Err(
                Error::LimitExceeded { resource: "index partitions", limit: self.limit },
            );
        }
        let r = if kind == 3 {
            self.primary.append(key, value, dependency)
        } else if kind == 4 {
            self.events.append(key, value, dependency)
        } else {
            self.snapshots.append(key, value, dependency)
        };
        if r.is_ok() && !going {
            self.count = self.count + 1;
        }
        r
    }

    /// Takes over a partition of a manifest as it is.
    pub fn reuse(&mut self, route: Route, part: Partition, files: &Vec<FileInfo>) -> (r: Result<()>)
        requires
            old(self).sound(),
            3 <= route.kind <= 5,
        ensures
            final(self).sound(),
            final(self).most() == old(self).most(),
            forall|k: u8, x: Route|
                3 <= k <= 5 && #[trigger] final(self).lane(k).finished().contains_key(x) ==> old(
                    self,
                ).lane(k).finished().contains_key(x) || old(self).lane(k).contents().contains_key(
                    x,
                ) || (x == route && k == route.kind && r is Ok),
            forall|k: u8, f: FileId|
                3 <= k <= 5 && #[trigger] final(self).lane(k).uses(f) ==> old(self).lane(k).uses(f),
            forall|k: u8, r: Route|
                3 <= k <= 5 && #[trigger] old(self).lane(k).finished().contains_key(r)
                    ==> final(self).lane(k).finished().contains_key(r) && final(self).lane(
                    k,
                ).finished()[r] == old(self).lane(k).finished()[r],
            forall|k: u8|
                3 <= k <= 5 ==> (#[trigger] final(self).lane(k)).target() == old(self).lane(
                    k,
                ).target() && final(self).lane(k).sequence() == old(self).lane(k).sequence()
                    && final(self).lane(k).contents() == old(self).lane(k).contents(),
            forall|k: u8|
                3 <= k <= 5 && k != route.kind ==> #[trigger] final(self).lane(k) == old(self).lane(
                    k,
                ),
            match r {
                Ok(_) => {
                    &&& old(self).total() < old(self).most()
                    &&& !old(self).lane(route.kind).has(route)
                    &&& final(self).lane(route.kind).finished().contains_key(route)
                    &&& final(self).lane(route.kind).finished()[route] == part@
                    &&& crate::snapshot::listed(files@, part.file)
                    &&& final(self).taken() == old(self).taken().insert(
                        part.file,
                        info_of(files@, part.file).unwrap(),
                    )
                },
                Err(e) => final(self).taken() == old(self).taken() && if old(self).total() >= old(self).most() {
                    e == (Error::LimitExceeded {
                        resource: "index partitions",
                        limit: old(self).most() as usize,
                    })
                } else {
                    e is Corrupt && (!crate::snapshot::listed(files@, part.file) || old(self).lane(
                        route.kind,
                    ).has(route))
                },
            },
    {
        if self.count >= self.limit {
            return Err(
                Error::LimitExceeded { resource: "index partitions", limit: self.limit },
            );
        }
        let file = part.file;
        let info = match find_file(files, file) {
            Some(info) => info,
            None => {
                return Err(corrupt("unlisted partition"));
            },
        };
        let r = if route.kind == 3 {
            self.primary.adopt(route, part)
        } else if route.kind == 4 {
            self.events.adopt(route, part)
        } else {
            self.snapshots.adopt(route, part)
        };
        if r.is_ok() {
            self.count = self.count + 1;
            self.files.insert(file, info);
        }
        r
    }

    /// Finishes all partitions: the bytes of each kind's file, the partitions, and the files of
    /// those that were taken over.
    pub fn finish(self) -> (r: BuiltIndexes)
        requires
            self.sound(),
        ensures
            r.taken@ == self.taken(),
            forall|at: Route| #[trigger] r.primary.1@.contains_key(at) ==> at.kind == 3,
            forall|at: Route| #[trigger] r.events.1@.contains_key(at) ==> at.kind == 4,
            forall|at: Route| #[trigger] r.snapshots.1@.contains_key(at) ==> at.kind == 5,
            forall|kind: u8, at: Route|
                3 <= kind <= 5 && #[trigger] self.lane(kind).finished().contains_key(at)
                    ==> r.parts(kind).contains_key(at) && r.parts(kind)[at] == self.lane(
                    kind,
                ).finished()[at],
            forall|kind: u8, at: Route|
                3 <= kind <= 5 ==> #[trigger] r.parts(kind).contains_key(at) == self.lane(kind).has(
                    at,
                ),
            forall|kind: u8, at: Route|
                3 <= kind <= 5 && #[trigger] self.lane(kind).contents().contains_key(at)
                    ==> r.parts(kind).contains_key(at) && built(
                    r.data(kind),
                    self.lane(kind).sequence(),
                    self.lane(kind).target(),
                    at,
                    r.parts(kind)[at],
                    self.lane(kind).contents()[at],
                ),
            forall|kind: u8, at: Route, f: FileId|
                #![trigger self.lane(kind).contents().contains_key(at), r.parts(kind)[at].dependencies.contains_key(f)]
                3 <= kind <= 5 && self.lane(kind).contents().contains_key(at) && r.parts(
                    kind,
                )[at].dependencies.contains_key(f) ==> self.lane(kind).uses(f),
            forall|kind: u8, a: Route, b: Route|
                #![trigger self.lane(kind).contents().contains_key(a), self.lane(kind).contents().contains_key(b)]
                3 <= kind <= 5 && self.lane(kind).contents().contains_key(a) && self.lane(
                    kind,
                ).contents().contains_key(b) && a != b ==> r.parts(kind)[a].base != r.parts(
                    kind,
                )[b].base,
            forall|kind: u8|
                3 <= kind <= 5 && (#[trigger] r.data(kind)).len() > 0 ==> exists|at: Route|
                    #[trigger] self.lane(kind).contents().contains_key(at),
    {
        let mut primary = self.primary;
        let mut events = self.events;
        let mut snapshots = self.snapshots;
        primary.flush();
        events.flush();
        snapshots.flush();
        BuiltIndexes {
            primary: primary.finish(),
            events: events.finish(),
            snapshots: snapshots.finish(),
            taken: self.files,
        }
    }
}

/// Finished indexes of a table.
pub struct BuiltIndexes {
    /// The primary index: its file and its partitions.
    pub primary: (Vec<u8>, OrderedMap<Route, Partition>),
    /// The index of events.
    pub events: (Vec<u8>, OrderedMap<Route, Partition>),
    /// The index of snapshots.
    pub snapshots: (Vec<u8>, OrderedMap<Route, Partition>),
    /// The files of partitions that were taken over.
    pub taken: OrderedMap<FileId, FileInfo>,
}

impl BuiltIndexes {
    /// The bytes of a kind's file.
    pub open spec fn data(self, kind: u8) -> Seq<u8> {
        if kind == 3 {
            self.primary.0@
        } else if kind == 4 {
            self.events.0@
        } else {
            self.snapshots.0@
        }
    }

    /// The partitions of a kind.
    pub open spec fn parts(self, kind: u8) -> Map<Route, PartV> {
        (if kind == 3 {
            self.primary.1@
        } else if kind == 4 {
            self.events.1@
        } else {
            self.snapshots.1@
        }).map_values(|p: Partition| p@)
    }
}

/// The first reference to a file.
pub open spec fn info_of(files: Seq<FileInfo>, f: FileId) -> Option<FileInfo>
    decreases files.len(),
{
    if files.len() == 0 {
        None
    } else {
        match info_of(files.drop_last(), f) {
            Some(info) => Some(info),
            None => if files.last().named() == f {
                Some(files.last())
            } else {
                None
            },
        }
    }
}

/// The first reference to a file is found in front of others.
proof fn lemma_info_front(files: Seq<FileInfo>, f: FileId, n: int)
    requires
        0 <= n <= files.len(),
        info_of(files.take(n), f) is Some,
    ensures
        info_of(files, f) == info_of(files.take(n), f),
    decreases files.len(),
{
    if n < files.len() {
        assert(files.drop_last().take(n) =~= files.take(n));
        lemma_info_front(files.drop_last(), f, n);
    } else {
        assert(files.take(n) =~= files);
    }
}

/// The first reference to a file that is listed has its name and is among the references.
pub proof fn lemma_info(files: Seq<FileInfo>, f: FileId)
    ensures
        info_of(files, f) is Some == crate::snapshot::listed(files, f),
        info_of(files, f) matches Some(info) ==> info.named() == f && files.contains(info),
    decreases files.len(),
{
    if files.len() > 0 {
        let front = files.drop_last();
        lemma_info(front, f);
        if crate::snapshot::listed(front, f) {
            let i = choose|i: int| 0 <= i < front.len() && (#[trigger] front[i]).named() == f;
            assert(files[i].named() == f);
            let info = info_of(front, f).unwrap();
            let j = choose|j: int| 0 <= j < front.len() && front[j] == info;
            assert(files[j] == info);
        } else if files.last().named() == f {
            assert(files[files.len() - 1].named() == f);
        } else if crate::snapshot::listed(files, f) {
            let i = choose|i: int| 0 <= i < files.len() && (#[trigger] files[i]).named() == f;
            assert(front[i].named() == f);
        }
    }
}

/// The first reference to a file, if it is listed.
pub fn find_file(files: &Vec<FileInfo>, file: FileId) -> (r: Option<FileInfo>)
    ensures
        r == info_of(files@, file),
        match r {
            Some(info) => info.named() == file && files@.contains(info)
                && crate::snapshot::listed(files@, file),
            None => !crate::snapshot::listed(files@, file),
        },
{
    let mut i: usize = 0;
    assert(files@.take(0) =~= Seq::empty());
    while i < files.len()
        invariant
            i <= files@.len(),
            info_of(files@.take(i as int), file) is None,
        decreases files@.len() - i,
    {
        let info = files[i];
        proof {
            assert(files@.take(i + 1).drop_last() =~= files@.take(i as int));
            assert(files@.take(i + 1).last() == info);
        }
        if info.id() == file {
            proof {
                lemma_info_front(files@, file, i + 1);
                lemma_info(files@, file);
            }
            return Some(info);
        }
        i = i + 1;
    }
    proof {
        assert(files@.take(i as int) =~= files@);
        lemma_info(files@, file);
    }
    None
}

} // verus!
