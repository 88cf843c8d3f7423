//! An entity with its retained history, in memory and in the last checkpoint.

use crate::error::corrupt;
use crate::error::reports;
use crate::error::Error;
use crate::error::Fault;
use crate::error::Outcome;
use crate::error::Result;
use crate::key::increasing;
use crate::key::lemma_filter_map;
use crate::key::lemma_listing_is;
use crate::key::lemma_listing_map;
use crate::key::listing;
use crate::key::lists;
use crate::key::OrderedKey;
use crate::model::apply_event;
use crate::model::events_view;
use crate::model::Entity;
use crate::model::EntityV;
use crate::model::Event;
use crate::model::EventV;
use crate::model::Table;
use crate::model::TableV;
use crate::ordered_map::above;
use crate::ordered_map::within;
use crate::ordered_map::Bound;
use crate::ordered_map::OrderedMap;
use crate::reading::advanced;
use crate::reading::advance_asks;
use crate::reading::came_to;
use crate::reading::located_asks;
use crate::reading::state_asks;
use crate::reading::lemma_advanced;
use crate::reading::located;
use crate::reading::state_in;
use crate::reading::stepped;
use crate::snapshot::Root;
use crate::snapshot::RootV;
use crate::storage::pager::lacks;
use crate::storage::pager::Files;
use crate::storage::pager::Loaded;
use std::sync::Arc;
use vstd::prelude::*;

verus! {

/// Immutable disk history is loaded only by historical reads or collection.
pub struct DiskHistory {
    /// The manifest that the history is read through.
    pub root: Arc<Root>,
    /// The table.
    pub table: u64,
    /// The last version that the history reaches.
    pub through: u64,
}

/// What a disk history stands for.
pub struct DiskV {
    /// The manifest.
    pub root: RootV,
    /// The table.
    pub table: u64,
    /// The last version that the history reaches.
    pub through: u64,
}

impl View for DiskHistory {
    type V = DiskV;

    open spec fn view(&self) -> DiskV {
        DiskV { root: self.root@, table: self.table, through: self.through }
    }
}

impl Clone for DiskHistory {
    fn clone(&self) -> (copy: Self)
        ensures
            copy@ == self@,
    {
        DiskHistory { root: self.root.clone(), table: self.table, through: self.through }
    }
}

/// An entity with its retained history.
pub struct EntityData {
    /// The current state.
    pub current: Entity,
    /// The state that the retained history starts from.
    pub base: Entity,
    /// Events that a transaction has staged.
    pub events: Vec<Event>,
    /// Committed events that no checkpoint holds, by the version that they produce.
    pub committed: OrderedMap<u64, Event>,
    /// States kept to shorten replay, by version.
    pub snapshots: OrderedMap<u64, Entity>,
    /// The history in the last checkpoint.
    pub disk: Option<DiskHistory>,
}

/// What an entity with its history stands for.
pub struct DataV {
    /// The current state.
    pub current: EntityV,
    /// The state that the retained history starts from.
    pub base: EntityV,
    /// Staged events.
    pub events: Seq<EventV>,
    /// Committed events by version.
    pub committed: Map<u64, EventV>,
    /// Snapshots by version.
    pub snapshots: Map<u64, EntityV>,
    /// The history in the last checkpoint.
    pub disk: Option<DiskV>,
}

/// What committed events stand for.
pub open spec fn committed_view(m: Map<u64, Event>) -> Map<u64, EventV> {
    m.map_values(|e: Event| e@)
}

/// What snapshots stand for.
pub open spec fn snapshots_view(m: Map<u64, Entity>) -> Map<u64, EntityV> {
    m.map_values(|e: Entity| e@)
}

/// What a disk history stands for, if there is one.
pub open spec fn disk_view(d: Option<DiskHistory>) -> Option<DiskV> {
    match d {
        None => None,
        Some(d) => Some(d@),
    }
}

impl View for EntityData {
    type V = DataV;

    open spec fn view(&self) -> DataV {
        DataV {
            current: self.current@,
            base: self.base@,
            events: events_view(self.events@),
            committed: committed_view(self.committed@),
            snapshots: snapshots_view(self.snapshots@),
            disk: disk_view(self.disk),
        }
    }
}

impl Clone for EntityData {
    fn clone(&self) -> (copy: Self)
        ensures
            copy@ == self@,
    {
        let mut events: Vec<Event> = Vec::new();
        for i in 0..self.events.len()
            invariant
                events@.len() == i,
                forall|j: int| 0 <= j < i ==> (#[trigger] events@[j])@ == self.events@[j]@,
        {
            events.push(self.events[i].clone());
        }
        let disk = match &self.disk {
            None => None,
            Some(disk) => Some(disk.clone()),
        };
        let copy = EntityData {
            current: self.current.clone(),
            base: self.base.clone(),
            events,
            committed: self.committed.clone(),
            snapshots: self.snapshots.clone(),
            disk,
        };
        assert(copy@.events =~= self@.events);
        copy
    }
}

// ---- History ----

/// The state after events, one by one.
pub open spec fn folded(state: EntityV, events: Seq<EventV>, table: TableV) -> Outcome<EntityV>
    decreases events.len(),
{
    if events.len() == 0 {
        Ok(state)
    } else {
        match stepped(state, events[0], table) {
            Err(f) => Err(f),
            Ok(next) => folded(next, events.skip(1), table),
        }
    }
}

/// Whether a version lies behind one and not beyond another.
pub open spec fn spans(low: u64, high: u64) -> spec_fn((u64, EventV)) -> bool {
    |e: (u64, EventV)| low < e.0 && e.0 <= high
}

/// Whether an event produces a version behind one and not beyond another.
pub open spec fn produces(low: u64, high: u64) -> spec_fn(EventV) -> bool {
    |e: EventV| low < e.version && e.version <= high
}

/// The committed events between two versions.
pub open spec fn committed_between(m: Map<u64, EventV>, low: u64, high: u64) -> Seq<EventV> {
    listing(m).filter(spans(low, high)).map_values(|e: (u64, EventV)| e.1)
}

/// The last snapshot that is not beyond a version, else the base.
pub open spec fn nearest(d: DataV, version: u64) -> EntityV {
    if has_before(d.snapshots, version) {
        d.snapshots[last_before(d.snapshots, version)]
    } else {
        d.base
    }
}

/// Whether there is a snapshot up to a version.
pub open spec fn has_before(m: Map<u64, EntityV>, version: u64) -> bool {
    exists|v: u64| #[trigger] m.contains_key(v) && v <= version
}

/// Whether a version is the last with a snapshot up to another.
pub open spec fn is_last(m: Map<u64, EntityV>, version: u64, v: u64) -> bool {
    &&& m.contains_key(v)
    &&& v <= version
    &&& forall|w: u64| #[trigger] m.contains_key(w) ==> w <= v || version < w
}

/// The last version with a snapshot up to a version.
pub open spec fn last_before(m: Map<u64, EntityV>, version: u64) -> u64 {
    choose|v: u64| is_last(m, version, v)
}

/// A state advanced through the last checkpoint as far as its history reaches.
pub open spec fn from_disk(d: DataV, files: Files, first: EntityV, version: u64, snapshots: bool) -> Outcome<
    EntityV,
> {
    match d.disk {
        None => Ok(first),
        Some(disk) => {
            let reach = if version < disk.through {
                version
            } else {
                disk.through
            };
            if first.version < reach {
                advanced(disk.root, files, disk.table, d.base.id, first, reach, snapshots)
            } else {
                Ok(first)
            }
        },
    }
}

/// A state advanced through the events in memory.
pub open spec fn from_memory(d: DataV, first: EntityV, table: TableV, version: u64) -> Outcome<
    EntityV,
> {
    match folded(first, committed_between(d.committed, first.version, version), table) {
        Err(f) => Err(f),
        Ok(state) => match folded(
            state,
            d.events.filter(produces(state.version, version)),
            table,
        ) {
            Err(f) => Err(f),
            Ok(last) => if last.version == version {
                Ok(last)
            } else {
                Err(Fault::Corrupt)
            },
        },
    }
}

/// The state of an entity at a version.
pub open spec fn data_at(
    d: DataV,
    files: Files,
    table: TableV,
    version: u64,
    snapshots: bool,
) -> Outcome<EntityV> {
    if version < d.base.version || version > d.current.version {
        Err(
            Fault::Unavailable {
                requested: version,
                first: d.base.version,
                last: d.current.version,
            },
        )
    } else {
        let first = if snapshots {
            nearest(d, version)
        } else {
            d.base
        };
        match from_disk(d, files, first, version, snapshots) {
            Err(f) => Err(f),
            Ok(state) => from_memory(d, state, table, version),
        }
    }
}

/// Whether advancing a state through the last checkpoint needs what a request names.
pub open spec fn disk_asks(
    d: DataV,
    files: Files,
    first: EntityV,
    version: u64,
    snapshots: bool,
    e: Error,
) -> bool {
    match d.disk {
        None => false,
        Some(disk) => {
            let reach = if version < disk.through {
                version
            } else {
                disk.through
            };
            first.version < reach && advance_asks(
                disk.root,
                files,
                disk.table,
                d.base.id,
                first,
                reach,
                snapshots,
                e,
            )
        },
    }
}

/// Whether reading the state of an entity at a version needs what a request names. An entity
/// without stored history needs nothing.
pub open spec fn data_asks(d: DataV, files: Files, version: u64, snapshots: bool, e: Error) -> bool {
    d.base.version <= version <= d.current.version && disk_asks(
        d,
        files,
        if snapshots {
            nearest(d, version)
        } else {
            d.base
        },
        version,
        snapshots,
        e,
    )
}

/// Whether moving the retained base forward needs what a request names.
pub open spec fn retain_asks(d: DataV, files: Files, count: u64, e: Error) -> bool {
    count <= d.current.version && d.current.version - count > d.base.version && data_asks(
        d,
        files,
        (d.current.version - count) as u64,
        false,
        e,
    )
}

/// Whether reading an entity from a checkpoint needs what a request names: the way to its
/// primary entry, or its two states.
pub open spec fn stored_data_asks(r: RootV, files: Files, table: u64, id: u64, e: Error) -> bool {
    ||| located_asks(r, files, table, id, e)
    ||| match located(r, files, table, id) {
        Ok(Some(v)) => state_asks(r, files, table, 0, v.0, e) || state_asks(
            r,
            files,
            table,
            1,
            v.1,
            e,
        ),
        _ => false,
    }
}

impl EntityData {
    fn nearest_snapshot(&self, version: u64) -> (state: Entity)
        ensures
            state@ == nearest(self@, version),
    {
        match self.snapshots.floor(&version) {
            None => {
                proof {
                    assert forall|v: u64| #[trigger] self@.snapshots.contains_key(v) implies v
                        > version by {
                        assert(self.snapshots@.contains_key(v));
                    }
                }
                self.base.clone()
            },
            Some((v, state)) => {
                proof {
                    let m = self@.snapshots;
                    assert(m.contains_key(*v));
                    assert forall|w: u64| #[trigger] m.contains_key(w) implies w <= *v || version
                        < w by {
                        assert(self.snapshots@.contains_key(w));
                    }
                    assert(is_last(m, version, *v));
                    let c = last_before(m, version);
                    assert(is_last(m, version, c));
                    assert(m.contains_key(c));
                    assert(c == *v);
                }
                state.clone()
            },
        }
    }

    /// Advances a state through the last checkpoint as far as its history reaches.
    fn through_disk(&self, loaded: &Loaded, first: Entity, version: u64, snapshots: bool) -> (r:
        Result<Entity>)
        ensures
            came_to(
                loaded,
                r,
                |files: Files| from_disk(self@, files, first@, version, snapshots),
                |files: Files, e: Error|
                    disk_asks(self@, files, first@, version, snapshots, e),
            ),
    {
        match &self.disk {
            None => Ok(first),
            Some(disk) => {
                let reach: u64 = if version < disk.through {
                    version
                } else {
                    disk.through
                };
                if first.version < reach {
                    disk.root.advance(loaded, disk.table, self.base.id, first, reach, snapshots)
                } else {
                    Ok(first)
                }
            },
        }
    }

    /// Advances a state through the events in memory.
    fn through_memory(&self, first: Entity, table: &Table, version: u64) -> (r: Result<Entity>)
        ensures
            match r {
                Ok(v) => from_memory(self@, first@, table@, version) == Ok::<_, Fault>(v@),
                Err(e) => from_memory(self@, first@, table@, version) is Err && reports(
                    e,
                    from_memory(self@, first@, table@, version)->Err_0,
                ),
            },
    {
        let low: u64 = first.version;
        let mut state = first;
        let mut range = self.committed.range(Bound::Excluded(low), Bound::Included(version));
        let ghost h = |e: (u64, Event)| e.1@;
        let ghost all = range.remaining().map_values(h);
        proof {
            self.lemma_committed(low, version);
            assert(all == committed_between(self@.committed, low, version));
        }
        let mut done: bool = false;
        while !done
            invariant
                h == (|e: (u64, Event)| e.1@),
                folded(first@, committed_between(self@.committed, low, version), table@) == folded(
                    state@,
                    range.remaining().map_values(h),
                    table@,
                ),
                done ==> range.remaining().len() == 0,
                low == first.version,
            decreases range.remaining().len(), (if done { 0int } else { 1int }),
        {
            let ghost before = range.remaining();
            match range.next() {
                None => {
                    done = true;
                },
                Some((k, event)) => {
                    proof {
                        assert(before.map_values(h)[0] == event@);
                        assert(before.map_values(h).skip(1) =~= range.remaining().map_values(h));
                    }
                    apply_event(&mut state, event, table)?;
                },
            }
        }
        let ghost middle = state@;
        let low: u64 = state.version;
        let ghost q = produces(low, version);
        let ghost events = self@.events;
        proof {
            assert(range.remaining().map_values(h) =~= Seq::empty());
            assert(events.skip(0) =~= events);
        }
        let mut i: usize = 0;
        while i < self.events.len()
            invariant
                i <= self.events@.len(),
                events == self@.events,
                q == produces(low, version),
                folded(middle, events.filter(q), table@) == folded(
                    state@,
                    events.skip(i as int).filter(q),
                    table@,
                ),
                folded(first@, committed_between(self@.committed, first.version, version), table@)
                    == Ok::<_, Fault>(middle),
                low == middle.version,
            decreases self.events@.len() - i,
        {
            let event = &self.events[i];
            proof {
                lemma_filter_front(events.skip(i as int), q);
                assert(events.skip(i as int).skip(1) =~= events.skip(i + 1));
                assert(events.skip(i as int)[0] == event@);
            }
            if low < event.version && event.version <= version {
                proof {
                    let t = events.skip(i + 1).filter(q);
                    assert((seq![event@] + t).skip(1) =~= t);
                }
                apply_event(&mut state, event, table)?;
            } else {
                proof {
                    let t = events.skip(i + 1).filter(q);
                    assert(Seq::<EventV>::empty() + t =~= t);
                }
            }
            i = i + 1;
        }
        proof {
            assert(events.skip(i as int) =~= Seq::empty());
            reveal(Seq::filter);
        }
        if state.version != version {
            return Err(corrupt("gap in entity history"));
        }
        Ok(state)
    }

    pub proof fn lemma_committed(&self, low: u64, high: u64)
        requires
            increasing(self.committed.entries()),
            lists(self.committed.entries(), self.committed@),
        ensures
            self.committed.entries().filter(
                |e: (u64, Event)| above(Bound::Excluded(low), e.0) && within(
                    Bound::Included(high),
                    e.0,
                ),
            ).map_values(|e: (u64, Event)| e.1@) == committed_between(
                self@.committed,
                low,
                high,
            ),
    {
        let s = self.committed.entries();
        let p = |e: (u64, Event)|
            above(Bound::Excluded(low), e.0) && within(Bound::Included(high), e.0);
        let f = |e: Event| e@;
        let g = |e: (u64, Event)| (e.0, f(e.1));
        lemma_listing_map(s, self.committed@, f);
        lemma_listing_is(s.map_values(g), self@.committed);
        lemma_filter_map(s, p, g, spans(low, high));
        assert(s.filter(p).map_values(|e: (u64, Event)| e.1@) =~= s.filter(p).map_values(
            g,
        ).map_values(|e: (u64, EventV)| e.1));
    }

    /// The state of the entity at a version.
    pub fn at(&self, loaded: &Loaded, table: &Table, version: u64, snapshots: bool) -> (r: Result<
        Entity,
    >)
        ensures
            came_to(
                loaded,
                r,
                |files: Files| data_at(self@, files, table@, version, snapshots),
                |files: Files, e: Error| data_asks(self@, files, version, snapshots, e),
            ),
    {
        if version < self.base.version || version > self.current.version {
            return Err(
                Error::VersionUnavailable {
                    requested: version,
                    first: self.base.version,
                    last: self.current.version,
                },
            );
        }
        let first = if snapshots {
            self.nearest_snapshot(version)
        } else {
            self.base.clone()
        };
        let state = self.through_disk(loaded, first, version, snapshots)?;
        self.through_memory(state, table, version)
    }
}

/// A filter takes the first item or not, then goes on.
pub proof fn lemma_filter_front<T>(s: Seq<T>, p: spec_fn(T) -> bool)
    requires
        s.len() > 0,
    ensures
        s.filter(p) == (if p(s[0]) {
            seq![s[0]]
        } else {
            Seq::<T>::empty()
        }) + s.skip(1).filter(p),
    decreases s.len(),
{
    reveal(Seq::filter);
    let t = s.drop_last();
    if t.len() == 0 {
        assert(s.skip(1) =~= Seq::empty());
        assert(t.filter(p) =~= Seq::empty());
        assert(s.skip(1).filter(p) =~= Seq::empty());
        assert(s.filter(p) =~= (if p(s[0]) {
            seq![s[0]]
        } else {
            Seq::<T>::empty()
        }) + s.skip(1).filter(p));
    } else {
        lemma_filter_front(t, p);
        assert(s.skip(1).drop_last() =~= t.skip(1));
        assert(s.skip(1).last() == s.last());
        assert(t[0] == s[0]);
        assert(s.filter(p) =~= (if p(s[0]) {
            seq![s[0]]
        } else {
            Seq::<T>::empty()
        }) + s.skip(1).filter(p));
    }
}

// ---- Laws of replay ----

/// Whether events in memory stand in the order of the versions that they produce.
pub open spec fn orderly(d: DataV) -> bool {
    &&& d.committed.dom().finite()
    &&& forall|v: u64| #[trigger] d.committed.contains_key(v) ==> d.committed[v].version == v
    &&& forall|i: int, j: int|
        0 <= i < j < d.events.len() ==> (#[trigger] d.events[i]).version < (
        #[trigger] d.events[j]).version
    &&& forall|v: u64, i: int| #[trigger]
        d.committed.contains_key(v) && 0 <= i < d.events.len() ==> v < (
        #[trigger] d.events[i]).version
}

/// To fold over two runs of events is to fold over one after the other.
pub proof fn lemma_folded(state: EntityV, a: Seq<EventV>, b: Seq<EventV>, table: TableV)
    ensures
        folded(state, a + b, table) == (match folded(state, a, table) {
            Err(f) => Err(f),
            Ok(next) => folded(next, b, table),
        }),
    decreases a.len(),
{
    if a.len() == 0 {
        assert(a + b =~= b);
    } else {
        assert((a + b)[0] == a[0]);
        assert((a + b).skip(1) =~= a.skip(1) + b);
        if let Ok(next) = stepped(state, a[0], table) {
            lemma_folded(next, a.skip(1), b, table);
        }
    }
}

/// Each event raises the version by one.
pub proof fn lemma_folded_version(state: EntityV, events: Seq<EventV>, table: TableV)
    requires
        folded(state, events, table) is Ok,
    ensures
        folded(state, events, table)->Ok_0.version == state.version + events.len(),
        folded(state, events, table)->Ok_0.id == state.id,
        forall|i: int|
            0 <= i < events.len() ==> (#[trigger] events[i]).version == state.version + i + 1,
    decreases events.len(),
{
    if events.len() > 0 {
        let next = stepped(state, events[0], table)->Ok_0;
        lemma_folded_version(next, events.skip(1), table);
        assert forall|i: int| 0 <= i < events.len() implies (#[trigger] events[i]).version
            == state.version + i + 1 by {
            if i > 0 {
                assert(events.skip(1)[i - 1] == events[i]);
            }
        }
    }
}

/// What passes one filter stands in front of what passes another, if it stands so in the whole.
pub(crate) proof fn lemma_filter_split<T>(
    s: Seq<T>,
    a: spec_fn(T) -> bool,
    b: spec_fn(T) -> bool,
    both: spec_fn(T) -> bool,
)
    requires
        forall|x: T| #[trigger] both(x) == (a(x) || b(x)),
        forall|x: T| !(#[trigger] a(x) && b(x)),
        forall|i: int, j: int|
            0 <= i < j < s.len() && b(#[trigger] s[i]) ==> !a(#[trigger] s[j]),
    ensures
        s.filter(both) == s.filter(a) + s.filter(b),
    decreases s.len(),
{
    reveal(Seq::filter);
    if s.len() > 0 {
        let t = s.drop_last();
        let x = s.last();
        assert forall|i: int, j: int| 0 <= i < j < t.len() && b(#[trigger] t[i]) implies !a(
            #[trigger] t[j],
        ) by {
            assert(s[i] == t[i] && s[j] == t[j]);
        }
        lemma_filter_split(t, a, b, both);
        assert(both(x) == (a(x) || b(x)));
        if a(x) {
            assert(!(a(x) && b(x)));
            assert forall|i: int| 0 <= i < t.len() implies !b(#[trigger] t[i]) by {
                assert(s[i] == t[i]);
                assert(s[s.len() - 1] == x);
            }
            crate::key::lemma_filter_none(t, b);
            assert(s.filter(both) =~= s.filter(a) + s.filter(b));
        } else {
            assert(s.filter(both) =~= s.filter(a) + s.filter(b));
        }
    } else {
        assert(s.filter(both) =~= s.filter(a) + s.filter(b));
    }
}

pub(crate) proof fn lemma_between_split(m: Map<u64, EventV>, low: u64, mid: u64, high: u64)
    requires
        m.dom().finite(),
        low <= mid <= high,
    ensures
        committed_between(m, low, high) == committed_between(m, low, mid) + committed_between(
            m,
            mid,
            high,
        ),
{
    let s = listing(m);
    crate::key::lemma_listing(m);
    reveal(increasing);
    let h = |e: (u64, EventV)| e.1;
    lemma_filter_split(s, spans(low, mid), spans(mid, high), spans(low, high));
    let (a, b) = (s.filter(spans(low, mid)), s.filter(spans(mid, high)));
    assert((a + b).map_values(h) =~= a.map_values(h) + b.map_values(h));
}

pub(crate) proof fn lemma_between_empty(m: Map<u64, EventV>, low: u64, high: u64)
    requires
        m.dom().finite(),
        forall|v: u64| #[trigger] m.contains_key(v) ==> !(low < v && v <= high),
    ensures
        committed_between(m, low, high) == Seq::<EventV>::empty(),
{
    let s = listing(m);
    crate::key::lemma_listing(m);
    reveal(lists);
    assert forall|i: int| 0 <= i < s.len() implies !spans(low, high)(#[trigger] s[i]) by {
        assert(m.contains_key(s[i].0));
    }
    crate::key::lemma_filter_none(s, spans(low, high));
    assert(s.filter(spans(low, high)).map_values(|e: (u64, EventV)| e.1) =~= Seq::empty());
}

/// Replay may stop at a version on the way and go on from there.
pub proof fn lemma_resume(d: DataV, first: EntityV, table: TableV, middle: u64, version: u64)
    requires
        orderly(d),
        first.version <= middle <= version,
        from_memory(d, first, table, middle) is Ok,
    ensures
        from_memory(d, from_memory(d, first, table, middle)->Ok_0, table, version) == from_memory(
            d,
            first,
            table,
            version,
        ),
{
    let a = committed_between(d.committed, first.version, middle);
    let b = committed_between(d.committed, middle, version);
    let s2 = folded(first, a, table)->Ok_0;
    let q = produces(s2.version, middle);
    let mid = from_memory(d, first, table, middle)->Ok_0;
    let ev = d.events.filter(q);
    lemma_between_split(d.committed, first.version, middle, version);
    lemma_folded(first, a, b, table);
    lemma_folded_version(first, a, table);
    lemma_folded_version(s2, ev, table);
    assert(mid.version == middle);
    if ev.len() == 0 {
        assert(mid == s2);
        // Nothing staged up to the middle: both go on from the same state.
    } else {
        // A staged event up to the middle: no committed event lies beyond it.
        assert(ev.len() > 0);
        lemma_filter_member(d.events, q);
        let k = choose|k: int| 0 <= k < d.events.len() && #[trigger] d.events[k] == ev[0];
        assert(q(ev[0]));
        assert forall|v: u64| #[trigger] d.committed.contains_key(v) implies !(middle < v && v
            <= version) by {
            assert(v < d.events[k].version);
        }
        lemma_between_empty(d.committed, middle, version);
        assert(folded(s2, Seq::<EventV>::empty(), table) == Ok::<_, Fault>(s2));
        assert(folded(mid, Seq::<EventV>::empty(), table) == Ok::<_, Fault>(mid));
        let r = produces(middle, version);
        lemma_filter_split(d.events, q, r, produces(s2.version, version));
        lemma_folded(s2, ev, d.events.filter(r), table);
    }
}

/// What passes a filter is of the whole.
pub proof fn lemma_filter_member<T>(s: Seq<T>, p: spec_fn(T) -> bool)
    ensures
        forall|i: int|
            0 <= i < s.filter(p).len() ==> p(#[trigger] s.filter(p)[i]) && exists|k: int|
                0 <= k < s.len() && #[trigger] s[k] == s.filter(p)[i],
    decreases s.len(),
{
    reveal(Seq::filter);
    if s.len() > 0 {
        let t = s.drop_last();
        lemma_filter_member(t, p);
        assert forall|i: int| 0 <= i < s.filter(p).len() implies p(#[trigger] s.filter(p)[i])
            && exists|k: int| 0 <= k < s.len() && #[trigger] s[k] == s.filter(p)[i] by {
            if i < t.filter(p).len() {
                assert(s.filter(p)[i] == t.filter(p)[i]);
                let k = choose|k: int| 0 <= k < t.len() && #[trigger] t[k] == t.filter(p)[i];
                assert(s[k] == s.filter(p)[i]);
            } else {
                assert(s[s.len() - 1] == s.filter(p)[i]);
            }
        }
    }
}

// ---- Retention ----

/// An entity whose retained history starts from a later state.
pub open spec fn rebased(d: DataV, base: EntityV) -> DataV {
    DataV {
        current: d.current,
        base,
        events: d.events.filter(|e: EventV| e.version > base.version),
        committed: d.committed.restrict(Set::new(|v: u64| v > base.version)),
        snapshots: d.snapshots.restrict(Set::new(|v: u64| v >= base.version)),
        disk: d.disk,
    }
}

/// The version that the retained history starts from when so many events are kept.
pub open spec fn retained_from(d: DataV, count: u64) -> u64 {
    if d.current.version >= count && d.current.version - count > d.base.version {
        (d.current.version - count) as u64
    } else {
        d.base.version
    }
}

/// An entity that retains so many events.
pub open spec fn retained(d: DataV, files: Files, table: TableV, count: u64) -> Outcome<DataV> {
    let from = retained_from(d, count);
    if from == d.base.version {
        Ok(d)
    } else {
        match data_at(d, files, table, from, false) {
            Err(f) => Err(f),
            Ok(base) => Ok(rebased(d, base)),
        }
    }
}

/// Whether stored history may be replayed piece by piece.
pub open spec fn in_pieces(d: DataV, files: Files) -> bool {
    d.disk is Some ==> {
        let disk = d.disk.unwrap();
        let step = |first: EntityV, to: u64|
            advanced(disk.root, files, disk.table, d.base.id, first, to, false);
        forall|first: EntityV, b: u64, c: u64|
            first.version <= b <= c <= disk.through && (#[trigger] step(first, b)) is Ok ==> step(
                step(first, b)->Ok_0,
                c,
            ) == #[trigger] step(first, c)
    }
}

/// Listing the entries of a map above a key is to take those of its listing.
proof fn lemma_restricted<V>(s: Seq<(u64, V)>, m: Map<u64, V>, low: u64)
    requires
        increasing(s),
        lists(s, m),
    ensures
        listing(m.restrict(Set::new(|v: u64| v > low))) == s.filter(|e: (u64, V)| e.0 > low),
{
    let keep = |e: (u64, V)| e.0 > low;
    let t = s.filter(keep);
    let n = m.restrict(Set::new(|v: u64| v > low));
    lemma_filter_increasing(s, keep);
    assert(lists(t, n)) by {
        reveal(lists);
        lemma_filter_member(s, keep);
        lemma_filter_has(s, keep);
        assert forall|i: int| 0 <= i < t.len() implies n.contains_key((#[trigger] t[i]).0)
            && n[t[i].0] == t[i].1 by {
            let k = choose|k: int| 0 <= k < s.len() && #[trigger] s[k] == t[i];
            assert(m.contains_key(s[k].0));
            assert(keep(t[i]));
        }
        assert forall|v: u64| #[trigger] n.contains_key(v) implies exists|i: int|
            0 <= i < t.len() && (#[trigger] t[i]).0 == v by {
            assert(m.contains_key(v));
            let k = choose|k: int| 0 <= k < s.len() && (#[trigger] s[k]).0 == v;
            assert(keep(s[k]));
            let i = choose|i: int| 0 <= i < t.len() && #[trigger] t[i] == s[k];
            assert(t[i].0 == v);
        }
    }
    lemma_listing_is(t, n);
}

proof fn lemma_filter_has<T>(s: Seq<T>, p: spec_fn(T) -> bool)
    ensures
        forall|k: int|
            0 <= k < s.len() && p(#[trigger] s[k]) ==> exists|i: int|
                0 <= i < s.filter(p).len() && #[trigger] s.filter(p)[i] == s[k],
    decreases s.len(),
{
    reveal(Seq::filter);
    if s.len() > 0 {
        let t = s.drop_last();
        lemma_filter_has(t, p);
        assert forall|k: int| 0 <= k < s.len() && p(#[trigger] s[k]) implies exists|i: int|
            0 <= i < s.filter(p).len() && #[trigger] s.filter(p)[i] == s[k] by {
            if k < t.len() {
                assert(t[k] == s[k]);
                let i = choose|i: int| 0 <= i < t.filter(p).len() && #[trigger] t.filter(p)[i]
                    == t[k];
                assert(s.filter(p)[i] == s[k]);
            } else {
                assert(s.filter(p)[s.filter(p).len() - 1] == s[k]);
            }
        }
    }
}

proof fn lemma_filter_increasing<V>(s: Seq<(u64, V)>, p: spec_fn((u64, V)) -> bool)
    requires
        increasing(s),
    ensures
        increasing(s.filter(p)),
    decreases s.len(),
{
    reveal(increasing);
    reveal(Seq::filter);
    if s.len() > 0 {
        let t = s.drop_last();
        assert(increasing(t));
        lemma_filter_increasing(t, p);
        lemma_filter_member(t, p);
        let f = t.filter(p);
        if p(s.last()) {
            assert forall|i: int, j: int| 0 <= i < j < s.filter(p).len() implies (
            #[trigger] s.filter(p)[i]).0.before((#[trigger] s.filter(p)[j]).0) by {
                if j == f.len() {
                    let k = choose|k: int| 0 <= k < t.len() && #[trigger] t[k] == f[i];
                    assert(s[k].0.before(s[s.len() - 1].0));
                } else {
                    assert(f[i].0.before(f[j].0));
                }
            }
        }
    }
}

/// A filter that takes no more than another does as much after it as alone.
pub(crate) proof fn lemma_filter_twice<T>(s: Seq<T>, wide: spec_fn(T) -> bool, narrow: spec_fn(T) -> bool)
    requires
        forall|x: T| #[trigger] narrow(x) ==> wide(x),
    ensures
        s.filter(wide).filter(narrow) == s.filter(narrow),
    decreases s.len(),
{
    reveal(Seq::filter);
    if s.len() > 0 {
        let t = s.drop_last();
        lemma_filter_twice(t, wide, narrow);
        if wide(s.last()) {
            assert(t.filter(wide).push(s.last()).drop_last() =~= t.filter(wide));
        }
    }
}

/// Giving up earlier history changes no later state.
pub(crate) proof fn lemma_rebased_at(d: DataV, files: Files, table: TableV, count: u64, version: u64)
    requires
        orderly(d),
        in_pieces(d, files),
        retained(d, files, table, count) is Ok,
        retained_from(d, count) <= version <= d.current.version,
    ensures
        data_at(retained(d, files, table, count)->Ok_0, files, table, version, false) == data_at(
            d,
            files,
            table,
            version,
            false,
        ),
{
    let from = retained_from(d, count);
    if from != d.base.version {
        let base = data_at(d, files, table, from, false)->Ok_0;
        let s1 = from_disk(d, files, d.base, from, false)->Ok_0;
        lemma_from_disk_version(d, files, d.base, from);
        lemma_from_memory_id(d, s1, table, from);
        assert(base.version == from);
        lemma_resume_all(d, files, table, from, version);
        lemma_rebased_memory_all(d, files, base, table, version);
    }
}

pub(crate) proof fn lemma_from_memory_id(d: DataV, first: EntityV, table: TableV, version: u64)
    requires
        from_memory(d, first, table, version) is Ok,
    ensures
        from_memory(d, first, table, version)->Ok_0.version == version,
        from_memory(d, first, table, version)->Ok_0.id == first.id,
{
    let a = committed_between(d.committed, first.version, version);
    lemma_folded_version(first, a, table);
    let s2 = folded(first, a, table)->Ok_0;
    lemma_folded_version(s2, d.events.filter(produces(s2.version, version)), table);
}

pub(crate) proof fn lemma_from_disk_version(d: DataV, files: Files, first: EntityV, version: u64)
    requires
        from_disk(d, files, first, version, false) is Ok,
        first.version <= version,
    ensures
        first.version <= from_disk(d, files, first, version, false)->Ok_0.version <= version,
        from_disk(d, files, first, version, false)->Ok_0.id == first.id,
{
    if let Some(disk) = d.disk {
        let reach = if version < disk.through {
            version
        } else {
            disk.through
        };
        if first.version < reach {
            lemma_advanced(disk.root, files, disk.table, d.base.id, first, reach);
        }
    }
}

proof fn lemma_rebased_memory_all(
    d: DataV,
    files: Files,
    base: EntityV,
    table: TableV,
    version: u64,
)
    requires
        d.committed.dom().finite(),
        base.version <= version <= d.current.version,
        in_pieces(d, files),
        base.id == d.base.id,
    ensures
        data_at(rebased(d, base), files, table, version, false) == (match from_disk(
            d,
            files,
            base,
            version,
            false,
        ) {
            Err(f) => Err(f),
            Ok(state) => from_memory(d, state, table, version),
        }),
{
    let n = rebased(d, base);
    assert(from_disk(n, files, base, version, false) == from_disk(d, files, base, version, false));
    if let Ok(state) = from_disk(d, files, base, version, false) {
        lemma_from_disk_version(d, files, base, version);
        lemma_rebased_from(d, base, state, table, version);
    }
}

pub(crate) proof fn lemma_rebased_between(d: DataV, base: EntityV, from: u64, version: u64)
    requires
        d.committed.dom().finite(),
        base.version <= from,
    ensures
        committed_between(rebased(d, base).committed, from, version) == committed_between(
            d.committed,
            from,
            version,
        ),
{
    let m = d.committed;
    let low = base.version;
    let keep = |e: (u64, EventV)| e.0 > low;
    let s = listing(m);
    crate::key::lemma_listing(m);
    lemma_restricted(s, m, low);
    lemma_filter_twice(s, keep, spans(from, version));
}

proof fn lemma_rebased_from(d: DataV, base: EntityV, first: EntityV, table: TableV, version: u64)
    requires
        d.committed.dom().finite(),
        base.version <= first.version <= version,
    ensures
        from_memory(rebased(d, base), first, table, version) == from_memory(
            d,
            first,
            table,
            version,
        ),
{
    let m = d.committed;
    let low = base.version;
    let from = first.version;
    lemma_rebased_between(d, base, from, version);
    if let Ok(state) = folded(first, committed_between(m, from, version), table) {
        lemma_folded_version(first, committed_between(m, from, version), table);
        lemma_filter_twice(
            d.events,
            |e: EventV| e.version > low,
            produces(state.version, version),
        );
    }
}

/// Replay may stop at a retained version on the way and go on from there.
pub proof fn lemma_resume_all(d: DataV, files: Files, table: TableV, middle: u64, version: u64)
    requires
        orderly(d),
        in_pieces(d, files),
        middle <= version <= d.current.version,
        data_at(d, files, table, middle, false) is Ok,
    ensures
        (match from_disk(
            d,
            files,
            data_at(d, files, table, middle, false)->Ok_0,
            version,
            false,
        ) {
            Err(f) => Err(f),
            Ok(state) => from_memory(d, state, table, version),
        }) == data_at(d, files, table, version, false),
{
    let mid = data_at(d, files, table, middle, false)->Ok_0;
    let s1 = from_disk(d, files, d.base, middle, false)->Ok_0;
    lemma_from_disk_version(d, files, d.base, middle);
    lemma_from_memory_id(d, s1, table, middle);
    if d.disk is Some && middle < d.disk.unwrap().through {
        let disk = d.disk.unwrap();
        if d.base.version < middle {
            lemma_advanced(disk.root, files, disk.table, d.base.id, d.base, middle);
        }
        assert(s1.version == middle);
        lemma_here(d, s1, table);
        assert(mid == s1);
        let step = |first: EntityV, to: u64|
            advanced(disk.root, files, disk.table, d.base.id, first, to, false);
        let reach = if version < disk.through {
            version
        } else {
            disk.through
        };
        if d.base.version < middle && middle < reach {
            assert(step(d.base, middle) is Ok);
            assert(step(step(d.base, middle)->Ok_0, reach) == step(d.base, reach));
        }
    } else {
        lemma_resume(d, s1, table, middle, version);
    }
}

/// Replay from a state to its own version does nothing.
pub(crate) proof fn lemma_here(d: DataV, state: EntityV, table: TableV)
    requires
        orderly(d),
    ensures
        from_memory(d, state, table, state.version) == Ok::<_, Fault>(state),
{
    lemma_between_empty(d.committed, state.version, state.version);
    let q = produces(state.version, state.version);
    crate::key::lemma_filter_none(d.events, q);
}

/// Whether every snapshot is the state that replay gives.
pub open spec fn faithful(d: DataV, files: Files, table: TableV) -> bool {
    forall|v: u64| #[trigger]
        d.snapshots.contains_key(v) && d.base.version <= v <= d.current.version ==> data_at(
            d,
            files,
            table,
            v,
            false,
        ) == Ok::<_, Fault>(d.snapshots[v])
}

/// The base is the state at its version.
pub(crate) proof fn lemma_at_base(d: DataV, files: Files, table: TableV)
    requires
        orderly(d),
        d.base.version <= d.current.version,
    ensures
        data_at(d, files, table, d.base.version, false) == Ok::<_, Fault>(d.base),
{
    lemma_here(d, d.base, table);
}

pub(crate) proof fn lemma_last(m: Map<u64, EntityV>, version: u64)
    requires
        has_before(m, version),
    ensures
        is_last(m, version, last_before(m, version)),
{
    let v = choose|v: u64| #[trigger] m.contains_key(v) && v <= version;
    lemma_last_from(m, version, v);
}

proof fn lemma_last_from(m: Map<u64, EntityV>, version: u64, v: u64)
    requires
        m.contains_key(v),
        v <= version,
    ensures
        exists|w: u64| is_last(m, version, w),
    decreases version - v,
{
    if forall|w: u64| #[trigger] m.contains_key(w) ==> w <= v || version < w {
        assert(is_last(m, version, v));
    } else {
        let w = choose|w: u64| #[trigger] m.contains_key(w) && !(w <= v || version < w);
        lemma_last_from(m, version, w);
    }
}

impl EntityData {
    /// Moves the retained base forward and keeps at most so many events behind it.
    pub fn retain(&mut self, loaded: &Loaded, table: &Table, count: u64) -> (r: Result<()>)
        ensures
            match r {
                Ok(_) => forall|files: Files| #[trigger]
                    loaded.agrees(files) ==> retained(old(self)@, files, table@, count) == Ok::<
                        _,
                        Fault,
                    >(final(self)@),
                Err(e) => final(self)@ == old(self)@ && (lacks(loaded, e) && (forall|
                    files: Files,
                | #[trigger]
                    loaded.agrees(files) ==> retain_asks(old(self)@, files, count, e)) || forall|
                    files: Files,
                | #[trigger]
                    loaded.agrees(files) ==> retained(old(self)@, files, table@, count) is Err
                        && reports(e, retained(old(self)@, files, table@, count)->Err_0)),
            },
    {
        let ghost d = self@;
        if self.current.version < count || self.current.version - count <= self.base.version {
            return Ok(());
        }
        let from: u64 = self.current.version - count;
        let base = self.at(loaded, table, from, false)?;
        if base.version != from {
            proof {
                assert forall|files: Files| !(#[trigger] loaded.agrees(files)) by {
                    if loaded.agrees(files) {
                        let s1 = from_disk(d, files, d.base, from, false)->Ok_0;
                        lemma_from_disk_version(d, files, d.base, from);
                        lemma_from_memory_id(d, s1, table@, from);
                    }
                }
            }
            return Err(corrupt("gap in entity history"));
        }
        let mut kept: Vec<Event> = Vec::new();
        let ghost p = |e: EventV| e.version > base.version;
        let ghost q = |e: Event| e@.version > base.version;
        let mut i: usize = 0;
        let length: usize = self.events.len();
        proof {
            assert(self.events@.take(0) =~= Seq::empty());
            assert(kept@ =~= self.events@.take(0).filter(q)) by {
                reveal(Seq::filter);
            }
        }
        while i < length
            invariant
                i <= length,
                length == self.events@.len(),
                q == (|e: Event| e@.version > base.version),
                events_view(kept@) == events_view(self.events@.take(i as int).filter(q)),
                *self == *old(self),
            decreases length - i,
        {
            let ghost before = kept@;
            proof {
                let s = self.events@;
                assert(s.take(i + 1).drop_last() =~= s.take(i as int));
                assert(s.take(i + 1).last() == s[i as int]);
                reveal(Seq::filter);
            }
            if self.events[i].version > base.version {
                kept.push(self.events[i].clone());
                proof {
                    let f = self.events@.take(i as int).filter(q);
                    assert(events_view(kept@) =~= events_view(before).push(
                        self.events@[i as int]@,
                    ));
                    assert(events_view(f.push(self.events@[i as int])) =~= events_view(f).push(
                        self.events@[i as int]@,
                    ));
                }
            }
            i = i + 1;
        }
        proof {
            assert(self.events@.take(length as int) =~= self.events@);
            let f = |e: Event| e@;
            lemma_filter_map(self.events@, q, f, p);
        }
        self.events = kept;
        if from < u64::MAX {
            self.committed.retain_from(&(from + 1));
        } else {
            self.committed.clear();
        }
        self.snapshots.retain_from(&from);
        self.base = base;
        proof {
            let n = rebased(d, base@);
            assert(self@.events =~= n.events);
            assert(self@.committed =~= n.committed);
            assert(self@.snapshots =~= n.snapshots);
            assert(self@ == n);
        }
        Ok(())
    }

    /// Turns staged events into committed ones.
    pub fn seal(&mut self)
        ensures
            final(self)@ == sealed(old(self)@),
    {
        let mut events: Vec<Event> = Vec::new();
        std::mem::swap(&mut events, &mut self.events);
        let ghost d = old(self)@;
        let ghost all = d.events;
        let ghost mut done: int = 0;
        proof {
            assert(events_view(self.events@) =~= Seq::empty());
            assert(all.take(0) =~= Seq::empty());
        }
        let mut queue = events;
        let mut staged: Vec<Event> = Vec::new();
        while queue.len() > 0
            invariant
                all == events_view(queue@) + reversed(events_view(staged@)),
            decreases queue@.len(),
        {
            let ghost before = queue@;
            let ghost was = staged@;
            match queue.pop() {
                None => {},
                Some(event) => {
                    staged.push(event);
                    proof {
                        assert(before =~= queue@.push(event));
                        assert(events_view(before) =~= events_view(queue@).push(event@));
                        assert(events_view(staged@) =~= events_view(was).push(event@));
                        assert(reversed(events_view(staged@)) =~= seq![event@] + reversed(
                            events_view(was),
                        ));
                        assert(all =~= events_view(queue@) + reversed(events_view(staged@)));
                    }
                },
            }
        }
        proof {
            assert(events_view(queue@) =~= Seq::empty());
            assert(all =~= reversed(events_view(staged@)));
        }
        while staged.len() > 0
            invariant
                0 <= done <= all.len(),
                all == all.take(done) + reversed(events_view(staged@)),
                committed_view(self.committed@) == with_events(d.committed, all.take(done)),
                self.current@ == d.current,
                self.base@ == d.base,
                self.events@.len() == 0,
                self.snapshots@ == old(self).snapshots@,
                self.disk == old(self).disk,
                d == old(self)@,
            decreases staged@.len(),
        {
            let ghost was = staged@;
            match staged.pop() {
                None => {},
                Some(event) => {
                    let ghost m = self.committed@;
                    let version: u64 = event.version;
                    let ghost e = event;
                    self.committed.insert(version, event);
                    proof {
                        assert(was =~= staged@.push(e));
                        let tail = reversed(events_view(staged@));
                        assert(events_view(was) =~= events_view(staged@).push(e@));
                        assert(reversed(events_view(was)) =~= seq![e@] + tail);
                        assert(all[done] == e@);
                        assert(all.take(done + 1) =~= all.take(done).push(e@));
                        assert(all =~= all.take(done + 1) + tail);
                        assert(all.take(done + 1).drop_last() =~= all.take(done));
                        assert(committed_view(m.insert(version, e)) =~= committed_view(m).insert(
                            version,
                            e@,
                        ));
                        done = done + 1;
                    }
                },
            }
        }
        proof {
            assert(all.take(done) =~= all);
            assert(self@.events =~= Seq::empty());
        }
    }
}

/// A sequence back to front.
spec fn reversed<T>(s: Seq<T>) -> Seq<T> {
    Seq::new(s.len(), |i: int| s[s.len() - 1 - i])
}

/// Committed events with further ones.
pub open spec fn with_events(m: Map<u64, EventV>, events: Seq<EventV>) -> Map<u64, EventV>
    decreases events.len(),
{
    if events.len() == 0 {
        m
    } else {
        with_events(m, events.drop_last()).insert(events.last().version, events.last())
    }
}

/// An entity whose staged events are committed.
pub open spec fn sealed(d: DataV) -> DataV {
    DataV {
        current: d.current,
        base: d.base,
        events: Seq::empty(),
        committed: with_events(d.committed, d.events),
        snapshots: d.snapshots,
        disk: d.disk,
    }
}

/// An entity as a checkpoint holds it.
pub open spec fn stored_data(r: RootV, files: Files, table: u64, id: u64) -> Outcome<
    Option<DataV>,
> {
    match located(r, files, table, id) {
        Err(f) => Err(f),
        Ok(None) => Ok(None),
        Ok(Some(v)) => match state_in(r, files, table, 0, v.0, id) {
            None => Err(Fault::Corrupt),
            Some(current) => match state_in(r, files, table, 1, v.1, id) {
                None => Err(Fault::Corrupt),
                Some(base) => if base.version > current.version {
                    Err(Fault::Corrupt)
                } else {
                    Ok(
                        Some(
                            DataV {
                                current,
                                base,
                                events: Seq::empty(),
                                committed: Map::empty(),
                                snapshots: Map::empty(),
                                disk: Some(DiskV { root: r, table, through: current.version }),
                            },
                        ),
                    )
                },
            },
        },
    }
}

/// Reads an entity from a checkpoint, its history left there.
pub fn load_entity(root: &Arc<Root>, loaded: &Loaded, table: u64, id: u64) -> (r: Result<
    Option<EntityData>,
>)
    ensures
        match r {
            Ok(None) => forall|files: Files| #[trigger]
                loaded.agrees(files) ==> stored_data(root@, files, table, id) == Ok::<_, Fault>(
                    None::<DataV>,
                ),
            Ok(Some(d)) => forall|files: Files| #[trigger]
                loaded.agrees(files) ==> stored_data(root@, files, table, id) == Ok::<_, Fault>(
                    Some(d@),
                ),
            Err(e) => lacks(loaded, e) && (forall|files: Files| #[trigger]
                loaded.agrees(files) ==> stored_data_asks(root@, files, table, id, e)) || forall|
                files: Files,
            | #[trigger]
                loaded.agrees(files) ==> stored_data(root@, files, table, id) is Err && reports(
                    e,
                    stored_data(root@, files, table, id)->Err_0,
                ),
        },
{
    let value = match root.locate(loaded, table, id)? {
        None => {
            return Ok(None);
        },
        Some(value) => value,
    };
    let current = root.state(loaded, table, 0, value.0, id)?;
    let base = root.state(loaded, table, 1, value.1, id)?;
    if base.version > current.version {
        return Err(corrupt("invalid current/base reference"));
    }
    let through: u64 = current.version;
    let data = EntityData {
        current,
        base,
        events: Vec::new(),
        committed: OrderedMap::new(),
        snapshots: OrderedMap::new(),
        disk: Some(DiskHistory { root: root.clone(), table, through }),
    };
    proof {
        assert(data@.events =~= Seq::empty());
        assert(data@.committed =~= Map::empty());
        assert(data@.snapshots =~= Map::empty());
    }
    Ok(Some(data))
}

/// Events by the versions that they produce.
spec fn keyed(events: Seq<EventV>) -> Seq<(u64, EventV)> {
    events.map_values(|e: EventV| (e.version, e))
}

proof fn lemma_with_events(d: DataV, n: int)
    requires
        orderly(d),
        0 <= n <= d.events.len(),
    ensures
        with_events(d.committed, d.events.take(n)).dom().finite(),
        listing(with_events(d.committed, d.events.take(n))) == listing(d.committed) + keyed(
            d.events.take(n),
        ),
        forall|v: u64| #[trigger]
            with_events(d.committed, d.events.take(n)).contains_key(v) ==> d.committed.contains_key(
                v,
            ) || exists|i: int| 0 <= i < n && (#[trigger] d.events[i]).version == v,
    decreases n,
{
    let m = with_events(d.committed, d.events.take(n));
    if n == 0 {
        assert(d.events.take(0) =~= Seq::empty());
        assert(keyed(d.events.take(0)) =~= Seq::empty());
        assert(listing(d.committed) + keyed(d.events.take(0)) =~= listing(d.committed));
    } else {
        lemma_with_events(d, n - 1);
        let e = d.events[n - 1];
        let t = d.events.take(n - 1);
        assert(d.events.take(n).drop_last() =~= t);
        assert(d.events.take(n).last() == e);
        let w = with_events(d.committed, t);
        assert(m == w.insert(e.version, e));
        crate::key::lemma_listing(w);
        assert forall|v: u64| #[trigger] w.contains_key(v) implies v < e.version by {
            if !d.committed.contains_key(v) {
                let i = choose|i: int| 0 <= i < n - 1 && (#[trigger] d.events[i]).version == v;
                assert(d.events[i].version < d.events[n - 1].version);
            } else {
                assert(v < d.events[n - 1].version);
            }
        }
        crate::key::lemma_listing_push(listing(w), w, e.version, e);
        lemma_listing_is(listing(w).push((e.version, e)), m);
        assert(keyed(d.events.take(n)) =~= keyed(t).push((e.version, e)));
        assert(listing(w).push((e.version, e)) =~= listing(d.committed) + keyed(
            d.events.take(n),
        ));
        assert forall|v: u64| #[trigger] m.contains_key(v) implies d.committed.contains_key(v)
            || exists|i: int| 0 <= i < n && (#[trigger] d.events[i]).version == v by {
            if v == e.version {
                assert(d.events[n - 1].version == v);
            } else {
                assert(w.contains_key(v));
                if !d.committed.contains_key(v) {
                    let i = choose|i: int| 0 <= i < n - 1 && (#[trigger] d.events[i]).version == v;
                    assert(d.events[i].version == v);
                }
            }
        }
    }
}

/// Committing staged events changes no state of the entity.
pub proof fn lemma_sealed(d: DataV, files: Files, table: TableV, version: u64, snapshots: bool)
    requires
        orderly(d),
    ensures
        data_at(sealed(d), files, table, version, snapshots) == data_at(
            d,
            files,
            table,
            version,
            snapshots,
        ),
        orderly(sealed(d)),
{
    let n = sealed(d);
    lemma_sealed_orderly(d);
    let first = if snapshots {
        nearest(d, version)
    } else {
        d.base
    };
    assert(nearest(n, version) == nearest(d, version));
    assert(from_disk(n, files, first, version, snapshots) == from_disk(
        d,
        files,
        first,
        version,
        snapshots,
    ));
    if let Ok(state) = from_disk(d, files, first, version, snapshots) {
        lemma_sealed_memory(d, state, table, version);
    }
}

proof fn lemma_sealed_orderly(d: DataV)
    requires
        orderly(d),
    ensures
        orderly(sealed(d)),
{
    lemma_with_events(d, d.events.len() as int);
    assert(d.events.take(d.events.len() as int) =~= d.events);
    let m = sealed(d).committed;
    let s = listing(m);
    crate::key::lemma_listing(m);
    reveal(lists);
    crate::key::lemma_listing(d.committed);
    assert forall|v: u64| #[trigger] m.contains_key(v) implies m[v].version == v by {
        let i = choose|i: int| 0 <= i < s.len() && (#[trigger] s[i]).0 == v;
        let c = listing(d.committed);
        if i < c.len() {
            assert(s[i] == c[i]);
            assert(d.committed.contains_key(c[i].0));
        } else {
            assert(s[i] == keyed(d.events)[i - c.len()]);
        }
    }
}

/// The versions of committed events are those that were staged or committed before.
pub(crate) proof fn lemma_sealed_versions(d: DataV)
    requires
        orderly(d),
    ensures
        forall|v: u64| #[trigger]
            sealed(d).committed.contains_key(v) ==> d.committed.contains_key(v) || exists|i: int|
                0 <= i < d.events.len() && (#[trigger] d.events[i]).version == v,
{
    lemma_with_events(d, d.events.len() as int);
    assert(d.events.take(d.events.len() as int) =~= d.events);
    let m = sealed(d).committed;
    let s = listing(m);
    crate::key::lemma_listing(m);
    reveal(lists);
    crate::key::lemma_listing(d.committed);
    assert forall|v: u64| #[trigger] m.contains_key(v) implies d.committed.contains_key(v) || exists|
        i: int,
    | 0 <= i < d.events.len() && (#[trigger] d.events[i]).version == v by {
        let i = choose|i: int| 0 <= i < s.len() && (#[trigger] s[i]).0 == v;
        let c = listing(d.committed);
        if i < c.len() {
            assert(s[i] == c[i]);
            assert(d.committed.contains_key(c[i].0));
        } else {
            assert(s[i] == keyed(d.events)[i - c.len()]);
            assert(d.events[i - c.len()].version == v);
        }
    }
}

/// The committed events behind a version, once those that are staged behind it are committed.
pub(crate) proof fn lemma_sealed_between(d: DataV, low: u64)
    requires
        orderly(d),
        forall|i: int| 0 <= i < d.events.len() ==> low < (#[trigger] d.events[i]).version,
    ensures
        committed_between(sealed(d).committed, low, u64::MAX) == committed_between(
            d.committed,
            low,
            u64::MAX,
        ) + d.events,
{
    let p = spans(low, u64::MAX);
    let h = |e: (u64, EventV)| e.1;
    lemma_with_events(d, d.events.len() as int);
    assert(d.events.take(d.events.len() as int) =~= d.events);
    let c = listing(d.committed);
    let k = keyed(d.events);
    lemma_filter_concat(c, k, p);
    assert forall|i: int| 0 <= i < k.len() implies p(#[trigger] k[i]) by {
        assert(k[i].0 == d.events[i].version);
    }
    crate::versions::lemma_filter_all(k, p);
    assert(k.map_values(h) =~= d.events);
    assert((c.filter(p) + k).map_values(h) =~= c.filter(p).map_values(h) + k.map_values(h));
}

proof fn lemma_sealed_memory(d: DataV, first: EntityV, table: TableV, version: u64)
    requires
        orderly(d),
    ensures
        from_memory(sealed(d), first, table, version) == from_memory(d, first, table, version),
{
    let n = sealed(d);
    let low = first.version;
    let p = spans(low, version);
    let h = |e: (u64, EventV)| e.1;
    lemma_with_events(d, d.events.len() as int);
    assert(d.events.take(d.events.len() as int) =~= d.events);
    let c = listing(d.committed);
    let k = keyed(d.events);
    lemma_filter_concat(c, k, p);
    let a = committed_between(d.committed, low, version);
    let b = d.events.filter(produces(low, version));
    assert(k.filter(p).map_values(h) == b) by {
        let g = |e: EventV| (e.version, e);
        lemma_filter_map(d.events, produces(low, version), g, p);
        assert(d.events.map_values(g) =~= k);
        assert(b.map_values(g).map_values(h) =~= b);
    }
    assert((c.filter(p) + k.filter(p)).map_values(h) =~= a + b);
    assert(committed_between(n.committed, low, version) == a + b);
    lemma_folded(first, a, b, table);
    if let Ok(s2) = folded(first, a, table) {
        lemma_folded_version(first, a, table);
        lemma_tail_events(d, first, table, version);
        assert(b == d.events.filter(produces(s2.version, version)));
        if let Ok(last) = folded(s2, b, table) {
            crate::key::lemma_filter_none(n.events, produces(last.version, version));
        }
    }
}

proof fn lemma_tail_events(d: DataV, first: EntityV, table: TableV, version: u64)
    requires
        orderly(d),
        folded(first, committed_between(d.committed, first.version, version), table) is Ok,
    ensures
        d.events.filter(produces(first.version, version)) == d.events.filter(
            produces(
                folded(
                    first,
                    committed_between(d.committed, first.version, version),
                    table,
                )->Ok_0.version,
                version,
            ),
        ),
{
    let a = committed_between(d.committed, first.version, version);
    let s2 = folded(first, a, table)->Ok_0;
    lemma_folded_version(first, a, table);
    let p = produces(first.version, version);
    let q = produces(s2.version, version);
    if a.len() > 0 {
        let s = listing(d.committed).filter(spans(first.version, version));
        let last = s[s.len() - 1];
        assert(a[a.len() - 1] == last.1);
        lemma_filter_member(listing(d.committed), spans(first.version, version));
        crate::key::lemma_listing(d.committed);
        assert(d.committed.contains_key(s2.version)) by {
            reveal(lists);
            let c = listing(d.committed);
            let i = choose|i: int| 0 <= i < c.len() && #[trigger] c[i] == last;
            assert(d.committed.contains_key(c[i].0));
        }
        assert forall|i: int| 0 <= i < d.events.len() implies p(#[trigger] d.events[i]) == q(
            d.events[i],
        ) by {
            assert(s2.version < d.events[i].version);
        }
        lemma_filter_same(d.events, p, q);
    }
}

pub(crate) proof fn lemma_filter_same<T>(s: Seq<T>, p: spec_fn(T) -> bool, q: spec_fn(T) -> bool)
    requires
        forall|i: int| 0 <= i < s.len() ==> p(#[trigger] s[i]) == q(s[i]),
    ensures
        s.filter(p) == s.filter(q),
    decreases s.len(),
{
    reveal(Seq::filter);
    if s.len() > 0 {
        let t = s.drop_last();
        assert forall|i: int| 0 <= i < t.len() implies p(#[trigger] t[i]) == q(t[i]) by {
            assert(t[i] == s[i]);
        }
        lemma_filter_same(t, p, q);
        assert(p(s[s.len() - 1]) == q(s[s.len() - 1]));
    }
}

proof fn lemma_filter_concat<T>(a: Seq<T>, b: Seq<T>, p: spec_fn(T) -> bool)
    ensures
        (a + b).filter(p) == a.filter(p) + b.filter(p),
    decreases b.len(),
{
    reveal(Seq::filter);
    if b.len() == 0 {
        assert(a + b =~= a);
        assert(a.filter(p) + b.filter(p) =~= a.filter(p));
    } else {
        let t = b.drop_last();
        lemma_filter_concat(a, t, p);
        assert((a + b).drop_last() =~= a + t);
        assert((a + b).last() == b.last());
        assert((a + b).filter(p) =~= a.filter(p) + b.filter(p));
    }
}

} // verus!
