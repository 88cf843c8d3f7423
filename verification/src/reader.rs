//! A committed view: a checkpoint, the entities changed since, and the catalog.

use crate::entity::committed_between;
use crate::entity::data_at;
use crate::entity::load_entity;
use crate::entity::stored_data;
use crate::entity::DataV;
use crate::entity::EntityData;
use crate::error::corrupt;
use crate::error::reports;
use crate::error::Error;
use crate::error::Fault;
use crate::error::Outcome;
use crate::error::Result;
use crate::key::increasing;
use crate::key::lemma_filter_map;
use crate::key::lemma_listing_is;
use crate::key::lemma_listing_map;
use crate::key::listing;
use crate::key::lists;
use crate::key::OrderedKey;
use crate::model::events_view;
use crate::model::Entity;
use crate::model::EntityV;
use crate::model::Event;
use crate::model::EventV;
use crate::model::Table;
use crate::model::TableV;
use crate::operation::catalog_view;
use crate::ordered_map::above;
use crate::ordered_map::within;
use crate::ordered_map::Bound;
use crate::ordered_map::OrderedMap;
use crate::overlay::Key;
use crate::overlay::Overlay;
use crate::partitions::index_scan;
use crate::partitions::Scan;
use crate::entity::data_asks;
use crate::entity::stored_data_asks;
use crate::partitions::range_asks;
use crate::reading::came_to;
use crate::reading::followed_by;
use crate::reading::pulled;
use crate::reading::Ending;
use crate::reading::EventWalk;
use crate::reading::Room;
use crate::reading::Run;
use crate::reading::current_asks;
use crate::reading::events_ask;
use crate::reading::state_asks;
use crate::reading::stored_asks;
use crate::reading::current_in;
use crate::reading::events_in;
use crate::reading::state_in;
use crate::reading::stored_at;
use crate::snapshot::Root;
use crate::snapshot::RootV;
use crate::storage::index::Entry;
use crate::storage::index::Stream;
use crate::storage::index::Value;
use crate::storage::pager::lacks;
use crate::storage::pager::Files;
use crate::storage::pager::Loaded;
use crate::text::label;
use std::sync::Arc;
use vstd::prelude::*;

verus! {

/// A committed view.
pub struct ReadState {
    /// The last checkpoint.
    pub root: Arc<Root>,
    /// The tables.
    pub catalog: OrderedMap<u64, Table>,
    /// Entities changed since the checkpoint.
    pub overlay: Overlay,
    /// The last committed transaction.
    pub lsn: u64,
    /// Whether an uncertain write requires reopening.
    pub poisoned: bool,
}

/// What a committed view stands for.
pub struct StateV {
    /// The last checkpoint.
    pub root: RootV,
    /// The tables.
    pub catalog: Map<u64, TableV>,
    /// Entities changed since the checkpoint.
    pub overlay: Map<Key, DataV>,
    /// The last committed transaction.
    pub lsn: u64,
    /// Whether an uncertain write requires reopening.
    pub poisoned: bool,
}

/// What entities changed since a checkpoint stand for.
pub open spec fn overlay_view(m: Map<Key, Arc<EntityData>>) -> Map<Key, DataV> {
    m.map_values(|d: Arc<EntityData>| d@)
}

impl View for ReadState {
    type V = StateV;

    open spec fn view(&self) -> StateV {
        StateV {
            root: self.root@,
            catalog: catalog_view(self.catalog@),
            overlay: overlay_view(self.overlay.entries()),
            lsn: self.lsn,
            poisoned: self.poisoned,
        }
    }
}

impl Clone for ReadState {
    fn clone(&self) -> (copy: Self)
        ensures
            copy == *self,
    {
        ReadState {
            root: self.root.clone(),
            catalog: self.catalog.clone(),
            overlay: self.overlay.clone(),
            lsn: self.lsn,
            poisoned: self.poisoned,
        }
    }
}

// ---- What a view holds ----

/// Whether a view can be read for a table.
pub open spec fn admitted(s: StateV, table: u64) -> Option<Fault> {
    if s.poisoned {
        Some(Fault::Poisoned)
    } else if !s.catalog.contains_key(table) {
        Some(Fault::Missing)
    } else {
        None
    }
}

/// An entity with its history, as a view holds it.
pub open spec fn loaded_data(s: StateV, files: Files, table: u64, id: u64) -> Outcome<
    Option<DataV>,
> {
    if !s.catalog.contains_key(table) {
        Err(Fault::Missing)
    } else if s.overlay.contains_key((table, id)) {
        Ok(Some(s.overlay[(table, id)]))
    } else {
        stored_data(s.root, files, table, id)
    }
}

/// An entity that is not deleted.
pub open spec fn live(e: Option<EntityV>) -> Option<EntityV> {
    match e {
        None => None,
        Some(e) => if e.deleted {
            None
        } else {
            Some(e)
        },
    }
}

/// The live current state of an entity.
pub open spec fn state_get(s: StateV, files: Files, table: u64, id: u64) -> Outcome<
    Option<EntityV>,
> {
    match admitted(s, table) {
        Some(f) => Err(f),
        None => if s.overlay.contains_key((table, id)) {
            Ok(live(Some(s.overlay[(table, id)].current)))
        } else {
            match current_in(s.root, files, table, id) {
                Err(f) => Err(f),
                Ok(e) => Ok(live(e)),
            }
        },
    }
}

/// The state of an entity at a version.
pub open spec fn state_at(
    s: StateV,
    files: Files,
    table: u64,
    id: u64,
    version: u64,
    snapshots: bool,
) -> Outcome<EntityV> {
    match admitted(s, table) {
        Some(f) => Err(f),
        None => if s.overlay.contains_key((table, id)) {
            data_at(s.overlay[(table, id)], files, s.catalog[table], version, snapshots)
        } else {
            stored_at(s.root, files, table, id, version, snapshots)
        },
    }
}

/// The current state of an entity by replay of its retained history.
pub open spec fn state_replayed(s: StateV, files: Files, table: u64, id: u64) -> Outcome<EntityV> {
    match admitted(s, table) {
        Some(f) => Err(f),
        None => if s.overlay.contains_key((table, id)) {
            let d = s.overlay[(table, id)];
            data_at(d, files, s.catalog[table], d.current.version, false)
        } else {
            match current_in(s.root, files, table, id) {
                Err(f) => Err(f),
                Ok(None) => Err(Fault::Missing),
                Ok(Some(e)) => stored_at(s.root, files, table, id, e.version, false),
            }
        },
    }
}

/// The events that a checkpoint holds of an entity.
pub open spec fn disk_events(d: DataV, files: Files) -> Outcome<Seq<EventV>> {
    match d.disk {
        None => Ok(Seq::empty()),
        Some(disk) => if d.base.version < disk.through {
            events_in(
                disk.root,
                files,
                disk.table,
                d.base.id,
                (d.base.version + 1) as u64,
                disk.through,
            )
        } else {
            Ok(Seq::empty())
        },
    }
}

/// The version behind which the events of an entity are in memory.
pub open spec fn memory_from(d: DataV) -> u64 {
    match d.disk {
        None => d.base.version,
        Some(disk) => if d.base.version < disk.through {
            disk.through
        } else {
            d.base.version
        },
    }
}

/// The retained events of an entity.
pub open spec fn retained_events(d: DataV, files: Files) -> Outcome<Seq<EventV>> {
    match disk_events(d, files) {
        Err(f) => Err(f),
        Ok(first) => Ok(
            first + committed_between(d.committed, memory_from(d), u64::MAX) + d.events,
        ),
    }
}

// ---- What reads need ----

/// Whether reading an entity with its history needs what a request names. A changed entity is
/// in memory.
pub open spec fn load_asks(s: StateV, files: Files, table: u64, id: u64, e: Error) -> bool {
    s.catalog.contains_key(table) && !s.overlay.contains_key((table, id)) && stored_data_asks(
        s.root,
        files,
        table,
        id,
        e,
    )
}

/// Whether reading the live current state of an entity needs what a request names.
pub open spec fn get_asks(s: StateV, files: Files, table: u64, id: u64, e: Error) -> bool {
    admitted(s, table) is None && !s.overlay.contains_key((table, id)) && current_asks(
        s.root,
        files,
        table,
        id,
        e,
    )
}

/// Whether reading the state of an entity at a version needs what a request names.
pub open spec fn at_asks(
    s: StateV,
    files: Files,
    table: u64,
    id: u64,
    version: u64,
    snapshots: bool,
    e: Error,
) -> bool {
    admitted(s, table) is None && if s.overlay.contains_key((table, id)) {
        data_asks(s.overlay[(table, id)], files, version, snapshots, e)
    } else {
        stored_asks(s.root, files, table, id, version, snapshots, e)
    }
}

/// Whether replaying the retained history of an entity needs what a request names.
pub open spec fn replay_asks(s: StateV, files: Files, table: u64, id: u64, e: Error) -> bool {
    admitted(s, table) is None && if s.overlay.contains_key((table, id)) {
        let d = s.overlay[(table, id)];
        data_asks(d, files, d.current.version, false, e)
    } else {
        ||| current_asks(s.root, files, table, id, e)
        ||| match current_in(s.root, files, table, id) {
            Ok(Some(c)) => stored_asks(s.root, files, table, id, c.version, false, e),
            _ => false,
        }
    }
}

/// Whether reading the retained events of an entity needs what a request names.
pub open spec fn retained_events_ask(d: DataV, files: Files, e: Error) -> bool {
    match d.disk {
        None => false,
        Some(disk) => d.base.version < disk.through && events_ask(
            disk.root,
            files,
            disk.table,
            d.base.id,
            (d.base.version + 1) as u64,
            disk.through,
            e,
        ),
    }
}

/// Whether reading the retained events of an entity of a view needs what a request names.
pub open spec fn state_events_ask(s: StateV, files: Files, table: u64, id: u64, e: Error) -> bool {
    !s.poisoned && ({
        ||| load_asks(s, files, table, id, e)
        ||| match loaded_data(s, files, table, id) {
            Ok(Some(d)) => retained_events_ask(d, files, e),
            _ => false,
        }
    })
}

/// Whether reading the current state of an entity that a walk came to needs what a request
/// names.
pub open spec fn visited_asks(
    s: StateV,
    files: Files,
    table: u64,
    at: (u64, Option<Value>),
    e: Error,
) -> bool {
    !s.overlay.contains_key((table, at.0)) && at.1 is Some && state_asks(
        s.root,
        files,
        table,
        0,
        at.1.unwrap().0,
        e,
    )
}

/// Whether a walk through the identifiers of a table between two needs what a request names.
pub open spec fn walk_asks(s: StateV, files: Files, table: u64, lower: u64, upper: u64, e: Error) -> bool {
    s.root.catalog.contains_key(table) && range_asks(
        s.root,
        files,
        table,
        3,
        (lower, 0),
        (upper, u64::MAX),
        e,
    )
}

/// Whether reading entities that a walk comes to needs what a request names.
pub open spec fn rows_ask(
    s: StateV,
    files: Files,
    table: u64,
    items: Seq<(u64, Option<Value>)>,
    e: Error,
) -> bool {
    exists|i: int| 0 <= i < items.len() && visited_asks(s, files, table, #[trigger] items[i], e)
}

impl ReadState {
    /// Whether the counts of the overlay are right.
    pub open spec fn sound(self) -> bool {
        self.overlay.sound()
    }

    /// Rejects a view behind an uncertain write.
    pub fn ready(&self) -> (r: Result<()>)
        ensures
            match r {
                Ok(_) => !self.poisoned,
                Err(e) => self.poisoned && e is NeedsRecovery,
            },
    {
        if self.poisoned {
            Err(Error::NeedsRecovery)
        } else {
            Ok(())
        }
    }

    /// The definition of a table.
    pub fn definition(&self, id: u64) -> (r: Result<&Table>)
        ensures
            match r {
                Ok(t) => self.catalog@.contains_key(id) && *t == self.catalog@[id]
                    && self@.catalog.contains_key(id) && self@.catalog[id] == t@,
                Err(e) => !self@.catalog.contains_key(id) && e is NotFound,
            },
    {
        match self.catalog.get(&id) {
            Some(table) => Ok(table),
            None => Err(Error::NotFound(label("table ", id))),
        }
    }

    /// An entity with its history.
    pub fn load(&self, loaded: &Loaded, table: u64, id: u64) -> (r: Result<Option<EntityData>>)
        ensures
            match r {
                Ok(None) => forall|files: Files| #[trigger]
                    loaded.agrees(files) ==> loaded_data(self@, files, table, id) == Ok::<_, Fault>(
                        None::<DataV>,
                    ),
                Ok(Some(d)) => forall|files: Files| #[trigger]
                    loaded.agrees(files) ==> loaded_data(self@, files, table, id) == Ok::<_, Fault>(
                        Some(d@),
                    ),
                Err(e) => lacks(loaded, e) && (forall|files: Files| #[trigger]
                    loaded.agrees(files) ==> load_asks(self@, files, table, id, e)) || forall|
                    files: Files,
                | #[trigger]
                    loaded.agrees(files) ==> loaded_data(self@, files, table, id) is Err && reports(
                        e,
                        loaded_data(self@, files, table, id)->Err_0,
                    ),
            },
    {
        let definition = self.definition(table)?;
        match self.overlay.get(&(table, id)) {
            Some(data) => {
                let copy = (**data).clone();
                Ok(Some(copy))
            },
            None => load_entity(&self.root, loaded, table, id),
        }
    }

    /// Returns a live current entity without replaying its events.
    pub fn get(&self, loaded: &Loaded, table: u64, id: u64) -> (r: Result<Option<Entity>>)
        ensures
            match r {
                Ok(None) => forall|files: Files| #[trigger]
                    loaded.agrees(files) ==> state_get(self@, files, table, id) == Ok::<_, Fault>(
                        None::<EntityV>,
                    ),
                Ok(Some(v)) => forall|files: Files| #[trigger]
                    loaded.agrees(files) ==> state_get(self@, files, table, id) == Ok::<_, Fault>(
                        Some(v@),
                    ),
                Err(e) => lacks(loaded, e) && (forall|files: Files| #[trigger]
                    loaded.agrees(files) ==> get_asks(self@, files, table, id, e)) || forall|
                    files: Files,
                | #[trigger]
                    loaded.agrees(files) ==> state_get(self@, files, table, id) is Err && reports(
                        e,
                        state_get(self@, files, table, id)->Err_0,
                    ),
            },
    {
        self.ready()?;
        let definition = self.definition(table)?;
        let current = match self.overlay.get(&(table, id)) {
            Some(data) => Some(data.current.clone()),
            None => self.root.current(loaded, table, id)?,
        };
        match current {
            None => Ok(None),
            Some(entity) => {
                if entity.deleted {
                    Ok(None)
                } else {
                    Ok(Some(entity))
                }
            },
        }
    }

    /// Reconstructs a version, starting from a snapshot where `snapshots` allows it.
    fn at(&self, loaded: &Loaded, table: u64, id: u64, version: u64, snapshots: bool) -> (r: Result<
        Entity,
    >)
        ensures
            came_to(
                loaded,
                r,
                |files: Files| state_at(self@, files, table, id, version, snapshots),
                |files: Files, e: Error|
                    at_asks(self@, files, table, id, version, snapshots, e),
            ),
    {
        self.ready()?;
        let definition = self.definition(table)?;
        match self.overlay.get(&(table, id)) {
            Some(data) => data.at(loaded, definition, version, snapshots),
            None => self.root.at(loaded, table, id, version, snapshots),
        }
    }

    /// Reconstructs a retained version, using a snapshot when available.
    pub fn get_at_version(&self, loaded: &Loaded, table: u64, id: u64, version: u64) -> (r: Result<
        Entity,
    >)
        ensures
            came_to(
                loaded,
                r,
                |files: Files| state_at(self@, files, table, id, version, true),
                |files: Files, e: Error| at_asks(self@, files, table, id, version, true, e),
            ),
    {
        self.at(loaded, table, id, version, true)
    }

    /// Replays retained history from its base through a specific version.
    pub fn replay_to_version(&self, loaded: &Loaded, table: u64, id: u64, version: u64) -> (r:
        Result<Entity>)
        ensures
            came_to(
                loaded,
                r,
                |files: Files| state_at(self@, files, table, id, version, false),
                |files: Files, e: Error| at_asks(self@, files, table, id, version, false, e),
            ),
    {
        self.at(loaded, table, id, version, false)
    }

    /// Replays retained history from its base through the current version.
    pub fn replay(&self, loaded: &Loaded, table: u64, id: u64) -> (r: Result<Entity>)
        ensures
            came_to(
                loaded,
                r,
                |files: Files| state_replayed(self@, files, table, id),
                |files: Files, e: Error| replay_asks(self@, files, table, id, e),
            ),
    {
        self.ready()?;
        let definition = self.definition(table)?;
        match self.overlay.get(&(table, id)) {
            Some(data) => data.at(loaded, definition, data.current.version, false),
            None => {
                match self.root.current(loaded, table, id)? {
                    None => Err(Error::NotFound(label("entity ", id))),
                    Some(current) => self.root.at(loaded, table, id, current.version, false),
                }
            },
        }
    }

    /// Returns the inclusive range of reconstructible entity versions.
    pub fn retained_range(&self, loaded: &Loaded, table: u64, id: u64) -> (r: Result<(u64, u64)>)
        ensures
            match r {
                Ok(p) => !self.poisoned && forall|files: Files| #[trigger]
                    loaded.agrees(files) ==> {
                        let d = loaded_data(self@, files, table, id);
                        d is Ok && d->Ok_0 is Some && p == (
                            d->Ok_0.unwrap().base.version,
                            d->Ok_0.unwrap().current.version,
                        )
                    },
                Err(e) => !self.poisoned && lacks(loaded, e) && (forall|files: Files| #[trigger]
                    loaded.agrees(files) ==> load_asks(self@, files, table, id, e))
                    || self.poisoned && e is NeedsRecovery || (
                !self.poisoned && forall|files: Files| #[trigger]
                    loaded.agrees(files) ==> {
                        let d = loaded_data(self@, files, table, id);
                        if d is Err {
                            reports(e, d->Err_0)
                        } else {
                            d->Ok_0 is None && e is NotFound
                        }
                    }),
            },
    {
        self.ready()?;
        match self.load(loaded, table, id)? {
            None => Err(Error::NotFound(label("entity ", id))),
            Some(data) => Ok((data.base.version, data.current.version)),
        }
    }
}

/// The retained events of an entity: those that the checkpoint holds, then those in memory.
pub fn entity_events(data: &EntityData, loaded: &Loaded) -> (r: Result<Vec<Event>>)
    ensures
        match r {
            Ok(v) => forall|files: Files| #[trigger]
                loaded.agrees(files) ==> retained_events(data@, files) == Ok::<_, Fault>(
                    events_view(v@),
                ),
            Err(e) => lacks(loaded, e) && (forall|files: Files| #[trigger]
                loaded.agrees(files) ==> retained_events_ask(data@, files, e)) || e is Corrupt
                && forall|files: Files| #[trigger]
                loaded.agrees(files) ==> retained_events(data@, files) == Err::<Seq<EventV>, _>(
                    Fault::Corrupt,
                ),
        },
{
    let mut events: Vec<Event> = Vec::new();
    let mut from: u64 = data.base.version;
    proof {
        assert(events_view(events@) =~= Seq::empty());
    }
    match &data.disk {
        None => {},
        Some(disk) => {
            if data.base.version < disk.through {
                events = disk.root.events(
                    loaded,
                    disk.table,
                    data.base.id,
                    data.base.version + 1,
                    disk.through,
                )?;
                from = disk.through;
            }
        },
    }
    let mut more = memory_events(data, from);
    let ghost (a, b) = (events@, more@);
    events.append(&mut more);
    proof {
        assert(events_view(events@) =~= events_view(a) + events_view(b));
        assert(events_view(events@) =~= events_view(a) + committed_between(
            data@.committed,
            from,
            u64::MAX,
        ) + data@.events);
    }
    Ok(events)
}

/// The events of an entity that are in memory, behind a version.
fn memory_events(data: &EntityData, from: u64) -> (events: Vec<Event>)
    ensures
        events_view(events@) == committed_between(data@.committed, from, u64::MAX) + data@.events,
{
    let mut events: Vec<Event> = Vec::new();
    proof {
        assert(events_view(events@) =~= Seq::empty());
    }
    let ghost first = events_view(events@);
    let mut range = data.committed.range(Bound::Excluded(from), Bound::Included(u64::MAX));
    let ghost h = |e: (u64, Event)| e.1@;
    let ghost all = range.remaining().map_values(h);
    proof {
        data.lemma_committed(from, u64::MAX);
        assert(first + all =~= events_view(events@) + range.remaining().map_values(h));
    }
    let mut done: bool = false;
    while !done
        invariant
            h == (|e: (u64, Event)| e.1@),
            first + all == events_view(events@) + range.remaining().map_values(h),
            done ==> range.remaining().len() == 0,
        decreases range.remaining().len(), (if done { 0int } else { 1int }),
    {
        let ghost before = range.remaining();
        match range.next() {
            None => {
                done = true;
            },
            Some((k, event)) => {
                let ghost was = events@;
                events.push(event.clone());
                proof {
                    assert(before.map_values(h) =~= seq![event@] + range.remaining().map_values(h));
                    assert(events_view(events@) =~= events_view(was).push(event@));
                    assert(events_view(was) + (seq![event@] + range.remaining().map_values(h))
                        =~= events_view(events@) + range.remaining().map_values(h));
                }
            },
        }
    }
    proof {
        assert(range.remaining().map_values(h) =~= Seq::empty());
        assert(first + all =~= events_view(events@));
    }
    let ghost middle = events_view(events@);
    let mut i: usize = 0;
    proof {
        assert(data@.events.take(0) =~= Seq::empty());
        assert(middle + data@.events.take(0) =~= middle);
    }
    while i < data.events.len()
        invariant
            i <= data.events@.len(),
            events_view(events@) == middle + data@.events.take(i as int),
        decreases data.events@.len() - i,
    {
        let ghost was = events@;
        events.push(data.events[i].clone());
        proof {
            let e = data@.events[i as int];
            assert(events_view(events@) =~= events_view(was).push(e));
            assert(data@.events.take(i + 1) =~= data@.events.take(i as int).push(e));
            assert(events_view(events@) =~= middle + data@.events.take(i + 1));
        }
        i = i + 1;
    }
    proof {
        assert(data@.events.take(i as int) =~= data@.events);
        assert(first + all =~= all);
    }
    events
}

/// The events of an entity in memory.
pub open spec fn remembered(d: DataV) -> Seq<EventV> {
    committed_between(d.committed, memory_from(d), u64::MAX) + d.events
}

/// Whether an event is in a range of versions.
pub open spec fn in_range(first: u64, last: u64) -> spec_fn(EventV) -> bool {
    |e: EventV| first <= e.version && e.version <= last
}

/// How far the stored events of an entity reach into a range of versions.
pub open spec fn stored_through(d: DataV, first: u64, last: u64) -> Option<u64> {
    match d.disk {
        None => None,
        Some(disk) => {
            let through = if last < disk.through {
                last
            } else {
                disk.through
            };
            if d.base.version < disk.through && first <= through {
                Some(through)
            } else {
                None
            }
        },
    }
}

/// The events of an entity in a range of versions, within limits: those that its checkpoint
/// holds, then those in memory.
pub open spec fn ranged(d: DataV, files: Files, first: u64, last: u64, room: Room) -> Run {
    followed_by(
        match stored_through(d, first, last) {
            None => Run { events: Seq::empty(), ending: Ending::Done },
            Some(through) => {
                let disk = d.disk.unwrap();
                pulled(
                    disk.root,
                    files,
                    disk.table,
                    d.base.id,
                    index_scan(
                        disk.root,
                        files,
                        disk.table,
                        4,
                        (d.base.id, first),
                        (d.base.id, through),
                    ),
                    room,
                )
            },
        },
        remembered(d).filter(in_range(first, last)),
    )
}

/// Whether the events of an entity in a range of versions need what a request names.
pub open spec fn ranged_asks(d: DataV, files: Files, first: u64, last: u64, e: Error) -> bool {
    match stored_through(d, first, last) {
        None => false,
        Some(through) => events_ask(
            d.disk.unwrap().root,
            files,
            d.disk.unwrap().table,
            d.base.id,
            first,
            through,
            e,
        ),
    }
}

/// Starts a walk through the events of an entity in a range of versions.
pub fn walk_events(data: &EntityData, first: u64, last: u64) -> (walk: EventWalk<'_>)
    ensures
        walk.sound(),
        forall|files: Files, room: Room| #[trigger]
            walk.remaining(files, room) == ranged(data@, files, first, last, room),
        forall|files: Files, e: Error| #[trigger]
            walk.asks(files, e) == ranged_asks(data@, files, first, last, e),
{
    let mut from: u64 = data.base.version;
    match &data.disk {
        None => {},
        Some(disk) => {
            if data.base.version < disk.through {
                from = disk.through;
            }
        },
    }
    let all = memory_events(data, from);
    let memory = events_within(&all, first, last);
    match &data.disk {
        None => EventWalk::new(None, 0, data.base.id, first, last, memory),
        Some(disk) => {
            let through: u64 = if last < disk.through {
                last
            } else {
                disk.through
            };
            if data.base.version < disk.through && first <= through {
                EventWalk::new(
                    Some(&disk.root),
                    disk.table,
                    data.base.id,
                    first,
                    through,
                    memory,
                )
            } else {
                EventWalk::new(None, 0, data.base.id, first, last, memory)
            }
        },
    }
}

/// The events in a range of versions.
fn events_within(events: &Vec<Event>, first: u64, last: u64) -> (wanted: Vec<Event>)
    ensures
        events_view(wanted@) == events_view(events@).filter(in_range(first, last)),
{
    let ghost all = events_view(events@);
    let ghost p = in_range(first, last);
    let mut wanted: Vec<Event> = Vec::new();
    let mut i: usize = 0;
    proof {
        reveal(Seq::filter);
        assert(all.take(0) =~= Seq::empty());
        assert(events_view(wanted@) =~= all.take(0).filter(p));
    }
    while i < events.len()
        invariant
            i <= events@.len(),
            all == events_view(events@),
            p == in_range(first, last),
            events_view(wanted@) == all.take(i as int).filter(p),
        decreases events@.len() - i,
    {
        let event = &events[i];
        proof {
            reveal(Seq::filter);
            assert(all.take(i + 1).drop_last() =~= all.take(i as int));
            assert(all.take(i + 1).last() == event@);
        }
        if first <= event.version && event.version <= last {
            let ghost was = wanted@;
            wanted.push(event.clone());
            assert(events_view(wanted@) =~= events_view(was).push(event@));
        }
        i = i + 1;
    }
    assert(all.take(i as int) =~= all);
    wanted
}

/// The events of an entity of a view in a range of versions, within limits.
pub open spec fn state_range(
    s: StateV,
    files: Files,
    table: u64,
    id: u64,
    first: u64,
    last: u64,
    room: Room,
) -> Outcome<Run> {
    if s.poisoned {
        Err(Fault::Poisoned)
    } else {
        match loaded_data(s, files, table, id) {
            Err(f) => Err(f),
            Ok(None) => Err(Fault::Missing),
            Ok(Some(d)) => Ok(ranged(d, files, first, last, room)),
        }
    }
}

/// Whether the events of an entity of a view in a range of versions need what a request names.
pub open spec fn state_range_asks(
    s: StateV,
    files: Files,
    table: u64,
    id: u64,
    first: u64,
    last: u64,
    e: Error,
) -> bool {
    !s.poisoned && ({
        ||| load_asks(s, files, table, id, e)
        ||| match loaded_data(s, files, table, id) {
            Ok(Some(d)) => ranged_asks(d, files, first, last, e),
            _ => false,
        }
    })
}

impl ReadState {
    /// Returns retained events in entity-version order.
    pub fn events(&self, loaded: &Loaded, table: u64, id: u64) -> (r: Result<Vec<Event>>)
        ensures
            match r {
                Ok(v) => forall|files: Files| #[trigger]
                    loaded.agrees(files) ==> state_events(self@, files, table, id) == Ok::<
                        _,
                        Fault,
                    >(events_view(v@)),
                Err(e) => lacks(loaded, e) && (forall|files: Files| #[trigger]
                    loaded.agrees(files) ==> state_events_ask(self@, files, table, id, e)) || forall|
                    files: Files,
                | #[trigger]
                    loaded.agrees(files) ==> state_events(self@, files, table, id) is Err
                        && reports(e, state_events(self@, files, table, id)->Err_0),
            },
    {
        self.ready()?;
        match self.load(loaded, table, id)? {
            None => Err(Error::NotFound(label("entity ", id))),
            Some(data) => entity_events(&data, loaded),
        }
    }
}

/// The retained events of an entity of a view.
pub open spec fn state_events(s: StateV, files: Files, table: u64, id: u64) -> Outcome<
    Seq<EventV>,
> {
    if s.poisoned {
        Err(Fault::Poisoned)
    } else {
        match loaded_data(s, files, table, id) {
            Err(f) => Err(f),
            Ok(None) => Err(Fault::Missing),
            Ok(Some(d)) => retained_events(d, files),
        }
    }
}

// ---- Walking a table ----

/// Identifiers with the primary entries that they have in a checkpoint.
pub struct Merged {
    /// The identifiers and entries.
    pub items: Seq<(u64, Option<Value>)>,
    /// Whether nothing fails behind them.
    pub sound: bool,
}

/// The primary entries of a checkpoint and the identifiers of changed entities in one order.
pub open spec fn merged(disk: Stream, recent: Seq<u64>) -> Merged
    decreases disk.items.len() + recent.len(),
{
    if disk.items.len() == 0 && !disk.sound {
        Merged { items: Seq::empty(), sound: false }
    } else if disk.items.len() == 0 && recent.len() == 0 {
        Merged { items: Seq::empty(), sound: true }
    } else {
        let from_disk = disk.items.len() > 0 && (recent.len() == 0 || disk.items[0].0.0
            <= recent[0]);
        let from_recent = recent.len() > 0 && (disk.items.len() == 0 || recent[0]
            <= disk.items[0].0.0);
        let id = if from_disk {
            disk.items[0].0.0
        } else {
            recent[0]
        };
        let more = merged(
            if from_disk {
                Stream { items: disk.items.skip(1), sound: disk.sound }
            } else {
                disk
            },
            if from_recent {
                recent.skip(1)
            } else {
                recent
            },
        );
        let value = if from_disk {
            Some(disk.items[0].1)
        } else {
            None
        };
        Merged { items: seq![(id, value)] + more.items, sound: more.sound }
    }
}

/// The primary entries of a table in a checkpoint, between two identifiers.
pub open spec fn primary(r: RootV, files: Files, table: u64, lower: u64, upper: u64) -> Stream {
    if r.catalog.contains_key(table) {
        index_scan(r, files, table, 3, (lower, 0), (upper, u64::MAX))
    } else {
        Stream { items: Seq::empty(), sound: true }
    }
}

/// Whether a key is one of a table's, between two identifiers.
pub open spec fn of_table(table: u64, lower: u64, upper: u64) -> spec_fn((Key, DataV)) -> bool {
    |e: (Key, DataV)| e.0.0 == table && lower <= e.0.1 && e.0.1 <= upper
}

/// The changed entities of a table, between two identifiers.
pub open spec fn recent_ids(m: Map<Key, DataV>, table: u64, lower: u64, upper: u64) -> Seq<u64> {
    listing(m).filter(of_table(table, lower, upper)).map_values(|e: (Key, DataV)| e.0.1)
}

/// Every identifier of a table between two, in order, with its primary entry.
pub open spec fn table_entries(s: StateV, files: Files, table: u64, lower: u64, upper: u64) -> Merged {
    merged(
        primary(s.root, files, table, lower, upper),
        recent_ids(s.overlay, table, lower, upper),
    )
}

/// A walk through the identifiers of a table.
pub struct Entries<'a> {
    scan: Option<Scan<'a>>,
    next: Option<Entry>,
    recent: Vec<u64>,
    at: usize,
    failed: bool,
}

impl<'a> Entries<'a> {
    /// Whether the walk is at one of its identifiers.
    pub closed spec fn sound(self) -> bool {
        &&& self.at <= self.recent@.len()
        &&& self.scan is Some ==> self.scan.unwrap().sound()
    }

    /// The primary entries still to come.
    closed spec fn disk(self, files: Files) -> Stream {
        let rest = match self.scan {
            None => Stream { items: Seq::empty(), sound: true },
            Some(scan) => scan.remaining(files),
        };
        match self.next {
            None => rest,
            Some(e) => Stream { items: seq![e] + rest.items, sound: rest.sound },
        }
    }

    /// What is still to come.
    pub closed spec fn remaining(self, files: Files) -> Merged {
        if self.failed {
            Merged { items: Seq::empty(), sound: true }
        } else {
            merged(self.disk(files), self.recent@.skip(self.at as int))
        }
    }

    /// Whether what is still to come needs what a request names.
    pub closed spec fn asks(self, files: Files, e: Error) -> bool {
        !self.failed && self.scan is Some && self.scan.unwrap().asks(files, e)
    }

    /// The next identifier, with its primary entry if the checkpoint has one. `None` as entry
    /// marks an entity that exists only in memory. A failed walk has no more; one that only
    /// lacks a part of a file in memory goes on from where it is.
    pub fn next(&mut self, loaded: &Loaded) -> (r: Option<Result<(u64, Option<Value>)>>)
        requires
            old(self).sound(),
        ensures
            final(self).sound(),
            match r {
                Some(Ok(e)) => forall|files: Files| #[trigger]
                    loaded.agrees(files) ==> {
                        let was = old(self).remaining(files);
                        let is = final(self).remaining(files);
                        was.items == seq![e] + is.items && was.sound == is.sound && forall|x: Error|
                            #[trigger]
                            final(self).asks(files, x) ==> old(self).asks(files, x)
                    },
                Some(Err(e)) => if lacks(loaded, e) {
                    forall|files: Files| #[trigger]
                        loaded.agrees(files) ==> old(self).asks(files, e) && (forall|x: Error|
                            #[trigger]
                            final(self).asks(files, x) ==> old(self).asks(files, x)) && final(self).remaining(files) == old(self).remaining(files)
                } else {
                    e is Corrupt && forall|files: Files| #[trigger]
                        loaded.agrees(files) ==> {
                            let was = old(self).remaining(files);
                            was.items.len() == 0 && !was.sound
                        }
                },
                None => forall|files: Files| #[trigger]
                    loaded.agrees(files) ==> {
                        let was = old(self).remaining(files);
                        was.items.len() == 0 && was.sound
                    },
            },
    {
        if self.failed {
            return None;
        }
        let ghost start = *self;
        if self.next.is_none() {
            let mut scan: Option<Scan<'a>> = None;
            std::mem::swap(&mut scan, &mut self.scan);
            match scan {
                None => {},
                Some(scan) => {
                    let mut scan = scan;
                    let ghost before = scan;
                    match scan.next(loaded) {
                        None => {
                            proof {
                                assert forall|files: Files| #[trigger]
                                    loaded.agrees(files) implies self.disk(files) == start.disk(
                                    files,
                                ) by {
                                    assert(before.remaining(files).items =~= Seq::empty());
                                }
                            }
                        },
                        Some(Err(e)) => {
                            match e {
                                Error::Unread { file: f, offset, length } => {
                                    self.scan = Some(scan);
                                },
                                _ => {
                                    self.failed = true;
                                },
                            }
                            return Some(Err(e));
                        },
                        Some(Ok(entry)) => {
                            self.scan = Some(scan);
                            self.next = Some(entry);
                        },
                    }
                },
            }
        }
        assert forall|files: Files| #[trigger] loaded.agrees(files) implies self.disk(files)
            == start.disk(files) && (self.next is None ==> self.disk(files).items.len() == 0
            && self.disk(files).sound) && (self.next is Some ==> self.disk(files).items[0]
            == self.next.unwrap()) by {
        }
        let ghost settled = *self;
        let ghost rest = self.recent@.skip(self.at as int);
        let recent: Option<u64> = if self.at < self.recent.len() {
            Some(self.recent[self.at])
        } else {
            None
        };
        proof {
            assert(recent is Some ==> rest[0] == recent.unwrap());
            assert(recent is None ==> rest =~= Seq::empty());
        }
        let (id, value) = match self.next {
            None => match recent {
                None => {
                    return None;
                },
                Some(b) => (b, None),
            },
            Some((key, value)) => match recent {
                None => (key.0, Some(value)),
                Some(b) => if key.0 <= b {
                    (key.0, Some(value))
                } else {
                    (b, None)
                },
            },
        };
        if value.is_some() {
            self.next = None;
        }
        let taken: bool = match recent {
            None => false,
            Some(b) => b == id,
        };
        if taken {
            let count: usize = self.recent.len();
            assert(self.at < count);
            self.at = self.at + 1;
            assert(rest.skip(1) =~= self.recent@.skip(self.at as int));
        }
        proof {
            assert forall|files: Files| #[trigger] loaded.agrees(files) implies ({
                let was = old(self).remaining(files);
                let is = self.remaining(files);
                was.items == seq![(id, value)] + is.items && was.sound == is.sound
            }) by {
                let d = settled.disk(files);
                assert(old(self).remaining(files) == merged(d, rest));
                if value is Some {
                    assert(d.items.skip(1) =~= self.disk(files).items);
                    assert(self.disk(files) == (Stream { items: d.items.skip(1), sound: d.sound }));
                } else {
                    assert(self.disk(files) == d);
                }
            }
        }
        Some(Ok((id, value)))
    }
}

impl ReadState {
    /// The identifiers of the changed entities of a table, between two.
    pub fn recent(&self, table: u64, lower: u64, upper: u64) -> (ids: Vec<u64>)
        ensures
            ids@ == recent_ids(self@.overlay, table, lower, upper),
            lists(listing(self@.overlay), self@.overlay),
    {
        let mut range = self.overlay.range(
            Bound::Included((table, lower)),
            Bound::Included((table, upper)),
        );
        let ghost h = |e: (Key, Arc<EntityData>)| e.0.1;
        let ghost all = range.remaining().map_values(h);
        proof {
            let m = self.overlay.entries();
            let p = |e: (Key, Arc<EntityData>)|
                above(Bound::Included((table, lower)), e.0) && within(
                    Bound::Included((table, upper)),
                    e.0,
                );
            let s = choose|s: Seq<(Key, Arc<EntityData>)>| #[trigger]
                increasing(s) && lists(s, m) && range.remaining() == s.filter(p);
            let f = |d: Arc<EntityData>| d@;
            let g = |e: (Key, Arc<EntityData>)| (e.0, f(e.1));
            lemma_listing_map(s, m, f);
            lemma_listing_is(s.map_values(g), self@.overlay);
            lemma_filter_map(s, p, g, of_table(table, lower, upper));
            assert(all =~= s.filter(p).map_values(g).map_values(|e: (Key, DataV)| e.0.1));
        }
        let mut ids: Vec<u64> = Vec::new();
        proof {
            assert(ids@ + all =~= all);
        }
        loop
            invariant
                h == (|e: (Key, Arc<EntityData>)| e.0.1),
                ids@ + range.remaining().map_values(h) == all,
                all == recent_ids(self@.overlay, table, lower, upper),
                lists(listing(self@.overlay), self@.overlay),
            decreases range.remaining().len(),
        {
            let ghost before = range.remaining();
            match range.next() {
                None => {
                    assert(ids@ =~= all);
                    return ids;
                },
                Some((key, _)) => {
                    let ghost was = ids@;
                    ids.push(key.1);
                    proof {
                        assert(before.map_values(h) =~= seq![key.1] + range.remaining().map_values(
                            h,
                        ));
                        assert(was + (seq![key.1] + range.remaining().map_values(h)) =~= ids@
                            + range.remaining().map_values(h));
                    }
                },
            }
        }
    }

    /// Starts a walk through every identifier of a table between two, merging the checkpoint
    /// and the changed entities.
    pub fn visit_entries_range(&self, table: u64, lower: u64, upper: u64) -> (walk: Entries<'_>)
        ensures
            walk.sound(),
            forall|files: Files| #[trigger]
                walk.remaining(files) == table_entries(self@, files, table, lower, upper),
            forall|files: Files, e: Error| #[trigger]
                walk.asks(files, e) == walk_asks(self@, files, table, lower, upper, e),
    {
        let scan = if self.root.catalog.contains_key(&table) {
            Some(self.root.scan_index(table, 3, (lower, 0), (upper, u64::MAX)))
        } else {
            None
        };
        let recent = self.recent(table, lower, upper);
        let walk = Entries { scan, next: None, recent, at: 0, failed: false };
        proof {
            assert(walk.recent@.skip(0) =~= walk.recent@);
        }
        walk
    }

    /// Starts a walk through every identifier of a table in order.
    ///
    /// The walk also gives the primary-index entry of an entity that has a checkpointed
    /// record, so a caller that only needs the current state can read it directly instead of
    /// descending the tree a second time.
    pub fn visit_entries(&self, table: u64) -> (walk: Entries<'_>)
        ensures
            walk.sound(),
            forall|files: Files| #[trigger]
                walk.remaining(files) == table_entries(self@, files, table, 0, u64::MAX),
            forall|files: Files, e: Error| #[trigger]
                walk.asks(files, e) == walk_asks(self@, files, table, 0, u64::MAX, e),
    {
        self.visit_entries_range(table, 0, u64::MAX)
    }

    /// The current state of an entity that a walk came to.
    pub fn visited(&self, loaded: &Loaded, table: u64, id: u64, locator: Option<Value>) -> (r:
        Result<Entity>)
        ensures
            match r {
                Ok(v) => forall|files: Files| #[trigger]
                    loaded.agrees(files) ==> visited_state(self@, files, table, id, locator)
                        == Some(v@),
                Err(e) => lacks(loaded, e) && (forall|files: Files| #[trigger]
                    loaded.agrees(files) ==> visited_asks(self@, files, table, (id, locator), e))
                    || e is Corrupt && forall|files: Files| #[trigger]
                    loaded.agrees(files) ==> visited_state(self@, files, table, id, locator)
                        is None,
            },
    {
        match self.overlay.get(&(table, id)) {
            Some(data) => Ok(data.current.clone()),
            None => {
                match locator {
                    None => Err(corrupt("scanned entity has no record")),
                    Some(value) => self.root.state(loaded, table, 0, value.0, id),
                }
            },
        }
    }
}

/// The current state of an entity that a walk came to.
pub open spec fn visited_state(
    s: StateV,
    files: Files,
    table: u64,
    id: u64,
    locator: Option<Value>,
) -> Option<EntityV> {
    if s.overlay.contains_key((table, id)) {
        Some(s.overlay[(table, id)].current)
    } else {
        match locator {
            None => None,
            Some(v) => state_in(s.root, files, table, 0, v.0, id),
        }
    }
}

/// Entities as they come, and whether they end well.
pub struct RowStream {
    /// The entities.
    pub items: Seq<EntityV>,
    /// Whether nothing fails behind them.
    pub sound: bool,
}

/// The live entities among those that a walk comes to.
pub open spec fn live_rows(s: StateV, files: Files, table: u64, walk: Merged) -> RowStream
    decreases walk.items.len(),
{
    if walk.items.len() == 0 {
        RowStream { items: Seq::empty(), sound: walk.sound }
    } else {
        match visited_state(s, files, table, walk.items[0].0, walk.items[0].1) {
            None => RowStream { items: Seq::empty(), sound: false },
            Some(e) => {
                let more = live_rows(
                    s,
                    files,
                    table,
                    Merged { items: walk.items.skip(1), sound: walk.sound },
                );
                if e.deleted {
                    more
                } else {
                    RowStream { items: seq![e] + more.items, sound: more.sound }
                }
            },
        }
    }
}

/// The live entities of a table in the order of their identifiers.
pub open spec fn table_rows(s: StateV, files: Files, table: u64) -> RowStream {
    live_rows(s, files, table, table_entries(s, files, table, 0, u64::MAX))
}

/// A walk through the live entities of a table.
pub struct Rows<'a> {
    state: &'a ReadState,
    table: u64,
    walk: Entries<'a>,
    pending: Option<(u64, Option<Value>)>,
    failed: bool,
}

impl<'a> Rows<'a> {
    /// Whether the walk is at one of its identifiers.
    pub closed spec fn sound(self) -> bool {
        self.walk.sound()
    }

    closed spec fn ahead(self, files: Files) -> Merged {
        let rest = self.walk.remaining(files);
        match self.pending {
            None => rest,
            Some(e) => Merged { items: seq![e] + rest.items, sound: rest.sound },
        }
    }

    /// What is still to come.
    pub closed spec fn remaining(self, files: Files) -> RowStream {
        if self.failed {
            RowStream { items: Seq::empty(), sound: true }
        } else {
            live_rows(self.state@, files, self.table, self.ahead(files))
        }
    }

    /// Whether what is still to come needs what a request names.
    pub closed spec fn asks(self, files: Files, e: Error) -> bool {
        !self.failed && (self.walk.asks(files, e) || rows_ask(
            self.state@,
            files,
            self.table,
            self.ahead(files).items,
            e,
        ))
    }

    /// Goes on to the next entity and gives it if it is live. A failed walk has no more; one
    /// that only lacks a part of a file in memory goes on from where it is.
    pub fn next(&mut self, loaded: &Loaded) -> (r: Option<Result<Option<Entity>>>)
        requires
            old(self).sound(),
        ensures
            final(self).sound(),
            match r {
                Some(Ok(Some(e))) => forall|files: Files| #[trigger]
                    loaded.agrees(files) ==> {
                        let was = old(self).remaining(files);
                        let is = final(self).remaining(files);
                        was.items == seq![e@] + is.items && was.sound == is.sound && forall|x: Error|
                            #[trigger]
                            final(self).asks(files, x) ==> old(self).asks(files, x)
                    },
                Some(Ok(None)) => forall|files: Files| #[trigger]
                    loaded.agrees(files) ==> final(self).remaining(files) == old(self).remaining(
                        files,
                    ) && forall|x: Error| #[trigger]
                        final(self).asks(files, x) ==> old(self).asks(files, x),
                Some(Err(e)) => if lacks(loaded, e) {
                    forall|files: Files| #[trigger]
                        loaded.agrees(files) ==> old(self).asks(files, e) && (forall|x: Error|
                            #[trigger]
                            final(self).asks(files, x) ==> old(self).asks(files, x)) && final(self).remaining(files) == old(self).remaining(files)
                } else {
                    e is Corrupt && forall|files: Files| #[trigger]
                        loaded.agrees(files) ==> {
                            let was = old(self).remaining(files);
                            was.items.len() == 0 && !was.sound
                        }
                },
                None => forall|files: Files| #[trigger]
                    loaded.agrees(files) ==> {
                        let was = old(self).remaining(files);
                        was.items.len() == 0 && was.sound
                    },
            },
    {
        if self.failed {
            return None;
        }
        if self.pending.is_none() {
            match self.walk.next(loaded) {
                None => {
                    return None;
                },
                Some(Err(e)) => {
                    match e {
                        Error::Unread { file: f, offset, length } => {},
                        _ => {
                            self.failed = true;
                        },
                    }
                    return Some(Err(e));
                },
                Some(Ok(found)) => {
                    self.pending = Some(found);
                },
            }
        }
        match self.pending {
            None => None,
            Some((id, locator)) => {
                let ghost before = *self;
                proof {
                    assert forall|files: Files| #[trigger] loaded.agrees(files) implies old(self).remaining(files) == before.remaining(files) && before.ahead(files).items[0]
                        == (id, locator) && (Merged {
                        items: before.ahead(files).items.skip(1),
                        sound: before.ahead(files).sound,
                    }) == before.walk.remaining(files) by {
                        assert(before.ahead(files).items.skip(1) =~= before.walk.remaining(
                            files,
                        ).items);
                    }
                }
                match self.state.visited(loaded, self.table, id, locator) {
                    Err(e) => {
                        match e {
                            Error::Unread { file: f, offset, length } => {},
                            _ => {
                                self.failed = true;
                            },
                        }
                        Some(Err(e))
                    },
                    Ok(entity) => {
                        self.pending = None;
                        if entity.deleted {
                            Some(Ok(None))
                        } else {
                            Some(Ok(Some(entity)))
                        }
                    },
                }
            },
        }
    }
}

impl ReadState {
    /// Starts a walk through the live entities of a table in ID order. Records are loaded one
    /// at a time.
    ///
    /// The walk reads each record through the primary-index entry it already holds, so
    /// visiting an entity costs one heap read rather than a second descent through the tree.
    pub fn scan(&self, table: u64) -> (r: Result<Rows<'_>>)
        ensures
            match r {
                Ok(rows) => admitted(self@, table) is None && rows.sound() && forall|files: Files|
                    #[trigger]
                    rows.remaining(files) == table_rows(self@, files, table) && forall|e: Error|
                        #[trigger]
                        rows.asks(files, e) ==> walk_asks(self@, files, table, 0, u64::MAX, e)
                            || rows_ask(
                            self@,
                            files,
                            table,
                            table_entries(self@, files, table, 0, u64::MAX).items,
                            e,
                        ),
                Err(e) => admitted(self@, table) is Some && reports(
                    e,
                    admitted(self@, table).unwrap(),
                ),
            },
    {
        self.ready()?;
        let definition = self.definition(table)?;
        let walk = self.visit_entries(table);
        Ok(Rows { state: self, table, walk, pending: None, failed: false })
    }
}

// ---- Tables by name ----

impl ReadState {
    /// Resolves a table by its name: the first one in the order of identifiers.
    pub fn table(&self, name: &str) -> (r: Option<&Table>)
        ensures
            match r {
                Some(t) => t.name@ == name@ && exists|id: u64| #[trigger]
                    self.catalog@.contains_key(id) && self.catalog@[id] == *t && forall|other: u64|
                     #[trigger]
                        self.catalog@.contains_key(other) && other < id ==> self.catalog@[other].name@
                            != name@,
                None => forall|id: u64| #[trigger]
                    self.catalog@.contains_key(id) ==> self.catalog@[id].name@ != name@,
            },
    {
        let wanted: String = name.to_owned();
        let items = self.catalog.items();
        let ghost s = self.catalog.entries();
        let ghost pair = |e: (&u64, &Table)| (*e.0, *e.1);
        proof {
            assert(items@.map_values(pair).len() == items@.len());
        }
        let mut i: usize = 0;
        while i < items.len()
            invariant
                i <= items@.len(),
                pair == (|e: (&u64, &Table)| (*e.0, *e.1)),
                items@.map_values(pair) == s,
                increasing(s),
                lists(s, self.catalog@),
                wanted@ == name@,
                forall|j: int| 0 <= j < i ==> (#[trigger] s[j]).1.name@ != name@,
            decreases items@.len() - i,
        {
            let (id, table) = items[i];
            proof {
                assert(items@.map_values(pair)[i as int] == (*id, *table));
                assert(s[i as int] == (*id, *table));
            }
            if table.name == wanted {
                proof {
                    reveal(lists);
                    reveal(increasing);
                    assert(self.catalog@.contains_key(s[i as int].0));
                    assert forall|other: u64| #[trigger]
                        self.catalog@.contains_key(other) && other < *id implies self.catalog@[other].name@
                        != name@ by {
                        let j = choose|j: int| 0 <= j < s.len() && (#[trigger] s[j]).0 == other;
                        if j > i {
                            assert(s[i as int].0.before(s[j].0));
                        }
                        assert(self.catalog@[s[j].0] == s[j].1);
                    }
                }
                return Some(table);
            }
            i = i + 1;
        }
        proof {
            assert forall|id: u64| #[trigger]
                self.catalog@.contains_key(id) implies self.catalog@[id].name@ != name@ by {
                reveal(lists);
                let j = choose|j: int| 0 <= j < s.len() && (#[trigger] s[j]).0 == id;
                assert(self.catalog@[s[j].0] == s[j].1);
            }
        }
        None
    }
}

} // verus!
