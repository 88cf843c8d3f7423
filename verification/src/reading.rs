//! Reading entities and events through the manifest of a checkpoint.

use crate::error::corrupt;
use crate::error::reports;
use crate::error::Error;
use crate::error::Fault;
use crate::error::Outcome;
use crate::error::Result;
use crate::history::event_split;
use crate::history::offset_of;
use crate::history::segment_of;
use crate::history::unpack;
use crate::history::unpacked;
use crate::memory::record_bytes;
use crate::memory::record_size;
use crate::memory::Accounted;
use crate::model::applied;
use crate::model::apply_event;
use crate::model::next_event;
use crate::model::Entity;
use crate::model::EntityV;
use crate::model::Event;
use crate::model::EventV;
use crate::model::Table;
use crate::model::TableV;
use crate::partitions::entity_slot;
use crate::partitions::floor_asks;
use crate::partitions::index_floor;
use crate::partitions::lookup_asks;
use crate::partitions::range_asks;
use crate::storage::frame::frame_asks;
use crate::storage::heap::heap_asks;
use crate::partitions::index_lookup;
use crate::partitions::index_scan;
use crate::partitions::place_in;
use crate::partitions::shared_slot;
use crate::partitions::slot_of;
use crate::partitions::Scan;
use crate::record::dec_entity;
use crate::record::dec_event;
use crate::record::decode_entity;
use crate::record::decode_event;
use crate::snapshot::GenerationInfo;
use crate::snapshot::Root;
use crate::snapshot::RootV;
use crate::storage::frame;
use crate::storage::frame::frame_at;
use crate::storage::frame::Read;
use crate::storage::heap;
use crate::storage::heap::record_in;
use crate::storage::index::Entry;
use crate::storage::index::Key;
use crate::storage::index::Stream;
use crate::storage::index::Value;
use crate::storage::pager::lacks;
use crate::storage::pager::FileId;
use crate::storage::pager::Files;
use crate::storage::pager::Loaded;
use crate::text::label;
use vstd::prelude::*;

verus! {

/// The file and the sequence number that a locator points to.
pub open spec fn slotted_in(r: RootV, table: u64, kind: u8, slot: u8, segment: u64) -> Option<
    (FileId, u64),
> {
    if slot < r.generations.len() {
        let g = r.generations[slot as int];
        Some((FileId { table, generation: g.generation, kind, segment }, g.lsn))
    } else {
        None
    }
}

/// The entity state that a heap record holds, if it is that of an entity.
pub open spec fn entity_in(record: Option<Seq<u8>>, id: u64) -> Option<EntityV> {
    match record {
        None => None,
        Some(bytes) => match dec_entity(bytes) {
            None => None,
            Some(e) => if e.id == id {
                Some(e)
            } else {
                None
            },
        },
    }
}

/// A stored entity state, if a locator leads to one of the entity.
#[verifier::opaque]
pub open spec fn state_in(r: RootV, files: Files, table: u64, kind: u8, locator: u64, id: u64) -> Option<
    EntityV,
> {
    match slotted_in(r, table, kind, slot_of(locator), 0) {
        None => None,
        Some((file, lsn)) => entity_in(record_in(files, file, place_in(locator), lsn), id),
    }
}

/// The primary entry of an entity.
#[verifier::opaque]
pub open spec fn located(r: RootV, files: Files, table: u64, id: u64) -> Outcome<Option<Value>> {
    if !r.catalog.contains_key(table) {
        Ok(None)
    } else {
        match index_lookup(r, files, table, 3, (id, 0)) {
            None => Err(Fault::Corrupt),
            Some(None) => Ok(None),
            Some(Some(v)) => if shared_slot(v) is Some {
                Ok(Some(v))
            } else {
                Err(Fault::Corrupt)
            },
        }
    }
}

/// The stored current state of an entity.
pub open spec fn current_in(r: RootV, files: Files, table: u64, id: u64) -> Outcome<
    Option<EntityV>,
> {
    match located(r, files, table, id) {
        Err(f) => Err(f),
        Ok(None) => Ok(None),
        Ok(Some(v)) => match state_in(r, files, table, 0, v.0, id) {
            None => Err(Fault::Corrupt),
            Some(e) => Ok(Some(e)),
        },
    }
}

/// A stored event: its entity, itself, and the transaction that its frame carries.
#[verifier::opaque]
pub open spec fn event_in(r: RootV, files: Files, table: u64, location: Value) -> Option<
    (u64, EventV, u64),
> {
    if !r.history_generations.contains_key(location.0) {
        None
    } else {
        let file = FileId {
            table,
            generation: location.0,
            kind: 6,
            segment: segment_of(location.1),
        };
        match frame_at(files[file], offset_of(location.1)) {
            Read::Complete(f) => if f.kind != 3 {
                None
            } else {
                match unpacked(f.payload) {
                    None => None,
                    Some((id, bytes)) => match dec_event(bytes) {
                        None => None,
                        Some(event) => Some((id, event, f.lsn)),
                    },
                }
            },
            _ => None,
        }
    }
}

/// The event that an index entry leads to, if it is the one that the entry names.
#[verifier::opaque]
pub open spec fn indexed_event(r: RootV, files: Files, table: u64, id: u64, e: Entry) -> Option<
    EventV,
> {
    match event_in(r, files, table, e.1) {
        None => None,
        Some((entity, event, lsn)) => if entity == id && event.version == e.0.1
            && event.transaction == lsn && event.transaction <= r.lsn {
            Some(event)
        } else {
            None
        },
    }
}

/// The state after one more event.
pub open spec fn stepped(state: EntityV, event: EventV, table: TableV) -> Outcome<EntityV> {
    match applied(state, event, table) {
        Some(next) => Ok(next),
        None => Err(
            if next_event(state, event, table) {
                Fault::Invalid
            } else {
                Fault::Corrupt
            },
        ),
    }
}

/// The state after the events that index entries lead to.
pub open spec fn replayed(
    r: RootV,
    files: Files,
    table: u64,
    id: u64,
    state: EntityV,
    entries: Stream,
) -> Outcome<EntityV>
    decreases entries.items.len(),
{
    if entries.items.len() == 0 {
        if entries.sound {
            Ok(state)
        } else {
            Err(Fault::Corrupt)
        }
    } else {
        match indexed_event(r, files, table, id, entries.items[0]) {
            None => Err(Fault::Corrupt),
            Some(event) => match stepped(state, event, r.catalog[table]) {
                Err(f) => Err(f),
                Ok(next) => replayed(
                    r,
                    files,
                    table,
                    id,
                    next,
                    Stream { items: entries.items.skip(1), sound: entries.sound },
                ),
            },
        }
    }
}

/// A stored snapshot of an entity.
#[verifier::opaque]
pub open spec fn snapshot_in(r: RootV, files: Files, table: u64, location: Value, id: u64) -> Option<
    EntityV,
> {
    if r.history_generations.contains_key(location.0) {
        entity_in(
            record_in(
                files,
                FileId { table, generation: location.0, kind: 2, segment: 0 },
                location.1,
                r.history_generations[location.0],
            ),
            id,
        )
    } else {
        None
    }
}

/// Where a replay to a version starts: at the last snapshot that helps, else at the state.
#[verifier::opaque]
pub open spec fn started(
    r: RootV,
    files: Files,
    table: u64,
    id: u64,
    state: EntityV,
    version: u64,
    snapshots: bool,
) -> Outcome<EntityV> {
    if !snapshots {
        Ok(state)
    } else {
        match index_floor(r, files, table, 5, (id, version)) {
            None => Err(Fault::Corrupt),
            Some(None) => Ok(state),
            Some(Some((key, location))) => if key.0 == id && key.1 >= state.version {
                match snapshot_in(r, files, table, location, id) {
                    None => Err(Fault::Corrupt),
                    Some(e) => if e.version == key.1 {
                        Ok(e)
                    } else {
                        Err(Fault::Corrupt)
                    },
                }
            } else {
                Ok(state)
            },
        }
    }
}

/// The state of an entity at a version, from an earlier one.
pub open spec fn advanced(
    r: RootV,
    files: Files,
    table: u64,
    id: u64,
    state: EntityV,
    version: u64,
    snapshots: bool,
) -> Outcome<EntityV> {
    if !r.catalog.contains_key(table) {
        Err(Fault::Missing)
    } else {
        match started(r, files, table, id, state, version, snapshots) {
            Err(f) => Err(f),
            Ok(first) => if first.version == version {
                Ok(first)
            } else if first.version == u64::MAX {
                Err(Fault::Corrupt)
            } else {
                match replayed(
                    r,
                    files,
                    table,
                    id,
                    first,
                    index_scan(
                        r,
                        files,
                        table,
                        4,
                        (id, (first.version + 1) as u64),
                        (id, version),
                    ),
                ) {
                    Err(f) => Err(f),
                    Ok(last) => if last.version == version {
                        Ok(last)
                    } else {
                        Err(Fault::Corrupt)
                    },
                }
            },
        }
    }
}

/// The stored state of an entity at a version.
pub open spec fn stored_at(
    r: RootV,
    files: Files,
    table: u64,
    id: u64,
    version: u64,
    snapshots: bool,
) -> Outcome<EntityV> {
    match located(r, files, table, id) {
        Err(f) => Err(f),
        Ok(None) => Err(Fault::Missing),
        Ok(Some(v)) => match state_in(r, files, table, 0, v.0, id) {
            None => Err(Fault::Corrupt),
            Some(current) => match state_in(r, files, table, 1, v.1, id) {
                None => Err(Fault::Corrupt),
                Some(base) => if base.version > current.version {
                    Err(Fault::Corrupt)
                } else if version < base.version || version > current.version {
                    Err(
                        Fault::Unavailable {
                            requested: version,
                            first: base.version,
                            last: current.version,
                        },
                    )
                } else if snapshots && version == current.version {
                    Ok(current)
                } else {
                    advanced(r, files, table, id, base, version, snapshots)
                },
            },
        },
    }
}

/// The events that index entries lead to.
pub open spec fn gathered(r: RootV, files: Files, table: u64, id: u64, entries: Stream) -> Outcome<
    Seq<EventV>,
>
    decreases entries.items.len(),
{
    if entries.items.len() == 0 {
        if entries.sound {
            Ok(Seq::empty())
        } else {
            Err(Fault::Corrupt)
        }
    } else {
        match indexed_event(r, files, table, id, entries.items[0]) {
            None => Err(Fault::Corrupt),
            Some(event) => match gathered(
                r,
                files,
                table,
                id,
                Stream { items: entries.items.skip(1), sound: entries.sound },
            ) {
                Err(f) => Err(f),
                Ok(more) => Ok(seq![event] + more),
            },
        }
    }
}

/// The stored events of an entity between two versions.
pub open spec fn events_in(r: RootV, files: Files, table: u64, id: u64, first: u64, last: u64) -> Outcome<
    Seq<EventV>,
> {
    if first > last {
        Ok(Seq::empty())
    } else {
        gathered(r, files, table, id, index_scan(r, files, table, 4, (id, first), (id, last)))
    }
}

// ---- What reads need ----

/// Whether finding the primary entry of an entity needs what a request names.
pub open spec fn located_asks(r: RootV, files: Files, table: u64, id: u64, e: Error) -> bool {
    r.catalog.contains_key(table) && lookup_asks(r, files, table, 3, (id, 0), e)
}

/// Whether reading a stored entity state needs what a request names.
#[verifier::opaque]
pub open spec fn state_asks(r: RootV, files: Files, table: u64, kind: u8, locator: u64, e: Error) -> bool {
    match slotted_in(r, table, kind, slot_of(locator), 0) {
        None => false,
        Some((file, lsn)) => heap_asks(files, file, place_in(locator), lsn, e),
    }
}

/// Whether reading the stored current state of an entity needs what a request names.
pub open spec fn current_asks(r: RootV, files: Files, table: u64, id: u64, e: Error) -> bool {
    ||| located_asks(r, files, table, id, e)
    ||| match located(r, files, table, id) {
        Ok(Some(v)) => state_asks(r, files, table, 0, v.0, e),
        _ => false,
    }
}

/// Whether reading a stored event needs what a request names.
#[verifier::opaque]
pub open spec fn event_asks(r: RootV, files: Files, table: u64, location: Value, e: Error) -> bool {
    r.history_generations.contains_key(location.0) && frame_asks(
        files,
        FileId { table, generation: location.0, kind: 6, segment: segment_of(location.1) },
        offset_of(location.1),
        e,
    )
}

/// Whether reading the events that index entries lead to needs what a request names.
pub open spec fn entries_ask(r: RootV, files: Files, table: u64, items: Seq<Entry>, e: Error) -> bool {
    exists|i: int| 0 <= i < items.len() && event_asks(r, files, table, (#[trigger] items[i]).1, e)
}

/// Whether reading the stored events of an entity between two versions needs what a request
/// names: the index on the way, or one of the events.
#[verifier::opaque]
pub open spec fn events_ask(
    r: RootV,
    files: Files,
    table: u64,
    id: u64,
    first: u64,
    last: u64,
    e: Error,
) -> bool {
    ||| range_asks(r, files, table, 4, (id, first), (id, last), e)
    ||| entries_ask(
        r,
        files,
        table,
        index_scan(r, files, table, 4, (id, first), (id, last)).items,
        e,
    )
}

/// Whether reading a stored snapshot needs what a request names.
#[verifier::opaque]
pub open spec fn snapshot_asks(r: RootV, files: Files, table: u64, location: Value, e: Error) -> bool {
    r.history_generations.contains_key(location.0) && heap_asks(
        files,
        FileId { table, generation: location.0, kind: 2, segment: 0 },
        location.1,
        r.history_generations[location.0],
        e,
    )
}

/// Whether finding where a replay starts needs what a request names.
#[verifier::opaque]
pub open spec fn start_asks(
    r: RootV,
    files: Files,
    table: u64,
    id: u64,
    state: EntityV,
    version: u64,
    snapshots: bool,
    e: Error,
) -> bool {
    snapshots && ({
        ||| floor_asks(r, files, table, 5, (id, version), e)
        ||| match index_floor(r, files, table, 5, (id, version)) {
            Some(Some((key, location))) => key.0 == id && key.1 >= state.version && snapshot_asks(
                r,
                files,
                table,
                location,
                e,
            ),
            _ => false,
        }
    })
}

/// Whether advancing a state to a version needs what a request names.
pub open spec fn advance_asks(
    r: RootV,
    files: Files,
    table: u64,
    id: u64,
    state: EntityV,
    version: u64,
    snapshots: bool,
    e: Error,
) -> bool {
    r.catalog.contains_key(table) && ({
        ||| start_asks(r, files, table, id, state, version, snapshots, e)
        ||| match started(r, files, table, id, state, version, snapshots) {
            Ok(first) => first.version != version && first.version < u64::MAX && events_ask(
                r,
                files,
                table,
                id,
                (first.version + 1) as u64,
                version,
                e,
            ),
            Err(_) => false,
        }
    })
}

/// Whether reading the stored state of an entity at a version needs what a request names.
pub open spec fn stored_asks(
    r: RootV,
    files: Files,
    table: u64,
    id: u64,
    version: u64,
    snapshots: bool,
    e: Error,
) -> bool {
    ||| located_asks(r, files, table, id, e)
    ||| match located(r, files, table, id) {
        Ok(Some(v)) => {
            ||| state_asks(r, files, table, 0, v.0, e)
            ||| state_asks(r, files, table, 1, v.1, e)
            ||| match state_in(r, files, table, 1, v.1, id) {
                Some(base) => advance_asks(r, files, table, id, base, version, snapshots, e),
                None => false,
            }
        },
        _ => false,
    }
}

impl Root {
    /// Resolves the generation slot a stored locator refers to.
    pub fn at_slot(&self, slot: u8) -> (r: Result<GenerationInfo>)
        ensures
            match r {
                Ok(g) => slot < self@.generations.len() && g == self@.generations[slot as int],
                Err(e) => slot >= self@.generations.len() && e is Corrupt,
            },
    {
        if (slot as usize) < self.generations.len() {
            Ok(self.generations[slot as usize])
        } else {
            Err(corrupt("locator names an absent generation"))
        }
    }

    /// Locates a file of the generation a locator points into.
    pub fn slotted(&self, table: u64, kind: u8, slot: u8, segment: u64) -> (r: Result<
        (FileId, u64),
    >)
        ensures
            match r {
                Ok(p) => slotted_in(self@, table, kind, slot, segment) == Some(p),
                Err(e) => slotted_in(self@, table, kind, slot, segment) is None && e is Corrupt,
            },
    {
        let entry = self.at_slot(slot)?;
        Ok((FileId::new(table, entry.generation, kind, segment), entry.lsn))
    }

    /// Reads the primary-index entry of an entity and checks its generation slot.
    ///
    /// Current state and base share a generation slot. Historical payloads are
    /// addressed independently through the newest historical indexes.
    pub fn locate(&self, loaded: &Loaded, table: u64, id: u64) -> (r: Result<Option<Value>>)
        ensures
            match r {
                Ok(v) => forall|files: Files| #[trigger]
                    loaded.agrees(files) ==> located(self@, files, table, id) == Ok::<_, Fault>(v),
                Err(e) => lacks(loaded, e) && (forall|files: Files| #[trigger]
                    loaded.agrees(files) ==> located_asks(self@, files, table, id, e)) || forall|files: Files| #[trigger]
                    loaded.agrees(files) ==> located(self@, files, table, id) is Err && reports(
                        e,
                        located(self@, files, table, id)->Err_0,
                    ),
            },
    {
        proof {
            reveal(located);
        }
        if !self.catalog.contains_key(&table) {
            return Ok(None);
        }
        match self.lookup_index(loaded, table, 3, (id, 0))? {
            None => Ok(None),
            Some(value) => {
                let slot: u8 = entity_slot(value)?;
                Ok(Some(value))
            },
        }
    }

    /// Reads one stored entity state and checks that it belongs to `id`.
    pub fn state(&self, loaded: &Loaded, table: u64, kind: u8, locator: u64, id: u64) -> (r: Result<
        Entity,
    >)
        ensures
            match r {
                Ok(v) => forall|files: Files| #[trigger]
                    loaded.agrees(files) ==> state_in(self@, files, table, kind, locator, id)
                        == Some(v@),
                Err(e) => lacks(loaded, e) && (forall|files: Files| #[trigger]
                    loaded.agrees(files) ==> state_asks(self@, files, table, kind, locator, e)) || e is Corrupt && forall|files: Files| #[trigger]
                    loaded.agrees(files) ==> state_in(self@, files, table, kind, locator, id)
                        is None,
            },
    {
        proof {
            reveal(state_in);
            reveal(state_asks);
        }
        let (slot, location) = heap::split(locator);
        let (file, lsn) = self.slotted(table, kind, slot, 0)?;
        let bytes = heap::read(loaded, file, location, lsn)?;
        let entity = decode_entity(bytes.as_slice())?;
        if entity.id != id {
            return Err(corrupt("index references another entity"));
        }
        Ok(entity)
    }

    /// Reads the current state through the primary index, or `None` if absent.
    pub fn current(&self, loaded: &Loaded, table: u64, id: u64) -> (r: Result<Option<Entity>>)
        ensures
            match r {
                Ok(None) => forall|files: Files| #[trigger]
                    loaded.agrees(files) ==> current_in(self@, files, table, id) == Ok::<_, Fault>(
                        None::<EntityV>,
                    ),
                Ok(Some(v)) => forall|files: Files| #[trigger]
                    loaded.agrees(files) ==> current_in(self@, files, table, id) == Ok::<_, Fault>(
                        Some(v@),
                    ),
                Err(e) => lacks(loaded, e) && (forall|files: Files| #[trigger]
                    loaded.agrees(files) ==> current_asks(self@, files, table, id, e)) || forall|files: Files| #[trigger]
                    loaded.agrees(files) ==> current_in(self@, files, table, id) is Err && reports(
                        e,
                        current_in(self@, files, table, id)->Err_0,
                    ),
            },
    {
        match self.locate(loaded, table, id)? {
            None => Ok(None),
            Some(value) => {
                let state = self.state(loaded, table, 0, value.0, id)?;
                Ok(Some(state))
            },
        }
    }

    /// Reads one framed event at a known segment location.
    pub fn event_at(&self, loaded: &Loaded, table: u64, location: Value) -> (r: Result<
        (u64, Event, u64),
    >)
        ensures
            match r {
                Ok((id, event, lsn)) => forall|files: Files| #[trigger]
                    loaded.agrees(files) ==> event_in(self@, files, table, location) == Some(
                        (id, event@, lsn),
                    ),
                Err(e) => lacks(loaded, e) && (forall|files: Files| #[trigger]
                    loaded.agrees(files) ==> event_asks(self@, files, table, location, e)) || e is Corrupt && forall|files: Files| #[trigger]
                    loaded.agrees(files) ==> event_in(self@, files, table, location) is None,
            },
    {
        proof {
            reveal(event_in);
            reveal(event_asks);
        }
        if !self.history_generations.contains_key(&location.0) {
            return Err(corrupt("absent history generation"));
        }
        let (segment, offset) = event_split(location.1);
        let file = FileId::new(table, location.0, 6, segment);
        let record = match frame::read_at(loaded, file, offset)? {
            Some(record) => record,
            None => {
                return Err(corrupt("truncated indexed event"));
            },
        };
        if record.kind != 3 {
            return Err(corrupt("invalid history frame kind"));
        }
        let (id, payload) = unpack(record.payload.as_slice())?;
        let event = decode_event(payload.as_slice())?;
        Ok((id, event, record.lsn))
    }

    /// Reads the event that an index entry leads to and checks that it is the one it names.
    fn event_of(&self, loaded: &Loaded, table: u64, id: u64, entry: Entry) -> (r: Result<Event>)
        ensures
            match r {
                Ok(event) => forall|files: Files| #[trigger]
                    loaded.agrees(files) ==> indexed_event(self@, files, table, id, entry) == Some(
                        event@,
                    ),
                Err(e) => lacks(loaded, e) && (forall|files: Files| #[trigger]
                    loaded.agrees(files) ==> event_asks(self@, files, table, entry.1, e)) || e is Corrupt && forall|files: Files| #[trigger]
                    loaded.agrees(files) ==> indexed_event(self@, files, table, id, entry) is None,
            },
    {
        proof {
            reveal(indexed_event);
        }
        let (entity, event, lsn) = self.event_at(loaded, table, entry.1)?;
        if entity != id || event.version != entry.0.1 || event.transaction != lsn
            || event.transaction > self.lsn {
            return Err(corrupt("history index references another event"));
        }
        Ok(event)
    }

    /// Reads a stored snapshot of an entity.
    pub fn history_state(&self, loaded: &Loaded, table: u64, location: Value, id: u64) -> (r:
        Result<Entity>)
        ensures
            match r {
                Ok(v) => forall|files: Files| #[trigger]
                    loaded.agrees(files) ==> snapshot_in(self@, files, table, location, id) == Some(
                        v@,
                    ),
                Err(e) => lacks(loaded, e) && (forall|files: Files| #[trigger]
                    loaded.agrees(files) ==> snapshot_asks(self@, files, table, location, e)) || e is Corrupt && forall|files: Files| #[trigger]
                    loaded.agrees(files) ==> snapshot_in(self@, files, table, location, id) is None,
            },
    {
        proof {
            reveal(snapshot_in);
            reveal(snapshot_asks);
        }
        let lsn: u64 = match self.history_generations.get(&location.0) {
            Some(lsn) => *lsn,
            None => {
                return Err(corrupt("absent snapshot generation"));
            },
        };
        let file = FileId::new(table, location.0, 2, 0);
        let bytes = heap::read(loaded, file, location.1, lsn)?;
        let entity = decode_entity(bytes.as_slice())?;
        if entity.id != id {
            return Err(corrupt("snapshot references another entity"));
        }
        Ok(entity)
    }
}

/// Whether a read came to what it should on every state of the files that memory agrees with.
/// Where a part of a file is not in memory that the read needs on each of them, it asks for it.
pub open spec fn came_to(
    loaded: &Loaded,
    r: Result<Entity>,
    outcome: spec_fn(Files) -> Outcome<EntityV>,
    needs: spec_fn(Files, Error) -> bool,
) -> bool {
    match r {
        Ok(v) => forall|files: Files| #[trigger]
            loaded.agrees(files) ==> outcome(files) == Ok::<_, Fault>(v@),
        Err(e) => lacks(loaded, e) && (forall|files: Files| #[trigger]
            loaded.agrees(files) ==> needs(files, e)) || forall|files: Files| #[trigger]
            loaded.agrees(files) ==> outcome(files) is Err && reports(e, outcome(files)->Err_0),
    }
}

impl Root {
    /// Where a replay to a version starts.
    fn start(
        &self,
        loaded: &Loaded,
        table: u64,
        id: u64,
        state: Entity,
        version: u64,
        snapshots: bool,
    ) -> (r: Result<Entity>)
        ensures
            came_to(
                loaded,
                r,
                |files: Files| started(self@, files, table, id, state@, version, snapshots),
                |files: Files, e: Error|
                    start_asks(self@, files, table, id, state@, version, snapshots, e),
            ),
    {
        proof {
            reveal(started);
            reveal(start_asks);
        }
        if !snapshots {
            return Ok(state);
        }
        match self.floor_index(loaded, table, 5, (id, version))? {
            None => Ok(state),
            Some((key, location)) => {
                if key.0 == id && key.1 >= state.version {
                    let found = self.history_state(loaded, table, location, id)?;
                    if found.version != key.1 {
                        return Err(corrupt("invalid snapshot identity"));
                    }
                    Ok(found)
                } else {
                    Ok(state)
                }
            },
        }
    }

    /// Replays stored events from a state on.
    fn replay(
        &self,
        loaded: &Loaded,
        table: u64,
        definition: &Table,
        id: u64,
        state: Entity,
        lower: Key,
        upper: Key,
    ) -> (r: Result<Entity>)
        requires
            self.catalog@.contains_key(table),
            self.catalog@[table] == *definition,
        ensures
            came_to(
                loaded,
                r,
                |files: Files|
                    replayed(
                        self@,
                        files,
                        table,
                        id,
                        state@,
                        index_scan(self@, files, table, 4, lower, upper),
                    ),
                |files: Files, e: Error|
                    range_asks(self@, files, table, 4, lower, upper, e) || entries_ask(
                        self@,
                        files,
                        table,
                        index_scan(self@, files, table, 4, lower, upper).items,
                        e,
                    ),
            ),
    {
        let mut scan = self.scan_index(table, 4, lower, upper);
        proof {
            assert forall|files: Files| #[trigger] loaded.agrees(files) implies tail_of(
                scan.remaining(files).items,
                index_scan(self@, files, table, 4, lower, upper).items,
            ) by {
                let items = index_scan(self@, files, table, 4, lower, upper).items;
                assert(items.skip(0) =~= items);
            }
        }
        let ghost first = state@;
        let mut current = state;
        loop
            invariant
                scan.sound(),
                first == state@,
                self.catalog@.contains_key(table),
                self.catalog@[table] == *definition,
                forall|files: Files| #[trigger]
                    loaded.agrees(files) ==> replayed(
                        self@,
                        files,
                        table,
                        id,
                        first,
                        index_scan(self@, files, table, 4, lower, upper),
                    ) == replayed(self@, files, table, id, current@, scan.remaining(files)),
                forall|files: Files, e: Error|
                    #![trigger loaded.agrees(files), scan.asks(files, e)]
                    loaded.agrees(files) && scan.asks(files, e) ==> range_asks(
                        self@,
                        files,
                        table,
                        4,
                        lower,
                        upper,
                        e,
                    ),
                forall|files: Files| #[trigger]
                    loaded.agrees(files) ==> tail_of(
                        scan.remaining(files).items,
                        index_scan(self@, files, table, 4, lower, upper).items,
                    ),
            decreases u64::MAX - current.version,
        {
            let ghost before = scan;
            match scan.next(loaded) {
                None => {
                    return Ok(current);
                },
                Some(Err(e)) => {
                    return Err(e);
                },
                Some(Ok(entry)) => {
                    proof {
                        assert forall|files: Files| #[trigger] loaded.agrees(files) implies ({
                            let was = before.remaining(files);
                            let is = scan.remaining(files);
                            was.items.len() > 0 && was.items[0] == entry && Stream {
                                items: was.items.skip(1),
                                sound: was.sound,
                            } == is
                        }) by {
                            let was = before.remaining(files);
                            let is = scan.remaining(files);
                            assert(was.items.skip(1) =~= is.items);
                        }
                        assert forall|files: Files| #[trigger] loaded.agrees(files) implies tail_of(
                            scan.remaining(files).items,
                            index_scan(self@, files, table, 4, lower, upper).items,
                        ) && forall|e: Error|
                            event_asks(self@, files, table, entry.1, e) ==> #[trigger] entries_ask(
                                self@,
                                files,
                                table,
                                index_scan(self@, files, table, 4, lower, upper).items,
                                e,
                            ) by {
                            let items = index_scan(self@, files, table, 4, lower, upper).items;
                            let (was, is) = (
                                before.remaining(files).items,
                                scan.remaining(files).items,
                            );
                            let k = choose|k: int| 0 <= k <= items.len() && was == #[trigger] items.skip(k);
                            assert(items[k] == entry);
                            assert(is =~= items.skip(k + 1));
                        }
                    }
                    let event = self.event_of(loaded, table, id, entry)?;
                    apply_event(&mut current, &event, definition)?;
                },
            }
        }
    }

    /// Advances a state to a version.
    pub fn advance(
        &self,
        loaded: &Loaded,
        table: u64,
        id: u64,
        state: Entity,
        version: u64,
        snapshots: bool,
    ) -> (r: Result<Entity>)
        ensures
            came_to(
                loaded,
                r,
                |files: Files| advanced(self@, files, table, id, state@, version, snapshots),
                |files: Files, e: Error|
                    advance_asks(self@, files, table, id, state@, version, snapshots, e),
            ),
    {
        let definition = match self.catalog.get(&table) {
            Some(definition) => definition,
            None => {
                return Err(Error::NotFound(label("table ", table)));
            },
        };
        let first = self.start(loaded, table, id, state, version, snapshots)?;
        if first.version == version {
            return Ok(first);
        }
        if first.version == u64::MAX {
            return Err(corrupt("gap in indexed history"));
        }
        let lower: Key = (id, first.version + 1);
        proof {
            reveal(events_ask);
        }
        let last = self.replay(loaded, table, definition, id, first, lower, (id, version))?;
        if last.version != version {
            return Err(corrupt("gap in indexed history"));
        }
        Ok(last)
    }

    /// Reads the state of an entity at a version.
    pub fn at(&self, loaded: &Loaded, table: u64, id: u64, version: u64, snapshots: bool) -> (r:
        Result<Entity>)
        ensures
            came_to(
                loaded,
                r,
                |files: Files| stored_at(self@, files, table, id, version, snapshots),
                |files: Files, e: Error|
                    stored_asks(self@, files, table, id, version, snapshots, e),
            ),
    {
        let value = match self.locate(loaded, table, id)? {
            Some(value) => value,
            None => {
                return Err(Error::NotFound(label("entity ", id)));
            },
        };
        let current = self.state(loaded, table, 0, value.0, id)?;
        let state = self.state(loaded, table, 1, value.1, id)?;
        if state.version > current.version {
            return Err(corrupt("invalid state reference"));
        }
        if version < state.version || version > current.version {
            return Err(
                Error::VersionUnavailable {
                    requested: version,
                    first: state.version,
                    last: current.version,
                },
            );
        }
        if snapshots && version == current.version {
            return Ok(current);
        }
        self.advance(loaded, table, id, state, version, snapshots)
    }

    /// Reads the events of an entity between two versions.
    pub fn events(&self, loaded: &Loaded, table: u64, id: u64, first: u64, last: u64) -> (r: Result<
        Vec<Event>,
    >)
        ensures
            match r {
                Ok(v) => forall|files: Files| #[trigger]
                    loaded.agrees(files) ==> events_in(self@, files, table, id, first, last)
                        == Ok::<_, Fault>(crate::model::events_view(v@)),
                Err(e) => first <= last && lacks(loaded, e) && (forall|files: Files| #[trigger]
                    loaded.agrees(files) ==> events_ask(self@, files, table, id, first, last, e)) || e is Corrupt && forall|files: Files| #[trigger]
                    loaded.agrees(files) ==> events_in(self@, files, table, id, first, last) == Err::<
                        Seq<EventV>,
                        _,
                    >(Fault::Corrupt),
            },
    {
        let mut events: Vec<Event> = Vec::new();
        proof {
            assert(crate::model::events_view(events@) =~= Seq::empty());
        }
        if first > last {
            return Ok(events);
        }
        let mut scan = self.scan_index(table, 4, (id, first), (id, last));
        let ghost mut seen: Seq<EventV> = Seq::empty();
        proof {
            reveal(events_ask);
            assert forall|files: Files| #[trigger] loaded.agrees(files) implies tail_of(
                scan.remaining(files).items,
                index_scan(self@, files, table, 4, (id, first), (id, last)).items,
            ) by {
                let items = index_scan(self@, files, table, 4, (id, first), (id, last)).items;
                assert(items.skip(0) =~= items);
            }
            assert forall|files: Files| #[trigger] loaded.agrees(files) implies events_in(
                self@,
                files,
                table,
                id,
                first,
                last,
            ) == after(seen, gathered(self@, files, table, id, scan.remaining(files))) by {
                lemma_after_none(gathered(self@, files, table, id, scan.remaining(files)));
            }
        }
        loop
            invariant
                scan.sound(),
                seen == crate::model::events_view(events@),
                forall|files: Files| #[trigger]
                    loaded.agrees(files) ==> events_in(self@, files, table, id, first, last)
                        == after(seen, gathered(self@, files, table, id, scan.remaining(files))),
                first <= last,
                forall|files: Files, e: Error|
                    #![trigger loaded.agrees(files), scan.asks(files, e)]
                    loaded.agrees(files) && scan.asks(files, e) ==> range_asks(
                        self@,
                        files,
                        table,
                        4,
                        (id, first),
                        (id, last),
                        e,
                    ),
                forall|files: Files| #[trigger]
                    loaded.agrees(files) ==> tail_of(
                        scan.remaining(files).items,
                        index_scan(self@, files, table, 4, (id, first), (id, last)).items,
                    ),
            decreases usize::MAX - events@.len(),
        {
            proof {
                reveal(events_ask);
            }
            let ghost before = scan;
            match scan.next(loaded) {
                None => {
                    proof {
                        assert(seen + Seq::<EventV>::empty() =~= seen);
                    }
                    return Ok(events);
                },
                Some(Err(e)) => {
                    return Err(e);
                },
                Some(Ok(entry)) => {
                    proof {
                        assert forall|files: Files| #[trigger] loaded.agrees(files) implies ({
                            let was = before.remaining(files);
                            let is = scan.remaining(files);
                            was.items.len() > 0 && was.items[0] == entry && Stream {
                                items: was.items.skip(1),
                                sound: was.sound,
                            } == is
                        }) by {
                            let was = before.remaining(files);
                            let is = scan.remaining(files);
                            assert(was.items.skip(1) =~= is.items);
                        }
                        assert forall|files: Files| #[trigger] loaded.agrees(files) implies tail_of(
                            scan.remaining(files).items,
                            index_scan(self@, files, table, 4, (id, first), (id, last)).items,
                        ) && forall|e: Error|
                            event_asks(self@, files, table, entry.1, e) ==> #[trigger] entries_ask(
                                self@,
                                files,
                                table,
                                index_scan(self@, files, table, 4, (id, first), (id, last)).items,
                                e,
                            ) by {
                            let items = index_scan(self@, files, table, 4, (id, first), (id, last)).items;
                            let (was, is) = (
                                before.remaining(files).items,
                                scan.remaining(files).items,
                            );
                            let k = choose|k: int| 0 <= k <= items.len() && was == #[trigger] items.skip(k);
                            assert(items[k] == entry);
                            assert(is =~= items.skip(k + 1));
                        }
                    }
                    let event = self.event_of(loaded, table, id, entry)?;
                    let ghost one = event@;
                    events.push(event);
                    let count: usize = events.len();
                    proof {
                        assert(crate::model::events_view(events@) =~= seen.push(one));
                        assert forall|files: Files| #[trigger]
                            loaded.agrees(files) implies events_in(
                            self@,
                            files,
                            table,
                            id,
                            first,
                            last,
                        ) == after(
                            seen.push(one),
                            gathered(self@, files, table, id, scan.remaining(files)),
                        ) by {
                            lemma_after(
                                seen,
                                one,
                                gathered(self@, files, table, id, scan.remaining(files)),
                            );
                        }
                        seen = seen.push(one);
                    }
                },
            }
        }
    }
}

/// Whether entries are the last of others.
pub open spec fn tail_of(t: Seq<Entry>, items: Seq<Entry>) -> bool {
    exists|k: int| 0 <= k <= items.len() && t == #[trigger] items.skip(k)
}

/// Events in front of what may follow.
spec fn after(a: Seq<EventV>, t: Outcome<Seq<EventV>>) -> Outcome<Seq<EventV>> {
    match t {
        Err(f) => Err(f),
        Ok(t) => Ok(a + t),
    }
}

proof fn lemma_after_none(t: Outcome<Seq<EventV>>)
    ensures
        after(Seq::empty(), t) == t,
{
    if let Ok(x) = t {
        assert(Seq::<EventV>::empty() + x =~= x);
    }
}

proof fn lemma_after(a: Seq<EventV>, b: EventV, t: Outcome<Seq<EventV>>)
    ensures
        after(a.push(b), t) == after(a, after(seq![b], t)),
{
    if let Ok(x) = t {
        assert(a.push(b) + x =~= a + (seq![b] + x));
    }
}

proof fn lemma_replayed_id(
    r: RootV,
    files: Files,
    table: u64,
    id: u64,
    state: EntityV,
    entries: Stream,
)
    requires
        replayed(r, files, table, id, state, entries) is Ok,
    ensures
        replayed(r, files, table, id, state, entries)->Ok_0.id == state.id,
    decreases entries.items.len(),
{
    if entries.items.len() > 0 {
        let event = indexed_event(r, files, table, id, entries.items[0]).unwrap();
        let next = stepped(state, event, r.catalog[table])->Ok_0;
        lemma_replayed_id(
            r,
            files,
            table,
            id,
            next,
            Stream { items: entries.items.skip(1), sound: entries.sound },
        );
    }
}

/// Replay reaches the version asked for and stays with its entity.
pub proof fn lemma_advanced(
    r: RootV,
    files: Files,
    table: u64,
    id: u64,
    state: EntityV,
    version: u64,
)
    requires
        advanced(r, files, table, id, state, version, false) is Ok,
    ensures
        advanced(r, files, table, id, state, version, false)->Ok_0.version == version,
        advanced(r, files, table, id, state, version, false)->Ok_0.id == state.id,
{
    reveal(started);
    if state.version != version {
        lemma_replayed_id(
            r,
            files,
            table,
            id,
            state,
            index_scan(r, files, table, 4, (id, (state.version + 1) as u64), (id, version)),
        );
    }
}

// ---- Walking through events within limits ----

/// What reading a record may take: raw and decompressed bytes, with those in use, and the
/// decoded size of one record.
#[derive(Clone, Copy, Debug, PartialEq, Eq, Structural)]
pub struct Room {
    /// Scratch bytes in use.
    pub scratch_used: usize,
    /// The most scratch bytes.
    pub max_scratch: usize,
    /// The most decoded bytes of one record.
    pub max_record: usize,
}

/// The limit that the record of an event exceeds, if it exceeds one: that of scratch bytes, then
/// that of the decoded size, which its encoded lengths tell.
#[verifier::opaque]
pub open spec fn record_limit(r: RootV, files: Files, table: u64, location: Value, room: Room) -> Option<
    Error,
> {
    if !r.history_generations.contains_key(location.0) {
        None
    } else {
        let file = FileId {
            table,
            generation: location.0,
            kind: 6,
            segment: segment_of(location.1),
        };
        match frame_at(files[file], offset_of(location.1)) {
            Read::Complete(f) => if f.kind != 3 {
                None
            } else {
                match unpacked(f.payload) {
                    None => None,
                    Some((_, bytes)) => over(f.payload.len(), bytes, room),
                }
            },
            _ => None,
        }
    }
}

/// The limit that a record with a raw payload exceeds, if it exceeds one.
pub open spec fn over(raw: nat, bytes: Seq<u8>, room: Room) -> Option<Error> {
    if room.scratch_used + raw + bytes.len() > room.max_scratch {
        Some(Error::LimitExceeded { resource: "scratch bytes", limit: room.max_scratch })
    } else {
        match record_size(bytes, vstd::layout::size_of::<Accounted<Event>>()) {
            Some(n) if room.max_record < n <= usize::MAX => Some(
                Error::LimitExceeded {
                    resource: "decoded record bytes",
                    limit: room.max_record,
                },
            ),
            _ => None,
        }
    }
}

/// How events end that are read one after another.
pub enum Ending {
    /// There are no more.
    Done,
    /// The next one is damaged.
    Damaged,
    /// The next one exceeds a limit.
    Limited(Error),
}

/// Events that can be read, and how they end.
pub struct Run {
    /// The events.
    pub events: Seq<EventV>,
    /// What comes behind them.
    pub ending: Ending,
}

/// The events that index entries lead to, up to the first that cannot be read.
pub open spec fn pulled(
    r: RootV,
    files: Files,
    table: u64,
    id: u64,
    entries: Stream,
    room: Room,
) -> Run
    decreases entries.items.len(),
{
    if entries.items.len() == 0 {
        Run {
            events: Seq::empty(),
            ending: if entries.sound {
                Ending::Done
            } else {
                Ending::Damaged
            },
        }
    } else {
        match record_limit(r, files, table, entries.items[0].1, room) {
            Some(e) => Run { events: Seq::empty(), ending: Ending::Limited(e) },
            None => match indexed_event(r, files, table, id, entries.items[0]) {
                None => Run { events: Seq::empty(), ending: Ending::Damaged },
                Some(event) => {
                    let more = pulled(
                        r,
                        files,
                        table,
                        id,
                        Stream { items: entries.items.skip(1), sound: entries.sound },
                        room,
                    );
                    Run { events: seq![event] + more.events, ending: more.ending }
                },
            },
        }
    }
}

/// Events in front of others that are in memory.
pub open spec fn followed_by(a: Run, b: Seq<EventV>) -> Run {
    match a.ending {
        Ending::Done => Run { events: a.events + b, ending: Ending::Done },
        _ => a,
    }
}

/// Whether an error tells how events end.
pub open spec fn ends(ending: Ending, e: Error) -> bool {
    match ending {
        Ending::Done => false,
        Ending::Damaged => e is Corrupt,
        Ending::Limited(limit) => e == limit && e is LimitExceeded,
    }
}

impl Root {
    /// Reads the event that an index entry leads to, within limits. The decoded size is told by
    /// the encoded lengths, before anything is decoded.
    fn event_within(&self, loaded: &Loaded, table: u64, id: u64, entry: Entry, room: &Room) -> (r:
        Result<Event>)
        ensures
            match r {
                Ok(event) => forall|files: Files| #[trigger]
                    loaded.agrees(files) ==> record_limit(self@, files, table, entry.1, *room)
                        is None && indexed_event(self@, files, table, id, entry) == Some(event@),
                Err(e) => {
                    ||| lacks(loaded, e) && forall|files: Files| #[trigger]
                        loaded.agrees(files) ==> event_asks(self@, files, table, entry.1, e)
                    ||| e is LimitExceeded && forall|files: Files| #[trigger]
                        loaded.agrees(files) ==> record_limit(self@, files, table, entry.1, *room)
                            == Some(e)
                    ||| e is Corrupt && forall|files: Files| #[trigger]
                        loaded.agrees(files) ==> record_limit(self@, files, table, entry.1, *room)
                            is None && indexed_event(self@, files, table, id, entry) is None
                },
            },
    {
        proof {
            reveal(event_in);
            reveal(event_asks);
            reveal(indexed_event);
            reveal(record_limit);
        }
        let location = entry.1;
        if !self.history_generations.contains_key(&location.0) {
            return Err(corrupt("absent history generation"));
        }
        let (segment, offset) = event_split(location.1);
        let file = FileId::new(table, location.0, 6, segment);
        let record = match frame::read_at(loaded, file, offset)? {
            Some(record) => record,
            None => {
                return Err(corrupt("truncated indexed event"));
            },
        };
        if record.kind != 3 {
            return Err(corrupt("invalid history frame kind"));
        }
        let (entity, payload) = unpack(record.payload.as_slice())?;
        let raw: usize = record.payload.len();
        let needed: Option<usize> = match raw.checked_add(payload.len()) {
            None => None,
            Some(n) => n.checked_add(room.scratch_used),
        };
        let fits: bool = match needed {
            None => false,
            Some(n) => n <= room.max_scratch,
        };
        if !fits {
            return Err(
                Error::LimitExceeded { resource: "scratch bytes", limit: room.max_scratch },
            );
        }
        let overhead: usize = std::mem::size_of::<Accounted<Event>>();
        match record_bytes(payload.as_slice(), overhead) {
            Ok(n) => {
                if n > room.max_record {
                    return Err(
                        Error::LimitExceeded {
                            resource: "decoded record bytes",
                            limit: room.max_record,
                        },
                    );
                }
            },
            Err(_) => {},
        }
        let event = decode_event(payload.as_slice())?;
        if entity != id || event.version != entry.0.1 || event.transaction != record.lsn
            || event.transaction > self.lsn {
            return Err(corrupt("history index references another event"));
        }
        Ok(event)
    }
}

/// A walk through events: those that index entries lead to, then some in memory.
pub struct EventWalk<'a> {
    disk: Option<(&'a Root, Scan<'a>)>,
    pending: Option<Entry>,
    table: u64,
    id: u64,
    memory: Vec<Event>,
    at: usize,
    failed: bool,
}

impl<'a> EventWalk<'a> {
    /// Whether the walk is at one of its events.
    pub closed spec fn sound(self) -> bool {
        &&& self.at <= self.memory@.len()
        &&& self.disk is Some ==> self.disk.unwrap().1.sound()
        &&& self.pending is Some ==> self.disk is Some
    }

    closed spec fn ahead(self, files: Files) -> Stream {
        let rest = self.disk.unwrap().1.remaining(files);
        match self.pending {
            None => rest,
            Some(e) => Stream { items: seq![e] + rest.items, sound: rest.sound },
        }
    }

    /// What is still to come.
    pub closed spec fn remaining(self, files: Files, room: Room) -> Run {
        if self.failed {
            Run { events: Seq::empty(), ending: Ending::Done }
        } else {
            followed_by(
                match self.disk {
                    None => Run { events: Seq::empty(), ending: Ending::Done },
                    Some((root, _)) => pulled(
                        root@,
                        files,
                        self.table,
                        self.id,
                        self.ahead(files),
                        room,
                    ),
                },
                crate::model::events_view(self.memory@).skip(self.at as int),
            )
        }
    }

    /// Whether what is still to come needs what a request names.
    pub closed spec fn asks(self, files: Files, e: Error) -> bool {
        !self.failed && self.disk is Some && (self.disk.unwrap().1.asks(files, e) || entries_ask(
            self.disk.unwrap().0@,
            files,
            self.table,
            self.ahead(files).items,
            e,
        ))
    }

    /// Starts a walk through stored events of an entity between two versions, where there is a
    /// manifest, and then through events in memory.
    pub fn new(
        root: Option<&'a Root>,
        table: u64,
        id: u64,
        first: u64,
        last: u64,
        memory: Vec<Event>,
    ) -> (walk: Self)
        ensures
            walk.sound(),
            forall|files: Files, room: Room| #[trigger]
                walk.remaining(files, room) == followed_by(
                    match root {
                        None => Run { events: Seq::empty(), ending: Ending::Done },
                        Some(root) => pulled(
                            root@,
                            files,
                            table,
                            id,
                            index_scan(root@, files, table, 4, (id, first), (id, last)),
                            room,
                        ),
                    },
                    crate::model::events_view(memory@),
                ),
            forall|files: Files, e: Error| #[trigger]
                walk.asks(files, e) == (root is Some && events_ask(
                    root.unwrap()@,
                    files,
                    table,
                    id,
                    first,
                    last,
                    e,
                )),
    {
        let disk = match root {
            None => None,
            Some(root) => Some((root, root.scan_index(table, 4, (id, first), (id, last)))),
        };
        let walk = EventWalk { disk, pending: None, table, id, memory, at: 0, failed: false };
        proof {
            reveal(events_ask);
            let all = crate::model::events_view(memory@);
            assert(all.skip(0) =~= all);
        }
        walk
    }

    /// The next event, within limits. A failed walk has no more; one that only lacks a part of a
    /// file in memory goes on from where it is.
    pub fn next(&mut self, loaded: &Loaded, room: &Room) -> (r: Option<Result<Event>>)
        requires
            old(self).sound(),
        ensures
            final(self).sound(),
            match r {
                Some(Ok(e)) => forall|files: Files| #[trigger]
                    loaded.agrees(files) ==> {
                        let was = old(self).remaining(files, *room);
                        let is = final(self).remaining(files, *room);
                        was.events == seq![e@] + is.events && was.ending == is.ending && forall|
                            x: Error,
                        | #[trigger] final(self).asks(files, x) ==> old(self).asks(files, x)
                    },
                Some(Err(e)) => if lacks(loaded, e) {
                    forall|files: Files| #[trigger]
                        loaded.agrees(files) ==> old(self).asks(files, e)
                } else {
                    !(e is Unread) && forall|files: Files| #[trigger]
                        loaded.agrees(files) ==> {
                            let was = old(self).remaining(files, *room);
                            was.events.len() == 0 && ends(was.ending, e)
                        }
                },
                None => forall|files: Files| #[trigger]
                    loaded.agrees(files) ==> {
                        let was = old(self).remaining(files, *room);
                        was.events.len() == 0 && was.ending is Done
                    },
            },
    {
        if self.failed {
            return None;
        }
        let ghost start = *self;
        let mut disk: Option<(&'a Root, Scan<'a>)> = None;
        std::mem::swap(&mut disk, &mut self.disk);
        match disk {
            None => {},
            Some((root, scan)) => {
                let mut scan = scan;
                if self.pending.is_none() {
                    let ghost before = scan;
                    match scan.next(loaded) {
                        None => {
                            proof {
                                assert forall|files: Files| #[trigger]
                                    loaded.agrees(files) implies self.remaining(files, *room)
                                    == start.remaining(files, *room) by {
                                    let m = crate::model::events_view(self.memory@).skip(
                                        self.at as int,
                                    );
                                    assert(before.remaining(files).items.len() == 0);
                                    assert(Seq::<EventV>::empty() + m =~= m);
                                }
                            }
                            return self.recall(loaded, room, Ghost(start));
                        },
                        Some(Err(e)) => {
                            match e {
                                Error::Unread { .. } => {
                                    self.disk = Some((root, scan));
                                },
                                _ => {
                                    self.failed = true;
                                },
                            }
                            return Some(Err(e));
                        },
                        Some(Ok(entry)) => {
                            self.pending = Some(entry);
                        },
                    }
                }
                self.disk = Some((root, scan));
                let ghost settled = *self;
                match self.pending {
                    None => {
                        return None;
                    },
                    Some(entry) => {
                        proof {
                            assert forall|files: Files| #[trigger] loaded.agrees(files) implies ({
                                let st = settled.ahead(files);
                                &&& settled.remaining(files, *room) == start.remaining(files, *room)
                                &&& st.items.len() > 0 && st.items[0] == entry
                                &&& (Stream { items: st.items.skip(1), sound: st.sound })
                                    == scan.remaining(files)
                                &&& forall|x: Error|
                                    event_asks(root@, files, self.table, entry.1, x)
                                        ==> #[trigger] start.asks(files, x)
                                &&& forall|x: Error| #[trigger]
                                    settled.asks(files, x) ==> start.asks(files, x)
                            }) by {
                                let st = settled.ahead(files);
                                let was = start.ahead(files);
                                assert(st.items.skip(1) =~= scan.remaining(files).items);
                                assert(was.items =~= st.items);
                                assert(was.items[0] == entry);
                            }
                        }
                        match root.event_within(loaded, self.table, self.id, entry, room) {
                            Ok(event) => {
                                self.pending = None;
                                proof {
                                    assert forall|files: Files| #[trigger]
                                        loaded.agrees(files) implies ({
                                        let was = start.remaining(files, *room);
                                        let is = self.remaining(files, *room);
                                        was.events == seq![event@] + is.events && was.ending
                                            == is.ending && forall|x: Error| #[trigger]
                                            self.asks(files, x) ==> start.asks(files, x)
                                    }) by {
                                        let was = start.remaining(files, *room);
                                        let is = self.remaining(files, *room);
                                        let st = settled.ahead(files);
                                        assert(self.ahead(files) == scan.remaining(files));
                                        assert(was.events =~= seq![event@] + is.events);
                                        assert forall|x: Error| #[trigger]
                                            self.asks(files, x) implies start.asks(files, x) by {
                                            if entries_ask(
                                                root@,
                                                files,
                                                self.table,
                                                self.ahead(files).items,
                                                x,
                                            ) {
                                                let items = self.ahead(files).items;
                                                let i = choose|i: int|
                                                    0 <= i < items.len() && event_asks(
                                                        root@,
                                                        files,
                                                        self.table,
                                                        (#[trigger] items[i]).1,
                                                        x,
                                                    );
                                                assert(st.items[i + 1] == items[i]);
                                                assert(settled.asks(files, x));
                                            } else {
                                                assert(settled.asks(files, x));
                                            }
                                        }
                                    }
                                }
                                return Some(Ok(event));
                            },
                            Err(e) => {
                                match e {
                                    Error::Unread { .. } => {},
                                    _ => {
                                        self.failed = true;
                                    },
                                }
                                return Some(Err(e));
                            },
                        }
                    },
                }
            },
        }
        self.recall(loaded, room, Ghost(start))
    }

    /// The next event in memory.
    fn recall(&mut self, loaded: &Loaded, room: &Room, Ghost(start): Ghost<Self>) -> (r: Option<
        Result<Event>,
    >)
        requires
            old(self).sound(),
            old(self).disk is None,
            !old(self).failed,
            forall|files: Files| #[trigger]
                loaded.agrees(files) ==> old(self).remaining(files, *room) == start.remaining(
                    files,
                    *room,
                ),
        ensures
            final(self).sound(),
            final(self).disk is None,
            match r {
                Some(Ok(e)) => forall|files: Files| #[trigger]
                    loaded.agrees(files) ==> {
                        let was = start.remaining(files, *room);
                        let is = final(self).remaining(files, *room);
                        was.events == seq![e@] + is.events && was.ending == is.ending
                    },
                Some(Err(e)) => false,
                None => forall|files: Files| #[trigger]
                    loaded.agrees(files) ==> {
                        let was = start.remaining(files, *room);
                        was.events.len() == 0 && was.ending is Done
                    },
            },
    {
        let ghost all = crate::model::events_view(self.memory@);
        let ghost k = self.at as int;
        assert(Seq::<EventV>::empty() + all.skip(k) =~= all.skip(k));
        if self.at < self.memory.len() {
            let event = self.memory[self.at].clone();
            self.at = self.at + 1;
            proof {
                assert(all.skip(k) =~= seq![event@] + all.skip(k + 1));
                assert(Seq::<EventV>::empty() + all.skip(k + 1) =~= all.skip(k + 1));
            }
            return Some(Ok(event));
        }
        assert(all.skip(k) =~= Seq::empty());
        None
    }
}

} // verus!
