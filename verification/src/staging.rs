//! The staged writes of a transaction.

use crate::entity::retained;
use crate::entity::DataV;
use crate::entity::EntityData;
use crate::error::invalid;
use crate::error::reports;
use crate::error::Error;
use crate::error::Fault;
use crate::error::Outcome;
use crate::error::Result;
use crate::key::entries32;
use crate::key::increasing;
use crate::key::lists;
use crate::key::OrderedKey;
use crate::model::FieldV;
use crate::model::accepts;
use crate::model::apply_event;
use crate::model::fields_view;
use crate::model::find_field;
use crate::model::normalized;
use crate::model::valid_name;
use crate::model::Entity;
use crate::model::EntityV;
use crate::model::Event;
use crate::model::EventKind;
use crate::model::EventV;
use crate::model::Field;
use crate::model::Fields;
use crate::model::Schema;
use crate::model::SchemaV;
use crate::model::Table;
use crate::model::TableV;
use crate::model::ValueV;
use crate::operation::catalog_view;
use crate::operation::change_allowed;
use crate::operation::key_of_op;
use crate::operation::last_id;
use crate::operation::name_taken;
use crate::operation::ops_view;
use crate::operation::validate_table_change;
use crate::operation::OpV;
use crate::operation::Operation;
use crate::ordered_map::OrderedMap;
use crate::overlay::Key;
use crate::entity::retain_asks;
use crate::reader::get_asks;
use crate::reader::live;
use crate::reader::load_asks;
use crate::reader::loaded_data;
use crate::reader::state_get;
use crate::reader::ReadState;
use crate::reader::StateV;
use crate::reading::stepped;
use crate::resources::charged;
use crate::resources::check;
use crate::resources::owed;
use crate::resources::refunded;
use crate::resources::Charge;
use crate::resources::Permit;
use crate::resources::Reservation;
use crate::resources::ResourceUsage;
use crate::resources::Resources;
use crate::storage::pager::lacks;
use crate::storage::pager::Files;
use crate::storage::pager::Loaded;
use crate::text::join;
use crate::text::label;
use std::sync::Arc;
use vstd::prelude::*;

verus! {

// ---- What operations do ----

/// The tables and the staged entities of a transaction.
pub struct WritesV {
    /// The tables.
    pub catalog: Map<u64, TableV>,
    /// The entities that the transaction has touched.
    pub staged: Map<Key, DataV>,
}

/// An entity as a transaction sees it.
pub open spec fn fetched(base: StateV, files: Files, w: WritesV, key: Key) -> Outcome<
    Option<DataV>,
> {
    if w.staged.contains_key(key) {
        Ok(Some(w.staged[key]))
    } else if base.catalog.contains_key(key.0) {
        loaded_data(base, files, key.0, key.1)
    } else {
        Ok(None)
    }
}

/// A new entity.
pub open spec fn created(id: u64, schema: SchemaV, fields: Map<u32, ValueV>) -> DataV {
    let current = EntityV {
        id,
        version: 0,
        schema_version: schema.version,
        deleted: false,
        fields,
    };
    DataV {
        current,
        base: current,
        events: Seq::empty(),
        committed: Map::empty(),
        snapshots: Map::empty(),
        disk: None,
    }
}

/// The event that an assignment or a deletion makes.
pub open spec fn made_event(
    d: DataV,
    lsn: u64,
    schema: SchemaV,
    kind: EventKind,
    fields: Map<u32, ValueV>,
) -> EventV {
    EventV {
        version: (d.current.version + 1) as u64,
        transaction: (lsn + 1) as u64,
        schema_version: schema.version,
        kind,
        fields,
    }
}

/// An entity after an assignment or a deletion.
pub open spec fn written(
    d: DataV,
    lsn: u64,
    table: TableV,
    kind: EventKind,
    fields: Map<u32, ValueV>,
) -> Outcome<DataV> {
    if d.current.deleted || d.current.version == u64::MAX || lsn == u64::MAX {
        Err(Fault::Invalid)
    } else {
        let event = made_event(d, lsn, table.schemas.last(), kind, fields);
        match stepped(d.current, event, table) {
            Err(f) => Err(f),
            Ok(current) => Ok(
                DataV {
                    current,
                    base: d.base,
                    events: d.events.push(event),
                    committed: d.committed,
                    snapshots: d.snapshots,
                    disk: d.disk,
                },
            ),
        }
    }
}

/// An entity with a snapshot of its current state.
pub open spec fn with_snapshot(d: DataV) -> DataV {
    DataV {
        current: d.current,
        base: d.base,
        events: d.events,
        committed: d.committed,
        snapshots: d.snapshots.insert(d.current.version, d.current),
        disk: d.disk,
    }
}

/// An entity after an operation on it.
pub open spec fn changed(
    d: Option<DataV>,
    files: Files,
    lsn: u64,
    table: TableV,
    op: OpV,
) -> Outcome<DataV> {
    let schema = table.schemas.last();
    match op {
        OpV::Create(_, id, fields) => if d is Some {
            Err(Fault::Exists)
        } else {
            match normalized(schema, fields, true) {
                None => Err(Fault::Invalid),
                Some(fields) => Ok(created(id, schema, fields)),
            }
        },
        _ => match d {
            None => Err(Fault::Missing),
            Some(d) => match op {
                OpV::Apply(_, _, fields) => if fields == Map::<u32, ValueV>::empty() {
                    Err(Fault::Invalid)
                } else {
                    match normalized(schema, fields, false) {
                        None => Err(Fault::Invalid),
                        Some(fields) => written(d, lsn, table, EventKind::Apply, fields),
                    }
                },
                OpV::Delete(_, _) => written(d, lsn, table, EventKind::Delete, Map::empty()),
                OpV::Retain(_, _, count) => if count > usize::MAX {
                    Err(Fault::Invalid)
                } else {
                    retained(d, files, table, count)
                },
                _ => Ok(with_snapshot(d)),
            },
        },
    }
}

/// What an operation makes of the writes of a transaction.
pub open spec fn executed(base: StateV, files: Files, w: WritesV, op: OpV) -> Outcome<WritesV> {
    match key_of_op(op) {
        None => {
            let t = op->Table_0;
            if change_allowed(w.catalog, t) {
                Ok(WritesV { catalog: w.catalog.insert(t.id, t), staged: w.staged })
            } else if valid_name(t.name) && name_taken(w.catalog, t) {
                Err(Fault::Exists)
            } else {
                Err(Fault::Invalid)
            }
        },
        Some(key) => if !w.catalog.contains_key(key.0) {
            Err(Fault::Missing)
        } else {
            match fetched(base, files, w, key) {
                Err(f) => Err(f),
                Ok(d) => match changed(d, files, base.lsn, w.catalog[key.0], op) {
                    Err(f) => Err(f),
                    Ok(d) => Ok(WritesV { catalog: w.catalog, staged: w.staged.insert(key, d) }),
                },
            }
        },
    }
}

/// Whether finding the entity of an operation needs what a request names.
pub open spec fn fetch_asks(base: StateV, files: Files, w: WritesV, key: Key, e: Error) -> bool {
    !w.staged.contains_key(key) && load_asks(base, files, key.0, key.1, e)
}

/// Whether changing an entity needs what a request names: only retention reads history.
pub open spec fn change_asks(d: Option<DataV>, files: Files, op: OpV, e: Error) -> bool {
    match op {
        OpV::Retain(_, _, count) => d is Some && retain_asks(d.unwrap(), files, count, e),
        _ => false,
    }
}

/// Whether an operation needs what a request names.
pub open spec fn op_asks(base: StateV, files: Files, w: WritesV, op: OpV, e: Error) -> bool {
    match key_of_op(op) {
        None => false,
        Some(key) => w.catalog.contains_key(key.0) && ({
            ||| fetch_asks(base, files, w, key, e)
            ||| match fetched(base, files, w, key) {
                Ok(d) => change_asks(d, files, op, e),
                Err(_) => false,
            }
        }),
    }
}

/// What operations make of the writes of a transaction, one by one.
pub open spec fn executed_all(base: StateV, files: Files, w: WritesV, ops: Seq<OpV>) -> Outcome<
    WritesV,
>
    decreases ops.len(),
{
    if ops.len() == 0 {
        Ok(w)
    } else {
        match executed_all(base, files, w, ops.drop_last()) {
            Err(f) => Err(f),
            Ok(w) => executed(base, files, w, ops.last()),
        }
    }
}

// ---- Staging ----

/// The entities that a transaction has touched, by key.
pub struct Staged {
    index: OrderedMap<Key, usize>,
    slots: Vec<Option<EntityData>>,
}

/// What staged entities stand for.
spec fn staged_of(index: Map<Key, usize>, slots: Seq<Option<EntityData>>) -> Map<Key, DataV> {
    Map::new(|k: Key| index.contains_key(k), |k: Key| slots[index[k] as int].unwrap()@)
}

/// Whether every key has its own place.
spec fn placed(index: Map<Key, usize>, slots: Seq<Option<EntityData>>) -> bool {
    &&& forall|k: Key| #[trigger]
        index.contains_key(k) ==> index[k] < slots.len() && slots[index[k] as int] is Some
    &&& forall|a: Key, b: Key| #[trigger]
        index.contains_key(a) && #[trigger] index.contains_key(b) && a != b ==> index[a] != index[b]
}

impl View for Staged {
    type V = Map<Key, DataV>;

    closed spec fn view(&self) -> Map<Key, DataV> {
        staged_of(self.index@, self.slots@)
    }
}

impl Staged {
    #[verifier::type_invariant]
    spec fn sound(self) -> bool {
        placed(self.index@, self.slots@)
    }

    /// No entities.
    pub fn new() -> (s: Self)
        ensures
            s@ == Map::<Key, DataV>::empty(),
    {
        let s = Staged { index: OrderedMap::new(), slots: Vec::new() };
        assert(s@ =~= Map::empty());
        s
    }

    /// The entity under a key.
    pub fn get(&self, key: &Key) -> (r: Option<&EntityData>)
        ensures
            match r {
                None => !self@.contains_key(*key),
                Some(d) => self@.contains_key(*key) && self@[*key] == d@,
            },
    {
        proof {
            use_type_invariant(self);
        }
        match self.index.get(key) {
            None => None,
            Some(at) => {
                assert(self.index@.contains_key(*key));
                self.slots[*at].as_ref()
            },
        }
    }

    /// Takes the entity under a key out, to be put back.
    pub fn take(&mut self, key: &Key) -> (r: Option<EntityData>)
        ensures
            match r {
                None => !old(self)@.contains_key(*key) && final(self)@ == old(self)@,
                Some(d) => old(self)@.contains_key(*key) && old(self)@[*key] == d@ && final(self)@
                    == old(self)@.remove(*key),
            },
    {
        proof {
            use_type_invariant(&*self);
        }
        let ghost before = self@;
        match self.index.get(key) {
            None => None,
            Some(at) => {
                let at: usize = *at;
                let mut index: OrderedMap<Key, usize> = OrderedMap::new();
                let mut slots: Vec<Option<EntityData>> = Vec::new();
                assert(self.index@.contains_key(*key));
                let ghost (i, s) = (self.index@, self.slots@);
                std::mem::swap(&mut index, &mut self.index);
                std::mem::swap(&mut slots, &mut self.slots);
                index.remove(key);
                let mut data: Option<EntityData> = None;
                std::mem::swap(&mut data, &mut slots[at]);
                proof {
                    assert(slots@ =~= s.update(at as int, None));
                    assert(index@ == i.remove(*key));
                    assert forall|k: Key| #[trigger] index@.contains_key(k) implies index@[k]
                        < slots@.len() && slots@[index@[k] as int] is Some by {
                        assert(i.contains_key(k) && k != *key);
                        assert(i[k] != i[*key]);
                    }
                    assert forall|a: Key, b: Key| #[trigger]
                        index@.contains_key(a) && #[trigger] index@.contains_key(b) && a
                            != b implies index@[a] != index@[b] by {
                        assert(i.contains_key(a) && i.contains_key(b));
                    }
                    assert(placed(index@, slots@));
                    assert(staged_of(index@, slots@) =~= before.remove(*key)) by {
                        assert forall|k: Key| #[trigger] index@.contains_key(k) implies slots@[
                        index@[k] as int] == s[i[k] as int] by {
                            assert(i.contains_key(k) && k != *key);
                        }
                    }
                }
                *self = Staged { index, slots };
                data
            },
        }
    }

    /// The keys in order.
    pub fn keys(&self) -> (keys: Vec<Key>)
        ensures
            forall|i: int, j: int|
                0 <= i < j < keys@.len() ==> (#[trigger] keys@[i]).before(#[trigger] keys@[j]),
            forall|i: int| 0 <= i < keys@.len() ==> self@.contains_key(#[trigger] keys@[i]),
            forall|k: Key| #[trigger] self@.contains_key(k) ==> keys@.contains(k),
            self@.dom().finite(),
            keys@.len() == self@.dom().len(),
    {
        let items = self.index.items();
        let ghost s = self.index.entries();
        let mut keys: Vec<Key> = Vec::new();
        let mut i: usize = 0;
        proof {
            assert(items@.map_values(|e: (&Key, &usize)| (*e.0, *e.1)).len() == items@.len());
        }
        while i < items.len()
            invariant
                i <= items@.len(),
                items@.len() == s.len(),
                items@.map_values(|e: (&Key, &usize)| (*e.0, *e.1)) == s,
                keys@.len() == i,
                forall|j: int| 0 <= j < i ==> (#[trigger] keys@[j]) == s[j].0,
            decreases items@.len() - i,
        {
            let (k, at) = items[i];
            proof {
                assert(items@.map_values(|e: (&Key, &usize)| (*e.0, *e.1))[i as int] == (*k, *at));
            }
            keys.push(*k);
            i = i + 1;
        }
        proof {
            reveal(increasing);
            reveal(lists);
            assert forall|j: int| 0 <= j < keys@.len() implies self@.contains_key(
                #[trigger] keys@[j],
            ) by {
                assert(self.index@.contains_key(s[j].0));
            }
            assert forall|k: Key| #[trigger] self@.contains_key(k) implies keys@.contains(k) by {
                assert(self.index@.contains_key(k));
                let j = choose|j: int| 0 <= j < s.len() && (#[trigger] s[j]).0 == k;
                assert(keys@[j] == k);
            }
            assert forall|a: int, b: int| 0 <= a < b < keys@.len() implies (
            #[trigger] keys@[a]).before(#[trigger] keys@[b]) by {
                assert(s[a].0.before(s[b].0));
            }
            assert(keys@.no_duplicates()) by {
                assert forall|a: int, b: int|
                    0 <= a < keys@.len() && 0 <= b < keys@.len() && a != b implies keys@[a]
                    != keys@[b] by {
                    if a < b {
                        assert(keys@[a].before(keys@[b]));
                    } else {
                        assert(keys@[b].before(keys@[a]));
                    }
                }
            }
            keys@.unique_seq_to_set();
            assert(keys@.to_set() =~= self@.dom());
        }
        keys
    }

    /// Puts an entity under a key, in place of what was there.
    pub fn insert(&mut self, key: Key, data: EntityData)
        ensures
            final(self)@ == old(self)@.insert(key, data@),
    {
        proof {
            use_type_invariant(&*self);
        }
        let ghost before = self@;
        let ghost (i, s) = (self.index@, self.slots@);
        let mut index: OrderedMap<Key, usize> = OrderedMap::new();
        let mut slots: Vec<Option<EntityData>> = Vec::new();
        std::mem::swap(&mut index, &mut self.index);
        std::mem::swap(&mut slots, &mut self.slots);
        let ghost d = data;
        let at: usize = slots.len();
        index.insert(key, at);
        slots.push(Some(data));
        proof {
            assert forall|k: Key| #[trigger] index@.contains_key(k) implies index@[k] < slots@.len()
                && slots@[index@[k] as int] is Some by {
                if k != key {
                    assert(i.contains_key(k));
                }
            }
            assert forall|a: Key, b: Key| #[trigger]
                index@.contains_key(a) && #[trigger] index@.contains_key(b) && a != b implies index@[
            a] != index@[b] by {
                if a != key {
                    assert(i.contains_key(a));
                }
                if b != key {
                    assert(i.contains_key(b));
                }
            }
            assert(staged_of(index@, slots@) =~= before.insert(key, d@)) by {
                assert forall|k: Key| index@.contains_key(k) && k != key implies #[trigger] slots@[
                index@[k] as int] == s[i[k] as int] by {
                    assert(i.contains_key(k));
                }
            }
        }
        *self = Staged { index, slots };
    }
}

/// The staged writes of a transaction on a committed view.
pub struct Staging {
    /// The view that the transaction started from.
    pub base: Arc<ReadState>,
    /// The tables as the transaction sees them.
    pub catalog: OrderedMap<u64, Table>,
    /// The entities that it has touched.
    pub staged: Staged,
    /// Its operations so far.
    pub operations: Vec<Operation>,
    /// Whether an operation failed, which ends it.
    pub failed: bool,
    /// Whether it replays the log, which no limit holds up.
    pub recovery: bool,
    /// Its place among the active transactions.
    pub permit: Option<Permit>,
    /// The log bytes of its operations.
    pub reservation: Reservation,
}

/// Whether a map of fields is empty.
fn no_fields(fields: &Fields) -> (r: bool)
    ensures
        r == (fields_view(fields@) == Map::<u32, ValueV>::empty()),
{
    let entries = entries32(fields);
    proof {
        reveal(lists);
        let s = entries@.map_values(|e: (u32, &crate::model::Value)| (e.0, *e.1));
        if entries@.len() == 0 {
            assert(fields_view(fields@) =~= Map::empty());
        } else {
            assert(fields@.contains_key(s[0].0));
            assert(fields_view(fields@).contains_key(s[0].0));
        }
    }
    entries.len() == 0
}

fn empty_fields() -> (fields: Fields)
    ensures
        fields_view(fields@) == Map::<u32, ValueV>::empty(),
{
    let fields = Fields::new();
    assert(fields_view(fields@) =~= Map::empty());
    fields
}

/// Makes a new entity.
fn create_entity(id: u64, table: &Table, fields: &Fields) -> (r: Result<EntityData>)
    requires
        table@.schemas.len() > 0,
    ensures
        match r {
            Ok(d) => normalized(table@.schemas.last(), fields_view(fields@), true) is Some && d@
                == created(
                id,
                table@.schemas.last(),
                normalized(table@.schemas.last(), fields_view(fields@), true).unwrap(),
            ),
            Err(e) => e is Invalid && normalized(
                table@.schemas.last(),
                fields_view(fields@),
                true,
            ) is None,
        },
{
    let mut fields = fields.clone();
    let schema = table.schema();
    schema.normalize(&mut fields, true)?;
    let current = Entity {
        id,
        version: 0,
        schema_version: schema.version,
        deleted: false,
        fields,
    };
    let data = EntityData {
        base: current.clone(),
        current,
        events: Vec::new(),
        committed: OrderedMap::new(),
        snapshots: OrderedMap::new(),
        disk: None,
    };
    proof {
        assert(data@.events =~= Seq::empty());
        assert(data@.committed =~= Map::empty());
        assert(data@.snapshots =~= Map::empty());
    }
    Ok(data)
}

/// Writes an event to an entity.
fn write_event(data: &mut EntityData, lsn: u64, table: &Table, kind: EventKind, fields: Fields) -> (r:
    Result<()>)
    requires
        table@.schemas.len() > 0,
    ensures
        match r {
            Ok(_) => written(old(data)@, lsn, table@, kind, fields_view(fields@)) == Ok::<_, Fault>(
                final(data)@,
            ),
            Err(e) => {
                let w = written(old(data)@, lsn, table@, kind, fields_view(fields@));
                w is Err && reports(e, w->Err_0) && final(data)@ == old(data)@
            },
        },
{
    if data.current.deleted {
        return Err(
            Error::Invalid(join(label("entity ", data.current.id).as_str(), " is deleted")),
        );
    }
    if data.current.version == u64::MAX {
        return Err(invalid("entity versions exhausted"));
    }
    if lsn == u64::MAX {
        return Err(invalid("transaction sequence exhausted"));
    }
    let event = Event {
        version: data.current.version + 1,
        transaction: lsn + 1,
        schema_version: table.schema().version,
        kind,
        fields,
    };
    let ghost before = *data;
    let ghost e = event@;
    assert(e == made_event(before@, lsn, table@.schemas.last(), kind, fields_view(fields@)));
    apply_event(&mut data.current, &event, table)?;
    data.events.push(event);
    assert(data@.events =~= before@.events.push(e));
    Ok(())
}

impl Staging {
    /// The writes so far.
    pub open spec fn writes(self) -> WritesV {
        WritesV { catalog: catalog_view(self.catalog@), staged: self.staged@ }
    }

    /// Whether every table has a schema.
    pub open spec fn sound(self) -> bool {
        forall|id: u64| #[trigger]
            self.catalog@.contains_key(id) ==> self.catalog@[id].schemas@.len() > 0
    }

    /// A transaction without writes. Recovery is not held to the limits.
    pub fn new(base: Arc<ReadState>, recovery: bool, resources: &mut Resources) -> (r: Result<Self>)
        requires
            forall|id: u64| #[trigger]
                base.catalog@.contains_key(id) ==> base.catalog@[id].schemas@.len() > 0,
            recovery ==> old(resources).used().resident_write_bytes + 8 <= usize::MAX,
        ensures
            final(resources).limits == old(resources).limits,
            ({
                let limits = old(resources).limits;
                let used = old(resources).used();
                match r {
                    Ok(s) => {
                        &&& s.sound()
                        &&& s.base == base
                        &&& s.writes() == (WritesV {
                            catalog: base@.catalog,
                            staged: Map::<Key, DataV>::empty(),
                        })
                        &&& s.operations@ == Seq::<Operation>::empty()
                        &&& !s.failed
                        &&& s.recovery == recovery
                        &&& s.reservation.bytes == 8 && s.reservation.decoded_bytes == 0
                        &&& if recovery {
                            s.permit is None && final(resources).used() == charged(
                                used,
                                Charge::Write(8, 0),
                            )
                        } else {
                            &&& used.transactions < limits.max_transactions
                            &&& used.resident_write_bytes + 8 <= limits.max_resident_write_bytes
                            &&& s.permit is Some && s.permit.unwrap().charge()
                                == Charge::Transaction
                            &&& final(resources).used() == charged(
                                charged(used, Charge::Transaction),
                                Charge::Write(8, 0),
                            )
                        }
                    },
                    Err(e) => {
                        &&& !recovery
                        &&& final(resources).used() == used
                        &&& if used.transactions >= limits.max_transactions {
                            e == (Error::LimitExceeded {
                                resource: "active transactions",
                                limit: limits.max_transactions,
                            })
                        } else {
                            used.resident_write_bytes + 8 > limits.max_resident_write_bytes && e
                                == (Error::LimitExceeded {
                                resource: "resident mutation bytes",
                                limit: limits.max_resident_write_bytes,
                            })
                        }
                    },
                }
            }),
    {
        let mut reservation = resources.reservation();
        let permit: Option<Permit> = if recovery {
            reservation.recover(resources, 8);
            None
        } else {
            let permit = resources.transaction()?;
            match reservation.grow(resources, 8) {
                Ok(_) => {},
                Err(e) => {
                    resources.release(permit);
                    return Err(e);
                },
            }
            Some(permit)
        };
        Ok(
            Staging {
                catalog: base.catalog.clone(),
                base,
                staged: Staged::new(),
                operations: Vec::new(),
                failed: false,
                recovery,
                permit,
                reservation,
            },
        )
    }

    /// The entity that an operation is about, taken from the transaction or from its view.
    fn fetch(&mut self, loaded: &Loaded, key: Key) -> (r: Result<(Option<EntityData>, bool)>)
        ensures
            final(self).base == old(self).base,
            final(self).catalog == old(self).catalog,
            final(self).operations == old(self).operations,
            final(self).failed == old(self).failed,
            final(self).recovery == old(self).recovery,
            final(self).permit == old(self).permit,
            final(self).reservation == old(self).reservation,
            match r {
                Ok((d, own)) => {
                    &&& own == old(self).staged@.contains_key(key)
                    &&& own ==> d is Some && d.unwrap()@ == old(self).staged@[key]
                    &&& forall|files: Files| #[trigger]
                        loaded.agrees(files) ==> fetched(
                            old(self).base@,
                            files,
                            old(self).writes(),
                            key,
                        ) == Ok::<_, Fault>(option_view(d))
                    &&& final(self).staged@ == old(self).staged@.remove(key)
                },
                Err(e) => {
                    &&& final(self).staged@ == old(self).staged@
                    &&& lacks(loaded, e) && (forall|files: Files| #[trigger]
                        loaded.agrees(files) ==> fetch_asks(
                            old(self).base@,
                            files,
                            old(self).writes(),
                            key,
                            e,
                        )) || forall|files: Files| #[trigger]
                        loaded.agrees(files) ==> {
                            let f = fetched(old(self).base@, files, old(self).writes(), key);
                            f is Err && reports(e, f->Err_0)
                        }
                },
            },
    {
        match self.staged.take(&key) {
            Some(data) => Ok((Some(data), true)),
            None => {
                proof {
                    assert(self.staged@.remove(key) =~= self.staged@);
                }
                if self.base.catalog.contains_key(&key.0) {
                    let data = self.base.load(loaded, key.0, key.1)?;
                    Ok((data, false))
                } else {
                    Ok((None, false))
                }
            },
        }
    }

    /// Changes an entity.
    fn change(
        &self,
        loaded: &Loaded,
        data: Option<EntityData>,
        table: &Table,
        operation: &Operation,
    ) -> (r: core::result::Result<EntityData, (Error, Option<EntityData>)>)
        requires
            table@.schemas.len() > 0,
            key_of_op(operation@) is Some,
        ensures
            match r {
                Ok(d) => forall|files: Files| #[trigger]
                    loaded.agrees(files) ==> changed(
                        option_view(data),
                        files,
                        self.base.lsn,
                        table@,
                        operation@,
                    ) == Ok::<_, Fault>(d@),
                Err((e, d)) => option_view(d) == option_view(data) && (lacks(loaded, e) && (forall|
                    files: Files,
                | #[trigger]
                    loaded.agrees(files) ==> change_asks(option_view(data), files, operation@, e))
                    || forall|files: Files| #[trigger]
                    loaded.agrees(files) ==> {
                        let c = changed(
                            option_view(data),
                            files,
                            self.base.lsn,
                            table@,
                            operation@,
                        );
                        c is Err && reports(e, c->Err_0)
                    }),
            },
    {
        match operation {
            Operation::Create(_, id, fields) => {
                if data.is_some() {
                    return Err((Error::AlreadyExists(label("entity ", *id)), data));
                }
                match create_entity(*id, table, fields) {
                    Ok(data) => Ok(data),
                    Err(e) => Err((e, data)),
                }
            },
            _ => {
                let mut data = match data {
                    None => {
                        return Err((Error::NotFound(label("entity ", subject(operation))), None));
                    },
                    Some(data) => data,
                };
                match operation {
                    Operation::Apply(_, _, fields) => {
                        if no_fields(fields) {
                            return Err((invalid("an apply needs at least one field"), Some(data)));
                        }
                        let mut fields = fields.clone();
                        match table.schema().normalize(&mut fields, false) {
                            Err(e) => {
                                return Err((e, Some(data)));
                            },
                            Ok(_) => {},
                        }
                        match write_event(
                            &mut data,
                            self.base.lsn,
                            table,
                            EventKind::Apply,
                            fields,
                        ) {
                            Ok(_) => Ok(data),
                            Err(e) => Err((e, Some(data))),
                        }
                    },
                    Operation::Delete(_, _) => {
                        match write_event(
                            &mut data,
                            self.base.lsn,
                            table,
                            EventKind::Delete,
                            empty_fields(),
                        ) {
                            Ok(_) => Ok(data),
                            Err(e) => Err((e, Some(data))),
                        }
                    },
                    Operation::Retain(_, _, count) => {
                        if *count > usize::MAX as u64 {
                            return Err((invalid("retention count overflow"), Some(data)));
                        }
                        match data.retain(loaded, table, *count) {
                            Ok(_) => Ok(data),
                            Err(e) => Err((e, Some(data))),
                        }
                    },
                    _ => {
                        let ghost before = data;
                        let version: u64 = data.current.version;
                        let copy = data.current.clone();
                        let ghost c = copy;
                        data.snapshots.insert(version, copy);
                        assert(data@.snapshots =~= before@.snapshots.insert(version, c@));
                        Ok(data)
                    },
                }
            },
        }
    }

    /// Executes an operation on the staged writes.
    pub fn execute(&mut self, loaded: &Loaded, operation: &Operation) -> (r: Result<()>)
        requires
            old(self).sound(),
        ensures
            final(self).sound(),
            key_of_op(operation@) is None && r is Err ==> !(r->Err_0 is Unread),
            final(self).base == old(self).base,
            final(self).operations == old(self).operations,
            final(self).failed == old(self).failed,
            final(self).recovery == old(self).recovery,
            final(self).permit == old(self).permit,
            final(self).reservation == old(self).reservation,
            match r {
                Ok(_) => forall|files: Files| #[trigger]
                    loaded.agrees(files) ==> executed(
                        old(self).base@,
                        files,
                        old(self).writes(),
                        operation@,
                    ) == Ok::<_, Fault>(final(self).writes()),
                Err(e) => final(self).writes() == old(self).writes() && (lacks(loaded, e) && (forall|
                    files: Files,
                | #[trigger]
                    loaded.agrees(files) ==> op_asks(
                        old(self).base@,
                        files,
                        old(self).writes(),
                        operation@,
                        e,
                    )) || forall|files: Files| #[trigger]
                    loaded.agrees(files) ==> {
                        let x = executed(old(self).base@, files, old(self).writes(), operation@);
                        x is Err && reports(e, x->Err_0)
                    }),
            },
    {
        let ghost before = self.writes();
        let key: Key = match operation {
            Operation::Table(table) => {
                validate_table_change(&self.catalog, table)?;
                let copy = table.clone();
                let ghost c = copy;
                self.catalog.insert(table.id, copy);
                proof {
                    assert(self.writes().catalog =~= before.catalog.insert(table.id, table@));
                    assert(c@.schemas.len() == c.schemas@.len());
                }
                return Ok(());
            },
            _ => match operation.entity_key() {
                None => {
                    return Ok(());
                },
                Some(key) => key,
            },
        };
        self.execute_entity(loaded, operation, key)
    }

    /// Executes an operation on an entity.
    fn execute_entity(&mut self, loaded: &Loaded, operation: &Operation, key: Key) -> (r: Result<()>)
        requires
            old(self).sound(),
            key_of_op(operation@) == Some(key),
        ensures
            final(self).sound(),
            final(self).base == old(self).base,
            final(self).catalog == old(self).catalog,
            final(self).operations == old(self).operations,
            final(self).failed == old(self).failed,
            final(self).recovery == old(self).recovery,
            final(self).permit == old(self).permit,
            final(self).reservation == old(self).reservation,
            match r {
                Ok(_) => (forall|files: Files| #[trigger]
                    loaded.agrees(files) ==> executed(
                        old(self).base@,
                        files,
                        old(self).writes(),
                        operation@,
                    ) == Ok::<_, Fault>(final(self).writes())) && final(self).writes().staged
                    == old(self).writes().staged.insert(key, final(self).writes().staged[key]),
                Err(e) => final(self).writes() == old(self).writes() && (lacks(loaded, e) && (forall|
                    files: Files,
                | #[trigger]
                    loaded.agrees(files) ==> op_asks(
                        old(self).base@,
                        files,
                        old(self).writes(),
                        operation@,
                        e,
                    )) || forall|files: Files| #[trigger]
                    loaded.agrees(files) ==> {
                        let x = executed(old(self).base@, files, old(self).writes(), operation@);
                        x is Err && reports(e, x->Err_0)
                    }),
            },
    {
        let ghost before = self.writes();
        let table = match self.catalog.get(&key.0) {
            None => {
                return Err(Error::NotFound(label("table ", key.0)));
            },
            Some(table) => table.clone(),
        };
        proof {
            assert(self.catalog@.contains_key(key.0));
            assert(before.catalog[key.0] == table@);
            assert(self.catalog@[key.0]@.schemas.len() == self.catalog@[key.0].schemas@.len());
        }
        let (data, own) = self.fetch(loaded, key)?;
        match self.change(loaded, data, &table, operation) {
            Ok(data) => {
                let ghost d = data@;
                self.staged.insert(key, data);
                assert(self.writes().staged =~= before.staged.insert(key, d));
                Ok(())
            },
            Err((e, data)) => {
                if own {
                    match data {
                        None => {},
                        Some(data) => {
                            self.staged.insert(key, data);
                        },
                    }
                }
                assert(self.writes().staged =~= before.staged);
                Err(e)
            },
        }
    }
}

impl Staging {
    /// Finds out whether an operation would succeed, and leaves the staged writes as they are.
    pub fn rehearse(&mut self, loaded: &Loaded, operation: &Operation) -> (r: Result<()>)
        requires
            old(self).sound(),
        ensures
            final(self).sound(),
            key_of_op(operation@) is None && r is Err ==> !(r->Err_0 is Unread),
            final(self).base == old(self).base,
            final(self).operations == old(self).operations,
            final(self).failed == old(self).failed,
            final(self).recovery == old(self).recovery,
            final(self).permit == old(self).permit,
            final(self).reservation == old(self).reservation,
            final(self).writes() == old(self).writes(),
            match r {
                Ok(_) => forall|files: Files| #[trigger]
                    loaded.agrees(files) ==> executed(
                        old(self).base@,
                        files,
                        old(self).writes(),
                        operation@,
                    ) is Ok,
                Err(e) => lacks(loaded, e) && (forall|files: Files| #[trigger]
                    loaded.agrees(files) ==> op_asks(
                        old(self).base@,
                        files,
                        old(self).writes(),
                        operation@,
                        e,
                    )) || forall|files: Files| #[trigger]
                    loaded.agrees(files) ==> {
                        let x = executed(old(self).base@, files, old(self).writes(), operation@);
                        x is Err && reports(e, x->Err_0)
                    },
            },
    {
        let ghost before = self.writes();
        let key: Key = match operation {
            Operation::Table(table) => {
                return validate_table_change(&self.catalog, table);
            },
            _ => match operation.entity_key() {
                None => {
                    return Ok(());
                },
                Some(key) => key,
            },
        };
        let saved: Option<EntityData> = match self.staged.get(&key) {
            None => None,
            Some(data) => Some(data.clone()),
        };
        self.execute_entity(loaded, operation, key)?;
        match saved {
            None => {
                self.staged.take(&key);
            },
            Some(data) => {
                self.staged.insert(key, data);
            },
        }
        assert(self.writes().staged =~= before.staged);
        Ok(())
    }
}

/// What may be an entity stands for.
pub open spec fn option_view(d: Option<EntityData>) -> Option<DataV> {
    match d {
        None => None,
        Some(d) => Some(d@),
    }
}

fn subject(operation: &Operation) -> (id: u64)
    ensures
        key_of_op(operation@) is Some ==> id == key_of_op(operation@).unwrap().1,
{
    match operation.entity_key() {
        None => 0,
        Some(key) => key.1,
    }
}

/// Why the limits refuse an operation of so many bytes.
pub open spec fn refused(s: Staging, resources: Resources, bytes: nat) -> Option<Error> {
    let limits = resources.limits;
    if s.recovery {
        None
    } else if s.operations@.len() + 1 > limits.max_transaction_operations {
        Some(
            Error::LimitExceeded {
                resource: "transaction operations",
                limit: limits.max_transaction_operations,
            },
        )
    } else if s.reservation.bytes + bytes > limits.max_transaction_bytes {
        Some(
            Error::LimitExceeded {
                resource: "transaction bytes",
                limit: limits.max_transaction_bytes,
            },
        )
    } else if resources.used().resident_write_bytes + bytes > limits.max_resident_write_bytes {
        Some(
            Error::LimitExceeded {
                resource: "resident mutation bytes",
                limit: limits.max_resident_write_bytes,
            },
        )
    } else {
        None
    }
}

/// The log bytes of an operation.
pub open spec fn op_bytes(op: OpV) -> nat {
    crate::operation::capped(crate::operation::enc_op(op).len())
}

/// Whether an operation failed as it should: nothing is written, and the transaction ends,
/// unless only a part of a file is not in memory, which leaves everything as it was.
pub open spec fn run_failed(
    before: Staging,
    resources: Resources,
    after: Staging,
    used: ResourceUsage,
    loaded: &Loaded,
    op: OpV,
    e: Error,
) -> bool {
    let base = before.base@;
    &&& after.writes() == before.writes()
    &&& after.operations == before.operations
    &&& if base.poisoned {
        e is NeedsRecovery && after.failed == before.failed
    } else if before.failed {
        e is Invalid && after.failed
    } else if refused(before, resources, op_bytes(op)) is Some {
        refused(before, resources, op_bytes(op)) == Some(e) && after.failed
    } else if e is Unread {
        (lacks(loaded, e) || forall|files: Files| !(#[trigger] loaded.agrees(files))) && (forall|
            files: Files,
        | #[trigger]
            loaded.agrees(files) ==> op_asks(base, files, before.writes(), op, e))
            && !after.failed && after.reservation == before.reservation && used
            == resources.used()
    } else {
        after.failed && forall|files: Files| #[trigger]
            loaded.agrees(files) ==> {
                let x = executed(base, files, before.writes(), op);
                x is Err && reports(e, x->Err_0)
            }
    }
}

impl Staging {
    /// Accepts an operation of so many bytes, if the limits leave room for it.
    pub fn within_limits(&self, resources: &Resources, bytes: usize) -> (r: Result<()>)
        ensures
            match r {
                Ok(_) => refused(*self, *resources, bytes as nat) is None,
                Err(e) => refused(*self, *resources, bytes as nat) == Some(e),
            },
    {
        if !self.recovery {
            let limits = &resources.limits;
            check(
                "transaction operations",
                self.operations.len(),
                1,
                limits.max_transaction_operations,
            )?;
            check(
                "transaction bytes",
                self.reservation.bytes,
                bytes,
                limits.max_transaction_bytes,
            )?;
            check(
                "resident mutation bytes",
                resources.usage.resident_write_bytes,
                bytes,
                limits.max_resident_write_bytes,
            )?;
        }
        Ok(())
    }

    /// Whether the transaction may commit: its view must not need recovery, and no operation of
    /// it may have failed.
    pub fn committable(&self) -> (r: Result<()>)
        ensures
            match r {
                Ok(_) => !self.base@.poisoned && !self.failed,
                Err(e) => if self.base@.poisoned {
                    e is NeedsRecovery
                } else {
                    self.failed && e is Invalid
                },
            },
    {
        self.base.ready()?;
        if self.failed {
            return Err(invalid("cannot commit an aborted transaction"));
        }
        Ok(())
    }

    /// Runs an operation. A failure ends the transaction; a request for a part of a file that
    /// is not in memory changes nothing, and the operation can be run again.
    pub fn run(&mut self, loaded: &Loaded, resources: &mut Resources, operation: Operation) -> (r:
        Result<()>)
        requires
            old(self).sound(),
            owed(old(resources).used(), old(self).reservation.charge()),
            old(self).recovery ==> old(resources).used().resident_write_bytes + op_bytes(
                operation@,
            ) <= usize::MAX,
        ensures
            final(self).sound(),
            key_of_op(operation@) is None && r is Err ==> !(r->Err_0 is Unread),
            final(self).base == old(self).base,
            final(self).recovery == old(self).recovery,
            final(self).permit == old(self).permit,
            final(resources).limits == old(resources).limits,
            owed(final(resources).used(), final(self).reservation.charge()),
            refunded(final(resources).used(), final(self).reservation.charge()) == refunded(
                old(resources).used(),
                old(self).reservation.charge(),
            ),
            ({
                let bytes = op_bytes(operation@);
                let base = old(self).base@;
                match r {
                    Ok(_) => {
                        &&& !base.poisoned && !old(self).failed && !final(self).failed
                        &&& refused(*old(self), *old(resources), bytes) is None
                        &&& forall|files: Files| #[trigger]
                            loaded.agrees(files) ==> executed(
                                base,
                                files,
                                old(self).writes(),
                                operation@,
                            ) == Ok::<_, Fault>(final(self).writes())
                        &&& final(self).operations@ == old(self).operations@.push(operation)
                        &&& final(self).reservation.bytes == old(self).reservation.bytes + bytes
                        &&& final(resources).used() == charged(
                            old(resources).used(),
                            Charge::Write(bytes as usize, 0),
                        )
                    },
                    Err(e) => run_failed(
                        *old(self),
                        *old(resources),
                        *final(self),
                        final(resources).used(),
                        loaded,
                        operation@,
                        e,
                    ),
                }
            }),
    {
        self.base.ready()?;
        if self.failed {
            return Err(invalid("transaction was aborted by an earlier operation"));
        }
        let bytes: usize = operation.encoded_len();
        match self.within_limits(resources, bytes) {
            Err(e) => {
                self.failed = true;
                return Err(e);
            },
            Ok(_) => {},
        }
        let result = self.execute(loaded, &operation);
        match result {
            Err(Error::Unread { file, offset, length }) => {
                return Err(Error::Unread { file, offset, length });
            },
            _ => {},
        }
        if self.recovery {
            self.reservation.recover(resources, bytes);
        } else {
            match self.reservation.grow(resources, bytes) {
                Ok(_) => {},
                Err(_) => {},
            }
        }
        match result {
            Err(e) => {
                self.failed = true;
                Err(e)
            },
            Ok(_) => {
                self.operations.push(operation);
                Ok(())
            },
        }
    }
}

// ---- The operations of a transaction ----

/// The live current state of an entity as a transaction sees it.
pub open spec fn transaction_get(base: StateV, files: Files, w: WritesV, table: u64, id: u64) -> Outcome<
    Option<EntityV>,
> {
    if base.poisoned {
        Err(Fault::Poisoned)
    } else if !w.catalog.contains_key(table) {
        Err(Fault::Missing)
    } else if w.staged.contains_key((table, id)) {
        Ok(live(Some(w.staged[(table, id)].current)))
    } else if !base.catalog.contains_key(table) {
        Ok(None)
    } else {
        state_get(base, files, table, id)
    }
}

/// The operations that keep up an entity after an event: a snapshot every so many versions, and
/// the retention of so many events.
pub open spec fn upkeep(version: u64, interval: u64, retain: Option<u64>, key: Key) -> Seq<OpV> {
    (if interval != 0 && version % interval == 0 {
        seq![OpV::Snapshot(key.0, key.1)]
    } else {
        Seq::<OpV>::empty()
    }) + (match retain {
        None => Seq::<OpV>::empty(),
        Some(count) => seq![OpV::Retain(key.0, key.1, count)],
    })
}

/// Whether a transaction can still take an operation of so many bytes.
pub open spec fn accepts_op(s: Staging, resources: Resources, op: OpV) -> bool {
    !s.base.poisoned && !s.failed && refused(s, resources, op_bytes(op)) is None
}

impl Staging {
    /// Reads current state with this transaction's own changes.
    pub fn get(&self, loaded: &Loaded, table: u64, id: u64) -> (r: Result<Option<Entity>>)
        ensures
            match r {
                Ok(None) => forall|files: Files| #[trigger]
                    loaded.agrees(files) ==> transaction_get(
                        self.base@,
                        files,
                        self.writes(),
                        table,
                        id,
                    ) == Ok::<_, Fault>(None::<EntityV>),
                Ok(Some(v)) => forall|files: Files| #[trigger]
                    loaded.agrees(files) ==> transaction_get(
                        self.base@,
                        files,
                        self.writes(),
                        table,
                        id,
                    ) == Ok::<_, Fault>(Some(v@)),
                Err(e) => lacks(loaded, e) && !self.writes().staged.contains_key((table, id)) && (
                forall|files: Files| #[trigger]
                    loaded.agrees(files) ==> get_asks(self.base@, files, table, id, e)) || forall|
                    files: Files,
                | #[trigger]
                    loaded.agrees(files) ==> {
                        let g = transaction_get(self.base@, files, self.writes(), table, id);
                        g is Err && reports(e, g->Err_0)
                    },
            },
    {
        self.base.ready()?;
        if !self.catalog.contains_key(&table) {
            return Err(Error::NotFound(label("table ", table)));
        }
        match self.staged.get(&(table, id)) {
            Some(data) => {
                if data.current.deleted {
                    return Ok(None);
                }
                return Ok(Some(data.current.clone()));
            },
            None => {},
        }
        if !self.base.catalog.contains_key(&table) {
            return Ok(None);
        }
        self.base.get(loaded, table, id)
    }

    /// The operations that keep up an entity of the transaction after an event.
    pub fn maintain(&self, interval: u64, retain: Option<u64>, table: u64, id: u64) -> (operations:
        Vec<Operation>)
        requires
            self.writes().staged.contains_key((table, id)),
        ensures
            ops_view(operations@) == upkeep(
                self.writes().staged[(table, id)].current.version,
                interval,
                retain,
                (table, id),
            ),
            retain matches Some(count) ==> operations@.len() > 0 && operations@.last()@
                == OpV::Retain(table, id, count),
            operations@.len() == (if retain is Some {
                1int
            } else {
                0
            }) + (if interval != 0 && self.writes().staged[(table, id)].current.version % interval
                == 0 {
                1int
            } else {
                0
            }),
    {
        let mut operations: Vec<Operation> = Vec::new();
        let version: u64 = match self.staged.get(&(table, id)) {
            Some(data) => data.current.version,
            None => 0,
        };
        if interval != 0 && version % interval == 0 {
            operations.push(Operation::Snapshot(table, id));
        }
        match retain {
            None => {},
            Some(count) => {
                operations.push(Operation::Retain(table, id, count));
            },
        }
        assert(ops_view(operations@) =~= upkeep(version, interval, retain, (table, id)));
        operations
    }

    /// Runs a table change.
    fn run_table(&mut self, resources: &mut Resources, table: Table) -> (r: Result<()>)
        requires
            old(self).sound(),
            owed(old(resources).used(), old(self).reservation.charge()),
            old(self).recovery ==> old(resources).used().resident_write_bytes + op_bytes(
                OpV::Table(table@),
            ) <= usize::MAX,
        ensures
            final(self).sound(),
            final(self).base == old(self).base,
            final(self).recovery == old(self).recovery,
            final(self).permit == old(self).permit,
            final(resources).limits == old(resources).limits,
            owed(final(resources).used(), final(self).reservation.charge()),
            table_ran(*old(self), *old(resources), table@, r, *final(self)),
    {
        let loaded = Loaded::new();
        let ghost files: Files = Map::empty();
        assert(loaded.agrees(files));
        let ghost t = table@;
        let r = self.run(&loaded, resources, Operation::Table(table));
        proof {
            let x = executed(old(self).base@, files, old(self).writes(), OpV::Table(t));
            assert(loaded.agrees(files));
            if r is Ok {
                assert(self.operations@.drop_last() =~= old(self).operations@);
            }
        }
        r
    }

    /// Creates a table under the next identifier. Schema version must be one.
    pub fn create_table(&mut self, resources: &mut Resources, name: &str, schema: Schema) -> (r:
        Result<u64>)
        requires
            old(self).sound(),
            owed(old(resources).used(), old(self).reservation.charge()),
            !old(self).recovery,
        ensures
            final(self).sound(),
            final(self).base == old(self).base,
            final(self).recovery == old(self).recovery,
            final(self).permit == old(self).permit,
            final(resources).limits == old(resources).limits,
            owed(final(resources).used(), final(self).reservation.charge()),
            match r {
                Ok(id) => {
                    let t = TableV { id, name: name@, schemas: seq![schema@] };
                    crate::operation::next_id(old(self).writes().catalog, id) && table_ran(
                        *old(self),
                        *old(resources),
                        t,
                        Ok(()),
                        *final(self),
                    )
                },
                Err(e) => if old(self).catalog@.contains_key(u64::MAX) {
                    e is Invalid && *final(self) == *old(self)
                } else {
                    exists|id: u64| #[trigger]
                        crate::operation::next_id(old(self).writes().catalog, id) && table_ran(
                            *old(self),
                            *old(resources),
                            TableV { id, name: name@, schemas: seq![schema@] },
                            Err(e),
                            *final(self),
                        )
                },
            },
    {
        let last: u64 = last_id(&self.catalog);
        if last == u64::MAX {
            return Err(invalid("table IDs exhausted"));
        }
        let id: u64 = last + 1;
        let ghost m = self.writes().catalog;
        proof {
            assert forall|k: u64| #[trigger] m.contains_key(k) implies k < id by {
                assert(self.catalog@.contains_key(k));
            }
            if last != 0 {
                assert(m.contains_key(last));
            }
            assert(crate::operation::next_id(m, id));
        }
        let ghost s = schema@;
        let mut schemas: Vec<Schema> = Vec::new();
        schemas.push(schema);
        let table = Table { id, name: join(name, ""), schemas };
        proof {
            assert(table@.schemas =~= seq![s]);
            assert(table@.name =~= name@) by {
                reveal_strlit("");
            }
        }
        self.run_table(resources, table)?;
        Ok(id)
    }

    /// Renames a table while keeping its ID and physical storage identity.
    pub fn rename_table(&mut self, resources: &mut Resources, id: u64, name: &str) -> (r: Result<()>)
        requires
            old(self).sound(),
            owed(old(resources).used(), old(self).reservation.charge()),
            !old(self).recovery,
        ensures
            final(self).sound(),
            final(self).base == old(self).base,
            final(self).recovery == old(self).recovery,
            final(self).permit == old(self).permit,
            final(resources).limits == old(resources).limits,
            owed(final(resources).used(), final(self).reservation.charge()),
            if old(self).writes().catalog.contains_key(id) {
                let t = old(self).writes().catalog[id];
                table_ran(
                    *old(self),
                    *old(resources),
                    TableV { id: t.id, name: name@, schemas: t.schemas },
                    r,
                    *final(self),
                )
            } else {
                r is Err && r->Err_0 is NotFound && final(self).failed && final(self).writes()
                    == old(self).writes() && final(self).operations == old(self).operations
            },
    {
        let mut table = match self.catalog.get(&id) {
            Some(table) => table.clone(),
            None => {
                self.failed = true;
                return Err(Error::NotFound(label("table ", id)));
            },
        };
        assert(self.writes().catalog.contains_key(id));
        table.name = join(name, "");
        proof {
            assert(table@.name =~= name@) by {
                reveal_strlit("");
            }
        }
        self.run_table(resources, table)
    }

    /// Adds a schema version. Existing fields retain IDs, types, and nullability.
    /// Fields may be renamed; newly introduced fields must accept null.
    pub fn alter_table(&mut self, resources: &mut Resources, id: u64, fields: Vec<Field>) -> (r:
        Result<()>)
        requires
            old(self).sound(),
            owed(old(resources).used(), old(self).reservation.charge()),
            !old(self).recovery,
        ensures
            final(self).sound(),
            final(self).base == old(self).base,
            final(self).recovery == old(self).recovery,
            final(self).permit == old(self).permit,
            final(resources).limits == old(resources).limits,
            owed(final(resources).used(), final(self).reservation.charge()),
            if old(self).writes().catalog.contains_key(id) {
                let t = old(self).writes().catalog[id];
                let version = t.schemas.last().version;
                if version == u64::MAX {
                    r is Err && r->Err_0 is Invalid && *final(self) == *old(self)
                } else {
                    let schema = SchemaV {
                        version: (version + 1) as u64,
                        fields: fields@.map_values(|f: Field| f@),
                    };
                    table_ran(
                        *old(self),
                        *old(resources),
                        TableV { id: t.id, name: t.name, schemas: t.schemas.push(schema) },
                        r,
                        *final(self),
                    )
                }
            } else {
                r is Err && r->Err_0 is NotFound && final(self).failed && final(self).writes()
                    == old(self).writes() && final(self).operations == old(self).operations
            },
    {
        let mut table = match self.catalog.get(&id) {
            Some(table) => table.clone(),
            None => {
                self.failed = true;
                return Err(Error::NotFound(label("table ", id)));
            },
        };
        proof {
            assert(self.writes().catalog.contains_key(id));
            assert(self.catalog@[id]@.schemas.len() == self.catalog@[id].schemas@.len());
            assert(table@.schemas.len() == table.schemas@.len());
        }
        let version: u64 = table.schema().version;
        if version == u64::MAX {
            return Err(invalid("schema versions exhausted"));
        }
        let ghost before = table@;
        let schema = Schema { version: version + 1, fields };
        let ghost s = schema@;
        table.schemas.push(schema);
        assert(table@.schemas =~= before.schemas.push(s));
        self.run_table(resources, table)
    }
}

/// Whether a table change ran as it should: it is put into the catalog and logged if it is
/// allowed, and else nothing is written.
pub open spec fn table_ran(
    before: Staging,
    resources: Resources,
    t: TableV,
    r: Result<()>,
    after: Staging,
) -> bool {
    let w = before.writes();
    match r {
        Ok(_) => {
            &&& accepts_op(before, resources, OpV::Table(t))
            &&& change_allowed(w.catalog, t)
            &&& after.writes() == (WritesV { catalog: w.catalog.insert(t.id, t), staged: w.staged })
            &&& after.operations@.len() == before.operations@.len() + 1
            &&& after.operations@.drop_last() == before.operations@
            &&& after.operations@.last()@ == OpV::Table(t)
            &&& !after.failed
        },
        Err(e) => {
            &&& after.writes() == w
            &&& after.operations == before.operations
            &&& if before.base.poisoned {
                e is NeedsRecovery
            } else if before.failed {
                e is Invalid && after.failed
            } else if refused(before, resources, op_bytes(OpV::Table(t))) is Some {
                refused(before, resources, op_bytes(OpV::Table(t))) == Some(e) && after.failed
            } else {
                &&& after.failed
                &&& !change_allowed(w.catalog, t)
                &&& if valid_name(t.name) && name_taken(w.catalog, t) {
                    e is AlreadyExists
                } else {
                    e is Invalid
                }
            }
        },
    }
}

// ---- Laws ----

/// An assignment raises the version of its entity by one, and so does a deletion; every other
/// entity stays as it is.
pub proof fn lemma_one_version(base: StateV, files: Files, w: WritesV, op: OpV)
    requires
        op is Apply || op is Delete,
        executed(base, files, w, op) is Ok,
    ensures
        ({
            let key = key_of_op(op).unwrap();
            let after = executed(base, files, w, op)->Ok_0;
            let before = fetched(base, files, w, key)->Ok_0.unwrap();
            &&& after.staged[key].current.version == before.current.version + 1
            &&& after.staged[key].base == before.base
            &&& after.staged[key].events.len() == before.events.len() + 1
            &&& after.staged[key].current.deleted == (op is Delete)
            &&& after.catalog == w.catalog
            &&& forall|other: Key|
                other != key ==> (#[trigger] after.staged.contains_key(other)
                    == w.staged.contains_key(other)) && (w.staged.contains_key(other)
                    ==> after.staged[other] == w.staged[other])
        }),
{
}

/// A deletion is final: the identifier cannot be used again, and nothing more can be written
/// to the entity.
pub proof fn lemma_deleted(base: StateV, files: Files, w: WritesV, table: u64, id: u64, op: OpV)
    requires
        executed(base, files, w, OpV::Delete(table, id)) is Ok,
        op is Create || op is Apply || op is Delete,
        key_of_op(op) == Some((table, id)),
    ensures
        executed(base, files, executed(base, files, w, OpV::Delete(table, id))->Ok_0, op) is Err,
{
}

/// An entity that exists, deleted or not, cannot be created again.
pub proof fn lemma_no_reuse(
    base: StateV,
    files: Files,
    w: WritesV,
    table: u64,
    id: u64,
    fields: Map<u32, ValueV>,
)
    requires
        w.catalog.contains_key(table),
        fetched(base, files, w, (table, id)) is Ok,
        fetched(base, files, w, (table, id))->Ok_0 is Some,
    ensures
        executed(base, files, w, OpV::Create(table, id, fields)) == Err::<WritesV, _>(
            Fault::Exists,
        ),
{
}

/// A transaction reads its own writes.
pub proof fn lemma_own_writes(base: StateV, files: Files, w: WritesV, op: OpV)
    requires
        !base.poisoned,
        key_of_op(op) is Some,
        executed(base, files, w, op) is Ok,
    ensures
        ({
            let key = key_of_op(op).unwrap();
            let after = executed(base, files, w, op)->Ok_0;
            transaction_get(base, files, after, key.0, key.1) == Ok::<_, Fault>(
                live(Some(after.staged[key].current)),
            )
        }),
{
}

// ---- What is accepted can be logged ----

/// The identifiers of fields.
spec fn field_ids(fields: Seq<FieldV>) -> Set<u32>
    decreases fields.len(),
{
    if fields.len() == 0 {
        Set::empty()
    } else {
        field_ids(fields.drop_last()).insert(fields.last().id)
    }
}

proof fn lemma_field_ids(fields: Seq<FieldV>)
    ensures
        field_ids(fields).finite(),
        field_ids(fields).len() <= fields.len(),
        forall|id: u32| #[trigger] find_field(fields, id) is Some ==> field_ids(fields).contains(id),
    decreases fields.len(),
{
    if fields.len() > 0 {
        lemma_field_ids(fields.drop_last());
        assert forall|id: u32| #[trigger] find_field(fields, id) is Some implies field_ids(
            fields,
        ).contains(id) by {
            if fields.last().id != id {
                assert(find_field(fields.drop_last(), id) is Some);
            }
        }
    }
}

/// An encoded item is no longer than all of them.
proof fn lemma_item_len<T>(s: Seq<T>, enc: spec_fn(T) -> Seq<u8>, i: int)
    requires
        0 <= i < s.len(),
    ensures
        enc(s[i]).len() <= crate::codec::enc_all(s, enc).len(),
    decreases s.len(),
{
    if i < s.len() - 1 {
        lemma_item_len(s.drop_last(), enc, i);
    }
}

/// An encoded value is no longer than the assignments that it is one of.
proof fn lemma_assigned_len(m: Map<u32, ValueV>, id: u32)
    requires
        m.dom().finite(),
        m.contains_key(id),
    ensures
        crate::record::enc_value(m[id]).len() <= crate::record::enc_fields(m).len(),
{
    let s = crate::key::listing(m);
    crate::key::lemma_listing(m);
    assert(exists|i: int| 0 <= i < s.len() && #[trigger] s[i] == (id, m[id])) by {
        reveal(crate::key::lists);
    }
    let i = choose|i: int| 0 <= i < s.len() && #[trigger] s[i] == (id, m[id]);
    lemma_item_len(s, crate::record::pair_encoder(), i);
}

/// Assignments that a valid schema takes survive encoding.
proof fn lemma_normalized(schema: SchemaV, m: Map<u32, ValueV>, complete: bool)
    requires
        crate::model::valid_schema(schema),
        normalized(schema, m, complete) is Some,
    ensures
        crate::record::encodable_fields(m),
{
    lemma_field_ids(schema.fields);
    let ids = field_ids(schema.fields);
    assert(m.dom().subset_of(ids)) by {
        assert forall|id: u32| m.contains_key(id) implies ids.contains(id) by {
            assert(find_field(schema.fields, id) is Some);
        }
    }
    vstd::set_lib::lemma_len_subset(m.dom(), ids);
    crate::model::lemma_completed(schema.fields, m);
    let n = normalized(schema, m, complete).unwrap();
    assert forall|id: u32| #[trigger] m.contains_key(id) implies crate::record::encodable(m[id]) by {
        assert(n.contains_key(id) && n[id] == m[id]) by {
            let all = crate::model::completed(schema.fields, m);
            assert(all.contains_key(id) <==> m.contains_key(id) || find_field(schema.fields, id)
                is Some);
        }
        lemma_assigned_len(n, id);
        assert(accepts(find_field(schema.fields, id).unwrap(), m[id]));
    }
}

/// An operation that a transaction accepts can be logged, and leaves a sound catalog sound.
pub proof fn lemma_accepted(base: StateV, files: Files, w: WritesV, op: OpV)
    requires
        crate::operation::sound_catalog(w.catalog),
        executed(base, files, w, op) is Ok,
    ensures
        crate::operation::encodable_op(op),
        crate::operation::sound_catalog(executed(base, files, w, op)->Ok_0.catalog),
{
    match op {
        OpV::Table(t) => {
            crate::operation::lemma_change(w.catalog, t);
            let n = w.catalog.insert(t.id, t);
            assert(n.contains_key(t.id));
            let last = t.schemas.len() - 1;
            assert(t.schemas[last].version == last + 1);
        },
        OpV::Create(table, id, fields) => {
            assert(w.catalog.contains_key(table));
            let t = w.catalog[table];
            assert(crate::model::valid_schema(t.schemas[t.schemas.len() - 1]));
            lemma_normalized(t.schemas.last(), fields, true);
        },
        OpV::Apply(table, id, fields) => {
            assert(w.catalog.contains_key(table));
            let t = w.catalog[table];
            assert(crate::model::valid_schema(t.schemas[t.schemas.len() - 1]));
            lemma_normalized(t.schemas.last(), fields, false);
        },
        _ => {},
    }
}

/// Every operation that a transaction has accepted can be logged.
pub proof fn lemma_accepted_all(base: StateV, files: Files, w: WritesV, ops: Seq<OpV>)
    requires
        crate::operation::sound_catalog(w.catalog),
        executed_all(base, files, w, ops) is Ok,
    ensures
        forall|i: int| 0 <= i < ops.len() ==> crate::operation::encodable_op(#[trigger] ops[i]),
        crate::operation::sound_catalog(executed_all(base, files, w, ops)->Ok_0.catalog),
    decreases ops.len(),
{
    if ops.len() > 0 {
        lemma_accepted_all(base, files, w, ops.drop_last());
        let m = executed_all(base, files, w, ops.drop_last())->Ok_0;
        lemma_accepted(base, files, m, ops.last());
        assert forall|i: int| 0 <= i < ops.len() implies crate::operation::encodable_op(
            #[trigger] ops[i],
        ) by {
            if i < ops.len() - 1 {
                assert(ops.drop_last()[i] == ops[i]);
            }
        }
    }
}

} // verus!
