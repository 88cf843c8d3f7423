//! What the operations are for: what creating, assigning, deleting, retaining and reading come
//! to, said of the values that go in and come out.

use crate::consistency::consistent;
use crate::consistency::lemma_consistent;
use crate::entity::data_at;
use crate::entity::from_disk;
use crate::entity::retained;
use crate::entity::DataV;
use crate::error::Fault;
use crate::model::accepts;
use crate::model::applied;
use crate::model::completed;
use crate::model::find_field;
use crate::model::find_schema;
use crate::model::lemma_completed;
use crate::model::normalized;
use crate::model::valid_schema;
use crate::model::DataType;
use crate::model::EntityV;
use crate::model::EventKind;
use crate::model::EventV;
use crate::model::FieldV;
use crate::model::SchemaV;
use crate::model::TableV;
use crate::model::ValueV;
use crate::operation::key_of_op;
use crate::operation::sound_catalog;
use crate::operation::OpV;
use crate::reader::retained_events;
use crate::reader::StateV;
use crate::record::enc_fields;
use crate::record::valid_table;
use crate::staging::executed;
use crate::staging::executed_all;
use crate::staging::fetched;
use crate::staging::made_event;
use crate::staging::upkeep;
use crate::staging::with_snapshot;
use crate::staging::WritesV;
use crate::storage::index::Key;
use crate::storage::pager::Files;
use crate::versions::lemma_history;
use crate::versions::lemma_retained;
use vstd::prelude::*;

verus! {

// ---- Values and fields ----

/// The type of a value that is not null.
pub open spec fn type_of(v: ValueV) -> Option<DataType> {
    match v {
        ValueV::Null => None,
        ValueV::Bool(_) => Some(DataType::Bool),
        ValueV::Int64(_) => Some(DataType::Int64),
        ValueV::UInt64(_) => Some(DataType::UInt64),
        ValueV::Float64(_) => Some(DataType::Float64),
        ValueV::Text(_) => Some(DataType::Text),
        ValueV::Bytes(_) => Some(DataType::Bytes),
    }
}

/// Whether a value is a double whose exponent bits are all set: an infinity, or no number.
pub open spec fn not_finite(v: ValueV) -> bool {
    v matches ValueV::Float64(bits) && bits & 0x7ff0_0000_0000_0000 == 0x7ff0_0000_0000_0000
}

/// Whether a value suits a field: null where the field is nullable, else a value of the declared
/// type, and of doubles the finite ones.
pub open spec fn suits(f: FieldV, v: ValueV) -> bool {
    if v is Null {
        f.nullable
    } else {
        type_of(v) == Some(f.data_type) && !not_finite(v)
    }
}

/// A field takes exactly the values that suit it: null if it is nullable, and of other values
/// those of its declared type, but no infinity and nothing that is not a number.
pub proof fn lemma_field_types(f: FieldV, v: ValueV)
    ensures
        v is Null ==> accepts(f, v) == f.nullable,
        !(v is Null) && type_of(v) != Some(f.data_type) ==> !accepts(f, v),
        !(v is Null) && type_of(v) == Some(f.data_type) && !(v is Float64) ==> accepts(f, v),
        v is Float64 && type_of(v) == Some(f.data_type) ==> accepts(f, v) == !not_finite(v),
        accepts(f, v) == suits(f, v),
{
    if let ValueV::Float64(bits) = v {
        assert(((bits / 0x10_0000_0000_0000) % 0x800 != 0x7ff) == (bits & 0x7ff0_0000_0000_0000
            != 0x7ff0_0000_0000_0000)) by (bit_vector);
    }
}

/// Every field takes some value that is not null, whatever its type.
pub proof fn lemma_every_type_has_values(f: FieldV) -> (v: ValueV)
    ensures
        accepts(f, v),
        !(v is Null),
        type_of(v) == Some(f.data_type),
{
    match f.data_type {
        DataType::Bool => ValueV::Bool(true),
        DataType::Int64 => ValueV::Int64(0),
        DataType::UInt64 => ValueV::UInt64(0),
        DataType::Float64 => ValueV::Float64(0),
        DataType::Text => ValueV::Text(Seq::empty()),
        DataType::Bytes => ValueV::Bytes(Seq::empty()),
    }
}

// ---- Assignments ----

/// Whether a schema has a field with an identifier.
pub open spec fn declares(s: SchemaV, k: u32) -> bool {
    exists|i: int| 0 <= i < s.fields.len() && (#[trigger] s.fields[i]).id == k
}

/// Whether a schema has a field with an identifier that a value suits.
pub open spec fn holds_value(s: SchemaV, k: u32, v: ValueV) -> bool {
    exists|i: int| 0 <= i < s.fields.len() && (#[trigger] s.fields[i]).id == k && suits(s.fields[i], v)
}

/// Whether every assignment is to a field of a schema, with a value that suits it.
pub open spec fn well_typed(s: SchemaV, m: Map<u32, ValueV>) -> bool {
    forall|k: u32| #[trigger] m.contains_key(k) ==> holds_value(s, k, m[k])
}

/// Whether every field without an assignment may be null.
pub open spec fn others_nullable(s: SchemaV, m: Map<u32, ValueV>) -> bool {
    forall|i: int|
        0 <= i < s.fields.len() && !m.contains_key((#[trigger] s.fields[i]).id)
            ==> s.fields[i].nullable
}

/// Whether a row is made of assignments, and null for every other field of a schema.
pub open spec fn row_of(s: SchemaV, m: Map<u32, ValueV>, row: Map<u32, ValueV>) -> bool {
    &&& forall|k: u32| #[trigger]
        row.contains_key(k) <==> m.contains_key(k) || declares(s, k)
    &&& forall|k: u32| #[trigger]
        row.contains_key(k) ==> row[k] == if m.contains_key(k) {
            m[k]
        } else {
            ValueV::Null
        }
}

/// Whether a row is made of assignments, in front of what another row has for the other fields,
/// and null for those that neither has.
pub open spec fn row_over(
    s: SchemaV,
    m: Map<u32, ValueV>,
    before: Map<u32, ValueV>,
    row: Map<u32, ValueV>,
) -> bool {
    &&& forall|k: u32| #[trigger]
        row.contains_key(k) <==> m.contains_key(k) || before.contains_key(k) || declares(s, k)
    &&& forall|k: u32| #[trigger] m.contains_key(k) ==> row[k] == m[k]
    &&& forall|k: u32| #[trigger]
        before.contains_key(k) && !m.contains_key(k) ==> row[k] == before[k]
    &&& forall|k: u32| #[trigger]
        row.contains_key(k) && !m.contains_key(k) && !before.contains_key(k) ==> row[k] is Null
}

/// The first field with an identifier is a field with it, and there is one if there is any.
proof fn lemma_find(fields: Seq<FieldV>, k: u32)
    ensures
        find_field(fields, k) is Some <==> exists|i: int|
            0 <= i < fields.len() && (#[trigger] fields[i]).id == k,
        find_field(fields, k) matches Some(f) ==> f.id == k && fields.contains(f),
    decreases fields.len(),
{
    if fields.len() > 0 {
        let front = fields.drop_last();
        lemma_find(front, k);
        if find_field(front, k) is Some {
            let i = choose|i: int| 0 <= i < front.len() && (#[trigger] front[i]).id == k;
            assert(fields[i] == front[i]);
            let f = find_field(front, k).unwrap();
            let j = choose|j: int| 0 <= j < front.len() && front[j] == f;
            assert(fields[j] == f);
        } else if fields.last().id == k {
            assert(fields[fields.len() - 1].id == k);
        } else if exists|i: int| 0 <= i < fields.len() && (#[trigger] fields[i]).id == k {
            let i = choose|i: int| 0 <= i < fields.len() && (#[trigger] fields[i]).id == k;
            assert(front[i].id == k);
        }
    }
}

/// A schema without an identifier twice has one field with an identifier.
proof fn lemma_found(s: SchemaV, i: int)
    requires
        valid_schema(s),
        0 <= i < s.fields.len(),
    ensures
        find_field(s.fields, s.fields[i].id) == Some(s.fields[i]),
{
    let k = s.fields[i].id;
    lemma_find(s.fields, k);
    let f = find_field(s.fields, k).unwrap();
    let j = choose|j: int| 0 <= j < s.fields.len() && s.fields[j] == f;
    if i < j {
        assert(s.fields[i].id != s.fields[j].id);
    } else if j < i {
        assert(s.fields[j].id != s.fields[i].id);
    }
}

proof fn lemma_taken(s: SchemaV, m: Map<u32, ValueV>)
    requires
        valid_schema(s),
    ensures
        crate::model::accepted(s.fields, m) == well_typed(s, m),
        crate::model::omissible(s.fields, m) == others_nullable(s, m),
        forall|k: u32| #[trigger] find_field(s.fields, k) is Some == declares(s, k),
{
    assert forall|k: u32| #[trigger] find_field(s.fields, k) is Some == declares(s, k) by {
        lemma_find(s.fields, k);
    }
    assert forall|k: u32| m.contains_key(k) implies (find_field(s.fields, k) is Some && accepts(
        find_field(s.fields, k).unwrap(),
        m[k],
    )) == #[trigger] holds_value(s, k, m[k]) by {
        lemma_find(s.fields, k);
        if let Some(f) = find_field(s.fields, k) {
            lemma_field_types(f, m[k]);
            let j = choose|j: int| 0 <= j < s.fields.len() && s.fields[j] == f;
            assert(s.fields[j].id == k);
        }
        if holds_value(s, k, m[k]) {
            let i = choose|i: int|
                0 <= i < s.fields.len() && (#[trigger] s.fields[i]).id == k && suits(
                    s.fields[i],
                    m[k],
                );
            lemma_found(s, i);
        }
    }
    assert forall|k: u32| #[trigger] m.contains_key(k) implies (find_field(s.fields, k) is Some
        && accepts(find_field(s.fields, k).unwrap(), m[k])) == holds_value(s, k, m[k]) by {
        assert(holds_value(s, k, m[k]) == holds_value(s, k, m[k]));
    }
    if others_nullable(s, m) {
        assert forall|k: u32|
            !m.contains_key(k) && (#[trigger] find_field(s.fields, k))
                is Some implies find_field(s.fields, k).unwrap().nullable by {
            lemma_find(s.fields, k);
            let f = find_field(s.fields, k).unwrap();
            let j = choose|j: int| 0 <= j < s.fields.len() && s.fields[j] == f;
            assert(!m.contains_key(s.fields[j].id));
        }
    }
    if crate::model::omissible(s.fields, m) {
        assert forall|i: int|
            0 <= i < s.fields.len() && !m.contains_key(
                (#[trigger] s.fields[i]).id,
            ) implies s.fields[i].nullable by {
            lemma_found(s, i);
            assert(find_field(s.fields, s.fields[i].id) is Some);
        }
    }
}

/// Assignments that must be complete come to one row: each field has what is assigned to it, and
/// null where nothing is. They are taken exactly if every assignment is to a field of the schema
/// with a value that suits it, no field is left out that must not be null, and the row takes no
/// more than 8 MiB.
pub proof fn lemma_complete_row(s: SchemaV, m: Map<u32, ValueV>, row: Map<u32, ValueV>)
    requires
        valid_schema(s),
        row_of(s, m, row),
    ensures
        normalized(s, m, true) == (if well_typed(s, m) && others_nullable(s, m) && enc_fields(
            row,
        ).len() <= 8 * 1024 * 1024 {
            Some(row)
        } else {
            None
        }),
{
    lemma_taken(s, m);
    lemma_completed(s.fields, m);
    assert(completed(s.fields, m) =~= row) by {
        assert forall|k: u32| #[trigger] completed(s.fields, m).contains_key(k)
            == row.contains_key(k) by {
            assert(find_field(s.fields, k) is Some == declares(s, k));
        }
    }
}

/// Assignments to an entity that there is are taken as they are, under the same conditions but
/// that any field may be left out.
pub proof fn lemma_partial_row(s: SchemaV, m: Map<u32, ValueV>)
    requires
        valid_schema(s),
    ensures
        normalized(s, m, false) == (if well_typed(s, m) && enc_fields(m).len() <= 8 * 1024 * 1024 {
            Some(m)
        } else {
            None
        }),
{
    lemma_taken(s, m);
}

// ---- Events ----

/// An event raises the version of its entity by one and keeps its identifier. Every field that it
/// assigns takes exactly the assigned value, every other one keeps its value, and a field of the
/// schema that has none yet becomes null. The entity is deleted from then on exactly if the event
/// is a deletion; after that no event follows.
pub proof fn lemma_event_assigns(state: EntityV, event: EventV, table: TableV)
    requires
        applied(state, event, table) is Some,
    ensures
        ({
            let next = applied(state, event, table).unwrap();
            &&& !state.deleted
            &&& event.version == state.version + 1
            &&& next.id == state.id
            &&& next.version == state.version + 1
            &&& next.schema_version == event.schema_version
            &&& next.deleted == (event.kind is Delete)
            &&& forall|k: u32| #[trigger]
                event.fields.contains_key(k) ==> next.fields.contains_key(k) && next.fields[k]
                    == event.fields[k]
            &&& forall|k: u32| #[trigger]
                state.fields.contains_key(k) && !event.fields.contains_key(k)
                    ==> next.fields.contains_key(k) && next.fields[k] == state.fields[k]
            &&& forall|k: u32| #[trigger]
                next.fields.contains_key(k) && !event.fields.contains_key(k)
                    && !state.fields.contains_key(k) ==> next.fields[k] is Null
            &&& forall|later: EventV|
                next.deleted ==> (#[trigger] applied(next, later, table)) is None
        }),
{
    let s = find_schema(table.schemas, event.schema_version).unwrap();
    let m = state.fields.union_prefer_right(event.fields);
    lemma_completed(s.fields, m);
    let next = applied(state, event, table).unwrap();
    assert forall|k: u32| #[trigger] event.fields.contains_key(k) implies next.fields.contains_key(
        k,
    ) && next.fields[k] == event.fields[k] by {
        assert(m.contains_key(k));
        assert(completed(s.fields, m).contains_key(k));
    }
    assert forall|k: u32| #[trigger]
        state.fields.contains_key(k) && !event.fields.contains_key(
            k,
        ) implies next.fields.contains_key(k) && next.fields[k] == state.fields[k] by {
        assert(m.contains_key(k));
        assert(completed(s.fields, m).contains_key(k));
    }
}

/// An event is taken exactly if it is the next one of an entity that is not deleted, it is of a
/// schema that the table has, and what it makes of the entity is a row of that schema.
pub proof fn lemma_event_taken(
    state: EntityV,
    event: EventV,
    table: TableV,
    n: int,
    row: Map<u32, ValueV>,
)
    requires
        0 <= n < table.schemas.len(),
        forall|i: int| 0 <= i < table.schemas.len() ==> (#[trigger] table.schemas[i]).version == i + 1,
        valid_schema(table.schemas[n]),
        event.schema_version == n + 1,
        row_over(table.schemas[n], event.fields, state.fields, row),
    ensures
        applied(state, event, table) is Some <==> {
            &&& !state.deleted
            &&& event.version == state.version + 1
            &&& forall|k: u32| #[trigger]
                row.contains_key(k) && (event.fields.contains_key(k) || state.fields.contains_key(k))
                    ==> holds_value(table.schemas[n], k, row[k])
            &&& forall|i: int|
                0 <= i < table.schemas[n].fields.len() && (
                #[trigger] table.schemas[n].fields[i]).nullable == false ==> {
                    let k = table.schemas[n].fields[i].id;
                    event.fields.contains_key(k) || state.fields.contains_key(k)
                }
            &&& enc_fields(row).len() <= 8 * 1024 * 1024
        },
        applied(state, event, table) matches Some(next) ==> next.fields == row,
{
    let s = table.schemas[n];
    crate::model::lemma_find_numbered(table.schemas, event.schema_version);
    let m = state.fields.union_prefer_right(event.fields);
    assert(row_of(s, m, row)) by {
        assert forall|k: u32| #[trigger] row.contains_key(k) implies row[k] == if m.contains_key(k) {
            m[k]
        } else {
            ValueV::Null
        } by {
            if event.fields.contains_key(k) {
            } else if state.fields.contains_key(k) {
            }
        }
    }
    lemma_complete_row(s, m, row);
    let typed = forall|k: u32| #[trigger]
        row.contains_key(k) && (event.fields.contains_key(k) || state.fields.contains_key(k))
            ==> holds_value(s, k, row[k]);
    assert(typed == well_typed(s, m)) by {
        if typed {
            assert forall|k: u32| #[trigger] m.contains_key(k) implies holds_value(s, k, m[k]) by {
                assert(row.contains_key(k));
            }
        }
        if well_typed(s, m) {
            assert forall|k: u32| #[trigger]
                row.contains_key(k) && (event.fields.contains_key(k) || state.fields.contains_key(
                    k,
                )) implies holds_value(s, k, row[k]) by {
                assert(m.contains_key(k));
            }
        }
    }
}

// ---- What operations do to an entity ----

/// Whether a transaction holds everything but one entity as it did.
pub open spec fn only_touches(before: WritesV, after: WritesV, key: Key) -> bool {
    &&& after.catalog == before.catalog
    &&& after.staged.contains_key(key)
    &&& forall|other: Key|
        other != key ==> (#[trigger] after.staged.contains_key(other)
            == before.staged.contains_key(other)) && (before.staged.contains_key(other)
            ==> after.staged[other] == before.staged[other])
}

/// The schema that a table has now.
pub open spec fn now_of(w: WritesV, table: u64) -> SchemaV {
    w.catalog[table].schemas.last()
}

/// A table that there is has a schema, and that one is valid and numbered by its place.
proof fn lemma_now(catalog: Map<u64, TableV>, table: u64)
    requires
        sound_catalog(catalog),
        catalog.contains_key(table),
    ensures
        catalog[table].schemas.len() > 0,
        valid_schema(catalog[table].schemas.last()),
        catalog[table].schemas.last().version == catalog[table].schemas.len(),
        forall|i: int|
            0 <= i < catalog[table].schemas.len() ==> (#[trigger] catalog[table].schemas[i]).version
                == i + 1,
        find_schema(catalog[table].schemas, catalog[table].schemas.last().version) == Some(
            catalog[table].schemas.last(),
        ),
{
    let t = catalog[table];
    assert(valid_table(t));
    let n = t.schemas.len() - 1;
    assert(valid_schema(t.schemas[n]) && t.schemas[n].version == n + 1);
    crate::model::lemma_find_numbered(t.schemas, t.schemas.last().version);
}

/// Creating an entity: where there is a table and no entity yet under the identifier, deleted or
/// not, one comes to be at version zero, not deleted, with what is assigned and null for every
/// other field, without a history. This is refused only where the table is missing, an entity
/// exists, or the assignments make no row.
pub proof fn lemma_create(
    base: StateV,
    files: Files,
    w: WritesV,
    table: u64,
    id: u64,
    fields: Map<u32, ValueV>,
    row: Map<u32, ValueV>,
)
    requires
        sound_catalog(w.catalog),
        w.catalog.contains_key(table) ==> row_of(now_of(w, table), fields, row),
    ensures
        ({
            let done = executed(base, files, w, OpV::Create(table, id, fields));
            let found = fetched(base, files, w, (table, id));
            let s = now_of(w, table);
            if !w.catalog.contains_key(table) {
                done == Err::<WritesV, _>(Fault::Missing)
            } else if found is Err {
                done == Err::<WritesV, _>(found->Err_0)
            } else if found->Ok_0 is Some {
                done == Err::<WritesV, _>(Fault::Exists)
            } else if well_typed(s, fields) && others_nullable(s, fields) && enc_fields(row).len()
                <= 8 * 1024 * 1024 {
                &&& done is Ok
                &&& only_touches(w, done->Ok_0, (table, id))
                &&& {
                    let d = done->Ok_0.staged[(table, id)];
                    &&& d.current == (EntityV {
                        id,
                        version: 0,
                        schema_version: s.version,
                        deleted: false,
                        fields: row,
                    })
                    &&& d.base == d.current
                    &&& d.events.len() == 0
                    &&& d.committed == Map::<u64, EventV>::empty()
                    &&& d.snapshots == Map::<u64, EntityV>::empty()
                    &&& d.disk is None
                }
            } else {
                done == Err::<WritesV, _>(Fault::Invalid)
            }
        }),
{
    if w.catalog.contains_key(table) {
        lemma_now(w.catalog, table);
        lemma_complete_row(now_of(w, table), fields, row);
    }
}

/// Whether an entity is another with one more event, and what that makes of its current state.
pub open spec fn one_event_more(before: DataV, after: DataV, event: EventV) -> bool {
    &&& after.base == before.base
    &&& after.committed == before.committed
    &&& after.snapshots == before.snapshots
    &&& after.disk == before.disk
    &&& after.events.len() == before.events.len() + 1
    &&& after.events.last() == event
    &&& after.events.drop_last() == before.events
    &&& event.version == before.current.version + 1
    &&& after.current.id == before.current.id
    &&& after.current.version == before.current.version + 1
    &&& after.current.schema_version == event.schema_version
}

/// Assigning to an entity: every field that is assigned holds exactly the assigned value
/// afterwards, every other field what it held, and one of the schema that held nothing null. The
/// version is one more, and one event with exactly these assignments and the number of the next
/// transaction is behind the others. No other entity and no table changes.
pub proof fn lemma_apply(
    base: StateV,
    files: Files,
    w: WritesV,
    table: u64,
    id: u64,
    fields: Map<u32, ValueV>,
)
    requires
        executed(base, files, w, OpV::Apply(table, id, fields)) is Ok,
    ensures
        ({
            let after = executed(base, files, w, OpV::Apply(table, id, fields))->Ok_0;
            let found = fetched(base, files, w, (table, id));
            let before = found->Ok_0.unwrap();
            let d = after.staged[(table, id)];
            let event = d.events.last();
            &&& w.catalog.contains_key(table)
            &&& found is Ok && found->Ok_0 is Some
            &&& !before.current.deleted
            &&& !d.current.deleted
            &&& only_touches(w, after, (table, id))
            &&& one_event_more(before, d, event)
            &&& event.kind is Apply
            &&& event.fields == fields
            &&& event.transaction == base.lsn + 1
            &&& event.schema_version == now_of(w, table).version
            &&& forall|k: u32| #[trigger]
                fields.contains_key(k) ==> d.current.fields.contains_key(k) && d.current.fields[k]
                    == fields[k]
            &&& forall|k: u32| #[trigger]
                before.current.fields.contains_key(k) && !fields.contains_key(k)
                    ==> d.current.fields.contains_key(k) && d.current.fields[k]
                    == before.current.fields[k]
            &&& forall|k: u32| #[trigger]
                d.current.fields.contains_key(k) && !fields.contains_key(k)
                    && !before.current.fields.contains_key(k) ==> d.current.fields[k] is Null
            &&& sound_catalog(w.catalog) ==> forall|k: u32| #[trigger]
                d.current.fields.contains_key(k) <==> fields.contains_key(k)
                    || before.current.fields.contains_key(k) || declares(now_of(w, table), k)
        }),
{
    let after = executed(base, files, w, OpV::Apply(table, id, fields))->Ok_0;
    let before = fetched(base, files, w, (table, id))->Ok_0.unwrap();
    let d = after.staged[(table, id)];
    let event = made_event(before, base.lsn, now_of(w, table), EventKind::Apply, fields);
    assert(d.events == before.events.push(event));
    assert(d.events.drop_last() =~= before.events);
    lemma_event_assigns(before.current, event, w.catalog[table]);
    if sound_catalog(w.catalog) {
        lemma_now(w.catalog, table);
        let now = now_of(w, table);
        let m = before.current.fields.union_prefer_right(fields);
        lemma_completed(now.fields, m);
        lemma_taken(now, m);
        assert forall|k: u32| #[trigger]
            d.current.fields.contains_key(k) <==> fields.contains_key(k)
                || before.current.fields.contains_key(k) || declares(now, k) by {
            assert(find_field(now.fields, k) is Some == declares(now, k));
            assert(m.contains_key(k) == (fields.contains_key(k)
                || before.current.fields.contains_key(k)));
        }
    }
}

/// Whether a row is owed: what is assigned suits the schema of now, what the entity holds already
/// does too, and the two together make a row that is not too long.
pub open spec fn row_owed(
    s: SchemaV,
    fields: Map<u32, ValueV>,
    held: Map<u32, ValueV>,
    row: Map<u32, ValueV>,
) -> bool {
    &&& well_typed(s, fields)
    &&& well_typed(s, held)
    &&& forall|i: int|
        0 <= i < s.fields.len() && !(#[trigger] s.fields[i]).nullable ==> fields.contains_key(
            s.fields[i].id,
        ) || held.contains_key(s.fields[i].id)
    &&& enc_fields(fields).len() <= 8 * 1024 * 1024
    &&& enc_fields(row).len() <= 8 * 1024 * 1024
}

/// Assigning is refused only for a reason: where the entity exists and is not deleted, something
/// is assigned, the numbers do not run out, and the row is owed, it is done. A missing table or
/// entity is told, and everything else is invalid.
pub proof fn lemma_apply_owed(
    base: StateV,
    files: Files,
    w: WritesV,
    table: u64,
    id: u64,
    fields: Map<u32, ValueV>,
    row: Map<u32, ValueV>,
)
    requires
        sound_catalog(w.catalog),
        w.catalog.contains_key(table),
        fetched(base, files, w, (table, id)) matches Ok(Some(d)) ==> row_over(
            now_of(w, table),
            fields,
            d.current.fields,
            row,
        ),
    ensures
        ({
            let done = executed(base, files, w, OpV::Apply(table, id, fields));
            match fetched(base, files, w, (table, id)) {
                Err(f) => done == Err::<WritesV, _>(f),
                Ok(None) => done == Err::<WritesV, _>(Fault::Missing),
                Ok(Some(d)) => {
                    &&& d.current.deleted ==> done == Err::<WritesV, _>(Fault::Invalid)
                    &&& fields == Map::<u32, ValueV>::empty() ==> done == Err::<WritesV, _>(
                        Fault::Invalid,
                    )
                    &&& !well_typed(now_of(w, table), fields) ==> done == Err::<WritesV, _>(
                        Fault::Invalid,
                    )
                    &&& !d.current.deleted && d.current.version < u64::MAX && base.lsn < u64::MAX
                        && fields != Map::<u32, ValueV>::empty() && row_owed(
                        now_of(w, table),
                        fields,
                        d.current.fields,
                        row,
                    ) ==> done is Ok && done->Ok_0.staged[(table, id)].current.fields == row
                    &&& done is Err ==> done == Err::<WritesV, _>(Fault::Invalid)
                },
            }
        }),
{
    lemma_now(w.catalog, table);
    let s = now_of(w, table);
    lemma_partial_row(s, fields);
    if let Ok(Some(d)) = fetched(base, files, w, (table, id)) {
        let event = made_event(d, base.lsn, s, EventKind::Apply, fields);
        let t = w.catalog[table];
        if d.current.version < u64::MAX {
            lemma_event_taken(d.current, event, t, t.schemas.len() - 1, row);
            if row_owed(s, fields, d.current.fields, row) {
                assert forall|k: u32| #[trigger]
                    row.contains_key(k) && (event.fields.contains_key(k)
                        || d.current.fields.contains_key(k)) implies holds_value(s, k, row[k]) by {
                    if fields.contains_key(k) {
                        assert(row[k] == fields[k]);
                    } else {
                        assert(row[k] == d.current.fields[k]);
                    }
                }
            }
        }
    }
}

/// Deleting an entity: it is deleted from then on and holds what it held; the version is one
/// more, and one event that assigns nothing is behind the others. No other entity and no table
/// changes.
pub proof fn lemma_delete(base: StateV, files: Files, w: WritesV, table: u64, id: u64)
    requires
        executed(base, files, w, OpV::Delete(table, id)) is Ok,
    ensures
        ({
            let after = executed(base, files, w, OpV::Delete(table, id))->Ok_0;
            let found = fetched(base, files, w, (table, id));
            let before = found->Ok_0.unwrap();
            let d = after.staged[(table, id)];
            let event = d.events.last();
            &&& w.catalog.contains_key(table)
            &&& found is Ok && found->Ok_0 is Some
            &&& !before.current.deleted
            &&& d.current.deleted
            &&& only_touches(w, after, (table, id))
            &&& one_event_more(before, d, event)
            &&& event.kind is Delete
            &&& event.fields == Map::<u32, ValueV>::empty()
            &&& event.transaction == base.lsn + 1
            &&& event.schema_version == now_of(w, table).version
            &&& forall|k: u32| #[trigger]
                before.current.fields.contains_key(k) ==> d.current.fields.contains_key(k)
                    && d.current.fields[k] == before.current.fields[k]
            &&& forall|k: u32| #[trigger]
                d.current.fields.contains_key(k) && !before.current.fields.contains_key(k)
                    ==> d.current.fields[k] is Null
        }),
{
    let after = executed(base, files, w, OpV::Delete(table, id))->Ok_0;
    let before = fetched(base, files, w, (table, id))->Ok_0.unwrap();
    let d = after.staged[(table, id)];
    let event = made_event(before, base.lsn, now_of(w, table), EventKind::Delete, Map::empty());
    assert(d.events == before.events.push(event));
    assert(d.events.drop_last() =~= before.events);
    lemma_event_assigns(before.current, event, w.catalog[table]);
}

/// Deleting is refused only for a reason: where the entity exists and is not deleted, the numbers
/// do not run out, and what it holds suits the schema of now, it is done.
pub proof fn lemma_delete_owed(
    base: StateV,
    files: Files,
    w: WritesV,
    table: u64,
    id: u64,
    row: Map<u32, ValueV>,
)
    requires
        sound_catalog(w.catalog),
        w.catalog.contains_key(table),
        fetched(base, files, w, (table, id)) matches Ok(Some(d)) ==> row_over(
            now_of(w, table),
            Map::empty(),
            d.current.fields,
            row,
        ),
    ensures
        ({
            let done = executed(base, files, w, OpV::Delete(table, id));
            match fetched(base, files, w, (table, id)) {
                Err(f) => done == Err::<WritesV, _>(f),
                Ok(None) => done == Err::<WritesV, _>(Fault::Missing),
                Ok(Some(d)) => {
                    &&& d.current.deleted ==> done == Err::<WritesV, _>(Fault::Invalid)
                    &&& !d.current.deleted && d.current.version < u64::MAX && base.lsn < u64::MAX
                        && well_typed(now_of(w, table), d.current.fields) && (forall|i: int|
                        0 <= i < now_of(w, table).fields.len() && !(#[trigger] now_of(
                            w,
                            table,
                        ).fields[i]).nullable ==> d.current.fields.contains_key(
                            now_of(w, table).fields[i].id,
                        )) && enc_fields(row).len() <= 8 * 1024 * 1024 ==> done is Ok
                    &&& done is Err ==> done == Err::<WritesV, _>(Fault::Invalid)
                },
            }
        }),
{
    lemma_now(w.catalog, table);
    let s = now_of(w, table);
    if let Ok(Some(d)) = fetched(base, files, w, (table, id)) {
        let event = made_event(d, base.lsn, s, EventKind::Delete, Map::empty());
        let t = w.catalog[table];
        if d.current.version < u64::MAX {
            lemma_event_taken(d.current, event, t, t.schemas.len() - 1, row);
            if well_typed(s, d.current.fields) {
                assert forall|k: u32| #[trigger]
                    row.contains_key(k) && (event.fields.contains_key(k)
                        || d.current.fields.contains_key(k)) implies holds_value(s, k, row[k]) by {
                    assert(row[k] == d.current.fields[k]);
                }
            }
        }
    }
}

/// A row that a schema takes suits it: what an entity holds after it was created, assigned to or
/// deleted is, field by field, what the schema of now allows, and no field that must not be null
/// is missing.
pub proof fn lemma_rows_suit(base: StateV, files: Files, w: WritesV, op: OpV)
    requires
        sound_catalog(w.catalog),
        op is Create || op is Apply || op is Delete,
        executed(base, files, w, op) is Ok,
    ensures
        ({
            let key = key_of_op(op).unwrap();
            let e = executed(base, files, w, op)->Ok_0.staged[key].current;
            let s = now_of(w, key.0);
            &&& e.schema_version == s.version
            &&& well_typed(s, e.fields)
            &&& forall|i: int|
                0 <= i < s.fields.len() ==> e.fields.contains_key((#[trigger] s.fields[i]).id)
            &&& forall|k: u32| #[trigger] e.fields.contains_key(k) ==> declares(s, k)
        }),
{
    let key = key_of_op(op).unwrap();
    let s = now_of(w, key.0);
    lemma_now(w.catalog, key.0);
    let e = executed(base, files, w, op)->Ok_0.staged[key].current;
    let m = match op {
        OpV::Create(_, _, fields) => fields,
        OpV::Apply(_, _, fields) => {
            lemma_partial_row(s, fields);
            fetched(base, files, w, key)->Ok_0.unwrap().current.fields.union_prefer_right(fields)
        },
        _ => fetched(base, files, w, key)->Ok_0.unwrap().current.fields.union_prefer_right(
            Map::empty(),
        ),
    };
    lemma_taken(s, m);
    lemma_completed(s.fields, m);
    assert(e.fields == completed(s.fields, m));
    assert forall|k: u32| #[trigger] e.fields.contains_key(k) implies holds_value(
        s,
        k,
        e.fields[k],
    ) && declares(s, k) by {
        if m.contains_key(k) {
            assert(holds_value(s, k, m[k]));
            let i = choose|i: int|
                0 <= i < s.fields.len() && (#[trigger] s.fields[i]).id == k && suits(
                    s.fields[i],
                    m[k],
                );
            assert(s.fields[i].id == k);
        } else {
            assert(find_field(s.fields, k) is Some);
            assert(declares(s, k));
            let i = choose|i: int| 0 <= i < s.fields.len() && (#[trigger] s.fields[i]).id == k;
            assert(s.fields[i].nullable);
        }
    }
    assert forall|i: int| 0 <= i < s.fields.len() implies e.fields.contains_key(
        (#[trigger] s.fields[i]).id,
    ) by {
        let k = s.fields[i].id;
        assert(declares(s, k));
        assert(find_field(s.fields, k) is Some);
        assert(completed(s.fields, m).contains_key(k));
    }
}

// ---- Retention, snapshots and upkeep ----

/// The version that retention of so many events leaves as the first: so many before the current
/// one, but none before the one that there was.
pub open spec fn first_kept(first: u64, last: u64, count: u64) -> int {
    if last - count > first {
        last - count
    } else {
        first as int
    }
}

/// Whether an entity is another that has given up its earliest versions: it starts from a later
/// one, keeps every state from there on and the events behind it, and tells of the versions
/// before that they are not there.
pub open spec fn shortened(d: DataV, n: DataV, files: Files, t: TableV, first: int) -> bool {
    &&& n.current == d.current
    &&& n.base.version == first
    &&& retained_events(d, files) is Ok && retained_events(n, files) is Ok
    &&& retained_events(n, files)->Ok_0 == retained_events(d, files)->Ok_0.skip(
        first - d.base.version,
    )
    &&& retained_events(n, files)->Ok_0.len() == d.current.version - first
    &&& forall|v: u64|
        first <= v <= d.current.version ==> (#[trigger] data_at(n, files, t, v, false)) is Ok
            && data_at(n, files, t, v, false) == data_at(d, files, t, v, false)
    &&& forall|v: u64, snapshots: bool|
        v < first || v > d.current.version ==> #[trigger] data_at(n, files, t, v, snapshots)
            == Err::<EntityV, _>(
            Fault::Unavailable { requested: v, first: n.base.version, last: d.current.version },
        )
}

/// Retaining the last events of an entity: exactly so many are left, or all if there are no more,
/// and every version behind the first of them reads as before. The current state stays, and no
/// other entity and no table changes. It is refused only where there is no such table or entity.
pub proof fn lemma_retain(
    base: StateV,
    files: Files,
    w: WritesV,
    table: u64,
    id: u64,
    count: u64,
)
    requires
        count <= usize::MAX,
        fetched(base, files, w, (table, id)) matches Ok(Some(d)) ==> consistent(
            d,
            files,
            w.catalog[table],
        ),
    ensures
        ({
            let done = executed(base, files, w, OpV::Retain(table, id, count));
            if !w.catalog.contains_key(table) {
                done == Err::<WritesV, _>(Fault::Missing)
            } else {
                match fetched(base, files, w, (table, id)) {
                    Err(f) => done == Err::<WritesV, _>(f),
                    Ok(None) => done == Err::<WritesV, _>(Fault::Missing),
                    Ok(Some(d)) => {
                        &&& done is Ok
                        &&& only_touches(w, done->Ok_0, (table, id))
                        &&& consistent(
                            done->Ok_0.staged[(table, id)],
                            files,
                            w.catalog[table],
                        )
                        &&& shortened(
                            d,
                            done->Ok_0.staged[(table, id)],
                            files,
                            w.catalog[table],
                            first_kept(d.base.version, d.current.version, count),
                        )
                    },
                }
            }
        }),
{
    if w.catalog.contains_key(table) {
        if let Ok(Some(d)) = fetched(base, files, w, (table, id)) {
            let t = w.catalog[table];
            lemma_retained(d, files, t, count, d.current.version);
            let n = retained(d, files, t, count)->Ok_0;
            let first = first_kept(d.base.version, d.current.version, count);
            assert(n.base.version == first);
            lemma_history(n, files, t);
            assert forall|v: u64| first <= v <= d.current.version implies (#[trigger] data_at(
                n,
                files,
                t,
                v,
                false,
            )) is Ok && data_at(n, files, t, v, false) == data_at(d, files, t, v, false) by {
                lemma_retained(d, files, t, count, v);
            }
            assert forall|v: u64, snapshots: bool|
                v < first || v > d.current.version implies #[trigger] data_at(
                n,
                files,
                t,
                v,
                snapshots,
            ) == Err::<EntityV, _>(
                Fault::Unavailable { requested: v, first: n.base.version, last: d.current.version },
            ) by {
                lemma_retained(d, files, t, count, v);
            }
        }
    }
}

/// Taking a snapshot of an entity: it is that of the current state, under its version; nothing
/// that is read of the entity changes, nor does another entity or a table.
pub proof fn lemma_snapshot(base: StateV, files: Files, w: WritesV, table: u64, id: u64)
    requires
        fetched(base, files, w, (table, id)) matches Ok(Some(d)) ==> consistent(
            d,
            files,
            w.catalog[table],
        ),
    ensures
        ({
            let done = executed(base, files, w, OpV::Snapshot(table, id));
            if !w.catalog.contains_key(table) {
                done == Err::<WritesV, _>(Fault::Missing)
            } else {
                match fetched(base, files, w, (table, id)) {
                    Err(f) => done == Err::<WritesV, _>(f),
                    Ok(None) => done == Err::<WritesV, _>(Fault::Missing),
                    Ok(Some(d)) => {
                        let n = done->Ok_0.staged[(table, id)];
                        &&& done is Ok
                        &&& only_touches(w, done->Ok_0, (table, id))
                        &&& n.current == d.current && n.base == d.base
                        &&& n.events == d.events && n.committed == d.committed && n.disk == d.disk
                        &&& n.snapshots.contains_key(d.current.version)
                            && n.snapshots[d.current.version] == d.current
                        &&& forall|v: u64|
                            v != d.current.version ==> (#[trigger] n.snapshots.contains_key(v)
                                == d.snapshots.contains_key(v)) && (d.snapshots.contains_key(v)
                                ==> n.snapshots[v] == d.snapshots[v])
                        &&& retained_events(n, files) == retained_events(d, files)
                        &&& consistent(n, files, w.catalog[table])
                        &&& forall|v: u64| #[trigger]
                            data_at(n, files, w.catalog[table], v, false) == data_at(
                                d,
                                files,
                                w.catalog[table],
                                v,
                                false,
                            )
                    },
                }
            }
        }),
{
    if w.catalog.contains_key(table) {
        if let Ok(Some(d)) = fetched(base, files, w, (table, id)) {
            let t = w.catalog[table];
            lemma_consistent(Some(d), files, base.lsn, t, OpV::Snapshot(table, id));
            let n = with_snapshot(d);
            assert forall|v: u64| #[trigger]
                data_at(n, files, t, v, false) == data_at(d, files, t, v, false) by {
                assert(from_disk(n, files, d.base, v, false) == from_disk(
                    d,
                    files,
                    d.base,
                    v,
                    false,
                ));
            }
        }
    }
}

/// Keeping an entity up after an event: with a number of events to retain, no more than these
/// are left, whatever the version and the interval of snapshots; with an interval, a snapshot is
/// there at every version that is a multiple of it. The current state stays, what is still
/// retained reads as before, and without either nothing is done.
pub proof fn lemma_upkeep(
    base: StateV,
    files: Files,
    w: WritesV,
    table: u64,
    id: u64,
    interval: u64,
    retain: Option<u64>,
)
    requires
        w.catalog.contains_key(table),
        w.staged.contains_key((table, id)),
        consistent(w.staged[(table, id)], files, w.catalog[table]),
        retain matches Some(count) ==> count <= usize::MAX,
    ensures
        ({
            let d = w.staged[(table, id)];
            let version = d.current.version;
            let ops = upkeep(version, interval, retain, (table, id));
            let done = executed_all(base, files, w, ops);
            let n = done->Ok_0.staged[(table, id)];
            let due = interval != 0 && version % interval == 0;
            &&& done is Ok
            &&& only_touches(w, done->Ok_0, (table, id))
            &&& n.current == d.current
            &&& consistent(n, files, w.catalog[table])
            &&& retain matches Some(count) ==> {
                &&& ops.len() > 0 && ops.last() == OpV::Retain(table, id, count)
                &&& shortened(
                    d,
                    n,
                    files,
                    w.catalog[table],
                    first_kept(d.base.version, d.current.version, count),
                )
                &&& retained_events(n, files)->Ok_0.len() <= count
            }
            &&& retain is None ==> n.base == d.base && n.events == d.events && n.committed
                == d.committed && retained_events(n, files) == retained_events(d, files)
            &&& due ==> n.snapshots.contains_key(version) && n.snapshots[version] == d.current
                && ops.contains(OpV::Snapshot(table, id))
            &&& !due ==> !ops.contains(OpV::Snapshot(table, id)) && (forall|v: u64| #[trigger]
                n.snapshots.contains_key(v) ==> d.snapshots.contains_key(v) && n.snapshots[v]
                    == d.snapshots[v])
            &&& forall|i: int|
                0 <= i < ops.len() ==> (#[trigger] ops[i]) == OpV::Snapshot(table, id) || (
                retain matches Some(count) && ops[i] == OpV::Retain(table, id, count))
        }),
{
    let key = (table, id);
    let d = w.staged[key];
    let t = w.catalog[table];
    let version = d.current.version;
    let ops = upkeep(version, interval, retain, key);
    let due = interval != 0 && version % interval == 0;
    let snap = OpV::Snapshot(table, id);
    lemma_snapshot(base, files, w, table, id);
    let mid = if due {
        executed(base, files, w, snap)->Ok_0
    } else {
        w
    };
    let m = mid.staged[key];
    let first = if due {
        seq![snap]
    } else {
        Seq::<OpV>::empty()
    };
    assert(executed_all(base, files, w, first) == Ok::<_, Fault>(mid)) by {
        reveal_with_fuel(executed_all, 2);
        if due {
            assert(first.drop_last() =~= Seq::empty());
            assert(first.last() == snap);
        }
    }
    lemma_history(d, files, t);
    match retain {
        None => {
            assert(ops =~= first);
            if due {
                assert(ops[0] == snap);
            }
        },
        Some(count) => {
            let op = OpV::Retain(table, id, count);
            assert(ops =~= first.push(op));
            assert(ops.drop_last() =~= first);
            assert(ops.last() == op);
            lemma_retain(base, files, mid, table, id, count);
            let n = executed(base, files, mid, op)->Ok_0.staged[key];
            lemma_retained(m, files, t, count, version);
            assert(n.snapshots == m.snapshots.restrict(Set::new(|v: u64| v >= n.base.version)));
            assert forall|v: u64|
                n.base.version <= v <= d.current.version implies (#[trigger] data_at(
                n,
                files,
                t,
                v,
                false,
            )) is Ok && data_at(n, files, t, v, false) == data_at(d, files, t, v, false) by {
                assert(data_at(m, files, t, v, false) == data_at(d, files, t, v, false));
            }
            if due {
                assert(ops[0] == snap);
            }
        },
    }
}

} // verus!
