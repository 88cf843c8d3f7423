//! That the current state of an entity is what replay of its history gives, whatever is done
//! to the entity.

use crate::commit::published;
use crate::entity::DataV;
use crate::entity::committed_between;
use crate::entity::data_at;
use crate::entity::faithful;
use crate::entity::folded;
use crate::entity::from_disk;
use crate::entity::from_memory;
use crate::entity::in_pieces;
use crate::entity::lemma_at_base;
use crate::entity::lemma_between_empty;
use crate::entity::lemma_between_split;
use crate::entity::lemma_filter_same;
use crate::entity::lemma_filter_split;
use crate::entity::lemma_folded;
use crate::entity::lemma_folded_version;
use crate::entity::lemma_from_disk_version;
use crate::entity::lemma_from_memory_id;
use crate::entity::lemma_rebased_at;
use crate::entity::lemma_sealed;
use crate::entity::orderly;
use crate::entity::produces;
use crate::entity::rebased;
use crate::entity::retained;
use crate::entity::retained_from;
use crate::entity::sealed;
use crate::error::Fault;
use crate::key::OrderedKey;
use crate::model::EntityV;
use crate::model::EventKind;
use crate::model::EventV;
use crate::model::TableV;
use crate::model::ValueV;
use crate::model::applied;
use crate::model::find_schema;
use crate::operation::OpV;
use crate::operation::key_of_op;
use crate::operation::lemma_change;
use crate::operation::sound_catalog;
use crate::partitions::index_scan;
use crate::reader::StateV;
use crate::reader::loaded_data;
use crate::reader::memory_from;
use crate::reading::advanced;
use crate::reading::indexed_event;
use crate::reading::located;
use crate::reading::replayed;
use crate::reading::started;
use crate::reading::stepped;
use crate::snapshot::RootV;
use crate::staging::WritesV;
use crate::staging::changed;
use crate::staging::created;
use crate::staging::executed;
use crate::staging::executed_all;
use crate::staging::fetched;
use crate::staging::made_event;
use crate::staging::with_snapshot;
use crate::staging::written;
use crate::storage::index::Entry;
use crate::storage::index::Key;
use crate::storage::index::Stream;
use crate::storage::index_writer::between;
use crate::storage::pager::Files;
use vstd::prelude::*;

verus! {

/// Whether the index of the stored events of an entity gives its entries in order, as an index
/// does that a checkpoint has written.
pub open spec fn listed(d: DataV, files: Files) -> bool {
    d.disk matches Some(disk) ==> exists|es: Seq<Entry>| #[trigger]
        indexed(disk.root, files, disk.table, 4, es)
}

/// Stored history whose index gives its entries may be replayed piece by piece.
pub(crate) proof fn lemma_pieces(d: DataV, files: Files)
    requires
        listed(d, files),
    ensures
        in_pieces(d, files),
{
    if let Some(disk) = d.disk {
        let es = choose|es: Seq<Entry>| #[trigger] indexed(disk.root, files, disk.table, 4, es);
        lemma_in_pieces(d, files, es);
    }
}

/// Whether an entity is consistent: its history is in order and starts from its base, the
/// current state is what replay gives, and so is every snapshot in memory.
pub open spec fn consistent(d: DataV, files: Files, table: TableV) -> bool {
    &&& orderly(d)
    &&& listed(d, files)
    &&& d.base.version <= d.current.version
    &&& d.base.id == d.current.id
    &&& d.disk matches Some(disk) ==> disk.through <= d.current.version
        && disk.root.catalog.contains_key(disk.table) && extends(
        disk.root.catalog[disk.table],
        table,
    )
    &&& forall|v: u64| #[trigger] d.committed.contains_key(v) ==> v <= d.current.version
    &&& forall|i: int|
        0 <= i < d.events.len() ==> memory_from(d) < (#[trigger] d.events[i]).version
            <= d.current.version
    &&& forall|v: u64| #[trigger]
        d.snapshots.contains_key(v) ==> d.base.version <= v <= d.current.version
    &&& data_at(d, files, table, d.current.version, false) == Ok::<_, Fault>(d.current)
    &&& faithful(d, files, table)
}

/// A new entity is consistent.
proof fn lemma_created(
    id: u64,
    schema: crate::model::SchemaV,
    fields: Map<u32, ValueV>,
    files: Files,
    table: TableV,
)
    ensures
        consistent(created(id, schema, fields), files, table),
{
    let d = created(id, schema, fields);
    assert(orderly(d)) by {
        assert(d.committed.dom() =~= Set::empty());
    }
    lemma_at_base(d, files, table);
}

/// An event behind those of an entity leaves the earlier states as they were.
pub(crate) proof fn lemma_earlier(d: DataV, n: DataV, event: EventV, files: Files, table: TableV, version: u64)
    requires
        n == (DataV { current: n.current, events: d.events.push(event), ..d }),
        n.current.version >= d.current.version,
        event.version > d.current.version,
        version <= d.current.version,
    ensures
        data_at(n, files, table, version, false) == (match data_at(d, files, table, version, false) {
            Err(Fault::Unavailable { requested, first, last }) => if version < d.base.version {
                data_at(n, files, table, version, false)
            } else {
                Err(Fault::Unavailable { requested, first, last })
            },
            x => x,
        }),
{
    if version >= d.base.version {
        assert(from_disk(n, files, d.base, version, false) == from_disk(
            d,
            files,
            d.base,
            version,
            false,
        ));
        if let Ok(s) = from_disk(d, files, d.base, version, false) {
            lemma_earlier_memory(d, n, event, s, table, version);
        }
    }
}

proof fn lemma_earlier_memory(
    d: DataV,
    n: DataV,
    event: EventV,
    s: EntityV,
    table: TableV,
    version: u64,
)
    requires
        n == (DataV { current: n.current, events: d.events.push(event), ..d }),
        event.version > version,
    ensures
        from_memory(n, s, table, version) == from_memory(d, s, table, version),
{
    if let Ok(t) = folded(s, committed_between(d.committed, s.version, version), table) {
        reveal(Seq::filter);
        assert(n.events.drop_last() =~= d.events);
        assert(n.events.filter(produces(t.version, version)) == d.events.filter(
            produces(t.version, version),
        ));
    }
}

/// An assignment or a deletion keeps an entity consistent.
proof fn lemma_written(
    d: DataV,
    files: Files,
    lsn: u64,
    table: TableV,
    kind: EventKind,
    fields: Map<u32, ValueV>,
)
    requires
        consistent(d, files, table),
        written(d, lsn, table, kind, fields) is Ok,
    ensures
        consistent(written(d, lsn, table, kind, fields)->Ok_0, files, table),
{
    let n = written(d, lsn, table, kind, fields)->Ok_0;
    let event = made_event(d, lsn, table.schemas.last(), kind, fields);
    let last = d.current.version;
    let v = n.current.version;
    assert(event.version == last + 1);
    assert(v == event.version);
    let s = from_disk(d, files, d.base, last, false)->Ok_0;
    assert(from_disk(n, files, d.base, v, false) == from_disk(d, files, d.base, last, false)) by {
        if let Some(disk) = d.disk {
            assert(disk.through <= last);
        }
    }
    lemma_from_disk_version(d, files, d.base, last);
    // What is in memory gives the current state, and then the new one.
    lemma_between_empty(d.committed, last, v);
    lemma_between_split(d.committed, s.version, last, v);
    let c = committed_between(d.committed, s.version, last);
    assert(committed_between(d.committed, s.version, v) =~= c);
    let t = folded(s, c, table)->Ok_0;
    lemma_folded_version(s, c, table);
    let q = produces(t.version, last);
    let p = produces(t.version, v);
    reveal(Seq::filter);
    assert(n.events.drop_last() =~= d.events);
    assert(n.events.last() == event);
    lemma_filter_same(d.events, q, p);
    let staged = d.events.filter(q);
    assert(folded(t, staged, table) == Ok::<_, Fault>(d.current));
    lemma_folded_version(t, staged, table);
    assert(n.events.filter(p) =~= staged + seq![event]);
    lemma_folded(t, staged, seq![event], table);
    assert(seq![event].skip(1) =~= Seq::empty());
    assert(folded(n.current, Seq::<EventV>::empty(), table) == Ok::<_, Fault>(n.current));
    assert(stepped(d.current, seq![event][0], table) == Ok::<_, Fault>(n.current));
    assert(folded(d.current, seq![event], table) == Ok::<_, Fault>(n.current));
    assert(from_memory(n, s, table, v) == Ok::<_, Fault>(n.current));
    assert(orderly(n)) by {
        assert forall|i: int, j: int| 0 <= i < j < n.events.len() implies (
        #[trigger] n.events[i]).version < (#[trigger] n.events[j]).version by {
            assert(n.events[i] == d.events[i]);
            if j < d.events.len() {
                assert(n.events[j] == d.events[j]);
            }
        }
        assert forall|w: u64, i: int| #[trigger]
            n.committed.contains_key(w) && 0 <= i < n.events.len() implies w < (
        #[trigger] n.events[i]).version by {
            if i < d.events.len() {
                assert(n.events[i] == d.events[i]);
            }
        }
    }
    assert forall|i: int| 0 <= i < n.events.len() implies (#[trigger] n.events[i]).version <= v by {
        if i < d.events.len() {
            assert(n.events[i] == d.events[i]);
        }
    }
    assert forall|w: u64| #[trigger]
        n.snapshots.contains_key(w) && n.base.version <= w <= v implies data_at(
        n,
        files,
        table,
        w,
        false,
    ) == Ok::<_, Fault>(n.snapshots[w]) by {
        assert(d.snapshots.contains_key(w));
        lemma_earlier(d, n, event, files, table, w);
    }
}

/// Retention keeps an entity consistent.
pub(crate) proof fn lemma_kept(d: DataV, files: Files, table: TableV, count: u64)
    requires
        consistent(d, files, table),
        retained(d, files, table, count) is Ok,
    ensures
        consistent(retained(d, files, table, count)->Ok_0, files, table),
{
    let from = retained_from(d, count);
    if from != d.base.version {
        lemma_pieces(d, files);
        let base = data_at(d, files, table, from, false)->Ok_0;
        let n = rebased(d, base);
        let s1 = from_disk(d, files, d.base, from, false)->Ok_0;
        lemma_from_disk_version(d, files, d.base, from);
        lemma_from_memory_id(d, s1, table, from);
        lemma_rebased_at(d, files, table, count, d.current.version);
        assert(orderly(n)) by {
            assert(n.committed.dom().subset_of(d.committed.dom()));
            vstd::set_lib::lemma_len_subset(n.committed.dom(), d.committed.dom());
            lemma_filter_order(d.events, |e: EventV| e.version > base.version);
            crate::entity::lemma_filter_member(d.events, |e: EventV| e.version > base.version);
            assert forall|v: u64, i: int| #[trigger]
                n.committed.contains_key(v) && 0 <= i < n.events.len() implies v < (
            #[trigger] n.events[i]).version by {
                let k = choose|k: int|
                    0 <= k < d.events.len() && #[trigger] d.events[k] == n.events[i];
                assert(d.committed.contains_key(v));
            }
        }
        crate::entity::lemma_filter_member(d.events, |e: EventV| e.version > base.version);
        assert forall|i: int| 0 <= i < n.events.len() implies (#[trigger] n.events[i]).version
            <= n.current.version by {
            let k = choose|k: int| 0 <= k < d.events.len() && #[trigger] d.events[k] == n.events[i];
        }
        assert forall|v: u64| #[trigger]
            n.snapshots.contains_key(v) && n.base.version <= v <= n.current.version implies data_at(
            n,
            files,
            table,
            v,
            false,
        ) == Ok::<_, Fault>(n.snapshots[v]) by {
            assert(d.snapshots.contains_key(v));
            lemma_rebased_at(d, files, table, count, v);
        }
    }
}

proof fn lemma_filter_order(s: Seq<EventV>, p: spec_fn(EventV) -> bool)
    requires
        forall|i: int, j: int|
            0 <= i < j < s.len() ==> (#[trigger] s[i]).version < (#[trigger] s[j]).version,
    ensures
        forall|i: int, j: int|
            0 <= i < j < s.filter(p).len() ==> (#[trigger] s.filter(p)[i]).version < (
            #[trigger] s.filter(p)[j]).version,
    decreases s.len(),
{
    reveal(Seq::filter);
    if s.len() > 0 {
        let t = s.drop_last();
        assert forall|i: int, j: int| 0 <= i < j < t.len() implies (#[trigger] t[i]).version < (
        #[trigger] t[j]).version by {
            assert(t[i] == s[i] && t[j] == s[j]);
        }
        lemma_filter_order(t, p);
        crate::entity::lemma_filter_member(t, p);
        assert forall|i: int, j: int| 0 <= i < j < s.filter(p).len() implies (
        #[trigger] s.filter(p)[i]).version < (#[trigger] s.filter(p)[j]).version by {
            if j == t.filter(p).len() {
                let k = choose|k: int| 0 <= k < t.len() && #[trigger] t[k] == t.filter(p)[i];
                assert(s[k].version < s[s.len() - 1].version);
            } else {
                assert(t.filter(p)[i].version < t.filter(p)[j].version);
            }
        }
    }
}

/// The current state is what replay gives, whatever is done to an entity: every operation on a
/// consistent entity, or on none, leaves a consistent one.
pub proof fn lemma_consistent(d: Option<DataV>, files: Files, lsn: u64, table: TableV, op: OpV)
    requires
        d matches Some(d) ==> consistent(d, files, table),
        changed(d, files, lsn, table, op) is Ok,
    ensures
        consistent(changed(d, files, lsn, table, op)->Ok_0, files, table),
{
    let schema = table.schemas.last();
    match op {
        OpV::Create(_, id, fields) => {
            let fields = crate::model::normalized(schema, fields, true).unwrap();
            lemma_created(id, schema, fields, files, table);
        },
        OpV::Apply(_, _, fields) => {
            let fields = crate::model::normalized(schema, fields, false).unwrap();
            lemma_written(d.unwrap(), files, lsn, table, EventKind::Apply, fields);
        },
        OpV::Delete(_, _) => {
            lemma_written(d.unwrap(), files, lsn, table, EventKind::Delete, Map::empty());
        },
        OpV::Retain(_, _, count) => {
            lemma_kept(d.unwrap(), files, table, count);
        },
        _ => {
            let d = d.unwrap();
            let n = with_snapshot(d);
            assert forall|v: u64| n.base.version <= v <= n.current.version implies #[trigger] data_at(
                n,
                files,
                table,
                v,
                false,
            ) == data_at(d, files, table, v, false) by {
                assert(from_disk(n, files, d.base, v, false) == from_disk(
                    d,
                    files,
                    d.base,
                    v,
                    false,
                ));
            }
                    assert(orderly(n));
        },
    }
}

/// Committing the staged events of a consistent entity leaves it consistent.
pub proof fn lemma_committed(d: DataV, files: Files, table: TableV)
    requires
        consistent(d, files, table),
    ensures
        consistent(sealed(d), files, table),
{
    let n = sealed(d);
    lemma_sealed(d, files, table, d.current.version, false);
    crate::entity::lemma_sealed_versions(d);
    assert forall|v: u64| #[trigger]
        n.snapshots.contains_key(v) && n.base.version <= v <= n.current.version implies data_at(
        n,
        files,
        table,
        v,
        false,
    ) == Ok::<_, Fault>(n.snapshots[v]) by {
        assert(d.snapshots.contains_key(v));
        lemma_sealed(d, files, table, v, false);
    }
}

// ---- Stored history ----

/// Whether every scan of an index of a manifest gives those of some entries that lie between
/// its ends.
pub open spec fn indexed(r: RootV, files: Files, table: u64, kind: u8, es: Seq<Entry>) -> bool {
    &&& forall|i: int, j: int|
        0 <= i < j < es.len() ==> (#[trigger] es[i]).0.before((#[trigger] es[j]).0)
    &&& forall|lower: Key, upper: Key| #[trigger]
        index_scan(r, files, table, kind, lower, upper) == (Stream {
            items: es.filter(between(lower, upper)),
            sound: true,
        })
}

proof fn lemma_replayed_both(
    r: RootV,
    files: Files,
    table: u64,
    id: u64,
    state: EntityV,
    a: Seq<Entry>,
    b: Seq<Entry>,
)
    ensures
        replayed(r, files, table, id, state, Stream { items: a + b, sound: true }) == (match replayed(
            r,
            files,
            table,
            id,
            state,
            Stream { items: a, sound: true },
        ) {
            Err(f) => Err(f),
            Ok(s) => replayed(r, files, table, id, s, Stream { items: b, sound: true }),
        }),
    decreases a.len(),
{
    if a.len() == 0 {
        assert(a + b =~= b);
    } else {
        assert((a + b)[0] == a[0]);
        assert((a + b).skip(1) =~= a.skip(1) + b);
        if let Some(event) = indexed_event(r, files, table, id, a[0]) {
            if let Ok(next) = stepped(state, event, r.catalog[table]) {
                lemma_replayed_both(r, files, table, id, next, a.skip(1), b);
            }
        }
    }
}

/// Entries of an index that gives them may be replayed piece by piece.
proof fn lemma_in_pieces(d: DataV, files: Files, es: Seq<Entry>)
    requires
        d.disk matches Some(disk) ==> indexed(disk.root, files, disk.table, 4, es),
    ensures
        in_pieces(d, files),
{
    if let Some(disk) = d.disk {
        let id = d.base.id;
        let (r, t) = (disk.root, disk.table);
        let step = |first: EntityV, to: u64| advanced(r, files, t, id, first, to, false);
        reveal(started);
        assert forall|first: EntityV, b: u64, c: u64|
            first.version <= b <= c <= disk.through && (#[trigger] step(first, b)) is Ok implies step(
            step(first, b)->Ok_0,
            c,
        ) == #[trigger] step(first, c) by {
            if first.version < b && b < c {
                let mid = step(first, b)->Ok_0;
                let low = (id, (first.version + 1) as u64);
                let (x, y, z) = (
                    between(low, (id, b)),
                    between((id, (b + 1) as u64), (id, c)),
                    between(low, (id, c)),
                );
                assert forall|e: Entry| #[trigger] z(e) == (x(e) || y(e)) by {
                }
                assert forall|e: Entry| !(#[trigger] x(e) && y(e)) by {
                }
                assert forall|i: int, j: int|
                    0 <= i < j < es.len() && y(#[trigger] es[i]) implies !x(#[trigger] es[j]) by {
                    assert(es[i].0.before(es[j].0));
                }
                lemma_filter_split(es, x, y, z);
                lemma_replayed_both(r, files, t, id, first, es.filter(x), es.filter(y));
            }
        }
    }
}

// ---- Schema changes ----

/// A table that keeps the schemas of another, and may have more.
pub open spec fn extends(t: TableV, u: TableV) -> bool {
    u.schemas.len() >= t.schemas.len() && u.schemas.take(t.schemas.len() as int) == t.schemas
}

proof fn lemma_schema_found(a: Seq<crate::model::SchemaV>, b: Seq<crate::model::SchemaV>, version: u64)
    requires
        a.len() <= b.len(),
        b.take(a.len() as int) == a,
        find_schema(a, version) is Some,
    ensures
        find_schema(b, version) == find_schema(a, version),
    decreases b.len() - a.len(),
{
    if a.len() < b.len() {
        assert(b.drop_last().take(a.len() as int) =~= a);
        lemma_schema_found(a, b.drop_last(), version);
    } else {
        assert(a =~= b);
    }
}

pub(crate) proof fn lemma_folded_later(state: EntityV, events: Seq<EventV>, t: TableV, u: TableV)
    requires
        extends(t, u),
        folded(state, events, t) is Ok,
    ensures
        folded(state, events, u) == folded(state, events, t),
    decreases events.len(),
{
    if events.len() > 0 {
        lemma_schema_found(t.schemas, u.schemas, events[0].schema_version);
        assert(applied(state, events[0], u) == applied(state, events[0], t));
        let next = stepped(state, events[0], t)->Ok_0;
        lemma_folded_later(next, events.skip(1), t, u);
    }
}

/// A later schema changes no state that was read under an earlier one.
pub proof fn lemma_later_schema(
    d: DataV,
    files: Files,
    t: TableV,
    u: TableV,
    version: u64,
    snapshots: bool,
)
    requires
        extends(t, u),
        data_at(d, files, t, version, snapshots) is Ok,
    ensures
        data_at(d, files, u, version, snapshots) == data_at(d, files, t, version, snapshots),
{
    let first = if snapshots {
        crate::entity::nearest(d, version)
    } else {
        d.base
    };
    let s = from_disk(d, files, first, version, snapshots)->Ok_0;
    let c = committed_between(d.committed, s.version, version);
    lemma_folded_later(s, c, t, u);
    let m = folded(s, c, t)->Ok_0;
    lemma_folded_later(m, d.events.filter(produces(m.version, version)), t, u);
}

pub(crate) proof fn lemma_consistent_later(d: DataV, files: Files, t: TableV, u: TableV)
    requires
        consistent(d, files, t),
        extends(t, u),
    ensures
        consistent(d, files, u),
{
    lemma_later_schema(d, files, t, u, d.current.version, false);
    if let Some(disk) = d.disk {
        lemma_extends_twice(disk.root.catalog[disk.table], t, u);
    }
    assert forall|v: u64| #[trigger]
        d.snapshots.contains_key(v) && d.base.version <= v <= d.current.version implies data_at(
        d,
        files,
        u,
        v,
        false,
    ) == Ok::<_, Fault>(d.snapshots[v]) by {
        lemma_later_schema(d, files, t, u, v, false);
    }
}

// ---- Transactions ----

/// Whether every entity that a transaction has staged is consistent under its table.
pub open spec fn staged_consistent(w: WritesV, files: Files) -> bool {
    forall|k: Key| #[trigger]
        w.staged.contains_key(k) ==> w.catalog.contains_key(k.0) && consistent(
            w.staged[k],
            files,
            w.catalog[k.0],
        ) && w.staged[k].base.id == k.1
}

/// Whether every entity of a committed view has its identifier and is consistent under its
/// table, the catalog is sound, and nothing stands in a table that it lacks.
pub open spec fn all_consistent(s: StateV, files: Files) -> bool {
    &&& sound_catalog(s.catalog)
    &&& forall|t: u64| #[trigger] s.root.catalog.contains_key(t) ==> s.catalog.contains_key(t)
    &&& forall|k: Key| #[trigger] s.overlay.contains_key(k) ==> s.catalog.contains_key(k.0)
    &&& forall|table: u64, id: u64|
        s.catalog.contains_key(table) && (#[trigger] loaded_data(s, files, table, id)) is Ok
            && loaded_data(s, files, table, id)->Ok_0 is Some ==> consistent(
            loaded_data(s, files, table, id)->Ok_0.unwrap(),
            files,
            s.catalog[table],
        ) && loaded_data(s, files, table, id)->Ok_0.unwrap().base.id == id
}

/// A view without tables is consistent.
pub proof fn lemma_none_consistent(s: StateV, files: Files)
    requires
        s.catalog == Map::<u64, TableV>::empty(),
        s.root.catalog == Map::<u64, TableV>::empty(),
        s.overlay == Map::<Key, DataV>::empty(),
    ensures
        all_consistent(s, files),
{
}

/// Whether a catalog has the tables of another, with their schemas and perhaps more.
pub open spec fn later_catalog(a: Map<u64, TableV>, b: Map<u64, TableV>) -> bool {
    forall|t: u64| #[trigger] a.contains_key(t) ==> b.contains_key(t) && extends(a[t], b[t])
}

/// Every operation of a transaction over a consistent view leaves what it has staged
/// consistent, and no table loses a schema.
pub proof fn lemma_transaction(base: StateV, files: Files, w: WritesV, ops: Seq<OpV>)
    requires
        all_consistent(base, files),
        staged_consistent(w, files),
        sound_catalog(w.catalog),
        later_catalog(base.catalog, w.catalog),
        executed_all(base, files, w, ops) is Ok,
    ensures
        ({
            let n = executed_all(base, files, w, ops)->Ok_0;
            &&& staged_consistent(n, files)
            &&& sound_catalog(n.catalog)
            &&& later_catalog(base.catalog, n.catalog)
        }),
    decreases ops.len(),
{
    if ops.len() > 0 {
        lemma_transaction(base, files, w, ops.drop_last());
        let m = executed_all(base, files, w, ops.drop_last())->Ok_0;
        let op = ops.last();
        let n = executed(base, files, m, op)->Ok_0;
        match key_of_op(op) {
            None => {
                let t = op->Table_0;
                lemma_change(m.catalog, t);
                assert forall|k: Key| #[trigger] n.staged.contains_key(k) implies n.catalog.contains_key(
                    k.0,
                ) && consistent(n.staged[k], files, n.catalog[k.0]) && n.staged[k].base.id == k.1 by {
                    assert(m.staged.contains_key(k));
                    if k.0 == t.id {
                        lemma_consistent_later(m.staged[k], files, m.catalog[k.0], t);
                    }
                }
                assert forall|x: u64| #[trigger] base.catalog.contains_key(
                    x,
                ) implies n.catalog.contains_key(x) && extends(base.catalog[x], n.catalog[x]) by {
                    assert(extends(base.catalog[x], m.catalog[x]));
                    if x == t.id {
                        lemma_extends_twice(base.catalog[x], m.catalog[x], t);
                    }
                }
            },
            Some(key) => {
                let table = m.catalog[key.0];
                let d = fetched(base, files, m, key)->Ok_0;
                if !m.staged.contains_key(key) && base.catalog.contains_key(key.0) {
                    assert(loaded_data(base, files, key.0, key.1) == fetched(base, files, m, key));
                    if let Some(e) = d {
                        lemma_consistent_later(e, files, base.catalog[key.0], table);
                    }
                }
                lemma_consistent(d, files, base.lsn, table, op);
                assert forall|k: Key| #[trigger] n.staged.contains_key(k) implies n.catalog.contains_key(
                    k.0,
                ) && consistent(n.staged[k], files, n.catalog[k.0]) && n.staged[k].base.id == k.1 by {
                    if k != key {
                        assert(m.staged.contains_key(k));
                    }
                }
            },
        }
    }
}

pub(crate) proof fn lemma_extends_twice(a: TableV, b: TableV, c: TableV)
    requires
        extends(a, b),
        extends(b, c),
    ensures
        extends(a, c),
{
    let n = a.schemas.len() as int;
    assert(c.schemas.take(n) =~= c.schemas.take(b.schemas.len() as int).take(n));
}

/// Committing a transaction over a consistent view leaves a consistent view: the current state
/// of every entity is what replay of its history gives.
pub proof fn lemma_published(base: StateV, files: Files, ops: Seq<OpV>, lsn: u64)
    requires
        all_consistent(base, files),
        executed_all(
            base,
            files,
            (WritesV { catalog: base.catalog, staged: Map::empty() }),
            ops,
        ) is Ok,
    ensures
        ({
            let start = WritesV { catalog: base.catalog, staged: Map::empty() };
            let w = executed_all(base, files, start, ops)->Ok_0;
            all_consistent(published(base, w, lsn), files)
        }),
{
    let start = WritesV { catalog: base.catalog, staged: Map::empty() };
    assert forall|x: u64| #[trigger] base.catalog.contains_key(x) implies extends(
        base.catalog[x],
        base.catalog[x],
    ) by {
        let schemas = base.catalog[x].schemas;
        assert(schemas.take(schemas.len() as int) =~= schemas);
    }
    lemma_transaction(base, files, start, ops);
    let w = executed_all(base, files, start, ops)->Ok_0;
    let s = published(base, w, lsn);
    assert forall|k: Key| #[trigger] s.overlay.contains_key(k) implies s.catalog.contains_key(k.0) by {
        if w.staged.contains_key(k) {
            assert(w.catalog.contains_key(k.0));
        } else {
            assert(base.overlay.contains_key(k));
            assert(base.catalog.contains_key(k.0));
        }
    }
    assert forall|table: u64, id: u64|
        s.catalog.contains_key(table) && (#[trigger] loaded_data(s, files, table, id)) is Ok
            && loaded_data(s, files, table, id)->Ok_0 is Some implies consistent(
        loaded_data(s, files, table, id)->Ok_0.unwrap(),
        files,
        s.catalog[table],
    ) && loaded_data(s, files, table, id)->Ok_0.unwrap().base.id == id by {
        let k = (table, id);
        if w.staged.contains_key(k) {
            lemma_committed(w.staged[k], files, w.catalog[table]);
            assert(s.overlay[k] == sealed(w.staged[k]));
        } else {
            if !base.catalog.contains_key(table) {
                assert(!base.overlay.contains_key(k));
                assert(!base.root.catalog.contains_key(table));
                reveal(located);
            }
            assert(loaded_data(base, files, table, id) == loaded_data(s, files, table, id));
            let d = loaded_data(base, files, table, id)->Ok_0.unwrap();
            lemma_consistent_later(d, files, base.catalog[table], s.catalog[table]);
        }
    }
}

} // verus!
