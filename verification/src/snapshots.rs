//! Stored snapshots through a checkpoint: each is kept, and a read that starts from one gives
//! what full replay gives.

use crate::checkpoint::Checkpoint;
use crate::checkpoint::bucket_end;
use crate::checkpoint::kept_whole;
use crate::checkpoint::work_all;
use crate::checkpoint::work_items;
use crate::checkpoint::work_root;
use crate::checkpoint::works_items;
use crate::commit::published;
use crate::consistency::all_consistent;
use crate::consistency::consistent;
use crate::consistency::extends;
use crate::consistency::indexed;
use crate::consistency::later_catalog;
use crate::consistency::lemma_consistent;
use crate::consistency::lemma_consistent_later;
use crate::consistency::lemma_earlier;
use crate::consistency::lemma_later_schema;
use crate::consistency::lemma_transaction;
use crate::consistency::staged_consistent;
use crate::copying::Copying;
use crate::copying::StepV;
use crate::copying::entry_step;
use crate::copying::entry_steps;
use crate::copying::intact;
use crate::copying::kind_parts;
use crate::copying::kind_steps;
use crate::copying::part_steps;
use crate::copying::parts_steps;
use crate::entity::DataV;
use crate::entity::data_at;
use crate::entity::from_disk;
use crate::entity::lemma_at_base;
use crate::entity::lemma_filter_member;
use crate::entity::lemma_sealed;
use crate::entity::sealed;
use crate::entity::stored_data;
use crate::error::Fault;
use crate::indexes::built;
use crate::indexes::gives;
use crate::installing::held;
use crate::installing::lemma_held_is_read;
use crate::installing::lemma_stored_at;
use crate::keeping::carried_range;
use crate::keeping::carries;
use crate::keeping::history_taken_up;
use crate::keeping::lemma_all_steps;
use crate::keeping::lemma_both_contain;
use crate::keeping::lemma_entry_steps_has;
use crate::keeping::lemma_given;
use crate::keeping::lemma_has;
use crate::keeping::lemma_length;
use crate::keeping::lemma_parts_steps_has;
use crate::keeping::lemma_snapshot_is_read;
use crate::keeping::lemma_work_id;
use crate::keeping::lemma_work_of;
use crate::keeping::lemma_worked;
use crate::keeping::steps_of;
use crate::keeping::taken_up;
use crate::key::OrderedKey;
use crate::key::increasing;
use crate::key::lemma_listing;
use crate::key::listing;
use crate::key::lists;
use crate::model::EntityV;
use crate::model::EventKind;
use crate::model::TableV;
use crate::operation::OpV;
use crate::operation::key_of_op;
use crate::operation::lemma_change;
use crate::operation::sound_catalog;
use crate::partitions::PartV;
use crate::partitions::Route;
use crate::partitions::between_routes;
use crate::partitions::floor_over;
use crate::partitions::index_floor;
use crate::partitions::index_lookup;
use crate::partitions::lemma_bucket_order;
use crate::partitions::route_of;
use crate::partitions::tree_of;
use crate::reader::StateV;
use crate::reader::loaded_data;
use crate::reading::located;
use crate::reading::snapshot_in;
use crate::reading::started;
use crate::record::encodable_fields;
use crate::snapshot::RootV;
use crate::staging::WritesV;
use crate::staging::changed;
use crate::staging::executed;
use crate::staging::executed_all;
use crate::staging::fetched;
use crate::staging::made_event;
use crate::storage::index::Entry;
use crate::storage::index::Key;
use crate::storage::index::Stream;
use crate::storage::index::Value;
use crate::storage::index::floor_entry_of;
use crate::storage::index::lookup_of;
use crate::storage::index::scan_of;
use crate::storage::index_writer::between;
use crate::storage::pager::FileId;
use crate::storage::pager::Files;
use crate::table_writer::Item;
use crate::table_writer::TableOutput;
use crate::table_writer::TableWriter;
use crate::table_writer::added;
use crate::table_writer::heap_file;
use crate::table_writer::history_root;
use crate::table_writer::kept_states;
use crate::table_writer::lemma_adopted_from;
use crate::table_writer::lemma_filed_from;
use crate::table_writer::lemma_found;
use crate::table_writer::lemma_kept_item;
use crate::table_writer::lemma_remembered;
use crate::table_writer::lemma_sequence_from;
use crate::table_writer::lemma_snapshot_kept;
use crate::table_writer::link_file;
use crate::table_writer::moved_items;
use crate::table_writer::moved_part;
use crate::table_writer::needed;
use crate::table_writer::range_parts;
use crate::table_writer::recorded;
use crate::table_writer::source;
use crate::table_writer::step_item;
use crate::table_writer::step_items;
use crate::versions::lemma_every_version;
use crate::versions::lemma_retained;
use crate::versions::stored_faithful;
use crate::walks::gives_back;
use crate::walks::lemma_filter_has;
use crate::walks::lemma_filter_order;
use vstd::prelude::*;

verus! {

// ---- Sequence numbers ----

/// Whether two manifests give the generations that both name the same sequence numbers.
pub open spec fn same_sequences(a: RootV, b: RootV) -> bool {
    forall|g: u64| #[trigger]
        a.history_generations.contains_key(g) && b.history_generations.contains_key(g)
            ==> a.history_generations[g] == b.history_generations[g]
}

/// Whether the manifests that the items of a writer were taken over from agree on the sequence
/// numbers of generations.
pub open spec fn sources_agree(w: TableWriter) -> bool {
    forall|i: int, j: int|
        0 <= i < w.journal().len() && 0 <= j < w.journal().len() ==> same_sequences(
            source((#[trigger] w.journal()[i]).0),
            source((#[trigger] w.journal()[j]).0),
        )
}

/// A writer gives a generation that an item leads to the sequence number that it has in the
/// manifest that the item was taken over from.
pub proof fn lemma_same_sequence(w: TableWriter, n: int, f: FileId)
    requires
        w.sound(),
        recorded(w),
        sources_agree(w),
        0 <= n < w.journal().len(),
        needed(w.place().0, w.journal()[n].0)(f),
        source(w.journal()[n].0).history_generations.contains_key(f.generation),
    ensures
        w.sequences().contains_key(f.generation),
        w.sequences()[f.generation] == source(w.journal()[n].0).history_generations[f.generation],
{
    lemma_kept_item(w, n);
    lemma_remembered(w);
    assert(w.remembered().contains_key(f));
    let (m, _) = lemma_sequence_from(w, f.generation);
    assert(m >= 0);
    assert(same_sequences(source(w.journal()[m].0), source(w.journal()[n].0)));
}

// ---- Snapshots are kept ----

/// Whether a snapshot is stored under its entity and version.
pub open spec fn snapshot_stored(r: RootV, files: Files, table: u64, state: EntityV) -> bool {
    index_lookup(r, files, table, 5, (state.id, state.version)) matches Some(Some(v))
        && snapshot_in(r, files, table, v, state.id) == Some(state)
}

/// The steps that carry history over leave out no snapshot between the versions that are wanted:
/// its partition is taken over, or it is linked to, or it is written anew, or memory holds one of
/// its version.
proof fn lemma_steps_cover_snapshots(
    c: Copying,
    r: RootV,
    files: Files,
    id: u64,
    d: Option<DataV>,
    base: u64,
    last: u64,
    es: Seq<Entry>,
    v: u64,
    x: Value,
)
    requires
        kind_steps(c, r, files, id, 5, d, base, last) is Ok,
        base <= v <= last,
        r.partitions.dom().finite(),
        r.partitions.contains_key(route_of(c.table, 5, (id, v))),
        gives_back(
            files,
            route_of(c.table, 5, (id, v)),
            r.partitions[route_of(c.table, 5, (id, v))],
            es,
        ),
        es.contains(((id, v), x)),
    ensures
        ({
            let steps = kind_steps(c, r, files, id, 5, d, base, last)->Ok_0;
            ||| steps.contains(StepV::Reuse(route_of(c.table, 5, (id, v))))
            ||| steps.contains(StepV::SnapshotLink((id, v), x))
            ||| snapshot_in(r, files, c.table, x, id) matches Some(state) && steps.contains(
                StepV::Snapshot(state),
            )
            ||| d is Some && d.unwrap().snapshots.contains_key(v)
        }),
{
    let at = route_of(c.table, 5, (id, v));
    let p = r.partitions[at];
    let l = listing(r.partitions);
    let q = between_routes(route_of(c.table, 5, (id, base)), route_of(c.table, 5, (id, last)));
    let parts = kind_parts(c, r, id, 5, base, last);
    let steps = kind_steps(c, r, files, id, 5, d, base, last)->Ok_0;
    lemma_listing(r.partitions);
    reveal(lists);
    let j = choose|j: int| 0 <= j < l.len() && (#[trigger] l[j]).0 == at;
    assert(l[j] == (at, p));
    lemma_bucket_order(5, (id, base), (id, v));
    lemma_bucket_order(5, (id, v), (id, last));
    assert(q(l[j]));
    lemma_filter_has(l, q, j);
    let k = choose|k: int| 0 <= k < parts.len() && parts[k] == l[j];
    lemma_parts_steps_has(c, r, files, id, 5, d, base, last, parts, k);
    let mine = part_steps(c, r, files, id, 5, d, base, last, (at, p))->Ok_0;
    if intact(c, 5, d, base, last, at, p) {
        assert(mine[0] == StepV::Reuse(at));
        assert(mine.contains(StepV::Reuse(at)));
    } else if !(d is Some && d.unwrap().snapshots.contains_key(v)) {
        reveal(gives);
        let entries = scan_of(tree_of(files, p), p.lsn, (id, base), (id, last)).unwrap();
        let e = ((id, v), x);
        let m = choose|m: int| 0 <= m < es.len() && es[m] == e;
        lemma_filter_has(es, between((id, base), (id, last)), m);
        let n = choose|n: int| 0 <= n < entries.items.len() && entries.items[n] == e;
        lemma_entry_steps_has(c, r, files, id, 5, d, entries, n);
        let one = entry_step(c, r, files, id, 5, d, e)->Ok_0;
        assert(one.contains(one[0]));
        assert(mine.contains(one[0]));
        assert(steps.contains(one[0]));
    }
}

/// A checkpoint loses no stored snapshot of an entity that it works on: each that is retained is
/// stored under its version through the manifest that the checkpoint makes, whether its partition
/// is taken over, its place linked to, or its record written anew, unless memory holds one of
/// that version, which is written in its place.
pub proof fn lemma_stored_snapshot_is_kept(
    c: Copying,
    slots: Seq<Option<u8>>,
    s: StateV,
    files: Files,
    quotas: Seq<u64>,
    entries: Seq<(u64, Option<Value>)>,
    a: TableWriter,
    b: TableWriter,
    w: TableWriter,
    out: TableOutput,
    r: RootV,
    i: int,
    es: Seq<Entry>,
    x: Value,
    state: EntityV,
)
    requires
        work_all(c, slots, s, files, quotas, entries) is Ok,
        0 <= i < entries.len(),
        added(
            a,
            b,
            works_items(s.root, work_all(c, slots, s, files, quotas, entries)->Ok_0.works),
        ),
        b.journal().is_prefix_of(w.journal()),
        w.place().0 == c.table,
        taken_up(w, out, r, files),
        history_taken_up(w, out, r, files),
        recorded(w),
        sources_agree(w),
        encodable_fields(state.fields),
        ({
            let work = work_all(c, slots, s, files, quotas, entries)->Ok_0.works[i];
            let (d, base, last) = carried_range(work);
            let before = work_root(s.root, work);
            let at = route_of(c.table, 5, (entries[i].0, state.version));
            let p = before.partitions[at];
            &&& carries(work) && base <= state.version <= last
            &&& before.partitions.dom().finite()
            &&& before.partitions.contains_key(at)
            &&& p.file.kind == 5
            &&& gives_back(files, at, p, es)
            &&& es.contains(((entries[i].0, state.version), x))
            &&& p.dependencies.contains_key(link_file(c.table, 5, x))
            &&& snapshot_in(before, files, c.table, x, entries[i].0) == Some(state)
            &&& d is Some ==> !d.unwrap().snapshots.contains_key(state.version)
        }),
    ensures
        snapshot_stored(r, files, c.table, state),
{
    let works = work_all(c, slots, s, files, quotas, entries)->Ok_0.works;
    let work = works[i];
    let id = entries[i].0;
    let (d, base, last) = carried_range(work);
    let before = work_root(s.root, work);
    let v = state.version;
    let at = route_of(c.table, 5, (id, v));
    assert(state.id == id) by {
        reveal(snapshot_in);
    }
    lemma_all_steps(c, slots, s, files, quotas, entries, i);
    lemma_length(c, slots, s, files, quotas, entries);
    lemma_work_id(c, slots, s, files, quotas, entries, i);
    let steps = steps_of(work);
    let front = kind_steps(c, before, files, id, 5, d, base, last)->Ok_0;
    let rest = kind_steps(c, before, files, id, 4, d, base, last)->Ok_0;
    assert(steps == front + rest);
    lemma_both_contain(front, rest);
    lemma_steps_cover_snapshots(c, before, files, id, d, base, last, es, v, x);
    let step = if front.contains(StepV::Reuse(at)) {
        StepV::Reuse(at)
    } else if front.contains(StepV::SnapshotLink((id, v), x)) {
        StepV::SnapshotLink((id, v), x)
    } else {
        StepV::Snapshot(state)
    };
    assert(steps.contains(step));
    let k = choose|k: int| 0 <= k < steps.len() && steps[k] == step;
    let items = work_items(s.root, work);
    assert(items[1 + k] == step_item(before, id, step)) by {
        assert(step_items(before, id, steps)[k] == step_item(before, id, steps[k]));
    }
    let n = lemma_worked(s.root, works, a, b, w, i, 1 + k);
    lemma_kept_item(w, n);
    assert(before.history_generations.contains_key(x.0)) by {
        reveal(snapshot_in);
    }
    match step {
        StepV::Reuse(_) => {
            assert(w.index().lane(5).finished().contains_key(at));
            assert(r.partitions[at] == before.partitions[at]);
            lemma_given(files, at, before.partitions[at], es, (id, v), x);
            lemma_same_sequence(w, n, link_file(c.table, 5, x));
            lemma_same_snapshot(before, r, files, c.table, x, id);
            assert(index_lookup(r, files, c.table, 5, (id, v)) == Some(Some(x))) by {
                reveal(index_lookup);
            }
        },
        StepV::SnapshotLink(_, _) => {
            lemma_found(w, out, r, files, n);
            lemma_same_sequence(w, n, link_file(c.table, 5, x));
            lemma_same_snapshot(before, r, files, c.table, x, id);
        },
        _ => {
            lemma_snapshot_is_read(w, out, r, files, n, state);
        },
    }
}

/// A snapshot is read through two manifests alike that give its generation the same sequence
/// number.
proof fn lemma_same_snapshot(a: RootV, b: RootV, files: Files, table: u64, x: Value, id: u64)
    requires
        a.history_generations.contains_key(x.0),
        b.history_generations.contains_key(x.0),
        a.history_generations[x.0] == b.history_generations[x.0],
    ensures
        snapshot_in(a, files, table, x, id) == snapshot_in(b, files, table, x, id),
{
    reveal(snapshot_in);
}

/// A checkpoint loses no snapshot that memory holds of an entity: each is stored under its
/// version through the manifest that the checkpoint makes.
pub proof fn lemma_recent_snapshot_is_kept(
    c: Copying,
    slots: Seq<Option<u8>>,
    s: StateV,
    files: Files,
    quotas: Seq<u64>,
    entries: Seq<(u64, Option<Value>)>,
    a: TableWriter,
    b: TableWriter,
    w: TableWriter,
    out: TableOutput,
    r: RootV,
    i: int,
    k: int,
)
    requires
        work_all(c, slots, s, files, quotas, entries) is Ok,
        0 <= i < entries.len(),
        added(
            a,
            b,
            works_items(s.root, work_all(c, slots, s, files, quotas, entries)->Ok_0.works),
        ),
        b.journal().is_prefix_of(w.journal()),
        w.place().0 == c.table,
        taken_up(w, out, r, files),
        history_taken_up(w, out, r, files),
        work_all(c, slots, s, files, quotas, entries)->Ok_0.works[i] is Write,
        ({
            let d = work_all(c, slots, s, files, quotas, entries)->Ok_0.works[i]->Write_data;
            &&& 0 <= k < kept_states(d).len()
            &&& kept_states(d)[k].1.id == entries[i].0
            &&& encodable_fields(kept_states(d)[k].1.fields)
        }),
    ensures
        ({
            let d = work_all(c, slots, s, files, quotas, entries)->Ok_0.works[i]->Write_data;
            snapshot_stored(r, files, c.table, kept_states(d)[k].1)
        }),
{
    let works = work_all(c, slots, s, files, quotas, entries)->Ok_0.works;
    let d = works[i]->Write_data;
    let id = entries[i].0;
    lemma_work_id(c, slots, s, files, quotas, entries, i);
    lemma_length(c, slots, s, files, quotas, entries);
    let steps = steps_of(works[i]);
    let root = history_root(d);
    let m = 1 + step_items(root, id, steps).len() + k;
    let items = work_items(s.root, works[i]);
    assert(items[m] == (Item::Snapshot { id, state: kept_states(d)[k].1 })) by {
        assert(kept_states(d).map_values(
            |e: (u64, EntityV)| Item::Snapshot { id, state: e.1 },
        )[k] == (Item::Snapshot { id, state: kept_states(d)[k].1 }));
    }
    let n = lemma_worked(s.root, works, a, b, w, i, m);
    lemma_snapshot_is_read(w, out, r, files, n, kept_states(d)[k].1);
}

/// A checkpoint loses no stored snapshot of an entity in a bucket that it keeps whole.
pub proof fn lemma_whole_snapshot_is_kept(
    c: Checkpoint,
    s: StateV,
    files: Files,
    a: TableWriter,
    b: TableWriter,
    w: TableWriter,
    out: TableOutput,
    r: RootV,
    table: u64,
    low: u64,
    state: EntityV,
)
    requires
        kept_whole(c, a, b, s.root, table, low),
        b.journal().is_prefix_of(w.journal()),
        w.place().0 == table,
        taken_up(w, out, r, files),
        history_taken_up(w, out, r, files),
        recorded(w),
        sources_agree(w),
        s.root.partitions.dom().finite(),
        low <= state.id <= bucket_end(low),
        snapshot_stored(s.root, files, table, state),
        ({
            let at = route_of(table, 5, (state.id, state.version));
            let p = s.root.partitions[at];
            let found = index_lookup(s.root, files, table, 5, (state.id, state.version));
            p.file.kind == 5 && p.dependencies.contains_key(
                link_file(table, 5, found.unwrap().unwrap()),
            )
        }),
    ensures
        snapshot_stored(r, files, table, state),
{
    let key = (state.id, state.version);
    let at = route_of(table, 5, key);
    let p = s.root.partitions[at];
    let x = index_lookup(s.root, files, table, 5, key).unwrap().unwrap();
    assert(s.root.partitions.contains_key(at)) by {
        reveal(index_lookup);
    }
    let n = lemma_whole_part(c, s.root, a, b, w, table, low, at);
    lemma_kept_item(w, n);
    assert(w.index().lane(5).finished().contains_key(at));
    let moved = moved_part(p, c.slots@);
    assert(r.partitions[at] == moved);
    assert(moved.dependencies.contains_key(link_file(table, 5, x)));
    assert(tree_of(files, moved) == tree_of(files, p));
    assert(index_lookup(r, files, table, 5, key) == Some(Some(x))) by {
        reveal(index_lookup);
    }
    assert(s.root.history_generations.contains_key(x.0)) by {
        reveal(snapshot_in);
    }
    lemma_same_sequence(w, n, link_file(table, 5, x));
    lemma_same_snapshot(s.root, r, files, table, x, state.id);
}

/// Each index partition of snapshots of a bucket that is kept whole is taken over.
proof fn lemma_whole_part(
    c: Checkpoint,
    root: RootV,
    a: TableWriter,
    b: TableWriter,
    w: TableWriter,
    table: u64,
    low: u64,
    at: Route,
) -> (n: int)
    requires
        kept_whole(c, a, b, root, table, low),
        b.journal().is_prefix_of(w.journal()),
        root.partitions.dom().finite(),
        root.partitions.contains_key(at),
        at.table == table && at.kind == 5 && low <= at.low <= bucket_end(low),
    ensures
        0 <= n < w.journal().len(),
        w.journal()[n].0 == (Item::Part {
            route: at,
            part: moved_part(root.partitions[at], c.slots@),
            from: root,
        }),
{
    let p = root.partitions[at];
    let l = listing(root.partitions);
    let events = range_parts(root, table, 4, low, bucket_end(low));
    let states = range_parts(root, table, 5, low, bucket_end(low));
    lemma_listing(root.partitions);
    reveal(lists);
    let j = choose|j: int| 0 <= j < l.len() && (#[trigger] l[j]).0 == at;
    let q = between_routes(
        Route { table, kind: 5, low, low_second: 0 },
        Route { table, kind: 5, low: bucket_end(low), low_second: u64::MAX },
    );
    assert(q(l[j]));
    lemma_filter_has(l, q, j);
    let k = choose|k: int| 0 <= k < states.len() && states[k] == l[j];
    let mine = moved_items(root, states, c.slots@);
    assert(mine[k] == (Item::Part { route: at, part: moved_part(p, c.slots@), from: root }));
    let whole = Route { table, kind: 3, low, low_second: 0 };
    let items = seq![Item::Part {
        route: whole,
        part: moved_part(root.partitions[whole], c.slots@),
        from: root,
    }] + (moved_items(root, events, c.slots@) + mine);
    let m = 1 + events.len() + k;
    let n = a.journal().len() + m;
    assert(items[m] == mine[k]);
    assert(b.journal()[a.journal().len() + m].0 == items[m]);
    assert(b.journal()[n] == w.journal()[n]);
    n
}

// ---- Reads that start from snapshots ----

/// Whether the partitions of the index of snapshots of a table give back entries.
pub open spec fn snapshots_read(
    r: RootV,
    files: Files,
    table: u64,
    contents: Map<Route, Seq<Entry>>,
) -> bool {
    r.partitions.dom().finite() && forall|at: Route| #[trigger]
        r.partitions.contains_key(at) && at.table == table && at.kind == 5 ==> gives_back(
            files,
            at,
            r.partitions[at],
            contents[at],
        )
}

/// Whether they also name the files that the entries point into and end with the last of them.
pub open spec fn snapshots_given(
    r: RootV,
    files: Files,
    table: u64,
    contents: Map<Route, Seq<Entry>>,
) -> bool {
    &&& snapshots_read(r, files, table, contents)
    &&& forall|at: Route| #[trigger]
        r.partitions.contains_key(at) && at.table == table && at.kind == 5
            ==> r.partitions[at].file.kind == 5 && r.partitions[at].last.0 == at.low
    &&& forall|at: Route, j: int|
        #![trigger contents[at][j]]
        r.partitions.contains_key(at) && at.table == table && at.kind == 5 && 0 <= j
            < contents[at].len() ==> !r.partitions[at].last.before(contents[at][j].0)
            && r.partitions[at].dependencies.contains_key(
            link_file(table, 5, contents[at][j].1),
        ) && (snapshot_in(r, files, table, contents[at][j].1, at.low) matches Some(x) ==> x.version
            == contents[at][j].0.1)
}

/// Whether an index entry leads to a snapshot that is the state which replay gives.
pub open spec fn entry_true(
    r: RootV,
    files: Files,
    table: u64,
    id: u64,
    e: Entry,
    d: DataV,
    t: TableV,
) -> bool {
    snapshot_in(r, files, table, e.1, id) matches Some(x) && x.version == e.0.1 && data_at(
        d,
        files,
        t,
        x.version,
        false,
    ) == Ok::<_, Fault>(x)
}

/// Whether a version of an entity is retained.
pub open spec fn retains(d: DataV, v: u64) -> bool {
    d.base.version <= v <= d.current.version
}

/// Whether every entry of a partition that stands for a retained version leads to a snapshot that
/// is the state which replay gives.
pub open spec fn part_true(
    r: RootV,
    files: Files,
    at: Route,
    p: PartV,
    id: u64,
    d: DataV,
    t: TableV,
    es: Seq<Entry>,
) -> bool {
    &&& gives_back(files, at, p, es)
    &&& forall|j: int|
        0 <= j < es.len() && retains(d, (#[trigger] es[j]).0.1) ==> entry_true(
            r,
            files,
            at.table,
            id,
            es[j],
            d,
            t,
        ) && p.dependencies.contains_key(link_file(at.table, 5, es[j].1))
}

/// Whether a partition gives back entries that lead to such snapshots.
pub open spec fn part_given(
    r: RootV,
    files: Files,
    at: Route,
    p: PartV,
    id: u64,
    d: DataV,
    t: TableV,
) -> bool {
    exists|es: Seq<Entry>| #[trigger] part_true(r, files, at, p, id, d, t, es)
}

/// Whether what an item brings of the snapshots of an entity are states which replay gives.
pub open spec fn item_true(
    table: u64,
    item: Item,
    id: u64,
    d: DataV,
    files: Files,
    t: TableV,
) -> bool {
    match item {
        Item::Snapshot { id: i, state } => i == id && retains(d, state.version) ==> state.id == id
            && encodable_fields(state.fields) && data_at(d, files, t, state.version, false) == Ok::<
            _,
            Fault,
        >(state),
        Item::Link { kind, key, value, from } => kind == 5 && key.0 == id && retains(d, key.1)
            ==> entry_true(from, files, table, id, (key, value), d, t),
        Item::Part { route, part, from } => route.table == table && route.kind == 5 && route.low
            == id ==> part_given(from, files, route, part, id, d, t),
        _ => true,
    }
}

proof fn lemma_floor_over(
    files: Files,
    l: Seq<(Route, PartV)>,
    contents: Map<Route, Seq<Entry>>,
    key: Key,
)
    requires
        forall|i: int|
            0 <= i < l.len() ==> gives_back(
                files,
                (#[trigger] l[i]).0,
                l[i].1,
                contents[l[i].0],
            ),
    ensures
        ({
            let found = floor_over(files, l.map_values(|e: (Route, PartV)| e.1), key);
            &&& found is Some
            &&& found.unwrap() matches Some(e) ==> !key.before(e.0) && exists|i: int|
                0 <= i < l.len() && contents[(#[trigger] l[i]).0].contains(e)
        }),
    decreases l.len(),
{
    let f = |e: (Route, PartV)| e.1;
    let parts = l.map_values(f);
    if l.len() > 0 {
        let front = l.drop_last();
        assert(parts.drop_last() =~= front.map_values(f));
        assert forall|i: int| 0 <= i < front.len() implies gives_back(
            files,
            (#[trigger] front[i]).0,
            front[i].1,
            contents[front[i].0],
        ) by {
            assert(front[i] == l[i]);
        }
        lemma_floor_over(files, front, contents, key);
        let (at, p) = l.last();
        let es = contents[at];
        assert(l[l.len() - 1] == (at, p));
        assert(gives_back(files, at, p, es));
        reveal(gives);
        match floor_entry_of(tree_of(files, p), p.lsn, key).unwrap() {
            Some(e) => {
                let j = choose|j: int| 0 <= j < es.len() && es[j] == e;
                assert(crate::partitions::translated(p, es[j].1) == Some(es[j].1));
                assert(contents[l[l.len() - 1].0].contains(e));
            },
            None => {
                let found = floor_over(files, front.map_values(f), key);
                if let Some(e) = found.unwrap() {
                    let i = choose|i: int|
                        0 <= i < front.len() && contents[(#[trigger] front[i]).0].contains(e);
                    assert(l[i] == front[i]);
                }
            },
        }
    }
}

/// The nearest snapshot of an index is one of its entries.
proof fn lemma_floor_from(
    r: RootV,
    files: Files,
    table: u64,
    contents: Map<Route, Seq<Entry>>,
    key: Key,
) -> (at: Route)
    requires
        snapshots_read(r, files, table, contents),
    ensures
        index_floor(r, files, table, 5, key) is Some,
        index_floor(r, files, table, 5, key).unwrap() matches Some(e) ==> !key.before(e.0)
            && r.partitions.contains_key(at) && at.table == table && at.kind == 5
            && contents[at].contains(e),
{
    reveal(index_floor);
    let l = listing(r.partitions);
    let q = between_routes(
        Route { table, kind: 5, low: 0, low_second: 0 },
        route_of(table, 5, key),
    );
    let few = l.filter(q);
    lemma_listing(r.partitions);
    lemma_filter_member(l, q);
    assert forall|i: int| 0 <= i < few.len() implies gives_back(
        files,
        (#[trigger] few[i]).0,
        few[i].1,
        contents[few[i].0],
    ) && few[i].0.table == table && few[i].0.kind == 5 && r.partitions.contains_key(few[i].0) by {
        assert(q(few[i]));
        let k = choose|k: int| 0 <= k < l.len() && #[trigger] l[k] == few[i];
        reveal(lists);
        assert(r.partitions.contains_key(l[k].0));
    }
    lemma_floor_over(files, few, contents, key);
    match index_floor(r, files, table, 5, key).unwrap() {
        Some(e) => {
            let i = choose|i: int|
                0 <= i < few.len() && contents[(#[trigger] few[i]).0].contains(e);
            few[i].0
        },
        None => Route { table, kind: 5, low: 0, low_second: 0 },
    }
}

/// The nearest snapshot to one that there is, is that one.
proof fn lemma_floor_exact(
    r: RootV,
    files: Files,
    table: u64,
    contents: Map<Route, Seq<Entry>>,
    key: Key,
    x: Value,
)
    requires
        snapshots_read(r, files, table, contents),
        r.partitions.contains_key(route_of(table, 5, key)),
        contents[route_of(table, 5, key)].contains((key, x)),
    ensures
        index_floor(r, files, table, 5, key) == Some(Some((key, x))),
{
    reveal(index_floor);
    let at = route_of(table, 5, key);
    let p = r.partitions[at];
    let es = contents[at];
    let l = listing(r.partitions);
    let q = between_routes(Route { table, kind: 5, low: 0, low_second: 0 }, at);
    let few = l.filter(q);
    lemma_listing(r.partitions);
    lemma_filter_member(l, q);
    lemma_filter_order(l, q);
    Route::order_laws();
    assert(few.len() > 0 && few.last() == (at, p)) by {
        reveal(lists);
        reveal(increasing);
        let j = choose|j: int| 0 <= j < l.len() && (#[trigger] l[j]).0 == at;
        assert(l[j] == (at, p));
        assert(q(l[j]));
        lemma_filter_has(l, q, j);
        let k = choose|k: int| 0 <= k < few.len() && few[k] == l[j];
        let last = few.len() - 1;
        if k < last {
            assert(few[k].0.before(few[last].0));
            assert(q(few[last]));
        }
    }
    let f = |e: (Route, PartV)| e.1;
    assert(few.map_values(f).last() == p);
    assert(gives_back(files, at, p, es));
    let j = choose|j: int| 0 <= j < es.len() && es[j] == (key, x);
    assert(crate::partitions::translated(p, es[j].1) == Some(es[j].1));
    assert(floor_entry_of(tree_of(files, p), p.lsn, key) == Some(Some((key, x)))) by {
        reveal(gives);
        Key::order_laws();
        let found = floor_entry_of(tree_of(files, p), p.lsn, key).unwrap();
        assert(es[j].0 == key);
        let e = found.unwrap();
        assert(e.0 == key);
        let k = choose|k: int| 0 <= k < es.len() && es[k] == e;
        reveal(increasing);
        if j < k {
            assert(es[j].0.before(es[k].0));
        } else if k < j {
            assert(es[k].0.before(es[j].0));
        }
    }
}

/// A stored snapshot of a retained version, of an entity whose reads start from faithful ones, is
/// the state which replay gives.
pub proof fn lemma_stored_true(
    d: DataV,
    files: Files,
    t: TableV,
    contents: Map<Route, Seq<Entry>>,
    v: u64,
    x: Value,
)
    requires
        stored_faithful(d, files, t),
        d.disk matches Some(disk) && snapshots_read(disk.root, files, disk.table, contents)
            && d.base.version <= v <= disk.through && disk.root.partitions.contains_key(
            route_of(disk.table, 5, (d.base.id, v)),
        ) && contents[route_of(disk.table, 5, (d.base.id, v))].contains(((d.base.id, v), x)),
    ensures
        entry_true(
            d.disk.unwrap().root,
            files,
            d.disk.unwrap().table,
            d.base.id,
            ((d.base.id, v), x),
            d,
            t,
        ),
{
    let disk = d.disk.unwrap();
    let id = d.base.id;
    lemma_floor_exact(disk.root, files, disk.table, contents, (id, v), x);
    reveal(started);
    let e = started(disk.root, files, disk.table, id, d.base, v, true);
    assert(e is Ok);
}

/// What a checkpoint makes of an entity reads alike from its snapshots and by full replay, where
/// what every item of the journal brings of the snapshots of the entity are states which replay
/// gives.
pub proof fn lemma_checkpoint_faithful(
    w: TableWriter,
    out: TableOutput,
    r: RootV,
    files: Files,
    id: u64,
    d: DataV,
    after: Map<Route, Seq<Entry>>,
)
    requires
        taken_up(w, out, r, files),
        history_taken_up(w, out, r, files),
        recorded(w),
        sources_agree(w),
        held(r, files, w.place().0, id, Some(d)),
        consistent(d, files, r.catalog[w.place().0]),
        d.base.id == id,
        exists|es: Seq<Entry>| #[trigger] indexed(r, files, w.place().0, 4, es),
        snapshots_read(r, files, w.place().0, after),
        journal_true(w, id, d, files, r.catalog[w.place().0]),
    ensures
        stored_faithful(
            stored_data(r, files, w.place().0, id)->Ok_0.unwrap(),
            files,
            r.catalog[w.place().0],
        ),
{
    let table = w.place().0;
    let t = r.catalog[table];
    let e = stored_data(r, files, table, id)->Ok_0.unwrap();
    assert forall|to: u64| d.base.version <= to <= d.current.version implies match #[trigger]
    started(r, files, table, id, e.base, to, true) {
        Err(_) => false,
        Ok(x) => x.version <= to && data_at(e, files, t, x.version, false) == Ok::<_, Fault>(x),
    } by {
        let at = lemma_floor_from(r, files, table, after, (id, to));
        reveal(started);
        match index_floor(r, files, table, 5, (id, to)).unwrap() {
            Some((key, x)) if key.0 == id && key.1 >= d.base.version => {
                lemma_new_entry(w, out, r, files, id, d, after, at, (key, x));
                let state = snapshot_in(r, files, table, x, id).unwrap();
                lemma_held_is_read(r, files, table, id, d, state.version);
                lemma_stored_at(r, files, table, id, t, state.version);
            },
            _ => {
                lemma_at_base(d, files, t);
                lemma_held_is_read(r, files, table, id, d, d.base.version);
                lemma_stored_at(r, files, table, id, t, d.base.version);
            },
        }
    }
}

proof fn lemma_new_entry(
    w: TableWriter,
    out: TableOutput,
    r: RootV,
    files: Files,
    id: u64,
    d: DataV,
    after: Map<Route, Seq<Entry>>,
    at: Route,
    e: Entry,
)
    requires
        taken_up(w, out, r, files),
        history_taken_up(w, out, r, files),
        recorded(w),
        sources_agree(w),
        snapshots_read(r, files, w.place().0, after),
        journal_true(w, id, d, files, r.catalog[w.place().0]),
        r.partitions.contains_key(at) && at.table == w.place().0 && at.kind == 5,
        after[at].contains(e),
        e.0.0 == id,
        retains(d, e.0.1),
    ensures
        entry_true(r, files, w.place().0, id, e, d, r.catalog[w.place().0]),
{
    let table = w.place().0;
    let t = r.catalog[table];
    let p = r.partitions[at];
    assert(out.parts().contains_key(at));
    lemma_given(files, at, p, after[at], e.0, e.1);
    let k = choose|k: int| 0 <= k < after[at].len() && after[at][k] == e;
    assert(at.low == id) by {
        assert(crate::partitions::bucket_of(at.kind, after[at][k].0) == at.lower());
    }
    if w.index().lane(5).contents().contains_key(at) {
        let es = w.index().lane(5).contents()[at];
        let (_, generation, slot, lsn) = w.place();
        let file = FileId { table, generation, kind: 5, segment: 0 };
        assert(crate::table_writer::stands(w, out, 5, at));
        let data = choose|data: Seq<u8>| #[trigger]
            out.has(file, data) && built(data, lsn, file, at, out.parts()[at], es);
        lemma_has(out, files, file, data);
        let m = choose|m: int|
            0 <= m < out.contents@.len() && (#[trigger] out.contents@[m]).0 == file
                && out.contents@[m].1@ == data;
        let held = &out.contents@[m].1;
        assert(held@.len() <= u64::MAX) by {
            assert(held.len() == held@.len());
        }
        assert(tree_of(files, p) == data.skip(p.base * 8192));
        assert(es.contains(e)) by {
            reveal(gives);
            assert(lookup_of(tree_of(files, p), p.lsn, e.0) == Some(Some(e.1)));
        }
        let j = choose|j: int| 0 <= j < es.len() && es[j] == e;
        let n = lemma_filed_from(w, 5, at, j);
        lemma_kept_item(w, n);
        assert(item_true(table, w.journal()[n].0, id, d, files, t));
        match w.journal()[n].0 {
            Item::Snapshot { id: i, state } => {
                lemma_has(out, files, heap_file(table, generation, 2), w.heap(2).image());
                lemma_snapshot_kept(w, r, files, n, state);
            },
            Item::Link { kind, key, value, from } => {
                assert(from.history_generations.contains_key(value.0)) by {
                    reveal(snapshot_in);
                }
                lemma_same_sequence(w, n, link_file(table, 5, value));
                lemma_same_snapshot(from, r, files, table, value, id);
            },
            _ => {
                assert(false);
            },
        }
    } else {
        let n = lemma_adopted_from(w, at);
        assert(item_true(table, w.journal()[n].0, id, d, files, t));
        let from = source(w.journal()[n].0);
        let es = choose|es: Seq<Entry>| #[trigger] part_true(from, files, at, p, id, d, t, es);
        assert(es.contains(e)) by {
            reveal(gives);
            assert(lookup_of(tree_of(files, p), p.lsn, e.0) == Some(Some(e.1)));
        }
        let j = choose|j: int| 0 <= j < es.len() && es[j] == e;
        assert(retains(d, es[j].0.1));
        assert(from.history_generations.contains_key(e.1.0)) by {
            reveal(snapshot_in);
        }
        lemma_same_sequence(w, n, link_file(table, 5, e.1));
        lemma_same_snapshot(from, r, files, table, e.1, id);
    }
}

// ---- What the items of a checkpoint bring ----

/// Whether every retained state of an entity can be written.
pub open spec fn states_fit(d: DataV, files: Files, t: TableV) -> bool {
    forall|v: u64|
        retains(d, v) ==> encodable_fields(
            (#[trigger] data_at(d, files, t, v, false))->Ok_0.fields,
        )
}

pub(crate) proof fn lemma_entry_steps_from(
    c: Copying,
    r: RootV,
    files: Files,
    id: u64,
    kind: u8,
    d: Option<DataV>,
    entries: Stream,
    x: StepV,
) -> (k: int)
    requires
        entry_steps(c, r, files, id, kind, d, entries) is Ok,
        entry_steps(c, r, files, id, kind, d, entries)->Ok_0.contains(x),
    ensures
        0 <= k < entries.items.len(),
        entry_step(c, r, files, id, kind, d, entries.items[k]) is Ok,
        entry_step(c, r, files, id, kind, d, entries.items[k])->Ok_0.contains(x),
    decreases entries.items.len(),
{
    let all = entry_steps(c, r, files, id, kind, d, entries)->Ok_0;
    let i = choose|i: int| 0 <= i < all.len() && all[i] == x;
    if entries.items.len() == 0 {
        assert(false);
        0
    } else {
        let more = Stream { items: entries.items.skip(1), sound: entries.sound };
        let a = entry_step(c, r, files, id, kind, d, entries.items[0])->Ok_0;
        let rest = entry_steps(c, r, files, id, kind, d, more)->Ok_0;
        assert(all == a + rest);
        if i < a.len() {
            assert(a[i] == x);
            0
        } else {
            assert(rest[i - a.len()] == x);
            let k = lemma_entry_steps_from(c, r, files, id, kind, d, more, x);
            assert(more.items[k] == entries.items[k + 1]);
            k + 1
        }
    }
}

pub(crate) proof fn lemma_parts_steps_from(
    c: Copying,
    r: RootV,
    files: Files,
    id: u64,
    kind: u8,
    d: Option<DataV>,
    first: u64,
    last: u64,
    parts: Seq<(Route, PartV)>,
    x: StepV,
) -> (k: int)
    requires
        parts_steps(c, r, files, id, kind, d, first, last, parts) is Ok,
        parts_steps(c, r, files, id, kind, d, first, last, parts)->Ok_0.contains(x),
    ensures
        0 <= k < parts.len(),
        part_steps(c, r, files, id, kind, d, first, last, parts[k]) is Ok,
        part_steps(c, r, files, id, kind, d, first, last, parts[k])->Ok_0.contains(x),
    decreases parts.len(),
{
    let all = parts_steps(c, r, files, id, kind, d, first, last, parts)->Ok_0;
    let i = choose|i: int| 0 <= i < all.len() && all[i] == x;
    if parts.len() == 0 {
        assert(false);
        0
    } else {
        let a = part_steps(c, r, files, id, kind, d, first, last, parts[0])->Ok_0;
        let rest = parts_steps(c, r, files, id, kind, d, first, last, parts.skip(1))->Ok_0;
        assert(all == a + rest);
        if i < a.len() {
            assert(a[i] == x);
            0
        } else {
            assert(rest[i - a.len()] == x);
            let k = lemma_parts_steps_from(
                c,
                r,
                files,
                id,
                kind,
                d,
                first,
                last,
                parts.skip(1),
                x,
            );
            assert(parts.skip(1)[k] == parts[k + 1]);
            k + 1
        }
    }
}

/// A partition that steps of an entity come from is one of the entity.
pub(crate) proof fn lemma_kind_part(
    c: Copying,
    r: RootV,
    id: u64,
    kind: u8,
    first: u64,
    last: u64,
    k: int,
)
    requires
        r.partitions.dom().finite(),
        4 <= kind <= 5,
        0 <= k < kind_parts(c, r, id, kind, first, last).len(),
    ensures
        ({
            let (at, p) = kind_parts(c, r, id, kind, first, last)[k];
            &&& r.partitions.contains_key(at) && r.partitions[at] == p
            &&& at.table == c.table && at.kind == kind && at.low == id
        }),
{
    let l = listing(r.partitions);
    let q = between_routes(
        route_of(c.table, kind, (id, first)),
        route_of(c.table, kind, (id, last)),
    );
    lemma_filter_member(l, q);
    lemma_listing(r.partitions);
    let e = l.filter(q)[k];
    assert(q(e));
    let j = choose|j: int| 0 <= j < l.len() && #[trigger] l[j] == e;
    reveal(lists);
    assert(r.partitions.contains_key(l[j].0));
}

/// Whether the stored snapshots of an entity up to a version are states which replay gives.
spec fn entries_true(
    r: RootV,
    files: Files,
    table: u64,
    contents: Map<Route, Seq<Entry>>,
    id: u64,
    d: DataV,
    t: TableV,
    last: u64,
) -> bool {
    forall|at: Route, j: int|
        #![trigger contents[at][j]]
        r.partitions.contains_key(at) && at.table == table && at.kind == 5 && at.low == id && 0
            <= j < contents[at].len() && retains(d, contents[at][j].0.1) && contents[at][j].0.1
            <= last ==> entry_true(r, files, table, id, contents[at][j], d, t)
}

/// A step that carries snapshots over brings states which replay gives.
proof fn lemma_step_true(
    c: Copying,
    r: RootV,
    files: Files,
    own: u64,
    od: Option<DataV>,
    base: u64,
    last: u64,
    contents: Map<Route, Seq<Entry>>,
    step: StepV,
    id: u64,
    d: DataV,
    t: TableV,
)
    requires
        kind_steps(c, r, files, own, 5, od, base, last) is Ok,
        kind_steps(c, r, files, own, 5, od, base, last)->Ok_0.contains(step),
        snapshots_given(r, files, c.table, contents),
        own == id ==> entries_true(r, files, c.table, contents, id, d, t, last) && states_fit(
            d,
            files,
            t,
        ),
    ensures
        item_true(c.table, step_item(r, own, step), id, d, files, t),
{
    let parts = kind_parts(c, r, own, 5, base, last);
    let k = lemma_parts_steps_from(c, r, files, own, 5, od, base, last, parts, step);
    let (at, p) = parts[k];
    lemma_kind_part(c, r, own, 5, base, last, k);
    let es = contents[at];
    assert(gives_back(files, at, p, es));
    if intact(c, 5, od, base, last, at, p) {
        assert(step == StepV::Reuse(at));
        if own == id {
            assert forall|j: int| 0 <= j < es.len() && retains(
                d,
                (#[trigger] es[j]).0.1,
            ) implies entry_true(r, files, at.table, id, es[j], d, t) && p.dependencies.contains_key(
                link_file(at.table, 5, es[j].1),
            ) by {
                assert(contents[at][j] == es[j]);
                assert(crate::partitions::bucket_of(at.kind, es[j].0) == at.lower());
                assert(!p.last.before(es[j].0));
            }
            assert(part_true(r, files, at, p, id, d, t, es));
            assert(part_given(r, files, at, p, id, d, t));
        }
    } else {
        let entries = scan_of(tree_of(files, p), p.lsn, (own, base), (own, last)).unwrap();
        let m = lemma_entry_steps_from(c, r, files, own, 5, od, entries, step);
        let e = entries.items[m];
        let j = lemma_scanned(files, at, p, es, (own, base), (own, last), m);
        assert(contents[at][j] == e);
        lemma_entry_step_true(c, r, files, own, od, at, p, e, step, id, d, t);
    }
}

/// An entry that a scan comes across is one of the partition, between the keys.
proof fn lemma_scanned(
    files: Files,
    at: Route,
    p: PartV,
    es: Seq<Entry>,
    lower: Key,
    upper: Key,
    m: int,
) -> (j: int)
    requires
        gives_back(files, at, p, es),
        scan_of(tree_of(files, p), p.lsn, lower, upper) is Some,
        0 <= m < scan_of(tree_of(files, p), p.lsn, lower, upper).unwrap().items.len(),
    ensures
        0 <= j < es.len(),
        es[j] == scan_of(tree_of(files, p), p.lsn, lower, upper).unwrap().items[m],
        !es[j].0.before(lower) && !upper.before(es[j].0),
{
    let q = between(lower, upper);
    reveal(gives);
    lemma_filter_member(es, q);
    let e = es.filter(q)[m];
    assert(q(e));
    choose|j: int| 0 <= j < es.len() && #[trigger] es[j] == e
}

proof fn lemma_entry_step_true(
    c: Copying,
    r: RootV,
    files: Files,
    own: u64,
    od: Option<DataV>,
    at: Route,
    p: PartV,
    e: Entry,
    step: StepV,
    id: u64,
    d: DataV,
    t: TableV,
)
    requires
        entry_step(c, r, files, own, 5, od, e) is Ok,
        entry_step(c, r, files, own, 5, od, e)->Ok_0.contains(step),
        e.0.0 == own,
        own == id ==> (retains(d, e.0.1) ==> entry_true(r, files, c.table, id, e, d, t))
            && states_fit(d, files, t),
        snapshot_in(r, files, c.table, e.1, own) matches Some(x) ==> x.version == e.0.1,
    ensures
        item_true(c.table, step_item(r, own, step), id, d, files, t),
{
    let one = entry_step(c, r, files, own, 5, od, e)->Ok_0;
    let k = choose|k: int| 0 <= k < one.len() && one[k] == step;
    assert(one[k] == one[0]);
    if step is Snapshot {
        reveal(snapshot_in);
    }
}

/// A step that carries events over brings no snapshots.
proof fn lemma_event_step(
    c: Copying,
    r: RootV,
    files: Files,
    own: u64,
    od: Option<DataV>,
    base: u64,
    last: u64,
    step: StepV,
    id: u64,
    d: DataV,
    t: TableV,
)
    requires
        kind_steps(c, r, files, own, 4, od, base, last) is Ok,
        kind_steps(c, r, files, own, 4, od, base, last)->Ok_0.contains(step),
        r.partitions.dom().finite(),
    ensures
        item_true(c.table, step_item(r, own, step), id, d, files, t),
{
    if base < last {
        let first = (base + 1) as u64;
        let parts = kind_parts(c, r, own, 4, first, last);
        let k = lemma_parts_steps_from(c, r, files, own, 4, od, first, last, parts, step);
        let (at, p) = parts[k];
        lemma_kind_part(c, r, own, 4, first, last, k);
        if intact(c, 4, od, first, last, at, p) {
            assert(step == StepV::Reuse(at));
        } else {
            let entries = scan_of(tree_of(files, p), p.lsn, (own, first), (own, last)).unwrap();
            let m = lemma_entry_steps_from(c, r, files, own, 4, od, entries, step);
        }
    }
}

/// What a checkpoint does for an entity brings of snapshots only states which replay gives: of
/// its own, if reads of it start from faithful ones, and none of another entity.
pub proof fn lemma_work_true(
    c: Copying,
    slots: Seq<Option<u8>>,
    s: StateV,
    files: Files,
    quotas: Seq<u64>,
    entries: Seq<(u64, Option<Value>)>,
    i: int,
    contents: Map<Route, Seq<Entry>>,
    id: u64,
    d: DataV,
    t: TableV,
    j: int,
)
    requires
        work_all(c, slots, s, files, quotas, entries) is Ok,
        s.catalog.contains_key(c.table),
        0 <= i < entries.len(),
        ({
            let work = work_all(c, slots, s, files, quotas, entries)->Ok_0.works[i];
            &&& carries(work) ==> snapshots_given(
                work_root(s.root, work),
                files,
                c.table,
                contents,
            )
            &&& 0 <= j < work_items(s.root, work).len()
        }),
        entries[i].0 == id ==> {
            &&& loaded_data(s, files, c.table, id) == Ok::<_, Fault>(Some(d))
            &&& consistent(d, files, t)
            &&& d.base.id == id
            &&& d.snapshots.dom().finite()
            &&& stored_faithful(d, files, t)
            &&& states_fit(d, files, t)
            &&& d.disk matches Some(disk) ==> disk.table == c.table
        },
    ensures
        item_true(
            c.table,
            work_items(
                s.root,
                work_all(c, slots, s, files, quotas, entries)->Ok_0.works[i],
            )[j],
            id,
            d,
            files,
            t,
        ),
{
    let works = work_all(c, slots, s, files, quotas, entries)->Ok_0.works;
    let work = works[i];
    let own = entries[i].0;
    let (od, base, last) = carried_range(work);
    let r = work_root(s.root, work);
    let steps = steps_of(work);
    lemma_length(c, slots, s, files, quotas, entries);
    lemma_all_steps(c, slots, s, files, quotas, entries, i);
    lemma_work_id(c, slots, s, files, quotas, entries, i);
    lemma_work_of(c, slots, s, files, quotas, entries, i);
    let items = work_items(s.root, work);
    if 1 <= j < 1 + steps.len() {
        let step = steps[j - 1];
        assert(items[j] == step_item(r, own, step)) by {
            assert(step_items(r, own, steps)[j - 1] == step_item(r, own, steps[j - 1]));
        }
        let front = kind_steps(c, r, files, own, 5, od, base, last)->Ok_0;
        let rest = kind_steps(c, r, files, own, 4, od, base, last)->Ok_0;
        assert(steps == front + rest);
        if j - 1 < front.len() {
            assert(front[j - 1] == step);
            if own == id {
                assert(r == d.disk.unwrap().root);
                lemma_entries_true(d, files, t, contents, last);
            }
            lemma_step_true(c, r, files, own, od, base, last, contents, step, id, d, t);
        } else {
            assert(rest[j - 1 - front.len()] == step);
            lemma_event_step(c, r, files, own, od, base, last, step, id, d, t);
        }
    } else if j >= 1 {
        let data = work->Write_data;
        let k = j - 1 - steps.len();
        let states = kept_states(data);
        if k < states.len() {
            let f = |e: (u64, EntityV)| Item::Snapshot { id: own, state: e.1 };
            assert(states.map_values(f)[k] == f(states[k]));
            assert(items[j] == f(states[k]));
            if own == id {
                lemma_listing(d.snapshots);
                lemma_filter_member(
                    listing(d.snapshots),
                    crate::table_writer::from_version(d.base.version),
                );
                let e = states[k];
                let m = choose|m: int|
                    0 <= m < listing(d.snapshots).len() && #[trigger] listing(d.snapshots)[m] == e;
                reveal(lists);
                assert(d.snapshots.contains_key(e.0) && d.snapshots[e.0] == e.1);
                lemma_every_version(d, files, t, e.0);
            }
        } else {
            assert(items[j] is Event);
        }
    }
}

proof fn lemma_entries_true(
    d: DataV,
    files: Files,
    t: TableV,
    contents: Map<Route, Seq<Entry>>,
    last: u64,
)
    requires
        stored_faithful(d, files, t),
        d.disk matches Some(disk) && snapshots_given(disk.root, files, disk.table, contents) && (
        last <= disk.through || d.current.version <= disk.through),
    ensures
        entries_true(
            d.disk.unwrap().root,
            files,
            d.disk.unwrap().table,
            contents,
            d.base.id,
            d,
            t,
            last,
        ),
{
    let disk = d.disk.unwrap();
    let (r, table, id) = (disk.root, disk.table, d.base.id);
    assert forall|at: Route, j: int|
        #![trigger contents[at][j]]
        r.partitions.contains_key(at) && at.table == table && at.kind == 5 && at.low == id && 0
            <= j < contents[at].len() && retains(d, contents[at][j].0.1) && contents[at][j].0.1
            <= last implies entry_true(r, files, table, id, contents[at][j], d, t) by {
        let e = contents[at][j];
        assert(gives_back(files, at, r.partitions[at], contents[at]));
        assert(crate::partitions::bucket_of(at.kind, contents[at][j].0) == at.lower());
        assert(at == route_of(table, 5, e.0));
        assert(contents[at].contains(e));
        lemma_stored_true(d, files, t, contents, e.0.1, e.1);
    }
}

/// A bucket that a checkpoint keeps whole brings of snapshots only states which replay gives: of
/// an entity of the bucket, if reads of it start from faithful ones, and none of another.
pub proof fn lemma_whole_true(
    c: Checkpoint,
    s: StateV,
    files: Files,
    table: u64,
    low: u64,
    contents: Map<Route, Seq<Entry>>,
    id: u64,
    d: DataV,
    t: TableV,
    k: int,
)
    requires
        snapshots_given(s.root, files, table, contents),
        0 <= k < range_parts(s.root, table, 5, low, bucket_end(low)).len(),
        low <= id <= bucket_end(low) ==> {
            &&& d.base.id == id
            &&& stored_faithful(d, files, t)
            &&& d.disk matches Some(disk) && disk.root == s.root && disk.table == table
                && d.current.version <= disk.through
        },
    ensures
        item_true(
            table,
            moved_items(
                s.root,
                range_parts(s.root, table, 5, low, bucket_end(low)),
                c.slots@,
            )[k],
            id,
            d,
            files,
            t,
        ),
{
    let r = s.root;
    let l = listing(r.partitions);
    let q = between_routes(
        Route { table, kind: 5, low, low_second: 0 },
        Route { table, kind: 5, low: bucket_end(low), low_second: u64::MAX },
    );
    let states = range_parts(r, table, 5, low, bucket_end(low));
    let (at, p) = states[k];
    lemma_filter_member(l, q);
    lemma_listing(r.partitions);
    assert(q(states[k]));
    let m = choose|m: int| 0 <= m < l.len() && #[trigger] l[m] == states[k];
    assert(r.partitions.contains_key(at) && r.partitions[at] == p) by {
        reveal(lists);
        assert(r.partitions.contains_key(l[m].0));
    }
    assert(moved_items(r, states, c.slots@)[k] == (Item::Part {
        route: at,
        part: moved_part(p, c.slots@),
        from: r,
    }));
    if at.low == id {
        let moved = moved_part(p, c.slots@);
        let es = contents[at];
        assert(gives_back(files, at, p, es));
        assert(tree_of(files, moved) == tree_of(files, p));
        assert forall|j: int| 0 <= j < es.len() implies crate::partitions::translated(
            moved,
            (#[trigger] es[j]).1,
        ) == Some(es[j].1) by {
        }
        lemma_entries_true(d, files, t, contents, u64::MAX);
        assert forall|j: int| 0 <= j < es.len() && retains(
            d,
            (#[trigger] es[j]).0.1,
        ) implies entry_true(r, files, at.table, id, es[j], d, t)
            && moved.dependencies.contains_key(link_file(at.table, 5, es[j].1)) by {
            assert(contents[at][j] == es[j]);
        }
        assert(part_true(r, files, at, moved, id, d, t, es));
        assert(part_given(r, files, at, moved, id, d, t));
    }
    let item = Item::Part { route: at, part: moved_part(p, c.slots@), from: r };
    assert(item_true(table, item, id, d, files, t));
}

/// Whether what every item of a journal brings of the snapshots of an entity are states which
/// replay gives.
pub open spec fn journal_true(w: TableWriter, id: u64, d: DataV, files: Files, t: TableV) -> bool {
    forall|n: int|
        0 <= n < w.journal().len() ==> item_true(
            w.place().0,
            (#[trigger] w.journal()[n]).0,
            id,
            d,
            files,
            t,
        )
}

/// A journal goes on to bring states which replay gives with items that do.
pub proof fn lemma_journal_true(
    a: TableWriter,
    b: TableWriter,
    items: Seq<Item>,
    id: u64,
    d: DataV,
    files: Files,
    t: TableV,
)
    requires
        journal_true(a, id, d, files, t),
        added(a, b, items),
        forall|j: int|
            0 <= j < items.len() ==> item_true(
                a.place().0,
                #[trigger] items[j],
                id,
                d,
                files,
                t,
            ),
    ensures
        journal_true(b, id, d, files, t),
{
    assert(b.place() == a.place()) by {
        reveal(crate::table_writer::grew);
    }
    let k = a.journal().len() as int;
    assert forall|n: int| 0 <= n < b.journal().len() implies item_true(
        b.place().0,
        (#[trigger] b.journal()[n]).0,
        id,
        d,
        files,
        t,
    ) by {
        if n < k {
            assert(b.journal().take(k)[n] == b.journal()[n]);
            assert(a.journal()[n] == b.journal()[n]);
        } else {
            assert(b.journal()[k + (n - k)].0 == items[n - k]);
        }
    }
}

// ---- Snapshots through transactions ----

/// Stored snapshots stay faithful while the retained versions that they stand for read as they
/// did.
pub proof fn lemma_stays_faithful(d: DataV, n: DataV, files: Files, t: TableV, u: TableV)
    requires
        stored_faithful(d, files, t),
        n.disk == d.disk,
        n.base.id == d.base.id,
        n.base.version >= d.base.version,
        data_at(n, files, u, n.base.version, false) == Ok::<_, Fault>(n.base),
        d.disk matches Some(disk) ==> forall|v: u64|
            n.base.version <= v <= disk.through ==> #[trigger] data_at(n, files, u, v, false)
                == data_at(d, files, t, v, false),
    ensures
        stored_faithful(n, files, u),
{
    if let Some(disk) = d.disk {
        let (r, table, id) = (disk.root, disk.table, d.base.id);
        assert forall|to: u64| n.base.version <= to <= disk.through implies match #[trigger] started(
            r,
            files,
            table,
            id,
            n.base,
            to,
            true,
        ) {
            Err(_) => false,
            Ok(e) => e.version <= to && data_at(n, files, u, e.version, false) == Ok::<_, Fault>(e),
        } by {
            reveal(started);
            let was = started(r, files, table, id, d.base, to, true);
            assert(was is Ok);
            let now = started(r, files, table, id, n.base, to, true);
            if now != Ok::<_, Fault>(n.base) {
                assert(now == was);
                let e = was->Ok_0;
                assert(data_at(n, files, u, e.version, false) == data_at(
                    d,
                    files,
                    t,
                    e.version,
                    false,
                ));
            }
        }
    }
}

/// Every operation on an entity whose stored snapshots are faithful leaves them faithful.
pub proof fn lemma_op_faithful(d: Option<DataV>, files: Files, lsn: u64, table: TableV, op: OpV)
    requires
        d matches Some(d) ==> consistent(d, files, table) && stored_faithful(d, files, table),
        changed(d, files, lsn, table, op) is Ok,
    ensures
        stored_faithful(changed(d, files, lsn, table, op)->Ok_0, files, table),
{
    lemma_consistent(d, files, lsn, table, op);
    let n = changed(d, files, lsn, table, op)->Ok_0;
    lemma_at_base(n, files, table);
    if !(op is Create) {
        let d = d.unwrap();
        assert forall|v: u64| n.base.version <= v <= d.current.version implies #[trigger] data_at(
            n,
            files,
            table,
            v,
            false,
        ) == data_at(d, files, table, v, false) by {
            match op {
                OpV::Apply(_, _, fields) => {
                    let fields = crate::model::normalized(
                        table.schemas.last(),
                        fields,
                        false,
                    ).unwrap();
                    let event = made_event(
                        d,
                        lsn,
                        table.schemas.last(),
                        EventKind::Apply,
                        fields,
                    );
                    lemma_every_version(d, files, table, v);
                    lemma_earlier(d, n, event, files, table, v);
                },
                OpV::Delete(_, _) => {
                    let event = made_event(
                        d,
                        lsn,
                        table.schemas.last(),
                        EventKind::Delete,
                        Map::empty(),
                    );
                    lemma_every_version(d, files, table, v);
                    lemma_earlier(d, n, event, files, table, v);
                },
                OpV::Retain(_, _, count) => {
                    lemma_retained(d, files, table, count, v);
                },
                _ => {
                    assert(from_disk(n, files, d.base, v, false) == from_disk(
                        d,
                        files,
                        d.base,
                        v,
                        false,
                    ));
                },
            }
        }
        if let OpV::Retain(_, _, count) = op {
            lemma_retained(d, files, table, count, d.current.version);
        }
        lemma_stays_faithful(d, n, files, table, table);
    }
}

/// Whether reads of every entity of a committed view start from faithful snapshots.
pub open spec fn all_faithful(s: StateV, files: Files) -> bool {
    forall|table: u64, id: u64|
        s.catalog.contains_key(table) && (#[trigger] loaded_data(s, files, table, id)) is Ok
            && loaded_data(s, files, table, id)->Ok_0 is Some ==> stored_faithful(
            loaded_data(s, files, table, id)->Ok_0.unwrap(),
            files,
            s.catalog[table],
        )
}

/// Whether reads of every entity that a transaction has staged do.
pub open spec fn staged_faithful(w: WritesV, files: Files) -> bool {
    forall|k: Key| #[trigger]
        w.staged.contains_key(k) ==> stored_faithful(w.staged[k], files, w.catalog[k.0])
}

/// Faithful snapshots stay so under later schemas.
proof fn lemma_faithful_later(d: DataV, files: Files, t: TableV, u: TableV)
    requires
        consistent(d, files, t),
        stored_faithful(d, files, t),
        extends(t, u),
    ensures
        stored_faithful(d, files, u),
{
    lemma_consistent_later(d, files, t, u);
    lemma_at_base(d, files, u);
    assert forall|v: u64| d.base.version <= v <= d.current.version implies #[trigger] data_at(
        d,
        files,
        u,
        v,
        false,
    ) == data_at(d, files, t, v, false) by {
        lemma_every_version(d, files, t, v);
        lemma_later_schema(d, files, t, u, v, false);
    }
    lemma_stays_faithful(d, d, files, t, u);
}

/// The operations of a transaction leave the stored snapshots of what it stages faithful.
pub proof fn lemma_transaction_faithful(base: StateV, files: Files, w: WritesV, ops: Seq<OpV>)
    requires
        all_consistent(base, files),
        all_faithful(base, files),
        staged_consistent(w, files),
        staged_faithful(w, files),
        sound_catalog(w.catalog),
        later_catalog(base.catalog, w.catalog),
        executed_all(base, files, w, ops) is Ok,
    ensures
        staged_faithful(executed_all(base, files, w, ops)->Ok_0, files),
    decreases ops.len(),
{
    if ops.len() > 0 {
        lemma_transaction_faithful(base, files, w, ops.drop_last());
        lemma_transaction(base, files, w, ops.drop_last());
        let m = executed_all(base, files, w, ops.drop_last())->Ok_0;
        let op = ops.last();
        let n = executed(base, files, m, op)->Ok_0;
        match key_of_op(op) {
            None => {
                let t = op->Table_0;
                lemma_change(m.catalog, t);
                assert forall|k: Key| #[trigger] n.staged.contains_key(k) implies stored_faithful(
                    n.staged[k],
                    files,
                    n.catalog[k.0],
                ) by {
                    assert(m.staged.contains_key(k));
                    if k.0 == t.id {
                        lemma_faithful_later(m.staged[k], files, m.catalog[k.0], t);
                    }
                }
            },
            Some(key) => {
                let table = m.catalog[key.0];
                let d = fetched(base, files, m, key)->Ok_0;
                if !m.staged.contains_key(key) && base.catalog.contains_key(key.0) {
                    assert(loaded_data(base, files, key.0, key.1) == fetched(base, files, m, key));
                    if let Some(e) = d {
                        lemma_faithful_later(e, files, base.catalog[key.0], table);
                        lemma_consistent_later(e, files, base.catalog[key.0], table);
                    }
                }
                lemma_op_faithful(d, files, base.lsn, table, op);
                assert forall|k: Key| #[trigger] n.staged.contains_key(k) implies stored_faithful(
                    n.staged[k],
                    files,
                    n.catalog[k.0],
                ) by {
                    if k != key {
                        assert(m.staged.contains_key(k));
                    }
                }
            },
        }
    }
}

/// Committing a transaction leaves the stored snapshots of every entity faithful: a read at any
/// version that starts from one gives what full replay gives.
pub proof fn lemma_published_faithful(base: StateV, files: Files, ops: Seq<OpV>, lsn: u64)
    requires
        all_consistent(base, files),
        all_faithful(base, files),
        executed_all(
            base,
            files,
            (WritesV { catalog: base.catalog, staged: Map::empty() }),
            ops,
        ) is Ok,
    ensures
        ({
            let start = WritesV { catalog: base.catalog, staged: Map::empty() };
            let w = executed_all(base, files, start, ops)->Ok_0;
            all_faithful(published(base, w, lsn), files)
        }),
{
    let start = WritesV { catalog: base.catalog, staged: Map::empty() };
    assert forall|x: u64| #[trigger] base.catalog.contains_key(x) implies extends(
        base.catalog[x],
        base.catalog[x],
    ) by {
        let schemas = base.catalog[x].schemas;
        assert(schemas.take(schemas.len() as int) =~= schemas);
    }
    lemma_transaction(base, files, start, ops);
    lemma_transaction_faithful(base, files, start, ops);
    let w = executed_all(base, files, start, ops)->Ok_0;
    let s = published(base, w, lsn);
    assert forall|table: u64, id: u64|
        s.catalog.contains_key(table) && (#[trigger] loaded_data(s, files, table, id)) is Ok
            && loaded_data(s, files, table, id)->Ok_0 is Some implies stored_faithful(
        loaded_data(s, files, table, id)->Ok_0.unwrap(),
        files,
        s.catalog[table],
    ) by {
        let k = (table, id);
        if w.staged.contains_key(k) {
            let d = w.staged[k];
            assert(s.overlay[k] == sealed(d));
            let t = w.catalog[table];
            assert forall|v: u64| #[trigger]
                data_at(sealed(d), files, t, v, false) == data_at(d, files, t, v, false) by {
                lemma_sealed(d, files, t, v, false);
            }
            lemma_at_base(d, files, t);
            lemma_stays_faithful(d, sealed(d), files, t, t);
        } else {
            if !base.catalog.contains_key(table) {
                assert(!base.overlay.contains_key(k));
                assert(!base.root.catalog.contains_key(table));
                reveal(located);
            }
            assert(loaded_data(base, files, table, id) == loaded_data(s, files, table, id));
            let d = loaded_data(base, files, table, id)->Ok_0.unwrap();
            lemma_faithful_later(d, files, base.catalog[table], s.catalog[table]);
        }
    }
}

} // verus!
