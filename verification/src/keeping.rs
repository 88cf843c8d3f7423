//! What a checkpoint keeps: an entity is read through the manifest that it makes as it was read
//! before.

use crate::checkpoint::Batch;
use crate::checkpoint::Checkpoint;
use crate::checkpoint::WorkV;
use crate::checkpoint::bucket_end;
use crate::checkpoint::kept_whole;
use crate::checkpoint::lemma_nothing_lost;
use crate::checkpoint::stays_whole;
use crate::checkpoint::work_all;
use crate::checkpoint::work_for;
use crate::checkpoint::work_items;
use crate::checkpoint::work_root;
use crate::checkpoint::works_items;
use crate::codec::MAX_RECORD;
use crate::copying::Copying;
use crate::copying::StepV;
use crate::copying::entry_step;
use crate::copying::entry_steps;
use crate::copying::history_steps;
use crate::copying::intact;
use crate::copying::kind_parts;
use crate::copying::kind_steps;
use crate::copying::part_steps;
use crate::copying::parts_steps;
use crate::entity::DataV;
use crate::entity::lemma_filter_member;
use crate::entity::stored_data;
use crate::error::Fault;
use crate::history::segment_of;
use crate::indexes::built;
use crate::indexes::gives;
use crate::indexes::lemma_built;
use crate::key::OrderedKey;
use crate::key::increasing;
use crate::key::lemma_listing;
use crate::key::listing;
use crate::key::lists;
use crate::model::EntityV;
use crate::model::EventV;
use crate::partitions::PartV;
use crate::partitions::Route;
use crate::partitions::between_routes;
use crate::partitions::index_lookup;
use crate::partitions::lemma_bucket_order;
use crate::partitions::lemma_remapped;
use crate::partitions::remapped;
use crate::partitions::route_of;
use crate::partitions::shared_slot;
use crate::partitions::tree_of;
use crate::reader::StateV;
use crate::reader::loaded_data;
use crate::reader::recent_ids;
use crate::reader::state_get;
use crate::reading::current_in;
use crate::reading::event_in;
use crate::reading::located;
use crate::reading::snapshot_in;
use crate::record::enc_event;
use crate::record::encodable_fields;
use crate::snapshot::GenerationInfo;
use crate::snapshot::MAX_SLOTS;
use crate::snapshot::RootV;
use crate::snapshot::ascending;
use crate::snapshot::lemma_translation;
use crate::snapshot::stays;
use crate::snapshot::translation;
use crate::snapshot::valid_generations;
use crate::storage::heap::PAGE_LIMIT;
use crate::storage::index::Entry;
use crate::storage::index::Key;
use crate::storage::index::Stream;
use crate::storage::index::Value;
use crate::storage::index::lookup_of;
use crate::storage::index::scan_of;
use crate::storage::index_writer::between;
use crate::storage::pager::FileId;
use crate::storage::pager::Files;
use crate::table_writer::Item;
use crate::table_writer::TableOutput;
use crate::table_writer::TableWriter;
use crate::table_writer::added;
use crate::table_writer::heap_file;
use crate::table_writer::history_root;
use crate::table_writer::infos;
use crate::table_writer::item_key;
use crate::table_writer::item_kind;
use crate::table_writer::kept_events;
use crate::table_writer::kept_states;
use crate::table_writer::lemma_carried_is_read;
use crate::table_writer::lemma_event_kept;
use crate::table_writer::lemma_filed_from;
use crate::table_writer::lemma_found;
use crate::table_writer::lemma_kept_item;
use crate::table_writer::lemma_moved_is_read;
use crate::table_writer::lemma_remembered;
use crate::table_writer::lemma_snapshot_kept;
use crate::table_writer::lemma_written_is_read;
use crate::table_writer::link_file;
use crate::table_writer::moved_items;
use crate::table_writer::moved_part;
use crate::table_writer::own_file;
use crate::table_writer::range_parts;
use crate::table_writer::stands;
use crate::table_writer::step_item;
use crate::table_writer::step_items;
use crate::walks::gives_back;
use crate::walks::lemma_filter_has;
use crate::walks::lemma_recent;
use vstd::prelude::*;

verus! {

/// Whether a manifest takes up the finished files of a table, in the slot of their generation,
/// and has no other partitions of the table. The heaps stay within the pages that a locator can
/// give.
pub open spec fn taken_up(w: TableWriter, out: TableOutput, r: RootV, files: Files) -> bool {
    let (table, generation, slot, lsn) = w.place();
    &&& w.sound()
    &&& out.stands_in(files)
    &&& r.catalog.contains_key(table)
    &&& (slot as int) < r.generations.len()
    &&& r.generations[slot as int] == (GenerationInfo { generation, lsn })
    &&& forall|kind: u8|
        kind <= 1 ==> out.has(#[trigger] heap_file(table, generation, kind), w.heap(kind).image())
    &&& forall|kind: u8| kind <= 1 ==> (#[trigger] w.heap(kind)).image().len() <= PAGE_LIMIT * 8192
    &&& forall|kind: u8, at: Route|
        3 <= kind <= 5 && #[trigger] w.index().lane(kind).contents().contains_key(at) ==> stands(
            w,
            out,
            kind,
            at,
        )
    &&& forall|kind: u8, at: Route|
        3 <= kind <= 5 && #[trigger] w.index().lane(kind).finished().contains_key(at)
            ==> out.parts().contains_key(at) && out.parts()[at] == w.index().lane(
            kind,
        ).finished()[at]
    &&& forall|at: Route| #[trigger]
        out.parts().contains_key(at) ==> r.partitions.contains_key(at) && r.partitions[at]
            == out.parts()[at] && 3 <= at.kind <= 5 && w.index().lane(at.kind).has(at)
    &&& forall|at: Route| #[trigger]
        r.partitions.contains_key(at) && at.table == table ==> out.parts().contains_key(at)
}

/// Whether a translation leads from the slots of one manifest to those of the same generations
/// in another.
pub open spec fn leads(slots: Seq<Option<u8>>, before: RootV, after: RootV) -> bool {
    forall|slot: int|
        0 <= slot < slots.len() && (#[trigger] slots[slot]) is Some ==> slot
            < before.generations.len() && slots[slot].unwrap() < after.generations.len()
            && after.generations[slots[slot].unwrap() as int] == before.generations[slot]
}

/// The translation with which a checkpoint begins leads from the slots of the manifest before
/// to those of the one that it makes.
pub proof fn lemma_leads(before: RootV, after: RootV, absorb: Map<u64, ()>)
    requires
        before.generations.len() <= MAX_SLOTS,
        after.generations.len() > 0,
        after.generations.drop_last() == before.generations.filter(stays(absorb)),
    ensures
        leads(translation(before.generations, absorb), before, after),
{
    let s = before.generations;
    let t = translation(s, absorb);
    assert forall|slot: int| 0 <= slot < t.len() && (#[trigger] t[slot]) is Some implies slot
        < s.len() && t[slot].unwrap() < after.generations.len()
        && after.generations[t[slot].unwrap() as int] == s[slot] by {
        lemma_translation(s, absorb, slot as u8, slot as u8);
        let n = t[slot].unwrap() as int;
        assert(after.generations.drop_last()[n] == after.generations[n]);
    }
}

/// The list of generations with which a checkpoint begins fits its manifest, if its generation
/// is a new one.
pub proof fn lemma_generations_fit(before: RootV, after: RootV, absorb: Map<u64, ()>, lsn: u64)
    requires
        valid_generations(before.generations, before.generation),
        before.generation < after.generation,
        before.generations.filter(stays(absorb)).len() < MAX_SLOTS,
        after.generations == before.generations.filter(stays(absorb)).push(
            GenerationInfo { generation: after.generation, lsn },
        ),
    ensures
        valid_generations(after.generations, after.generation),
{
    let s = before.generations;
    let p = stays(absorb);
    let kept = s.filter(p);
    lemma_kept_ascend(s, p);
    lemma_filter_member(s, p);
    assert forall|i: int, j: int| 0 <= i < j < after.generations.len() implies (
    #[trigger] after.generations[i]).generation < (#[trigger] after.generations[j]).generation by {
        assert(after.generations[i] == kept[i]);
        if j == kept.len() {
            let k = choose|k: int| 0 <= k < s.len() && #[trigger] s[k] == kept[i];
            let last = s.len() - 1;
            if k < last {
                assert(s[k].generation < s[last].generation);
            }
        } else {
            assert(after.generations[j] == kept[j]);
        }
    }
}

proof fn lemma_kept_ascend(s: Seq<GenerationInfo>, p: spec_fn(GenerationInfo) -> bool)
    requires
        ascending(s),
    ensures
        ascending(s.filter(p)),
    decreases s.len(),
{
    reveal(Seq::filter);
    if s.len() > 0 {
        let t = s.drop_last();
        assert(ascending(t)) by {
            assert forall|i: int, j: int| 0 <= i < j < t.len() implies (
            #[trigger] t[i]).generation < (#[trigger] t[j]).generation by {
                assert(t[i] == s[i] && t[j] == s[j]);
            }
        }
        lemma_kept_ascend(t, p);
        lemma_filter_member(t, p);
        let f = t.filter(p);
        assert forall|i: int, j: int| 0 <= i < j < s.filter(p).len() implies (
        #[trigger] s.filter(p)[i]).generation < (#[trigger] s.filter(p)[j]).generation by {
            assert(s.filter(p)[i] == f[i]);
            if j == f.len() {
                let k = choose|k: int| 0 <= k < t.len() && #[trigger] t[k] == f[i];
                assert(s[k].generation < s[s.len() - 1].generation);
            } else {
                assert(s.filter(p)[j] == f[j]);
            }
        }
    }
}

/// Whether a view is one that a checkpoint leads to, as far as one entity goes: the manifest is
/// the new one, and memory no longer holds the entity.
pub open spec fn carried_over(s: StateV, t: StateV, table: u64, id: u64) -> bool {
    &&& t.catalog == s.catalog
    &&& t.poisoned == s.poisoned
    &&& !t.overlay.contains_key((table, id))
}

/// Whether an entity can be written: its states have its identifier, and their fields can be
/// encoded.
pub open spec fn writable(d: DataV, id: u64) -> bool {
    &&& d.current.id == id && d.base.id == id
    &&& d.base.version <= d.current.version
    &&& encodable_fields(d.current.fields)
    &&& encodable_fields(d.base.fields)
}

/// Whether an entity is stored with the states that it had.
pub open spec fn stored_as(r: RootV, files: Files, table: u64, id: u64, d: DataV) -> bool {
    stored_data(r, files, table, id) matches Ok(Some(e)) && e.current == d.current && e.base
        == d.base
}

proof fn lemma_work_place(r: RootV, works: Seq<WorkV>, i: int, j: int)
    requires
        0 <= i < works.len(),
        0 <= j < work_items(r, works[i]).len(),
    ensures
        works_items(r, works.take(i)).len() + j < works_items(r, works).len(),
        works_items(r, works)[works_items(r, works.take(i)).len() + j] == work_items(
            r,
            works[i],
        )[j],
    decreases works.len(),
{
    let front = works.drop_last();
    if i == front.len() {
        assert(works.take(i) =~= front);
    } else {
        lemma_work_place(r, front, i, j);
        assert(front.take(i) =~= works.take(i));
        assert(front[i] == works[i]);
    }
}

/// What is written for an entity is in the journal of every writer that goes on from the work.
pub(crate) proof fn lemma_worked(
    r: RootV,
    works: Seq<WorkV>,
    a: TableWriter,
    b: TableWriter,
    w: TableWriter,
    i: int,
    j: int,
) -> (n: int)
    requires
        0 <= i < works.len(),
        0 <= j < work_items(r, works[i]).len(),
        added(a, b, works_items(r, works)),
        b.journal().is_prefix_of(w.journal()),
    ensures
        0 <= n < w.journal().len(),
        w.journal()[n].0 == work_items(r, works[i])[j],
{
    lemma_work_place(r, works, i, j);
    let k = works_items(r, works.take(i)).len() + j;
    let n = a.journal().len() + k;
    assert(b.journal()[a.journal().len() + k].0 == works_items(r, works)[k]);
    assert(b.journal()[n] == w.journal()[n]);
    n
}

pub(crate) proof fn lemma_work_of(
    c: Copying,
    slots: Seq<Option<u8>>,
    s: StateV,
    files: Files,
    quotas: Seq<u64>,
    entries: Seq<(u64, Option<Value>)>,
    i: int,
)
    requires
        work_all(c, slots, s, files, quotas, entries) is Ok,
        s.catalog.contains_key(c.table),
        0 <= i < entries.len(),
    ensures
        ({
            let work = work_all(c, slots, s, files, quotas, entries)->Ok_0.works[i];
            let id = entries[i].0;
            &&& work is Write ==> loaded_data(s, files, c.table, id) == Ok::<_, Fault>(
                Some(work->Write_data),
            ) && work->Write_id == id
            &&& work is Carry ==> work->Carry_id == id && !s.overlay.contains_key((c.table, id))
        }),
    decreases entries.len(),
{
    reveal(work_for);
    lemma_nothing_lost(c, slots, s, files, quotas, entries);
    let front = entries.drop_last();
    lemma_nothing_lost(c, slots, s, files, quotas, front);
    if i < front.len() {
        lemma_work_of(c, slots, s, files, quotas, front, i);
        assert(front[i] == entries[i]);
        assert(work_all(c, slots, s, files, quotas, entries)->Ok_0.works[i] == work_all(
            c,
            slots,
            s,
            files,
            quotas,
            front,
        )->Ok_0.works[i]);
    }
}

/// A checkpoint leaves the entities that it works on as they were: whether an entity is written
/// anew, from memory or from a generation that is emptied, or stays where it is, its state is
/// read through the manifest that the checkpoint makes as before, and so are the states that
/// its history starts and ends with.
pub proof fn lemma_worked_is_read(
    c: Copying,
    slots: Seq<Option<u8>>,
    s: StateV,
    t: StateV,
    files: Files,
    quotas: Seq<u64>,
    entries: Seq<(u64, Option<Value>)>,
    a: TableWriter,
    b: TableWriter,
    w: TableWriter,
    out: TableOutput,
    i: int,
)
    requires
        work_all(c, slots, s, files, quotas, entries) is Ok,
        s.catalog.contains_key(c.table),
        0 <= i < entries.len(),
        added(
            a,
            b,
            works_items(s.root, work_all(c, slots, s, files, quotas, entries)->Ok_0.works),
        ),
        b.journal().is_prefix_of(w.journal()),
        w.place().0 == c.table,
        taken_up(w, out, t.root, files),
        slots.len() == MAX_SLOTS,
        leads(slots, s.root, t.root),
        carried_over(s, t, c.table, entries[i].0),
        entries[i].1 matches Some(v) ==> located(s.root, files, c.table, entries[i].0) == Ok::<
            _,
            Fault,
        >(Some(v)),
        loaded_data(s, files, c.table, entries[i].0) matches Ok(Some(d)) ==> writable(
            d,
            entries[i].0,
        ),
    ensures
        state_get(t, files, c.table, entries[i].0) == state_get(s, files, c.table, entries[i].0),
        loaded_data(s, files, c.table, entries[i].0) matches Ok(Some(d)) ==> stored_as(
            t.root,
            files,
            c.table,
            entries[i].0,
            d,
        ),
{
    let works = work_all(c, slots, s, files, quotas, entries)->Ok_0.works;
    let id = entries[i].0;
    lemma_nothing_lost(c, slots, s, files, quotas, entries);
    lemma_work_of(c, slots, s, files, quotas, entries, i);
    assert(crate::checkpoint::work_id(works[i]) == id);
    assert(work_items(s.root, works[i]).len() > 0);
    let n = lemma_worked(s.root, works, a, b, w, i, 0);
    let at = route_of(c.table, 3, (id, 0));
    lemma_kept_item(w, n);
    match works[i] {
        WorkV::Write { data, .. } => {
            assert(w.journal()[n].0 == (Item::Entity {
                id,
                current: data.current,
                base: data.base,
            }));
            assert(w.index().lane(3).contents().contains_key(at));
            assert(w.heap(0).image().len() <= PAGE_LIMIT * 8192);
            assert(w.heap(1).image().len() <= PAGE_LIMIT * 8192);
            lemma_written_is_read(w, out, t.root, files, n, data.current, data.base);
        },
        WorkV::Carry { value, .. } => {
            let v = entries[i].1.unwrap();
            let slot = slots[shared_slot(v).unwrap() as int].unwrap();
            assert(w.journal()[n].0 == (Item::Carried { id, value: remapped(v, slot) }));
            assert(w.index().lane(3).contents().contains_key(at));
            lemma_carried_is_read(w, out, s.root, t.root, files, n, id, v, slot);
            lemma_moved_is_read(s.root, t.root, files, c.table, 0, v, slot, id);
        },
    }
}

/// A checkpoint leaves the entities of a bucket that it keeps whole as they were.
pub proof fn lemma_kept_whole_is_read(
    c: Checkpoint,
    s: StateV,
    t: StateV,
    files: Files,
    a: TableWriter,
    b: TableWriter,
    w: TableWriter,
    out: TableOutput,
    table: u64,
    low: u64,
    id: u64,
)
    requires
        stays_whole(c, s, table, low),
        kept_whole(c, a, b, s.root, table, low),
        b.journal().is_prefix_of(w.journal()),
        w.place().0 == table,
        taken_up(w, out, t.root, files),
        c.slots@.len() == MAX_SLOTS,
        leads(c.slots@, s.root, t.root),
        carried_over(s, t, table, id),
        crate::snapshot::valid_root(s.root),
        route_of(table, 3, (id, 0)) == (Route { table, kind: 3, low, low_second: 0 }),
        s.root.partitions[Route { table, kind: 3, low, low_second: 0 }].file.kind == 3,
        s.overlay.dom().finite(),
    ensures
        state_get(t, files, table, id) == state_get(s, files, table, id),
        loaded_data(s, files, table, id) matches Ok(Some(d)) ==> stored_as(
            t.root,
            files,
            table,
            id,
            d,
        ),
{
    let at = Route { table, kind: 3, low, low_second: 0 };
    lemma_recent(s.overlay, table, low, bucket_end(low));
    if s.overlay.contains_key((table, id)) {
        assert(recent_ids(s.overlay, table, low, bucket_end(low)).contains(id));
    }
    let p = s.root.partitions[at];
    let q = moved_part(p, c.slots@);
    let n = a.journal().len() as int;
    let z: int = 0;
    assert(b.journal()[a.journal().len() + z].0 == (Item::Part { route: at, part: q, from: s.root }));
    assert(b.journal()[n] == w.journal()[n]);
    lemma_kept_item(w, n);
    assert(w.index().lane(3).finished().contains_key(at));
    assert(t.root.partitions[at] == q);
    assert(crate::snapshot::valid_part(s.root, at, p));
    reveal(index_lookup);
    reveal(located);
    let key = (id, 0u64);
    assert(tree_of(files, p) == tree_of(files, q));
    match lookup_of(tree_of(files, p), p.lsn, key) {
        Some(Some(x)) => {
            if shared_slot(x) is Some && p.slots.contains_key(shared_slot(x).unwrap()) {
                let old = p.slots[shared_slot(x).unwrap()];
                let new = c.slots@[old as int].unwrap();
                let v = remapped(x, old);
                lemma_remapped(x, old);
                lemma_remapped(x, new);
                assert(q.slots[shared_slot(x).unwrap()] == new);
                assert(remapped(v, new) == remapped(x, new));
                lemma_moved_is_read(s.root, t.root, files, table, 0, v, new, id);
                lemma_moved_is_read(s.root, t.root, files, table, 1, v, new, id);
            }
        },
        _ => {},
    }
}

/// An identifier that a checkpoint has nothing for is not found through the manifest that it
/// makes.
pub proof fn lemma_unwritten_is_absent(
    w: TableWriter,
    out: TableOutput,
    t: StateV,
    files: Files,
    id: u64,
)
    requires
        taken_up(w, out, t.root, files),
        carried_over(t, t, w.place().0, id),
        forall|n: int|
            0 <= n < w.journal().len() && item_kind((#[trigger] w.journal()[n]).0) == 3
                ==> item_key(w.journal()[n].0) != (id, 0u64),
        t.root.partitions.contains_key(route_of(w.place().0, 3, (id, 0)))
            ==> w.index().lane(3).contents().contains_key(route_of(w.place().0, 3, (id, 0))),
    ensures
        current_in(t.root, files, w.place().0, id) == Ok::<_, Fault>(None::<EntityV>),
        !t.poisoned && t.catalog.contains_key(w.place().0) ==> state_get(
            t,
            files,
            w.place().0,
            id,
        ) == Ok::<_, Fault>(None::<EntityV>),
{
    let table = w.place().0;
    let key = (id, 0u64);
    let at = route_of(table, 3, key);
    reveal(located);
    reveal(index_lookup);
    if t.root.partitions.contains_key(at) {
        assert(stands(w, out, 3, at));
        let es = w.index().lane(3).contents()[at];
        let file = heap_file(table, w.place().1, 3);
        let data = choose|data: Seq<u8>| #[trigger]
            out.has(file, data) && built(data, w.place().3, file, at, out.parts()[at], es);
        let n = choose|n: int|
            0 <= n < out.contents@.len() && (#[trigger] out.contents@[n]).0 == file
                && out.contents@[n].1@ == data;
        assert(files[out.contents@[n].0] == out.contents@[n].1@);
        let held = &out.contents@[n].1;
        assert(held@.len() <= u64::MAX) by {
            assert(held.len() == held@.len());
        }
        lemma_built(t.root, files, data, w.place().3, file, key, es);
        let found = index_lookup(t.root, files, table, 3, key).unwrap();
        if let Some(x) = found {
            let k = choose|k: int| 0 <= k < es.len() && es[k] == (key, x);
            let m = lemma_filed_from(w, 3, at, k);
            assert(item_key(w.journal()[m].0) == key);
        }
    }
}

/// Whether a manifest takes up the history that a writer wrote: the segments, the heap of
/// snapshots, and the sequence number of their generation.
pub open spec fn history_taken_up(w: TableWriter, out: TableOutput, r: RootV, files: Files) -> bool {
    let (table, generation, slot, lsn) = w.place();
    &&& out.stands_in(files)
    &&& r.history_generations.contains_key(generation)
    &&& r.history_generations[generation] == lsn
    &&& forall|g: u64| #[trigger]
        w.sequences().contains_key(g) ==> r.history_generations.contains_key(g)
            && r.history_generations[g] == w.sequences()[g]
    &&& out.has(heap_file(table, generation, 2), w.heap(2).image())
    &&& forall|i: int|
        0 <= i < w.segments().len() && i <= u64::MAX ==> out.has(
            FileId { table, generation, kind: 6, segment: i as u64 },
            #[trigger] w.segments()[i],
        )
}

/// Whether finished files are those of a writer, as finishing leaves them.
pub open spec fn finished_as(w: TableWriter, out: TableOutput) -> bool {
    let (table, generation, slot, lsn) = w.place();
    &&& w.sound()
    &&& out.history_generations@ == w.sequences()
    &&& forall|kind: u8|
        kind <= 2 ==> out.has(
            FileId { table, generation, kind, segment: 0 },
            (#[trigger] w.heap(kind)).image(),
        )
    &&& forall|i: int|
        0 <= i < w.segments().len() && i <= u64::MAX ==> out.has(
            FileId { table, generation, kind: 6, segment: i as u64 },
            #[trigger] w.segments()[i],
        )
    &&& forall|kind: u8, at: Route|
        3 <= kind <= 5 && #[trigger] w.index().lane(kind).contents().contains_key(at) ==> stands(
            w,
            out,
            kind,
            at,
        )
    &&& forall|kind: u8, at: Route|
        3 <= kind <= 5 && #[trigger] w.index().lane(kind).finished().contains_key(at)
            ==> out.parts().contains_key(at) && out.parts()[at] == w.index().lane(
            kind,
        ).finished()[at]
    &&& forall|at: Route| #[trigger]
        out.parts().contains_key(at) ==> 3 <= at.kind <= 5 && w.index().lane(at.kind).has(at)
    &&& out.entities == w.written()
    &&& out.reused@ == infos(w.remembered()) + infos(w.index().taken())
    &&& w.remembered().dom().finite() && w.index().taken().dom().finite()
    &&& forall|at: Route, f: FileId|
        #![trigger out.parts()[at].dependencies.contains_key(f)]
        w.index().lane(at.kind).contents().contains_key(at) && 3 <= at.kind <= 5
            && out.parts()[at].dependencies.contains_key(f) ==> w.reaches(f)
    &&& forall|a: Route, b: Route|
        #![trigger out.parts()[a], out.parts()[b]]
        3 <= a.kind <= 5 && a.kind == b.kind && w.index().lane(a.kind).contents().contains_key(a)
            && w.index().lane(a.kind).contents().contains_key(b) && a != b ==> out.parts()[a].base
            != out.parts()[b].base
    &&& out.contents@.len() <= u64::MAX ==> {
        &&& forall|i: int, j: int|
            0 <= i < j < out.contents@.len() ==> (#[trigger] out.contents@[i]).0 != (
            #[trigger] out.contents@[j]).0
        &&& forall|i: int|
            0 <= i < out.contents@.len() ==> own_file(
                w,
                (#[trigger] out.contents@[i]).0,
                out.contents@[i].1@,
            )
    }
}

/// A manifest that absorbs the finished files of a table takes them up, with their history.
pub proof fn lemma_absorbed(w: TableWriter, out: TableOutput, before: RootV, r: RootV, files: Files)
    requires
        finished_as(w, out),
        out.stands_in(files),
        r.partitions == before.partitions.union_prefer_right(out.parts()),
        r.history_generations == before.history_generations.union_prefer_right(
            out.history_generations@,
        ),
        r.catalog.contains_key(w.place().0),
        (w.place().2 as int) < r.generations.len(),
        r.generations[w.place().2 as int] == (GenerationInfo {
            generation: w.place().1,
            lsn: w.place().3,
        }),
        forall|at: Route| #[trigger]
            before.partitions.contains_key(at) ==> at.table != w.place().0,
        w.heap(0).image().len() <= PAGE_LIMIT * 8192,
        w.heap(1).image().len() <= PAGE_LIMIT * 8192,
    ensures
        taken_up(w, out, r, files),
        history_taken_up(w, out, r, files),
{
    let (table, generation, slot, lsn) = w.place();
    lemma_remembered(w);
    assert forall|kind: u8| kind <= 1 implies out.has(
        #[trigger] heap_file(table, generation, kind),
        w.heap(kind).image(),
    ) by {
        assert(out.has(FileId { table, generation, kind, segment: 0 }, w.heap(kind).image()));
    }
    assert forall|kind: u8| kind <= 1 implies (#[trigger] w.heap(kind)).image().len() <= PAGE_LIMIT
        * 8192 by {
        assert(kind == 0 || kind == 1);
    }
    assert(out.has(FileId { table, generation, kind: 2, segment: 0 }, w.heap(2).image()));
}

pub(crate) proof fn lemma_has(out: TableOutput, files: Files, file: FileId, bytes: Seq<u8>)
    requires
        out.stands_in(files),
        out.has(file, bytes),
    ensures
        files.contains_key(file) && files[file] == bytes,
{
    let n = choose|n: int|
        0 <= n < out.contents@.len() && (#[trigger] out.contents@[n]).0 == file
            && out.contents@[n].1@ == bytes;
    assert(files.contains_key(out.contents@[n].0));
}

/// An event that a checkpoint wrote is found under its entity and version, and read back as it
/// was.
pub proof fn lemma_event_is_read(
    w: TableWriter,
    out: TableOutput,
    r: RootV,
    files: Files,
    i: int,
    id: u64,
    event: EventV,
)
    requires
        taken_up(w, out, r, files),
        history_taken_up(w, out, r, files),
        0 <= i < w.journal().len(),
        w.journal()[i].0 == (Item::Event { id, event }),
        encodable_fields(event.fields),
        enc_event(event).len() <= MAX_RECORD,
    ensures
        ({
            let found = index_lookup(r, files, w.place().0, 4, (id, event.version));
            found matches Some(Some(v)) && event_in(r, files, w.place().0, v) == Some(
                (id, event, event.transaction),
            )
        }),
{
    lemma_kept_item(w, i);
    lemma_found(w, out, r, files, i);
    let v = w.journal()[i].1;
    let segment = segment_of(v.1);
    let (table, generation, slot, lsn) = w.place();
    let bytes = w.segments()[segment as int];
    assert(out.has(FileId { table, generation, kind: 6, segment: (segment as int) as u64 }, bytes));
    lemma_has(out, files, FileId { table, generation, kind: 6, segment: segment as u64 }, bytes);
    lemma_event_kept(w, r, files, i, id, event);
}

/// A snapshot that a checkpoint wrote is found under its entity and version, and read back as
/// it was.
pub proof fn lemma_snapshot_is_read(
    w: TableWriter,
    out: TableOutput,
    r: RootV,
    files: Files,
    i: int,
    state: EntityV,
)
    requires
        taken_up(w, out, r, files),
        history_taken_up(w, out, r, files),
        0 <= i < w.journal().len(),
        w.journal()[i].0 == (Item::Snapshot { id: state.id, state }),
        encodable_fields(state.fields),
    ensures
        ({
            let found = index_lookup(r, files, w.place().0, 5, (state.id, state.version));
            found matches Some(Some(v)) && snapshot_in(r, files, w.place().0, v, state.id) == Some(
                state,
            )
        }),
{
    lemma_kept_item(w, i);
    lemma_found(w, out, r, files, i);
    lemma_has(out, files, heap_file(w.place().0, w.place().1, 2), w.heap(2).image());
    lemma_snapshot_kept(w, r, files, i, state);
}

// ---- History that is carried over ----

/// Whether an event is stored under its entity and version.
pub open spec fn event_stored(r: RootV, files: Files, table: u64, id: u64, event: EventV) -> bool {
    index_lookup(r, files, table, 4, (id, event.version)) matches Some(Some(v)) && event_in(
        r,
        files,
        table,
        v,
    ) == Some((id, event, event.transaction))
}

pub(crate) proof fn lemma_parts_steps_has(
    c: Copying,
    r: RootV,
    files: Files,
    id: u64,
    kind: u8,
    d: Option<DataV>,
    first: u64,
    last: u64,
    parts: Seq<(Route, PartV)>,
    k: int,
)
    requires
        0 <= k < parts.len(),
        parts_steps(c, r, files, id, kind, d, first, last, parts) is Ok,
    ensures
        part_steps(c, r, files, id, kind, d, first, last, parts[k]) is Ok,
        forall|x: StepV| #[trigger]
            part_steps(c, r, files, id, kind, d, first, last, parts[k])->Ok_0.contains(x)
                ==> parts_steps(c, r, files, id, kind, d, first, last, parts)->Ok_0.contains(x),
    decreases parts.len(),
{
    let a = part_steps(c, r, files, id, kind, d, first, last, parts[0])->Ok_0;
    let t = parts_steps(c, r, files, id, kind, d, first, last, parts.skip(1))->Ok_0;
    let all = parts_steps(c, r, files, id, kind, d, first, last, parts)->Ok_0;
    assert(all == a + t);
    if k > 0 {
        lemma_parts_steps_has(c, r, files, id, kind, d, first, last, parts.skip(1), k - 1);
        assert(parts.skip(1)[k - 1] == parts[k]);
    }
    lemma_both_contain(a, t);
}

pub(crate) proof fn lemma_both_contain<T>(a: Seq<T>, b: Seq<T>)
    ensures
        forall|x: T| #[trigger] a.contains(x) ==> (a + b).contains(x),
        forall|x: T| #[trigger] b.contains(x) ==> (a + b).contains(x),
{
    assert forall|x: T| #[trigger] a.contains(x) implies (a + b).contains(x) by {
        let i = choose|i: int| 0 <= i < a.len() && a[i] == x;
        assert((a + b)[i] == x);
    }
    assert forall|x: T| #[trigger] b.contains(x) implies (a + b).contains(x) by {
        let i = choose|i: int| 0 <= i < b.len() && b[i] == x;
        assert((a + b)[a.len() + i] == x);
    }
}

pub(crate) proof fn lemma_entry_steps_has(
    c: Copying,
    r: RootV,
    files: Files,
    id: u64,
    kind: u8,
    d: Option<DataV>,
    entries: Stream,
    k: int,
)
    requires
        0 <= k < entries.items.len(),
        entry_steps(c, r, files, id, kind, d, entries) is Ok,
    ensures
        entry_step(c, r, files, id, kind, d, entries.items[k]) is Ok,
        forall|x: StepV| #[trigger]
            entry_step(c, r, files, id, kind, d, entries.items[k])->Ok_0.contains(x)
                ==> entry_steps(c, r, files, id, kind, d, entries)->Ok_0.contains(x),
    decreases entries.items.len(),
{
    let more = Stream { items: entries.items.skip(1), sound: entries.sound };
    let a = entry_step(c, r, files, id, kind, d, entries.items[0])->Ok_0;
    let t = entry_steps(c, r, files, id, kind, d, more)->Ok_0;
    assert(entry_steps(c, r, files, id, kind, d, entries)->Ok_0 == a + t);
    if k > 0 {
        lemma_entry_steps_has(c, r, files, id, kind, d, more, k - 1);
        assert(more.items[k - 1] == entries.items[k]);
    }
    lemma_both_contain(a, t);
}

/// The steps that carry history over leave out no event between the versions that are wanted:
/// its partition is taken over, or it is linked to, or it is written anew.
proof fn lemma_steps_cover(
    c: Copying,
    r: RootV,
    files: Files,
    id: u64,
    d: Option<DataV>,
    base: u64,
    last: u64,
    es: Seq<Entry>,
    v: u64,
    x: Value,
)
    requires
        kind_steps(c, r, files, id, 4, d, base, last) is Ok,
        base < v <= last,
        r.partitions.dom().finite(),
        r.partitions.contains_key(route_of(c.table, 4, (id, v))),
        gives_back(
            files,
            route_of(c.table, 4, (id, v)),
            r.partitions[route_of(c.table, 4, (id, v))],
            es,
        ),
        es.contains(((id, v), x)),
    ensures
        ({
            let steps = kind_steps(c, r, files, id, 4, d, base, last)->Ok_0;
            ||| steps.contains(StepV::Reuse(route_of(c.table, 4, (id, v))))
            ||| steps.contains(StepV::EventLink((id, v), x))
            ||| exists|event: EventV| #[trigger]
                steps.contains(StepV::Event(event)) && event_in(r, files, c.table, x) == Some(
                    (id, event, event.transaction),
                ) && event.version == v
        }),
{
    let at = route_of(c.table, 4, (id, v));
    let p = r.partitions[at];
    let first = (base + 1) as u64;
    let l = listing(r.partitions);
    let q = between_routes(
        route_of(c.table, 4, (id, first)),
        route_of(c.table, 4, (id, last)),
    );
    let parts = kind_parts(c, r, id, 4, first, last);
    let steps = kind_steps(c, r, files, id, 4, d, base, last)->Ok_0;
    lemma_listing(r.partitions);
    reveal(lists);
    let j = choose|j: int| 0 <= j < l.len() && (#[trigger] l[j]).0 == at;
    assert(l[j] == (at, p));
    lemma_bucket_order(4, (id, first), (id, v));
    lemma_bucket_order(4, (id, v), (id, last));
    assert(q(l[j]));
    lemma_filter_has(l, q, j);
    let k = choose|k: int| 0 <= k < parts.len() && parts[k] == l[j];
    lemma_parts_steps_has(c, r, files, id, 4, d, first, last, parts, k);
    let mine = part_steps(c, r, files, id, 4, d, first, last, (at, p))->Ok_0;
    if intact(c, 4, d, first, last, at, p) {
        assert(mine[0] == StepV::Reuse(at));
        assert(mine.contains(StepV::Reuse(at)));
    } else {
        reveal(gives);
        let entries = scan_of(tree_of(files, p), p.lsn, (id, first), (id, last)).unwrap();
        let e = ((id, v), x);
        let m = choose|m: int| 0 <= m < es.len() && es[m] == e;
        lemma_filter_has(es, between((id, first), (id, last)), m);
        let n = choose|n: int| 0 <= n < entries.items.len() && entries.items[n] == e;
        lemma_entry_steps_has(c, r, files, id, 4, d, entries, n);
        let one = entry_step(c, r, files, id, 4, d, e)->Ok_0;
        assert(one.contains(one[0]));
        assert(mine.contains(one[0]));
        assert(steps.contains(one[0]));
    }
}

/// The versions of stored history that the work for an entity carries over.
pub open spec fn carried_range(work: WorkV) -> (Option<DataV>, u64, u64) {
    match work {
        WorkV::Carry { .. } => (None, 0, u64::MAX),
        WorkV::Write { data, .. } => (
            Some(data),
            data.base.version,
            match data.disk {
                Some(disk) => disk.through,
                None => 0,
            },
        ),
    }
}

/// The steps of the work for an entity.
pub open spec fn steps_of(work: WorkV) -> Seq<StepV> {
    match work {
        WorkV::Carry { steps, .. } => steps,
        WorkV::Write { steps, .. } => steps,
    }
}

pub(crate) proof fn lemma_steps_of(
    c: Copying,
    slots: Seq<Option<u8>>,
    s: StateV,
    files: Files,
    quotas: Seq<u64>,
    entries: Seq<(u64, Option<Value>)>,
    i: int,
)
    requires
        work_all(c, slots, s, files, quotas, entries) is Ok,
        0 <= i < entries.len(),
    ensures
        ({
            let work = work_all(c, slots, s, files, quotas, entries)->Ok_0.works[i];
            let (d, base, last) = carried_range(work);
            let r = work_root(s.root, work);
            &&& i < work_all(c, slots, s, files, quotas, entries)->Ok_0.works.len()
            &&& base < last ==> history_steps(c, r, files, entries[i].0, d, base, last) == Ok::<
                _,
                Fault,
            >(steps_of(work))
        }),
    decreases entries.len(),
{
    reveal(work_for);
    let front = entries.drop_last();
    lemma_length(c, slots, s, files, quotas, entries);
    lemma_length(c, slots, s, files, quotas, front);
    if i < front.len() {
        lemma_steps_of(c, slots, s, files, quotas, front, i);
        assert(front[i] == entries[i]);
        assert(work_all(c, slots, s, files, quotas, entries)->Ok_0.works[i] == work_all(
            c,
            slots,
            s,
            files,
            quotas,
            front,
        )->Ok_0.works[i]);
    }
}

/// Whether the work for an entity carries stored history over.
pub open spec fn carries(work: WorkV) -> bool {
    match work {
        WorkV::Carry { .. } => true,
        WorkV::Write { data, .. } => data.disk matches Some(disk) && data.base.version
            <= disk.through,
    }
}

proof fn lemma_last_steps(
    c: Copying,
    slots: Seq<Option<u8>>,
    s: StateV,
    files: Files,
    b: Batch,
    e: (u64, Option<Value>),
)
    requires
        work_for(c, slots, s, files, b, e) is Ok,
    ensures
        ({
            let works = work_for(c, slots, s, files, b, e)->Ok_0.works;
            let work = works.last();
            let (d, base, last) = carried_range(work);
            &&& works.drop_last() == b.works
            &&& works.len() == b.works.len() + 1
            &&& if carries(work) {
                history_steps(c, work_root(s.root, work), files, e.0, d, base, last) == Ok::<
                    _,
                    Fault,
                >(steps_of(work))
            } else {
                steps_of(work).len() == 0
            }
        }),
{
    reveal(work_for);
    let works = work_for(c, slots, s, files, b, e)->Ok_0.works;
    assert(works.drop_last() =~= b.works);
}

/// The steps of the work for an entity are those that carry its stored history over.
pub(crate) proof fn lemma_all_steps(
    c: Copying,
    slots: Seq<Option<u8>>,
    s: StateV,
    files: Files,
    quotas: Seq<u64>,
    entries: Seq<(u64, Option<Value>)>,
    i: int,
)
    requires
        work_all(c, slots, s, files, quotas, entries) is Ok,
        0 <= i < entries.len(),
    ensures
        ({
            let work = work_all(c, slots, s, files, quotas, entries)->Ok_0.works[i];
            let (d, base, last) = carried_range(work);
            if carries(work) {
                history_steps(c, work_root(s.root, work), files, entries[i].0, d, base, last)
                    == Ok::<_, Fault>(steps_of(work))
            } else {
                steps_of(work).len() == 0
            }
        }),
    decreases entries.len(),
{
    let front = entries.drop_last();
    let b = work_all(c, slots, s, files, quotas, front)->Ok_0;
    let all = work_all(c, slots, s, files, quotas, entries)->Ok_0.works;
    lemma_length(c, slots, s, files, quotas, front);
    lemma_last_steps(c, slots, s, files, b, entries.last());
    if i < front.len() {
        lemma_all_steps(c, slots, s, files, quotas, front, i);
        assert(all.drop_last()[i] == all[i]);
    }
}

pub(crate) proof fn lemma_length(
    c: Copying,
    slots: Seq<Option<u8>>,
    s: StateV,
    files: Files,
    quotas: Seq<u64>,
    entries: Seq<(u64, Option<Value>)>,
)
    requires
        work_all(c, slots, s, files, quotas, entries) is Ok,
    ensures
        work_all(c, slots, s, files, quotas, entries)->Ok_0.works.len() == entries.len(),
    decreases entries.len(),
{
    reveal(work_for);
    if entries.len() > 0 {
        lemma_length(c, slots, s, files, quotas, entries.drop_last());
    }
}

/// A checkpoint loses no stored event of an entity that it works on: each that is retained is
/// stored under its version through the manifest that the checkpoint makes, whether its
/// partition is taken over, its place linked to, or its record written anew.
pub proof fn lemma_stored_event_is_kept(
    c: Copying,
    slots: Seq<Option<u8>>,
    s: StateV,
    files: Files,
    quotas: Seq<u64>,
    entries: Seq<(u64, Option<Value>)>,
    a: TableWriter,
    b: TableWriter,
    w: TableWriter,
    out: TableOutput,
    r: RootV,
    i: int,
    es: Seq<Entry>,
    x: Value,
    event: EventV,
)
    requires
        work_all(c, slots, s, files, quotas, entries) is Ok,
        0 <= i < entries.len(),
        added(
            a,
            b,
            works_items(s.root, work_all(c, slots, s, files, quotas, entries)->Ok_0.works),
        ),
        b.journal().is_prefix_of(w.journal()),
        w.place().0 == c.table,
        taken_up(w, out, r, files),
        history_taken_up(w, out, r, files),
        encodable_fields(event.fields),
        enc_event(event).len() <= MAX_RECORD,
        ({
            let work = work_all(c, slots, s, files, quotas, entries)->Ok_0.works[i];
            let (d, base, last) = carried_range(work);
            let before = work_root(s.root, work);
            let at = route_of(c.table, 4, (entries[i].0, event.version));
            let p = before.partitions[at];
            &&& base < event.version <= last
            &&& before.partitions.dom().finite()
            &&& before.partitions.contains_key(at)
            &&& p.file.kind == 4
            &&& gives_back(files, at, p, es)
            &&& es.contains(((entries[i].0, event.version), x))
            &&& p.dependencies.contains_key(link_file(c.table, 4, x))
            &&& event_in(before, files, c.table, x) == Some(
                (entries[i].0, event, event.transaction),
            )
        }),
    ensures
        event_stored(r, files, c.table, entries[i].0, event),
{
    let works = work_all(c, slots, s, files, quotas, entries)->Ok_0.works;
    let work = works[i];
    let id = entries[i].0;
    let (d, base, last) = carried_range(work);
    let before = work_root(s.root, work);
    let v = event.version;
    let at = route_of(c.table, 4, (id, v));
    lemma_steps_of(c, slots, s, files, quotas, entries, i);
    lemma_work_id(c, slots, s, files, quotas, entries, i);
    let steps = steps_of(work);
    let front = kind_steps(c, before, files, id, 5, d, base, last)->Ok_0;
    let mine = kind_steps(c, before, files, id, 4, d, base, last)->Ok_0;
    assert(steps == front + mine);
    lemma_both_contain(front, mine);
    lemma_steps_cover(c, before, files, id, d, base, last, es, v, x);
    let step = if mine.contains(StepV::Reuse(at)) {
        StepV::Reuse(at)
    } else if mine.contains(StepV::EventLink((id, v), x)) {
        StepV::EventLink((id, v), x)
    } else {
        StepV::Event(event)
    };
    assert(steps.contains(step));
    let k = choose|k: int| 0 <= k < steps.len() && steps[k] == step;
    let items = work_items(s.root, work);
    assert(items[1 + k] == step_item(before, id, step)) by {
        assert(step_items(before, id, steps)[k] == step_item(before, id, steps[k]));
    }
    let n = lemma_worked(s.root, works, a, b, w, i, 1 + k);
    lemma_kept_item(w, n);
    reveal(index_lookup);
    reveal(event_in);
    lemma_remembered(w);
    match step {
        StepV::Reuse(_) => {
            assert(w.index().lane(4).finished().contains_key(at));
            assert(r.partitions[at] == before.partitions[at]);
            assert(w.remembered().contains_key(link_file(c.table, 4, x)));
            lemma_given(files, at, before.partitions[at], es, (id, v), x);
        },
        StepV::EventLink(_, _) => {
            lemma_found(w, out, r, files, n);
        },
        _ => {
            lemma_event_is_read(w, out, r, files, n, id, event);
        },
    }
}

pub(crate) proof fn lemma_work_id(
    c: Copying,
    slots: Seq<Option<u8>>,
    s: StateV,
    files: Files,
    quotas: Seq<u64>,
    entries: Seq<(u64, Option<Value>)>,
    i: int,
)
    requires
        work_all(c, slots, s, files, quotas, entries) is Ok,
        0 <= i < entries.len(),
    ensures
        crate::checkpoint::work_id(work_all(c, slots, s, files, quotas, entries)->Ok_0.works[i])
            == entries[i].0,
    decreases entries.len(),
{
    reveal(work_for);
    let front = entries.drop_last();
    lemma_length(c, slots, s, files, quotas, entries);
    lemma_length(c, slots, s, files, quotas, front);
    if i < front.len() {
        lemma_work_id(c, slots, s, files, quotas, front, i);
        assert(front[i] == entries[i]);
        assert(work_all(c, slots, s, files, quotas, entries)->Ok_0.works[i] == work_all(
            c,
            slots,
            s,
            files,
            quotas,
            front,
        )->Ok_0.works[i]);
    }
}

pub(crate) proof fn lemma_given(files: Files, at: Route, p: PartV, es: Seq<Entry>, key: Key, x: Value)
    requires
        gives_back(files, at, p, es),
        es.contains((key, x)),
    ensures
        lookup_of(tree_of(files, p), p.lsn, key) == Some(Some(x)),
{
    reveal(gives);
    reveal(increasing);
    Key::order_laws();
    let j = choose|j: int| 0 <= j < es.len() && es[j] == (key, x);
    match lookup_of(tree_of(files, p), p.lsn, key).unwrap() {
        None => {
            assert(es[j].0 != key);
        },
        Some(y) => {
            let k = choose|k: int| 0 <= k < es.len() && es[k] == (key, y);
            if j < k {
                assert(es[j].0.before(es[k].0));
            } else if k < j {
                assert(es[k].0.before(es[j].0));
            }
        },
    }
}

/// A primary entry that a partition gives back is the one that its identifier is found by.
pub proof fn lemma_entry_is_located(
    r: RootV,
    files: Files,
    table: u64,
    id: u64,
    v: Value,
    es: Seq<Entry>,
)
    requires
        r.catalog.contains_key(table),
        r.partitions.contains_key(route_of(table, 3, (id, 0))),
        gives_back(
            files,
            route_of(table, 3, (id, 0)),
            r.partitions[route_of(table, 3, (id, 0))],
            es,
        ),
        es.contains(((id, 0u64), v)),
        shared_slot(v) is Some,
    ensures
        located(r, files, table, id) == Ok::<_, Fault>(Some(v)),
{
    let at = route_of(table, 3, (id, 0));
    reveal(located);
    reveal(index_lookup);
    lemma_given(files, at, r.partitions[at], es, (id, 0), v);
    let j = choose|j: int| 0 <= j < es.len() && es[j] == ((id, 0u64), v);
    assert(crate::partitions::translated(r.partitions[at], es[j].1) == Some(es[j].1));
}

/// A checkpoint loses no event that memory holds of an entity: each is stored under its version
/// through the manifest that the checkpoint makes.
pub proof fn lemma_recent_event_is_kept(
    c: Copying,
    slots: Seq<Option<u8>>,
    s: StateV,
    files: Files,
    quotas: Seq<u64>,
    entries: Seq<(u64, Option<Value>)>,
    a: TableWriter,
    b: TableWriter,
    w: TableWriter,
    out: TableOutput,
    r: RootV,
    i: int,
    k: int,
)
    requires
        work_all(c, slots, s, files, quotas, entries) is Ok,
        0 <= i < entries.len(),
        added(
            a,
            b,
            works_items(s.root, work_all(c, slots, s, files, quotas, entries)->Ok_0.works),
        ),
        b.journal().is_prefix_of(w.journal()),
        w.place().0 == c.table,
        taken_up(w, out, r, files),
        history_taken_up(w, out, r, files),
        work_all(c, slots, s, files, quotas, entries)->Ok_0.works[i] is Write,
        ({
            let d = work_all(c, slots, s, files, quotas, entries)->Ok_0.works[i]->Write_data;
            &&& 0 <= k < kept_events(d).len()
            &&& encodable_fields(kept_events(d)[k].1.fields)
            &&& enc_event(kept_events(d)[k].1).len() <= MAX_RECORD
        }),
    ensures
        ({
            let d = work_all(c, slots, s, files, quotas, entries)->Ok_0.works[i]->Write_data;
            event_stored(r, files, c.table, entries[i].0, kept_events(d)[k].1)
        }),
{
    let works = work_all(c, slots, s, files, quotas, entries)->Ok_0.works;
    let d = works[i]->Write_data;
    let id = entries[i].0;
    lemma_work_id(c, slots, s, files, quotas, entries, i);
    lemma_length(c, slots, s, files, quotas, entries);
    let steps = steps_of(works[i]);
    let root = history_root(d);
    let m = 1 + step_items(root, id, steps).len() + kept_states(d).len() + k;
    let items = work_items(s.root, works[i]);
    assert(items[m] == (Item::Event { id, event: kept_events(d)[k].1 })) by {
        assert(kept_events(d).map_values(
            |e: (u64, EventV)| Item::Event { id, event: e.1 },
        )[k] == (Item::Event { id, event: kept_events(d)[k].1 }));
    }
    let n = lemma_worked(s.root, works, a, b, w, i, m);
    lemma_event_is_read(w, out, r, files, n, id, kept_events(d)[k].1);
}

/// A checkpoint loses no stored event of an entity in a bucket that it keeps whole.
pub proof fn lemma_whole_event_is_kept(
    c: Checkpoint,
    s: StateV,
    files: Files,
    a: TableWriter,
    b: TableWriter,
    w: TableWriter,
    out: TableOutput,
    r: RootV,
    table: u64,
    low: u64,
    id: u64,
    event: EventV,
)
    requires
        kept_whole(c, a, b, s.root, table, low),
        b.journal().is_prefix_of(w.journal()),
        w.place().0 == table,
        taken_up(w, out, r, files),
        history_taken_up(w, out, r, files),
        crate::snapshot::valid_root(s.root),
        s.root.partitions.dom().finite(),
        low <= id <= bucket_end(low),
        event_stored(s.root, files, table, id, event),
        ({
            let at = route_of(table, 4, (id, event.version));
            let p = s.root.partitions[at];
            let found = index_lookup(s.root, files, table, 4, (id, event.version));
            p.file.kind == 4 && p.dependencies.contains_key(
                link_file(table, 4, found.unwrap().unwrap()),
            )
        }),
    ensures
        event_stored(r, files, table, id, event),
{
    reveal(index_lookup);
    reveal(event_in);
    let at = route_of(table, 4, (id, event.version));
    let p = s.root.partitions[at];
    let l = listing(s.root.partitions);
    let events = range_parts(s.root, table, 4, low, bucket_end(low));
    let states = range_parts(s.root, table, 5, low, bucket_end(low));
    lemma_listing(s.root.partitions);
    reveal(lists);
    let j = choose|j: int| 0 <= j < l.len() && (#[trigger] l[j]).0 == at;
    let q = between_routes(
        Route { table, kind: 4, low, low_second: 0 },
        Route { table, kind: 4, low: bucket_end(low), low_second: u64::MAX },
    );
    assert(q(l[j]));
    lemma_filter_has(l, q, j);
    let k = choose|k: int| 0 <= k < events.len() && events[k] == l[j];
    assert(moved_items(s.root, events, c.slots@)[k] == (Item::Part {
        route: at,
        part: moved_part(p, c.slots@),
        from: s.root,
    }));
    let items = seq![Item::Part {
        route: Route { table, kind: 3, low, low_second: 0 },
        part: moved_part(
            s.root.partitions[Route { table, kind: 3, low, low_second: 0 }],
            c.slots@,
        ),
        from: s.root,
    }] + (moved_items(s.root, events, c.slots@) + moved_items(s.root, states, c.slots@));
    let n = a.journal().len() + (1 + k);
    assert(items[1 + k] == moved_items(s.root, events, c.slots@)[k]);
    assert(b.journal()[a.journal().len() + (1 + k)].0 == items[1 + k]);
    assert(b.journal()[n] == w.journal()[n]);
    lemma_kept_item(w, n);
    lemma_remembered(w);
    assert(w.index().lane(4).finished().contains_key(at));
    let x = index_lookup(s.root, files, table, 4, (id, event.version)).unwrap().unwrap();
    let moved = moved_part(p, c.slots@);
    assert(r.partitions[at] == moved);
    assert(moved.dependencies.contains_key(link_file(table, 4, x)));
    assert(w.remembered().contains_key(link_file(table, 4, x)));
    assert(w.sequences().contains_key(x.0));
    assert(tree_of(files, moved) == tree_of(files, p));
    assert(index_lookup(r, files, table, 4, (id, event.version)) == Some(Some(x)));
    assert(event_in(r, files, table, x) == event_in(s.root, files, table, x));
}

} // verus!
