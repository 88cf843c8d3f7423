//! The manifest that a checkpoint makes: it is valid, it reads back, and it lists its files as
//! they are.

use crate::checkpoint::Checkpoint;
use crate::checkpoint::WorkV;
use crate::checkpoint::bucket_done;
use crate::checkpoint::bucket_end;
use crate::checkpoint::bucket_work;
use crate::checkpoint::copying_of;
use crate::checkpoint::died;
use crate::checkpoint::emptied;
use crate::checkpoint::has_bucket;
use crate::checkpoint::settled;
use crate::checkpoint::stays_whole;
use crate::checkpoint::work_all;
use crate::checkpoint::work_for;
use crate::checkpoint::work_items;
use crate::checkpoint::work_root;
use crate::checkpoint::works_items;
use crate::checksum::crc;
use crate::consistency::consistent;
use crate::copying::Copying;
use crate::copying::StepV;
use crate::copying::intact;
use crate::copying::kind_parts;
use crate::copying::kind_steps;
use crate::counting::Visit;
use crate::counting::all_carried;
use crate::counting::all_dead;
use crate::counting::all_entries;
use crate::counting::all_writes;
use crate::counting::buriable;
use crate::counting::buried;
use crate::counting::census;
use crate::counting::count_at;
use crate::counting::left_alone;
use crate::counting::lemma_buried;
use crate::counting::lemma_dead_slots;
use crate::counting::lemma_live_counts;
use crate::counting::lemma_written_anew;
use crate::counting::live_at;
use crate::counting::live_in;
use crate::counting::moving;
use crate::counting::outdated;
use crate::counting::stays_in;
use crate::counting::worked_on;
use crate::entity::DataV;
use crate::entity::lemma_filter_member;
use crate::error::Fault;
use crate::indexes::built;
use crate::indexes::historic;
use crate::indexes::lemma_info;
use crate::indexes::slotted;
use crate::installing::lemma_filter_single;
use crate::keeping::carried_range;
use crate::keeping::carries;
use crate::keeping::finished_as;
use crate::keeping::lemma_all_steps;
use crate::keeping::lemma_generations_fit;
use crate::keeping::lemma_length;
use crate::keeping::lemma_work_id;
use crate::keeping::lemma_work_of;
use crate::keeping::steps_of;
use crate::key::OrderedKey;
use crate::key::increasing;
use crate::key::lemma_listing;
use crate::key::listing;
use crate::key::lists;
use crate::operation::sound_catalog;
use crate::partitions::PartV;
use crate::partitions::Route;
use crate::partitions::between_routes;
use crate::partitions::bucket_of;
use crate::partitions::index_scan;
use crate::partitions::joined;
use crate::partitions::lemma_remapped;
use crate::partitions::part_stream;
use crate::partitions::parts_between;
use crate::partitions::route_of;
use crate::partitions::scan_over;
use crate::partitions::scan_parts;
use crate::partitions::shared_slot;
use crate::partitions::translated;
use crate::partitions::translated_all;
use crate::partitions::tree_of;
use crate::reader::StateV;
use crate::reader::loaded_data;
use crate::reader::merged;
use crate::reader::primary;
use crate::reader::recent_ids;
use crate::reader::table_entries;
use crate::recovery::verified;
use crate::snapshot::FileInfo;
use crate::snapshot::GenerationInfo;
use crate::snapshot::MAX_SLOTS;
use crate::snapshot::Occupancy;
use crate::snapshot::RootV;
use crate::snapshot::Share;
use crate::snapshot::complete_part;
use crate::snapshot::dec_root;
use crate::snapshot::distinct_files;
use crate::snapshot::distinct_places;
use crate::snapshot::enc_root;
use crate::snapshot::encodable_root;
use crate::snapshot::file_stays;
use crate::snapshot::holds_page;
use crate::snapshot::lemma_root;
use crate::snapshot::lemma_translation;
use crate::snapshot::listed;
use crate::snapshot::moved;
use crate::snapshot::names;
use crate::snapshot::same_place;
use crate::snapshot::sized;
use crate::snapshot::stays;
use crate::snapshot::translation;
use crate::snapshot::valid_count;
use crate::snapshot::valid_file;
use crate::snapshot::valid_part;
use crate::snapshot::valid_root;
use crate::snapshots::item_true;
use crate::snapshots::journal_true;
use crate::snapshots::lemma_entry_steps_from;
use crate::snapshots::lemma_journal_true;
use crate::snapshots::lemma_kind_part;
use crate::snapshots::lemma_parts_steps_from;
use crate::snapshots::lemma_whole_true;
use crate::snapshots::lemma_work_true;
use crate::snapshots::same_sequences;
use crate::snapshots::snapshots_given;
use crate::snapshots::sources_agree;
use crate::snapshots::states_fit;
use crate::storage::heap::PAGE_LIMIT;
use crate::storage::index::Entry;
use crate::storage::index::Key;
use crate::storage::index::Stream;
use crate::storage::index::Value;
use crate::storage::index::scan_of;
use crate::storage::pager::FileId;
use crate::storage::pager::Files;
use crate::table_writer::Item;
use crate::table_writer::TableOutput;
use crate::table_writer::TableWriter;
use crate::table_writer::added;
use crate::table_writer::calls_for;
use crate::table_writer::infos;
use crate::table_writer::lemma_adopted_from;
use crate::table_writer::lemma_contents_increase;
use crate::table_writer::lemma_entity_slot;
use crate::table_writer::lemma_filed_from;
use crate::table_writer::lemma_kept_item;
use crate::table_writer::lemma_recorded;
use crate::table_writer::lemma_remembered;
use crate::table_writer::lemma_remembered_from;
use crate::table_writer::lemma_sequence_from;
use crate::table_writer::lemma_taken_from;
use crate::table_writer::moved_items;
use crate::table_writer::moved_part;
use crate::table_writer::own_file;
use crate::table_writer::range_parts;
use crate::table_writer::recorded;
use crate::table_writer::source;
use crate::table_writer::stands;
use crate::table_writer::step_item;
use crate::table_writer::step_items;
use crate::versions::stored_faithful;
use crate::walks::lemma_filter_has;
use crate::walks::lemma_recent;
use vstd::prelude::*;

verus! {

// ---- Manifests ----

/// Whether the parts of a manifest agree with one another, its catalog is sound, and each index
/// partition stands in a file of its table and kind.
pub open spec fn well_made(r: RootV) -> bool {
    &&& valid_root(r)
    &&& sound_catalog(r.catalog)
    &&& forall|at: Route| #[trigger]
        r.partitions.contains_key(at) ==> r.partitions[at].file.table == at.table
            && r.partitions[at].file.kind == at.kind
}

/// A manifest that is well made reads back from its bytes.
pub proof fn lemma_reads_back(r: RootV)
    requires
        well_made(r),
        sized(r),
    ensures
        dec_root(enc_root(r)) == Some(r),
{
    assert forall|id: u64| #[trigger] r.catalog.contains_key(id) implies r.catalog[id].schemas.len()
        <= u64::MAX by {
        let t = r.catalog[id];
        let n = t.schemas.len() - 1;
        assert(t.schemas[n].version == n + 1);
    }
    assert forall|at: Route| #[trigger] r.partitions.contains_key(at) implies {
        &&& r.partitions[at].slots.dom().finite()
        &&& r.partitions[at].dependencies.dom().finite()
        &&& r.partitions[at].dependencies.dom().len() <= u64::MAX
    } by {
        lemma_few_slots(r.partitions[at].slots.dom());
        lemma_few_files(r.files, r.partitions[at].dependencies.dom());
    }
    assert(encodable_root(r));
    lemma_root(r);
}

/// A set of slots is finite.
proof fn lemma_few_slots(s: Set<u8>)
    ensures
        s.finite(),
{
    let all = vstd::set_lib::set_int_range(0, 256);
    vstd::set_lib::lemma_int_range(0, 256);
    let t = s.map(|b: u8| b as int);
    vstd::set_lib::lemma_len_subset(t, all);
    assert(s =~= t.map(|x: int| x as u8)) by {
        assert forall|b: u8| s.contains(b) == t.map(|x: int| x as u8).contains(b) by {
            if s.contains(b) {
                assert(t.contains(b as int));
            }
        }
    }
    t.lemma_map_finite(|x: int| x as u8);
}

/// Files that are all listed are no more than those that are.
proof fn lemma_few_files(files: Seq<FileInfo>, s: Set<FileId>)
    requires
        files.len() <= u64::MAX,
        forall|f: FileId| #[trigger] s.contains(f) ==> listed(files, f),
    ensures
        s.finite(),
        s.len() <= u64::MAX,
{
    let names = files.map_values(|i: FileInfo| i.named());
    vstd::seq_lib::seq_to_set_is_finite(names);
    names.lemma_cardinality_of_set();
    assert(s.subset_of(names.to_set())) by {
        assert forall|f: FileId| #[trigger] s.contains(f) implies names.to_set().contains(f) by {
            let i = choose|i: int| 0 <= i < files.len() && (#[trigger] files[i]).named() == f;
            assert(names[i] == f);
        }
    }
    vstd::set_lib::lemma_len_subset(s, names.to_set());
}

/// Whether nothing of a table was taken up yet but heaps of earlier generations.
pub open spec fn untouched(r: RootV, table: u64) -> bool {
    &&& forall|at: Route| #[trigger] r.partitions.contains_key(at) ==> at.table != table
    &&& forall|i: int|
        0 <= i < r.files.len() && (#[trigger] r.files[i]).table == table ==> r.files[i].kind <= 1
            && r.files[i].generation < r.generation
    &&& forall|at: Share| #[trigger]
        r.occupancy.contains_key(at) && at.table == table ==> at.slot + 1 < r.generations.len()
}

/// Whether a manifest is the one that a checkpoint of a view begins with.
pub open spec fn begins(s: StateV, generation: u64, plan: Map<u64, u64>, r: RootV) -> bool {
    let absorb = emptied(plan);
    let kept = s.root.generations.filter(stays(absorb));
    &&& kept.len() < MAX_SLOTS
    &&& r.generation == generation
    &&& r.lsn == s.lsn
    &&& r.catalog == s.catalog
    &&& r.generations == kept.push(GenerationInfo { generation, lsn: s.lsn })
    &&& r.files == s.root.files.filter(file_stays(absorb))
    &&& r.partitions == Map::<Route, PartV>::empty()
    &&& r.history_generations == Map::<u64, u64>::empty()
    &&& moved(s.root.occupancy, translation(s.root.generations, absorb), r.occupancy)
}

/// A checkpoint of a view that rests on a well made manifest begins with one.
pub proof fn lemma_begins(s: StateV, generation: u64, plan: Map<u64, u64>, r: RootV)
    requires
        well_made(s.root),
        sound_catalog(s.catalog),
        forall|t: u64| #[trigger] s.root.catalog.contains_key(t) ==> s.catalog.contains_key(t),
        s.root.generation < generation,
        begins(s, generation, plan, r),
    ensures
        well_made(r),
        forall|table: u64| #[trigger] untouched(r, table),
{
    let absorb = emptied(plan);
    let g = s.root.generations;
    let p = file_stays(absorb);
    lemma_generations_fit(s.root, r, absorb, s.lsn);
    lemma_filter_member(s.root.files, p);
    assert forall|i: int| 0 <= i < r.files.len() implies valid_file(r, #[trigger] r.files[i])
        && r.files[i].kind <= 1 && r.files[i].generation < generation by {
        let f = r.files[i];
        assert(p(f));
        let k = choose|k: int| 0 <= k < s.root.files.len() && #[trigger] s.root.files[k] == f;
        assert(valid_file(s.root, s.root.files[k]));
        let j = choose|j: int| 0 <= j < g.len() && (#[trigger] g[j]).generation == f.generation;
        lemma_filter_has(g, stays(absorb), j);
        let kept = g.filter(stays(absorb));
        let m = choose|m: int| 0 <= m < kept.len() && kept[m] == g[j];
        assert(r.generations[m] == g[j]);
        assert(names(r.generations, f.generation));
        let last = g.len() - 1;
        if j < last {
            assert(g[j].generation < g[last].generation);
        }
    }
    assert(distinct_files(r.files)) by {
        lemma_filter_distinct(s.root.files, p);
    }
    assert forall|to: Share| #[trigger] r.occupancy.contains_key(to) implies valid_count(
        r,
        to,
        r.occupancy[to],
    ) && to.slot + 1 < r.generations.len() by {
        let slots = translation(g, absorb);
        let at = choose|at: Share| #[trigger]
            s.root.occupancy.contains_key(at) && at.table == to.table && slots[at.slot as int]
                == Some(to.slot);
        assert(valid_count(s.root, at, s.root.occupancy[at]));
        assert(r.occupancy[to] == s.root.occupancy[at]);
        lemma_translation(g, absorb, at.slot, at.slot);
    }
}

/// A filter of distinct files leaves distinct ones.
proof fn lemma_filter_distinct(s: Seq<FileInfo>, p: spec_fn(FileInfo) -> bool)
    requires
        distinct_files(s),
    ensures
        distinct_files(s.filter(p)),
    decreases s.len(),
{
    reveal(Seq::filter);
    if s.len() > 0 {
        let t = s.drop_last();
        assert(distinct_files(t)) by {
            assert forall|i: int, j: int| 0 <= i < j < t.len() implies (#[trigger] t[i]).named()
                != (#[trigger] t[j]).named() by {
                assert(t[i] == s[i] && t[j] == s[j]);
            }
        }
        lemma_filter_distinct(t, p);
        lemma_filter_member(t, p);
        let f = t.filter(p);
        assert forall|i: int, j: int| 0 <= i < j < s.filter(p).len() implies (#[trigger] s.filter(
            p,
        )[i]).named() != (#[trigger] s.filter(p)[j]).named() by {
            assert(s.filter(p)[i] == f[i]);
            if j == f.len() {
                let k = choose|k: int| 0 <= k < t.len() && #[trigger] t[k] == f[i];
                assert(s[k].named() != s[s.len() - 1].named());
            } else {
                assert(s.filter(p)[j] == f[j]);
            }
        }
    }
}

// ---- Taking up a table ----

/// Whether two manifests agree where both speak: on the sequence numbers of generations, on the
/// files that both list, and on the routes of the partitions that both have.
pub open spec fn akin(a: RootV, b: RootV) -> bool {
    &&& same_sequences(a, b)
    &&& forall|i: int, j: int|
        0 <= i < a.files.len() && 0 <= j < b.files.len() && (#[trigger] a.files[i]).named() == (
        #[trigger] b.files[j]).named() ==> a.files[i] == b.files[j]
    &&& forall|x: Route, y: Route| #[trigger]
        a.partitions.contains_key(x) && #[trigger] b.partitions.contains_key(y) && same_place(
            a.partitions[x],
            b.partitions[y],
        ) ==> x == y
}

/// Whether a manifest is one that a checkpoint can take something over from.
pub open spec fn source_fits(from: RootV, generation: u64, lsn: u64) -> bool {
    well_made(from) && from.generation < generation && from.lsn <= lsn
}

/// Whether an item is one that a checkpoint makes: what it takes over stands so in a manifest
/// that fits, and its slots are those of the new manifest.
pub open spec fn item_fits(table: u64, item: Item, generation: u64, lsn: u64, slots: nat) -> bool {
    match item {
        Item::Carried { value, .. } => shared_slot(value) matches Some(slot) ==> slot < slots,
        Item::Link { kind, from, .. } => 4 <= kind <= 5 && source_fits(from, generation, lsn),
        Item::Part { route, part, from } => {
            &&& source_fits(from, generation, lsn)
            &&& route.table == table
            &&& from.partitions.contains_key(route)
            &&& part == (PartV { slots: part.slots, ..from.partitions[route] })
            &&& (route.kind == 3 <==> part.slots.dom() != Set::<u8>::empty())
            &&& forall|slot: u8| #[trigger]
                part.slots.contains_key(slot) ==> part.slots[slot] < slots
        },
        _ => true,
    }
}

/// Whether every item of a journal fits, and the manifests that they were taken over from agree.
pub open spec fn journal_fits(w: TableWriter, slots: nat) -> bool {
    &&& forall|n: int|
        0 <= n < w.journal().len() ==> item_fits(
            w.place().0,
            (#[trigger] w.journal()[n]).0,
            w.place().1,
            w.place().3,
            slots,
        )
    &&& forall|i: int, j: int|
        0 <= i < w.journal().len() && 0 <= j < w.journal().len() && sourced(w.journal()[i].0)
            && sourced(w.journal()[j].0) ==> akin(
            source((#[trigger] w.journal()[i]).0),
            source((#[trigger] w.journal()[j]).0),
        )
}

/// Whether an item is taken over from a manifest.
pub open spec fn sourced(item: Item) -> bool {
    item is Link || item is Part
}

/// Whether a manifest is another with the finished files of a table taken up.
pub open spec fn absorbs(w: TableWriter, out: TableOutput, before: RootV, after: RootV) -> bool {
    let at = Share { table: w.place().0, slot: w.place().2 };
    let n = before.files.len() as int;
    let k = out.reused@.len() as int;
    &&& before.occupancy.contains_key(at) ==> before.occupancy[at].entities + out.entities
        <= u64::MAX
    &&& after.occupancy == settled(before.occupancy, at, out.entities)
    &&& after.history_generations == before.history_generations.union_prefer_right(
        out.history_generations@,
    )
    &&& after.partitions == before.partitions.union_prefer_right(out.parts())
    &&& after.files.len() == n + k + out.contents@.len()
    &&& after.files.take(n) == before.files
    &&& forall|i: int| 0 <= i < k ==> after.files[n + i] == #[trigger] out.reused@[i]
    &&& forall|i: int|
        0 <= i < out.contents@.len() ==> {
            let f = after.files[n + k + i];
            let c = #[trigger] out.contents@[i];
            f.named() == c.0 && f.size == c.1@.len() && f.crc == crc(c.1@)
        }
    &&& after == (RootV {
        occupancy: after.occupancy,
        history_generations: after.history_generations,
        partitions: after.partitions,
        files: after.files,
        ..before
    })
}

/// Whether a manifest is ready to take the files of a table up.
pub open spec fn ready(w: TableWriter, out: TableOutput, before: RootV) -> bool {
    let (table, generation, slot, lsn) = w.place();
    &&& finished_as(w, out)
    &&& recorded(w)
    &&& journal_fits(w, before.generations.len())
    &&& w.heap(0).image().len() <= PAGE_LIMIT * 8192
    &&& w.heap(1).image().len() <= PAGE_LIMIT * 8192
    &&& out.contents@.len() <= u64::MAX
    &&& well_made(before)
    &&& untouched(before, table)
    &&& before.catalog.contains_key(table)
    &&& before.generation == generation && before.lsn == lsn
    &&& (slot as int) < before.generations.len()
    &&& before.generations[slot as int].generation == generation
}

/// The names of the references that a map holds are its keys, each once.
proof fn lemma_infos(m: Map<FileId, FileInfo>)
    requires
        m.dom().finite(),
    ensures
        forall|i: int|
            0 <= i < infos(m).len() ==> exists|f: FileId| #[trigger]
                m.contains_key(f) && m[f] == #[trigger] infos(m)[i],
        forall|f: FileId| #[trigger] m.contains_key(f) ==> infos(m).contains(m[f]),
        (forall|f: FileId| #[trigger] m.contains_key(f) ==> m[f].named() == f) ==> distinct_files(
            infos(m),
        ),
{
    let l = listing(m);
    lemma_listing(m);
    reveal(lists);
    assert forall|i: int| 0 <= i < infos(m).len() implies exists|f: FileId| #[trigger]
        m.contains_key(f) && m[f] == #[trigger] infos(m)[i] by {
        assert(m.contains_key(l[i].0));
    }
    assert forall|f: FileId| #[trigger] m.contains_key(f) implies infos(m).contains(m[f]) by {
        let i = choose|i: int| 0 <= i < l.len() && (#[trigger] l[i]).0 == f;
        assert(infos(m)[i] == m[f]);
    }
    if forall|f: FileId| #[trigger] m.contains_key(f) ==> m[f].named() == f {
        reveal(increasing);
        FileId::order_laws();
        assert forall|i: int, j: int| 0 <= i < j < infos(m).len() implies (
        #[trigger] infos(m)[i]).named() != (#[trigger] infos(m)[j]).named() by {
            assert(l[i].0.before(l[j].0));
            assert(m.contains_key(l[i].0) && m.contains_key(l[j].0));
        }
    }
}

/// A file of another generation that a writer remembers is one of history that a fitting manifest
/// lists.
proof fn lemma_remembered_fits(w: TableWriter, slots: nat, f: FileId) -> (n: int)
    requires
        w.sound(),
        recorded(w),
        journal_fits(w, slots),
        w.remembered().contains_key(f),
    ensures
        historic(f, w.place().0),
        f.generation < w.place().1,
        w.remembered()[f].named() == f,
        0 <= n < w.journal().len(),
        sourced(w.journal()[n].0),
        source_fits(source(w.journal()[n].0), w.place().1, w.place().3),
        source(w.journal()[n].0).files.contains(w.remembered()[f]),
        valid_file(source(w.journal()[n].0), w.remembered()[f]),
{
    let n = lemma_remembered_from(w, f);
    let item = w.journal()[n].0;
    let from = source(item);
    assert(item_fits(w.place().0, item, w.place().1, w.place().3, slots));
    lemma_info(from.files, f);
    assert(item is Link || item is Part);
    let info = w.remembered()[f];
    let i = choose|i: int| 0 <= i < from.files.len() && from.files[i] == info;
    assert(valid_file(from, from.files[i]));
    if let Item::Part { route, part, .. } = item {
        assert(valid_part(from, route, from.partitions[route]));
    }
    assert(from.history_generations.contains_key(f.generation));
    n
}

/// A file that a writer takes partitions from is one that a fitting manifest lists.
proof fn lemma_taken_fits(w: TableWriter, slots: nat, f: FileId) -> (n: int)
    requires
        w.sound(),
        recorded(w),
        journal_fits(w, slots),
        w.index().taken().contains_key(f),
    ensures
        f.table == w.place().0 && 3 <= f.kind <= 5,
        f.generation < w.place().1,
        w.index().taken()[f].named() == f,
        0 <= n < w.journal().len(),
        w.journal()[n].0 is Part,
        w.journal()[n].0->Part_part.file == f,
        source_fits(source(w.journal()[n].0), w.place().1, w.place().3),
        source(w.journal()[n].0).files.contains(w.index().taken()[f]),
{
    let n = lemma_taken_from(w, f);
    let item = w.journal()[n].0;
    let from = source(item);
    assert(item_fits(w.place().0, item, w.place().1, w.place().3, slots));
    let route = item->Part_route;
    assert(valid_part(from, route, from.partitions[route]));
    assert(complete_part(from.files, from.partitions[route]));
    assert(listed(from.files, f));
    lemma_info(from.files, f);
    n
}

/// Files that are taken up are listed.
proof fn lemma_taken_up_files(w: TableWriter, out: TableOutput, before: RootV, after: RootV)
    requires
        ready(w, out, before),
        absorbs(w, out, before, after),
    ensures
        forall|f: FileId| #[trigger]
            w.remembered().contains_key(f) ==> after.files.contains(w.remembered()[f]) && listed(
                after.files,
                f,
            ),
        forall|f: FileId| #[trigger]
            w.index().taken().contains_key(f) ==> after.files.contains(w.index().taken()[f]),
        forall|f: FileId, bytes: Seq<u8>| #[trigger]
            out.has(f, bytes) ==> listed(after.files, f) && exists|i: int|
                0 <= i < after.files.len() && (#[trigger] after.files[i]).named() == f
                    && after.files[i].size == bytes.len(),
{
    let n = before.files.len() as int;
    let a = infos(w.remembered());
    let b = infos(w.index().taken());
    lemma_infos(w.remembered());
    lemma_infos(w.index().taken());
    lemma_remembered(w);
    assert forall|f: FileId| #[trigger] w.remembered().contains_key(
        f,
    ) implies after.files.contains(w.remembered()[f]) && listed(after.files, f) by {
        let i = choose|i: int| 0 <= i < a.len() && a[i] == w.remembered()[f];
        assert(out.reused@[i] == a[i]);
        assert(after.files[n + i] == w.remembered()[f]);
    }
    assert forall|f: FileId| #[trigger] w.index().taken().contains_key(
        f,
    ) implies after.files.contains(w.index().taken()[f]) by {
        let i = choose|i: int| 0 <= i < b.len() && b[i] == w.index().taken()[f];
        assert(out.reused@[a.len() + i] == b[i]);
        assert(after.files[n + (a.len() + i)] == w.index().taken()[f]);
    }
    assert forall|f: FileId, bytes: Seq<u8>| #[trigger] out.has(f, bytes) implies listed(
        after.files,
        f,
    ) && exists|i: int|
        0 <= i < after.files.len() && (#[trigger] after.files[i]).named() == f
            && after.files[i].size == bytes.len() by {
        let m = choose|m: int|
            0 <= m < out.contents@.len() && (#[trigger] out.contents@[m]).0 == f
                && out.contents@[m].1@ == bytes;
        let i = n + out.reused@.len() + m;
        assert(after.files[i].named() == out.contents@[m].0);
    }
}

/// A partition that a checkpoint built fits the manifest that takes it up.
proof fn lemma_built_fits(
    w: TableWriter,
    out: TableOutput,
    before: RootV,
    after: RootV,
    at: Route,
)
    requires
        ready(w, out, before),
        absorbs(w, out, before, after),
        out.parts().contains_key(at),
        w.index().lane(at.kind).contents().contains_key(at),
    ensures
        ({
            let p = out.parts()[at];
            &&& at.table == w.place().0
            &&& p.file.table == at.table && p.file.kind == at.kind
            &&& p.file.generation == w.place().1
            &&& valid_part(after, at, p)
            &&& complete_part(after.files, p)
        }),
{
    let (table, generation, slot, lsn) = w.place();
    let p = out.parts()[at];
    let es = w.index().lane(at.kind).contents()[at];
    let file = FileId { table, generation, kind: at.kind, segment: 0 };
    assert(stands(w, out, at.kind, at));
    let data = choose|data: Seq<u8>| #[trigger]
        out.has(file, data) && built(data, lsn, file, at, p, es);
    lemma_contents_increase(w, at.kind, at);
    lemma_taken_up_files(w, out, before, after);
    assert(!p.last.before(p.first)) by {
        reveal(increasing);
        Key::order_laws();
        if es.len() > 1 {
            assert(es[0].0.before(es[es.len() - 1].0));
        }
    }
    assert(bucket_of(at.kind, p.first) == at.lower()) by {
        assert(bucket_of(at.kind, es[0].0) == at.lower());
    }
    assert(bucket_of(at.kind, p.last) == at.lower()) by {
        assert(bucket_of(at.kind, es[es.len() - 1].0) == at.lower());
    }
    assert(at.kind == 3 <==> p.slots.dom() != Set::<u8>::empty()) by {
        if at.kind == 3 {
            let first = shared_slot(es[0].1);
            assert(p.slots.dom().contains(first.unwrap()));
        } else {
            assert(p.slots.dom() =~= Set::empty());
        }
    }
    assert forall|x: u8| #[trigger] p.slots.contains_key(x) implies p.slots[x]
        < after.generations.len() by {
        assert(slotted(es, x));
        let j = choose|j: int| 0 <= j < es.len() && shared_slot((#[trigger] es[j]).1) == Some(x);
        let n = lemma_filed_from(w, 3, at, j);
        lemma_kept_item(w, n);
        assert(item_fits(table, w.journal()[n].0, generation, lsn, before.generations.len()));
        if w.journal()[n].0 is Entity {
            lemma_entity_slot(w, n);
        }
    }
    assert(holds_page(after.files, p.file, p.base)) by {
        let i = choose|i: int|
            0 <= i < after.files.len() && (#[trigger] after.files[i]).named() == file
                && after.files[i].size == data.len();
        assert(p.base < after.files[i].size / 8192);
    }
    assert forall|f: FileId| #[trigger] p.dependencies.contains_key(f) implies listed(
        after.files,
        f,
    ) by {
        assert(w.reaches(f));
        if !w.remembered().contains_key(f) {
            if f.kind == 2 {
                assert(out.has(
                    FileId { table, generation, kind: 2, segment: 0 },
                    w.heap(2).image(),
                ));
            } else {
                let i = f.segment as int;
                assert(out.has(
                    FileId { table, generation, kind: 6, segment: i as u64 },
                    w.segments()[i],
                ));
            }
        }
    }
}

/// A partition that a checkpoint took over fits the manifest that takes it up.
proof fn lemma_adopted_fits(
    w: TableWriter,
    out: TableOutput,
    before: RootV,
    after: RootV,
    at: Route,
) -> (n: int)
    requires
        ready(w, out, before),
        absorbs(w, out, before, after),
        out.parts().contains_key(at),
        !w.index().lane(at.kind).contents().contains_key(at),
    ensures
        ({
            let p = out.parts()[at];
            &&& at.table == w.place().0
            &&& p.file.table == at.table && p.file.kind == at.kind
            &&& p.file.generation < w.place().1
            &&& valid_part(after, at, p)
            &&& complete_part(after.files, p)
            &&& 0 <= n < w.journal().len()
            &&& w.journal()[n].0 is Part
            &&& source(w.journal()[n].0).partitions.contains_key(at)
            &&& same_place(source(w.journal()[n].0).partitions[at], p)
        }),
{
    let (table, generation, slot, lsn) = w.place();
    let p = out.parts()[at];
    let slots = before.generations.len();
    let n = lemma_adopted_from(w, at);
    lemma_kept_item(w, n);
    let item = w.journal()[n].0;
    let from = source(item);
    assert(item_fits(table, item, generation, lsn, slots));
    assert(p == item->Part_part);
    let q = from.partitions[at];
    assert(valid_part(from, at, q));
    assert(complete_part(from.files, q));
    lemma_taken_up_files(w, out, before, after);
    assert(holds_page(after.files, p.file, p.base)) by {
        let info = w.index().taken()[p.file];
        let m = lemma_taken_fits(w, slots, p.file);
        let other = source(w.journal()[m].0);
        let i = choose|i: int|
            0 <= i < from.files.len() && (#[trigger] from.files[i]).named() == q.file && q.base
                < from.files[i].size / 8192;
        let j = choose|j: int| 0 <= j < other.files.len() && other.files[j] == info;
        assert(akin(source(w.journal()[n].0), source(w.journal()[m].0)));
        assert(from.files[i].named() == other.files[j].named());
        let k = choose|k: int| 0 <= k < after.files.len() && after.files[k] == info;
        assert(after.files[k].named() == p.file);
    }
    assert forall|f: FileId| #[trigger] p.dependencies.contains_key(f) implies listed(
        after.files,
        f,
    ) by {
        assert(w.remembered().contains_key(f));
    }
    n
}

/// The partitions of a manifest that takes a table up fit it, each in a place of its own.
proof fn lemma_parts_fit(w: TableWriter, out: TableOutput, before: RootV, after: RootV)
    requires
        ready(w, out, before),
        absorbs(w, out, before, after),
    ensures
        forall|at: Route| #[trigger]
            after.partitions.contains_key(at) ==> valid_part(after, at, after.partitions[at])
                && complete_part(after.files, after.partitions[at])
                && after.partitions[at].file.table == at.table && after.partitions[at].file.kind
                == at.kind,
        distinct_places(after.partitions),
        forall|at: Route| #[trigger] out.parts().contains_key(at) ==> at.table == w.place().0,
{
    assert forall|at: Route| #[trigger] out.parts().contains_key(at) implies at.table
        == w.place().0 && valid_part(after, at, out.parts()[at]) && complete_part(
        after.files,
        out.parts()[at],
    ) && out.parts()[at].file.table == at.table && out.parts()[at].file.kind == at.kind by {
        if w.index().lane(at.kind).contents().contains_key(at) {
            lemma_built_fits(w, out, before, after, at);
        } else {
            let n = lemma_adopted_fits(w, out, before, after, at);
        }
    }
    assert forall|at: Route| #[trigger] after.partitions.contains_key(at) implies valid_part(
        after,
        at,
        after.partitions[at],
    ) && complete_part(after.files, after.partitions[at]) && after.partitions[at].file.table
        == at.table && after.partitions[at].file.kind == at.kind by {
        if !out.parts().contains_key(at) {
            let p = before.partitions[at];
            assert(valid_part(before, at, p));
            lemma_still_complete(before, after, p);
        }
    }
    assert forall|a: Route, b: Route| #[trigger]
        after.partitions.contains_key(a) && #[trigger] after.partitions.contains_key(b) && a
            != b implies !same_place(after.partitions[a], after.partitions[b]) by {
        if out.parts().contains_key(a) && out.parts().contains_key(b) {
            lemma_own_places(w, out, before, after, a, b);
        } else if !out.parts().contains_key(a) && !out.parts().contains_key(b) {
            assert(before.partitions.contains_key(a) && before.partitions.contains_key(b));
        } else {
            assert(before.partitions.contains_key(a) || before.partitions.contains_key(b));
        }
    }
}

/// What a manifest lists for a partition is listed where more files are.
proof fn lemma_still_complete(before: RootV, after: RootV, p: PartV)
    requires
        complete_part(before.files, p),
        before.files.len() <= after.files.len(),
        after.files.take(before.files.len() as int) == before.files,
    ensures
        complete_part(after.files, p),
{
    let (s, t) = (before.files, after.files);
    let i = choose|i: int|
        0 <= i < s.len() && (#[trigger] s[i]).named() == p.file && p.base < s[i].size / 8192;
    assert(t.take(s.len() as int)[i] == t[i]);
    assert forall|f: FileId| #[trigger] p.dependencies.contains_key(f) implies listed(t, f) by {
        assert(listed(s, f));
        let j = choose|j: int| 0 <= j < s.len() && (#[trigger] s[j]).named() == f;
        assert(t.take(s.len() as int)[j] == t[j]);
    }
}

proof fn lemma_own_places(
    w: TableWriter,
    out: TableOutput,
    before: RootV,
    after: RootV,
    a: Route,
    b: Route,
)
    requires
        ready(w, out, before),
        absorbs(w, out, before, after),
        out.parts().contains_key(a),
        out.parts().contains_key(b),
        a != b,
    ensures
        !same_place(out.parts()[a], out.parts()[b]),
{
    let new_a = w.index().lane(a.kind).contents().contains_key(a);
    let new_b = w.index().lane(b.kind).contents().contains_key(b);
    if new_a {
        lemma_built_fits(w, out, before, after, a);
    }
    if new_b {
        lemma_built_fits(w, out, before, after, b);
    }
    if !new_a && !new_b {
        let n = lemma_adopted_fits(w, out, before, after, a);
        let m = lemma_adopted_fits(w, out, before, after, b);
        assert(akin(source(w.journal()[n].0), source(w.journal()[m].0)));
    } else if !new_a {
        let n = lemma_adopted_fits(w, out, before, after, a);
    } else if !new_b {
        let n = lemma_adopted_fits(w, out, before, after, b);
    }
}

/// What a reference that is taken up is: one to history, or to an index that is taken over.
proof fn lemma_reused(w: TableWriter, out: TableOutput, slots: nat, i: int)
    requires
        finished_as(w, out),
        recorded(w),
        journal_fits(w, slots),
        0 <= i < out.reused@.len(),
    ensures
        ({
            let f = out.reused@[i];
            let n = infos(w.remembered()).len();
            &&& f.table == w.place().0
            &&& f.generation < w.place().1
            &&& if i < n {
                w.remembered().contains_key(f.named()) && w.remembered()[f.named()] == f
                    && historic(f.named(), w.place().0) && (f.kind < 3 ==> f.segment == 0)
            } else {
                w.index().taken().contains_key(f.named()) && w.index().taken()[f.named()] == f && 3
                    <= f.kind <= 5
            }
        }),
{
    let f = out.reused@[i];
    let a = infos(w.remembered());
    let b = infos(w.index().taken());
    lemma_infos(w.remembered());
    lemma_infos(w.index().taken());
    if i < a.len() {
        assert(f == a[i]);
        let k = choose|k: FileId| #[trigger]
            w.remembered().contains_key(k) && w.remembered()[k] == a[i];
        let n = lemma_remembered_fits(w, slots, k);
    } else {
        assert(f == b[i - a.len()]);
        let k = choose|k: FileId| #[trigger]
            w.index().taken().contains_key(k) && w.index().taken()[k] == b[i - a.len()];
        let n = lemma_taken_fits(w, slots, k);
    }
}

/// No two references that are taken up name the same file.
proof fn lemma_reused_distinct(w: TableWriter, out: TableOutput, slots: nat)
    requires
        finished_as(w, out),
        recorded(w),
        journal_fits(w, slots),
    ensures
        distinct_files(out.reused@),
{
    let a = infos(w.remembered());
    let b = infos(w.index().taken());
    lemma_remembered(w);
    assert forall|f: FileId| #[trigger] w.index().taken().contains_key(
        f,
    ) implies w.index().taken()[f].named() == f by {
        let n = lemma_taken_fits(w, slots, f);
    }
    lemma_infos(w.remembered());
    lemma_infos(w.index().taken());
    assert forall|i: int, j: int| 0 <= i < j < out.reused@.len() implies (
    #[trigger] out.reused@[i]).named() != (#[trigger] out.reused@[j]).named() by {
        lemma_reused(w, out, slots, i);
        lemma_reused(w, out, slots, j);
        if j < a.len() {
            assert(out.reused@[i] == a[i] && out.reused@[j] == a[j]);
        } else if i >= a.len() {
            assert(out.reused@[i] == b[i - a.len()] && out.reused@[j] == b[j - a.len()]);
        }
    }
}

/// What each file is that a manifest lists which takes a table up.
proof fn lemma_listed_file(
    w: TableWriter,
    out: TableOutput,
    before: RootV,
    after: RootV,
    i: int,
)
    requires
        ready(w, out, before),
        absorbs(w, out, before, after),
        0 <= i < after.files.len(),
    ensures
        ({
            let f = after.files[i];
            let (n, k) = (before.files.len() as int, out.reused@.len() as int);
            if i < n {
                f == before.files[i]
            } else if i < n + k {
                f == out.reused@[i - n] && f.table == w.place().0 && f.generation < w.place().1
                    && f.kind >= 2
            } else {
                f.named() == out.contents@[i - n - k].0 && f.table == w.place().0 && f.generation
                    == w.place().1
            }
        }),
{
    let f = after.files[i];
    let (n, k) = (before.files.len() as int, out.reused@.len() as int);
    if i < n {
        assert(after.files.take(n)[i] == f);
    } else if i < n + k {
        assert(after.files[n + (i - n)] == out.reused@[i - n]);
        lemma_reused(w, out, before.generations.len(), i - n);
    } else {
        let c = out.contents@[i - n - k];
        assert(after.files[n + k + (i - n - k)].named() == c.0);
        assert(own_file(w, c.0, c.1@));
    }
}

/// The files of a manifest that takes a table up fit it, and no two are the same.
proof fn lemma_files_fit(w: TableWriter, out: TableOutput, before: RootV, after: RootV)
    requires
        ready(w, out, before),
        absorbs(w, out, before, after),
    ensures
        forall|i: int| 0 <= i < after.files.len() ==> valid_file(after, #[trigger] after.files[i]),
        distinct_files(after.files),
{
    let (n, k) = (before.files.len() as int, out.reused@.len() as int);
    let slots = before.generations.len();
    lemma_parts_fit(w, out, before, after);
    lemma_remembered(w);
    assert forall|i: int| 0 <= i < after.files.len() implies valid_file(
        after,
        #[trigger] after.files[i],
    ) by {
        lemma_listed_file(w, out, before, after, i);
        let f = after.files[i];
        if i < n {
            assert(valid_file(before, before.files[i]));
            if 3 <= f.kind <= 5 {
                let at = choose|at: Route| #[trigger]
                    before.partitions.contains_key(at) && before.partitions[at].file == f.named();
                assert(!out.parts().contains_key(at));
                assert(after.partitions.contains_key(at));
                assert(after.partitions[at].file == f.named());
            }
            assert(valid_file(after, f));
        } else if i < n + k {
            lemma_reused(w, out, slots, i - n);
            assert(w.remembered().contains_key(f.named())
                ==> after.history_generations.contains_key(f.generation));
            if i - n >= infos(w.remembered()).len() {
                let m = lemma_taken_fits(w, slots, f.named());
                lemma_kept_item(w, m);
                let at = w.journal()[m].0->Part_route;
                assert(w.index().lane(at.kind).finished().contains_key(at));
                assert(out.parts().contains_key(at));
                assert(after.partitions.contains_key(at) && after.partitions[at].file == f.named());
            }
            assert(valid_file(after, f));
        } else {
            let c = out.contents@[i - n - k];
            assert(own_file(w, c.0, c.1@));
            assert(names(after.generations, f.generation)) by {
                assert(after.generations[w.place().2 as int].generation == f.generation);
            }
            assert(after.history_generations.contains_key(f.generation));
            if 3 <= f.kind <= 5 {
                let at = choose|at: Route| #[trigger]
                    w.index().lane(f.kind).contents().contains_key(at);
                assert(stands(w, out, f.kind, at));
                let file = FileId {
                    table: w.place().0,
                    generation: w.place().1,
                    kind: f.kind,
                    segment: 0,
                };
                assert(out.parts()[at].file == file);
                assert(f.named() == file);
                assert(after.partitions.contains_key(at) && after.partitions[at].file == f.named());
            }
            assert(valid_file(after, f));
        }
    }
    lemma_reused_distinct(w, out, slots);
    assert forall|i: int, j: int| 0 <= i < j < after.files.len() implies (
    #[trigger] after.files[i]).named() != (#[trigger] after.files[j]).named() by {
        lemma_listed_file(w, out, before, after, i);
        lemma_listed_file(w, out, before, after, j);
        if j < n {
            assert(before.files[i].named() != before.files[j].named());
        } else if i < n {
            assert(before.files[i].table == w.place().0 ==> before.files[i].kind <= 1
                && before.files[i].generation < before.generation);
        } else if j < n + k {
            assert(out.reused@[i - n].named() != out.reused@[j - n].named());
        } else if i >= n + k {
            assert(out.contents@[i - n - k].0 != out.contents@[j - n - k].0);
        }
    }
}

/// The sequence numbers of a manifest that takes a table up fit it.
proof fn lemma_sequences_fit(w: TableWriter, out: TableOutput, before: RootV, after: RootV)
    requires
        ready(w, out, before),
        absorbs(w, out, before, after),
    ensures
        forall|g: u64| #[trigger]
            after.history_generations.contains_key(g) ==> g <= after.generation
                && after.history_generations[g] <= after.lsn,
{
    assert forall|g: u64| #[trigger] after.history_generations.contains_key(g) implies g
        <= after.generation && after.history_generations[g] <= after.lsn by {
        if out.history_generations@.contains_key(g) {
            let (n, f) = lemma_sequence_from(w, g);
            if n >= 0 {
                let item = w.journal()[n].0;
                assert(item_fits(
                    w.place().0,
                    item,
                    w.place().1,
                    w.place().3,
                    before.generations.len(),
                ));
                assert(source(item).history_generations.contains_key(g));
            }
        } else {
            assert(before.history_generations.contains_key(g));
        }
    }
}

/// A manifest that takes the finished files of a table up is well made, and leaves the other
/// tables to be taken up.
pub proof fn lemma_absorbs(w: TableWriter, out: TableOutput, before: RootV, after: RootV)
    requires
        ready(w, out, before),
        absorbs(w, out, before, after),
    ensures
        well_made(after),
        forall|t: u64|
            t != w.place().0 && untouched(before, t) ==> #[trigger] untouched(after, t),
{
    lemma_parts_fit(w, out, before, after);
    lemma_files_fit(w, out, before, after);
    lemma_sequences_fit(w, out, before, after);
    assert forall|at: Share| #[trigger] after.occupancy.contains_key(at) implies valid_count(
        after,
        at,
        after.occupancy[at],
    ) by {
        if before.occupancy.contains_key(at) {
            assert(valid_count(before, at, before.occupancy[at]));
        }
    }
    assert forall|t: u64| t != w.place().0 && untouched(before, t) implies #[trigger] untouched(
        after,
        t,
    ) by {
        assert forall|i: int|
            0 <= i < after.files.len() && (#[trigger] after.files[i]).table
                == t implies after.files[i].kind <= 1 && after.files[i].generation
            < after.generation by {
            lemma_listed_file(w, out, before, after, i);
            if i < before.files.len() {
                assert(before.files[i] == after.files[i]);
            }
        }
        assert forall|at: Share| #[trigger]
            after.occupancy.contains_key(at) && at.table == t implies at.slot + 1
            < after.generations.len() by {
            assert(before.occupancy.contains_key(at));
        }
    }
}

// ---- Files as they are ----

/// Whether a manifest lists files with the sizes and checksums that they have.
pub open spec fn described(r: RootV, files: Files) -> bool {
    forall|i: int| 0 <= i < r.files.len() ==> told_of(files, #[trigger] r.files[i])
}

/// Whether a reference tells the size and the checksum of its file.
pub open spec fn told_of(files: Files, f: FileInfo) -> bool {
    files.contains_key(f.named()) && f.size == files[f.named()].len() && f.crc == crc(
        files[f.named()],
    )
}

/// A checkpoint begins with files that are listed as they are.
pub proof fn lemma_begins_described(
    s: StateV,
    generation: u64,
    plan: Map<u64, u64>,
    r: RootV,
    files: Files,
)
    requires
        begins(s, generation, plan, r),
        described(s.root, files),
    ensures
        described(r, files),
{
    lemma_filter_member(s.root.files, file_stays(emptied(plan)));
    assert forall|i: int| 0 <= i < r.files.len() implies told_of(files, #[trigger] r.files[i]) by {
        let k = choose|k: int|
            0 <= k < s.root.files.len() && #[trigger] s.root.files[k] == r.files[i];
        assert(told_of(files, s.root.files[k]));
    }
}

/// A manifest that takes the finished files of a table up lists them as they are, and those of
/// other generations as the manifests did that they were taken over from.
pub proof fn lemma_absorbs_described(
    w: TableWriter,
    out: TableOutput,
    before: RootV,
    after: RootV,
    files: Files,
)
    requires
        ready(w, out, before),
        absorbs(w, out, before, after),
        out.stands_in(files),
        described(before, files),
        forall|n: int|
            0 <= n < w.journal().len() && sourced(w.journal()[n].0) ==> described(
                source((#[trigger] w.journal()[n]).0),
                files,
            ),
    ensures
        described(after, files),
{
    let (n, k) = (before.files.len() as int, out.reused@.len() as int);
    let slots = before.generations.len();
    assert forall|i: int| 0 <= i < after.files.len() implies told_of(
        files,
        #[trigger] after.files[i],
    ) by {
        lemma_listed_file(w, out, before, after, i);
        let f = after.files[i];
        if i < n {
            assert(told_of(files, before.files[i]));
        } else if i < n + k {
            lemma_reused(w, out, slots, i - n);
            let m = if i - n < infos(w.remembered()).len() {
                lemma_remembered_fits(w, slots, f.named())
            } else {
                lemma_taken_fits(w, slots, f.named())
            };
            let from = source(w.journal()[m].0);
            assert(described(from, files));
            let j = choose|j: int| 0 <= j < from.files.len() && from.files[j] == f;
            assert(told_of(files, from.files[j]));
        } else {
            let c = out.contents@[i - n - k];
            assert(after.files[n + k + (i - n - k)] == f);
            assert(files[c.0] == c.1@);
        }
    }
}

/// Files that are listed as they are pass the check of sizes and checksums.
pub proof fn lemma_verified(r: RootV, files: Files, found: Seq<(u64, u32)>)
    requires
        described(r, files),
        found.len() == r.files.len(),
        forall|i: int|
            0 <= i < found.len() ==> (#[trigger] found[i]).0 == files[r.files[i].named()].len()
                && found[i].1 == crc(files[r.files[i].named()]),
    ensures
        verified(r, found),
{
    assert forall|i: int| 0 <= i < found.len() implies (#[trigger] found[i]) == (
        r.files[i].size,
        r.files[i].crc,
    ) by {
        assert(told_of(files, r.files[i]));
    }
}

/// A manifest lists of files of other generations only those that an item of the journal leads
/// to, each as the manifest lists it that the item was taken over from: all others can be given
/// up.
pub proof fn lemma_only_needed(
    w: TableWriter,
    out: TableOutput,
    before: RootV,
    after: RootV,
    i: int,
) -> (n: int)
    requires
        ready(w, out, before),
        absorbs(w, out, before, after),
        before.files.len() <= i < after.files.len(),
        after.files[i].generation != w.place().1,
    ensures
        0 <= n < w.journal().len(),
        calls_for(w.place().0, w.journal()[n].0, after.files[i].named()),
        source(w.journal()[n].0).files.contains(after.files[i]),
{
    let slots = before.generations.len();
    let k = before.files.len() as int;
    lemma_listed_file(w, out, before, after, i);
    lemma_reused(w, out, slots, i - k);
    let f = after.files[i].named();
    if i - k < infos(w.remembered()).len() {
        let n = lemma_remembered_from(w, f);
        assert(item_fits(w.place().0, w.journal()[n].0, w.place().1, w.place().3, slots));
        lemma_info(source(w.journal()[n].0).files, f);
        n
    } else {
        lemma_taken_fits(w, slots, f)
    }
}

// ---- Making a table ----

/// Whether manifests are ones that a checkpoint can take something over from, and agree.
pub open spec fn kin(pool: Set<RootV>, generation: u64, lsn: u64) -> bool {
    &&& forall|r: RootV| #[trigger]
        pool.contains(r) ==> source_fits(r, generation, lsn) && r.partitions.dom().finite()
    &&& forall|a: RootV, b: RootV| #[trigger]
        pool.contains(a) && #[trigger] pool.contains(b) ==> akin(a, b)
}

/// Whether a view rests on manifests: on its own, and on those that the entities in memory were
/// loaded from.
pub open spec fn rests_on(s: StateV, pool: Set<RootV>) -> bool {
    &&& pool.contains(s.root)
    &&& forall|k: Key| #[trigger]
        s.overlay.contains_key(k) ==> (s.overlay[k].disk matches Some(disk) ==> pool.contains(
            disk.root,
        ))
}

/// Whether an item fits and is taken over from one of the manifests.
pub open spec fn item_pooled(
    table: u64,
    item: Item,
    generation: u64,
    lsn: u64,
    slots: nat,
    pool: Set<RootV>,
) -> bool {
    item_fits(table, item, generation, lsn, slots) && (sourced(item) ==> pool.contains(source(item)))
}

/// Whether every item of a journal fits and is taken over from one of the manifests.
pub open spec fn pooled(w: TableWriter, slots: nat, pool: Set<RootV>) -> bool {
    forall|n: int|
        0 <= n < w.journal().len() ==> item_pooled(
            w.place().0,
            (#[trigger] w.journal()[n]).0,
            w.place().1,
            w.place().3,
            slots,
            pool,
        )
}

/// Whether a translation leads to slots of a manifest.
pub open spec fn slots_lead(slots: Seq<Option<u8>>, n: nat) -> bool {
    forall|b: u8| (#[trigger] slots[b as int]) is Some ==> slots[b as int].unwrap() < n
}

/// A step that carries history over makes an item that fits.
proof fn lemma_step_fits(
    c: Copying,
    r: RootV,
    files: Files,
    own: u64,
    kind: u8,
    od: Option<DataV>,
    base: u64,
    last: u64,
    step: StepV,
    generation: u64,
    lsn: u64,
    slots: nat,
    pool: Set<RootV>,
)
    requires
        4 <= kind <= 5,
        kind_steps(c, r, files, own, kind, od, base, last) is Ok,
        kind_steps(c, r, files, own, kind, od, base, last)->Ok_0.contains(step),
        kin(pool, generation, lsn),
        pool.contains(r),
    ensures
        item_pooled(c.table, step_item(r, own, step), generation, lsn, slots, pool),
{
    if kind == 5 || base < last {
        let first = if kind == 4 {
            (base + 1) as u64
        } else {
            base
        };
        let parts = kind_parts(c, r, own, kind, first, last);
        let k = lemma_parts_steps_from(c, r, files, own, kind, od, first, last, parts, step);
        let (at, p) = parts[k];
        lemma_kind_part(c, r, own, kind, first, last, k);
        if intact(c, kind, od, first, last, at, p) {
            assert(step == StepV::Reuse(at));
            assert(valid_part(r, at, p));
            assert forall|slot: u8| !(#[trigger] p.slots.contains_key(slot)) by {
                assert(p.slots.dom() =~= Set::empty());
            }
        } else {
            let entries = scan_of(tree_of(files, p), p.lsn, (own, first), (own, last)).unwrap();
            let m = lemma_entry_steps_from(c, r, files, own, kind, od, entries, step);
        }
    }
}

/// The value of an entity that stays where it is has the new slot of its generation.
proof fn lemma_carry_slot(
    c: Copying,
    slots: Seq<Option<u8>>,
    s: StateV,
    files: Files,
    quotas: Seq<u64>,
    entries: Seq<(u64, Option<Value>)>,
    i: int,
    n: nat,
)
    requires
        work_all(c, slots, s, files, quotas, entries) is Ok,
        0 <= i < entries.len(),
        slots_lead(slots, n),
    ensures
        work_all(c, slots, s, files, quotas, entries)->Ok_0.works[i] matches WorkV::Carry {
            value,
            ..
        } ==> shared_slot(value) matches Some(slot) && slot < n,
    decreases entries.len(),
{
    let front = entries.drop_last();
    let b = work_all(c, slots, s, files, quotas, front)->Ok_0;
    let all = work_all(c, slots, s, files, quotas, entries)->Ok_0.works;
    lemma_length(c, slots, s, files, quotas, front);
    reveal(work_for);
    if i < front.len() {
        lemma_carry_slot(c, slots, s, files, quotas, front, i, n);
        assert(all[i] == b.works[i]);
    } else {
        let e = entries.last();
        if let Some(v) = e.1 {
            if let Some(old) = shared_slot(v) {
                if let Some(slot) = slots[old as int] {
                    lemma_remapped(v, slot);
                }
            }
        }
    }
}

/// What a checkpoint does for an entity makes items that fit.
proof fn lemma_work_fits(
    c: Copying,
    slots: Seq<Option<u8>>,
    s: StateV,
    files: Files,
    quotas: Seq<u64>,
    entries: Seq<(u64, Option<Value>)>,
    i: int,
    j: int,
    generation: u64,
    lsn: u64,
    n: nat,
    pool: Set<RootV>,
)
    requires
        work_all(c, slots, s, files, quotas, entries) is Ok,
        s.catalog.contains_key(c.table),
        0 <= i < entries.len(),
        0 <= j < work_items(
            s.root,
            work_all(c, slots, s, files, quotas, entries)->Ok_0.works[i],
        ).len(),
        slots_lead(slots, n),
        kin(pool, generation, lsn),
        rests_on(s, pool),
    ensures
        item_pooled(
            c.table,
            work_items(
                s.root,
                work_all(c, slots, s, files, quotas, entries)->Ok_0.works[i],
            )[j],
            generation,
            lsn,
            n,
            pool,
        ),
{
    let work = work_all(c, slots, s, files, quotas, entries)->Ok_0.works[i];
    let own = entries[i].0;
    let (od, base, last) = carried_range(work);
    let r = work_root(s.root, work);
    let steps = steps_of(work);
    let items = work_items(s.root, work);
    lemma_length(c, slots, s, files, quotas, entries);
    lemma_all_steps(c, slots, s, files, quotas, entries, i);
    lemma_work_id(c, slots, s, files, quotas, entries, i);
    lemma_work_of(c, slots, s, files, quotas, entries, i);
    if j == 0 {
        lemma_carry_slot(c, slots, s, files, quotas, entries, i, n);
    } else if j < 1 + steps.len() {
        let step = steps[j - 1];
        assert(items[j] == step_item(r, own, step)) by {
            assert(step_items(r, own, steps)[j - 1] == step_item(r, own, steps[j - 1]));
        }
        assert(pool.contains(r)) by {
            if let WorkV::Write { data, .. } = work {
                assert(loaded_data(s, files, c.table, own) == Ok::<_, Fault>(Some(data)));
                if s.overlay.contains_key((c.table, own)) {
                    assert(s.overlay[(c.table, own)] == data);
                }
            }
        }
        let front = kind_steps(c, r, files, own, 5, od, base, last)->Ok_0;
        let rest = kind_steps(c, r, files, own, 4, od, base, last)->Ok_0;
        assert(steps == front + rest);
        if j - 1 < front.len() {
            assert(front[j - 1] == step);
            lemma_step_fits(
                c,
                r,
                files,
                own,
                5,
                od,
                base,
                last,
                step,
                generation,
                lsn,
                n,
                pool,
            );
        } else {
            assert(rest[j - 1 - front.len()] == step);
            lemma_step_fits(
                c,
                r,
                files,
                own,
                4,
                od,
                base,
                last,
                step,
                generation,
                lsn,
                n,
                pool,
            );
        }
    } else {
        assert(items[j] is Snapshot || items[j] is Event);
    }
}

proof fn lemma_works_items_from(r: RootV, works: Seq<WorkV>, m: int) -> (x: (int, int))
    requires
        0 <= m < works_items(r, works).len(),
    ensures
        0 <= x.0 < works.len(),
        0 <= x.1 < work_items(r, works[x.0]).len(),
        works_items(r, works)[m] == work_items(r, works[x.0])[x.1],
    decreases works.len(),
{
    if works.len() == 0 {
        assert(false);
        (0, 0)
    } else {
        let front = works.drop_last();
        let a = works_items(r, front);
        if m < a.len() {
            let x = lemma_works_items_from(r, front, m);
            assert(front[x.0] == works[x.0]);
            x
        } else {
            (works.len() - 1, m - a.len())
        }
    }
}

/// A partition that is taken over with its bucket makes an item that fits.
proof fn lemma_moved_fits(
    r: RootV,
    at: Route,
    slots: Seq<Option<u8>>,
    table: u64,
    generation: u64,
    lsn: u64,
    n: nat,
    pool: Set<RootV>,
)
    requires
        kin(pool, generation, lsn),
        pool.contains(r),
        slots_lead(slots, n),
        r.partitions.contains_key(at),
        at.table == table,
        at.kind == 3 ==> forall|k: u8| #[trigger]
            r.partitions[at].slots.contains_key(k) ==> slots[r.partitions[at].slots[k] as int]
                is Some,
    ensures
        item_pooled(
            table,
            (Item::Part { route: at, part: moved_part(r.partitions[at], slots), from: r }),
            generation,
            lsn,
            n,
            pool,
        ),
{
    let p = r.partitions[at];
    let q = moved_part(p, slots);
    assert(valid_part(r, at, p));
    assert(q.slots.dom() =~= p.slots.dom());
    assert forall|k: u8| #[trigger] q.slots.contains_key(k) implies q.slots[k] < n by {
        assert(p.slots.contains_key(k));
        assert(at.kind == 3);
        assert(slots[p.slots[k] as int] is Some);
    }
}

/// A bucket that is done leaves a journal whose items fit.
proof fn lemma_bucket_fits(
    a: Checkpoint,
    b: Checkpoint,
    v: TableWriter,
    w: TableWriter,
    s: StateV,
    files: Files,
    table: u64,
    low: u64,
    n: nat,
    pool: Set<RootV>,
)
    requires
        bucket_done(a, b, v, w, s, files, table, low),
        v.place().0 == table,
        pooled(v, n, pool),
        s.catalog.contains_key(table),
        slots_lead(a.slots@, n),
        kin(pool, v.place().1, v.place().3),
        rests_on(s, pool),
    ensures
        pooled(w, n, pool),
        w.place() == v.place(),
        added(v, w, bucket_items(a, s, files, table, low)),
{
    let items = bucket_items(a, s, files, table, low);
    let (generation, lsn) = (v.place().1, v.place().3);
    assert(w.place() == v.place()) by {
        reveal(crate::table_writer::grew);
    }
    assert forall|m: int| 0 <= m < items.len() implies item_pooled(
        table,
        #[trigger] items[m],
        generation,
        lsn,
        n,
        pool,
    ) by {
        if stays_whole(a, s, table, low) {
            lemma_whole_fits(a, s, table, low, m, generation, lsn, n, pool);
        } else {
            let walk = table_entries(s, files, table, low, bucket_end(low));
            let works = bucket_work(a, s, files, table, low)->Ok_0.works;
            let (i, j) = lemma_works_items_from(s.root, works, m);
            lemma_length(copying_of(a, table), a.slots@, s, files, a.quotas@, walk.items);
            lemma_work_fits(
                copying_of(a, table),
                a.slots@,
                s,
                files,
                a.quotas@,
                walk.items,
                i,
                j,
                generation,
                lsn,
                n,
                pool,
            );
        }
    }
    let k = v.journal().len() as int;
    assert forall|m: int| 0 <= m < w.journal().len() implies item_pooled(
        table,
        (#[trigger] w.journal()[m]).0,
        generation,
        lsn,
        n,
        pool,
    ) by {
        if m < k {
            assert(w.journal().take(k)[m] == w.journal()[m]);
            assert(v.journal()[m] == w.journal()[m]);
        } else {
            assert(w.journal()[k + (m - k)].0 == items[m - k]);
        }
    }
}

/// The items of a bucket: its partitions if it is kept whole, else what its work calls for.
pub open spec fn bucket_items(a: Checkpoint, s: StateV, files: Files, table: u64, low: u64) -> Seq<
    Item,
> {
    if stays_whole(a, s, table, low) {
        let at = Route { table, kind: 3, low, low_second: 0 };
        let events = range_parts(s.root, table, 4, low, bucket_end(low));
        let states = range_parts(s.root, table, 5, low, bucket_end(low));
        seq![Item::Part {
            route: at,
            part: moved_part(s.root.partitions[at], a.slots@),
            from: s.root,
        }] + (moved_items(s.root, events, a.slots@) + moved_items(s.root, states, a.slots@))
    } else {
        works_items(s.root, bucket_work(a, s, files, table, low)->Ok_0.works)
    }
}

proof fn lemma_range_part(r: RootV, table: u64, kind: u8, low: u64, high: u64, k: int)
    requires
        r.partitions.dom().finite(),
        0 <= k < range_parts(r, table, kind, low, high).len(),
    ensures
        ({
            let (at, p) = range_parts(r, table, kind, low, high)[k];
            r.partitions.contains_key(at) && r.partitions[at] == p && at.table == table && at.kind
                == kind
        }),
{
    let l = listing(r.partitions);
    let q = between_routes(
        Route { table, kind, low, low_second: 0 },
        Route { table, kind, low: high, low_second: u64::MAX },
    );
    lemma_filter_member(l, q);
    lemma_listing(r.partitions);
    let e = l.filter(q)[k];
    assert(q(e));
    let j = choose|j: int| 0 <= j < l.len() && #[trigger] l[j] == e;
    reveal(lists);
    assert(r.partitions.contains_key(l[j].0));
}

proof fn lemma_whole_fits(
    a: Checkpoint,
    s: StateV,
    table: u64,
    low: u64,
    m: int,
    generation: u64,
    lsn: u64,
    n: nat,
    pool: Set<RootV>,
)
    requires
        stays_whole(a, s, table, low),
        0 <= m < 1 + range_parts(s.root, table, 4, low, bucket_end(low)).len() + range_parts(
            s.root,
            table,
            5,
            low,
            bucket_end(low),
        ).len(),
        slots_lead(a.slots@, n),
        kin(pool, generation, lsn),
        pool.contains(s.root),
    ensures
        item_pooled(
            table,
            bucket_items(a, s, Map::empty(), table, low)[m],
            generation,
            lsn,
            n,
            pool,
        ),
{
    let r = s.root;
    let whole = Route { table, kind: 3, low, low_second: 0 };
    let events = range_parts(r, table, 4, low, bucket_end(low));
    let states = range_parts(r, table, 5, low, bucket_end(low));
    let items = bucket_items(a, s, Map::empty(), table, low);
    if m == 0 {
        lemma_moved_fits(r, whole, a.slots@, table, generation, lsn, n, pool);
    } else if m < 1 + events.len() {
        let (at, p) = events[m - 1];
        lemma_range_part(r, table, 4, low, bucket_end(low), m - 1);
        assert(moved_items(r, events, a.slots@)[m - 1] == (Item::Part {
            route: at,
            part: moved_part(p, a.slots@),
            from: r,
        }));
        assert(items[m] == moved_items(r, events, a.slots@)[m - 1]);
        lemma_moved_fits(r, at, a.slots@, table, generation, lsn, n, pool);
    } else {
        let k = m - 1 - events.len();
        let (at, p) = states[k];
        lemma_range_part(r, table, 5, low, bucket_end(low), k);
        assert(moved_items(r, states, a.slots@)[k] == (Item::Part {
            route: at,
            part: moved_part(p, a.slots@),
            from: r,
        }));
        assert(items[m] == moved_items(r, states, a.slots@)[k]);
        lemma_moved_fits(r, at, a.slots@, table, generation, lsn, n, pool);
    }
}

/// What was found in a bucket, what was done there, and what was left behind.
pub open spec fn visit_of(a: Checkpoint, s: StateV, files: Files, table: u64, low: u64) -> Visit {
    let entries = table_entries(s, files, table, low, bucket_end(low)).items;
    if stays_whole(a, s, table, low) {
        Visit { entries, works: Seq::empty(), dead: Seq::empty() }
    } else {
        let b = bucket_work(a, s, files, table, low)->Ok_0;
        Visit { entries, works: b.works, dead: b.dead }
    }
}

/// What was found and done in the buckets of a table.
pub open spec fn visits_of(
    cs: Seq<Checkpoint>,
    s: StateV,
    files: Files,
    table: u64,
    lows: Seq<u64>,
) -> Seq<Visit> {
    Seq::new(lows.len(), |i: int| visit_of(cs[i], s, files, table, lows[i]))
}

/// Whether one of the buckets of a table was done.
pub open spec fn done_at(
    cs: Seq<Checkpoint>,
    ws: Seq<TableWriter>,
    s: StateV,
    files: Files,
    table: u64,
    lows: Seq<u64>,
    i: int,
) -> bool {
    bucket_done(cs[i], cs[i + 1], ws[i], ws[i + 1], s, files, table, lows[i])
}

/// Whether the buckets of a table were done, one after another.
pub open spec fn all_done(
    cs: Seq<Checkpoint>,
    ws: Seq<TableWriter>,
    s: StateV,
    files: Files,
    table: u64,
    lows: Seq<u64>,
) -> bool {
    &&& cs.len() == lows.len() + 1
    &&& ws.len() == lows.len() + 1
    &&& forall|i: int|
        0 <= i < lows.len() ==> #[trigger] done_at(cs, ws, s, files, table, lows, i)
}

/// What doing the buckets of a table comes to.
proof fn lemma_all_done(
    cs: Seq<Checkpoint>,
    ws: Seq<TableWriter>,
    s: StateV,
    files: Files,
    table: u64,
    lows: Seq<u64>,
    n: nat,
    pool: Set<RootV>,
)
    requires
        all_done(cs, ws, s, files, table, lows),
        s.catalog.contains_key(table),
        ws[0].place().0 == table,
        pooled(ws[0], n, pool),
        recorded(ws[0]),
        slots_lead(cs[0].slots@, n),
        kin(pool, ws[0].place().1, ws[0].place().3),
        rests_on(s, pool),
    ensures
        ({
            let visits = visits_of(cs, s, files, table, lows);
            let m = cs[0].root@.occupancy;
            &&& cs.last().root@ == (RootV {
                occupancy: buried(m, table, visits),
                ..cs[0].root@
            })
            &&& cs.last().slots == cs[0].slots
            &&& copying_of(cs.last(), table) == copying_of(cs[0], table)
            &&& buriable(m, table, visits)
            &&& ws.last().written() == ws[0].written() + all_writes(visits)
            &&& ws.last().place() == ws[0].place()
            &&& recorded(ws.last())
            &&& pooled(ws.last(), n, pool)
            &&& forall|i: int|
                0 <= i < lows.len() && !stays_whole(cs[i], s, table, lows[i]) ==> worked_on(
                    copying_of(cs[0], table),
                    cs[0].slots@,
                    s,
                    files,
                    #[trigger] visits[i],
                )
            &&& forall|i: int| 0 <= i <= lows.len() ==> (#[trigger] cs[i]).slots == cs[0].slots
        }),
    decreases lows.len(),
{
    let visits = visits_of(cs, s, files, table, lows);
    if lows.len() == 0 {
        assert(visits =~= Seq::empty());
        assert(cs[0].root@ =~= RootV { occupancy: cs[0].root@.occupancy, ..cs[0].root@ });
    } else {
        let (cs1, ws1, lows1) = (cs.drop_last(), ws.drop_last(), lows.drop_last());
        assert forall|i: int| 0 <= i < lows1.len() implies #[trigger] done_at(
            cs1,
            ws1,
            s,
            files,
            table,
            lows1,
            i,
        ) by {
            assert(done_at(cs, ws, s, files, table, lows, i));
        }
        lemma_all_done(cs1, ws1, s, files, table, lows1, n, pool);
        let front = visits_of(cs1, s, files, table, lows1);
        assert(visits.drop_last() =~= front);
        let k = lows1.len() as int;
        let (a, b, v, w, low) = (cs[k], cs[k + 1], ws[k], ws[k + 1], lows[k]);
        assert(a == cs1.last() && v == ws1.last());
        assert(done_at(cs, ws, s, files, table, lows, k));
        assert(visits.last() == visit_of(a, s, files, table, low));
        lemma_bucket_fits(a, b, v, w, s, files, table, low, n, pool);
        lemma_recorded(v, w, bucket_items(a, s, files, table, low));
        assert forall|i: int| 0 <= i < lows.len() && !stays_whole(
            cs[i],
            s,
            table,
            lows[i],
        ) implies worked_on(
            copying_of(cs[0], table),
            cs[0].slots@,
            s,
            files,
            #[trigger] visits[i],
        ) by {
            if i < k {
                assert(visits[i] == front[i]);
                assert(cs1[i] == cs[i] && lows1[i] == lows[i]);
            } else {
                let walk = table_entries(s, files, table, low, bucket_end(low));
                assert(work_all(
                    copying_of(a, table),
                    a.slots@,
                    s,
                    files,
                    a.quotas@,
                    walk.items,
                ) == bucket_work(a, s, files, table, low));
            }
        }
        assert forall|i: int| 0 <= i <= lows.len() implies (#[trigger] cs[i]).slots
            == cs[0].slots by {
            if i <= k {
                assert(cs1[i] == cs[i]);
            }
        }
        if stays_whole(a, s, table, low) {
            let m = buried(cs[0].root@.occupancy, table, front);
            assert(died(m, table, Seq::empty()) == m);
        }
    }
}

/// Counts are of the slots that there were and of those that copies were left behind in.
proof fn lemma_died_keys(m: Map<Share, Occupancy>, table: u64, dead: Seq<u8>, k: nat, at: Share)
    requires
        forall|i: int| 0 <= i < dead.len() ==> (#[trigger] dead[i]) < k,
        died(m, table, dead).contains_key(at),
    ensures
        m.contains_key(at) || (at.table == table && at.slot < k),
    decreases dead.len(),
{
    if dead.len() > 0 {
        let front = dead.drop_last();
        assert forall|i: int| 0 <= i < front.len() implies (#[trigger] front[i]) < k by {
            assert(front[i] == dead[i]);
        }
        assert(dead[dead.len() - 1] < k);
        if died(m, table, front).contains_key(at) {
            lemma_died_keys(m, table, front, k, at);
        }
    }
}

proof fn lemma_buried_keys(
    m: Map<Share, Occupancy>,
    table: u64,
    visits: Seq<Visit>,
    k: nat,
    at: Share,
)
    requires
        forall|i: int, j: int|
            0 <= i < visits.len() && 0 <= j < visits[i].dead.len() ==> (
            #[trigger] visits[i].dead[j]) < k,
        buried(m, table, visits).contains_key(at),
    ensures
        m.contains_key(at) || (at.table == table && at.slot < k),
    decreases visits.len(),
{
    if visits.len() > 0 {
        let front = visits.drop_last();
        assert forall|i: int, j: int|
            0 <= i < front.len() && 0 <= j < front[i].dead.len() implies (
        #[trigger] front[i].dead[j]) < k by {
            assert(visits[i].dead[j] < k);
        }
        let last = visits[visits.len() - 1];
        assert forall|j: int| 0 <= j < last.dead.len() implies (#[trigger] last.dead[j]) < k by {
            assert(visits[visits.len() - 1].dead[j] < k);
        }
        lemma_died_keys(buried(m, table, front), table, last.dead, k, at);
        if buried(m, table, front).contains_key(at) {
            lemma_buried_keys(m, table, front, k, at);
        }
    }
}

// ---- Buckets that are kept whole ----

/// What a partition of a primary index gives means slots that the partition names.
proof fn lemma_translated_slots(p: PartV, items: Seq<Entry>, i: int)
    requires
        p.file.kind == 3,
        0 <= i < translated_all(p, items).items.len(),
    ensures
        shared_slot(translated_all(p, items).items[i].1) matches Some(n) && exists|k: u8| #[trigger]
            p.slots.contains_key(k) && p.slots[k] == n,
    decreases items.len(),
{
    if items.len() > 0 {
        if let Some(v) = translated(p, items[0].1) {
            let slot = shared_slot(items[0].1).unwrap();
            lemma_remapped(items[0].1, p.slots[slot]);
            if i > 0 {
                lemma_translated_slots(p, items.skip(1), i - 1);
            } else {
                assert(p.slots.contains_key(slot));
            }
        }
    }
}

/// Without changed entities a walk comes across the primary entries.
proof fn lemma_merged_alone(disk: Stream, i: int)
    requires
        0 <= i < merged(disk, Seq::empty()).items.len(),
    ensures
        i < disk.items.len(),
        merged(disk, Seq::empty()).items[i] == (disk.items[i].0.0, Some(disk.items[i].1)),
    decreases disk.items.len(),
{
    if disk.items.len() > 0 && i > 0 {
        let rest = Stream { items: disk.items.skip(1), sound: disk.sound };
        lemma_merged_alone(rest, i - 1);
        assert(rest.items[i - 1] == disk.items[i]);
    }
}

/// Every entity of a bucket that is kept whole is in a generation that stays.
proof fn lemma_whole_left_alone(a: Checkpoint, s: StateV, files: Files, table: u64, low: u64)
    requires
        stays_whole(a, s, table, low),
        low % 1024 == 0,
        well_made(s.root),
        s.root.partitions.dom().finite(),
    ensures
        left_alone(a.slots@, visit_of(a, s, files, table, low)),
{
    let at = Route { table, kind: 3, low, low_second: 0 };
    let high = bucket_end(low);
    let r = s.root;
    let p = r.partitions[at];
    let visit = visit_of(a, s, files, table, low);
    let disk = primary(r, files, table, low, high);
    assert(valid_part(r, at, p));
    assert(route_of(table, 3, (low, 0)) == at);
    assert(route_of(table, 3, (high, u64::MAX)) == at) by {
        lemma_bucket_high(low);
    }
    lemma_one_part(r, at);
    assert(parts_between(r, at, at) == seq![p]);
    assert(recent_ids(s.overlay, table, low, high) =~= Seq::empty());
    let parts = seq![p];
    assert(parts.skip(1) =~= Seq::<PartV>::empty());
    let mine = part_stream(files, p, (low, 0), (high, u64::MAX));
    assert(disk.items =~= mine.items) by {
        reveal(index_scan);
        assert(scan_parts(r, table, 3, (low, 0), (high, u64::MAX)) == parts);
        assert(scan_over(files, parts.skip(1), (low, 0), (high, u64::MAX)).items =~= Seq::empty());
        assert(scan_over(files, parts, (low, 0), (high, u64::MAX)) == joined(
            part_stream(files, parts[0], (low, 0), (high, u64::MAX)),
            scan_over(files, parts.skip(1), (low, 0), (high, u64::MAX)),
        ));
    }
    assert forall|i: int| 0 <= i < visit.entries.len() implies stays_in(
        a.slots@,
        #[trigger] visit.entries[i],
    ) is Some by {
        lemma_merged_alone(disk, i);
        let st = scan_of(tree_of(files, p), p.lsn, (low, 0), (high, u64::MAX)).unwrap();
        lemma_translated_slots(p, st.items, i);
        let n = shared_slot(disk.items[i].1).unwrap();
        let k = choose|k: u8| #[trigger] p.slots.contains_key(k) && p.slots[k] == n;
        assert(a.slots@[p.slots[k] as int] is Some);
    }
}

proof fn lemma_bucket_high(low: u64)
    requires
        low % 1024 == 0,
    ensures
        (bucket_end(low) / 1024 * 1024) as u64 == low,
{
}

/// The buckets of a table start where buckets can.
pub proof fn lemma_bucket_start(s: StateV, table: u64, low: u64)
    requires
        valid_root(s.root),
        has_bucket(s, table, low),
    ensures
        low % 1024 == 0,
{
    if exists|at: Route| #[trigger]
        s.root.partitions.contains_key(at) && at.table == table && at.kind == 3 && at.low == low {
        let at = choose|at: Route| #[trigger]
            s.root.partitions.contains_key(at) && at.table == table && at.kind == 3 && at.low
                == low;
        assert(valid_part(s.root, at, s.root.partitions[at]));
    }
}

/// Between a route and itself there is one partition.
proof fn lemma_one_part(r: RootV, at: Route)
    requires
        r.partitions.dom().finite(),
        r.partitions.contains_key(at),
    ensures
        parts_between(r, at, at) == seq![r.partitions[at]],
{
    let l = listing(r.partitions);
    let q = between_routes(at, at);
    lemma_listing(r.partitions);
    reveal(lists);
    reveal(increasing);
    Route::order_laws();
    let j = choose|j: int| 0 <= j < l.len() && (#[trigger] l[j]).0 == at;
    assert forall|i: int| 0 <= i < l.len() implies q(#[trigger] l[i]) == (i == j) by {
        if i < j {
            assert(l[i].0.before(l[j].0));
        } else if j < i {
            assert(l[j].0.before(l[i].0));
        }
    }
    lemma_filter_single(l, q, j);
    assert(parts_between(r, at, at) =~= seq![r.partitions[at]]);
}

/// Whether a table was made: its buckets were done with a new writer, in a manifest that has
/// nothing of it yet, and the counts in that manifest are those of the entities that were found.
pub open spec fn made(
    cs: Seq<Checkpoint>,
    ws: Seq<TableWriter>,
    s: StateV,
    files: Files,
    table: u64,
    lows: Seq<u64>,
    pool: Set<RootV>,
) -> bool {
    let r = cs[0].root@;
    let k = cs[0].new_slot;
    let visits = visits_of(cs, s, files, table, lows);
    &&& all_done(cs, ws, s, files, table, lows)
    &&& ws[0].journal() == Seq::<(Item, Value)>::empty()
    &&& ws[0].place() == (table, r.generation, k, r.lsn)
    &&& ws[0].written() == 0
    &&& recorded(ws[0])
    &&& well_made(r)
    &&& untouched(r, table)
    &&& r.catalog.contains_key(table)
    &&& s.catalog.contains_key(table)
    &&& r.generations.len() == k + 1
    &&& r.generations[k as int].generation == r.generation
    &&& slots_lead(cs[0].slots@, k as nat)
    &&& kin(pool, r.generation, r.lsn)
    &&& rests_on(s, pool)
    &&& census(r.occupancy, table, cs[0].slots@, visits, k as nat)
    &&& forall|i: int| 0 <= i < lows.len() ==> (#[trigger] lows[i]) % 1024 == 0
}

/// The counts that a checkpoint leaves of a table are those of the entities that it found: every
/// generation that stays keeps its entities, and loses those that were written anew; the new
/// generation has exactly these; and all that are live make up the entities of the table. Counts
/// of other tables stay.
pub proof fn lemma_made_counts(
    cs: Seq<Checkpoint>,
    ws: Seq<TableWriter>,
    s: StateV,
    files: Files,
    table: u64,
    lows: Seq<u64>,
    pool: Set<RootV>,
    out: TableOutput,
    after: RootV,
)
    requires
        made(cs, ws, s, files, table, lows, pool),
        finished_as(ws.last(), out),
        absorbs(ws.last(), out, cs.last().root@, after),
    ensures
        ({
            let m = cs[0].root@.occupancy;
            let visits = visits_of(cs, s, files, table, lows);
            let k = cs[0].new_slot;
            &&& forall|n: u8|
                n < k ==> {
                    &&& (#[trigger] count_at(after.occupancy, table, n)).entities == count_at(
                        m,
                        table,
                        n,
                    ).entities
                    &&& count_at(after.occupancy, table, n).dead == count_at(m, table, n).dead
                        + all_dead(visits, n)
                    &&& live_at(after.occupancy, table, n) == all_carried(
                        cs[0].slots@,
                        visits,
                        n,
                    )
                }
            &&& count_at(after.occupancy, table, k) == (Occupancy {
                entities: ws.last().written(),
                dead: 0,
            })
            &&& ws.last().written() == all_writes(visits)
            &&& live_in(after.occupancy, table, (k + 1) as nat) == all_entries(visits)
            &&& forall|other: u64, n: u8|
                other != table ==> #[trigger] count_at(after.occupancy, other, n) == count_at(
                    m,
                    other,
                    n,
                )
        }),
{
    let m = cs[0].root@.occupancy;
    let k = cs[0].new_slot;
    let visits = visits_of(cs, s, files, table, lows);
    assert(pooled(ws[0], (k + 1) as nat, pool));
    assert(slots_lead(cs[0].slots@, (k + 1) as nat));
    lemma_all_done(cs, ws, s, files, table, lows, (k + 1) as nat, pool);
    assert forall|i: int| 0 <= i < visits.len() implies left_alone(
        cs[0].slots@,
        #[trigger] visits[i],
    ) || worked_on(copying_of(cs[0], table), cs[0].slots@, s, files, visits[i]) by {
        if stays_whole(cs[i], s, table, lows[i]) {
            assert(cs[i].slots == cs[0].slots);
            assert(pool.contains(s.root));
            lemma_whole_left_alone(cs[i], s, files, table, lows[i]);
        }
    }
    assert(!m.contains_key(Share { table, slot: k })) by {
        if m.contains_key(Share { table, slot: k }) {
            let at = Share { table, slot: k };
            assert(m.contains_key(at));
        }
    }
    lemma_live_counts(
        copying_of(cs[0], table),
        cs[0].slots@,
        s,
        files,
        m,
        visits,
        k,
        ws.last().written(),
    );
    assert(copying_of(cs[0], table).table == table);
    assert(after.occupancy == settled(
        buried(m, table, visits),
        Share { table, slot: k },
        ws.last().written(),
    ));
}

/// The manifest that a checkpoint makes of a table is well made: it is valid, and reads back.
pub proof fn lemma_made(
    cs: Seq<Checkpoint>,
    ws: Seq<TableWriter>,
    s: StateV,
    files: Files,
    table: u64,
    lows: Seq<u64>,
    pool: Set<RootV>,
    out: TableOutput,
    after: RootV,
)
    requires
        made(cs, ws, s, files, table, lows, pool),
        finished_as(ws.last(), out),
        ws.last().heap(0).image().len() <= PAGE_LIMIT * 8192,
        ws.last().heap(1).image().len() <= PAGE_LIMIT * 8192,
        out.contents@.len() <= u64::MAX,
        absorbs(ws.last(), out, cs.last().root@, after),
    ensures
        ready(ws.last(), out, cs.last().root@),
        well_made(after),
        forall|t: u64|
            t != table && untouched(cs[0].root@, t) ==> #[trigger] untouched(after, t),
        sized(after) ==> dec_root(enc_root(after)) == Some(after),
{
    let k = cs[0].new_slot;
    let r = cs[0].root@;
    let n = r.generations.len();
    let visits = visits_of(cs, s, files, table, lows);
    assert(pooled(ws[0], n, pool));
    assert(slots_lead(cs[0].slots@, n));
    lemma_all_done(cs, ws, s, files, table, lows, n, pool);
    lemma_made_counts(cs, ws, s, files, table, lows, pool, out, after);
    let before = cs.last().root@;
    let w = ws.last();
    assert forall|i: int, j: int|
        0 <= i < visits.len() && 0 <= j < visits[i].dead.len() implies (
    #[trigger] visits[i].dead[j]) < k by {
        assert(worked_on(copying_of(cs[0], table), cs[0].slots@, s, files, visits[i]));
        let quotas = choose|quotas: Seq<u64>|
            (#[trigger] work_all(
                copying_of(cs[0], table),
                cs[0].slots@,
                s,
                files,
                quotas,
                visits[i].entries,
            )) is Ok && work_all(
                copying_of(cs[0], table),
                cs[0].slots@,
                s,
                files,
                quotas,
                visits[i].entries,
            )->Ok_0.dead == visits[i].dead;
        lemma_dead_slots(
            copying_of(cs[0], table),
            cs[0].slots@,
            s,
            files,
            quotas,
            visits[i].entries,
            k as nat,
        );
    }
    assert forall|at: Share| #[trigger] before.occupancy.contains_key(at) implies valid_count(
        before,
        at,
        before.occupancy[at],
    ) && (r.occupancy.contains_key(at) || at.table == table && at.slot < k) by {
        lemma_buried_keys(r.occupancy, table, visits, k as nat, at);
        lemma_buried(r.occupancy, table, visits, at.table, at.slot);
        assert(before.occupancy[at] == count_at(before.occupancy, at.table, at.slot));
        if at.table == table {
            if r.occupancy.contains_key(at) {
                assert(at.slot + 1 < r.generations.len());
            }
            assert(at.slot < k);
            let own = Share { table, slot: k };
            assert(at != own);
            assert(count_at(after.occupancy, table, at.slot) == count_at(
                before.occupancy,
                table,
                at.slot,
            ));
            assert(live_at(after.occupancy, table, at.slot) >= 0);
        } else {
            assert(r.occupancy.contains_key(at));
            assert(valid_count(r, at, r.occupancy[at]));
        }
    }
    assert(well_made(before)) by {
        assert forall|at: Route| #[trigger] before.partitions.contains_key(at) implies valid_part(
            before,
            at,
            before.partitions[at],
        ) by {
            assert(valid_part(r, at, r.partitions[at]));
        }
        assert forall|i: int| 0 <= i < before.files.len() implies valid_file(
            before,
            #[trigger] before.files[i],
        ) by {
            assert(valid_file(r, r.files[i]));
        }
    }
    assert(journal_fits(w, n)) by {
        assert forall|i: int, j: int|
            0 <= i < w.journal().len() && 0 <= j < w.journal().len() && sourced(w.journal()[i].0)
                && sourced(w.journal()[j].0) implies akin(
            source((#[trigger] w.journal()[i]).0),
            source((#[trigger] w.journal()[j]).0),
        ) by {
            assert(pool.contains(source(w.journal()[i].0)));
            assert(pool.contains(source(w.journal()[j].0)));
        }
    }
    assert(untouched(before, table));
    assert(ready(w, out, before));
    lemma_absorbs(w, out, before, after);
    assert forall|t: u64| t != table && untouched(r, t) implies #[trigger] untouched(after, t) by {
        assert(untouched(before, t));
    }
    if sized(after) {
        lemma_reads_back(after);
    }
}

// ---- Manifests stay akin ----

/// A checkpoint begins with a manifest that agrees with those that the view rests on.
pub proof fn lemma_begins_akin(
    s: StateV,
    generation: u64,
    plan: Map<u64, u64>,
    r: RootV,
    x: RootV,
)
    requires
        begins(s, generation, plan, r),
        akin(x, s.root),
    ensures
        akin(x, r),
{
    lemma_filter_member(s.root.files, file_stays(emptied(plan)));
    assert forall|i: int, j: int|
        0 <= i < x.files.len() && 0 <= j < r.files.len() && (#[trigger] x.files[i]).named() == (
        #[trigger] r.files[j]).named() implies x.files[i] == r.files[j] by {
        let k = choose|k: int|
            0 <= k < s.root.files.len() && #[trigger] s.root.files[k] == r.files[j];
        assert(x.files[i].named() == s.root.files[k].named());
    }
}

/// The generation of a file that a manifest lists is not later than its own.
proof fn lemma_file_generation(x: RootV, i: int)
    requires
        well_made(x),
        0 <= i < x.files.len(),
    ensures
        x.files[i].generation <= x.generation,
{
    let f = x.files[i];
    assert(valid_file(x, f));
    if f.kind == 2 || f.kind == 6 {
        assert(x.history_generations.contains_key(f.generation));
    } else if 3 <= f.kind <= 5 {
        let at = choose|at: Route| #[trigger]
            x.partitions.contains_key(at) && x.partitions[at].file == f.named();
        assert(valid_part(x, at, x.partitions[at]));
    } else {
        let g = x.generations;
        let j = choose|j: int| 0 <= j < g.len() && (#[trigger] g[j]).generation == f.generation;
        let last = g.len() - 1;
        if j < last {
            assert(g[j].generation < g[last].generation);
        }
    }
}

/// A manifest that takes a table up still agrees with an earlier one that agrees with all that
/// the table is taken over from: so does every manifest that a database ever makes.
pub proof fn lemma_absorbs_akin(
    w: TableWriter,
    out: TableOutput,
    before: RootV,
    after: RootV,
    x: RootV,
)
    requires
        ready(w, out, before),
        absorbs(w, out, before, after),
        source_fits(x, w.place().1, w.place().3),
        akin(x, before),
        forall|n: int|
            0 <= n < w.journal().len() && sourced(w.journal()[n].0) ==> akin(
                x,
                source((#[trigger] w.journal()[n]).0),
            ),
    ensures
        akin(x, after),
{
    let (n, k) = (before.files.len() as int, out.reused@.len() as int);
    let slots = before.generations.len();
    assert forall|g: u64| #[trigger]
        x.history_generations.contains_key(g) && after.history_generations.contains_key(
            g,
        ) implies x.history_generations[g] == after.history_generations[g] by {
        assert(g <= x.generation);
        if out.history_generations@.contains_key(g) {
            let (m, f) = lemma_sequence_from(w, g);
            assert(m >= 0);
            let item = w.journal()[m].0;
            assert(item_fits(w.place().0, item, w.place().1, w.place().3, slots));
            assert(sourced(item));
            assert(same_sequences(x, source(item)));
        } else {
            assert(same_sequences(x, before));
        }
    }
    assert forall|i: int, j: int|
        0 <= i < x.files.len() && 0 <= j < after.files.len() && (#[trigger] x.files[i]).named() == (
        #[trigger] after.files[j]).named() implies x.files[i] == after.files[j] by {
        lemma_listed_file(w, out, before, after, j);
        lemma_file_generation(x, i);
        let f = after.files[j];
        if j < n {
            assert(x.files[i].named() == before.files[j].named());
        } else if j < n + k {
            lemma_reused(w, out, slots, j - n);
            let m = if j - n < infos(w.remembered()).len() {
                lemma_remembered_fits(w, slots, f.named())
            } else {
                lemma_taken_fits(w, slots, f.named())
            };
            let from = source(w.journal()[m].0);
            let l = choose|l: int| 0 <= l < from.files.len() && from.files[l] == f;
            assert(akin(x, from));
            assert(x.files[i].named() == from.files[l].named());
        }
    }
    assert forall|a: Route, b: Route| #[trigger]
        x.partitions.contains_key(a) && #[trigger] after.partitions.contains_key(b) && same_place(
            x.partitions[a],
            after.partitions[b],
        ) implies a == b by {
        assert(valid_part(x, a, x.partitions[a]));
        if out.parts().contains_key(b) {
            if w.index().lane(b.kind).contents().contains_key(b) {
                lemma_built_fits(w, out, before, after, b);
            } else {
                let m = lemma_adopted_fits(w, out, before, after, b);
                assert(akin(x, source(w.journal()[m].0)));
            }
        } else {
            assert(before.partitions.contains_key(b));
        }
    }
}

// ---- What the counts are ----

/// How many entities of buckets are changed in memory or in a generation that goes.
pub open spec fn all_moving(
    s: StateV,
    table: u64,
    slots: Seq<Option<u8>>,
    visits: Seq<Visit>,
) -> nat
    decreases visits.len(),
{
    if visits.len() == 0 {
        0
    } else {
        all_moving(s, table, slots, visits.drop_last()) + moving(
            s,
            table,
            slots,
            visits.last().entries,
        )
    }
}

/// How many entities of buckets are changed in memory and stored in a slot that stays.
pub open spec fn all_outdated(
    s: StateV,
    table: u64,
    slots: Seq<Option<u8>>,
    visits: Seq<Visit>,
    n: u8,
) -> nat
    decreases visits.len(),
{
    if visits.len() == 0 {
        0
    } else {
        all_outdated(s, table, slots, visits.drop_last(), n) + outdated(
            s,
            table,
            slots,
            visits.last().entries,
            n,
        )
    }
}

/// Nothing moves where nothing is changed and everything stays.
proof fn lemma_nothing_moves(
    s: StateV,
    table: u64,
    slots: Seq<Option<u8>>,
    entries: Seq<(u64, Option<Value>)>,
    n: u8,
)
    requires
        forall|i: int|
            0 <= i < entries.len() ==> stays_in(slots, #[trigger] entries[i]) is Some
                && !s.overlay.contains_key((table, entries[i].0)),
    ensures
        moving(s, table, slots, entries) == 0,
        outdated(s, table, slots, entries, n) == 0,
    decreases entries.len(),
{
    if entries.len() > 0 {
        let front = entries.drop_last();
        assert forall|i: int| 0 <= i < front.len() implies stays_in(slots, #[trigger] front[i])
            is Some && !s.overlay.contains_key((table, front[i].0)) by {
            assert(front[i] == entries[i]);
        }
        lemma_nothing_moves(s, table, slots, front, n);
        let e = entries[entries.len() - 1];
        assert(stays_in(slots, e) is Some);
    }
}

/// Where a plan empties generations and drains no other, the entities that a checkpoint writes
/// anew are exactly those that are changed in memory or whose generation goes, and those that
/// leave a copy behind in a generation that stays are exactly those that are changed in memory.
pub proof fn lemma_made_exactly(
    cs: Seq<Checkpoint>,
    ws: Seq<TableWriter>,
    s: StateV,
    files: Files,
    table: u64,
    lows: Seq<u64>,
    n: u8,
)
    requires
        all_done(cs, ws, s, files, table, lows),
        forall|i: u8| #[trigger] cs[0].quotas@[i as int] == 0,
        forall|i: int| 0 <= i < lows.len() ==> (#[trigger] lows[i]) % 1024 == 0,
        well_made(s.root),
        s.root.partitions.dom().finite(),
        s.overlay.dom().finite(),
        forall|i: int, j: int|
            #![trigger visits_of(cs, s, files, table, lows)[i].entries[j]]
            0 <= i < lows.len() && 0 <= j < visits_of(cs, s, files, table, lows)[i].entries.len()
                ==> lows[i] <= visits_of(cs, s, files, table, lows)[i].entries[j].0 <= bucket_end(
                lows[i],
            ),
    ensures
        ({
            let visits = visits_of(cs, s, files, table, lows);
            &&& all_writes(visits) == all_moving(s, table, cs[0].slots@, visits)
            &&& all_dead(visits, n) == all_outdated(s, table, cs[0].slots@, visits, n)
            &&& cs.last().quotas@ == cs[0].quotas@
            &&& cs.last().slots == cs[0].slots
        }),
    decreases lows.len(),
{
    let visits = visits_of(cs, s, files, table, lows);
    if lows.len() > 0 {
        let (cs1, ws1, lows1) = (cs.drop_last(), ws.drop_last(), lows.drop_last());
        let front = visits_of(cs1, s, files, table, lows1);
        assert(visits.drop_last() =~= front);
        assert forall|i: int| 0 <= i < lows1.len() implies #[trigger] done_at(
            cs1,
            ws1,
            s,
            files,
            table,
            lows1,
            i,
        ) by {
            assert(done_at(cs, ws, s, files, table, lows, i));
        }
        assert forall|i: int| 0 <= i < lows1.len() implies (#[trigger] lows1[i]) % 1024 == 0 by {
            assert(lows1[i] == lows[i]);
        }
        assert forall|i: int, j: int|
            #![trigger front[i].entries[j]]
            0 <= i < lows1.len() && 0 <= j < front[i].entries.len() implies lows1[i]
            <= front[i].entries[j].0 <= bucket_end(lows1[i]) by {
            assert(front[i] == visits[i]);
            assert(visits[i].entries[j] == front[i].entries[j]);
        }
        lemma_made_exactly(cs1, ws1, s, files, table, lows1, n);
        let k = lows1.len() as int;
        let (a, low) = (cs[k], lows[k]);
        assert(a == cs1.last());
        assert(done_at(cs, ws, s, files, table, lows, k));
        let visit = visits.last();
        assert(visit == visit_of(a, s, files, table, low));
        if stays_whole(a, s, table, low) {
            lemma_whole_left_alone(a, s, files, table, low);
            lemma_recent(s.overlay, table, low, bucket_end(low));
            assert forall|j: int| 0 <= j < visit.entries.len() implies stays_in(
                a.slots@,
                #[trigger] visit.entries[j],
            ) is Some && !s.overlay.contains_key((table, visit.entries[j].0)) by {
                let id = visit.entries[j].0;
                assert(visits[k].entries[j] == visit.entries[j]);
                if s.overlay.contains_key((table, id)) {
                    assert(recent_ids(s.overlay, table, low, bucket_end(low)).contains(id));
                }
            }
            lemma_nothing_moves(s, table, a.slots@, visit.entries, n);
        } else {
            let walk = table_entries(s, files, table, low, bucket_end(low));
            lemma_written_anew(
                copying_of(a, table),
                a.slots@,
                s,
                files,
                a.quotas@,
                walk.items,
                n,
            );
        }
    }
}

// ---- Snapshots of a table ----

/// The manifests that the items of a journal were taken over from agree on sequence numbers, if
/// they are all akin.
pub proof fn lemma_pool_agrees(w: TableWriter, slots: nat, pool: Set<RootV>)
    requires
        pooled(w, slots, pool),
        kin(pool, w.place().1, w.place().3),
    ensures
        sources_agree(w),
{
    assert forall|i: int, j: int|
        0 <= i < w.journal().len() && 0 <= j < w.journal().len() implies same_sequences(
        source((#[trigger] w.journal()[i]).0),
        source((#[trigger] w.journal()[j]).0),
    ) by {
        let (a, b) = (w.journal()[i].0, w.journal()[j].0);
        if sourced(a) && sourced(b) {
            assert(pool.contains(source(a)) && pool.contains(source(b)));
            assert(akin(source(a), source(b)));
        }
    }
}

/// What the items of a bucket bring of the snapshots of an entity are states which replay gives.
proof fn lemma_bucket_true(
    a: Checkpoint,
    s: StateV,
    files: Files,
    table: u64,
    low: u64,
    pool: Set<RootV>,
    given: Map<RootV, Map<Route, Seq<Entry>>>,
    id: u64,
    d: DataV,
    m: int,
)
    requires
        stays_whole(a, s, table, low) || bucket_work(a, s, files, table, low) is Ok,
        s.catalog.contains_key(table),
        rests_on(s, pool),
        forall|r: RootV| #[trigger] pool.contains(r) ==> snapshots_given(r, files, table, given[r]),
        s.overlay.dom().finite(),
        loaded_data(s, files, table, id) == Ok::<_, Fault>(Some(d)),
        consistent(d, files, s.catalog[table]),
        d.base.id == id,
        d.snapshots.dom().finite(),
        stored_faithful(d, files, s.catalog[table]),
        states_fit(d, files, s.catalog[table]),
        d.disk matches Some(disk) ==> disk.table == table,
        0 <= m < bucket_items(a, s, files, table, low).len(),
    ensures
        item_true(
            table,
            bucket_items(a, s, files, table, low)[m],
            id,
            d,
            files,
            s.catalog[table],
        ),
{
    let t = s.catalog[table];
    let items = bucket_items(a, s, files, table, low);
    let high = bucket_end(low);
    assert(snapshots_given(s.root, files, table, given[s.root]));
    if stays_whole(a, s, table, low) {
        let events = range_parts(s.root, table, 4, low, high);
        let states = range_parts(s.root, table, 5, low, high);
        if 1 <= m < 1 + events.len() {
            lemma_range_part(s.root, table, 4, low, high, m - 1);
            assert(items[m] == moved_items(s.root, events, a.slots@)[m - 1]);
        } else if m >= 1 {
            let k = m - 1 - events.len();
            assert(items[m] == moved_items(s.root, states, a.slots@)[k]);
            if low <= id <= high {
                lemma_recent(s.overlay, table, low, high);
                if s.overlay.contains_key((table, id)) {
                    assert(recent_ids(s.overlay, table, low, high).contains(id));
                }
            }
            lemma_whole_true(a, s, files, table, low, given[s.root], id, d, t, k);
        }
    } else {
        let walk = table_entries(s, files, table, low, high);
        let c = copying_of(a, table);
        let works = bucket_work(a, s, files, table, low)->Ok_0.works;
        let (i, j) = lemma_works_items_from(s.root, works, m);
        lemma_length(c, a.slots@, s, files, a.quotas@, walk.items);
        lemma_work_of(c, a.slots@, s, files, a.quotas@, walk.items, i);
        let r = work_root(s.root, works[i]);
        let own = walk.items[i].0;
        if carries(works[i]) {
            assert(pool.contains(r)) by {
                if let WorkV::Write { data, .. } = works[i] {
                    if s.overlay.contains_key((table, own)) {
                        assert(s.overlay[(table, own)] == data);
                    }
                }
            }
        }
        lemma_work_true(
            c,
            a.slots@,
            s,
            files,
            a.quotas@,
            walk.items,
            i,
            given[r],
            id,
            d,
            t,
            j,
        );
    }
}

/// What a checkpoint of a table brings of the snapshots of an entity are states which replay
/// gives, if reads of the entity start from such.
pub proof fn lemma_made_true(
    cs: Seq<Checkpoint>,
    ws: Seq<TableWriter>,
    s: StateV,
    files: Files,
    table: u64,
    lows: Seq<u64>,
    pool: Set<RootV>,
    given: Map<RootV, Map<Route, Seq<Entry>>>,
    id: u64,
    d: DataV,
)
    requires
        all_done(cs, ws, s, files, table, lows),
        ws[0].place().0 == table,
        ws[0].journal() == Seq::<(Item, Value)>::empty(),
        s.catalog.contains_key(table),
        rests_on(s, pool),
        forall|r: RootV| #[trigger] pool.contains(r) ==> snapshots_given(r, files, table, given[r]),
        s.overlay.dom().finite(),
        loaded_data(s, files, table, id) == Ok::<_, Fault>(Some(d)),
        consistent(d, files, s.catalog[table]),
        d.base.id == id,
        d.snapshots.dom().finite(),
        stored_faithful(d, files, s.catalog[table]),
        states_fit(d, files, s.catalog[table]),
        d.disk matches Some(disk) ==> disk.table == table,
    ensures
        journal_true(ws.last(), id, d, files, s.catalog[table]),
        ws.last().place() == ws[0].place(),
    decreases lows.len(),
{
    if lows.len() > 0 {
        let (cs1, ws1, lows1) = (cs.drop_last(), ws.drop_last(), lows.drop_last());
        assert forall|i: int| 0 <= i < lows1.len() implies #[trigger] done_at(
            cs1,
            ws1,
            s,
            files,
            table,
            lows1,
            i,
        ) by {
            assert(done_at(cs, ws, s, files, table, lows, i));
        }
        lemma_made_true(cs1, ws1, s, files, table, lows1, pool, given, id, d);
        let k = lows1.len() as int;
        let (a, v, w, low) = (cs[k], ws[k], ws[k + 1], lows[k]);
        assert(v == ws1.last());
        assert(done_at(cs, ws, s, files, table, lows, k));
        let items = bucket_items(a, s, files, table, low);
        assert(added(v, w, items));
        assert(w.place() == v.place()) by {
            reveal(crate::table_writer::grew);
        }
        assert forall|j: int| 0 <= j < items.len() implies item_true(
            v.place().0,
            #[trigger] items[j],
            id,
            d,
            files,
            s.catalog[table],
        ) by {
            lemma_bucket_true(a, s, files, table, low, pool, given, id, d, j);
        }
        lemma_journal_true(v, w, items, id, d, files, s.catalog[table]);
    }
}

} // verus!
