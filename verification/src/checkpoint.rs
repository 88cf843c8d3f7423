//! Building a checkpoint of a committed view.

use crate::codec::MAX_FRAME;
use crate::copying::Copying;
use crate::copying::Step;
use crate::copying::StepV;
use crate::copying::history_asks;
use crate::copying::history_steps;
use crate::copying::plan_history;
use crate::copying::steps_view;
use crate::entity::DataV;
use crate::entity::EntityData;
use crate::error::Error;
use crate::error::Fault;
use crate::error::Outcome;
use crate::error::Result;
use crate::error::corrupt;
use crate::error::reports;
use crate::key::OrderedKey;
use crate::key::increasing;
use crate::key::lemma_listing_is;
use crate::key::listing;
use crate::key::lists;
use crate::making::absorbs;
use crate::making::begins;
use crate::making::lemma_reads_back;
use crate::making::well_made;
use crate::ordered_map::OrderedMap;
use crate::partitions::PartV;
use crate::partitions::Partition;
use crate::partitions::Route;
use crate::partitions::WIDTH;
use crate::partitions::bucket;
use crate::partitions::bucket_of;
use crate::partitions::entity_slot;
use crate::partitions::remap;
use crate::partitions::remapped;
use crate::partitions::shared_slot;
use crate::reader::Merged;
use crate::reader::ReadState;
use crate::reader::StateV;
use crate::reader::load_asks;
use crate::reader::loaded_data;
use crate::reader::recent_ids;
use crate::reader::table_entries;
use crate::reader::walk_asks;
use crate::resources::check;
use crate::snapshot::FileInfo;
use crate::snapshot::GenerationInfo;
use crate::snapshot::MAX_SLOTS;
use crate::snapshot::Occupancy;
use crate::snapshot::Root;
use crate::snapshot::RootV;
use crate::snapshot::Share;
use crate::snapshot::dec_root;
use crate::snapshot::enc_root;
use crate::snapshot::file_stays;
use crate::snapshot::moved;
use crate::snapshot::one_to_one;
use crate::snapshot::stays;
use crate::snapshot::translation;
use crate::storage::frame::FrameV;
use crate::storage::frame::enc_frame;
use crate::storage::frame;
use crate::storage::index::Value;
use crate::storage::pager::Files;
use crate::storage::pager::Loaded;
use crate::storage::pager::lacks;
use crate::table_writer::Item;
use crate::table_writer::TableOutput;
use crate::table_writer::TableWriter;
use crate::table_writer::added;
use crate::table_writer::all_movable;
use crate::table_writer::carried_items;
use crate::table_writer::entity_items;
use crate::table_writer::entity_steps;
use crate::table_writer::entity_steps_ask;
use crate::table_writer::grew;
use crate::table_writer::history_root;
use crate::table_writer::lemma_added_both;
use crate::table_writer::lemma_added_none;
use crate::table_writer::lemma_added_one;
use crate::table_writer::lemma_refused_known;
use crate::table_writer::lemma_stopped_known;
use crate::table_writer::merge;
use crate::table_writer::movable;
use crate::table_writer::moved_items;
use crate::table_writer::moved_part;
use crate::table_writer::plan_entity;
use crate::table_writer::range_parts;
use crate::table_writer::recorded;
use crate::table_writer::refused;
use crate::table_writer::stopped;
use vstd::prelude::*;

verus! {

// ---- Which buckets there are ----

/// Whether a table has entities in the bucket that starts at an identifier: in the checkpoint
/// or among the changed ones.
pub open spec fn has_bucket(s: StateV, table: u64, low: u64) -> bool {
    ||| exists|at: Route| #[trigger]
        s.root.partitions.contains_key(at) && at.table == table && at.kind == 3 && at.low == low
    ||| exists|id: u64| #[trigger]
        s.overlay.contains_key((table, id)) && bucket_of(3, (id, 0)).0 == low
}

/// The buckets of a table, in order.
pub fn buckets(state: &ReadState, table: u64) -> (lows: Vec<u64>)
    ensures
        forall|i: int, j: int| 0 <= i < j < lows@.len() ==> lows@[i] < lows@[j],
        forall|low: u64| #[trigger] lows@.contains(low) == has_bucket(state@, table, low),
{
    let mut found: OrderedMap<u64, ()> = OrderedMap::new();
    let parts = state.root.routed(
        Route { table, kind: 3, low: 0, low_second: 0 },
        Route { table, kind: 3, low: u64::MAX, low_second: u64::MAX },
    );
    let ghost h = |e: (Route, &Partition)| (e.0, e.1@);
    let ghost from = Route { table, kind: 3, low: 0, low_second: 0 };
    let ghost to = Route { table, kind: 3, low: u64::MAX, low_second: u64::MAX };
    let ghost all = listing(state@.root.partitions);
    proof {
        lemma_filter_in(all, crate::partitions::between_routes(from, to));
        assert(parts@.map_values(h).len() == parts@.len());
    }
    let mut i: usize = 0;
    while i < parts.len()
        invariant
            i <= parts@.len(),
            h == (|e: (Route, &Partition)| (e.0, e.1@)),
            parts@.map_values(h) == all.filter(crate::partitions::between_routes(from, to)),
            all == listing(state@.root.partitions),
            lists(all, state@.root.partitions),
            from == (Route { table, kind: 3, low: 0, low_second: 0 }),
            to == (Route { table, kind: 3, low: u64::MAX, low_second: u64::MAX }),
            forall|low: u64| #[trigger] found@.contains_key(low) ==> has_bucket(state@, table, low),
            forall|j: int| 0 <= j < i ==> found@.contains_key((#[trigger] parts@[j]).0.low),
        decreases parts@.len() - i,
    {
        let at = parts[i].0;
        proof {
            lemma_filter_in(all, crate::partitions::between_routes(from, to));
            assert(parts@.map_values(h)[i as int].0 == at);
            let e = parts@.map_values(h)[i as int];
            assert(all.filter(crate::partitions::between_routes(from, to)).contains(e));
            let k = choose|k: int| 0 <= k < all.len() && all[k] == e;
            assert(state@.root.partitions.contains_key(at)) by {
                reveal(lists);
                assert(state@.root.partitions.contains_key(all[k].0));
            }
            assert(at.table == table && at.kind == 3);
            assert(has_bucket(state@, table, at.low));
        }
        found.insert(at.low, ());
        i = i + 1;
    }
    let ids = state.recent(table, 0, u64::MAX);
    let ghost p = crate::reader::of_table(table, 0, u64::MAX);
    let ghost over = listing(state@.overlay);
    proof {
        lemma_filter_in(over, p);
    }
    let mut k: usize = 0;
    while k < ids.len()
        invariant
            k <= ids@.len(),
            p == crate::reader::of_table(table, 0, u64::MAX),
            over == listing(state@.overlay),
            lists(over, state@.overlay),
            ids@ == recent_ids(state@.overlay, table, 0, u64::MAX),
            forall|low: u64| #[trigger] found@.contains_key(low) ==> has_bucket(state@, table, low),
            forall|j: int| 0 <= j < parts@.len() ==> found@.contains_key((#[trigger] parts@[j]).0.low),
            forall|j: int|
                0 <= j < k ==> found@.contains_key(bucket_of(3, (#[trigger] ids@[j], 0u64)).0),
        decreases ids@.len() - k,
    {
        let id: u64 = ids[k];
        let low = bucket(3, (id, 0));
        proof {
            lemma_filter_in(over, p);
            let g = |e: (crate::storage::index::Key, DataV)| e.0.1;
            let e = over.filter(p)[k as int];
            assert(over.filter(p).map_values(g)[k as int] == e.0.1);
            assert(over.filter(p).contains(e));
            let n = choose|n: int| 0 <= n < over.len() && over[n] == e;
            assert(state@.overlay.contains_key((table, id))) by {
                reveal(lists);
                assert(state@.overlay.contains_key(over[n].0));
            }
            assert(has_bucket(state@, table, low.0));
        }
        found.insert(low.0, ());
        k = k + 1;
    }
    let items = found.items();
    let ghost s = found.entries();
    let ghost pair = |e: (&u64, &())| (*e.0, *e.1);
    proof {
        assert(items@.map_values(pair).len() == items@.len());
    }
    let mut lows: Vec<u64> = Vec::new();
    let mut n: usize = 0;
    while n < items.len()
        invariant
            n <= items@.len(),
            pair == (|e: (&u64, &())| (*e.0, *e.1)),
            items@.map_values(pair) == s,
            lows@.len() == n,
            forall|j: int| 0 <= j < n ==> #[trigger] lows@[j] == s[j].0,
        decreases items@.len() - n,
    {
        assert(items@.map_values(pair)[n as int] == s[n as int]);
        lows.push(*items[n].0);
        n = n + 1;
    }
    proof {
        assert forall|i: int, j: int| 0 <= i < j < lows@.len() implies lows@[i] < lows@[j] by {
            reveal(increasing);
            assert(s[i].0.before(s[j].0));
        }
        assert forall|low: u64| #[trigger] lows@.contains(low) == has_bucket(state@, table, low) by {
            reveal(lists);
            if lows@.contains(low) {
                let j = choose|j: int| 0 <= j < lows@.len() && lows@[j] == low;
                assert(found@.contains_key(s[j].0));
            }
            if has_bucket(state@, table, low) {
                if exists|at: Route| #[trigger]
                    state@.root.partitions.contains_key(at) && at.table == table && at.kind == 3
                        && at.low == low {
                    let at = choose|at: Route| #[trigger]
                        state@.root.partitions.contains_key(at) && at.table == table && at.kind
                            == 3 && at.low == low;
                    let m = choose|m: int| 0 <= m < all.len() && (#[trigger] all[m]).0 == at;
                    let q = crate::partitions::between_routes(from, to);
                    assert(q(all[m]));
                    assert(all.filter(q).contains(all[m]));
                    let j = choose|j: int| 0 <= j < all.filter(q).len() && all.filter(q)[j] == all[m];
                    assert(parts@.map_values(h)[j] == all[m]);
                    assert(parts@[j].0.low == low);
                } else {
                    let id = choose|id: u64| #[trigger]
                        state@.overlay.contains_key((table, id)) && bucket_of(3, (id, 0)).0 == low;
                    let m = choose|m: int| 0 <= m < over.len() && (#[trigger] over[m]).0 == (table, id);
                    assert(p(over[m]));
                    assert(over.filter(p).contains(over[m]));
                    let j = choose|j: int| 0 <= j < over.filter(p).len() && over.filter(p)[j] == over[m];
                    let g = |e: (crate::storage::index::Key, DataV)| e.0.1;
                    assert(over.filter(p).map_values(g)[j] == id);
                    assert(ids@[j] == id);
                }
                assert(found@.contains_key(low));
                let j = choose|j: int| 0 <= j < s.len() && (#[trigger] s[j]).0 == low;
                assert(lows@[j] == low);
            }
        }
    }
    lows
}

/// A filter gives the members that it takes.
proof fn lemma_filter_in<T>(s: Seq<T>, p: spec_fn(T) -> bool)
    ensures
        forall|x: T| #[trigger] s.filter(p).contains(x) == (s.contains(x) && p(x)),
    decreases s.len(),
{
    reveal(Seq::filter);
    if s.len() > 0 {
        let t = s.drop_last();
        lemma_filter_in(t, p);
        assert forall|x: T| #[trigger] s.filter(p).contains(x) == (s.contains(x) && p(x)) by {
            if s.contains(x) && p(x) {
                let i = choose|i: int| 0 <= i < s.len() && s[i] == x;
                if i < t.len() {
                    assert(t[i] == x);
                    assert(t.filter(p).contains(x));
                    let j = choose|j: int| 0 <= j < t.filter(p).len() && t.filter(p)[j] == x;
                    assert(s.filter(p)[j] == x);
                } else {
                    assert(s.filter(p).last() == x);
                    assert(s.filter(p)[s.filter(p).len() - 1] == x);
                }
            }
            if s.filter(p).contains(x) {
                let j = choose|j: int| 0 <= j < s.filter(p).len() && s.filter(p)[j] == x;
                if j < t.filter(p).len() {
                    assert(t.filter(p)[j] == x);
                    assert(t.filter(p).contains(x));
                    assert(t.contains(x));
                    let i = choose|i: int| 0 <= i < t.len() && t[i] == x;
                    assert(s[i] == x);
                } else {
                    assert(s[s.len() - 1] == x);
                }
            }
        }
    }
}

// ---- The new manifest ----

/// The generations that a plan empties.
pub open spec fn emptied(plan: Map<u64, u64>) -> Map<u64, ()> {
    Map::new(|g: u64| plan.contains_key(g) && plan[g] == u64::MAX, |g: u64| ())
}

/// How many entities a plan moves out of a generation.
pub open spec fn quota(plan: Map<u64, u64>, generation: u64) -> u64 {
    if plan.contains_key(generation) {
        plan[generation]
    } else {
        0
    }
}

/// Whether quotas by new slot are those of a plan.
pub open spec fn quotas_of(
    quotas: Seq<u64>,
    plan: Map<u64, u64>,
    s: Seq<GenerationInfo>,
    slots: Seq<Option<u8>>,
) -> bool {
    &&& quotas.len() == MAX_SLOTS
    &&& forall|i: int|
        0 <= i < s.len() && (#[trigger] slots[i]) is Some ==> quotas[slots[i].unwrap() as int]
            == quota(plan, s[i].generation)
    &&& forall|k: int|
        0 <= k < MAX_SLOTS && (forall|i: int|
            0 <= i < s.len() ==> (#[trigger] slots[i]) != Some(k as u8)) ==> #[trigger] quotas[k]
            == 0
}

/// Whether a plan empties every generation.
pub open spec fn empties_all(plan: Map<u64, u64>, s: Seq<GenerationInfo>) -> bool {
    &&& forall|g: u64| #[trigger] plan.contains_key(g) ==> plan[g] == u64::MAX
    &&& listing(plan).len() == s.len()
}

/// A checkpoint in progress.
pub struct Checkpoint {
    /// The manifest so far.
    pub root: Root,
    /// The new slots of old ones.
    pub slots: Vec<Option<u8>>,
    /// How many more entities move out of the generation in each new slot.
    pub quotas: Vec<u64>,
    /// The slot of the new generation.
    pub new_slot: u8,
    /// Whether history is written anew.
    pub rewrite_history: bool,
    /// Whether index partitions are.
    pub rewrite_indexes: bool,
    /// The size of a history segment.
    pub segment_bytes: u64,
    /// Whether events are compressed.
    pub compress: bool,
    /// The most index partitions.
    pub max_partitions: usize,
}

/// How checkpoints are written.
#[derive(Clone, Copy, Debug)]
pub struct Manner {
    /// Whether history is written anew.
    pub rewrite_history: bool,
    /// The size of a history segment.
    pub segment_bytes: u64,
    /// Whether events are compressed.
    pub compress: bool,
    /// The most index partitions.
    pub max_partitions: usize,
}

proof fn lemma_one_to_one(s: Seq<GenerationInfo>, absorb: Map<u64, ()>)
    requires
        s.len() <= MAX_SLOTS,
        crate::snapshot::ascending(s),
    ensures
        one_to_one(translation(s, absorb)),
{
    let t = translation(s, absorb);
    assert forall|a: int, b: int|
        0 <= a < b < t.len() && (#[trigger] t[a]) is Some && (#[trigger] t[b])
            is Some implies t[a] != t[b] by {
        crate::snapshot::lemma_translation(s, absorb, a as u8, b as u8);
    }
}

impl Checkpoint {
    /// Starts a checkpoint of a view: a generation that the plan empties leaves the manifest;
    /// one that it drains in part keeps its slot with its quota.
    pub fn begin(
        state: &ReadState,
        generation: u64,
        plan: &OrderedMap<u64, u64>,
        manner: Manner,
    ) -> (r: Result<Checkpoint>)
        requires
            state@.root.generations.len() <= MAX_SLOTS,
            crate::snapshot::ascending(state@.root.generations),
            state.overlay.sound(),
        ensures
            ({
                let s = state@.root.generations;
                let absorb = emptied(plan@);
                let kept = s.filter(stays(absorb));
                match r {
                    Ok(c) => {
                        &&& begins(state@, generation, plan@, c.root@)
                        &&& c.root@.history_compacted == (manner.rewrite_history || (
                        state@.root.history_compacted && state@.overlay == Map::<
                            crate::storage::index::Key,
                            DataV,
                        >::empty()))
                        &&& c.slots@ == translation(s, absorb)
                        &&& quotas_of(c.quotas@, plan@, s, c.slots@)
                        &&& c.new_slot == kept.len()
                        &&& c.rewrite_history == manner.rewrite_history
                        &&& c.rewrite_indexes == empties_all(plan@, s)
                        &&& c.segment_bytes == manner.segment_bytes
                        &&& c.compress == manner.compress
                        &&& c.max_partitions == manner.max_partitions
                    },
                    Err(e) => e is Invalid && kept.len() >= MAX_SLOTS,
                }
            }),
    {
        let mut absorb: OrderedMap<u64, ()> = OrderedMap::new();
        let items = plan.items();
        let ghost all = plan.entries();
        let ghost pair = |e: (&u64, &u64)| (*e.0, *e.1);
        proof {
            assert(items@.map_values(pair).len() == items@.len());
            lemma_listing_is(all, plan@);
        }
        let mut every: bool = true;
        let mut i: usize = 0;
        while i < items.len()
            invariant
                i <= items@.len(),
                pair == (|e: (&u64, &u64)| (*e.0, *e.1)),
                items@.map_values(pair) == all,
                lists(all, plan@),
                forall|g: u64| #[trigger]
                    absorb@.contains_key(g) ==> plan@.contains_key(g) && plan@[g] == u64::MAX,
                forall|j: int|
                    0 <= j < i && (#[trigger] all[j]).1 == u64::MAX ==> absorb@.contains_key(
                        all[j].0,
                    ),
                every == (forall|j: int| 0 <= j < i ==> (#[trigger] all[j]).1 == u64::MAX),
            decreases items@.len() - i,
        {
            let (generation, quota) = (*items[i].0, *items[i].1);
            proof {
                assert(items@.map_values(pair)[i as int] == (generation, quota));
                reveal(lists);
                assert(all[i as int] == (generation, quota));
            }
            if quota == u64::MAX {
                absorb.insert(generation, ());
            } else {
                every = false;
            }
            i = i + 1;
        }
        proof {
            reveal(lists);
            assert forall|g: u64| plan@.contains_key(g) && plan@[g] == u64::MAX implies #[trigger]
                absorb@.contains_key(g) by {
                let j = choose|j: int| 0 <= j < all.len() && (#[trigger] all[j]).0 == g;
                assert(all[j].1 == u64::MAX);
            }
            assert(absorb@ =~= emptied(plan@));
            if every {
                assert forall|g: u64| #[trigger] plan@.contains_key(g) implies plan@[g]
                    == u64::MAX by {
                    let j = choose|j: int| 0 <= j < all.len() && (#[trigger] all[j]).0 == g;
                    assert(all[j].1 == u64::MAX);
                }
            } else {
                let j = choose|j: int| 0 <= j < all.len() && (#[trigger] all[j]).1 != u64::MAX;
                assert(plan@.contains_key(all[j].0));
            }
            assert(items@.len() == listing(plan@).len());
            lemma_one_to_one(state@.root.generations, absorb@);
        }
        let rewrite_indexes: bool = every && items.len() == state.root.generations.len();
        let (generations, slots) = state.root.rebuild_slots(&absorb, generation, state.lsn)?;
        let new_slot: u8 = (generations.len() - 1) as u8;
        let quotas = plan_quotas(&state.root, plan, &slots, Ghost(absorb@));
        let files = state.root.kept_files(&absorb);
        let occupancy = state.root.kept_occupancy(&slots);
        let unchanged: bool = state.overlay.is_empty();
        proof {
            if unchanged {
                assert(state@.overlay =~= Map::empty());
            } else {
                assert(state.overlay.entries() != Map::<
                    crate::storage::index::Key,
                    std::sync::Arc<EntityData>,
                >::empty());
                if state@.overlay == Map::<crate::storage::index::Key, DataV>::empty() {
                    assert forall|k: crate::storage::index::Key| !(
                    #[trigger] state.overlay.entries().contains_key(k)) by {
                        assert(!state@.overlay.contains_key(k));
                    }
                    assert(state.overlay.entries() =~= Map::empty());
                }
            }
        }
        let root = Root {
            generation,
            lsn: state.lsn,
            catalog: state.catalog.clone(),
            generations,
            files,
            partitions: OrderedMap::new(),
            history_generations: OrderedMap::new(),
            history_compacted: manner.rewrite_history || (state.root.history_compacted
                && unchanged),
            occupancy,
        };
        proof {
            let kept = state@.root.generations.filter(stays(emptied(plan@)));
            assert(root@.partitions =~= Map::empty());
            assert(root@.catalog =~= state@.catalog);
            assert(root@.generations =~= kept.push(GenerationInfo { generation, lsn: state@.lsn }));
            assert(root@.files =~= state@.root.files.filter(file_stays(emptied(plan@))));
            assert(begins(state@, generation, plan@, root@));
        }
        Ok(
            Checkpoint {
                root,
                slots,
                quotas,
                new_slot,
                rewrite_history: manner.rewrite_history,
                rewrite_indexes,
                segment_bytes: manner.segment_bytes,
                compress: manner.compress,
                max_partitions: manner.max_partitions,
            },
        )
    }
}

fn plan_quotas(
    root: &Root,
    plan: &OrderedMap<u64, u64>,
    slots: &Vec<Option<u8>>,
    Ghost(absorb): Ghost<Map<u64, ()>>,
) -> (quotas: Vec<u64>)
    requires
        root@.generations.len() <= MAX_SLOTS,
        crate::snapshot::ascending(root@.generations),
        slots@ == translation(root@.generations, absorb),
    ensures
        quotas_of(quotas@, plan@, root@.generations, slots@),
{
    let ghost s = root@.generations;
    let mut quotas: Vec<u64> = Vec::new();
    while quotas.len() < MAX_SLOTS
        invariant
            quotas@.len() <= MAX_SLOTS,
            forall|k: int| 0 <= k < quotas@.len() ==> #[trigger] quotas@[k] == 0,
        decreases MAX_SLOTS - quotas@.len(),
    {
        quotas.push(0);
    }
    let mut i: usize = 0;
    while i < root.generations.len()
        invariant
            i <= s.len(),
            s == root.generations@,
            s == root@.generations,
            s.len() <= MAX_SLOTS,
            crate::snapshot::ascending(s),
            slots@ == translation(s, absorb),
            quotas@.len() == MAX_SLOTS,
            forall|j: int|
                0 <= j < i && (#[trigger] slots@[j]) is Some ==> quotas@[slots@[j].unwrap() as int]
                    == quota(plan@, s[j].generation),
            forall|k: int|
                0 <= k < MAX_SLOTS && (forall|j: int|
                    0 <= j < i ==> (#[trigger] slots@[j]) != Some(k as u8)) ==> #[trigger] quotas@[k]
                    == 0,
        decreases s.len() - i,
    {
        match slots[i] {
            None => {},
            Some(slot) => {
                let q: u64 = match plan.get(&root.generations[i].generation) {
                    Some(q) => *q,
                    None => 0,
                };
                let ghost was = quotas@;
                quotas.set(slot as usize, q);
                proof {
                    assert forall|j: int|
                        0 <= j < i + 1 && (#[trigger] slots@[j])
                            is Some implies quotas@[slots@[j].unwrap() as int] == quota(
                        plan@,
                        s[j].generation,
                    ) by {
                        if j < i {
                            crate::snapshot::lemma_translation(s, absorb, i as u8, j as u8);
                        }
                    }
                    assert forall|k: int|
                        0 <= k < MAX_SLOTS && (forall|j: int|
                            0 <= j < i + 1 ==> (#[trigger] slots@[j]) != Some(
                                k as u8,
                            )) implies #[trigger] quotas@[k] == 0 by {
                        assert(slots@[i as int] != Some(k as u8));
                        assert(k != slot);
                        assert(was[k] == 0);
                    }
                }
            },
        }
        i = i + 1;
    }
    quotas
}

// ---- What becomes of entities ----

/// Whether the slots of a partition all stay and none is drained.
pub open spec fn undrained(p: PartV, slots: Seq<Option<u8>>, quotas: Seq<u64>) -> bool {
    forall|k: u8| #[trigger]
        p.slots.contains_key(k) ==> slots[p.slots[k] as int] is Some && quotas[slots[p.slots[k] as int].unwrap() as int]
            == 0
}

/// The last identifier of a bucket.
pub open spec fn bucket_end(low: u64) -> u64 {
    if low + WIDTH - 1 <= u64::MAX {
        (low + WIDTH - 1) as u64
    } else {
        u64::MAX
    }
}

/// Whether a bucket stays as it is: nothing in it changed, and its generations stay and are not
/// drained.
pub open spec fn stays_whole(c: Checkpoint, s: StateV, table: u64, low: u64) -> bool {
    let at = Route { table, kind: 3, low, low_second: 0 };
    s.root.partitions.contains_key(at) && recent_ids(s.overlay, table, low, bucket_end(low)).len()
        == 0 && undrained(s.root.partitions[at], c.slots@, c.quotas@)
}

/// What becomes of an entity.
pub enum Choice {
    /// Its records stay; the index gets this entry.
    Carry(Value),
    /// It is written anew.
    Write,
}

/// What becomes of an entity that memory may hold, with a primary entry: the choice, the slot
/// where it leaves an unreachable copy behind, and the quotas afterwards.
pub open spec fn chosen(
    slots: Seq<Option<u8>>,
    quotas: Seq<u64>,
    touched: bool,
    locator: Option<Value>,
) -> Outcome<(Choice, Option<u8>, Seq<u64>)> {
    match locator {
        None => Ok((Choice::Write, None, quotas)),
        Some(v) => match shared_slot(v) {
            None => Err(Fault::Corrupt),
            Some(before) => match slots[before as int] {
                None => Ok((Choice::Write, None, quotas)),
                Some(slot) => if !touched && quotas[slot as int] == 0 {
                    Ok((Choice::Carry(remapped(v, slot)), None, quotas))
                } else if touched {
                    Ok((Choice::Write, Some(slot), quotas))
                } else {
                    Ok(
                        (
                            Choice::Write,
                            Some(slot),
                            quotas.update(slot as int, (quotas[slot as int] - 1) as u64),
                        ),
                    )
                },
            },
        },
    }
}

/// Decides what becomes of an entity. One that leaves a copy behind and is not in memory counts
/// against the quota of its slot.
pub fn decide(
    slots: &Vec<Option<u8>>,
    quotas: &Vec<u64>,
    touched: bool,
    locator: Option<Value>,
) -> (r: Result<(Choice, Option<u8>)>)
    requires
        slots@.len() == MAX_SLOTS,
        quotas@.len() == MAX_SLOTS,
    ensures
        match r {
            Ok((choice, dead)) => {
                &&& dead is Some && !touched ==> quotas@[dead.unwrap() as int] > 0
                &&& chosen(slots@, quotas@, touched, locator) == Ok::<_, Fault>(
                    (
                        choice,
                        dead,
                        if dead is Some && !touched {
                            quotas@.update(
                                dead.unwrap() as int,
                                (quotas@[dead.unwrap() as int] - 1) as u64,
                            )
                        } else {
                            quotas@
                        },
                    ),
                )
            },
            Err(e) => e is Corrupt && chosen(slots@, quotas@, touched, locator) == Err::<
                (Choice, Option<u8>, Seq<u64>),
                _,
            >(Fault::Corrupt),
        },
{
    match locator {
        None => Ok((Choice::Write, None)),
        Some(value) => {
            let before: u8 = entity_slot(value)?;
            match slots[before as usize] {
                // The generation leaves the manifest, so every entity of it moves and no
                // counter outlives the move.
                None => Ok((Choice::Write, None)),
                Some(slot) => {
                    if !touched && quotas[slot as usize] == 0 {
                        // The records stay where they are and only the index entry moves.
                        return Ok((Choice::Carry(remap(value, slot)), None));
                    }
                    Ok((Choice::Write, Some(slot)))
                },
            }
        },
    }
}

/// What is done for an entity.
pub enum Work {
    /// Its records stay.
    Carry { id: u64, value: Value, steps: Vec<Step> },
    /// It is written anew.
    Write { id: u64, data: EntityData, steps: Vec<Step> },
}

/// What work stands for.
pub enum WorkV {
    /// Records stay.
    Carry { id: u64, value: Value, steps: Seq<StepV> },
    /// An entity is written anew.
    Write { id: u64, data: DataV, steps: Seq<StepV> },
}

impl View for Work {
    type V = WorkV;

    open spec fn view(&self) -> WorkV {
        match self {
            Work::Carry { id, value, steps } => WorkV::Carry {
                id: *id,
                value: *value,
                steps: steps_view(steps@),
            },
            Work::Write { id, data, steps } => WorkV::Write {
                id: *id,
                data: data@,
                steps: steps_view(steps@),
            },
        }
    }
}

/// The work for entities, the slots where copies stay behind, and the quotas afterwards.
pub struct Batch {
    /// The work.
    pub works: Seq<WorkV>,
    /// The slots of copies left behind.
    pub dead: Seq<u8>,
    /// The quotas.
    pub quotas: Seq<u64>,
}

/// How a checkpoint copies history of a table.
pub open spec fn copying_of(c: Checkpoint, table: u64) -> Copying {
    Copying { table, rewrite_history: c.rewrite_history, rewrite_indexes: c.rewrite_indexes }
}

/// The work for one entity behind that for others.
#[verifier::opaque]
pub open spec fn work_for(
    c: Copying,
    slots: Seq<Option<u8>>,
    s: StateV,
    files: Files,
    b: Batch,
    e: (u64, Option<Value>),
) -> Outcome<Batch> {
    let id = e.0;
    match chosen(slots, b.quotas, s.overlay.contains_key((c.table, id)), e.1) {
        Err(f) => Err(f),
        Ok((choice, dead, quotas)) => {
            let dead = match dead {
                None => b.dead,
                Some(slot) => b.dead.push(slot),
            };
            match choice {
                Choice::Carry(value) => match history_steps(
                    c,
                    s.root,
                    files,
                    id,
                    None,
                    0,
                    u64::MAX,
                ) {
                    Err(f) => Err(f),
                    Ok(steps) => Ok(
                        Batch {
                            works: b.works.push(WorkV::Carry { id, value, steps }),
                            dead,
                            quotas,
                        },
                    ),
                },
                Choice::Write => match loaded_data(s, files, c.table, id) {
                    Err(f) => Err(f),
                    Ok(None) => Err(Fault::Corrupt),
                    Ok(Some(data)) => match entity_steps(c, files, id, data) {
                        Err(f) => Err(f),
                        Ok(steps) => Ok(
                            Batch {
                                works: b.works.push(WorkV::Write { id, data, steps }),
                                dead,
                                quotas,
                            },
                        ),
                    },
                },
            }
        },
    }
}

/// Whether finding the work for one entity needs what a request names.
#[verifier::opaque]
pub open spec fn work_asks(
    c: Copying,
    slots: Seq<Option<u8>>,
    s: StateV,
    files: Files,
    quotas: Seq<u64>,
    entry: (u64, Option<Value>),
    e: Error,
) -> bool {
    let id = entry.0;
    match chosen(slots, quotas, s.overlay.contains_key((c.table, id)), entry.1) {
        Err(_) => false,
        Ok((choice, _, _)) => match choice {
            Choice::Carry(_) => history_asks(c, s.root, files, id, None, 0, u64::MAX, e),
            Choice::Write => load_asks(s, files, c.table, id, e) || match loaded_data(
                s,
                files,
                c.table,
                id,
            ) {
                Ok(Some(d)) => entity_steps_ask(c, files, id, d, e),
                _ => false,
            },
        },
    }
}

/// Whether finding the work for the entity behind some others needs what a request names.
pub open spec fn next_work_asks(
    c: Copying,
    slots: Seq<Option<u8>>,
    s: StateV,
    files: Files,
    quotas: Seq<u64>,
    entries: Seq<(u64, Option<Value>)>,
    n: int,
    e: Error,
) -> bool {
    0 <= n < entries.len() && match work_all(c, slots, s, files, quotas, entries.take(n)) {
        Ok(b) => work_asks(c, slots, s, files, b.quotas, entries[n], e),
        Err(_) => false,
    }
}

/// Whether finding the work for a bucket of a table needs what a request names.
pub open spec fn bucket_asks(
    c: Checkpoint,
    s: StateV,
    files: Files,
    table: u64,
    low: u64,
    e: Error,
) -> bool {
    ||| walk_asks(s, files, table, low, bucket_end(low), e)
    ||| exists|n: int| #[trigger]
        next_work_asks(
            copying_of(c, table),
            c.slots@,
            s,
            files,
            c.quotas@,
            table_entries(s, files, table, low, bucket_end(low)).items,
            n,
            e,
        )
}

/// The work for entities in order.
pub open spec fn work_all(
    c: Copying,
    slots: Seq<Option<u8>>,
    s: StateV,
    files: Files,
    quotas: Seq<u64>,
    entries: Seq<(u64, Option<Value>)>,
) -> Outcome<Batch>
    decreases entries.len(),
{
    if entries.len() == 0 {
        Ok(Batch { works: Seq::empty(), dead: Seq::empty(), quotas })
    } else {
        match work_all(c, slots, s, files, quotas, entries.drop_last()) {
            Err(f) => Err(f),
            Ok(b) => work_for(c, slots, s, files, b, entries.last()),
        }
    }
}

/// The work for a bucket of a table.
pub open spec fn bucket_work(c: Checkpoint, s: StateV, files: Files, table: u64, low: u64) -> Outcome<
    Batch,
> {
    let walk = table_entries(s, files, table, low, bucket_end(low));
    if walk.sound {
        work_all(copying_of(c, table), c.slots@, s, files, c.quotas@, walk.items)
    } else {
        Err(Fault::Corrupt)
    }
}

proof fn lemma_work_fails(
    c: Copying,
    slots: Seq<Option<u8>>,
    s: StateV,
    files: Files,
    quotas: Seq<u64>,
    entries: Seq<(u64, Option<Value>)>,
    n: int,
)
    requires
        0 <= n <= entries.len(),
        work_all(c, slots, s, files, quotas, entries.take(n)) is Err,
    ensures
        work_all(c, slots, s, files, quotas, entries) == work_all(
            c,
            slots,
            s,
            files,
            quotas,
            entries.take(n),
        ),
    decreases entries.len() - n,
{
    if n < entries.len() {
        assert(entries.take(n + 1).drop_last() =~= entries.take(n));
        lemma_work_fails(c, slots, s, files, quotas, entries, n + 1);
    } else {
        assert(entries.take(n) =~= entries);
    }
}

/// Reads the identifiers of a range of a table with their primary entries.
fn read_walk(state: &ReadState, loaded: &Loaded, table: u64, lower: u64, upper: u64) -> (r: Result<
    Vec<(u64, Option<Value>)>,
>)
    ensures
        match r {
            Ok(v) => forall|files: Files| #[trigger]
                loaded.agrees(files) ==> table_entries(state@, files, table, lower, upper) == (
                Merged { items: v@, sound: true }),
            Err(e) => lacks(loaded, e) && (forall|files: Files| #[trigger]
                loaded.agrees(files) ==> walk_asks(state@, files, table, lower, upper, e)) || e
                is Corrupt && forall|files: Files| #[trigger]
                loaded.agrees(files) ==> !table_entries(state@, files, table, lower, upper).sound,
        },
{
    let mut walk = state.visit_entries_range(table, lower, upper);
    let mut entries: Vec<(u64, Option<Value>)> = Vec::new();
    let ghost all = |files: Files| table_entries(state@, files, table, lower, upper);
    proof {
        assert forall|files: Files| #[trigger] loaded.agrees(files) implies all(files) == (Merged {
            items: entries@ + walk.remaining(files).items,
            sound: walk.remaining(files).sound,
        }) by {
            assert(entries@ + walk.remaining(files).items =~= walk.remaining(files).items);
        }
    }
    loop
        invariant
            walk.sound(),
            all == (|files: Files| table_entries(state@, files, table, lower, upper)),
            forall|files: Files, e: Error|
                #![trigger loaded.agrees(files), walk.asks(files, e)]
                loaded.agrees(files) && walk.asks(files, e) ==> walk_asks(
                    state@,
                    files,
                    table,
                    lower,
                    upper,
                    e,
                ),
            forall|files: Files| #[trigger]
                loaded.agrees(files) ==> all(files) == (Merged {
                    items: entries@ + walk.remaining(files).items,
                    sound: walk.remaining(files).sound,
                }),
        decreases usize::MAX - entries@.len(),
    {
        let ghost before = walk;
        match walk.next(loaded) {
            None => {
                proof {
                    assert forall|files: Files| #[trigger] loaded.agrees(files) implies all(files)
                        == (Merged { items: entries@, sound: true }) by {
                        assert(entries@ + before.remaining(files).items =~= entries@);
                    }
                }
                return Ok(entries);
            },
            Some(Err(e)) => {
                return Err(e);
            },
            Some(Ok(entry)) => {
                let ghost was = entries@;
                entries.push(entry);
                let count: usize = entries.len();
                proof {
                    assert forall|files: Files| #[trigger] loaded.agrees(files) implies all(files)
                        == (Merged {
                        items: entries@ + walk.remaining(files).items,
                        sound: walk.remaining(files).sound,
                    }) by {
                        assert(was + before.remaining(files).items =~= entries@
                            + walk.remaining(files).items);
                    }
                }
            },
        }
    }
}

/// The work of a bucket.
pub struct Bucket {
    /// The work.
    pub works: Vec<Work>,
    /// The slots of copies left behind.
    pub dead: Vec<u8>,
    /// The quotas afterwards.
    pub quotas: Vec<u64>,
}

/// What works stand for.
pub open spec fn works_view(s: Seq<Work>) -> Seq<WorkV> {
    s.map_values(|w: Work| w@)
}

/// Whether the history of an entity is carried over only where it has one.
pub open spec fn workable(w: Work) -> bool {
    match w {
        Work::Carry { .. } => true,
        Work::Write { data, steps, .. } => data.disk is None ==> steps@.len() == 0,
    }
}

impl Bucket {
    /// Whether the work can be done.
    pub open spec fn sound(self) -> bool {
        &&& self.quotas@.len() == MAX_SLOTS
        &&& forall|i: int| 0 <= i < self.works@.len() ==> workable(#[trigger] self.works@[i])
    }
}

impl View for Bucket {
    type V = Batch;

    open spec fn view(&self) -> Batch {
        Batch { works: works_view(self.works@), dead: self.dead@, quotas: self.quotas@ }
    }
}

/// Adds the work for one entity.
fn add_work(
    c: Copying,
    slots: &Vec<Option<u8>>,
    state: &ReadState,
    loaded: &Loaded,
    bucket: &mut Bucket,
    entry: (u64, Option<Value>),
) -> (r: Result<()>)
    requires
        slots@.len() == MAX_SLOTS,
        old(bucket).sound(),
    ensures
        final(bucket).sound(),
        match r {
            Ok(_) => forall|files: Files| #[trigger]
                loaded.agrees(files) ==> work_for(c, slots@, state@, files, old(bucket)@, entry)
                    == Ok::<_, Fault>(final(bucket)@),
            Err(e) => final(bucket)@ == old(bucket)@ && (lacks(loaded, e) && (forall|files: Files|
                #[trigger]
                loaded.agrees(files) ==> work_asks(
                    c,
                    slots@,
                    state@,
                    files,
                    old(bucket).quotas@,
                    entry,
                    e,
                )) || forall|files: Files| #[trigger]
                loaded.agrees(files) ==> {
                    let w = work_for(c, slots@, state@, files, old(bucket)@, entry);
                    w is Err && reports(e, w->Err_0)
                }),
        },
{
    reveal(work_for);
    reveal(work_asks);
    let (id, locator) = entry;
    let touched: bool = state.overlay.contains_key(&(c.table, id));
    assert(touched == state@.overlay.contains_key((c.table, id)));
    let (choice, dead) = decide(slots, &bucket.quotas, touched, locator)?;
    let ghost works = bucket.works@;
    let work = match choice {
        Choice::Carry(value) => {
            let steps = plan_history(c, &state.root, loaded, id, None, 0, u64::MAX)?;
            Work::Carry { id, value, steps }
        },
        Choice::Write => {
            let data = match state.load(loaded, c.table, id)? {
                Some(data) => data,
                None => {
                    return Err(corrupt("entity vanished during checkpoint"));
                },
            };
            let steps = plan_entity(c, loaded, id, &data)?;
            Work::Write { id, data, steps }
        },
    };
    bucket.works.push(work);
    match dead {
        None => {},
        Some(slot) => {
            // A rewritten entity leaves an unreachable copy behind.
            bucket.dead.push(slot);
            if !touched {
                let left: u64 = bucket.quotas[slot as usize];
                bucket.quotas.set(slot as usize, left - 1);
            }
        },
    }
    proof {
        assert(works_view(bucket.works@) =~= works_view(works).push(bucket.works@.last()@));
    }
    Ok(())
}

impl Checkpoint {
    /// Whether a bucket stays as it is.
    pub fn keeps(&self, state: &ReadState, table: u64, low: u64) -> (r: bool)
        requires
            self.slots@.len() == MAX_SLOTS,
            self.quotas@.len() == MAX_SLOTS,
        ensures
            r == stays_whole(*self, state@, table, low),
    {
        let upper: u64 = low.saturating_add(WIDTH - 1);
        let at = Route { table, kind: 3, low, low_second: 0 };
        let part = match state.root.partitions.get(&at) {
            None => {
                return false;
            },
            Some(part) => part,
        };
        let recent = state.recent(table, low, upper);
        if recent.len() > 0 {
            return false;
        }
        let items = part.slots.items();
        let ghost s = part.slots.entries();
        let ghost pair = |e: (&u8, &u8)| (*e.0, *e.1);
        proof {
            assert(items@.map_values(pair).len() == items@.len());
            assert(part@ == state@.root.partitions[at]);
        }
        let mut i: usize = 0;
        while i < items.len()
            invariant
                i <= items@.len(),
                pair == (|e: (&u8, &u8)| (*e.0, *e.1)),
                items@.map_values(pair) == s,
                lists(s, part.slots@),
                part@ == state@.root.partitions[at],
                at == (Route { table, kind: 3, low, low_second: 0 }),
                self.slots@.len() == MAX_SLOTS,
                self.quotas@.len() == MAX_SLOTS,
                forall|j: int|
                    0 <= j < i ==> self.slots@[(#[trigger] s[j]).1 as int] is Some
                        && self.quotas@[self.slots@[s[j].1 as int].unwrap() as int] == 0,
            decreases items@.len() - i,
        {
            let slot: u8 = *items[i].1;
            proof {
                assert(items@.map_values(pair)[i as int] == s[i as int]);
                reveal(lists);
                assert(part@.slots.contains_key(s[i as int].0));
            }
            let drained: bool = match self.slots[slot as usize] {
                None => true,
                Some(new) => self.quotas[new as usize] != 0,
            };
            if drained {
                return false;
            }
            i = i + 1;
        }
        proof {
            assert forall|k: u8| #[trigger]
                part@.slots.contains_key(k) implies self.slots@[part@.slots[k] as int] is Some
                && self.quotas@[self.slots@[part@.slots[k] as int].unwrap() as int] == 0 by {
                reveal(lists);
                let j = choose|j: int| 0 <= j < s.len() && (#[trigger] s[j]).0 == k;
                assert(s[j].1 == part@.slots[k]);
            }
        }
        true
    }

    /// Reads which entities a bucket of a table holds.
    pub fn survey(&self, state: &ReadState, loaded: &Loaded, table: u64, low: u64) -> (r: Result<
        Gathering,
    >)
        requires
            self.slots@.len() == MAX_SLOTS,
            self.quotas@.len() == MAX_SLOTS,
        ensures
            match r {
                Ok(g) => {
                    &&& g.sound()
                    &&& g.of() == (table, low)
                    &&& forall|files: Files| #[trigger]
                        loaded.agrees(files) ==> g.true_of(*self, state@, files)
                },
                Err(e) => lacks(loaded, e) && (forall|files: Files| #[trigger]
                    loaded.agrees(files) ==> bucket_asks(*self, state@, files, table, low, e)) || e
                    is Corrupt && forall|files: Files| #[trigger]
                    loaded.agrees(files) ==> bucket_work(*self, state@, files, table, low) == Err::<
                        Batch,
                        _,
                    >(Fault::Corrupt),
            },
    {
        let upper: u64 = low.saturating_add(WIDTH - 1);
        let entries = read_walk(state, loaded, table, low, upper)?;
        let mut bucket = Bucket { works: Vec::new(), dead: Vec::new(), quotas: Vec::new() };
        let mut k: usize = 0;
        while k < MAX_SLOTS
            invariant
                k <= MAX_SLOTS,
                self.quotas@.len() == MAX_SLOTS,
                bucket.quotas@ == self.quotas@.take(k as int),
                bucket.works@.len() == 0,
                bucket.dead@.len() == 0,
            decreases MAX_SLOTS - k,
        {
            bucket.quotas.push(self.quotas[k]);
            k = k + 1;
            assert(bucket.quotas@ =~= self.quotas@.take(k as int));
        }
        proof {
            assert(self.quotas@.take(MAX_SLOTS as int) =~= self.quotas@);
            assert(works_view(bucket.works@) =~= Seq::empty());
            assert(bucket.dead@ =~= Seq::empty());
            assert(entries@.take(0) =~= Seq::empty());
        }
        Ok(Gathering { table, low, entries, at: 0, bucket })
    }
}

/// A bucket whose entities are being read, one after another.
pub struct Gathering {
    table: u64,
    low: u64,
    entries: Vec<(u64, Option<Value>)>,
    at: usize,
    bucket: Bucket,
}

impl Gathering {
    /// Whether the position is one of the bucket's.
    pub closed spec fn sound(self) -> bool {
        &&& self.at <= self.entries@.len()
        &&& self.bucket.sound()
    }

    /// The table and the bucket.
    pub closed spec fn of(self) -> (u64, u64) {
        (self.table, self.low)
    }

    /// Whether all of the bucket has been read.
    pub closed spec fn complete(self) -> bool {
        self.at == self.entries@.len()
    }

    /// The work found so far.
    pub closed spec fn found(self) -> Batch {
        self.bucket@
    }

    /// Whether the work found so far is that for the entities read so far.
    pub closed spec fn true_of(self, c: Checkpoint, s: StateV, files: Files) -> bool {
        &&& table_entries(s, files, self.table, self.low, bucket_end(self.low)) == (Merged {
            items: self.entries@,
            sound: true,
        })
        &&& work_all(
            copying_of(c, self.table),
            c.slots@,
            s,
            files,
            c.quotas@,
            self.entries@.take(self.at as int),
        ) == Ok::<_, Fault>(self.bucket@)
    }

    /// Reads on and decides what is done for each entity. Where a part of a file is not in
    /// memory, reading goes on from the entity that needs it.
    pub fn advance(&mut self, c: &Checkpoint, state: &ReadState, loaded: &Loaded) -> (r: Result<()>)
        requires
            old(self).sound(),
            c.slots@.len() == MAX_SLOTS,
        ensures
            final(self).sound(),
            final(self).of() == old(self).of(),
            match r {
                Ok(_) => final(self).complete() && forall|files: Files|
                    #![trigger loaded.agrees(files)]
                    loaded.agrees(files) && old(self).true_of(*c, state@, files) ==> final(self).true_of(*c, state@, files),
                Err(e) => if lacks(loaded, e) {
                    forall|files: Files|
                        #![trigger loaded.agrees(files)]
                        loaded.agrees(files) && old(self).true_of(*c, state@, files) ==> final(self).true_of(*c, state@, files)
                            && bucket_asks(*c, state@, files, old(self).of().0, old(self).of().1, e)
                } else {
                    forall|files: Files|
                        #![trigger loaded.agrees(files)]
                        loaded.agrees(files) && old(self).true_of(*c, state@, files) ==> {
                            let w = bucket_work(*c, state@, files, old(self).of().0, old(self).of().1);
                            w is Err && reports(e, w->Err_0)
                        }
                },
            },
    {
        let copying = Copying {
            table: self.table,
            rewrite_history: c.rewrite_history,
            rewrite_indexes: c.rewrite_indexes,
        };
        while self.at < self.entries.len()
            invariant
                self.sound(),
                self.of() == old(self).of(),
                self.entries == old(self).entries,
                c.slots@.len() == MAX_SLOTS,
                copying == copying_of(*c, self.table),
                forall|files: Files|
                    #![trigger loaded.agrees(files)]
                    loaded.agrees(files) && old(self).true_of(*c, state@, files) ==> self.true_of(
                        *c,
                        state@,
                        files,
                    ),
            decreases self.entries@.len() - self.at,
        {
            let ghost before = *self;
            let ghost i = self.at as int;
            proof {
                assert(self.entries@.take(i + 1).drop_last() =~= self.entries@.take(i));
                assert(self.entries@.take(i + 1).last() == self.entries@[i]);
            }
            let entry = self.entries[self.at];
            match add_work(copying, &c.slots, state, loaded, &mut self.bucket, entry) {
                Ok(_) => {},
                Err(e) => {
                    proof {
                        if lacks(loaded, e) {
                            assert forall|files: Files|
                                #![trigger loaded.agrees(files)]
                                loaded.agrees(files) && old(self).true_of(
                                    *c,
                                    state@,
                                    files,
                                ) implies bucket_asks(
                                *c,
                                state@,
                                files,
                                self.table,
                                self.low,
                                e,
                            ) by {
                                assert(before.true_of(*c, state@, files));
                                assert(work_asks(
                                    copying,
                                    c.slots@,
                                    state@,
                                    files,
                                    before.bucket@.quotas,
                                    entry,
                                    e,
                                ));
                                assert(self.entries@[i] == entry);
                                assert(table_entries(
                                    state@,
                                    files,
                                    self.table,
                                    self.low,
                                    bucket_end(self.low),
                                ).items == self.entries@);
                                assert(next_work_asks(
                                    copying,
                                    c.slots@,
                                    state@,
                                    files,
                                    c.quotas@,
                                    self.entries@,
                                    i,
                                    e,
                                ));
                            }
                        }
                        if !lacks(loaded, e) {
                            assert forall|files: Files|
                                #![trigger loaded.agrees(files)]
                                loaded.agrees(files) && old(self).true_of(
                                    *c,
                                    state@,
                                    files,
                                ) implies ({
                                let w = bucket_work(*c, state@, files, self.table, self.low);
                                w is Err && reports(e, w->Err_0)
                            }) by {
                                assert(before.true_of(*c, state@, files));
                                lemma_work_fails(
                                    copying,
                                    c.slots@,
                                    state@,
                                    files,
                                    c.quotas@,
                                    self.entries@,
                                    i + 1,
                                );
                            }
                        }
                    }
                    return Err(e);
                },
            }
            self.at = self.at + 1;
            proof {
                assert forall|files: Files|
                    #![trigger loaded.agrees(files)]
                    loaded.agrees(files) && old(self).true_of(*c, state@, files) implies self.true_of(
                    *c,
                    state@,
                    files,
                ) by {
                    assert(before.true_of(*c, state@, files));
                }
            }
        }
        Ok(())
    }

    /// The work of a bucket that has been read.
    pub fn finish(self) -> (b: Bucket)
        requires
            self.sound(),
            self.complete(),
        ensures
            b.sound(),
            b@ == self.found(),
            forall|c: Checkpoint, s: StateV, files: Files| #[trigger]
                self.true_of(c, s, files) ==> bucket_work(c, s, files, self.of().0, self.of().1)
                    == Ok::<_, Fault>(b@),
    {
        assert(self.entries@.take(self.at as int) =~= self.entries@);
        self.bucket
    }
}

// ---- Doing the work ----

/// What is written for one entity.
pub open spec fn work_items(r: RootV, w: WorkV) -> Seq<Item> {
    match w {
        WorkV::Carry { id, value, steps } => carried_items(id, value, r, steps),
        WorkV::Write { id, data, steps } => entity_items(id, data, history_root(data), steps),
    }
}

/// The manifest that the history of an entity is read through.
pub open spec fn work_root(r: RootV, w: WorkV) -> RootV {
    match w {
        WorkV::Carry { .. } => r,
        WorkV::Write { data, .. } => history_root(data),
    }
}

/// What is written for entities.
pub open spec fn works_items(r: RootV, works: Seq<WorkV>) -> Seq<Item>
    decreases works.len(),
{
    if works.len() == 0 {
        Seq::empty()
    } else {
        works_items(r, works.drop_last()) + work_items(r, works.last())
    }
}

/// Whether a writer stops at one of the entities, in the state that those before it lead to.
pub open spec fn works_stopped(a: TableWriter, r: RootV, works: Seq<WorkV>, e: Error) -> bool {
    exists|w: TableWriter, n: int|
        0 <= n < works.len() && #[trigger] added(a, w, works_items(r, works.take(n))) && (stopped(
            w,
            work_root(r, works[n]),
            work_items(r, works[n]),
            e,
        ) || (e is Invalid && w.written() == u64::MAX))
}

/// How many of the entities are written anew.
pub open spec fn writes(works: Seq<WorkV>) -> nat
    decreases works.len(),
{
    if works.len() == 0 {
        0
    } else {
        writes(works.drop_last()) + if works.last() is Write {
            1nat
        } else {
            0
        }
    }
}

/// Writes entities, or takes over those whose records stay.
pub fn do_works(writer: &mut TableWriter, root: &Root, works: &Vec<Work>) -> (result: Result<()>)
    requires
        old(writer).sound(),
        forall|i: int| 0 <= i < works@.len() ==> workable(#[trigger] works@[i]),
    ensures
        final(writer).sound(),
        grew(*old(writer), *final(writer)),
        match result {
            Ok(_) => added(*old(writer), *final(writer), works_items(root@, works_view(works@)))
                && final(writer).written() == old(writer).written() + writes(works_view(works@)),
            Err(e) => works_stopped(*old(writer), root@, works_view(works@), e),
        },
{
    let ghost start = *writer;
    let ghost all = works_view(works@);
    proof {
        lemma_added_none(start);
        assert(all.take(0) =~= Seq::empty());
    }
    let mut i: usize = 0;
    while i < works.len()
        invariant
            i <= works@.len(),
            start == *old(writer),
            all == works_view(works@),
            writer.sound(),
            added(start, *writer, works_items(root@, all.take(i as int))),
            writer.written() == start.written() + writes(all.take(i as int)),
            forall|i: int| 0 <= i < works@.len() ==> workable(#[trigger] works@[i]),
        decreases works@.len() - i,
    {
        let ghost before = *writer;
        proof {
            assert(all[i as int] == works@[i as int]@);
            assert(workable(works@[i as int]));
            assert(all.take(i + 1).drop_last() =~= all.take(i as int));
            assert(all.take(i + 1).last() == all[i as int]);
        }
        let r = match &works[i] {
            Work::Carry { id, value, steps } => writer.carry(*id, *value, root, steps),
            Work::Write { id, data, steps } => {
                if writer.count() == u64::MAX {
                    return Err(crate::error::invalid("entity count exhausted"));
                }
                writer.append(*id, data, steps)
            },
        };
        match r {
            Ok(_) => {
                proof {
                    lemma_added_both(
                        start,
                        before,
                        *writer,
                        works_items(root@, all.take(i as int)),
                        work_items(root@, all[i as int]),
                    );
                }
            },
            Err(e) => {
                proof {
                    crate::table_writer::lemma_grew_twice(start, before, *writer);
                    assert(stopped(
                        before,
                        work_root(root@, all[i as int]),
                        work_items(root@, all[i as int]),
                        e,
                    ));
                    assert(added(start, before, works_items(root@, all.take(i as int))));
                }
                return Err(e);
            },
        }
        i = i + 1;
    }
    assert(all.take(i as int) =~= all);
    Ok(())
}

/// Counts of entities after copies were left behind.
pub open spec fn died(m: Map<Share, Occupancy>, table: u64, dead: Seq<u8>) -> Map<Share, Occupancy>
    decreases dead.len(),
{
    if dead.len() == 0 {
        m
    } else {
        let before = died(m, table, dead.drop_last());
        let at = Share { table, slot: dead.last() };
        let o = if before.contains_key(at) {
            before[at]
        } else {
            Occupancy { entities: 0, dead: 0 }
        };
        before.insert(at, Occupancy { entities: o.entities, dead: (o.dead + 1) as u64 })
    }
}

/// Whether the counts of copies left behind stay within their range.
pub open spec fn countable(m: Map<Share, Occupancy>, table: u64, dead: Seq<u8>) -> bool {
    forall|n: int|
        0 <= n < dead.len() ==> {
            let before = died(m, table, #[trigger] dead.take(n));
            let at = Share { table, slot: dead[n] };
            before.contains_key(at) ==> before[at].dead < u64::MAX
        }
}

impl Checkpoint {
    /// Whether the tables of slots are complete.
    pub open spec fn sound(self) -> bool {
        &&& self.slots@.len() == MAX_SLOTS
        &&& self.quotas@.len() == MAX_SLOTS
    }

    /// Counts the copies that were left behind.
    fn bury(&mut self, table: u64, dead: &Vec<u8>) -> (r: Result<()>)
        ensures
            match r {
                Ok(_) => countable(old(self).root@.occupancy, table, dead@)
                    && final(self).root.occupancy@ == died(old(self).root@.occupancy, table, dead@),
                Err(e) => e is Corrupt && !countable(old(self).root@.occupancy, table, dead@),
            },
            *final(self) == (Checkpoint {
                root: Root { occupancy: final(self).root.occupancy, ..old(self).root },
                ..*old(self)
            }),
    {
        let ghost m = self.root@.occupancy;
        let mut i: usize = 0;
        assert(dead@.take(0) =~= Seq::empty());
        while i < dead.len()
            invariant
                i <= dead@.len(),
                m == old(self).root@.occupancy,
                self.root.occupancy@ == died(m, table, dead@.take(i as int)),
                forall|n: int|
                    0 <= n < i ==> {
                        let before = died(m, table, #[trigger] dead@.take(n));
                        let at = Share { table, slot: dead@[n] };
                        before.contains_key(at) ==> before[at].dead < u64::MAX
                    },
                *self == (Checkpoint {
                    root: Root { occupancy: self.root.occupancy, ..old(self).root },
                    ..*old(self)
                }),
            decreases dead@.len() - i,
        {
            let at = Share { table, slot: dead[i] };
            let was: Occupancy = match self.root.occupancy.get(&at) {
                Some(o) => *o,
                None => Occupancy { entities: 0, dead: 0 },
            };
            proof {
                assert(dead@.take(i + 1).drop_last() =~= dead@.take(i as int));
                assert(dead@.take(i + 1).last() == dead@[i as int]);
            }
            if was.dead == u64::MAX {
                assert(!countable(m, table, dead@)) by {
                    let before = died(m, table, dead@.take(i as int));
                    assert(before.contains_key(at));
                }
                return Err(corrupt("occupancy overflow"));
            }
            self.root.occupancy.insert(
                at,
                Occupancy { entities: was.entities, dead: was.dead + 1 },
            );
            i = i + 1;
        }
        assert(dead@.take(i as int) =~= dead@);
        Ok(())
    }

    /// Does the work of a bucket.
    pub fn apply(
        &mut self,
        writer: &mut TableWriter,
        root: &Root,
        table: u64,
        bucket: Bucket,
    ) -> (result: Result<()>)
        requires
            old(self).sound(),
            old(writer).sound(),
            bucket.sound(),
        ensures
            final(self).sound(),
            final(writer).sound(),
            grew(*old(writer), *final(writer)),
            match result {
                Ok(_) => {
                    &&& added(*old(writer), *final(writer), works_items(root@, bucket@.works))
                    &&& final(writer).written() == old(writer).written() + writes(bucket@.works)
                    &&& final(self).quotas@ == bucket@.quotas
                    &&& countable(old(self).root@.occupancy, table, bucket@.dead)
                    &&& final(self).root@.occupancy == died(
                        old(self).root@.occupancy,
                        table,
                        bucket@.dead,
                    )
                    &&& *final(self) == (Checkpoint {
                        root: Root { occupancy: final(self).root.occupancy, ..old(self).root },
                        quotas: final(self).quotas,
                        ..*old(self)
                    })
                },
                Err(e) => (e is Corrupt && !countable(
                    old(self).root@.occupancy,
                    table,
                    bucket@.dead,
                )) || works_stopped(*old(writer), root@, bucket@.works, e),
            },
    {
        proof {
            lemma_added_none(*writer);
        }
        self.bury(table, &bucket.dead)?;
        do_works(writer, root, &bucket.works)?;
        self.quotas = bucket.quotas;
        Ok(())
    }

    /// Starts the files of a table.
    pub fn table(&self, table: u64) -> (w: TableWriter)
        ensures
            w.sound(),
            w.journal() == Seq::<(Item, Value)>::empty(),
            w.place() == (table, self.root.generation, self.new_slot, self.root.lsn),
            w.manner() == (self.segment_bytes, self.compress),
            w.written() == 0,
            recorded(w),
            w.index().most() == (if listing(self.root.partitions@).len() <= self.max_partitions {
                self.max_partitions - listing(self.root.partitions@).len()
            } else {
                0
            }),
    {
        let items = self.root.partitions.items();
        let ghost pair = |e: (&Route, &Partition)| (*e.0, *e.1);
        proof {
            lemma_listing_is(self.root.partitions.entries(), self.root.partitions@);
            assert(items@.map_values(pair).len() == items@.len());
        }
        TableWriter::create(
            table,
            self.root.generation,
            self.new_slot,
            self.root.lsn,
            self.segment_bytes,
            self.compress,
            self.max_partitions.saturating_sub(items.len()),
        )
    }
}

/// What a step of a checkpoint did for a bucket that stays as it is.
pub open spec fn kept_whole(
    c: Checkpoint,
    a: TableWriter,
    b: TableWriter,
    r: RootV,
    table: u64,
    low: u64,
) -> bool {
    let at = Route { table, kind: 3, low, low_second: 0 };
    let events = range_parts(r, table, 4, low, bucket_end(low));
    let states = range_parts(r, table, 5, low, bucket_end(low));
    added(
        a,
        b,
        seq![Item::Part { route: at, part: moved_part(r.partitions[at], c.slots@), from: r }] + (moved_items(
            r,
            events,
            c.slots@,
        ) + moved_items(r, states, c.slots@)),
    )
}

/// Whether taking a bucket over that stays as it is stops at one of its partitions: it cannot
/// be moved to the slots of the new manifest, or the writer does not take it.
pub open spec fn kept_stopped(
    c: Checkpoint,
    a: TableWriter,
    r: RootV,
    table: u64,
    low: u64,
    e: Error,
) -> bool {
    let at = Route { table, kind: 3, low, low_second: 0 };
    let whole = Item::Part { route: at, part: moved_part(r.partitions[at], c.slots@), from: r };
    let events = range_parts(r, table, 4, low, bucket_end(low));
    let states = range_parts(r, table, 5, low, bucket_end(low));
    ||| !movable(r.partitions[at], c.slots@) && e is Corrupt
    ||| refused(a, r, whole, e)
    ||| (!all_movable(events, c.slots@) || !all_movable(states, c.slots@)) && (e is Corrupt || e
        is LimitExceeded)
    ||| exists|b: TableWriter| #[trigger]
        added(a, b, seq![whole]) && stopped(
            b,
            r,
            moved_items(r, events, c.slots@) + moved_items(r, states, c.slots@),
            e,
        )
}

/// Whether the work for a bucket was done: what it calls for was written, and the copies that it
/// leaves behind were counted.
pub open spec fn bucket_worked(
    a: Checkpoint,
    b: Checkpoint,
    v: TableWriter,
    w: TableWriter,
    s: StateV,
    files: Files,
    table: u64,
    low: u64,
) -> bool {
    let work = bucket_work(a, s, files, table, low);
    &&& work is Ok
    &&& added(v, w, works_items(s.root, work->Ok_0.works))
    &&& w.written() == v.written() + writes(work->Ok_0.works)
    &&& b.quotas@ == work->Ok_0.quotas
    &&& countable(a.root@.occupancy, table, work->Ok_0.dead)
    &&& b.root@.occupancy == died(a.root@.occupancy, table, work->Ok_0.dead)
    &&& b == (Checkpoint {
        root: Root { occupancy: b.root.occupancy, ..a.root },
        quotas: b.quotas,
        ..a
    })
}

/// Whether a bucket was done: kept whole where it stays, else worked on.
pub open spec fn bucket_done(
    a: Checkpoint,
    b: Checkpoint,
    v: TableWriter,
    w: TableWriter,
    s: StateV,
    files: Files,
    table: u64,
    low: u64,
) -> bool {
    if stays_whole(a, s, table, low) {
        b == a && kept_whole(a, v, w, s.root, table, low) && w.written() == v.written()
    } else {
        bucket_worked(a, b, v, w, s, files, table, low)
    }
}

/// Whether what was read of a bucket so far is true of files.
pub open spec fn progress_true(g: Option<Gathering>, c: Checkpoint, s: StateV, files: Files) -> bool {
    match g {
        None => true,
        Some(g) => g.true_of(c, s, files),
    }
}

impl Checkpoint {
    /// Carries a bucket of a table into the checkpoint. Where a part of a file is not in memory,
    /// what was read so far is kept, and the step can be tried again.
    pub fn step(
        &mut self,
        writer: &mut TableWriter,
        state: &ReadState,
        loaded: &Loaded,
        table: u64,
        low: u64,
        progress: &mut Option<Gathering>,
    ) -> (result: Result<()>)
        requires
            old(self).sound(),
            old(writer).sound(),
            old(writer).place().0 == table,
            match *old(progress) {
                None => true,
                Some(g) => g.sound() && g.of() == (table, low) && !stays_whole(
                    *old(self),
                    state@,
                    table,
                    low,
                ),
            },
        ensures
            final(self).sound(),
            final(writer).sound(),
            grew(*old(writer), *final(writer)),
            match result {
                Ok(_) => *final(progress) is None && if stays_whole(
                    *old(self),
                    state@,
                    table,
                    low,
                ) {
                    *final(self) == *old(self) && kept_whole(
                        *old(self),
                        *old(writer),
                        *final(writer),
                        state@.root,
                        table,
                        low,
                    ) && final(writer).written() == old(writer).written()
                } else {
                    forall|files: Files|
                        #![trigger loaded.agrees(files)]
                        loaded.agrees(files) && progress_true(
                            *old(progress),
                            *old(self),
                            state@,
                            files,
                        ) ==> bucket_worked(
                            *old(self),
                            *final(self),
                            *old(writer),
                            *final(writer),
                            state@,
                            files,
                            table,
                            low,
                        )
                },
                Err(e) => if e is Unread {
                    &&& !stays_whole(*old(self), state@, table, low)
                    &&& lacks(loaded, e) || forall|files: Files|
                        #![trigger loaded.agrees(files)]
                        !(loaded.agrees(files) && progress_true(
                            *old(progress),
                            *old(self),
                            state@,
                            files,
                        ))
                    &&& forall|files: Files|
                        #![trigger loaded.agrees(files)]
                        loaded.agrees(files) && progress_true(
                            *old(progress),
                            *old(self),
                            state@,
                            files,
                        ) ==> bucket_asks(*old(self), state@, files, table, low, e)
                    &&& *final(self) == *old(self)
                    &&& *final(writer) == *old(writer)
                    &&& match *final(progress) {
                        None => true,
                        Some(g) => g.sound() && g.of() == (table, low) && !stays_whole(
                            *old(self),
                            state@,
                            table,
                            low,
                        ),
                    }
                    &&& forall|files: Files|
                        #![trigger loaded.agrees(files)]
                        loaded.agrees(files) && progress_true(
                            *old(progress),
                            *old(self),
                            state@,
                            files,
                        ) ==> progress_true(*final(progress), *old(self), state@, files)
                } else if stays_whole(*old(self), state@, table, low) {
                    kept_stopped(*old(self), *old(writer), state@.root, table, low, e)
                } else {
                    forall|files: Files|
                        #![trigger loaded.agrees(files)]
                        loaded.agrees(files) && progress_true(
                            *old(progress),
                            *old(self),
                            state@,
                            files,
                        ) ==> match bucket_work(*old(self), state@, files, table, low) {
                            Err(f) => reports(e, f),
                            Ok(b) => e is Corrupt && !countable(
                                old(self).root@.occupancy,
                                table,
                                b.dead,
                            ) || works_stopped(*old(writer), state@.root, b.works, e),
                        }
                },
            },
    {
        proof {
            lemma_added_none(*writer);
        }
        let mut current: Option<Gathering> = None;
        std::mem::swap(&mut current, progress);
        let mut gathering = match current {
            Some(gathering) => gathering,
            None => {
                if self.keeps(state, table, low) {
                    return self.keep_whole(writer, state, table, low);
                }
                self.survey(state, loaded, table, low)?
            },
        };
        let ghost started = gathering;
        match gathering.advance(self, state, loaded) {
            Ok(_) => {},
            Err(e) => {
                *progress = Some(gathering);
                return Err(e);
            },
        }
        let ghost read = gathering;
        let bucket = gathering.finish();
        let ghost b = bucket@;
        let ghost before = *writer;
        let ghost root = state@.root;
        let done = self.apply(writer, &state.root, table, bucket);
        if done.is_err() {
            proof {
                lemma_works_known(before, root, b.works, done->Err_0);
            }
        }
        {
            proof {
                assert forall|files: Files|
                    #![trigger loaded.agrees(files)]
                    loaded.agrees(files) && progress_true(
                        *old(progress),
                        *old(self),
                        state@,
                        files,
                    ) implies bucket_work(*old(self), state@, files, table, low) == Ok::<_, Fault>(
                    b,
                ) by {
                    assert(started.true_of(*old(self), state@, files));
                    assert(read.true_of(*old(self), state@, files));
                }
            }
        }
        done
    }

    /// Takes a bucket that stays as it is over, with its history.
    fn keep_whole(&self, writer: &mut TableWriter, state: &ReadState, table: u64, low: u64) -> (result:
        Result<()>)
        requires
            self.sound(),
            old(writer).sound(),
            old(writer).place().0 == table,
            stays_whole(*self, state@, table, low),
        ensures
            final(writer).sound(),
            grew(*old(writer), *final(writer)),
            match result {
                Ok(_) => kept_whole(*self, *old(writer), *final(writer), state@.root, table, low)
                    && final(writer).written() == old(writer).written(),
                Err(e) => !(e is Unread) && kept_stopped(
                    *self,
                    *old(writer),
                    state@.root,
                    table,
                    low,
                    e,
                ),
            },
    {
        let upper: u64 = low.saturating_add(WIDTH - 1);
        let at = Route { table, kind: 3, low, low_second: 0 };
        let ghost before = *writer;
        let ghost r = state@.root;
        let ghost whole = Item::Part {
            route: at,
            part: moved_part(r.partitions[at], self.slots@),
            from: r,
        };
        proof {
            lemma_added_none(before);
        }
        let first = writer.carry_partition(&state.root, at, &self.slots);
        if first.is_err() {
            proof {
                lemma_refused_known(before, r, whole, first->Err_0);
            }
            return first;
        }
        let ghost middle = *writer;
        proof {
            assert(seq![whole].take(0) =~= Seq::empty());
            lemma_added_one(before, before, middle, r, seq![whole], 0, first);
            assert(seq![whole].take(1) =~= seq![whole]);
            assert(middle.place() == before.place()) by {
                reveal(grew);
            }
        }
        let second = writer.carry_partition_history(&state.root, low, upper, &self.slots);
        proof {
            crate::table_writer::lemma_grew_twice(before, middle, *writer);
            let events = range_parts(r, table, 4, low, bucket_end(low));
            let states = range_parts(r, table, 5, low, bucket_end(low));
            let more = moved_items(r, events, self.slots@) + moved_items(r, states, self.slots@);
            if second is Ok {
                lemma_added_both(before, middle, *writer, seq![whole], more);
            }
        }
        second
    }
}

proof fn lemma_works_known(a: TableWriter, r: RootV, works: Seq<WorkV>, e: Error)
    requires
        e is Corrupt || works_stopped(a, r, works, e),
    ensures
        !(e is Unread),
{
    if works_stopped(a, r, works, e) {
        let (w, n) = choose|w: TableWriter, n: int|
            0 <= n < works.len() && #[trigger] added(a, w, works_items(r, works.take(n))) && (
            stopped(w, work_root(r, works[n]), work_items(r, works[n]), e) || (e is Invalid
                && w.written() == u64::MAX));
        if stopped(w, work_root(r, works[n]), work_items(r, works[n]), e) {
            lemma_stopped_known(w, work_root(r, works[n]), work_items(r, works[n]), e);
        }
    }
}

// ---- The finished manifest ----

/// Counts of entities after more were written to a slot.
pub open spec fn settled(m: Map<Share, Occupancy>, at: Share, entities: u64) -> Map<Share, Occupancy> {
    let o = if m.contains_key(at) {
        m[at]
    } else {
        Occupancy { entities: 0, dead: 0 }
    };
    m.insert(at, Occupancy { entities: (o.entities + entities) as u64, dead: o.dead })
}

/// The files of a manifest that hold history.
pub open spec fn historical() -> spec_fn(FileInfo) -> bool {
    |f: FileInfo| f.kind == 2 || f.kind == 6
}

impl Checkpoint {
    /// Takes the finished files of a table up into the manifest.
    pub fn absorb_table(&mut self, table: u64, output: &TableOutput) -> (r: Result<()>)
        requires
            old(self).sound(),
        ensures
            final(self).sound(),
            ({
                let at = Share { table, slot: old(self).new_slot };
                let m = old(self).root@.occupancy;
                match r {
                    Ok(_) => {
                        &&& m.contains_key(at) ==> m[at].entities + output.entities <= u64::MAX
                        &&& final(self).root@.occupancy == settled(m, at, output.entities)
                        &&& final(self).root@.history_generations == old(self).root@.history_generations.union_prefer_right(output.history_generations@)
                        &&& final(self).root@.partitions == old(self).root@.partitions.union_prefer_right(output.parts())
                        &&& final(self).root@.files.len() == old(self).root@.files.len()
                            + output.reused@.len() + output.contents@.len()
                        &&& final(self).root@.files.take(old(self).root@.files.len() as int)
                            == old(self).root@.files
                        &&& forall|i: int|
                            0 <= i < output.reused@.len() ==> final(self).root@.files[old(self).root@.files.len() + i] == #[trigger] output.reused@[i]
                        &&& forall|i: int|
                            0 <= i < output.contents@.len() ==> {
                                let f = final(self).root@.files[old(self).root@.files.len()
                                    + output.reused@.len() + i];
                                let c = #[trigger] output.contents@[i];
                                f.named() == c.0 && f.size == c.1@.len() && f.crc
                                    == crate::checksum::crc(c.1@)
                            }
                        &&& forall|w: TableWriter| #[trigger]
                            w.place().0 == table && w.place().2 == old(self).new_slot ==> absorbs(
                                w,
                                *output,
                                old(self).root@,
                                final(self).root@,
                            )
                        &&& *final(self) == (Checkpoint { root: final(self).root, ..*old(self) })
                        &&& final(self).root == (Root {
                            occupancy: final(self).root.occupancy,
                            history_generations: final(self).root.history_generations,
                            partitions: final(self).root.partitions,
                            files: final(self).root.files,
                            ..old(self).root
                        })
                    },
                    Err(e) => e is Corrupt && *final(self) == *old(self) && m.contains_key(at)
                        && m[at].entities + output.entities > u64::MAX,
                }
            }),
    {
        let at = Share { table, slot: self.new_slot };
        let was: Occupancy = match self.root.occupancy.get(&at) {
            Some(o) => *o,
            None => Occupancy { entities: 0, dead: 0 },
        };
        let total: u64 = match was.entities.checked_add(output.entities) {
            Some(total) => total,
            None => {
                return Err(corrupt("occupancy overflow"));
            },
        };
        let ghost before = self.root@;
        let items = output.history_generations.items();
        let ghost s = output.history_generations.entries();
        let ghost pair = |e: (&u64, &u64)| (*e.0, *e.1);
        proof {
            assert(items@.map_values(pair).len() == items@.len());
        }
        let mut i: usize = 0;
        while i < items.len()
            invariant
                i <= items@.len(),
                pair == (|e: (&u64, &u64)| (*e.0, *e.1)),
                items@.map_values(pair) == s,
                increasing(s),
                lists(s, output.history_generations@),
                before == old(self).root@,
                *self == (Checkpoint {
                    root: Root {
                        history_generations: self.root.history_generations,
                        ..old(self).root
                    },
                    ..*old(self)
                }),
                forall|g: u64| #[trigger]
                    before.history_generations.contains_key(g)
                        ==> self.root.history_generations@.contains_key(g),
                forall|g: u64| #[trigger]
                    self.root.history_generations@.contains_key(g)
                        ==> before.history_generations.contains_key(g)
                        || output.history_generations@.contains_key(g),
                forall|g: u64|
                    #![trigger self.root.history_generations@[g]]
                    before.history_generations.contains_key(g)
                        && !output.history_generations@.contains_key(g)
                        ==> self.root.history_generations@[g] == before.history_generations[g],
                forall|j: int|
                    0 <= j < i ==> self.root.history_generations@.contains_key((#[trigger] s[j]).0)
                        && self.root.history_generations@[s[j].0] == s[j].1,
            decreases items@.len() - i,
        {
            let (generation, sequence) = (*items[i].0, *items[i].1);
            proof {
                assert(items@.map_values(pair)[i as int] == (generation, sequence));
                reveal(lists);
                assert(s[i as int] == (generation, sequence));
            }
            self.root.history_generations.insert(generation, sequence);
            proof {
                assert forall|j: int|
                    0 <= j < i + 1 implies self.root.history_generations@.contains_key(
                    (#[trigger] s[j]).0,
                ) && self.root.history_generations@[s[j].0] == s[j].1 by {
                    if j < i && s[j].0 == generation {
                        reveal(lists);
                        assert(output.history_generations@[s[j].0] == s[j].1);
                    }
                }
            }
            i = i + 1;
        }
        proof {
            assert forall|g: u64| #[trigger]
                output.history_generations@.contains_key(
                    g,
                ) implies self.root.history_generations@.contains_key(g)
                && self.root.history_generations@[g] == output.history_generations@[g] by {
                reveal(lists);
                let j = choose|j: int| 0 <= j < s.len() && (#[trigger] s[j]).0 == g;
                assert(s[j].1 == output.history_generations@[g]);
            }
            assert(self.root.history_generations@
                =~= before.history_generations.union_prefer_right(output.history_generations@));
        }
        let ghost parts = self.root.partitions@;
        merge(&mut self.root.partitions, &output.partitions);
        proof {
            let after = self.root@.partitions;
            assert forall|at: Route| #[trigger] after.contains_key(at) == before.partitions.union_prefer_right(
                output.parts(),
            ).contains_key(at) by {
                assert(self.root.partitions@.contains_key(at) == (parts.contains_key(at)
                    || output.partitions@.contains_key(at)));
            }
            assert forall|at: Route| #[trigger] after.contains_key(at) implies after[at]
                == before.partitions.union_prefer_right(output.parts())[at] by {
                let x = self.root.partitions@[at];
                if output.partitions@.contains_key(at) {
                    assert(x@ == output.partitions@[at]@);
                } else {
                    assert(x == parts[at]);
                }
            }
            assert(after =~= before.partitions.union_prefer_right(output.parts()));
        }
        let mut reused: Vec<FileInfo> = copy_infos(&output.reused);
        let mut infos = output.describe();
        let ghost more = infos@;
        self.root.files.append(&mut reused);
        self.root.files.append(&mut infos);
        self.root.occupancy.insert(at, Occupancy { entities: total, dead: was.dead });
        proof {
            let n = before.files.len() as int;
            let k = output.reused@.len() as int;
            let files = self.root.files@;
            assert(files =~= before.files + output.reused@ + more);
            assert(files.take(n) =~= before.files);
            assert(files == self.root@.files);
            assert(self.root@.occupancy =~= settled(before.occupancy, at, output.entities));
            assert forall|i: int| 0 <= i < output.contents@.len() implies ({
                let f = files[n + k + i];
                let c = #[trigger] output.contents@[i];
                f.named() == c.0 && f.size == c.1@.len() && f.crc == crate::checksum::crc(c.1@)
            }) by {
                assert(files[n + k + i] == more[i]);
            }
        }
        Ok(())
    }

    /// Whether the manifest stays within limits: of files that hold history, and of index
    /// partitions.
    pub fn check_limits(&self, max_history_files: usize, max_partitions: usize) -> (r: Result<()>)
        ensures
            ({
                let files = self.root@.files.filter(historical()).len();
                let parts = listing(self.root.partitions@).len();
                match r {
                    Ok(_) => files <= max_history_files && parts <= max_partitions,
                    Err(e) => if files > max_history_files {
                        e == (Error::LimitExceeded {
                            resource: "history files",
                            limit: max_history_files,
                        })
                    } else {
                        parts > max_partitions && e == (Error::LimitExceeded {
                            resource: "index partitions",
                            limit: max_partitions,
                        })
                    },
                }
            }),
    {
        let ghost s = self.root@.files;
        let mut count: usize = 0;
        let mut i: usize = 0;
        proof {
            assert(s.take(0) =~= Seq::empty());
            assert(s.take(0).filter(historical()).len() == 0) by {
                reveal(Seq::filter);
            }
        }
        while i < self.root.files.len()
            invariant
                i <= s.len(),
                s == self.root.files@,
                s == self.root@.files,
                count <= i,
                count == s.take(i as int).filter(historical()).len(),
            decreases s.len() - i,
        {
            let kind: u8 = self.root.files[i].kind;
            proof {
                reveal(Seq::filter);
                assert(s.take(i + 1).drop_last() =~= s.take(i as int));
                assert(s.take(i + 1).last() == s[i as int]);
            }
            if kind == 2 || kind == 6 {
                count = count + 1;
            }
            i = i + 1;
        }
        assert(s.take(i as int) =~= s);
        check("history files", 0, count, max_history_files)?;
        let items = self.root.partitions.items();
        let ghost pair = |e: (&Route, &Partition)| (*e.0, *e.1);
        proof {
            lemma_listing_is(self.root.partitions.entries(), self.root.partitions@);
            assert(items@.map_values(pair).len() == items@.len());
        }
        check("index partitions", 0, items.len(), max_partitions)
    }

    /// The frame that records the manifest in the catalog.
    pub fn record(&self) -> (r: Result<Vec<u8>>)
        ensures
            match r {
                Ok(bytes) => enc_root(self.root@).len() <= MAX_FRAME && bytes@ == enc_frame(
                    FrameV { kind: 4, lsn: self.root.lsn, payload: enc_root(self.root@) },
                ) && (well_made(self.root@) ==> dec_root(enc_root(self.root@)) == Some(self.root@)),
                Err(e) => e is Invalid && enc_root(self.root@).len() > MAX_FRAME,
            },
    {
        let payload = self.root.encode();
        proof {
            if well_made(self.root@) {
                lemma_reads_back(self.root@);
            }
        }
        frame::encode(4, self.root.lsn, payload.as_slice())
    }
}

fn copy_infos(infos: &Vec<FileInfo>) -> (out: Vec<FileInfo>)
    ensures
        out@ == infos@,
{
    let mut out: Vec<FileInfo> = Vec::new();
    let mut i: usize = 0;
    while i < infos.len()
        invariant
            i <= infos@.len(),
            out@ == infos@.take(i as int),
        decreases infos@.len() - i,
    {
        out.push(infos[i]);
        i = i + 1;
        assert(out@ =~= infos@.take(i as int));
    }
    assert(infos@.take(i as int) =~= infos@);
    out
}

// ---- Laws ----

/// The entity that work is for.
pub open spec fn work_id(w: WorkV) -> u64 {
    match w {
        WorkV::Carry { id, .. } => id,
        WorkV::Write { id, .. } => id,
    }
}

/// No entity is lost: the work for entries has one piece for each, in order. What memory holds
/// is written from there, and only what it does not hold stays where it is, under its own
/// place in the slot of its generation.
pub proof fn lemma_nothing_lost(
    c: Copying,
    slots: Seq<Option<u8>>,
    s: StateV,
    files: Files,
    quotas: Seq<u64>,
    entries: Seq<(u64, Option<Value>)>,
)
    requires
        work_all(c, slots, s, files, quotas, entries) is Ok,
        s.catalog.contains_key(c.table),
    ensures
        ({
            let works = work_all(c, slots, s, files, quotas, entries)->Ok_0.works;
            &&& works.len() == entries.len()
            &&& forall|i: int|
                0 <= i < entries.len() ==> {
                    let id = entries[i].0;
                    let held = s.overlay.contains_key((c.table, id));
                    &&& work_id(#[trigger] works[i]) == id
                    &&& held ==> works[i] is Write && works[i]->Write_data
                        == s.overlay[(c.table, id)]
                    &&& works[i] is Carry ==> entries[i].1 is Some && shared_slot(
                        entries[i].1.unwrap(),
                    ) is Some && slots[shared_slot(entries[i].1.unwrap()).unwrap() as int] is Some
                        && works[i]->value == remapped(
                        entries[i].1.unwrap(),
                        slots[shared_slot(entries[i].1.unwrap()).unwrap() as int].unwrap(),
                    )
                }
        }),
    decreases entries.len(),
{
    if entries.len() > 0 {
        reveal(work_for);
        let front = entries.drop_last();
        lemma_nothing_lost(c, slots, s, files, quotas, front);
        let before = work_all(c, slots, s, files, quotas, front)->Ok_0.works;
        let works = work_all(c, slots, s, files, quotas, entries)->Ok_0.works;
        assert forall|i: int| 0 <= i < entries.len() implies ({
            let id = entries[i].0;
            let held = s.overlay.contains_key((c.table, id));
            &&& work_id(#[trigger] works[i]) == id
            &&& held ==> works[i] is Write && works[i]->Write_data == s.overlay[(c.table, id)]
            &&& works[i] is Carry ==> entries[i].1 is Some && shared_slot(entries[i].1.unwrap())
                is Some && slots[shared_slot(entries[i].1.unwrap()).unwrap() as int] is Some
                && works[i]->value == remapped(
                entries[i].1.unwrap(),
                slots[shared_slot(entries[i].1.unwrap()).unwrap() as int].unwrap(),
            )
        }) by {
            if i < front.len() {
                assert(works[i] == before[i]);
                assert(entries[i] == front[i]);
            } else {
                assert(entries[i] == entries.last());
            }
        }
    }
}

/// How many entries lead into generations that stay.
pub open spec fn staying(slots: Seq<Option<u8>>, entries: Seq<(u64, Option<Value>)>) -> nat
    decreases entries.len(),
{
    if entries.len() == 0 {
        0
    } else {
        staying(slots, entries.drop_last()) + match entries.last().1 {
            None => 0nat,
            Some(v) => match shared_slot(v) {
                None => 0nat,
                Some(slot) => if slots[slot as int] is Some {
                    1nat
                } else {
                    0nat
                },
            },
        }
    }
}

/// Counts add up: the entities counted in generations that stay, with those written anew, and
/// without the copies that are left behind, are all entities.
pub proof fn lemma_counts_add_up(
    c: Copying,
    slots: Seq<Option<u8>>,
    s: StateV,
    files: Files,
    quotas: Seq<u64>,
    entries: Seq<(u64, Option<Value>)>,
)
    requires
        work_all(c, slots, s, files, quotas, entries) is Ok,
    ensures
        ({
            let b = work_all(c, slots, s, files, quotas, entries)->Ok_0;
            staying(slots, entries) + writes(b.works) == entries.len() + b.dead.len()
        }),
    decreases entries.len(),
{
    if entries.len() > 0 {
        reveal(work_for);
        let front = entries.drop_last();
        lemma_counts_add_up(c, slots, s, files, quotas, front);
        let before = work_all(c, slots, s, files, quotas, front)->Ok_0;
        let after = work_all(c, slots, s, files, quotas, entries)->Ok_0;
        assert(after.works.drop_last() =~= before.works);
    }
}

} // verus!
