//! What a checkpoint collects, publishes and leaves behind.

use crate::commit::Engine;
use crate::commit::tail_view;
use crate::error::invalid;
use crate::error::Result;
use crate::installing::installed;
use crate::key::lemma_listing_is;
use crate::key::listing;
use crate::key::OrderedKey;
use crate::ordered_map::OrderedMap;
use crate::overlay::Overlay;
use crate::snapshot::GenerationInfo;
use crate::snapshot::Root;
use crate::snapshot::MAX_SLOTS;
use crate::storage::pager::FileId;
use std::sync::Arc;
use vstd::prelude::*;

verus! {

/// How many entities one published generation holds and how many are superseded.
#[derive(Clone, Copy, Debug, PartialEq, Eq, Structural)]
pub struct GenerationStats {
    /// The generation number, which also names its files on disk.
    pub generation: u64,
    /// Entities written into this generation.
    pub entities: u64,
    /// Entities of this generation that a later checkpoint has superseded.
    pub dead: u64,
}

/// A generation that collection may drain: those that lost density first, then the cheapest.
#[derive(Clone, Copy, Debug, PartialEq, Eq, Structural)]
pub struct Candidate {
    /// Whether the generation has kept its density.
    pub dense: bool,
    /// The entities that draining it moves.
    pub live: u64,
    /// The generation.
    pub generation: u64,
}

impl OrderedKey for Candidate {
    open spec fn before(self, other: Self) -> bool {
        (!self.dense && other.dense) || (self.dense == other.dense && (self.live < other.live || (
        self.live == other.live && self.generation < other.generation)))
    }

    proof fn order_laws() {
    }

    fn less(&self, other: &Self) -> (r: bool) {
        (!self.dense && other.dense) || (self.dense == other.dense && (self.live < other.live || (
        self.live == other.live && self.generation < other.generation)))
    }

    fn same(&self) -> (r: Self) {
        *self
    }
}

// ---- The plan of a checkpoint ----

/// Whether a generation holds nothing live.
pub open spec fn is_void(g: GenerationStats) -> bool {
    g.entities <= g.dead
}

/// A generation that collection may drain.
pub open spec fn candidate(g: GenerationStats, sparse: bool) -> Candidate {
    Candidate { dense: !sparse, live: (g.entities - g.dead) as u64, generation: g.generation }
}

/// The generations that collection may drain.
pub open spec fn candidates(stats: Seq<GenerationStats>, sparse: Seq<bool>) -> Map<Candidate, ()>
    decreases stats.len(),
{
    if stats.len() == 0 {
        Map::empty()
    } else {
        let rest = candidates(stats.drop_last(), sparse);
        if is_void(stats.last()) {
            rest
        } else {
            rest.insert(candidate(stats.last(), sparse[stats.len() - 1]), ())
        }
    }
}

/// The generations that hold nothing live, whole.
pub open spec fn voids(stats: Seq<GenerationStats>) -> Map<u64, u64>
    decreases stats.len(),
{
    if stats.len() == 0 {
        Map::empty()
    } else {
        let rest = voids(stats.drop_last());
        if is_void(stats.last()) {
            rest.insert(stats.last().generation, u64::MAX)
        } else {
            rest
        }
    }
}

/// A plan so far, and how many generations the next manifest would name.
pub struct PlanV {
    /// How many live entities of each generation are moved; the greatest number for all.
    pub quotas: Map<u64, u64>,
    /// The generations that the next manifest would name.
    pub slots: int,
}

/// A plan with the generations that are drained within a budget.
pub open spec fn drained(q: Seq<Candidate>, plan: PlanV, budget: u64, most: int) -> PlanV
    decreases q.len(),
{
    if q.len() == 0 || budget == 0 || (q[0].dense && plan.slots <= most) {
        plan
    } else if q[0].live > budget {
        PlanV { quotas: plan.quotas.insert(q[0].generation, budget), slots: plan.slots }
    } else {
        drained(
            q.skip(1),
            PlanV {
                quotas: plan.quotas.insert(q[0].generation, u64::MAX),
                slots: plan.slots - 1,
            },
            (budget - q[0].live) as u64,
            most,
        )
    }
}

/// A plan with whole generations drained until the manifest fits.
pub open spec fn fitted(q: Seq<Candidate>, plan: PlanV) -> PlanV
    decreases q.len(),
{
    if q.len() == 0 || plan.slots < MAX_SLOTS {
        plan
    } else {
        let g = q[0].generation;
        let whole = plan.quotas.contains_key(g) && plan.quotas[g] == u64::MAX;
        fitted(
            q.skip(1),
            PlanV {
                quotas: plan.quotas.insert(g, u64::MAX),
                slots: if whole {
                    plan.slots
                } else {
                    plan.slots - 1
                },
            },
        )
    }
}

/// The queue of a collection.
pub open spec fn queue_of(stats: Seq<GenerationStats>, sparse: Seq<bool>) -> Seq<Candidate> {
    listing(candidates(stats, sparse)).map_values(|e: (Candidate, ())| e.0)
}

/// The budget that a limit gives.
pub open spec fn budget_of(limit: usize) -> u64 {
    if limit == 0 {
        u64::MAX
    } else {
        limit as u64
    }
}

/// How many live entities of each generation a checkpoint moves.
pub open spec fn planned(
    stats: Seq<GenerationStats>,
    sparse: Seq<bool>,
    most: usize,
    limit: usize,
) -> Map<u64, u64> {
    let q = queue_of(stats, sparse);
    let first = PlanV {
        quotas: voids(stats),
        slots: stats.len() - voids(stats).dom().len() + 1,
    };
    fitted(q, drained(q, first, budget_of(limit), most as int)).quotas
}

/// The entities that draining within a budget moves.
pub open spec fn copied(q: Seq<Candidate>, slots: int, budget: u64, most: int) -> nat
    decreases q.len(),
{
    if q.len() == 0 || budget == 0 || (q[0].dense && slots <= most) {
        0
    } else if q[0].live > budget {
        budget as nat
    } else {
        q[0].live as nat + copied(q.skip(1), slots - 1, (budget - q[0].live) as u64, most)
    }
}

/// Draining moves no more entities than its budget allows.
pub proof fn lemma_copied(q: Seq<Candidate>, slots: int, budget: u64, most: int)
    ensures
        copied(q, slots, budget, most) <= budget,
    decreases q.len(),
{
    if q.len() > 0 && budget != 0 && !(q[0].dense && slots <= most) && q[0].live <= budget {
        lemma_copied(q.skip(1), slots - 1, (budget - q[0].live) as u64, most);
    }
}

/// Whether generations are numbered in ascending order.
pub open spec fn ascending_stats(stats: Seq<GenerationStats>) -> bool {
    forall|i: int, j: int|
        0 <= i < j < stats.len() ==> (#[trigger] stats[i]).generation < (
        #[trigger] stats[j]).generation
}

proof fn lemma_voids(stats: Seq<GenerationStats>)
    requires
        ascending_stats(stats),
    ensures
        voids(stats).dom().finite(),
        voids(stats).dom().len() <= stats.len(),
        forall|g: u64| #[trigger]
            voids(stats).contains_key(g) ==> exists|i: int|
                0 <= i < stats.len() && (#[trigger] stats[i]).generation == g,
    decreases stats.len(),
{
    if stats.len() > 0 {
        let t = stats.drop_last();
        assert forall|i: int, j: int| 0 <= i < j < t.len() implies (#[trigger] t[i]).generation < (
        #[trigger] t[j]).generation by {
            assert(stats[i] == t[i] && stats[j] == t[j]);
        }
        lemma_voids(t);
        assert forall|g: u64| #[trigger] voids(stats).contains_key(g) implies exists|i: int|
            0 <= i < stats.len() && (#[trigger] stats[i]).generation == g by {
            if voids(t).contains_key(g) {
                let i = choose|i: int| 0 <= i < t.len() && (#[trigger] t[i]).generation == g;
                assert(stats[i].generation == g);
            } else {
                assert(stats[stats.len() - 1].generation == g);
            }
        }
    } else {
        assert(voids(stats).dom() =~= Set::empty());
    }
}

/// Chooses how many live entities of each generation a checkpoint moves.
///
/// A generation is collected once it loses density, holds nothing live, or
/// has to make room within the manifest's generation budget; the emptiest
/// generation goes first, because it frees a slot for the least copying.
/// The limit caps the copying one checkpoint performs, so a
/// generation too large to drain at once is drained over several. A quota of
/// the greatest number collects a generation whole and releases its files.
pub fn collection_plan(
    stats: &Vec<GenerationStats>,
    sparse: &Vec<bool>,
    max_generations: usize,
    collect_entities: usize,
) -> (plan: OrderedMap<u64, u64>)
    requires
        stats@.len() == sparse@.len(),
        stats@.len() < usize::MAX,
        ascending_stats(stats@),
    ensures
        plan@ == planned(stats@, sparse@, max_generations, collect_entities),
{
    let mut plan: OrderedMap<u64, u64> = OrderedMap::new();
    let mut queue: OrderedMap<Candidate, ()> = OrderedMap::new();
    let mut slots: usize = 1;
    let mut i: usize = 0;
    proof {
        assert(stats@.take(0) =~= Seq::empty());
        assert(voids(stats@.take(0)).dom() =~= Set::empty());
    }
    while i < stats.len()
        invariant
            i <= stats@.len(),
            stats@.len() == sparse@.len(),
            stats@.len() < usize::MAX,
            ascending_stats(stats@),
            plan@ == voids(stats@.take(i as int)),
            queue@ == candidates(stats@.take(i as int), sparse@),
            slots == i - voids(stats@.take(i as int)).dom().len() + 1,
            1 <= slots <= i + 1,
        decreases stats@.len() - i,
    {
        let g = stats[i];
        proof {
            let t = stats@.take(i as int);
            assert(stats@.take(i + 1).drop_last() =~= t);
            assert(stats@.take(i + 1).last() == g);
            lemma_voids(t);
            assert(!voids(t).contains_key(g.generation)) by {
                if voids(t).contains_key(g.generation) {
                    let k = choose|k: int|
                        0 <= k < t.len() && (#[trigger] t[k]).generation == g.generation;
                    assert(stats@[k].generation < stats@[i as int].generation);
                }
            }
        }
        if g.entities <= g.dead {
            // Nothing to copy: the files can go at no cost.
            plan.insert(g.generation, u64::MAX);
            assert(voids(stats@.take(i + 1)).dom() =~= voids(stats@.take(i as int)).dom().insert(
                g.generation,
            ));
        } else {
            queue.insert(
                Candidate {
                    dense: !sparse[i],
                    live: g.entities - g.dead,
                    generation: g.generation,
                },
                (),
            );
            slots = slots + 1;
        }
        i = i + 1;
    }
    assert(stats@.take(i as int) =~= stats@);
    let ghost q = queue_of(stats@, sparse@);
    let items = queue.items();
    let ghost s = queue.entries();
    proof {
        lemma_listing_is(s, queue@);
        assert(items@.map_values(|e: (&Candidate, &())| (*e.0, *e.1)).len() == items@.len());
        assert forall|k: int| 0 <= k < items@.len() implies *(#[trigger] items@[k]).0 == q[k] by {
            assert(items@.map_values(|e: (&Candidate, &())| (*e.0, *e.1))[k] == s[k]);
        }
    }
    let ghost first = PlanV { quotas: plan@, slots: slots as int };
    let start: u64 = if collect_entities == 0 {
        u64::MAX
    } else {
        collect_entities as u64
    };
    let mut budget: u64 = start;
    let ghost mut shown: int = slots as int;
    // Generations that lost density first, cheapest first within each group.
    let mut spent: usize = 0;
    let mut done: bool = false;
    let mut i: usize = 0;
    proof {
        assert(q.skip(0) =~= q);
    }
    while i < items.len() && !done
        invariant
            i <= items@.len(),
            items@.len() == q.len(),
            forall|k: int| 0 <= k < items@.len() ==> *(#[trigger] items@[k]).0 == q[k],
            shown == slots as int - spent,
            spent <= i,
            !done ==> drained(q, first, start, max_generations as int) == drained(
                q.skip(i as int),
                PlanV { quotas: plan@, slots: shown },
                budget,
                max_generations as int,
            ),
            done ==> drained(q, first, start, max_generations as int) == (PlanV {
                quotas: plan@,
                slots: shown,
            }),
        decreases items@.len() - i, (if done { 0int } else { 1int }),
    {
        let (c, _) = items[i];
        proof {
            assert(q.skip(i as int)[0] == *c);
            assert(q.skip(i as int).skip(1) =~= q.skip(i + 1));
        }
        let few: bool = spent >= slots || slots - spent <= max_generations;
        if budget == 0 || (c.dense && few) {
            done = true;
        } else if c.live > budget {
            plan.insert(c.generation, budget);
            done = true;
        } else {
            plan.insert(c.generation, u64::MAX);
            budget = budget - c.live;
            spent = spent + 1;
            proof {
                shown = shown - 1;
            }
            i = i + 1;
        }
    }
    proof {
        if !done {
            assert(q.skip(i as int) =~= Seq::empty());
        }
    }
    let ghost middle = PlanV { quotas: plan@, slots: shown };
    // The generation budget yields to a bounded pause, but the format's slot
    // limit cannot: drain whole generations until the manifest fits.
    let mut more: usize = 0;
    let mut done: bool = false;
    let mut i: usize = 0;
    proof {
        assert(q.skip(0) =~= q);
    }
    while i < items.len() && !done
        invariant
            i <= items@.len(),
            items@.len() == q.len(),
            forall|k: int| 0 <= k < items@.len() ==> *(#[trigger] items@[k]).0 == q[k],
            more <= i,
            spent <= items@.len(),
            shown == slots as int - spent - more,
            !done ==> fitted(q, middle) == fitted(
                q.skip(i as int),
                PlanV { quotas: plan@, slots: shown },
            ),
            done ==> fitted(q, middle) == (PlanV { quotas: plan@, slots: shown }),
        decreases items@.len() - i, (if done { 0int } else { 1int }),
    {
        let (c, _) = items[i];
        proof {
            assert(q.skip(i as int)[0] == *c);
            assert(q.skip(i as int).skip(1) =~= q.skip(i + 1));
        }
        let fits: bool = spent >= slots || more >= slots - spent || slots - spent - more
            < MAX_SLOTS;
        if fits {
            done = true;
        } else {
            let whole: bool = match plan.get(&c.generation) {
                Some(quota) => *quota == u64::MAX,
                None => false,
            };
            plan.insert(c.generation, u64::MAX);
            if !whole {
                more = more + 1;
                proof {
                    shown = shown - 1;
                }
            }
            i = i + 1;
        }
    }
    proof {
        if !done {
            assert(q.skip(i as int) =~= Seq::empty());
        }
    }
    plan
}

/// Every generation, whole.
pub fn full_plan(generations: &Vec<GenerationInfo>) -> (plan: OrderedMap<u64, u64>)
    ensures
        forall|g: u64| #[trigger]
            plan@.contains_key(g) == crate::snapshot::names(generations@, g),
        forall|g: u64| #[trigger] plan@.contains_key(g) ==> plan@[g] == u64::MAX,
{
    let mut plan: OrderedMap<u64, u64> = OrderedMap::new();
    let mut i: usize = 0;
    while i < generations.len()
        invariant
            i <= generations@.len(),
            forall|j: int|
                0 <= j < i ==> plan@.contains_key((#[trigger] generations@[j]).generation),
            forall|g: u64| #[trigger]
                plan@.contains_key(g) ==> plan@[g] == u64::MAX && exists|j: int|
                    0 <= j < i && (#[trigger] generations@[j]).generation == g,
        decreases generations@.len() - i,
    {
        let ghost was = plan@;
        plan.insert(generations[i].generation, u64::MAX);
        proof {
            assert forall|g: u64| #[trigger] plan@.contains_key(g) implies plan@[g] == u64::MAX
                && exists|j: int| 0 <= j < i + 1 && (#[trigger] generations@[j]).generation == g by {
                if was.contains_key(g) {
                    let j = choose|j: int|
                        0 <= j < i && (#[trigger] generations@[j]).generation == g;
                    assert(generations@[j].generation == g);
                } else {
                    assert(generations@[i as int].generation == g);
                }
            }
        }
        i = i + 1;
    }
    plan
}

// ---- The course of a checkpoint ----

impl Engine {
    /// Whether a log of a length is long enough for a checkpoint that would cover something.
    pub fn checkpoint_due(&self, length: u64, checkpoint_bytes: u64) -> (r: bool)
        ensures
            r == (length >= checkpoint_bytes && self.state.lsn > self.state.root.lsn),
    {
        length >= checkpoint_bytes && self.state.lsn > self.state.root.lsn
    }

    /// Whether the log has grown enough for a checkpoint that would cover something.
    pub fn maintenance_due(&self, checkpoint_bytes: u64) -> (r: bool)
        ensures
            r == (self.wal_bytes >= checkpoint_bytes && self.state.lsn > self.state.root.lsn),
    {
        self.checkpoint_due(self.wal_bytes, checkpoint_bytes)
    }

    /// Whether a full collection has history to rewrite.
    pub fn rewrites_history(&self) -> (r: bool)
        requires
            self.sound(),
        ensures
            r == (!self.state.root.history_compacted || self.state@.overlay != Map::<
                crate::overlay::Key,
                crate::entity::DataV,
            >::empty()),
    {
        proof {
            let m = self.state.overlay.entries();
            if m == Map::<crate::overlay::Key, Arc<crate::entity::EntityData>>::empty() {
                assert(self.state@.overlay =~= Map::empty());
            } else {
                if self.state@.overlay == Map::<
                    crate::overlay::Key,
                    crate::entity::DataV,
                >::empty() {
                    assert forall|k: crate::overlay::Key| !m.contains_key(k) by {
                        assert(self.state@.overlay.contains_key(k) == m.contains_key(k));
                    }
                    assert(m =~= Map::empty());
                }
            }
        }
        !self.state.root.history_compacted || !self.state.overlay.is_empty()
    }

    /// Takes the generation of the next checkpoint. One checkpoint is built at a time.
    pub fn begin_checkpoint(&mut self) -> (r: Result<u64>)
        ensures
            final(self).state == old(self).state,
            final(self).tail == old(self).tail,
            final(self).wal_bytes == old(self).wal_bytes,
            match r {
                Ok(generation) => {
                    &&& !old(self).state.poisoned && old(self).tail is None
                    &&& generation == old(self).next_generation
                    &&& final(self).next_generation == generation + 1
                },
                Err(e) => {
                    &&& final(self).next_generation == old(self).next_generation
                    &&& if old(self).state.poisoned {
                        e is NeedsRecovery
                    } else {
                        e is Invalid && (old(self).tail is Some || old(self).next_generation
                            == u64::MAX)
                    }
                },
            },
    {
        self.state.ready()?;
        if self.tail.is_some() {
            return Err(invalid("maintenance already running"));
        }
        let generation: u64 = self.next_generation;
        if generation == u64::MAX {
            return Err(invalid("generation exhausted"));
        }
        self.next_generation = generation + 1;
        Ok(generation)
    }

    /// Starts to set aside what is written while a checkpoint of the current view is built.
    pub fn captured(&mut self)
        requires
            old(self).sound(),
        ensures
            final(self).sound(),
            final(self).state == old(self).state,
            final(self).wal_bytes == old(self).wal_bytes,
            final(self).next_generation == old(self).next_generation,
            final(self).tail is Some,
            final(self).tail.unwrap().entries() == Map::<
                crate::overlay::Key,
                Arc<crate::entity::EntityData>,
            >::empty(),
            tail_view(final(self).tail) == Some(
                Map::<crate::overlay::Key, crate::entity::DataV>::empty(),
            ),
    {
        self.tail = Some(Overlay::new());
        proof {
            assert(tail_view(self.tail).unwrap() =~= Map::empty());
        }
    }

    /// Gives a checkpoint up.
    pub fn abandon_checkpoint(&mut self)
        requires
            old(self).sound(),
        ensures
            final(self).sound(),
            final(self).state == old(self).state,
            final(self).wal_bytes == old(self).wal_bytes,
            final(self).next_generation == old(self).next_generation,
            final(self).tail is None,
    {
        self.tail = None;
    }

    /// Installs a published checkpoint: the view rests on it, and only what was written since
    /// it was captured stays in memory. The checkpoint before is returned.
    pub fn install_checkpoint(&mut self, root: Arc<Root>, frontier: u64) -> (r: Result<Arc<Root>>)
        requires
            old(self).sound(),
        ensures
            final(self).sound(),
            final(self).next_generation == old(self).next_generation,
            match r {
                Ok(previous) => {
                    &&& !old(self).state.poisoned && old(self).tail is Some
                    &&& previous == old(self).state.root
                    &&& final(self).state.root == root
                    &&& final(self).state.overlay == old(self).tail.unwrap()
                    &&& final(self).state.catalog == old(self).state.catalog
                    &&& final(self).state.lsn == old(self).state.lsn
                    &&& !final(self).state.poisoned
                    &&& final(self).state@ == installed(
                        old(self).state@,
                        tail_view(old(self).tail).unwrap(),
                        root@,
                    )
                    &&& final(self).tail is None
                    &&& final(self).wal_bytes == (if old(self).wal_bytes >= frontier {
                        (old(self).wal_bytes - frontier) as u64
                    } else {
                        0
                    })
                },
                Err(e) => *final(self) == *old(self) && if old(self).state.poisoned {
                    e is NeedsRecovery
                } else {
                    old(self).tail is None && e is Invalid
                },
            },
    {
        self.state.ready()?;
        if self.tail.is_none() {
            return Err(invalid("no captured checkpoint"));
        }
        let mut tail: Option<Overlay> = None;
        std::mem::swap(&mut tail, &mut self.tail);
        let previous = self.state.root.clone();
        match tail {
            None => {},
            Some(overlay) => {
                self.state.overlay = overlay;
            },
        }
        self.state.root = root;
        self.wal_bytes = if self.wal_bytes >= frontier {
            self.wal_bytes - frontier
        } else {
            0
        };
        Ok(previous)
    }
}

// ---- What a checkpoint leaves behind ----

/// Whether a log segment is needed for recovery from the checkpoint before.
pub fn keeps_segment(number: u64, previous: u64) -> (r: bool)
    ensures
        r == (number >= previous),
{
    number >= previous
}

/// Whether a catalog file is that of one of the last two checkpoints.
pub fn keeps_catalog(number: u64, previous: u64, current: u64) -> (r: bool)
    ensures
        r == (number == previous || number == current),
{
    number == previous || number == current
}

/// Adds files to those that are kept. Generations are shared, so age does not decide what a
/// checkpoint may reclaim: a file survives while a manifest still refers to it.
pub fn keep_files(keep: &mut OrderedMap<FileId, ()>, files: &Vec<FileId>)
    ensures
        forall|f: FileId| #[trigger]
            final(keep)@.contains_key(f) == (old(keep)@.contains_key(f) || files@.contains(f)),
{
    let ghost before = keep@;
    let mut i: usize = 0;
    while i < files.len()
        invariant
            i <= files@.len(),
            before == old(keep)@,
            forall|f: FileId| #[trigger] before.contains_key(f) ==> keep@.contains_key(f),
            forall|j: int| 0 <= j < i ==> keep@.contains_key(#[trigger] files@[j]),
            forall|f: FileId| #[trigger]
                keep@.contains_key(f) ==> before.contains_key(f) || files@.contains(f),
        decreases files@.len() - i,
    {
        keep.insert(files[i], ());
        assert(files@.contains(files@[i as int]));
        i = i + 1;
    }
    proof {
        assert forall|f: FileId| #[trigger]
            keep@.contains_key(f) == (before.contains_key(f) || files@.contains(f)) by {
            if files@.contains(f) {
                let j = choose|j: int| 0 <= j < files@.len() && files@[j] == f;
                assert(keep@.contains_key(files@[j]));
            }
        }
    }
}

impl Root {
    /// Reports the occupancy of each referenced generation, newest last. `None` if a sum
    /// cannot be counted.
    pub fn generation_stats(&self) -> (r: Option<Vec<GenerationStats>>)
        requires
            self@.generations.len() <= MAX_SLOTS,
        ensures
            ({
                let s = listing(self@.occupancy);
                match r {
                    Some(stats) => stats@.len() == self@.generations.len() && forall|i: int|
                        0 <= i < stats@.len() ==> {
                            let total = crate::snapshot::slot_total(s, i as u8);
                            &&& (#[trigger] stats@[i]).generation
                                == self@.generations[i].generation
                            &&& stats@[i].entities == total.0
                            &&& stats@[i].dead == total.1
                        },
                    None => exists|i: int|
                        0 <= i < self@.generations.len() && {
                            let total = #[trigger] crate::snapshot::slot_total(s, i as u8);
                            total.0 > u64::MAX || total.1 > u64::MAX
                        },
                }
            }),
    {
        let mut stats: Vec<GenerationStats> = Vec::new();
        let ghost s = listing(self@.occupancy);
        let mut i: usize = 0;
        while i < self.generations.len()
            invariant
                i <= self.generations@.len(),
                self.generations@.len() <= MAX_SLOTS,
                s == listing(self@.occupancy),
                stats@.len() == i,
                forall|j: int|
                    0 <= j < i ==> {
                        let total = crate::snapshot::slot_total(s, j as u8);
                        &&& (#[trigger] stats@[j]).generation == self@.generations[j].generation
                        &&& stats@[j].entities == total.0
                        &&& stats@[j].dead == total.1
                    },
            decreases self.generations@.len() - i,
        {
            match self.totals(i as u8) {
                None => {
                    return None;
                },
                Some(total) => {
                    stats.push(
                        GenerationStats {
                            generation: self.generations[i].generation,
                            entities: total.entities,
                            dead: total.dead,
                        },
                    );
                },
            }
            i = i + 1;
        }
        Some(stats)
    }
}

} // verus!
