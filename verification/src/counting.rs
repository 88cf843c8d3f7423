//! That the counts of a manifest are those of the entities that it leads to.

use crate::checkpoint::WorkV;
use crate::checkpoint::countable;
use crate::checkpoint::died;
use crate::checkpoint::lemma_counts_add_up;
use crate::checkpoint::settled;
use crate::checkpoint::staying;
use crate::checkpoint::work_all;
use crate::checkpoint::work_for;
use crate::checkpoint::writes;
use crate::copying::Copying;
use crate::partitions::lemma_remapped;
use crate::partitions::shared_slot;
use crate::reader::StateV;
use crate::snapshot::Occupancy;
use crate::snapshot::Share;
use crate::storage::index::Value;
use crate::storage::pager::Files;
use vstd::prelude::*;

verus! {

// ---- Counts by slot ----

/// What is counted for a slot of a table, if anything.
pub open spec fn count_at(m: Map<Share, Occupancy>, table: u64, slot: u8) -> Occupancy {
    let at = Share { table, slot };
    if m.contains_key(at) {
        m[at]
    } else {
        Occupancy { entities: 0, dead: 0 }
    }
}

/// The entities of a table that are live in a slot.
pub open spec fn live_at(m: Map<Share, Occupancy>, table: u64, slot: u8) -> int {
    count_at(m, table, slot).entities - count_at(m, table, slot).dead
}

/// The entities of a table that are live in the first so many slots.
pub open spec fn live_in(m: Map<Share, Occupancy>, table: u64, n: nat) -> int
    decreases n,
{
    if n == 0 {
        0
    } else {
        live_in(m, table, (n - 1) as nat) + live_at(m, table, (n - 1) as u8)
    }
}

/// The slot that an entry leads to once slots are translated, if its generation stays.
pub open spec fn stays_in(slots: Seq<Option<u8>>, e: (u64, Option<Value>)) -> Option<u8> {
    match e.1 {
        None => None,
        Some(v) => match shared_slot(v) {
            None => None,
            Some(slot) => slots[slot as int],
        },
    }
}

/// How many entries lead into a generation that stays, in its new slot.
pub open spec fn leading_to(
    slots: Seq<Option<u8>>,
    entries: Seq<(u64, Option<Value>)>,
    n: u8,
) -> nat
    decreases entries.len(),
{
    if entries.len() == 0 {
        0
    } else {
        leading_to(slots, entries.drop_last(), n) + if stays_in(slots, entries.last()) == Some(n) {
            1nat
        } else {
            0
        }
    }
}

/// How often a slot is among others.
pub open spec fn times(dead: Seq<u8>, n: u8) -> nat
    decreases dead.len(),
{
    if dead.len() == 0 {
        0
    } else {
        times(dead.drop_last(), n) + if dead.last() == n {
            1nat
        } else {
            0
        }
    }
}

/// How much work leaves an entity where it is, in a slot.
pub open spec fn carried_in(works: Seq<WorkV>, n: u8) -> nat
    decreases works.len(),
{
    if works.len() == 0 {
        0
    } else {
        carried_in(works.drop_last(), n) + match works.last() {
            WorkV::Carry { value, .. } => if shared_slot(value) == Some(n) {
                1nat
            } else {
                0
            },
            WorkV::Write { .. } => 0,
        }
    }
}

/// Of the entries that lead into a generation that stays, each stays there or leaves a copy
/// behind that is counted.
pub proof fn lemma_slot_adds_up(
    c: Copying,
    slots: Seq<Option<u8>>,
    s: StateV,
    files: Files,
    quotas: Seq<u64>,
    entries: Seq<(u64, Option<Value>)>,
    n: u8,
)
    requires
        work_all(c, slots, s, files, quotas, entries) is Ok,
    ensures
        ({
            let b = work_all(c, slots, s, files, quotas, entries)->Ok_0;
            leading_to(slots, entries, n) == carried_in(b.works, n) + times(b.dead, n)
        }),
    decreases entries.len(),
{
    if entries.len() > 0 {
        reveal(work_for);
        let front = entries.drop_last();
        lemma_slot_adds_up(c, slots, s, files, quotas, front, n);
        let before = work_all(c, slots, s, files, quotas, front)->Ok_0;
        let after = work_all(c, slots, s, files, quotas, entries)->Ok_0;
        assert(after.works.drop_last() =~= before.works);
        if after.dead.len() > before.dead.len() {
            assert(after.dead.drop_last() =~= before.dead);
        }
        if let Some(v) = entries.last().1 {
            if let Some(slot) = shared_slot(v) {
                if let Some(to) = slots[slot as int] {
                    lemma_remapped(v, to);
                }
            }
        }
    }
}

/// Whether an entity is written anew where no generation is drained: memory holds it, or its
/// generation goes.
pub open spec fn moves(
    s: StateV,
    table: u64,
    slots: Seq<Option<u8>>,
    e: (u64, Option<Value>),
) -> bool {
    s.overlay.contains_key((table, e.0)) || stays_in(slots, e) is None
}

/// How many entities are written anew where no generation is drained.
pub open spec fn moving(
    s: StateV,
    table: u64,
    slots: Seq<Option<u8>>,
    entries: Seq<(u64, Option<Value>)>,
) -> nat
    decreases entries.len(),
{
    if entries.len() == 0 {
        0
    } else {
        moving(s, table, slots, entries.drop_last()) + if moves(s, table, slots, entries.last()) {
            1nat
        } else {
            0
        }
    }
}

/// How many entities that memory holds leave a copy behind in a slot.
pub open spec fn outdated(
    s: StateV,
    table: u64,
    slots: Seq<Option<u8>>,
    entries: Seq<(u64, Option<Value>)>,
    n: u8,
) -> nat
    decreases entries.len(),
{
    if entries.len() == 0 {
        0
    } else {
        outdated(s, table, slots, entries.drop_last(), n) + if s.overlay.contains_key(
            (table, entries.last().0),
        ) && stays_in(slots, entries.last()) == Some(n) {
            1nat
        } else {
            0
        }
    }
}

/// Where no generation is drained, exactly the entities that memory holds or whose generation
/// goes are written anew, and exactly those that memory holds leave a copy behind in a
/// generation that stays.
pub proof fn lemma_written_anew(
    c: Copying,
    slots: Seq<Option<u8>>,
    s: StateV,
    files: Files,
    quotas: Seq<u64>,
    entries: Seq<(u64, Option<Value>)>,
    n: u8,
)
    requires
        work_all(c, slots, s, files, quotas, entries) is Ok,
        forall|i: u8| #[trigger] quotas[i as int] == 0,
    ensures
        ({
            let b = work_all(c, slots, s, files, quotas, entries)->Ok_0;
            &&& writes(b.works) == moving(s, c.table, slots, entries)
            &&& times(b.dead, n) == outdated(s, c.table, slots, entries, n)
            &&& b.quotas == quotas
        }),
    decreases entries.len(),
{
    if entries.len() > 0 {
        reveal(work_for);
        let front = entries.drop_last();
        lemma_written_anew(c, slots, s, files, quotas, front, n);
        let before = work_all(c, slots, s, files, quotas, front)->Ok_0;
        let after = work_all(c, slots, s, files, quotas, entries)->Ok_0;
        assert(after.works.drop_last() =~= before.works);
        if let Some(to) = stays_in(slots, entries.last()) {
            assert(quotas[to as int] == 0);
        }
        if after.dead.len() > before.dead.len() {
            assert(after.dead.drop_last() =~= before.dead);
        }
    }
}

/// Copies that are left behind are counted in their slots, and nothing else changes.
proof fn lemma_died(m: Map<Share, Occupancy>, table: u64, dead: Seq<u8>, other: u64, n: u8)
    requires
        countable(m, table, dead),
    ensures
        ({
            let after = count_at(died(m, table, dead), other, n);
            let before = count_at(m, other, n);
            &&& after.entities == before.entities
            &&& after.dead == before.dead + if other == table {
                times(dead, n)
            } else {
                0
            }
        }),
    decreases dead.len(),
{
    if dead.len() > 0 {
        let front = dead.drop_last();
        assert(countable(m, table, front)) by {
            assert forall|k: int| 0 <= k < front.len() implies {
                let before = died(m, table, #[trigger] front.take(k));
                let at = Share { table, slot: front[k] };
                before.contains_key(at) ==> before[at].dead < u64::MAX
            } by {
                assert(front.take(k) =~= dead.take(k));
                assert(front[k] == dead[k]);
            }
        }
        lemma_died(m, table, front, other, n);
        let last = dead.len() - 1;
        assert(dead.take(last) =~= front);
        let before = died(m, table, front);
        let at = Share { table, slot: dead[last] };
        assert(before.contains_key(at) ==> before[at].dead < u64::MAX);
    }
}

// ---- The buckets of a table ----

/// What a checkpoint did for a bucket of a table.
pub struct Visit {
    /// The entries of the bucket: an entity for each, with its place if it is stored.
    pub entries: Seq<(u64, Option<Value>)>,
    /// The work.
    pub works: Seq<WorkV>,
    /// The slots of copies left behind.
    pub dead: Seq<u8>,
}

/// Whether a bucket was kept whole: its entries lead into generations that stay, and nothing
/// was done.
pub open spec fn left_alone(slots: Seq<Option<u8>>, v: Visit) -> bool {
    &&& v.works.len() == 0
    &&& v.dead.len() == 0
    &&& forall|i: int| 0 <= i < v.entries.len() ==> stays_in(slots, #[trigger] v.entries[i]) is Some
}

/// Whether a bucket was worked on.
pub open spec fn worked_on(c: Copying, slots: Seq<Option<u8>>, s: StateV, files: Files, v: Visit) -> bool {
    exists|quotas: Seq<u64>|
        (#[trigger] work_all(c, slots, s, files, quotas, v.entries)) is Ok && work_all(
            c,
            slots,
            s,
            files,
            quotas,
            v.entries,
        )->Ok_0.works == v.works && work_all(c, slots, s, files, quotas, v.entries)->Ok_0.dead
            == v.dead
}

/// Counts after the copies that buckets left behind are counted.
pub open spec fn buried(m: Map<Share, Occupancy>, table: u64, visits: Seq<Visit>) -> Map<
    Share,
    Occupancy,
>
    decreases visits.len(),
{
    if visits.len() == 0 {
        m
    } else {
        died(buried(m, table, visits.drop_last()), table, visits.last().dead)
    }
}

/// Whether the counts stay within their range.
pub open spec fn buriable(m: Map<Share, Occupancy>, table: u64, visits: Seq<Visit>) -> bool
    decreases visits.len(),
{
    visits.len() > 0 ==> buriable(m, table, visits.drop_last()) && countable(
        buried(m, table, visits.drop_last()),
        table,
        visits.last().dead,
    )
}

/// The entities of buckets.
pub open spec fn all_entries(visits: Seq<Visit>) -> nat
    decreases visits.len(),
{
    if visits.len() == 0 {
        0
    } else {
        all_entries(visits.drop_last()) + visits.last().entries.len()
    }
}

/// The entities of buckets that were written anew.
pub open spec fn all_writes(visits: Seq<Visit>) -> nat
    decreases visits.len(),
{
    if visits.len() == 0 {
        0
    } else {
        all_writes(visits.drop_last()) + writes(visits.last().works)
    }
}

/// The entries of buckets that lead into a generation that stays, in its new slot.
pub open spec fn all_leading(slots: Seq<Option<u8>>, visits: Seq<Visit>, n: u8) -> nat
    decreases visits.len(),
{
    if visits.len() == 0 {
        0
    } else {
        all_leading(slots, visits.drop_last(), n) + leading_to(slots, visits.last().entries, n)
    }
}

/// The entities of buckets that are in a slot afterwards, where they were.
pub open spec fn all_carried(slots: Seq<Option<u8>>, visits: Seq<Visit>, n: u8) -> nat
    decreases visits.len(),
{
    if visits.len() == 0 {
        0
    } else {
        all_carried(slots, visits.drop_last(), n) + if left_alone(slots, visits.last()) {
            leading_to(slots, visits.last().entries, n)
        } else {
            carried_in(visits.last().works, n)
        }
    }
}

/// The copies that buckets left behind in a slot.
pub open spec fn all_dead(visits: Seq<Visit>, n: u8) -> nat
    decreases visits.len(),
{
    if visits.len() == 0 {
        0
    } else {
        all_dead(visits.drop_last(), n) + times(visits.last().dead, n)
    }
}

/// Copies that are left behind in buckets are counted in their slots, and nothing else changes.
pub(crate) proof fn lemma_buried(m: Map<Share, Occupancy>, table: u64, visits: Seq<Visit>, other: u64, n: u8)
    requires
        buriable(m, table, visits),
    ensures
        ({
            let after = count_at(buried(m, table, visits), other, n);
            let before = count_at(m, other, n);
            &&& after.entities == before.entities
            &&& after.dead == before.dead + if other == table {
                all_dead(visits, n)
            } else {
                0
            }
        }),
    decreases visits.len(),
{
    if visits.len() > 0 {
        let front = visits.drop_last();
        lemma_buried(m, table, front, other, n);
        lemma_died(buried(m, table, front), table, visits.last().dead, other, n);
    }
}

// ---- Sums over slots ----

spec fn leading_sum(slots: Seq<Option<u8>>, entries: Seq<(u64, Option<Value>)>, k: nat) -> nat
    decreases k,
{
    if k == 0 {
        0
    } else {
        leading_sum(slots, entries, (k - 1) as nat) + leading_to(slots, entries, (k - 1) as u8)
    }
}

spec fn times_sum(dead: Seq<u8>, k: nat) -> nat
    decreases k,
{
    if k == 0 {
        0
    } else {
        times_sum(dead, (k - 1) as nat) + times(dead, (k - 1) as u8)
    }
}

proof fn lemma_leading_step(slots: Seq<Option<u8>>, entries: Seq<(u64, Option<Value>)>, k: nat)
    requires
        entries.len() > 0,
        k <= 256,
    ensures
        leading_sum(slots, entries, k) == leading_sum(slots, entries.drop_last(), k) + if stays_in(
            slots,
            entries.last(),
        ) matches Some(n) && n < k {
            1nat
        } else {
            0
        },
    decreases k,
{
    if k > 0 {
        lemma_leading_step(slots, entries, (k - 1) as nat);
    }
}

proof fn lemma_leading_none(slots: Seq<Option<u8>>, entries: Seq<(u64, Option<Value>)>, k: nat)
    requires
        entries.len() == 0,
    ensures
        leading_sum(slots, entries, k) == 0,
    decreases k,
{
    if k > 0 {
        lemma_leading_none(slots, entries, (k - 1) as nat);
    }
}

/// Entries that stay are those of all slots.
proof fn lemma_leading_sum(slots: Seq<Option<u8>>, entries: Seq<(u64, Option<Value>)>, k: nat)
    requires
        k <= 256,
        forall|b: u8| (#[trigger] slots[b as int]) is Some ==> slots[b as int].unwrap() < k,
    ensures
        leading_sum(slots, entries, k) == staying(slots, entries),
    decreases entries.len(),
{
    if entries.len() == 0 {
        lemma_leading_none(slots, entries, k);
    } else {
        lemma_leading_sum(slots, entries.drop_last(), k);
        lemma_leading_step(slots, entries, k);
    }
}

proof fn lemma_times_step(dead: Seq<u8>, k: nat)
    requires
        dead.len() > 0,
        k <= 256,
    ensures
        times_sum(dead, k) == times_sum(dead.drop_last(), k) + if dead.last() < k {
            1nat
        } else {
            0
        },
    decreases k,
{
    if k > 0 {
        lemma_times_step(dead, (k - 1) as nat);
    }
}

proof fn lemma_times_none(dead: Seq<u8>, k: nat)
    requires
        dead.len() == 0,
    ensures
        times_sum(dead, k) == 0,
    decreases k,
{
    if k > 0 {
        lemma_times_none(dead, (k - 1) as nat);
    }
}

/// Copies that are left behind are those of all slots.
proof fn lemma_times_sum(dead: Seq<u8>, k: nat)
    requires
        k <= 256,
        forall|i: int| 0 <= i < dead.len() ==> (#[trigger] dead[i]) < k,
    ensures
        times_sum(dead, k) == dead.len(),
    decreases dead.len(),
{
    if dead.len() == 0 {
        lemma_times_none(dead, k);
    } else {
        let front = dead.drop_last();
        assert forall|i: int| 0 <= i < front.len() implies (#[trigger] front[i]) < k by {
            assert(front[i] == dead[i]);
        }
        lemma_times_sum(front, k);
        lemma_times_step(dead, k);
        assert(dead[dead.len() - 1] < k);
    }
}

/// A copy is left behind in a slot of a generation that stays.
pub(crate) proof fn lemma_dead_slots(
    c: Copying,
    slots: Seq<Option<u8>>,
    s: StateV,
    files: Files,
    quotas: Seq<u64>,
    entries: Seq<(u64, Option<Value>)>,
    k: nat,
)
    requires
        work_all(c, slots, s, files, quotas, entries) is Ok,
        forall|b: u8| (#[trigger] slots[b as int]) is Some ==> slots[b as int].unwrap() < k,
    ensures
        ({
            let dead = work_all(c, slots, s, files, quotas, entries)->Ok_0.dead;
            forall|i: int| 0 <= i < dead.len() ==> (#[trigger] dead[i]) < k
        }),
    decreases entries.len(),
{
    if entries.len() > 0 {
        reveal(work_for);
        let front = entries.drop_last();
        lemma_dead_slots(c, slots, s, files, quotas, front, k);
        let before = work_all(c, slots, s, files, quotas, front)->Ok_0.dead;
        let dead = work_all(c, slots, s, files, quotas, entries)->Ok_0.dead;
        assert forall|i: int| 0 <= i < dead.len() implies (#[trigger] dead[i]) < k by {
            if i < before.len() {
                assert(dead[i] == before[i]);
            }
        }
    }
}

proof fn lemma_whole_stays(slots: Seq<Option<u8>>, entries: Seq<(u64, Option<Value>)>)
    requires
        forall|i: int|
            0 <= i < entries.len() ==> stays_in(slots, #[trigger] entries[i]) is Some,
    ensures
        staying(slots, entries) == entries.len(),
    decreases entries.len(),
{
    if entries.len() > 0 {
        let front = entries.drop_last();
        assert forall|i: int| 0 <= i < front.len() implies stays_in(
            slots,
            #[trigger] front[i],
        ) is Some by {
            assert(front[i] == entries[i]);
        }
        lemma_whole_stays(slots, front);
        assert(stays_in(slots, entries[entries.len() - 1]) is Some);
    }
}

/// Entries that stay and are left alone, with those written anew, are the entities of a bucket.
proof fn lemma_visit(c: Copying, slots: Seq<Option<u8>>, s: StateV, files: Files, v: Visit, k: nat)
    requires
        k <= 256,
        forall|b: u8| (#[trigger] slots[b as int]) is Some ==> slots[b as int].unwrap() < k,
        left_alone(slots, v) || worked_on(c, slots, s, files, v),
    ensures
        leading_sum(slots, v.entries, k) - times_sum(v.dead, k) + writes(v.works)
            == v.entries.len(),
{
    lemma_leading_sum(slots, v.entries, k);
    if left_alone(slots, v) {
        lemma_whole_stays(slots, v.entries);
        lemma_times_none(v.dead, k);
    } else {
        let quotas = choose|quotas: Seq<u64>|
            (#[trigger] work_all(c, slots, s, files, quotas, v.entries)) is Ok && work_all(
                c,
                slots,
                s,
                files,
                quotas,
                v.entries,
            )->Ok_0.works == v.works && work_all(c, slots, s, files, quotas, v.entries)->Ok_0.dead
                == v.dead;
        lemma_counts_add_up(c, slots, s, files, quotas, v.entries);
        lemma_dead_slots(c, slots, s, files, quotas, v.entries, k);
        lemma_times_sum(v.dead, k);
    }
}

spec fn left_sum(slots: Seq<Option<u8>>, visits: Seq<Visit>, k: nat) -> int
    decreases k,
{
    if k == 0 {
        0
    } else {
        left_sum(slots, visits, (k - 1) as nat) + all_leading(slots, visits, (k - 1) as u8)
            - all_dead(visits, (k - 1) as u8)
    }
}

proof fn lemma_left_step(slots: Seq<Option<u8>>, visits: Seq<Visit>, k: nat)
    requires
        visits.len() > 0,
    ensures
        left_sum(slots, visits, k) == left_sum(slots, visits.drop_last(), k) + leading_sum(
            slots,
            visits.last().entries,
            k,
        ) - times_sum(visits.last().dead, k),
    decreases k,
{
    if k > 0 {
        lemma_left_step(slots, visits, (k - 1) as nat);
    }
}

proof fn lemma_left_none(slots: Seq<Option<u8>>, visits: Seq<Visit>, k: nat)
    requires
        visits.len() == 0,
    ensures
        left_sum(slots, visits, k) == 0,
    decreases k,
{
    if k > 0 {
        lemma_left_none(slots, visits, (k - 1) as nat);
    }
}

proof fn lemma_left_sum(
    c: Copying,
    slots: Seq<Option<u8>>,
    s: StateV,
    files: Files,
    visits: Seq<Visit>,
    k: nat,
)
    requires
        k <= 256,
        forall|b: u8| (#[trigger] slots[b as int]) is Some ==> slots[b as int].unwrap() < k,
        forall|i: int|
            0 <= i < visits.len() ==> left_alone(slots, #[trigger] visits[i]) || worked_on(
                c,
                slots,
                s,
                files,
                visits[i],
            ),
    ensures
        left_sum(slots, visits, k) + all_writes(visits) == all_entries(visits),
    decreases visits.len(),
{
    if visits.len() == 0 {
        lemma_left_none(slots, visits, k);
    } else {
        let front = visits.drop_last();
        assert forall|i: int| 0 <= i < front.len() implies left_alone(slots, #[trigger] front[i])
            || worked_on(c, slots, s, files, front[i]) by {
            assert(front[i] == visits[i]);
        }
        lemma_left_sum(c, slots, s, files, front, k);
        lemma_left_step(slots, visits, k);
        assert(visits[visits.len() - 1] == visits.last());
        lemma_visit(c, slots, s, files, visits.last(), k);
    }
}

// ---- The counts of a manifest ----

/// Whether the counts with which a checkpoint begins are those of the entries of its manifest:
/// in each slot as many are live as entries lead there.
pub open spec fn census(
    m: Map<Share, Occupancy>,
    table: u64,
    slots: Seq<Option<u8>>,
    visits: Seq<Visit>,
    k: nat,
) -> bool {
    forall|n: u8| n < k ==> #[trigger] live_at(m, table, n) == all_leading(slots, visits, n)
}

proof fn lemma_live(
    m: Map<Share, Occupancy>,
    after: Map<Share, Occupancy>,
    table: u64,
    slots: Seq<Option<u8>>,
    visits: Seq<Visit>,
    k: nat,
    n: nat,
)
    requires
        n <= k <= 255,
        census(m, table, slots, visits, k),
        forall|i: u8|
            i < k ==> #[trigger] live_at(after, table, i) == live_at(m, table, i) - all_dead(
                visits,
                i,
            ),
    ensures
        live_in(after, table, n) == left_sum(slots, visits, n),
    decreases n,
{
    if n > 0 {
        lemma_live(m, after, table, slots, visits, k, (n - 1) as nat);
        let i = (n - 1) as u8;
        assert(live_at(after, table, i) == live_at(m, table, i) - all_dead(visits, i));
    }
}

/// The live counts of a manifest are its entities: where the counts that a checkpoint begins
/// with are right, then, with the buckets of a table done and its new files taken up, a
/// generation that stays counts as many entities as before, and as dead those that left it, so
/// that those are live that stayed; the new generation counts those written anew, and none dead; and over all generations as many
/// are live as the buckets have entities, deleted ones among them. Other tables keep their
/// counts.
pub proof fn lemma_live_counts(
    c: Copying,
    slots: Seq<Option<u8>>,
    s: StateV,
    files: Files,
    m: Map<Share, Occupancy>,
    visits: Seq<Visit>,
    k: u8,
    written: u64,
)
    requires
        forall|b: u8| (#[trigger] slots[b as int]) is Some ==> slots[b as int].unwrap() < k,
        forall|i: int|
            0 <= i < visits.len() ==> left_alone(slots, #[trigger] visits[i]) || worked_on(
                c,
                slots,
                s,
                files,
                visits[i],
            ),
        census(m, c.table, slots, visits, k as nat),
        !m.contains_key(Share { table: c.table, slot: k }),
        buriable(m, c.table, visits),
        written == all_writes(visits),
    ensures
        ({
            let after = settled(
                buried(m, c.table, visits),
                Share { table: c.table, slot: k },
                written,
            );
            &&& forall|n: u8|
                n < k ==> {
                    &&& (#[trigger] count_at(after, c.table, n)).entities == count_at(
                        m,
                        c.table,
                        n,
                    ).entities
                    &&& count_at(after, c.table, n).dead == count_at(m, c.table, n).dead + all_dead(
                        visits,
                        n,
                    )
                }
            &&& forall|n: u8|
                n < k ==> #[trigger] live_at(after, c.table, n) == all_carried(slots, visits, n)
            &&& count_at(after, c.table, k) == (Occupancy { entities: written, dead: 0 })
            &&& live_in(after, c.table, (k + 1) as nat) == all_entries(visits)
            &&& forall|other: u64, n: u8|
                other != c.table ==> #[trigger] count_at(after, other, n) == count_at(m, other, n)
        }),
{
    let table = c.table;
    let at = Share { table, slot: k };
    let mid = buried(m, table, visits);
    let after = settled(mid, at, written);
    assert forall|n: u8| n < k implies (#[trigger] count_at(after, table, n)).entities == count_at(
        m,
        table,
        n,
    ).entities && count_at(after, table, n).dead == count_at(m, table, n).dead + all_dead(
        visits,
        n,
    ) by {
        lemma_buried(m, table, visits, table, n);
    }
    lemma_new_slot(c, slots, s, files, visits, k);
    lemma_buried(m, table, visits, table, k);
    assert(count_at(after, table, k) == (Occupancy { entities: written, dead: 0 }));
    assert forall|i: u8| i < k implies #[trigger] live_at(after, table, i) == live_at(m, table, i)
        - all_dead(visits, i) by {
        assert(count_at(after, table, i).entities == count_at(m, table, i).entities);
    }
    assert forall|n: u8| n < k implies #[trigger] live_at(after, table, n) == all_carried(
        slots,
        visits,
        n,
    ) by {
        lemma_carried(c, slots, s, files, visits, n);
        assert(live_at(m, table, n) == all_leading(slots, visits, n));
    }
    lemma_live(m, after, table, slots, visits, k as nat, k as nat);
    lemma_left_sum(c, slots, s, files, visits, k as nat);
    assert(live_in(after, table, (k + 1) as nat) == live_in(after, table, k as nat) + live_at(
        after,
        table,
        k,
    ));
    assert forall|other: u64, n: u8| other != table implies #[trigger] count_at(after, other, n)
        == count_at(m, other, n) by {
        lemma_buried(m, table, visits, other, n);
    }
}

/// Of the entries that lead into a slot, each stays there or leaves a copy behind.
proof fn lemma_carried(
    c: Copying,
    slots: Seq<Option<u8>>,
    s: StateV,
    files: Files,
    visits: Seq<Visit>,
    n: u8,
)
    requires
        forall|i: int|
            0 <= i < visits.len() ==> left_alone(slots, #[trigger] visits[i]) || worked_on(
                c,
                slots,
                s,
                files,
                visits[i],
            ),
    ensures
        all_leading(slots, visits, n) == all_carried(slots, visits, n) + all_dead(visits, n),
    decreases visits.len(),
{
    if visits.len() > 0 {
        let front = visits.drop_last();
        assert forall|i: int| 0 <= i < front.len() implies left_alone(slots, #[trigger] front[i])
            || worked_on(c, slots, s, files, front[i]) by {
            assert(front[i] == visits[i]);
        }
        lemma_carried(c, slots, s, files, front, n);
        let v = visits.last();
        assert(visits[visits.len() - 1] == v);
        if !left_alone(slots, v) {
            let quotas = choose|quotas: Seq<u64>|
                (#[trigger] work_all(c, slots, s, files, quotas, v.entries)) is Ok && work_all(
                    c,
                    slots,
                    s,
                    files,
                    quotas,
                    v.entries,
                )->Ok_0.works == v.works && work_all(
                    c,
                    slots,
                    s,
                    files,
                    quotas,
                    v.entries,
                )->Ok_0.dead == v.dead;
            lemma_slot_adds_up(c, slots, s, files, quotas, v.entries, n);
        }
    }
}

proof fn lemma_times_absent(dead: Seq<u8>, k: u8)
    requires
        forall|i: int| 0 <= i < dead.len() ==> (#[trigger] dead[i]) < k,
    ensures
        times(dead, k) == 0,
    decreases dead.len(),
{
    if dead.len() > 0 {
        let front = dead.drop_last();
        assert forall|i: int| 0 <= i < front.len() implies (#[trigger] front[i]) < k by {
            assert(front[i] == dead[i]);
        }
        lemma_times_absent(front, k);
        assert(dead[dead.len() - 1] < k);
    }
}

/// No copy is left behind in the new generation.
proof fn lemma_new_slot(
    c: Copying,
    slots: Seq<Option<u8>>,
    s: StateV,
    files: Files,
    visits: Seq<Visit>,
    k: u8,
)
    requires
        forall|b: u8| (#[trigger] slots[b as int]) is Some ==> slots[b as int].unwrap() < k,
        forall|i: int|
            0 <= i < visits.len() ==> left_alone(slots, #[trigger] visits[i]) || worked_on(
                c,
                slots,
                s,
                files,
                visits[i],
            ),
    ensures
        all_dead(visits, k) == 0,
    decreases visits.len(),
{
    if visits.len() > 0 {
        let front = visits.drop_last();
        assert forall|i: int| 0 <= i < front.len() implies left_alone(slots, #[trigger] front[i])
            || worked_on(c, slots, s, files, front[i]) by {
            assert(front[i] == visits[i]);
        }
        lemma_new_slot(c, slots, s, files, front, k);
        let v = visits.last();
        assert(visits[visits.len() - 1] == v);
        if !left_alone(slots, v) {
            let quotas = choose|quotas: Seq<u64>|
                (#[trigger] work_all(c, slots, s, files, quotas, v.entries)) is Ok && work_all(
                    c,
                    slots,
                    s,
                    files,
                    quotas,
                    v.entries,
                )->Ok_0.works == v.works && work_all(
                    c,
                    slots,
                    s,
                    files,
                    quotas,
                    v.entries,
                )->Ok_0.dead == v.dead;
            lemma_dead_slots(c, slots, s, files, quotas, v.entries, k as nat);
        }
        lemma_times_absent(v.dead, k);
    }
}

} // verus!
