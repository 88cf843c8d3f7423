//! Binding staged entities to a newer checkpoint: it changes where their history is read from,
//! and nothing that is read.

use crate::commit::rebound;
use crate::consistency::consistent;
use crate::consistency::lemma_folded_later;
use crate::entity::committed_between;
use crate::entity::data_at;
use crate::entity::folded;
use crate::entity::from_disk;
use crate::entity::lemma_between_split;
use crate::entity::lemma_folded;
use crate::entity::lemma_here;
use crate::entity::lemma_rebased_between;
use crate::entity::orderly;
use crate::entity::rebased;
use crate::entity::DataV;
use crate::error::Fault;
use crate::installing::lemma_stored_fold;
use crate::installing::lemma_version_is_fold;
use crate::installing::stored_events;
use crate::model::EventV;
use crate::model::TableV;
use crate::reader::disk_events;
use crate::reader::memory_from;
use crate::reader::remembered;
use crate::reader::retained_events;
use crate::storage::pager::Files;
use crate::timelines::lemma_stored_count;
use crate::timelines::lemma_stored_window;
use crate::versions::lemma_all_committed;
use crate::versions::lemma_between_bounds;
use crate::versions::lemma_every_version;
use crate::versions::lemma_history;
use crate::versions::lemma_memory_fold;
use vstd::prelude::*;

verus! {

/// Whether a staged entity continues one that a checkpoint holds: the checkpoint has its base and
/// the events behind it up to a version, and what is staged comes behind that version.
pub open spec fn continues(d: DataV, p: DataV, files: Files, table: TableV) -> bool {
    let through = p.current.version;
    &&& p.disk matches Some(disk) && disk.through == through
    &&& p.base.id == d.base.id
    &&& p.base.version <= d.base.version
    &&& through <= d.current.version
    &&& d.disk matches Some(disk) ==> disk.through <= through
    &&& forall|i: int| 0 <= i < d.events.len() ==> through < (#[trigger] d.events[i]).version
    &&& d.base.version <= through ==> data_at(p, files, table, d.base.version, false) == Ok::<
        _,
        Fault,
    >(d.base)
    &&& forall|k: int|
        0 <= k < through - d.base.version ==> (#[trigger] retained_events(d, files)->Ok_0[k])
            == retained_events(p, files)->Ok_0[k + d.base.version - p.base.version]
}

proof fn lemma_rebound_orderly(d: DataV, p: DataV)
    requires
        orderly(d),
    ensures
        orderly(rebound(d, p)),
        forall|low: u64, high: u64|
            p.current.version <= low ==> #[trigger] committed_between(
                rebound(d, p).committed,
                low,
                high,
            ) == committed_between(d.committed, low, high),
{
    let n = rebound(d, p);
    let m = rebased(d, p.current);
    assert(n.committed =~= m.committed);
    assert(n.committed.dom() =~= d.committed.dom().intersect(
        Set::new(|v: u64| v > p.current.version),
    ));
    assert forall|low: u64, high: u64|
        p.current.version <= low implies #[trigger] committed_between(n.committed, low, high)
        == committed_between(d.committed, low, high) by {
        lemma_rebased_between(d, p.current, low, high);
    }
}

/// The history of an entity in front of a version, and that behind it in memory.
proof fn lemma_parted(d: DataV, files: Files, table: TableV, through: u64)
    requires
        consistent(d, files, table),
        d.base.version < through <= d.current.version,
        d.disk matches Some(disk) ==> disk.through <= through,
        forall|i: int| 0 <= i < d.events.len() ==> through < (#[trigger] d.events[i]).version,
    ensures
        retained_events(d, files) is Ok,
        retained_events(d, files)->Ok_0.skip(through - d.base.version) == committed_between(
            d.committed,
            through,
            u64::MAX,
        ) + d.events,
{
    let low = d.base.version;
    let from = memory_from(d);
    let all = retained_events(d, files)->Ok_0;
    lemma_history(d, files, table);
    lemma_stored_count(d, files, table);
    lemma_between_split(d.committed, from, through, u64::MAX);
    let stored = disk_events(d, files)->Ok_0;
    let near = committed_between(d.committed, from, through);
    let c = committed_between(d.committed, through, u64::MAX);
    let a = stored + near;
    let b = c + d.events;
    assert(all =~= a + b);
    lemma_between_bounds(d.committed, from, through);
    lemma_between_bounds(d.committed, through, u64::MAX);
    if a.len() > 0 {
        let k = a.len() - 1;
        assert(all[k] == a[k]);
        if near.len() > 0 {
            assert(a[k] == near[near.len() - 1]);
        } else {
            assert(a[k] == stored[k]);
        }
    }
    if b.len() > 0 {
        assert(all[a.len() as int] == b[0]);
        if c.len() > 0 {
            assert(b[0] == c[0]);
        } else {
            assert(b[0] == d.events[0]);
        }
    }
    assert(a.len() == through - low);
    assert(all.skip(through - low) =~= b);
}

/// What a checkpoint holds of an entity leads from the base of its continuation on.
proof fn lemma_stored_from(d: DataV, p: DataV, files: Files, table: TableV, evs: Seq<EventV>)
    requires
        consistent(p, files, table),
        continues(d, p, files, table),
        d.base.version < p.current.version,
        evs == retained_events(p, files)->Ok_0.skip(d.base.version - p.base.version),
    ensures
        stored_events(rebound(d, p), files, evs),
        folded(
            d.base,
            evs,
            p.disk.unwrap().root.catalog[p.disk.unwrap().table],
        ) is Ok,
{
    let disk = p.disk.unwrap();
    let told = disk.root.catalog[disk.table];
    let (low, first, through) = (d.base.version, p.base.version, p.current.version);
    let all = retained_events(p, files)->Ok_0;
    lemma_history(p, files, table);
    lemma_stored_count(p, files, table);
    let stored = disk_events(p, files)->Ok_0;
    assert(remembered(p).len() == 0);
    assert(all =~= stored);
    lemma_stored_window(p, files, table, (low + 1) as u64, through);
    assert(all.subrange(low - first, through - first) =~= evs);
    assert forall|i: int| 0 <= i < evs.len() implies (#[trigger] evs[i]).version == low + i + 1 by {
        assert(evs[i] == all[i + low - first]);
    }
    assert(stored_events(p, files, stored));
    lemma_stored_fold(p, files, stored, through);
    lemma_stored_fold(p, files, stored, low);
    lemma_every_version(p, files, table, through);
    lemma_every_version(p, files, table, low);
    assert(stored.take(through - first) =~= stored);
    let front = stored.take(low - first);
    assert(stored =~= front + evs);
    lemma_folded(p.base, front, evs, told);
    let x = folded(p.base, front, told)->Ok_0;
    lemma_here(p, x, table);
}

/// Binding a staged entity to a newer checkpoint that it continues changes nothing that is read
/// of it: its current state and its base stay, every version gives the state that it gave, the
/// retained events are the same, and it is still consistent.
pub proof fn lemma_rebound(d: DataV, p: DataV, files: Files, table: TableV)
    requires
        consistent(d, files, table),
        consistent(p, files, table),
        continues(d, p, files, table),
    ensures
        ({
            let n = rebound(d, p);
            &&& n.current == d.current && n.base == d.base
            &&& retained_events(n, files) == retained_events(d, files)
            &&& forall|v: u64| #[trigger]
                data_at(n, files, table, v, false) == data_at(d, files, table, v, false)
            &&& consistent(n, files, table)
        }),
{
    let n = rebound(d, p);
    let through = p.current.version;
    lemma_rebound_orderly(d, p);
    lemma_history(d, files, table);
    assert(retained_events(n, files) == retained_events(d, files)) by {
        lemma_rebound_events(d, p, files, table);
    }
    assert forall|v: u64| #[trigger]
        data_at(n, files, table, v, false) == data_at(d, files, table, v, false) by {
        if d.base.version <= v <= d.current.version {
            lemma_rebound_at(d, p, files, table, v);
        }
    }
    assert(data_at(n, files, table, n.current.version, false) == data_at(
        d,
        files,
        table,
        d.current.version,
        false,
    ));
}

proof fn lemma_rebound_events(d: DataV, p: DataV, files: Files, table: TableV)
    requires
        consistent(d, files, table),
        consistent(p, files, table),
        continues(d, p, files, table),
    ensures
        retained_events(rebound(d, p), files) == retained_events(d, files),
{
    let n = rebound(d, p);
    let (low, through) = (d.base.version, p.current.version);
    lemma_rebound_orderly(d, p);
    lemma_history(d, files, table);
    lemma_history(p, files, table);
    let all = retained_events(d, files)->Ok_0;
    if low < through {
        let evs = retained_events(p, files)->Ok_0.skip(low - p.base.version);
        lemma_stored_from(d, p, files, table, evs);
        lemma_parted(d, files, table, through);
        assert(evs =~= all.take(through - low));
        let c = committed_between(n.committed, through, u64::MAX);
        assert(c == committed_between(d.committed, through, u64::MAX));
        assert(all =~= all.take(through - low) + all.skip(through - low));
        assert(evs + c + d.events =~= evs + (c + d.events));
    } else {
        assert(disk_events(n, files) == disk_events(d, files));
        assert(committed_between(n.committed, low, u64::MAX) == committed_between(
            d.committed,
            low,
            u64::MAX,
        ));
    }
}

proof fn lemma_rebound_at(d: DataV, p: DataV, files: Files, table: TableV, v: u64)
    requires
        consistent(d, files, table),
        consistent(p, files, table),
        continues(d, p, files, table),
        d.base.version <= v <= d.current.version,
    ensures
        data_at(rebound(d, p), files, table, v, false) == data_at(d, files, table, v, false),
{
    let n = rebound(d, p);
    let (low, through) = (d.base.version, p.current.version);
    lemma_rebound_orderly(d, p);
    lemma_history(d, files, table);
    lemma_history(p, files, table);
    let all = retained_events(d, files)->Ok_0;
    if low < through {
        let disk = p.disk.unwrap();
        let told = disk.root.catalog[disk.table];
        let evs = retained_events(p, files)->Ok_0.skip(low - p.base.version);
        lemma_stored_from(d, p, files, table, evs);
        lemma_parted(d, files, table, through);
        assert(evs =~= all.take(through - low));
        lemma_version_is_fold(d, files, table, v);
        if v <= through {
            let part = evs.take(v - low);
            assert(all.take(v - low) =~= part);
            assert(evs =~= part + evs.skip(v - low));
            lemma_folded(d.base, part, evs.skip(v - low), told);
            lemma_folded_later(d.base, part, told, table);
            lemma_stored_fold(n, files, evs, v);
            let s = from_disk(n, files, n.base, v, false)->Ok_0;
            lemma_here(n, s, table);
        } else {
            let c = committed_between(n.committed, through, u64::MAX);
            assert(c == committed_between(d.committed, through, u64::MAX));
            lemma_folded_later(d.base, evs, told, table);
            lemma_stored_fold(n, files, evs, through);
            assert(evs.take(through - low) =~= evs);
            let s = folded(d.base, evs, table)->Ok_0;
            lemma_version_is_fold(d, files, table, d.current.version);
            assert(all.take(d.current.version - low) =~= evs + (c + d.events));
            lemma_folded(d.base, evs, c + d.events, table);
            lemma_folded(s, c, d.events, table);
            let t = folded(s, c, table)->Ok_0;
            lemma_all_committed(n, through);
            lemma_memory_fold(n, s, t, table, v);
            let x = (c + d.events).take(v - through);
            assert(all.take(v - low) =~= evs + x);
            lemma_folded(d.base, evs, x, table);
            assert(from_disk(n, files, n.base, v, false) == Ok::<_, Fault>(s));
        }
    } else {
        assert(committed_between(n.committed, low, v) == committed_between(d.committed, low, v));
        assert(from_disk(n, files, d.base, v, false) == Ok::<_, Fault>(d.base));
        assert(from_disk(d, files, d.base, v, false) == Ok::<_, Fault>(d.base));
    }
}

} // verus!
