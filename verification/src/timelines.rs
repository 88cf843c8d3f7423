//! Histories as they are read: what the states of an entity have to do with its events, which
//! events a range of versions gives, and what a cursor hands out.


use crate::consistency::consistent;
use crate::consistency::indexed;
use crate::cursor::Batched;
use crate::cursor::Bounds;
use crate::cursor::Collected;
use crate::cursor::HistoryBatch;
use crate::cursor::HistoryCursor;
use crate::cursor::HistoryOptions;
use crate::cursor::batch_failed;
use crate::cursor::batch_from;
use crate::cursor::batch_polled;
use crate::cursor::batched;
use crate::cursor::collected;
use crate::cursor::collected_to;
use crate::cursor::collection;
use crate::cursor::dense;
use crate::cursor::lemma_batches;
use crate::cursor::lemma_successive;
use crate::cursor::lemma_undamaged;
use crate::cursor::missing;
use crate::cursor::next_bounds;
use crate::cursor::next_in;
use crate::cursor::range_collected;
use crate::cursor::range_of;
use crate::cursor::reach_of;
use crate::cursor::reads;
use crate::cursor::rest;
use crate::cursor::room_of;
use crate::cursor::slots_size;
use crate::cursor::summed;
use crate::cursor::weighed;
use crate::cursor::whole_reach;
use crate::entity::DataV;
use crate::entity::committed_between;
use crate::entity::data_at;
use crate::entity::folded;
use crate::entity::lemma_folded;
use crate::error::Fault;
use crate::error::Result;
use crate::installing::lemma_gathered_versions;
use crate::installing::lemma_version_is_fold;
use crate::model::Event;
use crate::model::EventV;
use crate::model::TableV;
use crate::model::events_view;
use crate::partitions::index_scan;
use crate::reader::StateV;
use crate::reader::disk_events;
use crate::reader::in_range;
use crate::reader::loaded_data;
use crate::reader::memory_from;
use crate::reader::ranged;
use crate::reader::remembered;
use crate::reader::retained_events;
use crate::reader::state_range;
use crate::reader::stored_through;
use crate::reading::Ending;
use crate::reading::Room;
use crate::reading::Run;
use crate::reading::gathered;
use crate::reading::indexed_event;
use crate::reading::pulled;
use crate::reading::record_limit;
use crate::resources::Limits;
use crate::resources::Resources;
use crate::storage::index::Entry;
use crate::storage::index::Stream;
use crate::storage::index_writer::between;
use crate::storage::pager::Files;
use crate::storage::pager::Loaded;
use crate::versions::lemma_between_bounds;
use crate::versions::lemma_every_version;
use crate::versions::lemma_gathered_both;
use crate::versions::lemma_history;
use vstd::prelude::*;

verus! {

// ---- States and events ----

/// The states of an entity are one for each version from the base on, and between two of them
/// stands the event of the later version: what it assigns is what changes. An entity that is
/// deleted was so by its last event.
pub proof fn lemma_timeline(d: DataV, files: Files, table: TableV, version: u64)
    requires
        consistent(d, files, table),
        d.base.version <= version < d.current.version,
    ensures
        ({
            let before = data_at(d, files, table, version, false);
            let after = data_at(d, files, table, (version + 1) as u64, false);
            let (a, b) = (before->Ok_0, after->Ok_0);
            let event = retained_events(d, files)->Ok_0[version - d.base.version];
            &&& before is Ok && after is Ok
            &&& a.version == version && b.version == version + 1
            &&& a.id == d.current.id && b.id == d.current.id
            &&& event.version == version + 1
            &&& !a.deleted
            &&& b.deleted == (event.kind is Delete)
            &&& b.schema_version == event.schema_version
            &&& forall|k: u32| #[trigger]
                event.fields.contains_key(k) ==> b.fields.contains_key(k) && b.fields[k]
                    == event.fields[k]
            &&& forall|k: u32| #[trigger]
                a.fields.contains_key(k) && !event.fields.contains_key(k)
                    ==> b.fields.contains_key(k) && b.fields[k] == a.fields[k]
            &&& forall|k: u32| #[trigger]
                b.fields.contains_key(k) && !event.fields.contains_key(k)
                    && !a.fields.contains_key(k) ==> b.fields[k] is Null
        }),
        data_at(d, files, table, d.base.version, false) == Ok::<_, Fault>(d.base),
        data_at(d, files, table, d.current.version, false) == Ok::<_, Fault>(d.current),
{
    let next = (version + 1) as u64;
    let all = retained_events(d, files)->Ok_0;
    let n = version - d.base.version;
    lemma_history(d, files, table);
    lemma_every_version(d, files, table, version);
    lemma_every_version(d, files, table, next);
    lemma_version_is_fold(d, files, table, version);
    lemma_version_is_fold(d, files, table, next);
    lemma_version_is_fold(d, files, table, d.base.version);
    assert(all.take(0) =~= Seq::empty());
    assert(all.take(n + 1) =~= all.take(n) + seq![all[n]]);
    lemma_folded(d.base, all.take(n), seq![all[n]], table);
    let a = data_at(d, files, table, version, false)->Ok_0;
    assert(seq![all[n]].skip(1) =~= Seq::empty());
    reveal_with_fuel(folded, 3);
    crate::behaviour::lemma_event_assigns(a, all[n], table);
}

// ---- Ranges ----

proof fn lemma_filter_window<T>(s: Seq<T>, p: spec_fn(T) -> bool, low: int, high: int)
    requires
        0 <= low <= high <= s.len(),
        forall|i: int| 0 <= i < s.len() ==> p(#[trigger] s[i]) == (low <= i < high),
    ensures
        s.filter(p) == s.subrange(low, high),
    decreases s.len(),
{
    reveal(Seq::filter);
    if s.len() > 0 {
        let front = s.drop_last();
        assert forall|i: int| 0 <= i < front.len() implies p(#[trigger] front[i]) == (low <= i
            < high) by {
            assert(front[i] == s[i]);
        }
        let n = s.len() as int;
        assert(p(s[n - 1]) == (low <= n - 1 < high));
        if high == n {
            if low == n {
                lemma_filter_window(front, p, n - 1, n - 1);
            } else {
                lemma_filter_window(front, p, low, n - 1);
                assert(s.subrange(low, n) =~= front.subrange(low, n - 1).push(s.last()));
            }
        } else {
            lemma_filter_window(front, p, low, high);
        }
        assert(s.filter(p) =~= s.subrange(low, high));
    } else {
        assert(s.filter(p) =~= s.subrange(low, high));
    }
}

proof fn lemma_filter_twice<T>(s: Seq<T>, p: spec_fn(T) -> bool, q: spec_fn(T) -> bool)
    requires
        forall|x: T| #[trigger] q(x) ==> p(x),
    ensures
        s.filter(p).filter(q) == s.filter(q),
    decreases s.len(),
{
    reveal(Seq::filter);
    if s.len() > 0 {
        let front = s.drop_last();
        lemma_filter_twice(front, p, q);
        if p(s.last()) {
            let f = front.filter(p);
            assert(s.filter(p) == f.push(s.last()));
            assert(f.push(s.last()).drop_last() =~= f);
        }
    }
}

/// Reading entries within limits gives the events of the first of them, all unless a limit
/// strikes.
proof fn lemma_pulled(r: crate::snapshot::RootV, files: Files, table: u64, id: u64, items: Seq<Entry>, room: Room)
    requires
        gathered(r, files, table, id, Stream { items, sound: true }) is Ok,
    ensures
        ({
            let run = pulled(r, files, table, id, Stream { items, sound: true }, room);
            let all = gathered(r, files, table, id, Stream { items, sound: true })->Ok_0;
            &&& run.events.len() <= all.len()
            &&& run.events == all.take(run.events.len() as int)
            &&& run.ending is Done ==> run.events == all
            &&& !(run.ending is Damaged)
        }),
    decreases items.len(),
{
    let run = pulled(r, files, table, id, Stream { items, sound: true }, room);
    let all = gathered(r, files, table, id, Stream { items, sound: true })->Ok_0;
    if items.len() > 0 {
        let event = indexed_event(r, files, table, id, items[0]).unwrap();
        lemma_pulled(r, files, table, id, items.skip(1), room);
        let more = pulled(r, files, table, id, Stream { items: items.skip(1), sound: true }, room);
        let tail = gathered(r, files, table, id, Stream { items: items.skip(1), sound: true })->Ok_0;
        assert(all == seq![event] + tail);
        if run.events.len() > 0 {
            assert(run.events =~= all.take(run.events.len() as int));
        } else {
            assert(run.events =~= all.take(0));
        }
    } else {
        assert(run.events =~= all.take(0));
    }
}

/// Entries in a row lead to the events of these.
proof fn lemma_gathered_window(
    r: crate::snapshot::RootV,
    files: Files,
    table: u64,
    id: u64,
    whole: Seq<Entry>,
    a: int,
    b: int,
)
    requires
        gathered(r, files, table, id, Stream { items: whole, sound: true }) is Ok,
        0 <= a <= b <= whole.len(),
    ensures
        gathered(r, files, table, id, Stream { items: whole.subrange(a, b), sound: true }) == Ok::<
            _,
            Fault,
        >(gathered(r, files, table, id, Stream { items: whole, sound: true })->Ok_0.subrange(a, b)),
        gathered(r, files, table, id, Stream { items: whole, sound: true })->Ok_0.len()
            == whole.len(),
{
    let items = whole.subrange(a, b);
    lemma_gathered_versions(r, files, table, id, whole);
    assert(whole =~= whole.take(a) + whole.skip(a));
    lemma_gathered_both(r, files, table, id, whole.take(a), whole.skip(a));
    assert(whole.skip(a) =~= items + whole.skip(b));
    lemma_gathered_both(r, files, table, id, items, whole.skip(b));
    lemma_gathered_versions(r, files, table, id, whole.take(a));
    lemma_gathered_versions(r, files, table, id, items);
    let all = gathered(r, files, table, id, Stream { items: whole, sound: true })->Ok_0;
    let part = gathered(r, files, table, id, Stream { items, sound: true })->Ok_0;
    assert(part =~= all.subrange(a, b));
}

/// The stored events of a consistent entity that a scan of a range of its versions gives.
pub(crate) proof fn lemma_stored_window(
    d: DataV,
    files: Files,
    table: TableV,
    first: u64,
    high: u64,
)
    requires
        consistent(d, files, table),
        d.disk matches Some(disk) && d.base.version < first <= high <= disk.through,
    ensures
        ({
            let disk = d.disk.unwrap();
            let scan = index_scan(
                disk.root,
                files,
                disk.table,
                4,
                (d.base.id, first),
                (d.base.id, high),
            );
            &&& scan.sound
            &&& gathered(disk.root, files, disk.table, d.base.id, scan) == Ok::<_, Fault>(
                retained_events(d, files)->Ok_0.subrange(
                    first - d.base.version - 1,
                    high - d.base.version,
                ),
            )
        }),
{
    let disk = d.disk.unwrap();
    let (r, t, id, low) = (disk.root, disk.table, d.base.id, d.base.version);
    lemma_history(d, files, table);
    let all = retained_events(d, files)->Ok_0;
    let stored = disk_events(d, files)->Ok_0;
    let es = choose|es: Seq<Entry>| #[trigger] indexed(r, files, t, 4, es);
    let z = between((id, (low + 1) as u64), (id, disk.through));
    let q = between((id, first), (id, high));
    let whole = es.filter(z);
    assert(index_scan(r, files, t, 4, (id, (low + 1) as u64), (id, disk.through)) == (Stream {
        items: whole,
        sound: true,
    }));
    assert(index_scan(r, files, t, 4, (id, first), (id, high)) == (Stream {
        items: es.filter(q),
        sound: true,
    }));
    assert(gathered(r, files, t, id, Stream { items: whole, sound: true }) == Ok::<_, Fault>(
        stored,
    ));
    lemma_gathered_versions(r, files, t, id, whole);
    crate::entity::lemma_filter_member(es, z);
    let (a, b) = (first - low - 1, high - low);
    assert forall|i: int| 0 <= i < whole.len() implies whole[i].0.0 == id && (
    #[trigger] whole[i]).0.1 == low + i + 1 by {
        assert(z(whole[i]));
        assert(all[i] == stored[i]);
    }
    lemma_stored_count(d, files, table);
    assert forall|i: int| 0 <= i < whole.len() implies q(#[trigger] whole[i]) == (a <= i < b) by {
    }
    assert forall|e: Entry| #[trigger] q(e) implies z(e) by {
    }
    lemma_filter_twice(es, z, q);
    lemma_filter_window(whole, q, a, b);
    lemma_gathered_window(r, files, t, id, whole, a, b);
    assert(all.subrange(a, b) =~= stored.subrange(a, b));
}

/// The stored events of a consistent entity, in a range of versions that it holds.
proof fn lemma_stored_range(
    d: DataV,
    files: Files,
    table: TableV,
    first: u64,
    high: u64,
    room: Room,
)
    requires
        consistent(d, files, table),
        d.disk matches Some(disk) && d.base.version < first <= high <= disk.through,
    ensures
        ({
            let disk = d.disk.unwrap();
            let run = pulled(
                disk.root,
                files,
                disk.table,
                d.base.id,
                index_scan(disk.root, files, disk.table, 4, (d.base.id, first), (d.base.id, high)),
                room,
            );
            let want = retained_events(d, files)->Ok_0.subrange(
                first - d.base.version - 1,
                high - d.base.version,
            );
            &&& run.events.len() <= want.len()
            &&& run.events == want.take(run.events.len() as int)
            &&& run.ending is Done ==> run.events == want
            &&& !(run.ending is Damaged)
        }),
{
    let disk = d.disk.unwrap();
    lemma_stored_window(d, files, table, first, high);
    let scan = index_scan(
        disk.root,
        files,
        disk.table,
        4,
        (d.base.id, first),
        (d.base.id, high),
    );
    lemma_pulled(disk.root, files, disk.table, d.base.id, scan.items, room);
}

/// The stored events of a consistent entity reach up to where memory goes on.
pub(crate) proof fn lemma_stored_count(d: DataV, files: Files, table: TableV)
    requires
        consistent(d, files, table),
    ensures
        disk_events(d, files) is Ok,
        disk_events(d, files)->Ok_0.len() == memory_from(d) - d.base.version,
        retained_events(d, files) is Ok,
        retained_events(d, files)->Ok_0 == disk_events(d, files)->Ok_0 + remembered(d),
{
    lemma_history(d, files, table);
    let stored = disk_events(d, files)->Ok_0;
    let all = retained_events(d, files)->Ok_0;
    let c = committed_between(d.committed, memory_from(d), u64::MAX);
    assert(stored + c + d.events =~= stored + (c + d.events));
    if let Some(disk) = d.disk {
        if d.base.version < disk.through {
            let (r, t, id) = (disk.root, disk.table, d.base.id);
            let es = choose|es: Seq<Entry>| #[trigger] indexed(r, files, t, 4, es);
            let z = between((id, (d.base.version + 1) as u64), (id, disk.through));
            let whole = es.filter(z);
            assert(index_scan(r, files, t, 4, (id, (d.base.version + 1) as u64), (id, disk.through))
                == (Stream { items: whole, sound: true }));
            lemma_gathered_versions(r, files, t, id, whole);
            crate::entity::lemma_filter_member(es, z);
            if stored.len() > 0 {
                let n = stored.len() - 1;
                assert(z(whole[n]));
                assert(all[n] == stored[n]);
            }
            lemma_between_bounds(d.committed, memory_from(d), u64::MAX);
            let mem = remembered(d);
            if mem.len() > 0 {
                assert(all[stored.len() as int] == mem[0]);
                if c.len() > 0 {
                    assert(mem[0] == c[0]);
                } else {
                    assert(mem[0] == d.events[0]);
                }
            }
        }
    }
}

/// The events of an entity in memory that lie in a range of its versions.
proof fn lemma_remembered_range(
    d: DataV,
    files: Files,
    table: TableV,
    first: u64,
    last: u64,
    a: int,
    b: int,
)
    requires
        consistent(d, files, table),
        d.base.version < first <= last <= d.current.version,
        a == (if first > memory_from(d) {
            first - memory_from(d) - 1
        } else {
            0
        }),
        b == (if last > memory_from(d) {
            last - memory_from(d)
        } else {
            0
        }),
    ensures
        remembered(d).len() == d.current.version - memory_from(d),
        0 <= a <= b <= remembered(d).len(),
        remembered(d).filter(in_range(first, last)) == remembered(d).subrange(a, b),
{
    lemma_history(d, files, table);
    lemma_stored_count(d, files, table);
    let all = retained_events(d, files)->Ok_0;
    let stored = disk_events(d, files)->Ok_0;
    let mem = remembered(d);
    let p = in_range(first, last);
    assert forall|i: int| 0 <= i < mem.len() implies p(#[trigger] mem[i]) == (a <= i < b) by {
        assert(all[stored.len() + i] == mem[i]);
    }
    lemma_filter_window(mem, p, a, b);
}

/// The events of a range that an entity holds are exactly those with the versions of the range,
/// in order, unless a limit on a record strikes: then they are the first of these.
pub proof fn lemma_range(
    d: DataV,
    files: Files,
    table: TableV,
    first: u64,
    last: u64,
    room: Room,
)
    requires
        consistent(d, files, table),
        d.base.version < first <= last <= d.current.version,
    ensures
        ({
            let run = ranged(d, files, first, last, room);
            let want = retained_events(d, files)->Ok_0.subrange(
                first - d.base.version - 1,
                last - d.base.version,
            );
            &&& run.events.len() <= last - first + 1
            &&& run.events == want.take(run.events.len() as int)
            &&& forall|i: int|
                0 <= i < run.events.len() ==> (#[trigger] run.events[i]).version == first + i
            &&& !(run.ending is Damaged)
            &&& run.ending is Done ==> run.events == want && dense(run, first, last)
        }),
{
    let low = d.base.version;
    lemma_history(d, files, table);
    lemma_stored_count(d, files, table);
    let all = retained_events(d, files)->Ok_0;
    let stored = disk_events(d, files)->Ok_0;
    let want = all.subrange(first - low - 1, last - low);
    let run = ranged(d, files, first, last, room);
    let mem = remembered(d);
    let from = memory_from(d);
    let a: int = if first > from {
        first - from - 1
    } else {
        0
    };
    let b: int = if last > from {
        last - from
    } else {
        0
    };
    lemma_remembered_range(d, files, table, first, last, a, b);
    if let Some(through) = stored_through(d, first, last) {
        lemma_stored_range(d, files, table, first, through, room);
        let front = all.subrange(first - low - 1, through - low);
        if through < last {
            assert(want =~= front + mem.subrange(a, b));
        } else {
            assert(mem.subrange(a, b) =~= Seq::empty());
            assert(want =~= front + mem.subrange(a, b));
        }
        assert(run.events =~= want.take(run.events.len() as int));
        if run.ending is Done {
            assert(run.events =~= want);
        }
    } else {
        assert(mem.subrange(a, b) =~= want);
        assert(run.events =~= want);
        assert(run.events =~= want.take(run.events.len() as int));
    }
    assert forall|i: int| 0 <= i < run.events.len() implies (#[trigger] run.events[i]).version
        == first + i by {
        assert(run.events[i] == want[i]);
        assert(want[i] == all[first - low - 1 + i]);
    }
}

// ---- Batches ----

proof fn lemma_fills_from(
    b: Bounds,
    taken: Seq<EventV>,
    total: nat,
    expected: Option<u64>,
    run: Run,
    sizes: Seq<usize>,
)
    requires
        taken.len() == 0 || taken.len() < b.max_events,
        total <= b.max_bytes,
        sizes.len() == run.events.len(),
        batched(b, taken, total, expected, run, sizes) is Taken,
    ensures
        ({
            let x = batched(b, taken, total, expected, run, sizes);
            let (t, bytes) = (x->Taken_0, x->Taken_1);
            let k = t.len() - taken.len();
            &&& 0 <= k <= run.events.len()
            &&& t.len() <= 1 || t.len() <= b.max_events
            &&& bytes <= b.max_bytes
            &&& bytes == total + summed(sizes.take(k), b.slot_bytes)
            &&& k < run.events.len() && t.len() < b.max_events ==> bytes + sizes[k] + b.slot_bytes
                > b.max_bytes
        }),
    decreases run.events.len(),
{
    let x = batched(b, taken, total, expected, run, sizes);
    assert(sizes.take(0) =~= Seq::empty());
    if run.events.len() > 0 {
        let e = run.events[0];
        let size = sizes[0] as nat + b.slot_bytes as nat;
        assert(sizes.take(1) =~= seq![sizes[0]]);
        assert(seq![sizes[0]].drop_last() =~= Seq::empty());
        reveal_with_fuel(summed, 2);
        if total + size <= b.max_bytes && expected == Some(e.version) && taken.len() + 1
            < b.max_events {
            lemma_fills_from(
                b,
                taken.push(e),
                total + size,
                next_in(e.version, b.last),
                rest(run, 1),
                sizes.skip(1),
            );
            let k = x->Taken_0.len() - taken.len();
            lemma_summed_both(seq![sizes[0]], sizes.skip(1).take(k - 1), b.slot_bytes);
            assert(sizes.take(k) =~= seq![sizes[0]] + sizes.skip(1).take(k - 1));
        }
    }
}

proof fn lemma_summed_both(a: Seq<usize>, b: Seq<usize>, slot_bytes: usize)
    ensures
        summed(a + b, slot_bytes) == summed(a, slot_bytes) + summed(b, slot_bytes),
    decreases b.len(),
{
    if b.len() > 0 {
        assert((a + b).drop_last() =~= a + b.drop_last());
        lemma_summed_both(a, b.drop_last(), slot_bytes);
    } else {
        assert(a + b =~= a);
    }
}

/// A batch takes as many events as fit: no more than it may hold, and no more bytes than it may
/// take, each event with its slot; and where it leaves one behind, it is full, or that event
/// would have been too much for it.
pub proof fn lemma_batch_fills(b: Bounds, first: u64, run: Run, sizes: Seq<usize>)
    requires
        sizes.len() == run.events.len(),
        batch_from(b, first, run, sizes) is Taken,
    ensures
        ({
            let x = batch_from(b, first, run, sizes);
            let (t, bytes) = (x->Taken_0, x->Taken_1);
            let n = t.len() as int;
            &&& n <= run.events.len()
            &&& n <= 1 || n <= b.max_events
            &&& bytes <= b.max_bytes
            &&& bytes == summed(sizes.take(n), b.slot_bytes)
            &&& n < run.events.len() && n < b.max_events ==> bytes + sizes[n] + b.slot_bytes
                > b.max_bytes
        }),
{
    lemma_fills_from(b, Seq::empty(), 0, Some(first), run, sizes);
}

/// Whether batches are handed out one behind the other, from a version on up to the end.
pub open spec fn handed_out(
    d: DataV,
    files: Files,
    b: Bounds,
    room: Room,
    first: u64,
    batches: Seq<Seq<EventV>>,
) -> bool
    decreases batches.len(),
{
    &&& batches.len() > 0
    &&& exists|sizes: Seq<usize>, bytes: nat, next: Option<u64>|
        {
            &&& sizes.len() == ranged(d, files, first, b.last, room).events.len()
            &&& batch_from(b, first, ranged(d, files, first, b.last, room), sizes)
                == #[trigger] batch_of(sizes, batches[0], bytes, next)
            &&& match next {
                None => batches.len() == 1,
                Some(next) => handed_out(d, files, b, room, next, batches.drop_first()),
            }
        }
}

/// Events that a batch has taken, where bytes are charged for each event of its range.
pub open spec fn batch_of(
    sizes: Seq<usize>,
    events: Seq<EventV>,
    bytes: nat,
    next: Option<u64>,
) -> Batched {
    Batched::Taken(events, bytes, next)
}

/// What a cursor hands out of an entity, from a version up to the last one of its range: each
/// batch holds the versions behind those of the batch before, none of them beyond the last, and
/// all batches together are exactly the retained events of the range.
pub proof fn lemma_handed_out(
    d: DataV,
    files: Files,
    table: TableV,
    b: Bounds,
    room: Room,
    first: u64,
    batches: Seq<Seq<EventV>>,
)
    requires
        consistent(d, files, table),
        b.slot_bytes > 0,
        d.base.version < first <= b.last <= d.current.version,
        handed_out(d, files, b, room, first, batches),
    ensures
        batches.flatten() == retained_events(d, files)->Ok_0.subrange(
            first - d.base.version - 1,
            b.last - d.base.version,
        ),
        batches.flatten().len() == b.last - first + 1,
        forall|i: int|
            0 <= i < batches.flatten().len() ==> (#[trigger] batches.flatten()[i]).version == first
                + i,
        forall|i: int, j: int|
            0 <= i < batches.len() && 0 <= j < batches[i].len() ==> first <= (
            #[trigger] batches[i][j]).version <= b.last,
        forall|i: int|
            0 <= i < batches.len() ==> 0 < (#[trigger] batches[i]).len() && (batches[i].len() == 1
                || batches[i].len() <= b.max_events),
    decreases batches.len(),
{
    let low = d.base.version;
    let all = retained_events(d, files)->Ok_0;
    let want = all.subrange(first - low - 1, b.last - low);
    let run = ranged(d, files, first, b.last, room);
    lemma_history(d, files, table);
    lemma_range(d, files, table, first, b.last, room);
    let (sizes, bytes, next) = choose|sizes: Seq<usize>, bytes: nat, next: Option<u64>|
        {
            &&& sizes.len() == run.events.len()
            &&& batch_from(b, first, run, sizes) == #[trigger] batch_of(
                sizes,
                batches[0],
                bytes,
                next,
            )
            &&& match next {
                None => batches.len() == 1,
                Some(next) => handed_out(d, files, b, room, next, batches.drop_first()),
            }
        };
    lemma_batches(b, first, run, sizes);
    lemma_batch_fills(b, first, run, sizes);
    let t = batches[0];
    let more = batches.drop_first();
    let n = t.len() as int;
    assert(t =~= want.take(n));
    assert(t.last().version == first + n - 1);
    assert forall|j: int| 0 <= j < t.len() implies first <= (#[trigger] t[j]).version <= b.last by {
    }
    if let Some(next) = next {
        lemma_handed_out(d, files, table, b, room, next, more);
        assert(want.skip(n) =~= all.subrange(next - low - 1, b.last - low));
        assert(batches.flatten() =~= want);
    } else {
        assert(more =~= Seq::empty());
        assert(more.flatten() =~= Seq::empty());
        assert(n == want.len());
        assert(batches.flatten() =~= want);
    }
    assert forall|i: int| 0 <= i < batches.flatten().len() implies (
    #[trigger] batches.flatten()[i]).version == first + i by {
        assert(want[i] == all[first - low - 1 + i]);
    }
    assert forall|i: int, j: int| 0 <= i < batches.len() && 0 <= j < batches[i].len() implies first
        <= (#[trigger] batches[i][j]).version <= b.last by {
        if i > 0 {
            assert(batches[i] == more[i - 1]);
            assert(first <= more[i - 1][j].version);
        }
    }
    assert forall|i: int| 0 <= i < batches.len() implies 0 < (#[trigger] batches[i]).len() && (
    batches[i].len() == 1 || batches[i].len() <= b.max_events) by {
        if i > 0 {
            assert(batches[i] == more[i - 1]);
        }
    }
}

proof fn lemma_collected_from(
    b: Bounds,
    next: Option<u64>,
    run: Run,
    sizes: Seq<usize>,
    count: nat,
    bytes: nat,
    limits: Limits,
    used: usize,
)
    requires
        b.slot_bytes > 0,
        sizes.len() == run.events.len(),
        match next {
            Some(first) => dense(run, first, b.last),
            None => run.events.len() == 0,
        },
    ensures
        ({
            let x = collected(b, next, run, sizes, count, bytes, limits, used);
            let whole = summed(sizes, b.slot_bytes);
            &&& !(x is Damaged)
            &&& x matches Collected::Done(n, size) ==> n == count + run.events.len() && size == bytes
                + whole
            &&& bytes + whole <= limits.max_read_result_bytes && used + bytes + whole
                <= limits.max_read_memory_bytes && (forall|i: int|
                0 <= i < sizes.len() ==> (#[trigger] sizes[i]) + b.slot_bytes
                    <= limits.max_history_batch_bytes) ==> x is Done
        }),
    decreases run.events.len(),
{
    if let Some(first) = next {
        if bytes < limits.max_read_result_bytes {
            let nb = next_bounds(b, limits, bytes);
            lemma_undamaged(nb, first, run, sizes);
            lemma_summed_first(sizes, b.slot_bytes);
            if let Batched::Taken(t, n, behind) = batch_from(nb, first, run, sizes) {
                let k = t.len() as int;
                lemma_batches(nb, first, run, sizes);
                lemma_successive(nb, first, run, sizes);
                lemma_batch_fills(nb, first, run, sizes);
                lemma_summed_both(sizes.take(k), sizes.skip(k), b.slot_bytes);
                assert(sizes =~= sizes.take(k) + sizes.skip(k));
                if used + bytes + n <= limits.max_read_memory_bytes {
                    lemma_collected_from(
                        b,
                        behind,
                        rest(run, k),
                        sizes.skip(k),
                        count + t.len(),
                        bytes + n,
                        limits,
                        used,
                    );
                }
            }
        } else {
            lemma_summed_first(sizes, b.slot_bytes);
        }
    } else {
        assert(sizes =~= Seq::empty());
    }
}

proof fn lemma_summed_first(sizes: Seq<usize>, slot_bytes: usize)
    requires
        sizes.len() > 0,
    ensures
        summed(sizes, slot_bytes) >= sizes[0] + slot_bytes,
{
    assert(sizes =~= seq![sizes[0]] + sizes.skip(1));
    lemma_summed_both(seq![sizes[0]], sizes.skip(1), slot_bytes);
    assert(seq![sizes[0]].drop_last() =~= Seq::empty());
    reveal_with_fuel(summed, 2);
}

/// Collecting a range of an entity gives all its events, each once and in order, or fails for a
/// limit; it does not fail where the events and the slots of the result are within the limits
/// and each event fits into a batch.
pub proof fn lemma_collection(
    d: DataV,
    files: Files,
    table: TableV,
    b: Bounds,
    first: u64,
    room: Room,
    sizes: Seq<usize>,
    limits: Limits,
    used: usize,
)
    requires
        consistent(d, files, table),
        b.slot_bytes > 0,
        d.base.version < first <= b.last <= d.current.version,
        ranged(d, files, first, b.last, room).ending is Done,
        sizes.len() == ranged(d, files, first, b.last, room).events.len(),
    ensures
        ({
            let run = ranged(d, files, first, b.last, room);
            let x = collection(b, Some(first), run, sizes, limits, used);
            let whole = summed(sizes, b.slot_bytes);
            let slots = slots_size((b.last - first + 1) as nat);
            &&& x matches Collected::Done(n, _) ==> run.events.take(n as int) == retained_events(
                d,
                files,
            )->Ok_0.subrange(first - d.base.version - 1, b.last - d.base.version)
            &&& x is Damaged ==> slots > usize::MAX
            &&& whole <= limits.max_read_result_bytes && used + whole + slots
                <= limits.max_read_memory_bytes && (forall|i: int|
                0 <= i < sizes.len() ==> (#[trigger] sizes[i]) + b.slot_bytes
                    <= limits.max_history_batch_bytes) ==> x is Done
        }),
{
    let run = ranged(d, files, first, b.last, room);
    lemma_range(d, files, table, first, b.last, room);
    lemma_collected_from(b, Some(first), run, sizes, 0, 0, limits, used);
    assert(run.events.take(run.events.len() as int) =~= run.events);
}

/// A cursor over an entity hands out exactly what its options ask for: the versions from the one
/// that they name first, else from the first retained one, up to the one that they name last,
/// else up to the current one, in order, each once and no other. A version that they name and
/// that has no event is told, the first before the last.
pub proof fn lemma_cursor(
    d: DataV,
    files: Files,
    table: TableV,
    o: HistoryOptions,
    b: Bounds,
    room: Room,
    batches: Seq<Seq<EventV>>,
)
    requires
        consistent(d, files, table),
        b.slot_bytes > 0,
        missing(o, d.base.version, d.current.version) is None,
        range_of(o, d.base.version, d.current.version).0 matches Some(first) && first <= b.last
            && handed_out(d, files, b, room, first, batches),
        b.last == range_of(o, d.base.version, d.current.version).1,
    ensures
        ({
            let first: int = match o.first_version {
                Some(v) => v as int,
                None => d.base.version + 1,
            };
            let last: int = match o.last_version {
                Some(v) => v as int,
                None => d.current.version as int,
            };
            let out = batches.flatten();
            &&& d.base.version < first <= last <= d.current.version
            &&& out.len() == last - first + 1
            &&& forall|i: int| 0 <= i < out.len() ==> (#[trigger] out[i]).version == first + i
            &&& forall|i: int|
                0 <= i < out.len() ==> (#[trigger] out[i]) == retained_events(d, files)->Ok_0[i
                    + first - d.base.version - 1]
            &&& forall|i: int, j: int|
                0 <= i < batches.len() && 0 <= j < batches[i].len() ==> first <= (
                #[trigger] batches[i][j]).version <= last
        }),
{
    let first = range_of(o, d.base.version, d.current.version).0.unwrap();
    lemma_handed_out(d, files, table, b, room, first, batches);
    lemma_history(d, files, table);
    let out = batches.flatten();
    let all = retained_events(d, files)->Ok_0;
    let low = d.base.version;
    assert forall|i: int| 0 <= i < out.len() implies (#[trigger] out[i]) == all[i + first - low - 1] by {
        assert(out[i] == all.subrange(first - low - 1, b.last - low)[i]);
    }
    assert forall|i: int, j: int| 0 <= i < batches.len() && 0 <= j < batches[i].len() implies first
        <= (#[trigger] batches[i][j]).version <= b.last by {
    }
}

/// A version that a cursor is asked for is refused exactly if it has no retained event.
pub proof fn lemma_missing(o: HistoryOptions, base: u64, current: u64)
    ensures
        ({
            let gone = |v: Option<u64>| v matches Some(v) && !(base < v <= current);
            &&& gone(o.first_version) ==> missing(o, base, current) == o.first_version
            &&& !gone(o.first_version) && gone(o.last_version) ==> missing(o, base, current)
                == o.last_version
            &&& !gone(o.first_version) && !gone(o.last_version) ==> missing(o, base, current)
                is None
        }),
{
}

// ---- What reading through a cursor comes to ----

proof fn lemma_unharmed(
    b: Bounds,
    taken: Seq<EventV>,
    total: nat,
    expected: Option<u64>,
    run: Run,
    sizes: Seq<usize>,
)
    requires
        !(run.ending is Damaged),
        match expected {
            Some(v) => {
                &&& v <= b.last
                &&& run.events.len() <= b.last - v + 1
                &&& run.ending is Done ==> run.events.len() == b.last - v + 1
                &&& forall|i: int|
                    0 <= i < run.events.len() ==> (#[trigger] run.events[i]).version == v + i
            },
            None => run.events.len() == 0 && taken.len() > 0,
        },
    ensures
        !(batched(b, taken, total, expected, run, sizes) is Damaged),
    decreases run.events.len(),
{
    if run.events.len() > 0 {
        let e = run.events[0];
        let next = next_in(e.version, b.last);
        assert(e.version == expected.unwrap());
        let more = rest(run, 1);
        if next is Some {
            assert forall|i: int| 0 <= i < more.events.len() implies (
            #[trigger] more.events[i]).version == next.unwrap() + i by {
                assert(more.events[i] == run.events[i + 1]);
            }
        }
        lemma_unharmed(
            b,
            taken.push(e),
            total + sizes[0] as nat + b.slot_bytes as nat,
            next,
            more,
            sizes.skip(1),
        );
    }
}

/// Reading a batch through a cursor that is within the retained versions of an entity: the batch
/// is the retained events from the version to go on from, none beyond the last version of the
/// cursor, no more than it may hold and within its bytes; the cursor goes on behind them, or is
/// at its end exactly if the last version is among them. An entity that is consistent is never
/// told to be damaged.
pub proof fn lemma_batch_read(
    before: HistoryCursor,
    after: HistoryCursor,
    s: StateV,
    loaded: &Loaded,
    files: Files,
    table: TableV,
    room: Room,
    polls: nat,
    r: Result<Option<HistoryBatch>>,
)
    requires
        batch_polled(before, after, s, loaded, room, polls, None, r),
        loaded.agrees(files),
        before.limits().slot_bytes > 0,
        before.upcoming() is Some,
        !s.poisoned,
        loaded_data(s, files, before.of().0, before.of().1) matches Ok(Some(d)) && consistent(
            d,
            files,
            table,
        ) && d.base.version < before.upcoming().unwrap() <= before.limits().last
            <= d.current.version,
    ensures
        ({
            let d = loaded_data(s, files, before.of().0, before.of().1)->Ok_0.unwrap();
            let first = before.upcoming().unwrap();
            let last = before.limits().last;
            &&& r matches Ok(Some(batch)) ==> {
                let t = batch.taken();
                &&& 0 < t.len() <= last - first + 1
                &&& t.len() == 1 || t.len() <= before.limits().max_events
                &&& batch.size() <= before.limits().max_bytes
                &&& forall|i: int|
                    0 <= i < t.len() ==> (#[trigger] t[i]) == retained_events(d, files)->Ok_0[first
                        - d.base.version - 1 + i] && t[i].version == first + i && t[i].version
                        <= last
                &&& after.upcoming() == (if first + t.len() > last {
                    None
                } else {
                    Some((first + t.len()) as u64)
                })
            }
            &&& r matches Err(e) ==> !(e is Corrupt)
            &&& !(r matches Ok(None))
        }),
{
    let (id, b) = (before.of(), before.limits());
    let d = loaded_data(s, files, id.0, id.1)->Ok_0.unwrap();
    let first = before.upcoming().unwrap();
    let low = d.base.version;
    let run = ranged(d, files, first, b.last, room);
    let all = retained_events(d, files)->Ok_0;
    lemma_history(d, files, table);
    lemma_range(d, files, table, first, b.last, room);
    assert(state_range(s, files, id.0, id.1, first, b.last, room) == Ok::<_, Fault>(run));
    match r {
        Ok(Some(batch)) => {
            let sizes = choose|sizes: Seq<usize>|
                weighed(run.events, sizes) && reads(reach_of(b), run.events, sizes) == polls
                    && #[trigger] batch_from(b, first, run, sizes) == Batched::Taken(
                    batch.taken(),
                    batch.size() as nat,
                    after.upcoming(),
                );
            lemma_batches(b, first, run, sizes);
            lemma_batch_fills(b, first, run, sizes);
            let t = batch.taken();
            assert forall|i: int| 0 <= i < t.len() implies (#[trigger] t[i]) == all[first - low - 1
                + i] && t[i].version == first + i && t[i].version <= b.last by {
                assert(t[i] == run.events[i]);
                assert(run.events[i] == all.subrange(first - low - 1, b.last - low)[i]);
            }
            assert(t.last() == t[t.len() - 1]);
        },
        Err(e) => {
            if !(e is Unread) {
                let sizes = choose|sizes: Seq<usize>|
                    weighed(run.events, sizes) && reads(reach_of(b), run.events, sizes) == polls
                        && batch_failed(b, #[trigger] batch_from(b, first, run, sizes), e);
                lemma_unharmed(b, Seq::empty(), 0, Some(first), run, sizes);
                if let Batched::Limited(limit) = batch_from(b, first, run, sizes) {
                    lemma_limits_only(b, Seq::empty(), 0, Some(first), run, sizes);
                    lemma_record_limits(d, files, first, b.last, room);
                }
            }
        },
        _ => {},
    }
}

proof fn lemma_limits_only(
    b: Bounds,
    taken: Seq<EventV>,
    total: nat,
    expected: Option<u64>,
    run: Run,
    sizes: Seq<usize>,
)
    ensures
        batched(b, taken, total, expected, run, sizes) matches Batched::Limited(e) ==> run.ending
            == Ending::Limited(e),
    decreases run.events.len(),
{
    if run.events.len() > 0 {
        let e = run.events[0];
        lemma_limits_only(
            b,
            taken.push(e),
            total + sizes[0] as nat + b.slot_bytes as nat,
            next_in(e.version, b.last),
            rest(run, 1),
            sizes.skip(1),
        );
    }
}

proof fn lemma_pulled_limits(
    r: crate::snapshot::RootV,
    files: Files,
    table: u64,
    id: u64,
    entries: Stream,
    room: Room,
)
    ensures
        pulled(r, files, table, id, entries, room).ending matches Ending::Limited(e) ==> e
            is LimitExceeded,
    decreases entries.items.len(),
{
    reveal(record_limit);
    if entries.items.len() > 0 {
        lemma_pulled_limits(
            r,
            files,
            table,
            id,
            Stream { items: entries.items.skip(1), sound: entries.sound },
            room,
        );
    }
}

proof fn lemma_record_limits(d: DataV, files: Files, first: u64, last: u64, room: Room)
    ensures
        ranged(d, files, first, last, room).ending matches Ending::Limited(e) ==> e
            is LimitExceeded,
{
    if let Some(through) = stored_through(d, first, last) {
        let disk = d.disk.unwrap();
        lemma_pulled_limits(
            disk.root,
            files,
            disk.table,
            d.base.id,
            index_scan(disk.root, files, disk.table, 4, (d.base.id, first), (d.base.id, through)),
            room,
        );
    }
}

/// Collecting through a cursor that is within the retained versions of an entity gives exactly
/// the retained events from the version to go on from up to the last version of the cursor.
pub proof fn lemma_collected_range(
    cursor: HistoryCursor,
    s: StateV,
    loaded: &Loaded,
    files: Files,
    table: TableV,
    resources: Resources,
    polls: nat,
    out: Vec<Event>,
)
    requires
        range_collected(cursor, s, loaded, resources, polls, None, Ok(out)),
        loaded.agrees(files),
        cursor.limits().slot_bytes > 0,
        cursor.upcoming() is Some,
        !s.poisoned,
        loaded_data(s, files, cursor.of().0, cursor.of().1) matches Ok(Some(d)) && consistent(
            d,
            files,
            table,
        ) && d.base.version < cursor.upcoming().unwrap() <= cursor.limits().last
            <= d.current.version && d.current.version < usize::MAX,
        ranged(
            loaded_data(s, files, cursor.of().0, cursor.of().1)->Ok_0.unwrap(),
            files,
            cursor.upcoming().unwrap(),
            cursor.limits().last,
            room_of(resources),
        ).ending is Done,
    ensures
        ({
            let d = loaded_data(s, files, cursor.of().0, cursor.of().1)->Ok_0.unwrap();
            events_view(out@) == retained_events(d, files)->Ok_0.subrange(
                cursor.upcoming().unwrap() - d.base.version - 1,
                cursor.limits().last - d.base.version,
            )
        }),
{
    let (id, b) = (cursor.of(), cursor.limits());
    let d = loaded_data(s, files, id.0, id.1)->Ok_0.unwrap();
    let first = cursor.upcoming().unwrap();
    let room = room_of(resources);
    let run = ranged(d, files, first, b.last, room);
    lemma_range(d, files, table, first, b.last, room);
    assert(state_range(s, files, id.0, id.1, first, b.last, room) == Ok::<_, Fault>(run));
    let used = resources.used().read_memory_bytes;
    let sizes = choose|sizes: Seq<usize>|
        weighed(run.events, sizes) && reads(whole_reach(b), run.events, sizes) == polls
            && collected_to(
            #[trigger] collection(b, Some(first), run, sizes, resources.limits, used),
            run.events,
            Ok(out),
        );
    lemma_collection(d, files, table, b, first, room, sizes, resources.limits, used);
}

} // verus!
