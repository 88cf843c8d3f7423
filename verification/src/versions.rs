//! That every retained version of a consistent entity reads, what a snapshot saves, and what
//! retention gives up.

use crate::consistency::consistent;
use crate::consistency::indexed;
use crate::consistency::lemma_kept;
use crate::consistency::lemma_pieces;
use crate::entity::DataV;
use crate::entity::committed_between;
use crate::entity::data_at;
use crate::entity::folded;
use crate::entity::from_disk;
use crate::entity::from_memory;
use crate::entity::has_before;
use crate::entity::last_before;
use crate::entity::lemma_at_base;
use crate::entity::lemma_between_split;
use crate::entity::lemma_filter_member;
use crate::entity::lemma_filter_same;
use crate::entity::lemma_filter_split;
use crate::entity::lemma_folded;
use crate::entity::lemma_folded_version;
use crate::entity::lemma_from_disk_version;
use crate::entity::lemma_from_memory_id;
use crate::entity::lemma_here;
use crate::entity::lemma_last;
use crate::entity::lemma_rebased_at;
use crate::entity::lemma_resume_all;
use crate::entity::nearest;
use crate::entity::orderly;
use crate::entity::produces;
use crate::entity::rebased;
use crate::entity::retained;
use crate::entity::retained_from;
use crate::entity::spans;
use crate::error::Fault;
use crate::key::OrderedKey;
use crate::key::listing;
use crate::key::lists;
use crate::model::EntityV;
use crate::model::EventV;
use crate::model::TableV;
use crate::partitions::index_scan;
use crate::reader::memory_from;
use crate::reader::retained_events;
use crate::reading::advanced;
use crate::reading::gathered;
use crate::reading::indexed_event;
use crate::reading::replayed;
use crate::reading::started;
use crate::reading::stepped;
use crate::snapshot::RootV;
use crate::storage::index::Entry;
use crate::storage::index::Stream;
use crate::storage::index_writer::between;
use crate::storage::pager::Files;
use vstd::prelude::*;

verus! {

// ---- Stored history ----

/// What replays is there to be read, and each entry leads to the next version.
proof fn lemma_replayed(
    r: RootV,
    files: Files,
    table: u64,
    id: u64,
    state: EntityV,
    items: Seq<Entry>,
)
    requires
        replayed(r, files, table, id, state, Stream { items, sound: true }) is Ok,
    ensures
        gathered(r, files, table, id, Stream { items, sound: true }) is Ok,
        gathered(r, files, table, id, Stream { items, sound: true })->Ok_0.len() == items.len(),
        forall|i: int|
            0 <= i < items.len() ==> (#[trigger] gathered(
                r,
                files,
                table,
                id,
                Stream { items, sound: true },
            )->Ok_0[i]).version == state.version + i + 1,
        forall|i: int|
            0 <= i < items.len() ==> (#[trigger] items[i]).0.1 == state.version + i + 1,
        replayed(r, files, table, id, state, Stream { items, sound: true })->Ok_0.version
            == state.version + items.len(),
    decreases items.len(),
{
    if items.len() > 0 {
        let event = indexed_event(r, files, table, id, items[0]).unwrap();
        assert(event.version == items[0].0.1) by {
            reveal(indexed_event);
        }
        let next = stepped(state, event, r.catalog[table])->Ok_0;
        assert(next.version == state.version + 1 && event.version == next.version);
        let rest = items.skip(1);
        lemma_replayed(r, files, table, id, next, rest);
        let more = gathered(r, files, table, id, Stream { items: rest, sound: true })->Ok_0;
        let all = gathered(r, files, table, id, Stream { items, sound: true })->Ok_0;
        assert(all == seq![event] + more);
        assert forall|i: int| 0 <= i < items.len() implies (#[trigger] all[i]).version
            == state.version + i + 1 by {
            if i > 0 {
                assert(all[i] == more[i - 1]);
            }
        }
        assert forall|i: int| 0 <= i < items.len() implies (#[trigger] items[i]).0.1
            == state.version + i + 1 by {
            if i > 0 {
                assert(items[i] == rest[i - 1]);
            }
        }
    }
}

proof fn lemma_replayed_front(
    r: RootV,
    files: Files,
    table: u64,
    id: u64,
    state: EntityV,
    a: Seq<Entry>,
    b: Seq<Entry>,
)
    requires
        replayed(r, files, table, id, state, Stream { items: a + b, sound: true }) is Ok,
    ensures
        replayed(r, files, table, id, state, Stream { items: a, sound: true }) is Ok,
    decreases a.len(),
{
    if a.len() > 0 {
        assert((a + b)[0] == a[0]);
        assert((a + b).skip(1) =~= a.skip(1) + b);
        let event = indexed_event(r, files, table, id, a[0]).unwrap();
        let next = stepped(state, event, r.catalog[table])->Ok_0;
        lemma_replayed_front(r, files, table, id, next, a.skip(1), b);
    }
}

pub(crate) proof fn lemma_gathered_both(
    r: RootV,
    files: Files,
    table: u64,
    id: u64,
    a: Seq<Entry>,
    b: Seq<Entry>,
)
    requires
        gathered(r, files, table, id, Stream { items: a + b, sound: true }) is Ok,
    ensures
        gathered(r, files, table, id, Stream { items: a, sound: true }) is Ok,
        gathered(r, files, table, id, Stream { items: b, sound: true }) is Ok,
        gathered(r, files, table, id, Stream { items: a + b, sound: true })->Ok_0 == gathered(
            r,
            files,
            table,
            id,
            Stream { items: a, sound: true },
        )->Ok_0 + gathered(r, files, table, id, Stream { items: b, sound: true })->Ok_0,
    decreases a.len(),
{
    if a.len() == 0 {
        assert(a + b =~= b);
        let all = gathered(r, files, table, id, Stream { items: b, sound: true })->Ok_0;
        assert(Seq::<EventV>::empty() + all =~= all);
    } else {
        assert((a + b)[0] == a[0]);
        assert((a + b).skip(1) =~= a.skip(1) + b);
        lemma_gathered_both(r, files, table, id, a.skip(1), b);
        let event = indexed_event(r, files, table, id, a[0]).unwrap();
        let x = gathered(r, files, table, id, Stream { items: a.skip(1), sound: true })->Ok_0;
        let y = gathered(r, files, table, id, Stream { items: b, sound: true })->Ok_0;
        assert(seq![event] + (x + y) =~= (seq![event] + x) + y);
    }
}

/// The entries of the versions behind one part in two at a version between.
pub(crate) proof fn lemma_scan_parts(
    r: RootV,
    files: Files,
    table: u64,
    id: u64,
    es: Seq<Entry>,
    low: u64,
    mid: u64,
    high: u64,
)
    requires
        indexed(r, files, table, 4, es),
        low < mid < high,
    ensures
        index_scan(r, files, table, 4, (id, (low + 1) as u64), (id, high)) == (Stream {
            items: es.filter(between((id, (low + 1) as u64), (id, mid))) + es.filter(
                between((id, (mid + 1) as u64), (id, high)),
            ),
            sound: true,
        }),
{
    let first = (id, (low + 1) as u64);
    let (x, y, z) = (
        between(first, (id, mid)),
        between((id, (mid + 1) as u64), (id, high)),
        between(first, (id, high)),
    );
    assert forall|e: Entry| #[trigger] z(e) == (x(e) || y(e)) by {
    }
    assert forall|e: Entry| !(#[trigger] x(e) && y(e)) by {
    }
    assert forall|i: int, j: int| 0 <= i < j < es.len() && y(#[trigger] es[i]) implies !x(
        #[trigger] es[j],
    ) by {
        assert(es[i].0.before(es[j].0));
    }
    lemma_filter_split(es, x, y, z);
}

/// Stored history that replays to a version replays to every version on the way.
proof fn lemma_stored_version(d: DataV, files: Files, mid: u64)
    requires
        d.disk matches Some(disk) && d.base.version < mid <= disk.through && exists|
            es: Seq<Entry>,
        | #[trigger] indexed(disk.root, files, disk.table, 4, es),
        advanced(
            d.disk.unwrap().root,
            files,
            d.disk.unwrap().table,
            d.base.id,
            d.base,
            d.disk.unwrap().through,
            false,
        ) is Ok,
    ensures
        advanced(
            d.disk.unwrap().root,
            files,
            d.disk.unwrap().table,
            d.base.id,
            d.base,
            mid,
            false,
        ) is Ok,
{
    let disk = d.disk.unwrap();
    let (r, t, id, low) = (disk.root, disk.table, d.base.id, d.base.version);
    reveal(started);
    if mid < disk.through {
        let es = choose|es: Seq<Entry>| #[trigger] indexed(r, files, t, 4, es);
        lemma_scan_parts(r, files, t, id, es, low, mid, disk.through);
        let x = between((id, (low + 1) as u64), (id, mid));
        let y = between((id, (mid + 1) as u64), (id, disk.through));
        let (a, b) = (es.filter(x), es.filter(y));
        lemma_replayed(r, files, t, id, d.base, a + b);
        lemma_replayed_front(r, files, t, id, d.base, a, b);
        lemma_replayed(r, files, t, id, d.base, a);
        lemma_filter_member(es, x);
        lemma_filter_member(es, y);
        lemma_count(low as int, mid as int, disk.through as int, a.len(), b.len(), a, b, id);
        assert(index_scan(r, files, t, 4, (id, (low + 1) as u64), (id, mid)) == (Stream {
            items: a,
            sound: true,
        }));
    }
}

/// How many of consecutive versions lie up to one of them.
pub(crate) proof fn lemma_count(
    low: int,
    mid: int,
    high: int,
    n: nat,
    m: nat,
    a: Seq<Entry>,
    b: Seq<Entry>,
    id: u64,
)
    requires
        low <= mid <= high,
        a.len() == n && b.len() == m,
        low + n + m == high,
        forall|i: int| 0 <= i < n + m ==> (#[trigger] (a + b)[i]).0.1 == low + i + 1,
        forall|i: int| 0 <= i < n ==> (#[trigger] a[i]).0.1 <= mid,
        forall|i: int| 0 <= i < m ==> (#[trigger] b[i]).0.1 > mid,
    ensures
        low + n == mid,
{
    if n > 0 {
        assert((a + b)[n - 1] == a[n - 1]);
    }
    if m > 0 {
        assert((a + b)[n as int] == b[0]);
    }
}

// ---- History in memory ----

/// The committed events up to the current version are all of them.
pub(crate) proof fn lemma_all_committed(d: DataV, low: u64)
    requires
        d.committed.dom().finite(),
        forall|v: u64| #[trigger] d.committed.contains_key(v) ==> v <= d.current.version,
    ensures
        committed_between(d.committed, low, u64::MAX) == committed_between(
            d.committed,
            low,
            d.current.version,
        ),
{
    let s = listing(d.committed);
    crate::key::lemma_listing(d.committed);
    reveal(lists);
    let (p, q) = (spans(low, u64::MAX), spans(low, d.current.version));
    assert forall|i: int| 0 <= i < s.len() implies p(#[trigger] s[i]) == q(s[i]) by {
        assert(d.committed.contains_key(s[i].0));
    }
    lemma_filter_same(s, p, q);
}

pub(crate) proof fn lemma_filter_all<T>(s: Seq<T>, p: spec_fn(T) -> bool)
    requires
        forall|i: int| 0 <= i < s.len() ==> p(#[trigger] s[i]),
    ensures
        s.filter(p) == s,
    decreases s.len(),
{
    reveal(Seq::filter);
    if s.len() > 0 {
        assert forall|i: int| 0 <= i < s.drop_last().len() implies p(
            #[trigger] s.drop_last()[i],
        ) by {
            assert(s.drop_last()[i] == s[i]);
        }
        lemma_filter_all(s.drop_last(), p);
        assert(p(s[s.len() - 1]));
        assert(s.drop_last().push(s.last()) =~= s);
    } else {
        assert(s.filter(p) =~= s);
    }
}

/// The committed events behind a version produce versions behind it and up to another.
pub(crate) proof fn lemma_between_bounds(m: Map<u64, EventV>, low: u64, high: u64)
    requires
        m.dom().finite(),
        forall|v: u64| #[trigger] m.contains_key(v) ==> m[v].version == v,
    ensures
        forall|i: int|
            0 <= i < committed_between(m, low, high).len() ==> low < (#[trigger] committed_between(
                m,
                low,
                high,
            )[i]).version <= high && m.contains_key(committed_between(m, low, high)[i].version),
{
    let s = listing(m);
    crate::key::lemma_listing(m);
    reveal(lists);
    let p = spans(low, high);
    lemma_filter_member(s, p);
    let c = committed_between(m, low, high);
    assert forall|i: int| 0 <= i < c.len() implies low < (#[trigger] c[i]).version <= high
        && m.contains_key(c[i].version) by {
        let e = s.filter(p)[i];
        assert(c[i] == e.1);
        let k = choose|k: int| 0 <= k < s.len() && #[trigger] s[k] == e;
        assert(m.contains_key(s[k].0));
    }
}

/// The state that stored history leads to, and what follows it in memory, as the parts of the
/// replay of the current version.
pub(crate) proof fn lemma_parts(d: DataV, files: Files, table: TableV) -> (r: (EntityV, EntityV))
    requires
        consistent(d, files, table),
    ensures
        from_disk(d, files, d.base, d.current.version, false) == Ok::<_, Fault>(r.0),
        r.0.version == memory_from(d),
        folded(r.0, committed_between(d.committed, memory_from(d), d.current.version), table)
            == Ok::<_, Fault>(r.1),
        folded(r.1, d.events, table) == Ok::<_, Fault>(d.current),
        r.1.version == memory_from(d) + committed_between(
            d.committed,
            memory_from(d),
            d.current.version,
        ).len(),
        r.1.version + d.events.len() == d.current.version,
{
    let last = d.current.version;
    let s = from_disk(d, files, d.base, last, false)->Ok_0;
    if let Some(disk) = d.disk {
        if d.base.version < disk.through {
            crate::reading::lemma_advanced(
                disk.root,
                files,
                disk.table,
                d.base.id,
                d.base,
                disk.through,
            );
        }
    }
    let c = committed_between(d.committed, s.version, last);
    let t = folded(s, c, table)->Ok_0;
    lemma_folded_version(s, c, table);
    lemma_between_bounds(d.committed, s.version, last);
    let p = produces(t.version, last);
    assert forall|i: int| 0 <= i < d.events.len() implies p(#[trigger] d.events[i]) by {
        if c.len() > 0 {
            let v = c[c.len() - 1].version;
            assert(d.committed.contains_key(v));
        }
    }
    lemma_filter_all(d.events, p);
    lemma_folded_version(t, d.events, table);
    (s, t)
}

/// Every retained version of a consistent entity reads, and gives a state of that version.
pub proof fn lemma_every_version(d: DataV, files: Files, table: TableV, version: u64)
    requires
        consistent(d, files, table),
        d.base.version <= version <= d.current.version,
    ensures
        data_at(d, files, table, version, false) is Ok,
        data_at(d, files, table, version, false)->Ok_0.version == version,
        data_at(d, files, table, version, false)->Ok_0.id == d.current.id,
{
    let last = d.current.version;
    let (s, t) = lemma_parts(d, files, table);
    let stored = d.disk is Some && version <= d.disk.unwrap().through && d.base.version
        < d.disk.unwrap().through;
    if stored {
        if d.base.version < version {
            lemma_stored_version(d, files, version);
        }
        let first = from_disk(d, files, d.base, version, false)->Ok_0;
        lemma_from_disk_version(d, files, d.base, version);
        if d.base.version < version {
            let disk = d.disk.unwrap();
            crate::reading::lemma_advanced(
                disk.root,
                files,
                disk.table,
                d.base.id,
                d.base,
                version,
            );
        }
        assert(first.version == version);
        lemma_here(d, first, table);
    } else {
        assert(from_disk(d, files, d.base, version, false) == Ok::<_, Fault>(s));
        assert(s.version <= version);
        lemma_memory_fold(d, s, t, table, version);
    }
    let first = from_disk(d, files, d.base, version, false)->Ok_0;
    lemma_from_disk_version(d, files, d.base, version);
    lemma_from_memory_id(d, first, table, version);
}

/// Events in memory lead to the fold over the first of them.
pub(crate) proof fn lemma_memory_fold(d: DataV, s: EntityV, t: EntityV, table: TableV, version: u64)
    requires
        orderly(d),
        s.version <= version <= d.current.version,
        folded(s, committed_between(d.committed, s.version, d.current.version), table) == Ok::<
            _,
            Fault,
        >(t),
        folded(t, d.events, table) == Ok::<_, Fault>(d.current),
    ensures
        from_memory(d, s, table, version) is Ok,
        from_memory(d, s, table, version) == folded(
            s,
            (committed_between(d.committed, s.version, d.current.version) + d.events).take(
                version - s.version,
            ),
            table,
        ),
{
    let last = d.current.version;
    let c = committed_between(d.committed, s.version, last);
    let a = committed_between(d.committed, s.version, version);
    let b = committed_between(d.committed, version, last);
    lemma_between_split(d.committed, s.version, version, last);
    lemma_folded(s, a, b, table);
    let u = folded(s, a, table)->Ok_0;
    lemma_folded_version(s, a, table);
    lemma_folded_version(u, b, table);
    lemma_between_bounds(d.committed, s.version, version);
    lemma_between_bounds(d.committed, version, last);
    if a.len() > 0 {
        assert(a[a.len() - 1].version <= version);
    }
    assert(u.version <= version);
    let p = produces(u.version, version);
    let n = version - s.version;
    if b.len() > 0 {
        assert(b[0].version == u.version + 1);
        assert(u.version == version);
        crate::key::lemma_filter_none(d.events, p);
        assert(d.events.filter(p) =~= Seq::empty());
        assert((c + d.events).take(n) =~= a);
    } else {
        assert(a + b =~= a);
        assert(u == t);
        lemma_staged_fold(d.events, t, table, version);
        let m = (version - t.version) as int;
        lemma_folded(s, c, d.events.take(m), table);
        assert((c + d.events).take(n) =~= c + d.events.take(m));
    }
}

/// Staged events lead to the fold over the first of them.
proof fn lemma_staged_fold(events: Seq<EventV>, t: EntityV, table: TableV, version: u64)
    requires
        folded(t, events, table) is Ok,
        t.version <= version <= folded(t, events, table)->Ok_0.version,
    ensures
        version - t.version <= events.len(),
        events.filter(produces(t.version, version)) == events.take(version - t.version),
        folded(t, events.take(version - t.version), table) is Ok,
        folded(t, events.take(version - t.version), table)->Ok_0.version == version,
{
    let p = produces(t.version, version);
    let n = (version - t.version) as int;
    lemma_folded_version(t, events, table);
    let (x, y) = (events.take(n), events.skip(n));
    assert(x + y =~= events);
    assert forall|i: int| 0 <= i < events.len() implies p(#[trigger] events[i]) == (i < n) by {
    }
    lemma_filter_take(events, p, n);
    lemma_folded(t, x, y, table);
    lemma_folded_version(t, x, table);
}

proof fn lemma_filter_take<T>(s: Seq<T>, p: spec_fn(T) -> bool, n: int)
    requires
        0 <= n <= s.len(),
        forall|i: int| 0 <= i < s.len() ==> p(#[trigger] s[i]) == (i < n),
    ensures
        s.filter(p) == s.take(n),
    decreases s.len(),
{
    reveal(Seq::filter);
    if s.len() > 0 {
        let t = s.drop_last();
        assert forall|i: int| 0 <= i < t.len() implies p(#[trigger] t[i]) == (i < n) by {
            assert(t[i] == s[i]);
        }
        assert(p(s[s.len() - 1]) == (s.len() - 1 < n));
        if n == s.len() {
            lemma_filter_take(t, p, n - 1);
            assert(t.take(n - 1).push(s.last()) =~= s.take(n));
        } else {
            lemma_filter_take(t, p, n);
            assert(t.take(n) =~= s.take(n));
        }
    } else {
        assert(s.filter(p) =~= s.take(n));
    }
}

// ---- Retained events ----

/// The retained events of a consistent entity are one for each version behind its base, in
/// order, up to the current one.
pub proof fn lemma_history(d: DataV, files: Files, table: TableV)
    requires
        consistent(d, files, table),
    ensures
        retained_events(d, files) is Ok,
        retained_events(d, files)->Ok_0.len() == d.current.version - d.base.version,
        forall|i: int|
            0 <= i < retained_events(d, files)->Ok_0.len() ==> (#[trigger] retained_events(
                d,
                files,
            )->Ok_0[i]).version == d.base.version + i + 1,
{
    let (s, t) = lemma_parts(d, files, table);
    let c = committed_between(d.committed, memory_from(d), d.current.version);
    lemma_all_committed(d, memory_from(d));
    lemma_folded_version(s, c, table);
    lemma_folded_version(t, d.events, table);
    let stored = if memory_from(d) > d.base.version {
        let disk = d.disk.unwrap();
        let (r, id) = (disk.root, d.base.id);
        reveal(started);
        let es = choose|es: Seq<Entry>| #[trigger] indexed(r, files, disk.table, 4, es);
        let scan = index_scan(
            r,
            files,
            disk.table,
            4,
            (id, (d.base.version + 1) as u64),
            (id, disk.through),
        );
        lemma_replayed(r, files, disk.table, id, d.base, scan.items);
        gathered(r, files, disk.table, id, scan)->Ok_0
    } else {
        Seq::empty()
    };
    let all = retained_events(d, files)->Ok_0;
    assert(all == stored + c + d.events);
    assert forall|i: int| 0 <= i < all.len() implies (#[trigger] all[i]).version == d.base.version
        + i + 1 by {
        if i < stored.len() {
            assert(all[i] == stored[i]);
        } else if i < stored.len() + c.len() {
            assert(all[i] == c[i - stored.len()]);
        } else {
            assert(all[i] == d.events[i - stored.len() - c.len()]);
        }
    }
}

/// Moving the base of a consistent entity forward leaves the events behind it.
proof fn lemma_rebased_events(d: DataV, files: Files, table: TableV, base: EntityV)
    requires
        consistent(d, files, table),
        consistent(rebased(d, base), files, table),
        d.base.version < base.version <= d.current.version,
        base.id == d.base.id,
    ensures
        retained_events(rebased(d, base), files) is Ok,
        retained_events(rebased(d, base), files)->Ok_0 == retained_events(d, files)->Ok_0.skip(
            base.version - d.base.version,
        ),
{
    let n = rebased(d, base);
    lemma_history(d, files, table);
    lemma_history(n, files, table);
    let all = retained_events(d, files)->Ok_0;
    let left = retained_events(n, files)->Ok_0;
    let cut = base.version - d.base.version;
    let front = if d.disk is Some && base.version < d.disk.unwrap().through {
        lemma_left_stored(d, files, table, base)
    } else {
        lemma_left_memory(d, files, base)
    };
    assert(front.len() == cut);
    assert(left =~= all.skip(cut));
}

/// Staged events that are kept stand behind those that are not.
proof fn lemma_staged_parts(d: DataV, base: EntityV)
    requires
        orderly(d),
    ensures
        d.events == d.events.filter(|e: EventV| e.version <= base.version) + rebased(
            d,
            base,
        ).events,
{
    let keep = |e: EventV| e.version > base.version;
    let go = |e: EventV| e.version <= base.version;
    let whole = |e: EventV| true;
    lemma_filter_split(d.events, go, keep, whole);
    lemma_filter_all(d.events, whole);
}

/// Committed events parted at a version in front of which a base is moved.
proof fn lemma_committed_parts(d: DataV, base: EntityV, from: u64, behind: u64)
    requires
        orderly(d),
        from <= behind,
        base.version <= behind,
    ensures
        committed_between(d.committed, from, u64::MAX) == committed_between(
            d.committed,
            from,
            behind,
        ) + committed_between(rebased(d, base).committed, behind, u64::MAX),
{
    crate::entity::lemma_rebased_between(d, base, behind, u64::MAX);
    lemma_between_split(d.committed, from, behind, u64::MAX);
}

/// Moving the base within stored history.
proof fn lemma_left_stored(d: DataV, files: Files, table: TableV, base: EntityV) -> (front: Seq<
    EventV,
>)
    requires
        consistent(d, files, table),
        retained_events(d, files) is Ok,
        d.disk is Some,
        d.base.version < base.version < d.disk.unwrap().through,
        base.id == d.base.id,
    ensures
        retained_events(rebased(d, base), files) is Ok,
        retained_events(d, files)->Ok_0 == front + retained_events(rebased(d, base), files)->Ok_0,
{
    let n = rebased(d, base);
    let (low, cut) = (d.base.version, base.version);
    let disk = d.disk.unwrap();
    let (r, t, id) = (disk.root, disk.table, d.base.id);
    let es = choose|es: Seq<Entry>| #[trigger] indexed(r, files, t, 4, es);
    lemma_scan_parts(r, files, t, id, es, low, cut, disk.through);
    let a = es.filter(between((id, (low + 1) as u64), (id, cut)));
    let b = es.filter(between((id, (cut + 1) as u64), (id, disk.through)));
    lemma_gathered_both(r, files, t, id, a, b);
    let front = gathered(r, files, t, id, Stream { items: a, sound: true })->Ok_0;
    let rest = gathered(r, files, t, id, Stream { items: b, sound: true })->Ok_0;
    assert(crate::reader::disk_events(d, files) == Ok::<_, Fault>(front + rest));
    assert(crate::reader::disk_events(n, files) == Ok::<_, Fault>(rest));
    crate::entity::lemma_rebased_between(d, base, disk.through, u64::MAX);
    // No staged event is given up: all lie behind what is stored.
    let keep = |e: EventV| e.version > cut;
    assert forall|i: int| 0 <= i < d.events.len() implies keep(#[trigger] d.events[i]) by {
        assert(memory_from(d) < d.events[i].version);
    }
    lemma_filter_all(d.events, keep);
    assert(n.events == d.events);
    let c = committed_between(d.committed, disk.through, u64::MAX);
    assert((front + rest) + c + d.events =~= front + (rest + c + d.events));
    front
}

/// Moving the base to where stored history ends, or beyond.
proof fn lemma_left_memory(d: DataV, files: Files, base: EntityV) -> (front: Seq<EventV>)
    requires
        orderly(d),
        orderly(rebased(d, base)),
        retained_events(d, files) is Ok,
        d.base.version < base.version,
        d.disk matches Some(disk) ==> disk.through <= base.version,
    ensures
        retained_events(rebased(d, base), files) is Ok,
        retained_events(d, files)->Ok_0 == front + retained_events(rebased(d, base), files)->Ok_0,
{
    let n = rebased(d, base);
    let cut = base.version;
    let from = memory_from(d);
    let stored = crate::reader::disk_events(d, files)->Ok_0;
    let none = Seq::<EventV>::empty();
    let gone = committed_between(d.committed, from, cut);
    let k = committed_between(n.committed, cut, u64::MAX);
    let x = d.events.filter(|e: EventV| e.version <= base.version);
    assert(retained_events(n, files) == Ok::<_, Fault>(none + k + n.events));
    assert(retained_events(d, files)->Ok_0 == stored + (gone + k) + (x + n.events)) by {
        lemma_committed_parts(d, base, from, cut);
        lemma_staged_parts(d, base);
    }
    assert(k.len() == 0 || x.len() == 0) by {
        lemma_given_up(d, base);
    }
    lemma_joined(stored, gone, k, x, n.events);
    stored + gone + x
}

/// Where a staged event is given up, every committed one is.
proof fn lemma_given_up(d: DataV, base: EntityV)
    requires
        orderly(d),
        orderly(rebased(d, base)),
    ensures
        d.events.filter(|e: EventV| e.version <= base.version).len() == 0 || committed_between(
            rebased(d, base).committed,
            base.version,
            u64::MAX,
        ).len() == 0,
{
    let n = rebased(d, base);
    let go = |e: EventV| e.version <= base.version;
    let x = d.events.filter(go);
    if x.len() > 0 {
        lemma_filter_member(d.events, go);
        assert(go(x[0]));
        let i = choose|i: int| 0 <= i < d.events.len() && #[trigger] d.events[i] == x[0];
        assert forall|v: u64| #[trigger] n.committed.contains_key(v) implies !(base.version < v
            && v <= u64::MAX) by {
            assert(d.committed.contains_key(v));
            assert(v < d.events[i].version);
        }
        crate::entity::lemma_between_empty(n.committed, base.version, u64::MAX);
    }
}

proof fn lemma_joined(
    stored: Seq<EventV>,
    gone: Seq<EventV>,
    k: Seq<EventV>,
    x: Seq<EventV>,
    y: Seq<EventV>,
)
    requires
        k.len() == 0 || x.len() == 0,
    ensures
        stored + (gone + k) + (x + y) == (stored + gone + x) + (Seq::<EventV>::empty() + k + y),
{
    assert(stored + (gone + k) + (x + y) =~= (stored + gone + x) + (Seq::<EventV>::empty() + k
        + y));
}

// ---- Retention ----

/// How many events are left of those that are retained when so many are to be kept.
pub open spec fn kept_count(d: DataV, count: u64) -> int {
    if count < d.current.version - d.base.version {
        count as int
    } else {
        d.current.version - d.base.version
    }
}

/// What retention gives up: of the retained events the last so many stay, or all if there are
/// fewer, the base becomes the state in front of them, the current state stays, and exactly the
/// snapshots in front of the new base go. A version that is still retained reads as before, and
/// no other does.
pub proof fn lemma_retained(d: DataV, files: Files, table: TableV, count: u64, version: u64)
    requires
        consistent(d, files, table),
    ensures
        retained(d, files, table, count) is Ok,
        ({
            let n = retained(d, files, table, count)->Ok_0;
            let k = kept_count(d, count);
            &&& consistent(n, files, table)
            &&& n.current == d.current
            &&& n.base.version == d.current.version - k
            &&& retained_events(d, files) is Ok && retained_events(n, files) == Ok::<_, Fault>(
                retained_events(d, files)->Ok_0.skip(
                    d.current.version - d.base.version - k,
                ),
            )
            &&& n.snapshots == d.snapshots.restrict(Set::new(|v: u64| v >= n.base.version))
            &&& if n.base.version <= version <= d.current.version {
                &&& data_at(n, files, table, version, false) == data_at(
                    d,
                    files,
                    table,
                    version,
                    false,
                )
                &&& data_at(n, files, table, version, false) is Ok
            } else {
                forall|snapshots: bool| #[trigger]
                    data_at(n, files, table, version, snapshots) == Err::<EntityV, _>(
                        Fault::Unavailable {
                            requested: version,
                            first: n.base.version,
                            last: d.current.version,
                        },
                    )
            }
        }),
{
    let from = retained_from(d, count);
    lemma_history(d, files, table);
    lemma_pieces(d, files);
    lemma_every_version(d, files, table, from);
    lemma_kept(d, files, table, count);
    let n = retained(d, files, table, count)->Ok_0;
    if from == d.base.version {
        assert(n.snapshots =~= d.snapshots.restrict(Set::new(|v: u64| v >= n.base.version)));
        let all = retained_events(d, files)->Ok_0;
        assert(all.skip(0) =~= all);
    } else {
        lemma_rebased_events(d, files, table, n.base);
    }
    if n.base.version <= version <= d.current.version {
        lemma_rebased_at(d, files, table, count, version);
        lemma_every_version(d, files, table, version);
    }
}

// ---- Snapshots ----

/// Whether every stored snapshot that a read of an entity starts from is the state that replay
/// gives.
pub open spec fn stored_faithful(d: DataV, files: Files, table: TableV) -> bool {
    d.disk matches Some(disk) ==> forall|to: u64|
        d.base.version <= to <= disk.through ==> match #[trigger] started(
            disk.root,
            files,
            disk.table,
            d.base.id,
            d.base,
            to,
            true,
        ) {
            Err(_) => false,
            Ok(e) => e.version <= to && data_at(d, files, table, e.version, false) == Ok::<
                _,
                Fault,
            >(e),
        }
}

/// Stored snapshots only shorten the replay of stored history.
proof fn lemma_stored_snapshots(d: DataV, files: Files, table: TableV, at: u64, to: u64)
    requires
        consistent(d, files, table),
        stored_faithful(d, files, table),
        d.disk is Some,
        d.base.version <= at < to <= d.disk.unwrap().through,
    ensures
        ({
            let disk = d.disk.unwrap();
            let first = data_at(d, files, table, at, false)->Ok_0;
            advanced(disk.root, files, disk.table, d.base.id, first, to, true) == advanced(
                disk.root,
                files,
                disk.table,
                d.base.id,
                first,
                to,
                false,
            )
        }),
{
    let disk = d.disk.unwrap();
    let (r, t, id) = (disk.root, disk.table, d.base.id);
    let first = data_at(d, files, table, at, false)->Ok_0;
    lemma_pieces(d, files);
    lemma_every_version(d, files, table, at);
    reveal(started);
    let b = started(r, files, t, id, d.base, to, true);
    let e = started(r, files, t, id, first, to, true)->Ok_0;
    if started(r, files, t, id, first, to, true) != Ok::<_, Fault>(first) {
        assert(b == started(r, files, t, id, first, to, true));
        assert(data_at(d, files, table, e.version, false) == Ok::<_, Fault>(e));
        lemma_stored_step(d, files, table, at, e.version);
        let step = |x: EntityV, to: u64| advanced(r, files, t, id, x, to, false);
        if e.version > at {
            assert(step(first, e.version) == Ok::<_, Fault>(e));
            assert(step(step(first, e.version)->Ok_0, to) == step(first, to));
        }
    }
}

/// A stored version is a step of stored history away from an earlier one.
proof fn lemma_stored_step(d: DataV, files: Files, table: TableV, at: u64, v: u64)
    requires
        consistent(d, files, table),
        d.disk is Some,
        d.base.version <= at <= v <= d.disk.unwrap().through,
    ensures
        at < v ==> advanced(
            d.disk.unwrap().root,
            files,
            d.disk.unwrap().table,
            d.base.id,
            data_at(d, files, table, at, false)->Ok_0,
            v,
            false,
        ) == data_at(d, files, table, v, false),
{
    let disk = d.disk.unwrap();
    lemma_pieces(d, files);
    lemma_every_version(d, files, table, at);
    lemma_every_version(d, files, table, v);
    lemma_resume_all(d, files, table, at, v);
    let first = data_at(d, files, table, at, false)->Ok_0;
    if at < v {
        let next = advanced(disk.root, files, disk.table, d.base.id, first, v, false);
        assert(from_disk(d, files, first, v, false) == next);
        crate::reading::lemma_advanced(disk.root, files, disk.table, d.base.id, first, v);
        lemma_here(d, next->Ok_0, table);
    }
}

/// Snapshots only speed reads up: at every version a read that starts from a snapshot, in memory
/// or stored, gives what full replay gives. A version that is not retained is unavailable, and
/// every other gives a state of that version.
pub proof fn lemma_snapshots(d: DataV, files: Files, table: TableV, version: u64)
    requires
        consistent(d, files, table),
        stored_faithful(d, files, table),
    ensures
        data_at(d, files, table, version, true) == data_at(d, files, table, version, false),
        if d.base.version <= version <= d.current.version {
            data_at(d, files, table, version, true) matches Ok(state) && state.version == version
        } else {
            data_at(d, files, table, version, true) == Err::<EntityV, _>(
                Fault::Unavailable {
                    requested: version,
                    first: d.base.version,
                    last: d.current.version,
                },
            )
        },
{
    if d.base.version <= version <= d.current.version {
        lemma_pieces(d, files);
        lemma_every_version(d, files, table, version);
        let first = nearest(d, version);
        let at = if has_before(d.snapshots, version) {
            lemma_last(d.snapshots, version);
            last_before(d.snapshots, version)
        } else {
            d.base.version
        };
        assert(data_at(d, files, table, at, false) == Ok::<_, Fault>(first)) by {
            if !has_before(d.snapshots, version) {
                lemma_at_base(d, files, table);
            }
        }
        lemma_resume_all(d, files, table, at, version);
        lemma_every_version(d, files, table, at);
        if let Some(disk) = d.disk {
            let reach = if version < disk.through {
                version
            } else {
                disk.through
            };
            if first.version < reach {
                lemma_stored_snapshots(d, files, table, at, reach);
            }
        }
    }
}

} // verus!
