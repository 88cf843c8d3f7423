//! That a checkpoint and its installation leave every read as it was, with what was written
//! meanwhile.

use crate::checkpoint::Checkpoint;
use crate::checkpoint::bucket_end;
use crate::checkpoint::kept_whole;
use crate::checkpoint::stays_whole;
use crate::checkpoint::work_all;
use crate::checkpoint::work_root;
use crate::checkpoint::works_items;
use crate::codec::MAX_RECORD;
use crate::commit::Prepared;
use crate::commit::published;
use crate::commit::published_all;
use crate::commit::sealed_all;
use crate::commit::tail_after;
use crate::consistency::all_consistent;
use crate::consistency::consistent;
use crate::consistency::extends;
use crate::consistency::indexed;
use crate::consistency::lemma_folded_later;
use crate::consistency::lemma_later_schema;
use crate::consistency::listed;
use crate::copying::Copying;
use crate::entity::DataV;
use crate::entity::committed_between;
use crate::entity::data_at;
use crate::entity::folded;
use crate::entity::from_disk;
use crate::entity::lemma_between_empty;
use crate::entity::lemma_filter_member;
use crate::entity::lemma_filter_split;
use crate::entity::lemma_folded;
use crate::entity::lemma_folded_version;
use crate::entity::lemma_here;
use crate::entity::spans;
use crate::entity::stored_data;
use crate::error::Fault;
use crate::keeping::carried_over;
use crate::keeping::carried_range;
use crate::keeping::event_stored;
use crate::keeping::history_taken_up;
use crate::keeping::leads;
use crate::keeping::lemma_given;
use crate::keeping::lemma_kept_whole_is_read;
use crate::keeping::lemma_recent_event_is_kept;
use crate::keeping::lemma_stored_event_is_kept;
use crate::keeping::lemma_unwritten_is_absent;
use crate::keeping::lemma_whole_event_is_kept;
use crate::keeping::lemma_work_of;
use crate::keeping::lemma_worked_is_read;
use crate::keeping::stored_as;
use crate::keeping::taken_up;
use crate::keeping::writable;
use crate::key::OrderedKey;
use crate::key::listing;
use crate::key::lists;
use crate::model::EntityV;
use crate::model::EventV;
use crate::model::TableV;
use crate::partitions::PartV;
use crate::partitions::Route;
use crate::partitions::index_lookup;
use crate::partitions::index_scan;
use crate::partitions::route_of;
use crate::reader::StateV;
use crate::reader::loaded_data;
use crate::reader::memory_from;
use crate::reader::recent_ids;
use crate::reader::retained_events;
use crate::reader::state_at;
use crate::reader::state_events;
use crate::reader::state_get;
use crate::reader::state_replayed;
use crate::reading::advanced;
use crate::reading::event_in;
use crate::reading::events_in;
use crate::reading::gathered;
use crate::reading::indexed_event;
use crate::reading::located;
use crate::reading::replayed;
use crate::reading::started;
use crate::reading::stepped;
use crate::reading::stored_at;
use crate::record::enc_event;
use crate::record::encodable_fields;
use crate::snapshot::MAX_SLOTS;
use crate::snapshot::RootV;
use crate::storage::index::Entry;
use crate::storage::index::Key;
use crate::storage::index::Stream;
use crate::storage::index::Value;
use crate::storage::index_writer::between;
use crate::storage::pager::Files;
use crate::table_writer::TableOutput;
use crate::table_writer::TableWriter;
use crate::table_writer::added;
use crate::table_writer::item_key;
use crate::table_writer::item_kind;
use crate::table_writer::kept_events;
use crate::table_writer::link_file;
use crate::table_writer::past_version;
use crate::versions::lemma_all_committed;
use crate::versions::lemma_count;
use crate::versions::lemma_every_version;
use crate::versions::lemma_gathered_both;
use crate::versions::lemma_history;
use crate::versions::lemma_memory_fold;
use crate::versions::lemma_parts;
use crate::versions::lemma_scan_parts;
use crate::versions::lemma_snapshots;
use crate::versions::stored_faithful;
use crate::walks::entries_in;
use crate::walks::gives_back;
use crate::walks::lemma_filter_has;
use crate::walks::lemma_indexed;
use crate::walks::lemma_recent;
use vstd::prelude::*;

verus! {

// ---- States as folds over events ----

/// Replaying entries is to fold over the events that they lead to.
proof fn lemma_replayed_folds(
    r: RootV,
    files: Files,
    table: u64,
    id: u64,
    state: EntityV,
    items: Seq<Entry>,
)
    requires
        gathered(r, files, table, id, Stream { items, sound: true }) is Ok,
    ensures
        replayed(r, files, table, id, state, Stream { items, sound: true }) == folded(
            state,
            gathered(r, files, table, id, Stream { items, sound: true })->Ok_0,
            r.catalog[table],
        ),
    decreases items.len(),
{
    if items.len() > 0 {
        let event = indexed_event(r, files, table, id, items[0]).unwrap();
        let rest = items.skip(1);
        let more = gathered(r, files, table, id, Stream { items: rest, sound: true })->Ok_0;
        let all = gathered(r, files, table, id, Stream { items, sound: true })->Ok_0;
        assert(all == seq![event] + more);
        assert(all[0] == event);
        assert(all.skip(1) =~= more);
        if let Ok(next) = stepped(state, event, r.catalog[table]) {
            lemma_replayed_folds(r, files, table, id, next, rest);
        }
    }
}

/// An entry leads to the event of its version.
pub(crate) proof fn lemma_gathered_versions(r: RootV, files: Files, table: u64, id: u64, items: Seq<Entry>)
    requires
        gathered(r, files, table, id, Stream { items, sound: true }) is Ok,
    ensures
        gathered(r, files, table, id, Stream { items, sound: true })->Ok_0.len() == items.len(),
        forall|i: int|
            0 <= i < items.len() ==> (#[trigger] items[i]).0.1 == gathered(
                r,
                files,
                table,
                id,
                Stream { items, sound: true },
            )->Ok_0[i].version,
    decreases items.len(),
{
    if items.len() > 0 {
        let event = indexed_event(r, files, table, id, items[0]).unwrap();
        assert(event.version == items[0].0.1) by {
            reveal(indexed_event);
        }
        let rest = items.skip(1);
        lemma_gathered_versions(r, files, table, id, rest);
        let more = gathered(r, files, table, id, Stream { items: rest, sound: true })->Ok_0;
        let all = gathered(r, files, table, id, Stream { items, sound: true })->Ok_0;
        assert forall|i: int| 0 <= i < items.len() implies (#[trigger] items[i]).0.1
            == all[i].version by {
            if i > 0 {
                assert(items[i] == rest[i - 1]);
                assert(all[i] == more[i - 1]);
            }
        }
    }
}

/// Whether events are those that stored history holds of an entity, one for each version.
pub open spec fn stored_events(d: DataV, files: Files, evs: Seq<EventV>) -> bool {
    d.disk matches Some(disk) && {
        &&& disk.root.catalog.contains_key(disk.table)
        &&& d.base.version < disk.through
        &&& listed(d, files)
        &&& events_in(
            disk.root,
            files,
            disk.table,
            d.base.id,
            (d.base.version + 1) as u64,
            disk.through,
        ) == Ok::<_, Fault>(evs)
        &&& evs.len() == disk.through - d.base.version
        &&& forall|i: int|
            0 <= i < evs.len() ==> (#[trigger] evs[i]).version == d.base.version + i + 1
    }
}

/// Stored history leads to the fold over its events.
pub(crate) proof fn lemma_stored_fold(d: DataV, files: Files, evs: Seq<EventV>, v: u64)
    requires
        stored_events(d, files, evs),
        d.base.version <= v <= d.disk.unwrap().through,
    ensures
        from_disk(d, files, d.base, v, false) == folded(
            d.base,
            evs.take(v - d.base.version),
            d.disk.unwrap().root.catalog[d.disk.unwrap().table],
        ),
        folded(
            d.base,
            evs.take(v - d.base.version),
            d.disk.unwrap().root.catalog[d.disk.unwrap().table],
        ) matches Ok(s) ==> s.version == v,
{
    let disk = d.disk.unwrap();
    let (r, t, id, low) = (disk.root, disk.table, d.base.id, d.base.version);
    let n = v - low;
    let part = evs.take(n);
    reveal(started);
    if n == 0 {
        assert(part =~= Seq::empty());
    } else {
        let es = choose|es: Seq<Entry>| #[trigger] indexed(r, files, t, 4, es);
        let x = between((id, (low + 1) as u64), (id, v));
        let a = es.filter(x);
        assert(index_scan(r, files, t, 4, (id, (low + 1) as u64), (id, v)) == (Stream {
            items: a,
            sound: true,
        }));
        assert(gathered(r, files, t, id, Stream { items: a, sound: true }) == Ok::<_, Fault>(part)) by {
            if v < disk.through {
                lemma_stored_front(d, files, evs, es, v);
            } else {
                assert(part =~= evs);
            }
        }
        lemma_replayed_folds(r, files, t, id, d.base, a);
    }
    if folded(d.base, part, r.catalog[t]) is Ok {
        lemma_folded_version(d.base, part, r.catalog[t]);
    }
}

proof fn lemma_stored_front(d: DataV, files: Files, evs: Seq<EventV>, es: Seq<Entry>, v: u64)
    requires
        stored_events(d, files, evs),
        d.base.version < v < d.disk.unwrap().through,
        indexed(d.disk.unwrap().root, files, d.disk.unwrap().table, 4, es),
    ensures
        gathered(
            d.disk.unwrap().root,
            files,
            d.disk.unwrap().table,
            d.base.id,
            Stream {
                items: es.filter(
                    between((d.base.id, (d.base.version + 1) as u64), (d.base.id, v)),
                ),
                sound: true,
            },
        ) == Ok::<_, Fault>(evs.take(v - d.base.version)),
{
    let disk = d.disk.unwrap();
    let (r, t, id, low) = (disk.root, disk.table, d.base.id, d.base.version);
    lemma_scan_parts(r, files, t, id, es, low, v, disk.through);
    let x = between((id, (low + 1) as u64), (id, v));
    let y = between((id, (v + 1) as u64), (id, disk.through));
    let (a, b) = (es.filter(x), es.filter(y));
    lemma_gathered_versions(r, files, t, id, a + b);
    lemma_gathered_both(r, files, t, id, a, b);
    lemma_gathered_versions(r, files, t, id, a);
    lemma_filter_member(es, x);
    lemma_filter_member(es, y);
    lemma_count(low as int, v as int, disk.through as int, a.len(), b.len(), a, b, id);
    let front = gathered(r, files, t, id, Stream { items: a, sound: true })->Ok_0;
    assert(front =~= evs.take(v - low));
}

/// A retained version of a consistent entity is the base with the events up to that version.
pub proof fn lemma_version_is_fold(d: DataV, files: Files, table: TableV, version: u64)
    requires
        consistent(d, files, table),
        d.base.version <= version <= d.current.version,
    ensures
        retained_events(d, files) is Ok,
        data_at(d, files, table, version, false) == folded(
            d.base,
            retained_events(d, files)->Ok_0.take(version - d.base.version),
            table,
        ),
{
    let all = retained_events(d, files)->Ok_0;
    lemma_history(d, files, table);
    lemma_every_version(d, files, table, version);
    let (s, t) = lemma_parts(d, files, table);
    let c = committed_between(d.committed, memory_from(d), d.current.version);
    lemma_all_committed(d, memory_from(d));
    let n = version - d.base.version;
    if memory_from(d) > d.base.version {
        let disk = d.disk.unwrap();
        let evs = crate::reader::disk_events(d, files)->Ok_0;
        let told = disk.root.catalog[disk.table];
        assert(all == evs + c + d.events);
        lemma_folded_version(s, c, table);
        lemma_folded_version(t, d.events, table);
        assert(stored_events(d, files, evs)) by {
            assert forall|i: int| 0 <= i < evs.len() implies (#[trigger] evs[i]).version
                == d.base.version + i + 1 by {
                assert(all[i] == evs[i]);
            }
        }
        if version <= disk.through {
            lemma_stored_fold(d, files, evs, version);
            lemma_folded_later(d.base, evs.take(n), told, table);
            let first = from_disk(d, files, d.base, version, false)->Ok_0;
            lemma_here(d, first, table);
            assert(all.take(n) =~= evs.take(n));
        } else {
            lemma_stored_fold(d, files, evs, disk.through);
            assert(evs.take(evs.len() as int) =~= evs);
            lemma_folded_later(d.base, evs, told, table);
            assert(from_disk(d, files, d.base, version, false) == Ok::<_, Fault>(s));
            lemma_memory_fold(d, s, t, table, version);
            let x = (c + d.events).take(version - s.version);
            lemma_folded(d.base, evs, x, table);
            assert(all.take(n) =~= evs + x);
        }
    } else {
        assert(s == d.base);
        assert(all =~= c + d.events);
        assert(from_disk(d, files, d.base, version, false) == Ok::<_, Fault>(s));
        lemma_memory_fold(d, s, t, table, version);
    }
}

// ---- What a checkpoint holds ----

/// Whether a manifest holds an entity as it was: its states, and every event of its history. It
/// holds none of one that there was not.
pub open spec fn held(r: RootV, files: Files, table: u64, id: u64, d: Option<DataV>) -> bool {
    match d {
        None => stored_data(r, files, table, id) == Ok::<_, Fault>(None::<DataV>),
        Some(d) => stored_as(r, files, table, id, d) && retained_events(
            stored_data(r, files, table, id)->Ok_0.unwrap(),
            files,
        ) == retained_events(d, files),
    }
}

/// A filter that takes one item takes it alone.
pub(crate) proof fn lemma_filter_single<T>(s: Seq<T>, p: spec_fn(T) -> bool, k: int)
    requires
        0 <= k < s.len(),
        forall|i: int| 0 <= i < s.len() ==> p(#[trigger] s[i]) == (i == k),
    ensures
        s.filter(p) == seq![s[k]],
    decreases s.len(),
{
    reveal(Seq::filter);
    let t = s.drop_last();
    assert forall|i: int| 0 <= i < t.len() implies p(#[trigger] t[i]) == (i == k) by {
        assert(t[i] == s[i]);
    }
    assert(p(s[s.len() - 1]) == (s.len() - 1 == k));
    if k == s.len() - 1 {
        crate::key::lemma_filter_none(t, p);
        assert(t.filter(p) =~= Seq::empty());
        assert(s.filter(p) =~= seq![s[k]]);
    } else {
        lemma_filter_single(t, p, k);
    }
}

proof fn lemma_gathered_join(
    r: RootV,
    files: Files,
    table: u64,
    id: u64,
    a: Seq<Entry>,
    b: Seq<Entry>,
)
    requires
        gathered(r, files, table, id, Stream { items: a, sound: true }) is Ok,
        gathered(r, files, table, id, Stream { items: b, sound: true }) is Ok,
    ensures
        gathered(r, files, table, id, Stream { items: a + b, sound: true }) is Ok,
    decreases a.len(),
{
    if a.len() == 0 {
        assert(a + b =~= b);
    } else {
        assert((a + b)[0] == a[0]);
        assert((a + b).skip(1) =~= a.skip(1) + b);
        lemma_gathered_join(r, files, table, id, a.skip(1), b);
    }
}

/// Whether an entry leads to the event of a place, under its version.
spec fn leads_to(
    r: RootV,
    files: Files,
    table: u64,
    id: u64,
    es: Seq<Entry>,
    low: u64,
    evs: Seq<EventV>,
    k: int,
) -> bool {
    exists|i: int|
        0 <= i < es.len() && (#[trigger] es[i]).0 == (id, (low + k + 1) as u64) && indexed_event(
            r,
            files,
            table,
            id,
            es[i],
        ) == Some(evs[k])
}

/// Entries of an index that lead to events, one for each version, are gathered into them.
proof fn lemma_gathered_whole(
    r: RootV,
    files: Files,
    table: u64,
    id: u64,
    es: Seq<Entry>,
    low: u64,
    evs: Seq<EventV>,
    n: nat,
)
    requires
        forall|i: int, j: int|
            0 <= i < j < es.len() ==> (#[trigger] es[i]).0.before((#[trigger] es[j]).0),
        0 < n <= evs.len(),
        low + evs.len() <= u64::MAX,
        forall|k: int|
            0 <= k < evs.len() ==> #[trigger] leads_to(r, files, table, id, es, low, evs, k),
    ensures
        gathered(
            r,
            files,
            table,
            id,
            Stream {
                items: es.filter(between((id, (low + 1) as u64), (id, (low + n) as u64))),
                sound: true,
            },
        ) == Ok::<_, Fault>(evs.take(n as int)),
    decreases n,
{
    let first = (id, (low + 1) as u64);
    let last = (id, (low + n) as u64);
    let k = (n - 1) as int;
    let event = evs[k];
    assert(leads_to(r, files, table, id, es, low, evs, k));
    let i = choose|i: int|
        0 <= i < es.len() && (#[trigger] es[i]).0 == (id, (low + k + 1) as u64) && indexed_event(
            r,
            files,
            table,
            id,
            es[i],
        ) == Some(event);
    let one = between(last, last);
    assert forall|j: int| 0 <= j < es.len() implies one(#[trigger] es[j]) == (j == i) by {
        if j < i {
            assert(es[j].0.before(es[i].0));
        } else if i < j {
            assert(es[i].0.before(es[j].0));
        }
    }
    lemma_filter_single(es, one, i);
    let b = es.filter(one);
    assert(b.skip(1) =~= Seq::empty());
    let stop = Stream { items: Seq::<Entry>::empty(), sound: true };
    assert(gathered(r, files, table, id, stop) == Ok::<_, Fault>(Seq::<EventV>::empty()));
    assert(gathered(r, files, table, id, Stream { items: b, sound: true }) == Ok::<_, Fault>(
        seq![event],
    )) by {
        assert(b[0] == es[i]);
        assert(seq![event] + Seq::<EventV>::empty() =~= seq![event]);
    }
    if n == 1 {
        assert(evs.take(1) =~= seq![event]);
    } else {
        let m = (n - 1) as nat;
        lemma_gathered_whole(r, files, table, id, es, low, evs, m);
        let before = (id, (low + m) as u64);
        let (x, z) = (between(first, before), between(first, last));
        assert forall|e: Entry| #[trigger] z(e) == (x(e) || one(e)) by {
        }
        assert forall|e: Entry| !(#[trigger] x(e) && one(e)) by {
        }
        assert forall|i: int, j: int| 0 <= i < j < es.len() && one(#[trigger] es[i]) implies !x(
            #[trigger] es[j],
        ) by {
            assert(es[i].0.before(es[j].0));
        }
        lemma_filter_split(es, x, one, z);
        let a = es.filter(x);
        lemma_gathered_join(r, files, table, id, a, b);
        lemma_gathered_both(r, files, table, id, a, b);
        assert(evs.take(m as int) + seq![event] =~= evs.take(n as int));
    }
}

proof fn lemma_entries_has(
    l: Seq<(Route, PartV)>,
    table: u64,
    kind: u8,
    contents: Map<Route, Seq<Entry>>,
    j: int,
    k: int,
)
    requires
        0 <= j < l.len(),
        l[j].0.table == table && l[j].0.kind == kind,
        0 <= k < contents[l[j].0].len(),
    ensures
        entries_in(l, table, kind, contents).contains(contents[l[j].0][k]),
    decreases l.len(),
{
    let e = contents[l[j].0][k];
    let mine = if l[0].0.table == table && l[0].0.kind == kind {
        contents[l[0].0]
    } else {
        Seq::empty()
    };
    let rest = entries_in(l.skip(1), table, kind, contents);
    if j == 0 {
        assert((mine + rest)[k] == e);
    } else {
        assert(l.skip(1)[j - 1] == l[j]);
        lemma_entries_has(l.skip(1), table, kind, contents, j - 1, k);
        let i = choose|i: int| 0 <= i < rest.len() && rest[i] == e;
        assert((mine + rest)[mine.len() + i] == e);
    }
}

/// Whether the partitions of the index of events of a table give back entries.
pub open spec fn events_given(
    r: RootV,
    files: Files,
    table: u64,
    contents: Map<Route, Seq<Entry>>,
) -> bool {
    r.partitions.dom().finite() && forall|at: Route| #[trigger]
        r.partitions.contains_key(at) && at.table == table && at.kind == 4 ==> gives_back(
            files,
            at,
            r.partitions[at],
            contents[at],
        )
}

/// An event that is stored has an entry among those of its index.
proof fn lemma_stored_entry(
    r: RootV,
    files: Files,
    table: u64,
    id: u64,
    contents: Map<Route, Seq<Entry>>,
    event: EventV,
) -> (i: int)
    requires
        events_given(r, files, table, contents),
        event_stored(r, files, table, id, event),
        event.transaction <= r.lsn,
    ensures
        ({
            let es = entries_in(listing(r.partitions), table, 4, contents);
            &&& 0 <= i < es.len()
            &&& es[i].0 == (id, event.version)
            &&& indexed_event(r, files, table, id, es[i]) == Some(event)
        }),
{
    let key = (id, event.version);
    let at = crate::partitions::route_of(table, 4, key);
    let l = listing(r.partitions);
    crate::key::lemma_listing(r.partitions);
    reveal(lists);
    reveal(index_lookup);
    reveal(crate::indexes::gives);
    reveal(indexed_event);
    let p = r.partitions[at];
    assert(gives_back(files, at, p, contents[at]));
    let x = crate::storage::index::lookup_of(
        crate::partitions::tree_of(files, p),
        p.lsn,
        key,
    ).unwrap().unwrap();
    let k = choose|k: int| 0 <= k < contents[at].len() && contents[at][k] == (key, x);
    assert(crate::partitions::translated(p, contents[at][k].1) == Some(contents[at][k].1));
    let j = choose|j: int| 0 <= j < l.len() && (#[trigger] l[j]).0 == at;
    lemma_entries_has(l, table, 4, contents, j, k);
    let es = entries_in(l, table, 4, contents);
    let i = choose|i: int| 0 <= i < es.len() && es[i] == contents[at][k];
    i
}

/// A manifest that stores the states of an entity and each of its events holds the entity as it
/// was.
pub proof fn lemma_held(
    r: RootV,
    files: Files,
    table: u64,
    id: u64,
    d: DataV,
    t: TableV,
    contents: Map<Route, Seq<Entry>>,
)
    requires
        consistent(d, files, t),
        d.base.id == id,
        events_given(r, files, table, contents),
        stored_as(r, files, table, id, d),
        forall|k: int|
            0 <= k < d.current.version - d.base.version ==> event_stored(
                r,
                files,
                table,
                id,
                #[trigger] retained_events(d, files)->Ok_0[k],
            ) && retained_events(d, files)->Ok_0[k].transaction <= r.lsn,
    ensures
        held(r, files, table, id, Some(d)),
        exists|es: Seq<Entry>| #[trigger] indexed(r, files, table, 4, es),
{
    let es = entries_in(listing(r.partitions), table, 4, contents);
    lemma_indexed(r, files, table, 4, contents);
    assert(indexed(r, files, table, 4, es));
    lemma_history(d, files, t);
    let evs = retained_events(d, files)->Ok_0;
    let e = stored_data(r, files, table, id)->Ok_0.unwrap();
    lemma_between_empty(e.committed, memory_from(e), u64::MAX);
    let low = d.base.version;
    if low < d.current.version {
        assert forall|k: int| 0 <= k < evs.len() implies #[trigger] leads_to(
            r,
            files,
            table,
            id,
            es,
            low,
            evs,
            k,
        ) by {
            let i = lemma_stored_entry(r, files, table, id, contents, evs[k]);
            assert(es[i].0 == (id, (low + k + 1) as u64));
        }
        lemma_gathered_whole(r, files, table, id, es, low, evs, evs.len());
        assert(evs.take(evs.len() as int) =~= evs);
        assert(crate::reader::disk_events(e, files) == Ok::<_, Fault>(evs));
        assert(evs + Seq::<EventV>::empty() + Seq::<EventV>::empty() =~= evs);
    } else {
        assert(evs =~= Seq::empty());
        assert(retained_events(e, files)->Ok_0 =~= Seq::empty());
    }
}

/// A stored entity is read from its manifest as from what is loaded of it.
pub(crate) proof fn lemma_stored_at(r: RootV, files: Files, table: u64, id: u64, t: TableV, version: u64)
    requires
        stored_data(r, files, table, id) matches Ok(Some(e)) && e.base.id == id,
    ensures
        stored_at(r, files, table, id, version, false) == data_at(
            stored_data(r, files, table, id)->Ok_0.unwrap(),
            files,
            t,
            version,
            false,
        ),
{
    let e = stored_data(r, files, table, id)->Ok_0.unwrap();
    reveal(started);
    assert(r.catalog.contains_key(table)) by {
        reveal(located);
    }
    if e.base.version <= version <= e.current.version {
        let x = advanced(r, files, table, id, e.base, version, false);
        assert(from_disk(e, files, e.base, version, false) == x);
        if x is Ok {
            crate::reading::lemma_advanced(r, files, table, id, e.base, version);
            lemma_here(e, x->Ok_0, t);
        }
    }
}

/// What a manifest holds of an entity is read at every version as the entity was.
pub proof fn lemma_held_is_read(
    r: RootV,
    files: Files,
    table: u64,
    id: u64,
    d: DataV,
    version: u64,
)
    requires
        held(r, files, table, id, Some(d)),
        consistent(d, files, r.catalog[table]),
        d.base.id == id,
        exists|es: Seq<Entry>| #[trigger] indexed(r, files, table, 4, es),
    ensures
        stored_at(r, files, table, id, version, false) == data_at(
            d,
            files,
            r.catalog[table],
            version,
            false,
        ),
{
    let t = r.catalog[table];
    let e = stored_data(r, files, table, id)->Ok_0.unwrap();
    lemma_stored_at(r, files, table, id, t, version);
    if d.base.version <= version <= d.current.version {
        lemma_history(d, files, t);
        lemma_version_is_fold(d, files, t, version);
        assert(r.catalog.contains_key(table)) by {
            reveal(located);
        }
        let all = retained_events(d, files)->Ok_0;
        lemma_between_empty(e.committed, memory_from(e), u64::MAX);
        if d.base.version < d.current.version {
            assert(crate::reader::disk_events(e, files)->Ok_0 =~= all);
            assert(listed(e, files));
            assert(stored_events(e, files, all));
            lemma_stored_fold(e, files, all, version);
            let x = from_disk(e, files, e.base, version, false);
            if x is Ok {
                lemma_here(e, x->Ok_0, t);
            }
        } else {
            assert(all.take(0) =~= Seq::empty());
            lemma_here(e, e.base, t);
        }
    }
}

/// What a manifest holds of a consistent entity is consistent.
pub proof fn lemma_held_consistent(r: RootV, files: Files, table: u64, id: u64, d: DataV)
    requires
        held(r, files, table, id, Some(d)),
        consistent(d, files, r.catalog[table]),
        d.base.id == id,
        exists|es: Seq<Entry>| #[trigger] indexed(r, files, table, 4, es),
    ensures
        consistent(
            stored_data(r, files, table, id)->Ok_0.unwrap(),
            files,
            r.catalog[table],
        ),
{
    let t = r.catalog[table];
    let e = stored_data(r, files, table, id)->Ok_0.unwrap();
    lemma_held_is_read(r, files, table, id, d, d.current.version);
    lemma_stored_at(r, files, table, id, t, d.current.version);
    assert(r.catalog.contains_key(table)) by {
        reveal(located);
    }
    assert(t.schemas.take(t.schemas.len() as int) =~= t.schemas);
    assert(e.committed.dom() =~= Set::empty());
}

/// A stored entity whose reads start from faithful snapshots is read from them as by replay.
proof fn lemma_stored_from_snapshots(
    r: RootV,
    files: Files,
    table: u64,
    id: u64,
    t: TableV,
    version: u64,
)
    requires
        stored_data(r, files, table, id) matches Ok(Some(e)) && e.base.id == id && consistent(
            e,
            files,
            t,
        ) && stored_faithful(e, files, t),
    ensures
        stored_at(r, files, table, id, version, true) == data_at(
            stored_data(r, files, table, id)->Ok_0.unwrap(),
            files,
            t,
            version,
            false,
        ),
{
    let e = stored_data(r, files, table, id)->Ok_0.unwrap();
    if e.base.version <= version < e.current.version {
        lemma_snapshots(e, files, t, version);
        assert(r.catalog.contains_key(table)) by {
            reveal(located);
        }
        let x = started(r, files, table, id, e.base, version, true);
        assert(x->Ok_0.version <= version);
        if e.base.version == version {
            assert(x->Ok_0.version == version) by {
                reveal(started);
            }
        } else {
            let y = advanced(r, files, table, id, e.base, version, true);
            assert(from_disk(e, files, crate::entity::nearest(e, version), version, true) == y);
            lemma_between_empty(e.committed, y->Ok_0.version, version);
            assert(e.events.filter(
                crate::entity::produces(y->Ok_0.version, version),
            ) =~= Seq::empty()) by {
                reveal(Seq::filter);
            }
        }
    }
}

// ---- What a checkpoint works on ----

/// Whether the partitions of the index of events of a table give back entries, and name the
/// files that these point into.
pub open spec fn history_given(
    r: RootV,
    files: Files,
    table: u64,
    contents: Map<Route, Seq<Entry>>,
) -> bool {
    &&& events_given(r, files, table, contents)
    &&& forall|at: Route| #[trigger]
        r.partitions.contains_key(at) && at.table == table && at.kind == 4
            ==> r.partitions[at].file.kind == 4
    &&& forall|at: Route, j: int|
        #![trigger contents[at][j]]
        r.partitions.contains_key(at) && at.table == table && at.kind == 4 && 0 <= j
            < contents[at].len() ==> r.partitions[at].dependencies.contains_key(
            link_file(table, 4, contents[at][j].1),
        )
}

/// Whether every retained event of an entity can be written, and is one of the transactions up
/// to a sequence number.
pub open spec fn history_fits(d: DataV, files: Files, lsn: u64) -> bool {
    forall|k: int|
        0 <= k < d.current.version - d.base.version ==> {
            let event = #[trigger] retained_events(d, files)->Ok_0[k];
            &&& encodable_fields(event.fields)
            &&& enc_event(event).len() <= MAX_RECORD
            &&& event.transaction <= lsn
        }
}

proof fn lemma_entries_from(
    l: Seq<(Route, PartV)>,
    table: u64,
    kind: u8,
    contents: Map<Route, Seq<Entry>>,
    e: Entry,
) -> (j: int)
    requires
        entries_in(l, table, kind, contents).contains(e),
    ensures
        0 <= j < l.len(),
        l[j].0.table == table && l[j].0.kind == kind,
        contents[l[j].0].contains(e),
    decreases l.len(),
{
    let all = entries_in(l, table, kind, contents);
    let i = choose|i: int| 0 <= i < all.len() && all[i] == e;
    if l.len() == 0 {
        assert(false);
        0
    } else {
        let mine = if l[0].0.table == table && l[0].0.kind == kind {
            contents[l[0].0]
        } else {
            Seq::empty()
        };
        let rest = entries_in(l.skip(1), table, kind, contents);
        assert(all == mine + rest);
        if i < mine.len() {
            assert(mine[i] == e);
            0
        } else {
            assert(rest[i - mine.len()] == e);
            let j = lemma_entries_from(l.skip(1), table, kind, contents, e);
            assert(l.skip(1)[j] == l[j + 1]);
            j + 1
        }
    }
}

proof fn lemma_gathered_from(r: RootV, files: Files, table: u64, id: u64, items: Seq<Entry>, k: int)
    requires
        gathered(r, files, table, id, Stream { items, sound: true }) is Ok,
        0 <= k < items.len(),
    ensures
        indexed_event(r, files, table, id, items[k]) == Some(
            gathered(r, files, table, id, Stream { items, sound: true })->Ok_0[k],
        ),
    decreases items.len(),
{
    let rest = items.skip(1);
    let event = indexed_event(r, files, table, id, items[0]).unwrap();
    let more = gathered(r, files, table, id, Stream { items: rest, sound: true })->Ok_0;
    let all = gathered(r, files, table, id, Stream { items, sound: true })->Ok_0;
    assert(all == seq![event] + more);
    if k > 0 {
        lemma_gathered_versions(r, files, table, id, rest);
        lemma_gathered_from(r, files, table, id, rest, k - 1);
        assert(all[k] == more[k - 1]);
    }
}

/// Where a stored event of an entity stands.
proof fn lemma_stored_place(
    d: DataV,
    files: Files,
    t: TableV,
    contents: Map<Route, Seq<Entry>>,
    k: int,
) -> (x: Value)
    requires
        consistent(d, files, t),
        d.disk matches Some(disk) && events_given(disk.root, files, disk.table, contents),
        crate::reader::disk_events(d, files) is Ok,
        0 <= k < crate::reader::disk_events(d, files)->Ok_0.len(),
    ensures
        ({
            let disk = d.disk.unwrap();
            let event = crate::reader::disk_events(d, files)->Ok_0[k];
            let at = route_of(disk.table, 4, (d.base.id, event.version));
            &&& d.base.version < event.version <= disk.through
            &&& disk.root.partitions.contains_key(at)
            &&& gives_back(files, at, disk.root.partitions[at], contents[at])
            &&& contents[at].contains(((d.base.id, event.version), x))
            &&& event_in(disk.root, files, disk.table, x) == Some(
                (d.base.id, event, event.transaction),
            )
        }),
{
    let disk = d.disk.unwrap();
    let (r, table, id) = (disk.root, disk.table, d.base.id);
    let l = listing(r.partitions);
    let es = entries_in(l, table, 4, contents);
    lemma_indexed(r, files, table, 4, contents);
    let p = between((id, (d.base.version + 1) as u64), (id, disk.through));
    let items = es.filter(p);
    assert(index_scan(r, files, table, 4, (id, (d.base.version + 1) as u64), (id, disk.through))
        == (Stream { items, sound: true }));
    lemma_gathered_versions(r, files, table, id, items);
    lemma_gathered_from(r, files, table, id, items, k);
    lemma_filter_member(es, p);
    let e = items[k];
    let event = crate::reader::disk_events(d, files)->Ok_0[k];
    assert(p(e));
    assert(e.0 == (id, event.version));
    let m = choose|m: int| 0 <= m < es.len() && #[trigger] es[m] == e;
    assert(es.contains(e));
    let j = lemma_entries_from(l, table, 4, contents, e);
    crate::key::lemma_listing(r.partitions);
    let at = l[j].0;
    assert(r.partitions.contains_key(at)) by {
        reveal(lists);
    }
    let n = choose|n: int| 0 <= n < contents[at].len() && contents[at][n] == e;
    assert(crate::partitions::bucket_of(at.kind, contents[at][n].0) == at.lower());
    assert(at == route_of(table, 4, e.0));
    reveal(indexed_event);
    e.1
}

/// A committed event that is retained is one that a checkpoint writes.
proof fn lemma_recent_place(d: DataV, low: u64, k: int) -> (n: int)
    requires
        d.base.version <= low,
        0 <= k < committed_between(d.committed, low, u64::MAX).len(),
    ensures
        0 <= n < kept_events(d).len(),
        kept_events(d)[n].1 == committed_between(d.committed, low, u64::MAX)[k],
{
    let s = listing(d.committed);
    let p = spans(low, u64::MAX);
    let q = past_version::<EventV>(d.base.version);
    lemma_filter_member(s, p);
    let e = s.filter(p)[k];
    assert(committed_between(d.committed, low, u64::MAX)[k] == e.1);
    assert(p(e));
    let j = choose|j: int| 0 <= j < s.len() && #[trigger] s[j] == e;
    assert(q(s[j]));
    lemma_filter_has(s, q, j);
    choose|n: int| 0 <= n < s.filter(q).len() && s.filter(q)[n] == s[j]
}

/// A checkpoint holds the entities that it works on: whether an entity is written anew or stays
/// where it is, the manifest that the checkpoint makes has its states and every event of its
/// history.
pub proof fn lemma_worked_is_held(
    c: Copying,
    slots: Seq<Option<u8>>,
    s: StateV,
    t: StateV,
    files: Files,
    quotas: Seq<u64>,
    entries: Seq<(u64, Option<Value>)>,
    a: TableWriter,
    b: TableWriter,
    w: TableWriter,
    out: TableOutput,
    i: int,
    d: DataV,
    before: Map<Route, Seq<Entry>>,
    after: Map<Route, Seq<Entry>>,
)
    requires
        work_all(c, slots, s, files, quotas, entries) is Ok,
        s.catalog.contains_key(c.table),
        0 <= i < entries.len(),
        added(
            a,
            b,
            works_items(s.root, work_all(c, slots, s, files, quotas, entries)->Ok_0.works),
        ),
        b.journal().is_prefix_of(w.journal()),
        w.place().0 == c.table,
        taken_up(w, out, t.root, files),
        history_taken_up(w, out, t.root, files),
        slots.len() == MAX_SLOTS,
        leads(slots, s.root, t.root),
        carried_over(s, t, c.table, entries[i].0),
        entries[i].1 matches Some(v) ==> located(s.root, files, c.table, entries[i].0) == Ok::<
            _,
            Fault,
        >(Some(v)),
        loaded_data(s, files, c.table, entries[i].0) == Ok::<_, Fault>(Some(d)),
        consistent(d, files, s.catalog[c.table]),
        writable(d, entries[i].0),
        d.events.len() == 0,
        history_fits(d, files, t.root.lsn),
        d.disk matches Some(disk) ==> disk.table == c.table && history_given(
            disk.root,
            files,
            c.table,
            before,
        ),
        events_given(t.root, files, c.table, after),
    ensures
        held(t.root, files, c.table, entries[i].0, Some(d)),
        exists|es: Seq<Entry>| #[trigger] indexed(t.root, files, c.table, 4, es),
{
    let id = entries[i].0;
    let works = work_all(c, slots, s, files, quotas, entries)->Ok_0.works;
    lemma_worked_is_read(c, slots, s, t, files, quotas, entries, a, b, w, out, i);
    lemma_work_of(c, slots, s, files, quotas, entries, i);
    lemma_history(d, files, s.catalog[c.table]);
    let all = retained_events(d, files)->Ok_0;
    let stored = crate::reader::disk_events(d, files)->Ok_0;
    let recent = committed_between(d.committed, memory_from(d), u64::MAX);
    assert(all == stored + recent + d.events);
    assert forall|k: int| 0 <= k < d.current.version - d.base.version implies event_stored(
        t.root,
        files,
        c.table,
        id,
        #[trigger] all[k],
    ) by {
        let event = all[k];
        if k < stored.len() {
            assert(event == stored[k]);
            let x = lemma_stored_place(d, files, s.catalog[c.table], before, k);
            let at = route_of(c.table, 4, (id, event.version));
            let m = choose|m: int|
                0 <= m < before[at].len() && before[at][m] == ((id, event.version), x);
            assert(before[at][m].1 == x);
            let (_, low, last) = carried_range(works[i]);
            assert(work_root(s.root, works[i]) == d.disk.unwrap().root);
            assert(low < event.version <= last);
            lemma_stored_event_is_kept(
                c,
                slots,
                s,
                files,
                quotas,
                entries,
                a,
                b,
                w,
                out,
                t.root,
                i,
                before[at],
                x,
                event,
            );
        } else {
            assert(event == recent[k - stored.len()]);
            let n = lemma_recent_place(d, memory_from(d), k - stored.len());
            if works[i] is Carry {
                assert(d.committed =~= Map::empty());
                lemma_between_empty(d.committed, memory_from(d), u64::MAX);
                assert(false);
            }
            lemma_recent_event_is_kept(
                c,
                slots,
                s,
                files,
                quotas,
                entries,
                a,
                b,
                w,
                out,
                t.root,
                i,
                n,
            );
        }
    }
    lemma_held(t.root, files, c.table, id, d, s.catalog[c.table], after);
}

/// A checkpoint holds the entities of a bucket that it keeps whole.
pub proof fn lemma_whole_is_held(
    c: Checkpoint,
    s: StateV,
    t: StateV,
    files: Files,
    a: TableWriter,
    b: TableWriter,
    w: TableWriter,
    out: TableOutput,
    table: u64,
    low: u64,
    id: u64,
    d: DataV,
    before: Map<Route, Seq<Entry>>,
    after: Map<Route, Seq<Entry>>,
)
    requires
        stays_whole(c, s, table, low),
        kept_whole(c, a, b, s.root, table, low),
        b.journal().is_prefix_of(w.journal()),
        w.place().0 == table,
        taken_up(w, out, t.root, files),
        history_taken_up(w, out, t.root, files),
        c.slots@.len() == MAX_SLOTS,
        leads(c.slots@, s.root, t.root),
        carried_over(s, t, table, id),
        crate::snapshot::valid_root(s.root),
        route_of(table, 3, (id, 0)) == (Route { table, kind: 3, low, low_second: 0 }),
        low <= id <= bucket_end(low),
        s.root.partitions[Route { table, kind: 3, low, low_second: 0 }].file.kind == 3,
        s.overlay.dom().finite(),
        s.catalog.contains_key(table),
        loaded_data(s, files, table, id) == Ok::<_, Fault>(Some(d)),
        consistent(d, files, s.catalog[table]),
        d.base.id == id,
        history_fits(d, files, t.root.lsn),
        history_given(s.root, files, table, before),
        events_given(t.root, files, table, after),
    ensures
        held(t.root, files, table, id, Some(d)),
        exists|es: Seq<Entry>| #[trigger] indexed(t.root, files, table, 4, es),
{
    lemma_kept_whole_is_read(c, s, t, files, a, b, w, out, table, low, id);
    lemma_recent(s.overlay, table, low, bucket_end(low));
    if s.overlay.contains_key((table, id)) {
        assert(recent_ids(s.overlay, table, low, bucket_end(low)).contains(id));
    }
    lemma_history(d, files, s.catalog[table]);
    let all = retained_events(d, files)->Ok_0;
    let stored = crate::reader::disk_events(d, files)->Ok_0;
    lemma_between_empty(d.committed, memory_from(d), u64::MAX);
    assert(all =~= stored);
    assert forall|k: int| 0 <= k < d.current.version - d.base.version implies event_stored(
        t.root,
        files,
        table,
        id,
        #[trigger] all[k],
    ) by {
        let event = all[k];
        let x = lemma_stored_place(d, files, s.catalog[table], before, k);
        let at = route_of(table, 4, (id, event.version));
        let m = choose|m: int|
            0 <= m < before[at].len() && before[at][m] == ((id, event.version), x);
        assert(before[at][m].1 == x);
        let p = s.root.partitions[at];
        reveal(index_lookup);
        lemma_given(files, at, p, before[at], (id, event.version), x);
        assert(crate::partitions::translated(p, before[at][m].1) == Some(before[at][m].1));
        assert(event_stored(s.root, files, table, id, event));
        lemma_whole_event_is_kept(c, s, files, a, b, w, out, t.root, table, low, id, event);
    }
    lemma_held(t.root, files, table, id, d, s.catalog[table], after);
}

/// A checkpoint holds nothing of an identifier that it has nothing for.
pub proof fn lemma_absent_is_held(
    w: TableWriter,
    out: TableOutput,
    t: StateV,
    files: Files,
    id: u64,
)
    requires
        taken_up(w, out, t.root, files),
        carried_over(t, t, w.place().0, id),
        forall|n: int|
            0 <= n < w.journal().len() && item_kind((#[trigger] w.journal()[n]).0) == 3
                ==> item_key(w.journal()[n].0) != (id, 0u64),
        t.root.partitions.contains_key(route_of(w.place().0, 3, (id, 0)))
            ==> w.index().lane(3).contents().contains_key(route_of(w.place().0, 3, (id, 0))),
    ensures
        held(t.root, files, w.place().0, id, None),
{
    lemma_unwritten_is_absent(w, out, t, files, id);
}

// ---- What is written meanwhile ----

/// Whether a view is one with what was written since another: entities that were changed, and
/// tables that keep their schemas.
pub open spec fn written_since(s: StateV, t: StateV, tail: Map<Key, DataV>) -> bool {
    &&& t.root == s.root
    &&& t.overlay == s.overlay.union_prefer_right(tail)
    &&& t.poisoned == s.poisoned
    &&& forall|x: u64| #[trigger]
        s.catalog.contains_key(x) ==> t.catalog.contains_key(x) && extends(
            s.catalog[x],
            t.catalog[x],
        )
}

/// Whether transactions keep the schemas of every table, one after another.
pub open spec fn schemas_kept(s: StateV, active: Seq<(usize, Prepared)>, lsn: u64) -> bool
    decreases active.len(),
{
    active.len() > 0 ==> {
        let before = published_all(s, active.drop_last(), lsn);
        &&& schemas_kept(s, active.drop_last(), lsn)
        &&& forall|x: u64| #[trigger]
            before.catalog.contains_key(x) ==> active.last().1.writes().catalog.contains_key(x)
                && extends(before.catalog[x], active.last().1.writes().catalog[x])
    }
}

/// What is set aside while a checkpoint is built is what was written since it was captured: it
/// is nothing at first, and stays so with every group of transactions that is published.
pub proof fn lemma_set_aside(
    s: StateV,
    t: StateV,
    tail: Map<Key, DataV>,
    active: Seq<(usize, Prepared)>,
    lsn: u64,
)
    requires
        written_since(s, t, tail),
        schemas_kept(t, active, lsn),
    ensures
        written_since(s, s, Map::empty()),
        tail_after(Some(tail), active) is Some,
        written_since(s, published_all(t, active, lsn), tail_after(Some(tail), active).unwrap()),
    decreases active.len(),
{
    assert(s.overlay.union_prefer_right(Map::empty()) =~= s.overlay);
    assert forall|x: u64| #[trigger] s.catalog.contains_key(x) implies extends(
        s.catalog[x],
        s.catalog[x],
    ) by {
        let schemas = s.catalog[x].schemas;
        assert(schemas.take(schemas.len() as int) =~= schemas);
    }
    if active.len() > 0 {
        lemma_set_aside(s, t, tail, active.drop_last(), lsn);
        let before = published_all(t, active.drop_last(), lsn);
        let m = tail_after(Some(tail), active.drop_last()).unwrap();
        let more = sealed_all(active.last().1.staged@);
        assert(s.overlay.union_prefer_right(m).union_prefer_right(more)
            =~= s.overlay.union_prefer_right(m.union_prefer_right(more)));
        let w = active.last().1.writes();
        assert forall|x: u64| #[trigger] s.catalog.contains_key(x) implies w.catalog.contains_key(x)
            && extends(s.catalog[x], w.catalog[x]) by {
            assert(before.catalog.contains_key(x));
            crate::consistency::lemma_extends_twice(
                s.catalog[x],
                before.catalog[x],
                w.catalog[x],
            );
        }
    }
}

// ---- Installation ----

/// A view that rests on a new checkpoint, with what was written since that was captured.
pub open spec fn installed(t: StateV, tail: Map<Key, DataV>, r: RootV) -> StateV {
    StateV { root: r, overlay: tail, ..t }
}

/// Whether two views read alike, as far as one entity goes: its live state, its state at every
/// version, by full replay and from snapshots, its replay, its events and the versions that are
/// retained.
pub open spec fn reads_alike(s: StateV, t: StateV, files: Files, table: u64, id: u64) -> bool {
    &&& state_get(t, files, table, id) == state_get(s, files, table, id)
    &&& forall|version: u64| #[trigger]
        state_at(t, files, table, id, version, false) == state_at(
            s,
            files,
            table,
            id,
            version,
            false,
        )
    &&& forall|version: u64| #[trigger]
        state_at(t, files, table, id, version, true) == state_at(s, files, table, id, version, true)
    &&& state_replayed(t, files, table, id) == state_replayed(s, files, table, id)
    &&& state_events(t, files, table, id) == state_events(s, files, table, id)
    &&& match loaded_data(s, files, table, id) {
        Err(f) => loaded_data(t, files, table, id) == Err::<Option<DataV>, _>(f),
        Ok(None) => loaded_data(t, files, table, id) == Ok::<_, Fault>(None::<DataV>),
        Ok(Some(d)) => loaded_data(t, files, table, id) matches Ok(Some(e)) && e.base == d.base
            && e.current == d.current,
    }
}

/// A checkpoint and its installation leave every read as it was, with the writes made meanwhile:
/// where a manifest holds the entities of the view that was captured, the view that rests on it,
/// with only what was written since in memory, reads as the one before the installation did.
pub proof fn lemma_installed(
    s: StateV,
    t: StateV,
    tail: Map<Key, DataV>,
    r: RootV,
    files: Files,
    table: u64,
    id: u64,
)
    requires
        all_consistent(s, files),
        written_since(s, t, tail),
        r.catalog == s.catalog,
        s.catalog.contains_key(table) ==> {
            &&& loaded_data(s, files, table, id) matches Ok(d) && held(r, files, table, id, d) && (
            d matches Some(d) ==> stored_faithful(d, files, s.catalog[table]) && stored_faithful(
                stored_data(r, files, table, id)->Ok_0.unwrap(),
                files,
                s.catalog[table],
            ))
            &&& exists|es: Seq<Entry>| #[trigger] indexed(r, files, table, 4, es)
        },
    ensures
        reads_alike(t, installed(t, tail, r), files, table, id),
{
    let n = installed(t, tail, r);
    let key = (table, id);
    if !tail.contains_key(key) {
        if !s.catalog.contains_key(table) {
            lemma_no_table(s, t, tail, r, files, table, id);
        } else {
            match loaded_data(s, files, table, id)->Ok_0 {
                None => {
                    assert(!s.overlay.contains_key(key));
                },
                Some(d) => {
                    lemma_installed_entity(s, t, tail, r, files, table, id, d);
                },
            }
        }
    }
}

proof fn lemma_no_table(
    s: StateV,
    t: StateV,
    tail: Map<Key, DataV>,
    r: RootV,
    files: Files,
    table: u64,
    id: u64,
)
    requires
        all_consistent(s, files),
        written_since(s, t, tail),
        r.catalog == s.catalog,
        !s.catalog.contains_key(table),
        !tail.contains_key((table, id)),
    ensures
        reads_alike(t, installed(t, tail, r), files, table, id),
{
    reveal(located);
    assert(!s.overlay.contains_key((table, id))) by {
        let k = (table, id);
        if s.overlay.contains_key(k) {
            assert(s.catalog.contains_key(k.0));
        }
    }
    assert(!s.root.catalog.contains_key(table));
    assert(located(s.root, files, table, id) == located(r, files, table, id));
}

proof fn lemma_installed_entity(
    s: StateV,
    t: StateV,
    tail: Map<Key, DataV>,
    r: RootV,
    files: Files,
    table: u64,
    id: u64,
    d: DataV,
)
    requires
        all_consistent(s, files),
        written_since(s, t, tail),
        r.catalog == s.catalog,
        s.catalog.contains_key(table),
        loaded_data(s, files, table, id) == Ok::<_, Fault>(Some(d)),
        held(r, files, table, id, Some(d)),
        stored_faithful(d, files, s.catalog[table]),
        stored_faithful(
            stored_data(r, files, table, id)->Ok_0.unwrap(),
            files,
            s.catalog[table],
        ),
        d.base.id == id,
        exists|es: Seq<Entry>| #[trigger] indexed(r, files, table, 4, es),
        !tail.contains_key((table, id)),
    ensures
        reads_alike(t, installed(t, tail, r), files, table, id),
{
    let n = installed(t, tail, r);
    let key = (table, id);
    let (now, later) = (s.catalog[table], t.catalog[table]);
    assert(consistent(d, files, now));
    assert forall|version: u64| #[trigger]
        state_at(n, files, table, id, version, false) == state_at(
            t,
            files,
            table,
            id,
            version,
            false,
        ) by {
        lemma_held_is_read(r, files, table, id, d, version);
        if d.base.version <= version <= d.current.version {
            lemma_every_version(d, files, now, version);
            lemma_later_schema(d, files, now, later, version, false);
        }
        if !s.overlay.contains_key(key) {
            lemma_stored_at(s.root, files, table, id, now, version);
        }
    }
    lemma_held_consistent(r, files, table, id, d);
    assert forall|version: u64| #[trigger]
        state_at(n, files, table, id, version, true) == state_at(
            t,
            files,
            table,
            id,
            version,
            true,
        ) by {
        lemma_held_is_read(r, files, table, id, d, version);
        lemma_stored_at(r, files, table, id, now, version);
        lemma_stored_from_snapshots(r, files, table, id, now, version);
        lemma_snapshots(d, files, now, version);
        if d.base.version <= version <= d.current.version {
            lemma_later_schema(d, files, now, later, version, true);
        }
        if !s.overlay.contains_key(key) {
            lemma_stored_from_snapshots(s.root, files, table, id, now, version);
        }
    }
    let v = d.current.version;
    assert(state_at(n, files, table, id, v, false) == state_at(t, files, table, id, v, false));
}

} // verus!
