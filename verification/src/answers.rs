//! What views answer: a scan of a table and the reads of its entities tell the same, and a commit
//! shows exactly what its transaction has done.

use crate::behaviour::declares;
use crate::behaviour::lemma_apply;
use crate::behaviour::lemma_delete;
use crate::behaviour::now_of;
use crate::behaviour::one_event_more;
use crate::commit::Prepared;
use crate::commit::first_writes;
use crate::commit::published;
use crate::commit::published_all;
use crate::commit::restamped;
use crate::commit::stamped;
use crate::consistency::all_consistent;
use crate::consistency::consistent;
use crate::consistency::extends;
use crate::consistency::later_catalog;
use crate::consistency::lemma_committed;
use crate::consistency::lemma_consistent_later;
use crate::consistency::lemma_transaction;
use crate::consistency::staged_consistent;
use crate::entity::DataV;
use crate::entity::committed_between;
use crate::entity::data_at;
use crate::entity::folded;
use crate::entity::from_disk;
use crate::entity::lemma_sealed;
use crate::entity::lemma_sealed_between;
use crate::entity::nearest;
use crate::entity::produces;
use crate::entity::sealed;
use crate::error::Fault;
use crate::indexes::gives;
use crate::installing::lemma_version_is_fold;
use crate::keeping::lemma_entry_is_located;
use crate::key::lemma_filter_map;
use crate::key::lemma_listing;
use crate::key::listing;
use crate::key::lists;
use crate::model::EntityV;
use crate::model::EventV;
use crate::model::TableV;
use crate::model::ValueV;
use crate::operation::OpV;
use crate::overlay::Key;
use crate::partitions::PartV;
use crate::partitions::Route;
use crate::partitions::index_lookup;
use crate::partitions::route_of;
use crate::partitions::shared_slot;
use crate::partitions::tree_of;
use crate::reader::Merged;
use crate::reader::StateV;
use crate::reader::admitted;
use crate::reader::disk_events;
use crate::reader::live_rows;
use crate::reader::loaded_data;
use crate::reader::memory_from;
use crate::reader::merged;
use crate::reader::primary;
use crate::reader::recent_ids;
use crate::reader::retained_events;
use crate::reader::state_at;
use crate::reader::state_events;
use crate::reader::state_get;
use crate::reader::state_replayed;
use crate::reader::table_entries;
use crate::reader::table_rows;
use crate::reader::visited_state;
use crate::reading::located;
use crate::reading::state_in;
use crate::reading::stepped;
use crate::snapshot::RootV;
use crate::staging::WritesV;
use crate::staging::executed;
use crate::staging::executed_all;
use crate::staging::fetched;
use crate::staging::transaction_get;
use crate::storage::index::Entry;
use crate::storage::index::Stream;
use crate::storage::index::Value;
use crate::storage::pager::Files;
use crate::versions::lemma_history;
use crate::walks::entries_in;
use crate::walks::gives_back;
use crate::walks::ids_of;
use crate::walks::lemma_indexed;
use crate::walks::lemma_merged;
use crate::walks::lemma_recent;
use crate::walks::lemma_walk;
use crate::walks::rising;
use crate::walks::visited;
use vstd::prelude::*;

verus! {

// ---- Scans ----

/// Whether the primary index of a table gives back entries, one for an identifier, each of which
/// leads to the states of one generation.
pub open spec fn primary_sound(
    r: RootV,
    files: Files,
    table: u64,
    contents: Map<Route, Seq<Entry>>,
) -> bool {
    &&& r.partitions.dom().finite()
    &&& forall|at: Route| #[trigger]
        r.partitions.contains_key(at) && at.table == table && at.kind == 3 ==> {
            &&& gives_back(files, at, r.partitions[at], contents[at])
            &&& forall|i: int|
                0 <= i < contents[at].len() ==> (#[trigger] contents[at][i]).0.1 == 0
                    && shared_slot(contents[at][i].1) is Some
        }
}

/// The entries of an index are those of its partitions.
proof fn lemma_entries(
    l: Seq<(Route, PartV)>,
    table: u64,
    kind: u8,
    contents: Map<Route, Seq<Entry>>,
    e: Entry,
)
    ensures
        entries_in(l, table, kind, contents).contains(e) <==> exists|i: int|
            0 <= i < l.len() && (#[trigger] l[i]).0.table == table && l[i].0.kind == kind
                && contents[l[i].0].contains(e),
    decreases l.len(),
{
    let es = entries_in(l, table, kind, contents);
    if l.len() > 0 {
        let more = entries_in(l.skip(1), table, kind, contents);
        lemma_entries(l.skip(1), table, kind, contents, e);
        let first = if l[0].0.table == table && l[0].0.kind == kind {
            contents[l[0].0]
        } else {
            Seq::empty()
        };
        if es.contains(e) {
            let k = choose|k: int| 0 <= k < es.len() && es[k] == e;
            if k < first.len() {
                assert(first[k] == e);
                assert(contents[l[0].0].contains(e));
            } else {
                assert(more[k - first.len()] == e);
                let i = choose|i: int|
                    0 <= i < l.skip(1).len() && (#[trigger] l.skip(1)[i]).0.table == table
                        && l.skip(1)[i].0.kind == kind && contents[l.skip(1)[i].0].contains(e);
                assert(l[i + 1] == l.skip(1)[i]);
            }
        }
        if exists|i: int|
            0 <= i < l.len() && (#[trigger] l[i]).0.table == table && l[i].0.kind == kind
                && contents[l[i].0].contains(e) {
            let i = choose|i: int|
                0 <= i < l.len() && (#[trigger] l[i]).0.table == table && l[i].0.kind == kind
                    && contents[l[i].0].contains(e);
            if i == 0 {
                let k = choose|k: int| 0 <= k < first.len() && first[k] == e;
                assert(es[k] == e);
            } else {
                assert(l.skip(1)[i - 1] == l[i]);
                let k = choose|k: int| 0 <= k < more.len() && more[k] == e;
                assert(es[first.len() + k] == e);
            }
        }
    }
}

/// An identifier is found by its entry among those of the primary index, and is not found
/// without one.
proof fn lemma_found_by(
    r: RootV,
    files: Files,
    table: u64,
    contents: Map<Route, Seq<Entry>>,
    id: u64,
)
    requires
        r.catalog.contains_key(table),
        primary_sound(r, files, table, contents),
    ensures
        ({
            let es = entries_in(listing(r.partitions), table, 3, contents);
            &&& forall|v: Value|
                #[trigger] es.contains(((id, 0u64), v)) ==> located(r, files, table, id) == Ok::<
                    _,
                    Fault,
                >(Some(v))
            &&& (forall|v: Value| !(#[trigger] es.contains(((id, 0u64), v)))) ==> located(
                r,
                files,
                table,
                id,
            ) == Ok::<_, Fault>(None::<Value>)
        }),
{
    let l = listing(r.partitions);
    let es = entries_in(l, table, 3, contents);
    let at = route_of(table, 3, (id, 0));
    lemma_listing(r.partitions);
    reveal(lists);
    assert forall|v: Value| #[trigger] es.contains(((id, 0u64), v)) implies located(
        r,
        files,
        table,
        id,
    ) == Ok::<_, Fault>(Some(v)) by {
        let e = ((id, 0u64), v);
        lemma_entries(l, table, 3, contents, e);
        let i = choose|i: int|
            0 <= i < l.len() && (#[trigger] l[i]).0.table == table && l[i].0.kind == 3
                && contents[l[i].0].contains(e);
        assert(r.partitions.contains_key(l[i].0));
        let c = contents[l[i].0];
        let k = choose|k: int| 0 <= k < c.len() && c[k] == e;
        assert(shared_slot(c[k].1) is Some);
        assert(l[i].0 == at);
        lemma_entry_is_located(r, files, table, id, v, c);
    }
    if forall|v: Value| !(#[trigger] es.contains(((id, 0u64), v))) {
        reveal(located);
        reveal(index_lookup);
        if r.partitions.contains_key(at) {
            reveal(gives);
            let p = r.partitions[at];
            let c = contents[at];
            assert(gives_back(files, at, p, c));
            let x = crate::storage::index::lookup_of(tree_of(files, p), p.lsn, (id, 0));
            if let Some(Some(v)) = x {
                assert(c.contains(((id, 0u64), v)));
                let i = choose|i: int| 0 <= i < l.len() && (#[trigger] l[i]).0 == at;
                lemma_entries(l, table, 3, contents, ((id, 0u64), v));
                assert(contents[l[i].0].contains(((id, 0u64), v)));
            }
        }
    }
}

proof fn lemma_bare(disk: Stream, recent: Seq<u64>)
    ensures
        forall|i: int|
            0 <= i < merged(disk, recent).items.len() && (#[trigger] merged(disk, recent).items[i]).1
                is None ==> recent.contains(merged(disk, recent).items[i].0),
    decreases disk.items.len() + recent.len(),
{
    let all = merged(disk, recent);
    if !(disk.items.len() == 0 && !disk.sound) && (disk.items.len() > 0 || recent.len() > 0) {
        let from_disk = disk.items.len() > 0 && (recent.len() == 0 || disk.items[0].0.0
            <= recent[0]);
        let from_recent = recent.len() > 0 && (disk.items.len() == 0 || recent[0]
            <= disk.items[0].0.0);
        let left = if from_disk {
            Stream { items: disk.items.skip(1), sound: disk.sound }
        } else {
            disk
        };
        let right = if from_recent {
            recent.skip(1)
        } else {
            recent
        };
        lemma_bare(left, right);
        let more = merged(left, right);
        assert forall|i: int| 0 <= i < all.items.len() && (
        #[trigger] all.items[i]).1 is None implies recent.contains(all.items[i].0) by {
            if i == 0 {
                assert(recent[0] == all.items[0].0);
            } else {
                assert(all.items[i] == more.items[i - 1]);
                let k = choose|k: int| 0 <= k < right.len() && right[k] == all.items[i].0;
                if from_recent {
                    assert(recent[k + 1] == right[k]);
                } else {
                    assert(recent[k] == right[k]);
                }
            }
        }
    }
}

/// Whether what a walk comes to at an identifier is what a read of it comes to.
pub open spec fn told(s: StateV, files: Files, table: u64, item: (u64, Option<Value>)) -> bool {
    match visited_state(s, files, table, item.0, item.1) {
        None => state_get(s, files, table, item.0) is Err,
        Some(e) => e.id == item.0 && state_get(s, files, table, item.0) == Ok::<_, Fault>(
            if e.deleted {
                None
            } else {
                Some(e)
            },
        ),
    }
}

/// The rows of a walk that tells what reads tell.
proof fn lemma_rows(s: StateV, files: Files, table: u64, walk: Merged)
    requires
        walk.sound,
        rising(visited(walk.items)),
        forall|i: int| 0 <= i < walk.items.len() ==> told(s, files, table, #[trigger] walk.items[i]),
    ensures
        ({
            let rows = live_rows(s, files, table, walk);
            let ids = visited(walk.items);
            &&& forall|i: int, j: int|
                0 <= i < j < rows.items.len() ==> (#[trigger] rows.items[i]).id < (
                #[trigger] rows.items[j]).id
            &&& forall|i: int|
                0 <= i < rows.items.len() ==> ids.contains((#[trigger] rows.items[i]).id)
                    && state_get(s, files, table, rows.items[i].id) == Ok::<_, Fault>(
                    Some(rows.items[i]),
                )
            &&& rows.sound ==> forall|id: u64| #[trigger]
                ids.contains(id) ==> state_get(s, files, table, id) is Ok && (state_get(
                    s,
                    files,
                    table,
                    id,
                )->Ok_0 matches Some(e) ==> rows.items.contains(e))
            &&& !rows.sound ==> exists|bad: u64| #[trigger]
                ids.contains(bad) && state_get(s, files, table, bad) is Err && (forall|id: u64|
                    #[trigger]
                    ids.contains(id) && id < bad ==> state_get(s, files, table, id) is Ok && (
                    state_get(s, files, table, id)->Ok_0 matches Some(e) ==> rows.items.contains(
                        e,
                    ))) && (forall|i: int|
                    0 <= i < rows.items.len() ==> (#[trigger] rows.items[i]).id < bad)
        }),
    decreases walk.items.len(),
{
    let rows = live_rows(s, files, table, walk);
    let ids = visited(walk.items);
    if walk.items.len() > 0 {
        let item = walk.items[0];
        assert(told(s, files, table, item));
        assert(ids[0] == item.0);
        let left = Merged { items: walk.items.skip(1), sound: walk.sound };
        let tail = visited(left.items);
        assert forall|i: int| 0 <= i < left.items.len() implies told(
            s,
            files,
            table,
            #[trigger] left.items[i],
        ) by {
            assert(left.items[i] == walk.items[i + 1]);
        }
        assert forall|i: int, j: int| 0 <= i < j < tail.len() implies (#[trigger] tail[i])
            < #[trigger] tail[j] by {
            assert(tail[i] == ids[i + 1] && tail[j] == ids[j + 1]);
        }
        assert forall|id: u64| #[trigger] tail.contains(id) implies ids.contains(id) && item.0 < id by {
            let k = choose|k: int| 0 <= k < tail.len() && tail[k] == id;
            assert(ids[k + 1] == id);
            assert(ids[0] < ids[k + 1]);
        }
        assert forall|id: u64| #[trigger] ids.contains(id) && id != item.0 implies tail.contains(id) by {
            let k = choose|k: int| 0 <= k < ids.len() && ids[k] == id;
            assert(tail[k - 1] == id);
        }
        match visited_state(s, files, table, item.0, item.1) {
            None => {
                assert(ids.contains(item.0));
                assert forall|id: u64| #[trigger] ids.contains(id) implies id >= item.0 by {
                }
            },
            Some(e) => {
                lemma_rows(s, files, table, left);
                let more = live_rows(s, files, table, left);
                let skip: int = if e.deleted {
                    0
                } else {
                    1
                };
                assert forall|i: int| 0 <= i < more.items.len() implies rows.items[i + skip]
                    == #[trigger] more.items[i] by {
                }
                assert forall|x: EntityV| #[trigger] more.items.contains(x) implies rows.items.contains(
                    x,
                ) by {
                    let k = choose|k: int| 0 <= k < more.items.len() && more.items[k] == x;
                    assert(rows.items[k + skip] == x);
                }
                if !e.deleted {
                    assert(rows.items[0] == e);
                    assert(rows.items.contains(e));
                }
                assert forall|i: int| 0 <= i < rows.items.len() implies ids.contains(
                    (#[trigger] rows.items[i]).id,
                ) && state_get(s, files, table, rows.items[i].id) == Ok::<_, Fault>(
                    Some(rows.items[i]),
                ) by {
                    if i >= skip {
                        assert(rows.items[i] == more.items[i - skip]);
                    } else {
                        assert(ids.contains(item.0));
                    }
                }
                assert forall|i: int, j: int| 0 <= i < j < rows.items.len() implies (
                #[trigger] rows.items[i]).id < (#[trigger] rows.items[j]).id by {
                    assert(rows.items[j] == more.items[j - skip]);
                    if i >= skip {
                        assert(rows.items[i] == more.items[i - skip]);
                    } else {
                        assert(tail.contains(rows.items[j].id));
                    }
                }
                if !rows.sound {
                    let bad = choose|bad: u64| #[trigger]
                        tail.contains(bad) && state_get(s, files, table, bad) is Err && (forall|
                            id: u64,
                        | #[trigger]
                            tail.contains(id) && id < bad ==> state_get(s, files, table, id) is Ok
                                && (state_get(s, files, table, id)->Ok_0 matches Some(e)
                                ==> more.items.contains(e))) && (forall|i: int|
                            0 <= i < more.items.len() ==> (#[trigger] more.items[i]).id < bad);
                    assert(ids.contains(bad));
                    assert forall|i: int| 0 <= i < rows.items.len() implies (
                    #[trigger] rows.items[i]).id < bad by {
                        if i >= skip {
                            assert(rows.items[i] == more.items[i - skip]);
                        }
                    }
                }
            },
        }
    }
}

proof fn lemma_state_id(r: RootV, files: Files, table: u64, kind: u8, locator: u64, id: u64)
    ensures
        state_in(r, files, table, kind, locator, id) matches Some(e) ==> e.id == id,
{
    reveal(state_in);
}

/// Whether every changed entity of a table stands under its identifier.
pub open spec fn own_places(s: StateV, table: u64) -> bool {
    forall|id: u64| #[trigger]
        s.overlay.contains_key((table, id)) ==> s.overlay[(table, id)].current.id == id
}

/// A scan of a table and the reads of its entities agree: the rows come in increasing order of
/// their identifiers, each once, and each is what a read of its identifier gives, so that none is
/// deleted. A scan that ends well has come to every entity that a read finds; one that fails does
/// so at an identifier whose read fails, with every entity in front of it given.
pub proof fn lemma_scan(s: StateV, files: Files, table: u64, contents: Map<Route, Seq<Entry>>)
    requires
        admitted(s, table) is None,
        s.overlay.dom().finite(),
        own_places(s, table),
        s.root.catalog.contains_key(table) ==> primary_sound(s.root, files, table, contents),
    ensures
        ({
            let rows = table_rows(s, files, table);
            &&& forall|i: int, j: int|
                0 <= i < j < rows.items.len() ==> (#[trigger] rows.items[i]).id < (
                #[trigger] rows.items[j]).id
            &&& forall|i: int|
                0 <= i < rows.items.len() ==> !(#[trigger] rows.items[i]).deleted && state_get(
                    s,
                    files,
                    table,
                    rows.items[i].id,
                ) == Ok::<_, Fault>(Some(rows.items[i]))
            &&& rows.sound ==> forall|id: u64|
                (#[trigger] state_get(s, files, table, id)) is Ok && (state_get(
                    s,
                    files,
                    table,
                    id,
                )->Ok_0 matches Some(e) ==> rows.items.contains(e))
            &&& (forall|id: u64| (#[trigger] state_get(s, files, table, id)) is Ok) ==> rows.sound
            &&& !rows.sound ==> exists|bad: u64|
                (#[trigger] state_get(s, files, table, bad)) is Err && (forall|id: u64|
                    id < bad ==> (#[trigger] state_get(s, files, table, id)) is Ok && (state_get(
                        s,
                        files,
                        table,
                        id,
                    )->Ok_0 matches Some(e) ==> rows.items.contains(e))) && (forall|i: int|
                    0 <= i < rows.items.len() ==> (#[trigger] rows.items[i]).id < bad)
        }),
{
    let walk = table_entries(s, files, table, 0, u64::MAX);
    let disk = primary(s.root, files, table, 0, u64::MAX);
    let recent = recent_ids(s.overlay, table, 0, u64::MAX);
    let es = entries_in(listing(s.root.partitions), table, 3, contents);
    let ids = visited(walk.items);
    let stored = s.root.catalog.contains_key(table);
    lemma_recent(s.overlay, table, 0, u64::MAX);
    lemma_bare(disk, recent);
    if stored {
        lemma_indexed(s.root, files, table, 3, contents);
        assert forall|i: int| 0 <= i < es.len() implies (#[trigger] es[i]).0.1 == 0 by {
            let l = listing(s.root.partitions);
            lemma_listing(s.root.partitions);
            reveal(lists);
            assert(es.contains(es[i]));
            lemma_entries(l, table, 3, contents, es[i]);
            let n = choose|n: int|
                0 <= n < l.len() && (#[trigger] l[n]).0.table == table && l[n].0.kind == 3
                    && contents[l[n].0].contains(es[i]);
            assert(s.root.partitions.contains_key(l[n].0));
            let c = contents[l[n].0];
            let k = choose|k: int| 0 <= k < c.len() && c[k] == es[i];
            assert(c[k].0.1 == 0);
        }
        lemma_walk(s, files, table, 0, u64::MAX, es);
    } else {
        assert(ids_of(disk.items) =~= Seq::empty());
        lemma_merged(disk, recent);
        reveal(located);
    }
    assert forall|i: int| 0 <= i < walk.items.len() implies told(
        s,
        files,
        table,
        #[trigger] walk.items[i],
    ) by {
        let (id, place) = walk.items[i];
        assert(ids[i] == id);
        assert(ids.contains(id));
        if !s.overlay.contains_key((table, id)) {
            match place {
                None => {
                    assert(recent.contains(id));
                },
                Some(v) => {
                    if stored {
                        let k = choose|k: int|
                            0 <= k < es.len() && (#[trigger] es[k]).0.0 == id && es[k].1 == v;
                        assert(es[k] == ((id, 0u64), v));
                        assert(es.contains(((id, 0u64), v)));
                        lemma_found_by(s.root, files, table, contents, id);
                        lemma_state_id(s.root, files, table, 0, v.0, id);
                    }
                },
            }
        }
    }
    lemma_rows(s, files, table, walk);
    assert forall|id: u64| !(#[trigger] ids.contains(id)) implies state_get(s, files, table, id)
        == Ok::<_, Fault>(None::<EntityV>) by {
        if stored {
            lemma_found_by(s.root, files, table, contents, id);
            assert forall|v: Value| !(#[trigger] es.contains(((id, 0u64), v))) by {
                if es.contains(((id, 0u64), v)) {
                    let k = choose|k: int| 0 <= k < es.len() && es[k] == ((id, 0u64), v);
                    assert(ids_of(es)[k] == id);
                }
            }
        }
    }
    let rows = table_rows(s, files, table);
    if rows.sound {
        assert forall|id: u64|
            (#[trigger] state_get(s, files, table, id)) is Ok && (state_get(
                s,
                files,
                table,
                id,
            )->Ok_0 matches Some(e) ==> rows.items.contains(e)) by {
            if !ids.contains(id) {
            }
        }
    } else {
        let bad = choose|bad: u64| #[trigger]
            ids.contains(bad) && state_get(s, files, table, bad) is Err && (forall|id: u64|
                #[trigger]
                ids.contains(id) && id < bad ==> state_get(s, files, table, id) is Ok && (state_get(
                    s,
                    files,
                    table,
                    id,
                )->Ok_0 matches Some(e) ==> rows.items.contains(e))) && (forall|i: int|
                0 <= i < rows.items.len() ==> (#[trigger] rows.items[i]).id < bad);
        assert forall|id: u64|
            id < bad implies (#[trigger] state_get(s, files, table, id)) is Ok && (state_get(
            s,
            files,
            table,
            id,
        )->Ok_0 matches Some(e) ==> rows.items.contains(e)) by {
            if !ids.contains(id) {
            }
        }
    }
}

// ---- Commits ----

/// A commit shows what its transaction saw: a read of the view that it publishes gives what a
/// read in the transaction gave. An entity that the transaction has not touched reads as in the
/// view before.
pub proof fn lemma_commit_shows(
    base: StateV,
    files: Files,
    w: WritesV,
    lsn: u64,
    table: u64,
    id: u64,
)
    requires
        forall|t: u64| #[trigger] base.root.catalog.contains_key(t) ==> base.catalog.contains_key(t),
        forall|k: Key| #[trigger] base.overlay.contains_key(k) ==> base.catalog.contains_key(k.0),
    ensures
        ({
            let s = published(base, w, lsn);
            &&& state_get(s, files, table, id) == transaction_get(base, files, w, table, id)
            &&& s.lsn == lsn && s.root == base.root && s.catalog == w.catalog
            &&& s.poisoned == base.poisoned
            &&& w.catalog.contains_key(table) && base.catalog.contains_key(table)
                && !w.staged.contains_key((table, id)) ==> {
                &&& state_get(s, files, table, id) == state_get(base, files, table, id)
                &&& loaded_data(s, files, table, id) == loaded_data(base, files, table, id)
                &&& state_events(s, files, table, id) == state_events(base, files, table, id)
            }
            &&& w.catalog.contains_key(table) && !base.poisoned && w.staged.contains_key((table, id))
                ==> {
                let e = w.staged[(table, id)].current;
                state_get(s, files, table, id) == Ok::<_, Fault>(
                    if e.deleted {
                        None
                    } else {
                        Some(e)
                    },
                )
            }
        }),
{
    let s = published(base, w, lsn);
    if !base.catalog.contains_key(table) {
        assert(!base.root.catalog.contains_key(table));
        assert(!base.overlay.contains_key((table, id)));
        reveal(located);
    }
}

proof fn lemma_sealed_events(d: DataV, files: Files, table: TableV)
    requires
        consistent(d, files, table),
    ensures
        retained_events(sealed(d), files) == retained_events(d, files),
{
    let n = sealed(d);
    lemma_committed(d, files, table);
    lemma_history(d, files, table);
    lemma_history(n, files, table);
    let (a, b) = (retained_events(d, files)->Ok_0, retained_events(n, files)->Ok_0);
    let from = memory_from(d);
    let stored = disk_events(d, files)->Ok_0;
    let c = committed_between(d.committed, from, u64::MAX);
    let m = committed_between(n.committed, from, u64::MAX);
    lemma_sealed_between(d, from);
    assert(m == c + d.events);
    assert(stored + c + d.events =~= stored + m + Seq::<EventV>::empty());
}

/// What a commit keeps of a staged entity: its current state, every state that it retains, and
/// every retained event.
pub proof fn lemma_commit_keeps(
    base: StateV,
    files: Files,
    w: WritesV,
    lsn: u64,
    table: u64,
    id: u64,
    version: u64,
    snapshots: bool,
)
    requires
        !base.poisoned,
        w.catalog.contains_key(table),
        w.staged.contains_key((table, id)),
        consistent(w.staged[(table, id)], files, w.catalog[table]),
    ensures
        ({
            let s = published(base, w, lsn);
            let d = w.staged[(table, id)];
            &&& state_at(s, files, table, id, version, snapshots) == data_at(
                d,
                files,
                w.catalog[table],
                version,
                snapshots,
            )
            &&& state_replayed(s, files, table, id) == Ok::<_, Fault>(d.current)
            &&& state_events(s, files, table, id) == retained_events(d, files)
            &&& loaded_data(s, files, table, id) is Ok && loaded_data(
                s,
                files,
                table,
                id,
            )->Ok_0 is Some
            &&& s.overlay[(table, id)].events.len() == 0
        }),
{
    let s = published(base, w, lsn);
    let d = w.staged[(table, id)];
    let t = w.catalog[table];
    assert(s.overlay[(table, id)] == sealed(d));
    lemma_sealed(d, files, t, version, snapshots);
    lemma_sealed(d, files, t, d.current.version, false);
    lemma_sealed_events(d, files, t);
}

/// Another event behind those of an entity adds one version: the states before stay, the state
/// of the new version is the new current one, and the event is the last of the retained ones.
pub proof fn lemma_one_version_more(
    before: DataV,
    after: DataV,
    files: Files,
    table: TableV,
    event: EventV,
)
    requires
        consistent(before, files, table),
        consistent(after, files, table),
        one_event_more(before, after, event),
    ensures
        forall|v: u64|
            before.base.version <= v <= before.current.version ==> (#[trigger] data_at(
                after,
                files,
                table,
                v,
                false,
            )) == data_at(before, files, table, v, false),
        data_at(after, files, table, after.current.version, false) == Ok::<_, Fault>(after.current),
        retained_events(after, files) is Ok,
        retained_events(after, files)->Ok_0 == retained_events(before, files)->Ok_0.push(event),
{
    assert(after.events =~= before.events.push(event));
    lemma_history(before, files, table);
    lemma_history(after, files, table);
    let (a, b) = (retained_events(before, files)->Ok_0, retained_events(after, files)->Ok_0);
    assert(b =~= a.push(event));
    assert forall|v: u64| before.base.version <= v <= before.current.version implies (
    #[trigger] data_at(after, files, table, v, false)) == data_at(
        before,
        files,
        table,
        v,
        false,
    ) by {
        lemma_version_is_fold(before, files, table, v);
        lemma_version_is_fold(after, files, table, v);
        let n = v - before.base.version;
        assert(b.take(n) =~= a.take(n));
    }
}

/// An assignment, once it is committed: a read gives every assigned field exactly the assigned
/// value, every other field what it had in the transaction before, and a field of the schema that
/// had nothing null; the version is one more, replay and a read at that version give the same
/// state, the earlier versions read as they did, and the history ends with one event that assigns
/// exactly this.
pub proof fn lemma_committed_apply(
    base: StateV,
    files: Files,
    ops: Seq<OpV>,
    table: u64,
    id: u64,
    fields: Map<u32, ValueV>,
    lsn: u64,
)
    requires
        all_consistent(base, files),
        !base.poisoned,
        executed_all(
            base,
            files,
            first_writes(base),
            ops.push(OpV::Apply(table, id, fields)),
        ) is Ok,
    ensures
        ({
            let w = executed_all(base, files, first_writes(base), ops)->Ok_0;
            let n = executed_all(
                base,
                files,
                first_writes(base),
                ops.push(OpV::Apply(table, id, fields)),
            )->Ok_0;
            let s = published(base, n, lsn);
            let held = transaction_get(base, files, w, table, id);
            let was = held->Ok_0.unwrap();
            let read = state_get(s, files, table, id);
            let e = read->Ok_0.unwrap();
            let events = state_events(s, files, table, id);
            &&& executed_all(base, files, first_writes(base), ops) is Ok
            &&& held is Ok && held->Ok_0 is Some
            &&& read is Ok && read->Ok_0 is Some
            &&& e.id == id && !e.deleted
            &&& e.version == was.version + 1
            &&& e.schema_version == now_of(n, table).version
            &&& forall|k: u32| #[trigger]
                fields.contains_key(k) ==> e.fields.contains_key(k) && e.fields[k] == fields[k]
            &&& forall|k: u32| #[trigger]
                was.fields.contains_key(k) && !fields.contains_key(k) ==> e.fields.contains_key(k)
                    && e.fields[k] == was.fields[k]
            &&& forall|k: u32| #[trigger]
                declares(now_of(n, table), k) && !fields.contains_key(k) && !was.fields.contains_key(
                    k,
                ) ==> e.fields.contains_key(k) && e.fields[k] is Null
            &&& state_replayed(s, files, table, id) == Ok::<_, Fault>(e)
            &&& state_at(s, files, table, id, e.version, false) == Ok::<_, Fault>(e)
            &&& state_at(s, files, table, id, was.version, false) == Ok::<_, Fault>(was)
            &&& events is Ok && events->Ok_0.len() > 0 && events->Ok_0.last().fields == fields
                && events->Ok_0.last().version == e.version && events->Ok_0.last().kind is Apply
        }),
{
    let op = OpV::Apply(table, id, fields);
    let start = first_writes(base);
    let all = ops.push(op);
    assert(all.drop_last() =~= ops);
    let w = executed_all(base, files, start, ops)->Ok_0;
    let n = executed_all(base, files, start, all)->Ok_0;
    assert(n == executed(base, files, w, op)->Ok_0);
    lemma_same_catalog(base);
    lemma_transaction(base, files, start, ops);
    lemma_transaction(base, files, start, all);
    lemma_apply(base, files, w, table, id, fields);
    let key = (table, id);
    let before = fetched(base, files, w, key)->Ok_0.unwrap();
    let after = n.staged[key];
    let t = w.catalog[table];
    lemma_fetched(base, files, w, key);
    lemma_one_version_more(before, after, files, t, after.events.last());
    lemma_commit_shows(base, files, n, lsn, table, id);
    lemma_commit_keeps(base, files, n, lsn, table, id, after.current.version, false);
    lemma_commit_keeps(base, files, n, lsn, table, id, before.current.version, false);
}

proof fn lemma_same_catalog(base: StateV)
    ensures
        later_catalog(base.catalog, base.catalog),
{
    assert forall|x: u64| #[trigger] base.catalog.contains_key(x) implies extends(
        base.catalog[x],
        base.catalog[x],
    ) by {
        let schemas = base.catalog[x].schemas;
        assert(schemas.take(schemas.len() as int) =~= schemas);
    }
}

/// What a transaction over a consistent view sees of an entity is consistent, and its current
/// state is what a read in the transaction gives.
pub proof fn lemma_fetched(base: StateV, files: Files, w: WritesV, key: Key)
    requires
        all_consistent(base, files),
        !base.poisoned,
        staged_consistent(w, files),
        later_catalog(base.catalog, w.catalog),
        w.catalog.contains_key(key.0),
        fetched(base, files, w, key) is Ok,
        fetched(base, files, w, key)->Ok_0 is Some,
    ensures
        ({
            let d = fetched(base, files, w, key)->Ok_0.unwrap();
            &&& consistent(d, files, w.catalog[key.0])
            &&& d.current.id == key.1
            &&& transaction_get(base, files, w, key.0, key.1) == Ok::<_, Fault>(
                if d.current.deleted {
                    None
                } else {
                    Some(d.current)
                },
            )
        }),
{
    if !w.staged.contains_key(key) {
        let d = fetched(base, files, w, key)->Ok_0.unwrap();
        assert(loaded_data(base, files, key.0, key.1) == fetched(base, files, w, key));
        lemma_consistent_later(d, files, base.catalog[key.0], w.catalog[key.0]);
    }
}

/// A deletion, once it is committed: reads find nothing, but the state of the new version is
/// there, deleted and with what the entity held; the earlier versions read as they did, and the
/// history ends with one event that assigns nothing. After that nothing can be assigned to the
/// entity, and none can be created in its place.
pub proof fn lemma_committed_delete(
    base: StateV,
    files: Files,
    ops: Seq<OpV>,
    table: u64,
    id: u64,
    fields: Map<u32, ValueV>,
    lsn: u64,
)
    requires
        all_consistent(base, files),
        !base.poisoned,
        executed_all(base, files, first_writes(base), ops.push(OpV::Delete(table, id))) is Ok,
    ensures
        ({
            let w = executed_all(base, files, first_writes(base), ops)->Ok_0;
            let n = executed_all(
                base,
                files,
                first_writes(base),
                ops.push(OpV::Delete(table, id)),
            )->Ok_0;
            let s = published(base, n, lsn);
            let held = transaction_get(base, files, w, table, id);
            let was = held->Ok_0.unwrap();
            let last = state_replayed(s, files, table, id);
            let e = last->Ok_0;
            let events = state_events(s, files, table, id);
            &&& held is Ok && held->Ok_0 is Some
            &&& state_get(s, files, table, id) == Ok::<_, Fault>(None::<EntityV>)
            &&& last is Ok && e.deleted && e.id == id && e.version == was.version + 1
            &&& forall|k: u32| #[trigger]
                was.fields.contains_key(k) ==> e.fields.contains_key(k) && e.fields[k]
                    == was.fields[k]
            &&& state_at(s, files, table, id, e.version, false) == Ok::<_, Fault>(e)
            &&& state_at(s, files, table, id, was.version, false) == Ok::<_, Fault>(was)
            &&& events is Ok && events->Ok_0.len() > 0 && events->Ok_0.last().kind is Delete
                && events->Ok_0.last().version == e.version && events->Ok_0.last().fields
                == Map::<u32, ValueV>::empty()
            &&& executed(s, files, first_writes(s), OpV::Create(table, id, fields)) == Err::<
                WritesV,
                _,
            >(Fault::Exists)
            &&& executed(s, files, first_writes(s), OpV::Apply(table, id, fields)) == Err::<
                WritesV,
                _,
            >(Fault::Invalid)
            &&& executed(s, files, first_writes(s), OpV::Delete(table, id)) == Err::<WritesV, _>(
                Fault::Invalid,
            )
        }),
{
    let op = OpV::Delete(table, id);
    let start = first_writes(base);
    let all = ops.push(op);
    assert(all.drop_last() =~= ops);
    let w = executed_all(base, files, start, ops)->Ok_0;
    let n = executed_all(base, files, start, all)->Ok_0;
    assert(n == executed(base, files, w, op)->Ok_0);
    lemma_same_catalog(base);
    lemma_transaction(base, files, start, ops);
    lemma_transaction(base, files, start, all);
    lemma_delete(base, files, w, table, id);
    let key = (table, id);
    let before = fetched(base, files, w, key)->Ok_0.unwrap();
    let after = n.staged[key];
    let t = w.catalog[table];
    lemma_fetched(base, files, w, key);
    lemma_one_version_more(before, after, files, t, after.events.last());
    lemma_commit_shows(base, files, n, lsn, table, id);
    lemma_commit_keeps(base, files, n, lsn, table, id, after.current.version, false);
    lemma_commit_keeps(base, files, n, lsn, table, id, before.current.version, false);
    let s = published(base, n, lsn);
    assert(fetched(s, files, first_writes(s), key) == Ok::<_, Fault>(Some(s.overlay[key])));
    assert(s.overlay[key].current == after.current);
}

// ---- Groups of commits ----

/// A group of transactions is published in its order: afterwards every entity is as the last of
/// them that touched it left it, an entity that none of them touched stays as it was, the tables
/// are those of the last one, and the view has the number of the last one.
pub proof fn lemma_group(s: StateV, active: Seq<(usize, Prepared)>, lsn: u64, k: Key)
    requires
        lsn + active.len() <= u64::MAX,
        active.len() > 0,
    ensures
        ({
            let n = published_all(s, active, lsn);
            &&& n.lsn == lsn + active.len()
            &&& n.root == s.root && n.poisoned == s.poisoned
            &&& n.catalog == active.last().1.writes().catalog
            &&& (forall|i: int|
                0 <= i < active.len() ==> !(#[trigger] active[i]).1.staged@.contains_key(k)) ==> (
            n.overlay.contains_key(k) == s.overlay.contains_key(k) && (s.overlay.contains_key(k)
                ==> n.overlay[k] == s.overlay[k]))
            &&& forall|i: int|
                0 <= i < active.len() && (#[trigger] active[i]).1.staged@.contains_key(k) && (forall|
                    j: int,
                | i < j < active.len() ==> !(#[trigger] active[j]).1.staged@.contains_key(k)) ==> {
                    &&& n.overlay.contains_key(k)
                    &&& n.overlay[k].current == active[i].1.staged@[k].current
                    &&& n.overlay[k].base == active[i].1.staged@[k].base
                    &&& n.overlay[k].snapshots == active[i].1.staged@[k].snapshots
                    &&& n.overlay[k].disk == active[i].1.staged@[k].disk
                    &&& n.overlay[k].events.len() == 0
                }
        }),
    decreases active.len(),
{
    let front = active.drop_last();
    let last = active.len() - 1;
    let n = published_all(s, active, lsn);
    if front.len() > 0 {
        lemma_group(s, front, lsn, k);
    }
    let m = published_all(s, front, lsn);
    assert(active[last] == active.last());
    if !active.last().1.staged@.contains_key(k) {
        assert(n.overlay.contains_key(k) == m.overlay.contains_key(k));
        if m.overlay.contains_key(k) {
            assert(n.overlay[k] == m.overlay[k]);
        }
        if forall|i: int| 0 <= i < active.len() ==> !(#[trigger] active[i]).1.staged@.contains_key(k) {
            assert forall|i: int| 0 <= i < front.len() implies !(
            #[trigger] front[i]).1.staged@.contains_key(k) by {
                assert(front[i] == active[i]);
            }
        }
        assert forall|i: int|
            0 <= i < active.len() && (#[trigger] active[i]).1.staged@.contains_key(k) && (forall|
                j: int,
            | i < j < active.len() ==> !(#[trigger] active[j]).1.staged@.contains_key(
                k,
            )) implies n.overlay.contains_key(k) && n.overlay[k].current
            == active[i].1.staged@[k].current && n.overlay[k].base == active[i].1.staged@[k].base
            && n.overlay[k].snapshots == active[i].1.staged@[k].snapshots && n.overlay[k].disk
            == active[i].1.staged@[k].disk && n.overlay[k].events.len() == 0 by {
            assert(i < last);
            assert(front[i] == active[i]);
            assert forall|j: int| i < j < front.len() implies !(
            #[trigger] front[j]).1.staged@.contains_key(k) by {
                assert(front[j] == active[j]);
            }
        }
    } else {
        assert(n.overlay[k] == sealed(active.last().1.staged@[k]));
    }
}

// ---- Numbers ----

proof fn lemma_folded_stamped(state: EntityV, events: Seq<EventV>, table: TableV, base: u64, lsn: u64)
    ensures
        folded(state, events.map_values(stamped(base, lsn)), table) == folded(state, events, table),
    decreases events.len(),
{
    let f = stamped(base, lsn);
    if events.len() > 0 {
        let m = events.map_values(f);
        assert(m.skip(1) =~= events.skip(1).map_values(f));
        assert(stepped(state, m[0], table) == stepped(state, events[0], table));
        if let Ok(next) = stepped(state, events[0], table) {
            lemma_folded_stamped(next, events.skip(1), table, base, lsn);
        }
    }
}

/// A transaction that gets its number changes nothing else: each of its own events, which are
/// those numbered behind the view that it started from, has the new number, all others have
/// theirs, what the events assign stays, and every version reads as before.
pub proof fn lemma_restamped(
    d: DataV,
    base: u64,
    lsn: u64,
    files: Files,
    table: TableV,
    version: u64,
    snapshots: bool,
)
    ensures
        ({
            let n = restamped(d, base, lsn);
            &&& n.current == d.current && n.base == d.base && n.snapshots == d.snapshots
            &&& n.committed == d.committed && n.disk == d.disk
            &&& n.events.len() == d.events.len()
            &&& forall|i: int|
                0 <= i < d.events.len() ==> {
                    let (a, b) = (d.events[i], #[trigger] n.events[i]);
                    &&& b.version == a.version && b.kind == a.kind && b.fields == a.fields
                    &&& b.schema_version == a.schema_version
                    &&& a.transaction > base ==> b.transaction == lsn
                    &&& a.transaction <= base ==> b.transaction == a.transaction
                }
            &&& data_at(n, files, table, version, snapshots) == data_at(
                d,
                files,
                table,
                version,
                snapshots,
            )
        }),
{
    let n = restamped(d, base, lsn);
    let f = stamped(base, lsn);
    if d.base.version <= version <= d.current.version {
        let first = if snapshots {
            nearest(d, version)
        } else {
            d.base
        };
        assert(nearest(n, version) == nearest(d, version));
        assert(from_disk(n, files, first, version, snapshots) == from_disk(
            d,
            files,
            first,
            version,
            snapshots,
        ));
        if let Ok(s) = from_disk(d, files, first, version, snapshots) {
            if let Ok(m) = folded(s, committed_between(d.committed, s.version, version), table) {
                let p = produces(m.version, version);
                lemma_filter_map(d.events, p, f, p);
                lemma_folded_stamped(m, d.events.filter(p), table, base, lsn);
            }
        }
    }
}

// ---- Refusals ----

/// A view that an uncertain write has spoilt answers nothing: every read of it fails for that
/// reason. One that is not, but lacks a table, answers nothing of that table. Elsewhere no read
/// fails for either reason.
pub proof fn lemma_refusals(
    s: StateV,
    files: Files,
    w: WritesV,
    table: u64,
    id: u64,
    version: u64,
    snapshots: bool,
)
    ensures
        s.poisoned ==> {
            &&& state_get(s, files, table, id) == Err::<Option<EntityV>, _>(Fault::Poisoned)
            &&& state_at(s, files, table, id, version, snapshots) == Err::<EntityV, _>(
                Fault::Poisoned,
            )
            &&& state_replayed(s, files, table, id) == Err::<EntityV, _>(Fault::Poisoned)
            &&& state_events(s, files, table, id) == Err::<Seq<EventV>, _>(Fault::Poisoned)
            &&& transaction_get(s, files, w, table, id) == Err::<Option<EntityV>, _>(
                Fault::Poisoned,
            )
            &&& admitted(s, table) is Some
        },
        !s.poisoned && !s.catalog.contains_key(table) ==> {
            &&& state_get(s, files, table, id) == Err::<Option<EntityV>, _>(Fault::Missing)
            &&& state_at(s, files, table, id, version, snapshots) == Err::<EntityV, _>(
                Fault::Missing,
            )
            &&& state_replayed(s, files, table, id) == Err::<EntityV, _>(Fault::Missing)
            &&& state_events(s, files, table, id) == Err::<Seq<EventV>, _>(Fault::Missing)
            &&& admitted(s, table) is Some
        },
        !s.poisoned && !w.catalog.contains_key(table) ==> transaction_get(
            s,
            files,
            w,
            table,
            id,
        ) == Err::<Option<EntityV>, _>(Fault::Missing),
        !s.poisoned && s.catalog.contains_key(table) ==> admitted(s, table) is None,
{
}

} // verus!
