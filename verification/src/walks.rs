//! What walks through indexes come across: an index gives back the entries that its partitions
//! were built from, and the walk through a table visits every identifier once, in order.

use crate::consistency::indexed;
use crate::entity::lemma_filter_front;
use crate::entity::lemma_filter_member;
use crate::entity::DataV;
use crate::indexes::built;
use crate::indexes::gives;
use crate::key::increasing;
use crate::key::lemma_filter_none;
use crate::key::lemma_listing;
use crate::key::lists;
use crate::key::listing;
use crate::key::OrderedKey;
use crate::partitions::between_routes;
use crate::partitions::bucket_of;
use crate::partitions::index_scan;
use crate::partitions::lemma_bucket_order;
use crate::partitions::part_stream;
use crate::partitions::route_of;
use crate::partitions::scan_over;
use crate::partitions::translated;
use crate::partitions::translated_all;
use crate::partitions::tree_of;
use crate::partitions::PartV;
use crate::partitions::Route;
use crate::reader::merged;
use crate::reader::of_table;
use crate::reader::primary;
use crate::reader::recent_ids;
use crate::reader::table_entries;
use crate::reader::StateV;
use crate::snapshot::RootV;
use crate::storage::heap::lemma_split;
use crate::storage::index::Entry;
use crate::storage::index::Key;
use crate::storage::index::Stream;
use crate::storage::index_writer::between;
use crate::storage::pager::FileId;
use crate::storage::pager::Files;
use vstd::prelude::*;

verus! {

/// Whether a partition gives back entries: its tree does, the entries belong under its route,
/// and they mean under the manifest what the tree says.
pub open spec fn gives_back(files: Files, at: Route, p: PartV, es: Seq<Entry>) -> bool {
    &&& increasing(es)
    &&& gives(tree_of(files, p), p.lsn, es)
    &&& forall|i: int| 0 <= i < es.len() ==> bucket_of(at.kind, (#[trigger] es[i]).0) == at.lower()
    &&& forall|i: int|
        0 <= i < es.len() ==> translated(p, (#[trigger] es[i]).1) == Some(es[i].1)
}

/// A partition that was built in a file gives back its entries.
pub proof fn lemma_gives_back(
    files: Files,
    data: Seq<u8>,
    lsn: u64,
    file: FileId,
    at: Route,
    p: PartV,
    es: Seq<Entry>,
)
    requires
        built(data, lsn, file, at, p, es),
        increasing(es),
        files[file] == data,
        data.len() <= u64::MAX,
    ensures
        gives_back(files, at, p, es),
{
    assert forall|i: int| 0 <= i < es.len() implies translated(p, (#[trigger] es[i]).1) == Some(
        es[i].1,
    ) by {
        lemma_split(es[i].1.0);
        lemma_split(es[i].1.1);
    }
}

/// The entries of the partitions of an index, one partition behind the other.
pub open spec fn entries_in(
    l: Seq<(Route, PartV)>,
    table: u64,
    kind: u8,
    contents: Map<Route, Seq<Entry>>,
) -> Seq<Entry>
    decreases l.len(),
{
    if l.len() == 0 {
        Seq::empty()
    } else {
        (if l[0].0.table == table && l[0].0.kind == kind {
            contents[l[0].0]
        } else {
            Seq::empty()
        }) + entries_in(l.skip(1), table, kind, contents)
    }
}

proof fn lemma_same_meaning(p: PartV, items: Seq<Entry>)
    requires
        forall|i: int|
            0 <= i < items.len() ==> translated(p, (#[trigger] items[i]).1) == Some(items[i].1),
    ensures
        translated_all(p, items) == (Stream { items, sound: true }),
    decreases items.len(),
{
    if items.len() > 0 {
        lemma_same_meaning(p, items.skip(1));
        assert(seq![items[0]] + items.skip(1) =~= items);
    } else {
        assert(items =~= Seq::empty());
    }
}

proof fn lemma_part(files: Files, at: Route, p: PartV, es: Seq<Entry>, lower: Key, upper: Key)
    requires
        gives_back(files, at, p, es),
    ensures
        part_stream(files, p, lower, upper) == (Stream {
            items: es.filter(between(lower, upper)),
            sound: true,
        }),
{
    reveal(gives);
    let items = es.filter(between(lower, upper));
    assert forall|i: int| 0 <= i < items.len() implies translated(p, (#[trigger] items[i]).1)
        == Some(items[i].1) by {
        lemma_filter_member(es, between(lower, upper));
        let j = choose|j: int| 0 <= j < es.len() && es[j] == items[i];
        assert(translated(p, es[j].1) == Some(es[j].1));
    }
    lemma_same_meaning(p, items);
}

/// Whether the partitions of an index in a list give back entries.
pub open spec fn all_give_back(
    l: Seq<(Route, PartV)>,
    files: Files,
    table: u64,
    kind: u8,
    contents: Map<Route, Seq<Entry>>,
) -> bool {
    forall|i: int|
        0 <= i < l.len() && (#[trigger] l[i]).0.table == table && l[i].0.kind == kind
            ==> gives_back(files, l[i].0, l[i].1, contents[l[i].0])
}

proof fn lemma_scan_over(
    l: Seq<(Route, PartV)>,
    files: Files,
    table: u64,
    kind: u8,
    contents: Map<Route, Seq<Entry>>,
    lower: Key,
    upper: Key,
)
    requires
        !upper.before(lower),
        all_give_back(l, files, table, kind, contents),
    ensures
        scan_over(
            files,
            l.filter(
                between_routes(route_of(table, kind, lower), route_of(table, kind, upper)),
            ).map_values(|e: (Route, PartV)| e.1),
            lower,
            upper,
        ) == (Stream {
            items: entries_in(l, table, kind, contents).filter(between(lower, upper)),
            sound: true,
        }),
    decreases l.len(),
{
    reveal(Seq::filter);
    let from = route_of(table, kind, lower);
    let to = route_of(table, kind, upper);
    let q = between_routes(from, to);
    let p = between(lower, upper);
    let second = |e: (Route, PartV)| e.1;
    if l.len() == 0 {
        assert(l.filter(q).map_values(second) =~= Seq::empty());
    } else {
        let rest = l.skip(1);
        assert forall|i: int|
            0 <= i < rest.len() && (#[trigger] rest[i]).0.table == table && rest[i].0.kind
                == kind implies gives_back(files, rest[i].0, rest[i].1, contents[rest[i].0]) by {
            assert(rest[i] == l[i + 1]);
        }
        lemma_scan_over(rest, files, table, kind, contents, lower, upper);
        lemma_filter_front(l, q);
        let (at, part) = l[0];
        let mine = at.table == table && at.kind == kind;
        let here = if mine {
            contents[at]
        } else {
            Seq::empty()
        };
        let more = entries_in(rest, table, kind, contents);
        Seq::filter_distributes_over_add(here, more, p);
        if q(l[0]) {
            assert(mine);
            lemma_part(files, at, part, here, lower, upper);
            let parts = l.filter(q).map_values(second);
            assert(parts[0] == part);
            assert(parts.skip(1) =~= rest.filter(q).map_values(second));
        } else {
            assert(l.filter(q) =~= rest.filter(q));
            if mine {
                assert forall|i: int| 0 <= i < here.len() implies !p(#[trigger] here[i]) by {
                    let key = here[i].0;
                    if p(here[i]) {
                        lemma_bucket_order(kind, lower, key);
                        lemma_bucket_order(kind, key, upper);
                        assert(bucket_of(at.kind, here[i].0) == at.lower());
                    }
                }
                lemma_filter_none(here, p);
            }
            assert(here.filter(p) =~= Seq::empty());
        }
    }
}

proof fn lemma_entries_order(
    l: Seq<(Route, PartV)>,
    files: Files,
    table: u64,
    kind: u8,
    contents: Map<Route, Seq<Entry>>,
)
    requires
        increasing(l),
        all_give_back(l, files, table, kind, contents),
    ensures
        increasing(entries_in(l, table, kind, contents)),
        forall|i: int|
            0 <= i < entries_in(l, table, kind, contents).len() ==> exists|j: int|
                0 <= j < l.len() && (#[trigger] l[j]).0 == route_of(
                    table,
                    kind,
                    (#[trigger] entries_in(l, table, kind, contents)[i]).0,
                ),
    decreases l.len(),
{
    reveal(increasing);
    if l.len() > 0 {
        let rest = l.skip(1);
        assert forall|i: int|
            0 <= i < rest.len() && (#[trigger] rest[i]).0.table == table && rest[i].0.kind
                == kind implies gives_back(files, rest[i].0, rest[i].1, contents[rest[i].0]) by {
            assert(rest[i] == l[i + 1]);
        }
        assert(increasing(rest));
        lemma_entries_order(rest, files, table, kind, contents);
        let all = entries_in(l, table, kind, contents);
        let more = entries_in(rest, table, kind, contents);
        let at = l[0].0;
        let here = if at.table == table && at.kind == kind {
            contents[at]
        } else {
            Seq::empty()
        };
        assert(all == here + more);
        assert forall|i: int| 0 <= i < all.len() implies exists|j: int|
            0 <= j < l.len() && (#[trigger] l[j]).0 == route_of(
                table,
                kind,
                (#[trigger] all[i]).0,
            ) by {
            if i < here.len() {
                assert(all[i] == here[i]);
                assert(l[0].0 == route_of(table, kind, all[i].0));
            } else {
                assert(all[i] == more[i - here.len()]);
                let j = choose|j: int|
                    0 <= j < rest.len() && (#[trigger] rest[j]).0 == route_of(
                        table,
                        kind,
                        more[i - here.len()].0,
                    );
                assert(rest[j] == l[j + 1]);
            }
        }
        assert forall|i: int, j: int| 0 <= i < j < all.len() implies (#[trigger] all[i]).0.before(
            (#[trigger] all[j]).0,
        ) by {
            Key::order_laws();
            if j < here.len() {
                assert(all[i] == here[i] && all[j] == here[j]);
            } else if i >= here.len() {
                assert(all[i] == more[i - here.len()] && all[j] == more[j - here.len()]);
            } else {
                assert(all[i] == here[i] && all[j] == more[j - here.len()]);
                let k = choose|k: int|
                    0 <= k < rest.len() && (#[trigger] rest[k]).0 == route_of(
                        table,
                        kind,
                        more[j - here.len()].0,
                    );
                assert(rest[k] == l[k + 1]);
                assert(l[0].0.before(l[k + 1].0));
                assert(bucket_of(kind, here[i].0) == at.lower());
                if !all[i].0.before(all[j].0) {
                    lemma_bucket_order(kind, all[j].0, all[i].0);
                }
            }
        }
    }
}

/// An index whose partitions give back entries gives those of all its partitions in order:
/// every scan comes across exactly the entries between its ends.
pub proof fn lemma_indexed(
    r: RootV,
    files: Files,
    table: u64,
    kind: u8,
    contents: Map<Route, Seq<Entry>>,
)
    requires
        r.partitions.dom().finite(),
        forall|at: Route| #[trigger]
            r.partitions.contains_key(at) && at.table == table && at.kind == kind ==> gives_back(
                files,
                at,
                r.partitions[at],
                contents[at],
            ),
    ensures
        indexed(
            r,
            files,
            table,
            kind,
            entries_in(listing(r.partitions), table, kind, contents),
        ),
{
    let l = listing(r.partitions);
    lemma_listing(r.partitions);
    assert(all_give_back(l, files, table, kind, contents)) by {
        reveal(lists);
        assert forall|i: int|
            0 <= i < l.len() && (#[trigger] l[i]).0.table == table && l[i].0.kind
                == kind implies gives_back(files, l[i].0, l[i].1, contents[l[i].0]) by {
            assert(r.partitions.contains_key(l[i].0));
        }
    }
    let es = entries_in(l, table, kind, contents);
    lemma_entries_order(l, files, table, kind, contents);
    assert forall|i: int, j: int| 0 <= i < j < es.len() implies (#[trigger] es[i]).0.before(
        (#[trigger] es[j]).0,
    ) by {
        reveal(increasing);
    }
    assert forall|lower: Key, upper: Key| #[trigger]
        index_scan(r, files, table, kind, lower, upper) == (Stream {
            items: es.filter(between(lower, upper)),
            sound: true,
        }) by {
        reveal(index_scan);
        if upper.before(lower) {
            Key::order_laws();
            lemma_filter_none(es, between(lower, upper));
        } else {
            lemma_scan_over(l, files, table, kind, contents, lower, upper);
        }
    }
}

// ---- The walk through a table ----

/// Whether identifiers come in increasing order, none twice.
pub open spec fn rising(ids: Seq<u64>) -> bool {
    forall|i: int, j: int| 0 <= i < j < ids.len() ==> (#[trigger] ids[i]) < (#[trigger] ids[j])
}

/// The identifiers of entries.
pub open spec fn ids_of(es: Seq<Entry>) -> Seq<u64> {
    es.map_values(|e: Entry| e.0.0)
}

/// The identifiers that a walk visits.
pub open spec fn visited(items: Seq<(u64, Option<crate::storage::index::Value>)>) -> Seq<u64> {
    items.map_values(|e: (u64, Option<crate::storage::index::Value>)| e.0)
}

/// Whether every entry that a walk comes across is one of some entries.
pub open spec fn drawn_from(
    items: Seq<(u64, Option<crate::storage::index::Value>)>,
    es: Seq<Entry>,
) -> bool {
    forall|i: int|
        0 <= i < items.len() && (#[trigger] items[i]).1 is Some ==> entry_among(
            es,
            items[i].0,
            items[i].1.unwrap(),
        )
}

/// Whether entries hold a value for an identifier.
pub open spec fn entry_among(
    es: Seq<Entry>,
    id: u64,
    v: crate::storage::index::Value,
) -> bool {
    exists|k: int| 0 <= k < es.len() && (#[trigger] es[k]).0.0 == id && es[k].1 == v
}

proof fn lemma_drawn(disk: Stream, recent: Seq<u64>)
    requires
        disk.sound,
    ensures
        drawn_from(merged(disk, recent).items, disk.items),
    decreases disk.items.len() + recent.len(),
{
    if disk.items.len() > 0 || recent.len() > 0 {
        let from_disk = disk.items.len() > 0 && (recent.len() == 0 || disk.items[0].0.0
            <= recent[0]);
        let from_recent = recent.len() > 0 && (disk.items.len() == 0 || recent[0]
            <= disk.items[0].0.0);
        let left = if from_disk {
            Stream { items: disk.items.skip(1), sound: disk.sound }
        } else {
            disk
        };
        let later = if from_recent {
            recent.skip(1)
        } else {
            recent
        };
        lemma_drawn(left, later);
        let items = merged(disk, recent).items;
        let more = merged(left, later).items;
        assert forall|i: int| 0 <= i < items.len() && (
        #[trigger] items[i]).1 is Some implies entry_among(
            disk.items,
            items[i].0,
            items[i].1.unwrap(),
        ) by {
            if i == 0 {
                assert(disk.items[0].0.0 == items[0].0);
            } else {
                assert(items[i] == more[i - 1]);
                let k = choose|k: int|
                    0 <= k < left.items.len() && (#[trigger] left.items[k]).0.0 == items[i].0
                        && left.items[k].1 == items[i].1.unwrap();
                if from_disk {
                    assert(disk.items[k + 1] == left.items[k]);
                } else {
                    assert(disk.items[k] == left.items[k]);
                }
            }
        }
    }
}

proof fn lemma_rising_rest(ids: Seq<u64>)
    requires
        rising(ids),
        ids.len() > 0,
    ensures
        rising(ids.skip(1)),
        forall|x: u64| #[trigger] ids.skip(1).contains(x) ==> ids[0] < x,
        forall|x: u64| #[trigger] ids.contains(x) <==> x == ids[0] || ids.skip(1).contains(x),
{
    let rest = ids.skip(1);
    assert forall|i: int, j: int| 0 <= i < j < rest.len() implies (#[trigger] rest[i])
        < #[trigger] rest[j] by {
        assert(rest[i] == ids[i + 1] && rest[j] == ids[j + 1]);
    }
    assert forall|x: u64| #[trigger] rest.contains(x) implies ids[0] < x by {
        let i = choose|i: int| 0 <= i < rest.len() && rest[i] == x;
        assert(ids[i + 1] == x);
    }
    assert forall|x: u64| #[trigger] ids.contains(x) <==> x == ids[0] || rest.contains(x) by {
        if ids.contains(x) {
            let i = choose|i: int| 0 <= i < ids.len() && ids[i] == x;
            if i > 0 {
                assert(rest[i - 1] == x);
            }
        }
        if rest.contains(x) {
            let i = choose|i: int| 0 <= i < rest.len() && rest[i] == x;
            assert(ids[i + 1] == x);
        }
        if x == ids[0] {
            assert(ids[0] == x);
        }
    }
}

pub(crate) proof fn lemma_merged(disk: Stream, recent: Seq<u64>)
    requires
        disk.sound,
        rising(ids_of(disk.items)),
        rising(recent),
    ensures
        merged(disk, recent).sound,
        rising(visited(merged(disk, recent).items)),
        forall|x: u64| #[trigger]
            visited(merged(disk, recent).items).contains(x) <==> ids_of(disk.items).contains(x)
                || recent.contains(x),
    decreases disk.items.len() + recent.len(),
{
    let d = ids_of(disk.items);
    let all = visited(merged(disk, recent).items);
    if disk.items.len() > 0 || recent.len() > 0 {
        let from_disk = disk.items.len() > 0 && (recent.len() == 0 || disk.items[0].0.0
            <= recent[0]);
        let from_recent = recent.len() > 0 && (disk.items.len() == 0 || recent[0]
            <= disk.items[0].0.0);
        let left = if from_disk {
            Stream { items: disk.items.skip(1), sound: disk.sound }
        } else {
            disk
        };
        let later = if from_recent {
            recent.skip(1)
        } else {
            recent
        };
        let id = if from_disk {
            disk.items[0].0.0
        } else {
            recent[0]
        };
        if d.len() > 0 {
            lemma_rising_rest(d);
            assert(ids_of(disk.items.skip(1)) =~= d.skip(1));
        }
        if recent.len() > 0 {
            lemma_rising_rest(recent);
        }
        lemma_merged(left, later);
        let more = visited(merged(left, later).items);
        assert(all =~= seq![id] + more);
        assert forall|x: u64| #[trigger] more.contains(x) implies id < x by {
            if ids_of(left.items).contains(x) {
                if !from_disk {
                    assert(d.contains(x));
                    assert(x == d[0] || d.skip(1).contains(x));
                }
            } else {
                assert(later.contains(x));
                if !from_recent {
                    assert(x == recent[0] || recent.skip(1).contains(x));
                }
            }
        }
        assert forall|i: int, j: int| 0 <= i < j < all.len() implies (#[trigger] all[i])
            < #[trigger] all[j] by {
            assert(all[j] == more[j - 1]);
            if i == 0 {
                assert(more.contains(more[j - 1]));
            } else {
                assert(all[i] == more[i - 1]);
            }
        }
        assert forall|x: u64| #[trigger] all.contains(x) <==> d.contains(x) || recent.contains(
            x,
        ) by {
            if all.contains(x) {
                let i = choose|i: int| 0 <= i < all.len() && all[i] == x;
                if i > 0 {
                    assert(more[i - 1] == x);
                    assert(more.contains(x));
                } else if from_disk {
                    assert(d[0] == x);
                } else {
                    assert(recent[0] == x);
                }
            }
            if d.contains(x) || recent.contains(x) {
                if x != id {
                    assert(ids_of(left.items).contains(x) || later.contains(x));
                    assert(more.contains(x));
                    let i = choose|i: int| 0 <= i < more.len() && more[i] == x;
                    assert(all[i + 1] == x);
                } else {
                    assert(all[0] == x);
                }
            }
        }
    } else {
        assert(d =~= Seq::empty());
    }
}

/// The changed entities of a table are listed once each, in increasing order.
pub(crate) proof fn lemma_recent(m: Map<Key, DataV>, table: u64, lower: u64, upper: u64)
    requires
        m.dom().finite(),
    ensures
        rising(recent_ids(m, table, lower, upper)),
        forall|id: u64| #[trigger]
            recent_ids(m, table, lower, upper).contains(id) <==> lower <= id <= upper
                && m.contains_key((table, id)),
{
    let l = listing(m);
    let p = of_table(table, lower, upper);
    let f = l.filter(p);
    let ids = recent_ids(m, table, lower, upper);
    lemma_listing(m);
    lemma_filter_order(l, p);
    lemma_filter_member(l, p);
    assert forall|i: int, j: int| 0 <= i < j < ids.len() implies (#[trigger] ids[i])
        < #[trigger] ids[j] by {
        reveal(increasing);
        assert(f[i].0.before(f[j].0));
        assert(p(f[i]) && p(f[j]));
    }
    assert forall|id: u64| #[trigger] ids.contains(id) <==> lower <= id <= upper && m.contains_key(
        (table, id),
    ) by {
        reveal(lists);
        if ids.contains(id) {
            let i = choose|i: int| 0 <= i < ids.len() && ids[i] == id;
            assert(p(f[i]));
            let j = choose|j: int| 0 <= j < l.len() && l[j] == f[i];
            assert(m.contains_key(l[j].0));
        }
        if lower <= id <= upper && m.contains_key((table, id)) {
            let j = choose|j: int| 0 <= j < l.len() && (#[trigger] l[j]).0 == (table, id);
            assert(p(l[j]));
            lemma_filter_has(l, p, j);
            let i = choose|i: int| 0 <= i < f.len() && f[i] == l[j];
            assert(ids[i] == id);
        }
    }
}

pub(crate) proof fn lemma_filter_has<T>(s: Seq<T>, p: spec_fn(T) -> bool, i: int)
    requires
        0 <= i < s.len(),
        p(s[i]),
    ensures
        s.filter(p).contains(s[i]),
    decreases s.len(),
{
    reveal(Seq::filter);
    let t = s.drop_last();
    if i < t.len() {
        lemma_filter_has(t, p, i);
        assert(t[i] == s[i]);
        let k = choose|k: int| 0 <= k < t.filter(p).len() && t.filter(p)[k] == s[i];
        assert(s.filter(p)[k] == s[i]);
    } else {
        assert(s.filter(p).last() == s[i]);
    }
}

pub(crate) proof fn lemma_filter_order<K: OrderedKey, V>(s: Seq<(K, V)>, p: spec_fn((K, V)) -> bool)
    requires
        increasing(s),
    ensures
        increasing(s.filter(p)),
    decreases s.len(),
{
    reveal(increasing);
    reveal(Seq::filter);
    if s.len() > 0 {
        let t = s.drop_last();
        assert(increasing(t));
        lemma_filter_order(t, p);
        let f = t.filter(p);
        lemma_filter_member(t, p);
        assert forall|i: int, j: int| 0 <= i < j < s.filter(p).len() implies (#[trigger] s.filter(
            p,
        )[i]).0.before((#[trigger] s.filter(p)[j]).0) by {
            if j == f.len() {
                assert(s.filter(p)[i] == f[i]);
                let k = choose|k: int| 0 <= k < t.len() && t[k] == f[i];
                assert(s[k] == f[i]);
            } else {
                assert(s.filter(p)[i] == f[i] && s.filter(p)[j] == f[j]);
            }
        }
    }
}

/// A walk through a table visits every identifier between two once, in increasing order: those
/// of the stored entities and those that memory holds, and no others. The entries that it comes
/// across are those of the index.
pub proof fn lemma_walk(
    s: StateV,
    files: Files,
    table: u64,
    lower: u64,
    upper: u64,
    es: Seq<Entry>,
)
    requires
        s.overlay.dom().finite(),
        s.root.catalog.contains_key(table),
        indexed(s.root, files, table, 3, es),
        forall|i: int| 0 <= i < es.len() ==> (#[trigger] es[i]).0.1 == 0,
    ensures
        ({
            let walk = table_entries(s, files, table, lower, upper);
            &&& walk.sound
            &&& rising(visited(walk.items))
            &&& drawn_from(walk.items, es)
            &&& forall|id: u64| #[trigger]
                visited(walk.items).contains(id) <==> lower <= id <= upper && (s.overlay.contains_key(
                    (table, id),
                ) || ids_of(es).contains(id))
        }),
{
    let disk = primary(s.root, files, table, lower, upper);
    let recent = recent_ids(s.overlay, table, lower, upper);
    let p = between((lower, 0), (upper, u64::MAX));
    assert(index_scan(s.root, files, table, 3, (lower, 0), (upper, u64::MAX)) == disk);
    assert(disk.items == es.filter(p));
    lemma_recent(s.overlay, table, lower, upper);
    assert(increasing(es)) by {
        reveal(increasing);
    }
    lemma_filter_order(es, p);
    lemma_filter_member(es, p);
    let d = ids_of(disk.items);
    assert forall|i: int, j: int| 0 <= i < j < d.len() implies (#[trigger] d[i]) < #[trigger] d[j] by {
        reveal(increasing);
        let a = choose|a: int| 0 <= a < es.len() && es[a] == disk.items[i];
        let b = choose|b: int| 0 <= b < es.len() && es[b] == disk.items[j];
        assert(es[a].0.1 == 0 && es[b].0.1 == 0);
        assert(disk.items[i].0.before(disk.items[j].0));
    }
    assert forall|id: u64| #[trigger] d.contains(id) <==> lower <= id <= upper && ids_of(
        es,
    ).contains(id) by {
        if d.contains(id) {
            let i = choose|i: int| 0 <= i < d.len() && d[i] == id;
            assert(p(disk.items[i]));
            let a = choose|a: int| 0 <= a < es.len() && es[a] == disk.items[i];
            assert(ids_of(es)[a] == id);
        }
        if lower <= id <= upper && ids_of(es).contains(id) {
            let a = choose|a: int| 0 <= a < ids_of(es).len() && ids_of(es)[a] == id;
            assert(p(es[a]));
            lemma_filter_has(es, p, a);
            let i = choose|i: int| 0 <= i < disk.items.len() && disk.items[i] == es[a];
            assert(d[i] == id);
        }
    }
    lemma_merged(disk, recent);
    lemma_drawn(disk, recent);
    let items = table_entries(s, files, table, lower, upper).items;
    assert forall|i: int| 0 <= i < items.len() && (
    #[trigger] items[i]).1 is Some implies entry_among(es, items[i].0, items[i].1.unwrap()) by {
        let k = choose|k: int|
            0 <= k < disk.items.len() && (#[trigger] disk.items[k]).0.0 == items[i].0
                && disk.items[k].1 == items[i].1.unwrap();
        let a = choose|a: int| 0 <= a < es.len() && es[a] == disk.items[k];
        assert(es[a].0.0 == items[i].0);
    }
}

} // verus!
