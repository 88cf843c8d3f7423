//! What a checkpoint carries over of the history that an earlier one holds.

use crate::entity::DataV;
use crate::entity::EntityData;
use crate::error::corrupt;
use crate::error::Error;
use crate::error::Fault;
use crate::error::Outcome;
use crate::error::Result;
use crate::key::lemma_filter_map;
use crate::key::lemma_listing_is;
use crate::key::lemma_listing_map;
use crate::key::listing;
use crate::key::lists;
use crate::model::Entity;
use crate::model::EntityV;
use crate::model::Event;
use crate::model::EventV;
use crate::ordered_map::above;
use crate::ordered_map::within;
use crate::ordered_map::Bound;
use crate::partitions::between_routes;
use crate::partitions::bucket;
use crate::partitions::end;
use crate::partitions::end_of;
use crate::partitions::route_of;
use crate::partitions::tree_of;
use crate::partitions::PartV;
use crate::partitions::Partition;
use crate::partitions::Route;
use crate::reading::event_asks;
use crate::reading::snapshot_asks;
use crate::reading::event_in;
use crate::reading::snapshot_in;
use crate::snapshot::Root;
use crate::snapshot::RootV;
use crate::storage::index::scan_asks;
use crate::storage::index::scan_at;
use crate::storage::index::scan_of;
use crate::storage::index::Entry;
use crate::storage::index::Key;
use crate::storage::index::Stream;
use crate::storage::index::Value;
use crate::storage::pager::lacks;
use crate::storage::pager::Files;
use crate::storage::pager::Loaded;
use vstd::prelude::*;

verus! {

/// One step of carrying history over.
pub enum Step {
    /// Take an index partition over as it is.
    Reuse(Route),
    /// Write a snapshot anew.
    Snapshot(Entity),
    /// Refer to a snapshot where it is.
    SnapshotLink(Key, Value),
    /// Write an event anew.
    Event(Event),
    /// Refer to an event where it is.
    EventLink(Key, Value),
}

/// What a step stands for.
pub enum StepV {
    /// Take an index partition over.
    Reuse(Route),
    /// Write a snapshot anew.
    Snapshot(EntityV),
    /// Refer to a snapshot.
    SnapshotLink(Key, Value),
    /// Write an event anew.
    Event(EventV),
    /// Refer to an event.
    EventLink(Key, Value),
}

impl View for Step {
    type V = StepV;

    open spec fn view(&self) -> StepV {
        match self {
            Step::Reuse(r) => StepV::Reuse(*r),
            Step::Snapshot(e) => StepV::Snapshot(e@),
            Step::SnapshotLink(k, v) => StepV::SnapshotLink(*k, *v),
            Step::Event(e) => StepV::Event(e@),
            Step::EventLink(k, v) => StepV::EventLink(*k, *v),
        }
    }
}

/// What steps stand for.
pub open spec fn steps_view(s: Seq<Step>) -> Seq<StepV> {
    s.map_values(|x: Step| x@)
}

/// How history is carried over.
#[derive(Clone, Copy, Debug, PartialEq, Eq, Structural)]
pub struct Copying {
    /// The table.
    pub table: u64,
    /// Whether history is written anew.
    pub rewrite_history: bool,
    /// Whether index partitions are.
    pub rewrite_indexes: bool,
}

/// Whether memory holds newer history in a range of versions.
pub open spec fn modified(d: Option<DataV>, kind: u8, low: u64, high: u64) -> bool {
    d is Some && if kind == 5 {
        exists|v: u64| #[trigger] d.unwrap().snapshots.contains_key(v) && low <= v <= high
    } else {
        (exists|v: u64| #[trigger] d.unwrap().committed.contains_key(v) && low <= v <= high)
            || exists|i: int|
            0 <= i < d.unwrap().events.len() && low <= (
            #[trigger] d.unwrap().events[i]).version <= high
    }
}

/// Steps in front of what may follow.
pub open spec fn followed(a: Seq<StepV>, t: Outcome<Seq<StepV>>) -> Outcome<Seq<StepV>> {
    match t {
        Err(f) => Err(f),
        Ok(t) => Ok(a + t),
    }
}

/// The step of one index entry, if it has one.
pub open spec fn entry_step(
    c: Copying,
    r: RootV,
    files: Files,
    id: u64,
    kind: u8,
    d: Option<DataV>,
    e: Entry,
) -> Outcome<Seq<StepV>> {
    if kind == 5 {
        if d is Some && d.unwrap().snapshots.contains_key(e.0.1) {
            Ok(Seq::empty())
        } else if c.rewrite_history {
            match snapshot_in(r, files, c.table, e.1, id) {
                None => Err(Fault::Corrupt),
                Some(state) => Ok(seq![StepV::Snapshot(state)]),
            }
        } else {
            Ok(seq![StepV::SnapshotLink(e.0, e.1)])
        }
    } else if c.rewrite_history {
        match event_in(r, files, c.table, e.1) {
            None => Err(Fault::Corrupt),
            Some((entity, event, lsn)) => if entity == id && event.version == e.0.1
                && event.transaction == lsn {
                Ok(seq![StepV::Event(event)])
            } else {
                Err(Fault::Corrupt)
            },
        }
    } else {
        Ok(seq![StepV::EventLink(e.0, e.1)])
    }
}

/// The steps of index entries.
pub open spec fn entry_steps(
    c: Copying,
    r: RootV,
    files: Files,
    id: u64,
    kind: u8,
    d: Option<DataV>,
    entries: Stream,
) -> Outcome<Seq<StepV>>
    decreases entries.items.len(),
{
    if entries.items.len() == 0 {
        if entries.sound {
            Ok(Seq::empty())
        } else {
            Err(Fault::Corrupt)
        }
    } else {
        match entry_step(c, r, files, id, kind, d, entries.items[0]) {
            Err(f) => Err(f),
            Ok(a) => followed(
                a,
                entry_steps(
                    c,
                    r,
                    files,
                    id,
                    kind,
                    d,
                    Stream { items: entries.items.skip(1), sound: entries.sound },
                ),
            ),
        }
    }
}

/// Whether a partition is taken over as it is: nothing is rewritten, nothing in it is newer in
/// memory, and all of it is wanted.
pub open spec fn intact(
    c: Copying,
    kind: u8,
    d: Option<DataV>,
    first: u64,
    last: u64,
    at: Route,
    p: PartV,
) -> bool {
    !c.rewrite_history && !c.rewrite_indexes && !modified(
        d,
        kind,
        at.low_second,
        end_of(kind, at.lower()).1,
    ) && first <= p.first.1 && last >= p.last.1
}

/// The steps of one partition.
pub open spec fn part_steps(
    c: Copying,
    r: RootV,
    files: Files,
    id: u64,
    kind: u8,
    d: Option<DataV>,
    first: u64,
    last: u64,
    e: (Route, PartV),
) -> Outcome<Seq<StepV>> {
    if intact(c, kind, d, first, last, e.0, e.1) {
        Ok(seq![StepV::Reuse(e.0)])
    } else {
        match scan_of(tree_of(files, e.1), e.1.lsn, (id, first), (id, last)) {
            None => Err(Fault::Corrupt),
            Some(entries) => entry_steps(c, r, files, id, kind, d, entries),
        }
    }
}

/// The steps of partitions.
pub open spec fn parts_steps(
    c: Copying,
    r: RootV,
    files: Files,
    id: u64,
    kind: u8,
    d: Option<DataV>,
    first: u64,
    last: u64,
    parts: Seq<(Route, PartV)>,
) -> Outcome<Seq<StepV>>
    decreases parts.len(),
{
    if parts.len() == 0 {
        Ok(Seq::empty())
    } else {
        match part_steps(c, r, files, id, kind, d, first, last, parts[0]) {
            Err(f) => Err(f),
            Ok(a) => followed(
                a,
                parts_steps(c, r, files, id, kind, d, first, last, parts.skip(1)),
            ),
        }
    }
}

/// The partitions of a kind that may hold versions of an entity.
pub open spec fn kind_parts(c: Copying, r: RootV, id: u64, kind: u8, first: u64, last: u64) -> Seq<
    (Route, PartV),
> {
    listing(r.partitions).filter(
        between_routes(
            route_of(c.table, kind, (id, first)),
            route_of(c.table, kind, (id, last)),
        ),
    )
}

/// The steps of a kind of history.
pub open spec fn kind_steps(
    c: Copying,
    r: RootV,
    files: Files,
    id: u64,
    kind: u8,
    d: Option<DataV>,
    base: u64,
    last: u64,
) -> Outcome<Seq<StepV>> {
    if kind == 4 && base >= last {
        Ok(Seq::empty())
    } else {
        let first = if kind == 4 {
            (base + 1) as u64
        } else {
            base
        };
        parts_steps(
            c,
            r,
            files,
            id,
            kind,
            d,
            first,
            last,
            kind_parts(c, r, id, kind, first, last),
        )
    }
}

/// The steps that carry the history of an entity over: snapshots, then events.
pub open spec fn history_steps(
    c: Copying,
    r: RootV,
    files: Files,
    id: u64,
    d: Option<DataV>,
    base: u64,
    last: u64,
) -> Outcome<Seq<StepV>> {
    match kind_steps(c, r, files, id, 5, d, base, last) {
        Err(f) => Err(f),
        Ok(a) => followed(a, kind_steps(c, r, files, id, 4, d, base, last)),
    }
}

/// Whether the step of an index entry needs what a request names: only history that is written
/// anew is read.
pub open spec fn entry_asks(
    c: Copying,
    r: RootV,
    files: Files,
    kind: u8,
    d: Option<DataV>,
    entry: Entry,
    e: Error,
) -> bool {
    c.rewrite_history && if kind == 5 {
        !(d is Some && d.unwrap().snapshots.contains_key(entry.0.1)) && snapshot_asks(
            r,
            files,
            c.table,
            entry.1,
            e,
        )
    } else {
        event_asks(r, files, c.table, entry.1, e)
    }
}

/// Whether the steps of index entries need what a request names.
pub open spec fn entries_step_asks(
    c: Copying,
    r: RootV,
    files: Files,
    kind: u8,
    d: Option<DataV>,
    items: Seq<Entry>,
    e: Error,
) -> bool {
    exists|i: int| 0 <= i < items.len() && entry_asks(c, r, files, kind, d, #[trigger] items[i], e)
}

/// Whether the steps of a partition need what a request names.
pub open spec fn part_asks(
    c: Copying,
    r: RootV,
    files: Files,
    id: u64,
    kind: u8,
    d: Option<DataV>,
    first: u64,
    last: u64,
    at: (Route, PartV),
    e: Error,
) -> bool {
    let p = at.1;
    !intact(c, kind, d, first, last, at.0, p) && ({
        ||| scan_asks(files, p.file, p.base, p.lsn, (id, first), (id, last), e)
        ||| match scan_of(tree_of(files, p), p.lsn, (id, first), (id, last)) {
            None => false,
            Some(s) => entries_step_asks(c, r, files, kind, d, s.items, e),
        }
    })
}

/// Whether the steps of partitions need what a request names.
#[verifier::opaque]
pub open spec fn parts_ask(
    c: Copying,
    r: RootV,
    files: Files,
    id: u64,
    kind: u8,
    d: Option<DataV>,
    first: u64,
    last: u64,
    parts: Seq<(Route, PartV)>,
    e: Error,
) -> bool {
    exists|i: int|
        0 <= i < parts.len() && part_asks(
            c,
            r,
            files,
            id,
            kind,
            d,
            first,
            last,
            #[trigger] parts[i],
            e,
        )
}

/// Whether the steps of a kind of history need what a request names.
pub open spec fn kind_asks(
    c: Copying,
    r: RootV,
    files: Files,
    id: u64,
    kind: u8,
    d: Option<DataV>,
    base: u64,
    last: u64,
    e: Error,
) -> bool {
    let first = if kind == 4 {
        (base + 1) as u64
    } else {
        base
    };
    parts_ask(
        c,
        r,
        files,
        id,
        kind,
        d,
        first,
        last,
        kind_parts(c, r, id, kind, first, last),
        e,
    )
}

/// Whether the steps of the history of an entity need what a request names.
pub open spec fn history_asks(
    c: Copying,
    r: RootV,
    files: Files,
    id: u64,
    d: Option<DataV>,
    base: u64,
    last: u64,
    e: Error,
) -> bool {
    kind_asks(c, r, files, id, 5, d, base, last, e) || kind_asks(
        c,
        r,
        files,
        id,
        4,
        d,
        base,
        last,
        e,
    )
}

// ---- Planning ----

/// What may be an entity stands for.
pub open spec fn override_view(d: Option<&EntityData>) -> Option<DataV> {
    match d {
        None => None,
        Some(d) => Some(d@),
    }
}

fn is_modified(d: Option<&EntityData>, kind: u8, low: u64, high: u64) -> (r: bool)
    ensures
        r == modified(override_view(d), kind, low, high),
{
    match d {
        None => false,
        Some(data) => {
            if kind == 5 {
                proof {
                    assert forall|v: u64| data@.snapshots.contains_key(v)
                        == #[trigger] data.snapshots@.contains_key(v) by {
                    }
                }
                match data.snapshots.floor(&high) {
                    None => {
                        proof {
                            assert forall|v: u64| #[trigger]
                                data@.snapshots.contains_key(v) implies v > high by {
                                assert(data.snapshots@.contains_key(v));
                            }
                        }
                        false
                    },
                    Some((v, _)) => {
                        proof {
                            assert(data@.snapshots.contains_key(*v));
                            assert forall|w: u64| #[trigger]
                                data@.snapshots.contains_key(w) implies w <= *v || w > high by {
                                assert(data.snapshots@.contains_key(w));
                            }
                        }
                        low <= *v
                    },
                }
            } else {
                let in_committed: bool = match data.committed.floor(&high) {
                    None => {
                        proof {
                            assert forall|v: u64| #[trigger]
                                data@.committed.contains_key(v) implies v > high by {
                                assert(data.committed@.contains_key(v));
                            }
                        }
                        false
                    },
                    Some((v, _)) => {
                        proof {
                            assert(data@.committed.contains_key(*v));
                            assert forall|w: u64| #[trigger]
                                data@.committed.contains_key(w) implies w <= *v || w > high by {
                                assert(data.committed@.contains_key(w));
                            }
                        }
                        low <= *v
                    },
                };
                if in_committed {
                    return true;
                }
                let mut i: usize = 0;
                while i < data.events.len()
                    invariant
                        kind != 5,
                        d == Some(data),
                        i <= data.events@.len(),
                        forall|j: int|
                            0 <= j < i ==> !(low <= (#[trigger] data@.events[j]).version <= high),
                    decreases data.events@.len() - i,
                {
                    assert(data@.events[i as int] == data.events@[i as int]@);
                    let version: u64 = data.events[i].version;
                    if low <= version && version <= high {
                        proof {
                            let v = override_view(d).unwrap();
                            assert(v.events[i as int].version == version);
                        }
                        return true;
                    }
                    i = i + 1;
                }
                false
            }
        },
    }
}

impl Root {
    /// The partitions between two routes, with their routes.
    pub fn routed(&self, from: Route, to: Route) -> (out: Vec<(Route, &Partition)>)
        ensures
            out@.map_values(|e: (Route, &Partition)| (e.0, e.1@)) == listing(
                self@.partitions,
            ).filter(between_routes(from, to)),
            lists(listing(self@.partitions), self@.partitions),
    {
        let mut range = self.partitions.range(Bound::Included(from), Bound::Included(to));
        let ghost g = |e: (Route, Partition)| (e.0, e.1@);
        let ghost h = |e: (Route, &Partition)| (e.0, e.1@);
        let ghost all = range.remaining().map_values(g);
        proof {
            let s = self.partitions.entries();
            let f = |p: Partition| p@;
            let p = |e: (Route, Partition)|
                above(Bound::Included(from), e.0) && within(Bound::Included(to), e.0);
            lemma_listing_map(s, self.partitions@, f);
            assert(s.map_values(|e: (Route, Partition)| (e.0, f(e.1))) =~= s.map_values(g));
            assert(self.partitions@.map_values(f) =~= self@.partitions);
            lemma_listing_is(s.map_values(g), self@.partitions);
            lemma_filter_map(s, p, g, between_routes(from, to));
        }
        let mut out: Vec<(Route, &Partition)> = Vec::new();
        proof {
            assert(out@.map_values(h) + all =~= all);
        }
        loop
            invariant
                g == (|e: (Route, Partition)| (e.0, e.1@)),
                h == (|e: (Route, &Partition)| (e.0, e.1@)),
                out@.map_values(h) + range.remaining().map_values(g) == all,
                all == listing(self@.partitions).filter(between_routes(from, to)),
                lists(listing(self@.partitions), self@.partitions),
            decreases range.remaining().len(),
        {
            let ghost before = range.remaining();
            match range.next() {
                None => {
                    assert(out@.map_values(h) =~= all);
                    return out;
                },
                Some((k, v)) => {
                    let ghost was = out@;
                    out.push((*k, v));
                    proof {
                        assert(before.map_values(g) =~= seq![(*k, v@)]
                            + range.remaining().map_values(g));
                        assert(out@.map_values(h) =~= was.map_values(h).push((*k, v@)));
                        assert(was.map_values(h) + (seq![(*k, v@)] + range.remaining().map_values(
                            g,
                        )) =~= out@.map_values(h) + range.remaining().map_values(g));
                    }
                },
            }
        }
    }
}

proof fn lemma_followed_none(t: Outcome<Seq<StepV>>)
    ensures
        followed(Seq::empty(), t) == t,
{
    if let Ok(x) = t {
        assert(Seq::<StepV>::empty() + x =~= x);
    }
}

proof fn lemma_followed(a: Seq<StepV>, b: Seq<StepV>, t: Outcome<Seq<StepV>>)
    ensures
        followed(a, followed(b, t)) == followed(a + b, t),
{
    if let Ok(x) = t {
        assert(a + (b + x) =~= (a + b) + x);
    }
}

/// Whether planning came to what it should.
pub open spec fn planned_to(
    loaded: &Loaded,
    r: Result<Vec<Step>>,
    outcome: spec_fn(Files) -> Outcome<Seq<StepV>>,
    needs: spec_fn(Files, Error) -> bool,
) -> bool {
    match r {
        Ok(v) => forall|files: Files| #[trigger]
            loaded.agrees(files) ==> outcome(files) == Ok::<_, Fault>(steps_view(v@)),
        Err(e) => lacks(loaded, e) && (forall|files: Files| #[trigger]
            loaded.agrees(files) ==> needs(files, e)) || e is Corrupt && forall|files: Files|
            #[trigger]
            loaded.agrees(files) ==> outcome(files) == Err::<Seq<StepV>, _>(Fault::Corrupt),
    }
}

fn plan_entry(
    c: Copying,
    root: &Root,
    loaded: &Loaded,
    id: u64,
    kind: u8,
    d: Option<&EntityData>,
    entry: Entry,
) -> (r: Result<Vec<Step>>)
    ensures
        planned_to(
            loaded,
            r,
            |files: Files|
                entry_step(c, root@, files, id, kind, override_view(d), entry),
            |files: Files, e: Error|
                entry_asks(c, root@, files, kind, override_view(d), entry, e),
        ),
{
    let mut steps: Vec<Step> = Vec::new();
    let (key, location) = entry;
    if kind == 5 {
        let newer: bool = match d {
            None => false,
            Some(d) => {
                let r: bool = d.snapshots.contains_key(&key.1);
                assert(r == d@.snapshots.contains_key(key.1));
                r
            },
        };
        if newer {
            assert(steps_view(steps@) =~= Seq::empty());
            return Ok(steps);
        }
        if c.rewrite_history {
            let state = root.history_state(loaded, c.table, location, id)?;
            let ghost v = state@;
            steps.push(Step::Snapshot(state));
            assert(steps_view(steps@) =~= seq![StepV::Snapshot(v)]);
        } else {
            steps.push(Step::SnapshotLink(key, location));
            assert(steps_view(steps@) =~= seq![StepV::SnapshotLink(key, location)]);
        }
    } else if c.rewrite_history {
        let (entity, event, lsn) = root.event_at(loaded, c.table, location)?;
        if entity != id || event.version != key.1 || event.transaction != lsn {
            return Err(corrupt("invalid collected event"));
        }
        let ghost v = event@;
        steps.push(Step::Event(event));
        assert(steps_view(steps@) =~= seq![StepV::Event(v)]);
    } else {
        steps.push(Step::EventLink(key, location));
        assert(steps_view(steps@) =~= seq![StepV::EventLink(key, location)]);
    }
    Ok(steps)
}

proof fn lemma_steps_append(a: Seq<Step>, b: Seq<Step>)
    ensures
        steps_view(a + b) == steps_view(a) + steps_view(b),
{
    assert(steps_view(a + b) =~= steps_view(a) + steps_view(b));
}

proof fn lemma_unsound(
    c: Copying,
    r: RootV,
    files: Files,
    id: u64,
    kind: u8,
    d: Option<DataV>,
    entries: Stream,
)
    requires
        !entries.sound,
    ensures
        entry_steps(c, r, files, id, kind, d, entries) == Err::<Seq<StepV>, _>(Fault::Corrupt),
    decreases entries.items.len(),
{
    if entries.items.len() > 0 {
        lemma_unsound(
            c,
            r,
            files,
            id,
            kind,
            d,
            Stream { items: entries.items.skip(1), sound: entries.sound },
        );
    }
}

/// Reads the entries of a partition between two keys.
fn read_entries(loaded: &Loaded, part: &Partition, lower: Key, upper: Key) -> (r: Result<Vec<Entry>>)
    ensures
        match r {
            Ok(v) => forall|files: Files| #[trigger]
                loaded.agrees(files) ==> scan_of(tree_of(files, part@), part.lsn, lower, upper)
                    == Some(Stream { items: v@, sound: true }),
            Err(e) => lacks(loaded, e) && (forall|files: Files| #[trigger]
                loaded.agrees(files) ==> scan_asks(
                    files,
                    part.file,
                    part.base,
                    part.lsn,
                    lower,
                    upper,
                    e,
                )) || e is Corrupt && forall|files: Files| #[trigger]
                loaded.agrees(files) ==> match scan_of(
                    tree_of(files, part@),
                    part.lsn,
                    lower,
                    upper,
                ) {
                    None => true,
                    Some(s) => !s.sound,
                },
        },
{
    let mut scan = scan_at(loaded, part.file, part.lsn, part.base, lower, upper)?;
    let mut entries: Vec<Entry> = Vec::new();
    proof {
        assert forall|files: Files| #[trigger] loaded.agrees(files) implies scan_of(
            tree_of(files, part@),
            part.lsn,
            lower,
            upper,
        ) == Some(
            Stream {
                items: entries@ + scan.remaining(tree_of(files, part@)).items,
                sound: scan.remaining(tree_of(files, part@)).sound,
            },
        ) by {
            assert(entries@ + scan.remaining(tree_of(files, part@)).items =~= scan.remaining(
                tree_of(files, part@),
            ).items);
        }
    }
    loop
        invariant
            scan.sound(),
            scan.source() == part.file,
            scan.start() == part.base,
            forall|files: Files, e: Error|
                #![trigger loaded.agrees(files), scan.asks(files, e)]
                loaded.agrees(files) && scan.asks(files, e) ==> scan_asks(
                    files,
                    part.file,
                    part.base,
                    part.lsn,
                    lower,
                    upper,
                    e,
                ),
            forall|files: Files| #[trigger]
                loaded.agrees(files) ==> scan_of(tree_of(files, part@), part.lsn, lower, upper)
                    == Some(
                    Stream {
                        items: entries@ + scan.remaining(tree_of(files, part@)).items,
                        sound: scan.remaining(tree_of(files, part@)).sound,
                    },
                ),
        decreases usize::MAX - entries@.len(),
    {
        let ghost before = scan;
        match scan.next(loaded) {
            None => {
                proof {
                    assert forall|files: Files| #[trigger] loaded.agrees(files) implies scan_of(
                        tree_of(files, part@),
                        part.lsn,
                        lower,
                        upper,
                    ) == Some(Stream { items: entries@, sound: true }) by {
                        assert(entries@ + before.remaining(tree_of(files, part@)).items =~= entries@);
                    }
                }
                return Ok(entries);
            },
            Some(Err(e)) => {
                return Err(e);
            },
            Some(Ok(entry)) => {
                let ghost was = entries@;
                entries.push(entry);
                let count: usize = entries.len();
                proof {
                    assert forall|files: Files| #[trigger] loaded.agrees(files) implies scan_of(
                        tree_of(files, part@),
                        part.lsn,
                        lower,
                        upper,
                    ) == Some(
                        Stream {
                            items: entries@ + scan.remaining(tree_of(files, part@)).items,
                            sound: scan.remaining(tree_of(files, part@)).sound,
                        },
                    ) by {
                        assert(was + before.remaining(tree_of(files, part@)).items =~= entries@
                            + scan.remaining(tree_of(files, part@)).items);
                    }
                }
            },
        }
    }
}

fn plan_entries(
    c: Copying,
    root: &Root,
    loaded: &Loaded,
    id: u64,
    kind: u8,
    d: Option<&EntityData>,
    entries: &Vec<Entry>,
) -> (r: Result<Vec<Step>>)
    ensures
        planned_to(
            loaded,
            r,
            |files: Files|
                entry_steps(
                    c,
                    root@,
                    files,
                    id,
                    kind,
                    override_view(d),
                    Stream { items: entries@, sound: true },
                ),
            |files: Files, e: Error|
                entries_step_asks(c, root@, files, kind, override_view(d), entries@, e),
        ),
{
    let ghost v = override_view(d);
    let ghost rest = |files: Files, k: int|
        entry_steps(
            c,
            root@,
            files,
            id,
            kind,
            v,
            Stream { items: entries@.skip(k), sound: true },
        );
    let mut steps: Vec<Step> = Vec::new();
    proof {
        assert(steps_view(steps@) =~= Seq::empty());
        assert(entries@.skip(0) =~= entries@);
        assert forall|files: Files| #[trigger] loaded.agrees(files) implies rest(files, 0)
            == followed(steps_view(steps@), rest(files, 0)) by {
            lemma_followed_none(rest(files, 0));
        }
    }
    let mut i: usize = 0;
    while i < entries.len()
        invariant
            i <= entries@.len(),
            v == override_view(d),
            rest == (|files: Files, k: int|
                entry_steps(
                    c,
                    root@,
                    files,
                    id,
                    kind,
                    v,
                    Stream { items: entries@.skip(k), sound: true },
                )),
            entries@.skip(0) == entries@,
            forall|files: Files| #[trigger]
                loaded.agrees(files) ==> rest(files, 0) == followed(
                    steps_view(steps@),
                    rest(files, i as int),
                ),
        decreases entries@.len() - i,
    {
        proof {
            assert(entries@.skip(i as int)[0] == entries@[i as int]);
            assert(entries@.skip(i as int).skip(1) =~= entries@.skip(i + 1));
        }
        let mut more = plan_entry(c, root, loaded, id, kind, d, entries[i])?;
        let ghost a = steps@;
        let ghost b = more@;
        steps.append(&mut more);
        proof {
            lemma_steps_append(a, b);
            assert forall|files: Files| #[trigger] loaded.agrees(files) implies rest(files, 0)
                == followed(steps_view(steps@), rest(files, i + 1)) by {
                lemma_followed(steps_view(a), steps_view(b), rest(files, i + 1));
            }
        }
        i = i + 1;
    }
    proof {
        assert(steps_view(steps@) + Seq::<StepV>::empty() =~= steps_view(steps@));
    }
    Ok(steps)
}

fn plan_part(
    c: Copying,
    root: &Root,
    loaded: &Loaded,
    id: u64,
    kind: u8,
    d: Option<&EntityData>,
    first: u64,
    last: u64,
    at: Route,
    part: &Partition,
) -> (r: Result<Vec<Step>>)
    ensures
        planned_to(
            loaded,
            r,
            |files: Files|
                part_steps(c, root@, files, id, kind, override_view(d), first, last, (at, part@)),
            |files: Files, e: Error|
                part_asks(
                    c,
                    root@,
                    files,
                    id,
                    kind,
                    override_view(d),
                    first,
                    last,
                    (at, part@),
                    e,
                ),
        ),
{
    let upper: u64 = end(kind, (at.low, at.low_second)).1;
    let newer: bool = is_modified(d, kind, at.low_second, upper);
    if !c.rewrite_history && !c.rewrite_indexes && !newer && first <= part.first.1 && last
        >= part.last.1 {
        let mut steps: Vec<Step> = Vec::new();
        steps.push(Step::Reuse(at));
        assert(steps_view(steps@) =~= seq![StepV::Reuse(at)]);
        return Ok(steps);
    }
    match read_entries(loaded, part, (id, first), (id, last)) {
        Err(e) => {
            proof {
                assert forall|files: Files|
                    #![trigger loaded.agrees(files)]
                    loaded.agrees(files) && !lacks(loaded, e) implies part_steps(
                    c,
                    root@,
                    files,
                    id,
                    kind,
                    override_view(d),
                    first,
                    last,
                    (at, part@),
                ) == Err::<Seq<StepV>, _>(Fault::Corrupt) by {
                    match scan_of(tree_of(files, part@), part.lsn, (id, first), (id, last)) {
                        None => {},
                        Some(s) => lemma_unsound(
                            c,
                            root@,
                            files,
                            id,
                            kind,
                            override_view(d),
                            s,
                        ),
                    }
                }
            }
            Err(e)
        },
        Ok(entries) => plan_entries(c, root, loaded, id, kind, d, &entries),
    }
}

fn plan_kind(
    c: Copying,
    root: &Root,
    loaded: &Loaded,
    id: u64,
    kind: u8,
    d: Option<&EntityData>,
    base: u64,
    last: u64,
) -> (r: Result<Vec<Step>>)
    ensures
        planned_to(
            loaded,
            r,
            |files: Files| kind_steps(c, root@, files, id, kind, override_view(d), base, last),
            |files: Files, e: Error|
                kind_asks(c, root@, files, id, kind, override_view(d), base, last, e),
        ),
{
    let mut steps: Vec<Step> = Vec::new();
    proof {
        assert(steps_view(steps@) =~= Seq::empty());
    }
    if kind == 4 && base >= last {
        return Ok(steps);
    }
    let first: u64 = if kind == 4 {
        base + 1
    } else {
        base
    };
    let low = bucket(kind, (id, first));
    let high = bucket(kind, (id, last));
    let parts = root.routed(
        Route { table: c.table, kind, low: low.0, low_second: low.1 },
        Route { table: c.table, kind, low: high.0, low_second: high.1 },
    );
    let ghost v = override_view(d);
    let ghost h = |e: (Route, &Partition)| (e.0, e.1@);
    let ghost all = parts@.map_values(h);
    let ghost rest = |files: Files, k: int|
        parts_steps(c, root@, files, id, kind, v, first, last, all.skip(k));
    proof {
        assert(all == kind_parts(c, root@, id, kind, first, last));
        assert(all.skip(0) =~= all);
        assert forall|files: Files| #[trigger] loaded.agrees(files) implies rest(files, 0)
            == followed(steps_view(steps@), rest(files, 0)) by {
            lemma_followed_none(rest(files, 0));
        }
    }
    let mut i: usize = 0;
    while i < parts.len()
        invariant
            i <= parts@.len(),
            v == override_view(d),
            h == (|e: (Route, &Partition)| (e.0, e.1@)),
            all == parts@.map_values(h),
            forall|files: Files, e: Error|
                parts_ask(c, root@, files, id, kind, v, first, last, all, e)
                    ==> #[trigger] kind_asks(c, root@, files, id, kind, v, base, last, e),
            rest == (|files: Files, k: int|
                parts_steps(c, root@, files, id, kind, v, first, last, all.skip(k))),
            forall|files: Files| #[trigger]
                loaded.agrees(files) ==> rest(files, 0) == followed(
                    steps_view(steps@),
                    rest(files, i as int),
                ),
            forall|files: Files| #[trigger]
                loaded.agrees(files) ==> rest(files, 0) == kind_steps(
                    c,
                    root@,
                    files,
                    id,
                    kind,
                    v,
                    base,
                    last,
                ),
        decreases parts@.len() - i,
    {
        let (at, part) = parts[i];
        proof {
            assert(all[i as int] == (at, part@));
            assert(all.skip(i as int)[0] == (at, part@));
            assert(all.skip(i as int).skip(1) =~= all.skip(i + 1));
        }
        let mut more = match plan_part(c, root, loaded, id, kind, d, first, last, at, part) {
            Ok(more) => more,
            Err(e) => {
                proof {
                    reveal(parts_ask);
                    assert forall|files: Files|
                        part_asks(
                            c,
                            root@,
                            files,
                            id,
                            kind,
                            v,
                            first,
                            last,
                            (at, part@),
                            e,
                        ) implies #[trigger] kind_asks(
                        c,
                        root@,
                        files,
                        id,
                        kind,
                        v,
                        base,
                        last,
                        e,
                    ) by {
                        assert(part_asks(
                            c,
                            root@,
                            files,
                            id,
                            kind,
                            v,
                            first,
                            last,
                            all[i as int],
                            e,
                        ));
                        assert(parts_ask(c, root@, files, id, kind, v, first, last, all, e));
                    }
                }
                return Err(e);
            },
        };
        let ghost a = steps@;
        let ghost b = more@;
        steps.append(&mut more);
        proof {
            lemma_steps_append(a, b);
            assert forall|files: Files| #[trigger] loaded.agrees(files) implies rest(files, 0)
                == followed(steps_view(steps@), rest(files, i + 1)) by {
                lemma_followed(steps_view(a), steps_view(b), rest(files, i + 1));
            }
        }
        i = i + 1;
    }
    proof {
        assert(steps_view(steps@) + Seq::<StepV>::empty() =~= steps_view(steps@));
    }
    Ok(steps)
}

/// Plans how the history of an entity between two versions is carried over, where memory may
/// hold newer history.
pub fn plan_history(
    c: Copying,
    root: &Root,
    loaded: &Loaded,
    id: u64,
    d: Option<&EntityData>,
    base: u64,
    last: u64,
) -> (r: Result<Vec<Step>>)
    ensures
        planned_to(
            loaded,
            r,
            |files: Files| history_steps(c, root@, files, id, override_view(d), base, last),
            |files: Files, e: Error|
                history_asks(c, root@, files, id, override_view(d), base, last, e),
        ),
{
    let mut steps = plan_kind(c, root, loaded, id, 5, d, base, last)?;
    let mut more = plan_kind(c, root, loaded, id, 4, d, base, last)?;
    let ghost a = steps@;
    let ghost b = more@;
    steps.append(&mut more);
    proof {
        lemma_steps_append(a, b);
    }
    Ok(steps)
}

} // verus!
