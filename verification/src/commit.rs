//! Committing transactions in order, several with one synchronization of the log.

use crate::deadline::check;
use crate::deadline::past;
use crate::entity::stored_data_asks;
use crate::entity::load_entity;
use crate::entity::sealed;
use crate::entity::stored_data;
use crate::entity::DataV;
use crate::entity::EntityData;
use crate::error::invalid;
use crate::error::reports;
use crate::error::Error;
use crate::error::Fault;
use crate::error::Outcome;
use crate::error::Result;
use crate::key::OrderedKey;
use crate::model::EventV;
use crate::model::Table;
use crate::operation::catalog_view;
use crate::operation::enc_ops;
use crate::operation::encode_ops;
use crate::operation::ops_view;
use crate::operation::OpV;
use crate::operation::Operation;
use crate::ordered_map::OrderedMap;
use crate::overlay::Key;
use crate::overlay::Overlay;
use crate::reader::overlay_view;
use crate::reader::ReadState;
use crate::reader::StateV;
use crate::resources::Permit;
use crate::resources::Reservation;
use crate::operation::key_of_op;
use crate::staging::executed;
use crate::staging::executed_all;
use crate::staging::fetched;
use crate::staging::Staged;
use crate::staging::Staging;
use crate::staging::WritesV;
use crate::storage::frame;
use crate::storage::frame::enc_frame;
use crate::storage::frame::FrameV;
use crate::storage::pager::lacks;
use crate::storage::pager::Files;
use crate::storage::pager::Loaded;
use std::sync::Arc;
use vstd::prelude::*;

verus! {

/// A transaction that is ready to commit.
pub struct Prepared {
    /// The last transaction of the view that it started from.
    pub base_sequence: u64,
    /// The generation of the checkpoint that its entities rest on.
    pub root_generation: u64,
    /// The tables.
    pub catalog: OrderedMap<u64, Table>,
    /// The entities that it touched.
    pub staged: Staged,
    /// Its operations.
    pub operations: Vec<Operation>,
    /// The log bytes of its operations.
    pub reservation: Reservation,
    /// Its place among the active transactions.
    pub permit: Option<Permit>,
    /// When it must have reached the log.
    pub deadline: Option<u64>,
}

impl Staging {
    /// Makes a transaction ready to commit.
    pub fn prepare(self, deadline: Option<u64>) -> (p: Prepared)
        ensures
            p.base_sequence == self.base.lsn,
            p.root_generation == self.base.root.generation,
            p.writes() == self.writes(),
            p.catalog == self.catalog,
            p.staged == self.staged,
            p.operations == self.operations,
            p.reservation == self.reservation,
            p.permit == self.permit,
            p.deadline == deadline,
    {
        Prepared {
            base_sequence: self.base.lsn,
            root_generation: self.base.root.generation,
            catalog: self.catalog,
            staged: self.staged,
            operations: self.operations,
            reservation: self.reservation,
            permit: self.permit,
            deadline,
        }
    }
}

/// An event with the number that its transaction got.
pub open spec fn stamped(base: u64, lsn: u64) -> spec_fn(EventV) -> EventV {
    |e: EventV|
        EventV {
            version: e.version,
            transaction: if e.transaction > base {
                lsn
            } else {
                e.transaction
            },
            schema_version: e.schema_version,
            kind: e.kind,
            fields: e.fields,
        }
}

/// An entity whose staged events have the number that their transaction got.
pub open spec fn restamped(d: DataV, base: u64, lsn: u64) -> DataV {
    DataV {
        current: d.current,
        base: d.base,
        events: d.events.map_values(stamped(base, lsn)),
        committed: d.committed,
        snapshots: d.snapshots,
        disk: d.disk,
    }
}

fn restamp(data: &mut EntityData, base: u64, lsn: u64)
    ensures
        final(data)@ == restamped(old(data)@, base, lsn),
{
    let ghost before = data@;
    let ghost f = stamped(base, lsn);
    let mut i: usize = 0;
    while i < data.events.len()
        invariant
            i <= data.events@.len(),
            f == stamped(base, lsn),
            before == old(data)@,
            data.events@.len() == before.events.len(),
            data.current@ == before.current,
            data.base@ == before.base,
            data@.committed == before.committed,
            data@.snapshots == before.snapshots,
            data@.disk == before.disk,
            forall|j: int| 0 <= j < i ==> (#[trigger] data@.events[j]) == f(before.events[j]),
            forall|j: int|
                i <= j < data.events@.len() ==> (#[trigger] data@.events[j]) == before.events[j],
        decreases data.events@.len() - i,
    {
        let ghost was = data@.events;
        assert(was[i as int] == before.events[i as int]);
        if data.events[i].transaction > base {
            data.events[i].transaction = lsn;
        }
        assert forall|j: int| 0 <= j < data.events@.len() implies #[trigger] data@.events[j]
            == (if j == i {
            f(was[j])
        } else {
            was[j]
        }) by {
        }
        i = i + 1;
    }
    assert(data@.events =~= before.events.map_values(f));
}

impl Prepared {
    /// The writes.
    pub open spec fn writes(self) -> WritesV {
        WritesV { catalog: catalog_view(self.catalog@), staged: self.staged@ }
    }
}

/// Staged entities whose events have the number that their transaction got.
pub open spec fn restamped_all(m: Map<Key, DataV>, base: u64, lsn: u64) -> Map<Key, DataV> {
    m.map_values(|d: DataV| restamped(d, base, lsn))
}

fn restamp_all(staged: &mut Staged, base: u64, lsn: u64)
    ensures
        final(staged)@ == restamped_all(old(staged)@, base, lsn),
{
    let keys = staged.keys();
    let ghost before = staged@;
    let mut i: usize = 0;
    while i < keys.len()
        invariant
            i <= keys@.len(),
            before == old(staged)@,
            staged@.dom() == before.dom(),
            forall|a: int, b: int|
                0 <= a < b < keys@.len() ==> (#[trigger] keys@[a]).before(#[trigger] keys@[b]),
            forall|j: int| 0 <= j < keys@.len() ==> before.contains_key(#[trigger] keys@[j]),
            forall|j: int|
                0 <= j < i ==> staged@[#[trigger] keys@[j]] == restamped(before[keys@[j]], base, lsn),
            forall|j: int|
                i <= j < keys@.len() ==> staged@[#[trigger] keys@[j]] == before[keys@[j]],
        decreases keys@.len() - i,
    {
        let key: Key = keys[i];
        let ghost was = staged@;
        assert(staged@.contains_key(key));
        match staged.take(&key) {
            None => {},
            Some(data) => {
                let mut data = data;
                restamp(&mut data, base, lsn);
                let ghost d = data@;
                staged.insert(key, data);
                proof {
                    assert(staged@ =~= was.insert(key, d));
                    assert(staged@.dom() =~= before.dom());
                    assert forall|j: int| 0 <= j < keys@.len() && j != i implies staged@[
                    #[trigger] keys@[j]] == was[keys@[j]] by {
                        if j < i {
                            assert(keys@[j].before(keys@[i as int]));
                        } else {
                            assert(keys@[i as int].before(keys@[j]));
                        }
                    }
                }
            },
        }
        i = i + 1;
    }
    proof {
        assert forall|k: Key| #[trigger] before.contains_key(k) implies staged@[k] == restamped(
            before[k],
            base,
            lsn,
        ) by {
            assert(keys@.contains(k));
            let j = choose|j: int| 0 <= j < keys@.len() && keys@[j] == k;
            assert(staged@[keys@[j]] == restamped(before[keys@[j]], base, lsn));
        }
        assert(staged@ =~= restamped_all(before, base, lsn));
    }
}

/// An entity that rests on a newer checkpoint, which holds it up to a version.
pub open spec fn rebound(d: DataV, persisted: DataV) -> DataV {
    let through = persisted.current.version;
    DataV {
        current: d.current,
        base: d.base,
        events: d.events,
        committed: d.committed.restrict(Set::new(|v: u64| v > through)),
        snapshots: d.snapshots.restrict(Set::new(|v: u64| v >= through)),
        disk: persisted.disk,
    }
}

/// Whether an entity rests on another checkpoint than the current one.
pub open spec fn outdated(batch_generation: u64, d: DataV, generation: u64) -> bool {
    batch_generation != generation || (d.disk is Some && d.disk.unwrap().root.generation
        != generation)
}

/// An entity bound to the current checkpoint.
pub open spec fn bound(s: StateV, files: Files, batch_generation: u64, key: Key, d: DataV) -> Outcome<
    DataV,
> {
    if outdated(batch_generation, d, s.root.generation) {
        match stored_data(s.root, files, key.0, key.1) {
            Err(f) => Err(f),
            Ok(None) => Ok(d),
            Ok(Some(p)) => Ok(rebound(d, p)),
        }
    } else {
        Ok(d)
    }
}

/// Whether binding an entity to the current checkpoint needs what a request names.
pub open spec fn bind_asks(
    s: StateV,
    files: Files,
    batch_generation: u64,
    key: Key,
    d: DataV,
    e: Error,
) -> bool {
    outdated(batch_generation, d, s.root.generation) && stored_data_asks(
        s.root,
        files,
        key.0,
        key.1,
        e,
    )
}

fn rebind_entity(
    data: &mut EntityData,
    state: &ReadState,
    loaded: &Loaded,
    batch_generation: u64,
    key: Key,
) -> (r: Result<()>)
    ensures
        match r {
            Ok(_) => forall|files: Files| #[trigger]
                loaded.agrees(files) ==> bound(state@, files, batch_generation, key, old(data)@)
                    == Ok::<_, Fault>(final(data)@),
            Err(e) => *final(data) == *old(data) && (lacks(loaded, e) && (forall|files: Files|
                #[trigger]
                loaded.agrees(files) ==> bind_asks(
                    state@,
                    files,
                    batch_generation,
                    key,
                    old(data)@,
                    e,
                )) || forall|files: Files| #[trigger]
                loaded.agrees(files) ==> {
                    let b = bound(state@, files, batch_generation, key, old(data)@);
                    b is Err && reports(e, b->Err_0)
                }),
        },
{
    let generation: u64 = state.root.generation;
    let stale: bool = match &data.disk {
        None => false,
        Some(disk) => disk.root.generation != generation,
    };
    if batch_generation == generation && !stale {
        return Ok(());
    }
    match load_entity(&state.root, loaded, key.0, key.1)? {
        None => Ok(()),
        Some(persisted) => {
            let ghost before = data@;
            let ghost p = persisted@;
            let through: u64 = persisted.current.version;
            if through < u64::MAX {
                data.committed.retain_from(&(through + 1));
            } else {
                data.committed.clear();
            }
            data.snapshots.retain_from(&through);
            data.disk = persisted.disk;
            proof {
                let n = rebound(before, p);
                assert(data@.committed =~= n.committed);
                assert(data@.snapshots =~= n.snapshots);
                assert(data@ == n);
            }
            Ok(())
        },
    }
}

/// Whether entities were bound to the current checkpoint.
pub open spec fn bound_all(
    s: StateV,
    files: Files,
    batch_generation: u64,
    before: Map<Key, DataV>,
    after: Map<Key, DataV>,
) -> bool {
    &&& after.dom() == before.dom()
    &&& forall|k: Key| #[trigger]
        before.contains_key(k) ==> bound(s, files, batch_generation, k, before[k]) == Ok::<
            _,
            Fault,
        >(after[k])
}

impl Prepared {
    /// Rebinds the entities to the checkpoint of the current view.
    ///
    /// A checkpoint may have moved the history while this transaction was staged; conflict
    /// validation guarantees no intervening write to these keys. A failure, or a request for a
    /// part of a file that is not in memory, leaves the entities that are not bound yet as they
    /// are, and binding can be tried again.
    pub fn rebind(&mut self, state: &ReadState, loaded: &Loaded) -> (r: Result<()>)
        ensures
            final(self).base_sequence == old(self).base_sequence,
            final(self).catalog == old(self).catalog,
            final(self).operations == old(self).operations,
            final(self).reservation == old(self).reservation,
            final(self).permit == old(self).permit,
            final(self).deadline == old(self).deadline,
            match r {
                Ok(_) => final(self).root_generation == state.root.generation && forall|
                    files: Files,
                | #[trigger]
                    loaded.agrees(files) ==> bound_all(
                        state@,
                        files,
                        old(self).root_generation,
                        old(self).staged@,
                        final(self).staged@,
                    ),
                Err(e) => final(self).root_generation == old(self).root_generation && final(
                    self).staged@.dom() == old(self).staged@.dom() && (lacks(loaded, e) && (forall|
                    files: Files,
                | #[trigger]
                    loaded.agrees(files) ==> exists|k: Key| #[trigger]
                        old(self).staged@.contains_key(k) && bind_asks(
                            state@,
                            files,
                            old(self).root_generation,
                            k,
                            old(self).staged@[k],
                            e,
                        )) || forall|files: Files| #[trigger]
                    loaded.agrees(files) ==> exists|k: Key| #[trigger]
                        old(self).staged@.contains_key(k) && {
                            let b = bound(
                                state@,
                                files,
                                old(self).root_generation,
                                k,
                                old(self).staged@[k],
                            );
                            b is Err && reports(e, b->Err_0)
                        }),
            },
    {
        let keys = self.staged.keys();
        let generation: u64 = self.root_generation;
        let ghost before = self.staged@;
        let mut i: usize = 0;
        while i < keys.len()
            invariant
                i <= keys@.len(),
                generation == old(self).root_generation,
                self.base_sequence == old(self).base_sequence,
                self.root_generation == old(self).root_generation,
                self.catalog == old(self).catalog,
                self.operations == old(self).operations,
                self.reservation == old(self).reservation,
                self.permit == old(self).permit,
                self.deadline == old(self).deadline,
                before == old(self).staged@,
                self.staged@.dom() == before.dom(),
                forall|a: int, b: int|
                    0 <= a < b < keys@.len() ==> (#[trigger] keys@[a]).before(#[trigger] keys@[b]),
                forall|j: int| 0 <= j < keys@.len() ==> before.contains_key(#[trigger] keys@[j]),
                forall|k: Key| #[trigger] before.contains_key(k) ==> keys@.contains(k),
                forall|files: Files, j: int|
                    0 <= j < i && #[trigger] loaded.agrees(files) ==> bound(
                        state@,
                        files,
                        generation,
                        #[trigger] keys@[j],
                        before[keys@[j]],
                    ) == Ok::<_, Fault>(self.staged@[keys@[j]]),
                forall|j: int|
                    i <= j < keys@.len() ==> self.staged@[#[trigger] keys@[j]] == before[keys@[j]],
            decreases keys@.len() - i,
        {
            let key: Key = keys[i];
            let ghost was = self.staged@;
            assert(self.staged@.contains_key(key));
            match self.staged.take(&key) {
                None => {},
                Some(data) => {
                    let mut data = data;
                    let r = rebind_entity(&mut data, state, loaded, generation, key);
                    let ghost d = data@;
                    self.staged.insert(key, data);
                    proof {
                        assert(self.staged@ =~= was.insert(key, d));
                        assert(self.staged@.dom() =~= before.dom());
                        assert forall|j: int| 0 <= j < keys@.len() && j != i implies self.staged@[
                        #[trigger] keys@[j]] == was[keys@[j]] by {
                            if j < i {
                                assert(keys@[j].before(keys@[i as int]));
                            } else {
                                assert(keys@[i as int].before(keys@[j]));
                            }
                        }
                    }
                    match r {
                        Ok(_) => {},
                        Err(e) => {
                            assert(before.contains_key(keys@[i as int]));
                            return Err(e);
                        },
                    }
                },
            }
            i = i + 1;
        }
        self.root_generation = state.root.generation;
        proof {
            assert forall|files: Files| #[trigger] loaded.agrees(files) implies bound_all(
                state@,
                files,
                generation,
                before,
                self.staged@,
            ) by {
                assert forall|k: Key| #[trigger] before.contains_key(k) implies bound(
                    state@,
                    files,
                    generation,
                    k,
                    before[k],
                ) == Ok::<_, Fault>(self.staged@[k]) by {
                    assert(keys@.contains(k));
                    let j = choose|j: int| 0 <= j < keys@.len() && keys@[j] == k;
                    assert(bound(state@, files, generation, keys@[j], before[keys@[j]])
                        == Ok::<_, Fault>(self.staged@[keys@[j]]));
                }
            }
        }
        Ok(())
    }

    /// The entities that the transaction touched, in order.
    pub fn keys(&self) -> (keys: Vec<Key>)
        ensures
            forall|a: int, b: int|
                0 <= a < b < keys@.len() ==> (#[trigger] keys@[a]).before(#[trigger] keys@[b]),
            keys@.len() == self.staged@.dom().len(),
            forall|i: int| 0 <= i < keys@.len() ==> self.staged@.contains_key(#[trigger] keys@[i]),
            forall|k: Key| #[trigger] self.staged@.contains_key(k) ==> keys@.contains(k),
    {
        self.staged.keys()
    }

    /// How many entities the transaction touched.
    pub fn keys_len(&self) -> (n: usize)
        ensures
            n == self.staged@.dom().len(),
    {
        self.staged.keys().len()
    }

    /// Whether the transaction changes a table definition.
    pub fn changes_catalog(&self) -> (r: bool)
        ensures
            r == exists|i: int|
                0 <= i < self.operations@.len() && (#[trigger] self.operations@[i]) is Table,
    {
        let mut i: usize = 0;
        while i < self.operations.len()
            invariant
                i <= self.operations@.len(),
                forall|j: int| 0 <= j < i ==> !((#[trigger] self.operations@[j]) is Table),
            decreases self.operations@.len() - i,
        {
            match &self.operations[i] {
                Operation::Table(_) => {
                    return true;
                },
                _ => {},
            }
            i = i + 1;
        }
        false
    }

    /// Whether the transaction wrote nothing.
    pub fn is_empty(&self) -> (r: bool)
        ensures
            r == (self.operations@.len() == 0),
    {
        self.operations.len() == 0
    }

    /// The log bytes of the transaction's operations.
    pub fn bytes(&self) -> (n: usize)
        ensures
            n == self.reservation.bytes,
    {
        self.reservation.bytes
    }
}

// ---- Publication ----

/// Staged entities whose events are committed.
pub open spec fn sealed_all(m: Map<Key, DataV>) -> Map<Key, DataV> {
    m.map_values(|d: DataV| sealed(d))
}

/// A view after a transaction.
pub open spec fn published(s: StateV, w: WritesV, lsn: u64) -> StateV {
    StateV {
        root: s.root,
        catalog: w.catalog,
        overlay: s.overlay.union_prefer_right(sealed_all(w.staged)),
        lsn,
        poisoned: s.poisoned,
    }
}

/// The committed state of a database and what its maintenance needs to know.
pub struct Engine {
    /// The committed view.
    pub state: ReadState,
    /// The entities changed since a checkpoint was captured, while it is built.
    pub tail: Option<Overlay>,
    /// Log bytes that no checkpoint covers.
    pub wal_bytes: u64,
    /// The generation that the next checkpoint gets.
    pub next_generation: u64,
}

/// What entities changed since a checkpoint was captured stand for.
pub open spec fn tail_view(tail: Option<Overlay>) -> Option<Map<Key, DataV>> {
    match tail {
        None => None,
        Some(t) => Some(overlay_view(t.entries())),
    }
}

impl Engine {
    /// Whether the counts of the overlays are right.
    pub open spec fn sound(self) -> bool {
        &&& self.state.sound()
        &&& self.tail is Some ==> self.tail.unwrap().sound()
    }

    /// Whether the overlays have room for so many entities more.
    pub open spec fn room(self, n: nat) -> bool {
        &&& self.state.overlay.count() + n <= usize::MAX
        &&& self.tail is Some ==> self.tail.unwrap().count() + n <= usize::MAX
    }

    /// Decides whether the overlays have room for the entities of all transactions of a group.
    pub fn has_room_for(&self, group: &Group) -> (r: bool)
        ensures
            r == self.room(touched(group.active@)),
    {
        let ghost active = group.active@;
        let count: usize = group.active.len();
        let mut n: usize = 0;
        let mut i: usize = 0;
        while i < count
            invariant
                i <= count,
                count == active.len(),
                active == group.active@,
                n == touched(active.take(i as int)),
            decreases count - i,
        {
            let more: usize = group.active[i].1.keys_len();
            proof {
                assert(active.take(i + 1).drop_last() =~= active.take(i as int));
                lemma_touched(active, i + 1);
            }
            if more > usize::MAX - n {
                return false;
            }
            n = n + more;
            i = i + 1;
        }
        proof {
            assert(active.take(count as int) =~= active);
        }
        if self.state.overlay.len() > usize::MAX - n {
            return false;
        }
        match &self.tail {
            None => true,
            Some(tail) => tail.len() <= usize::MAX - n,
        }
    }

    /// Publishes a transaction.
    pub fn publish_state(&mut self, batch: Prepared, lsn: u64)
        requires
            old(self).sound(),
            old(self).room(batch.staged@.dom().len()),
        ensures
            final(self).sound(),
            final(self).state@ == published(old(self).state@, batch.writes(), lsn),
            final(self).state.root == old(self).state.root,
            tail_view(final(self).tail) == (match tail_view(old(self).tail) {
                None => None,
                Some(t) => Some(t.union_prefer_right(sealed_all(batch.staged@))),
            }),
            final(self).wal_bytes == old(self).wal_bytes,
            final(self).next_generation == old(self).next_generation,
            final(self).state.overlay.count() <= old(self).state.overlay.count()
                + batch.staged@.dom().len(),
            final(self).tail is Some ==> final(self).tail.unwrap().count() <= old(
                self,
            ).tail.unwrap().count() + batch.staged@.dom().len(),
    {
        let keys = batch.staged.keys();
        let ghost before = batch.staged@;
        let ghost n = before.dom().len();
        let ghost m0 = overlay_view(old(self).state.overlay.entries());
        let ghost t0 = tail_view(old(self).tail);
        let mut staged = batch.staged;
        let mut i: usize = 0;
        let ghost mut done: Set<Key> = Set::empty();
        proof {
            assert(overlay_view(self.state.overlay.entries()) =~= m0.union_prefer_right(
                sealed_all(before).restrict(done),
            ));
            if let Some(t) = t0 {
                assert(t =~= t.union_prefer_right(sealed_all(before).restrict(done)));
            }
        }
        while i < keys.len()
            invariant
                i <= keys@.len(),
                keys@.len() == n,
                n == before.dom().len(),
                self.sound(),
                self.state.root == old(self).state.root,
                self.state.catalog == old(self).state.catalog,
                self.state.lsn == old(self).state.lsn,
                self.state.poisoned == old(self).state.poisoned,
                self.wal_bytes == old(self).wal_bytes,
                self.next_generation == old(self).next_generation,
                self.tail is Some == old(self).tail is Some,
                old(self).room(n),
                self.state.overlay.count() <= old(self).state.overlay.count() + i,
                self.tail is Some ==> self.tail.unwrap().count() <= old(self).tail.unwrap().count()
                    + i,
                m0 == overlay_view(old(self).state.overlay.entries()),
                t0 == tail_view(old(self).tail),
                forall|a: int, b: int|
                    0 <= a < b < keys@.len() ==> (#[trigger] keys@[a]).before(#[trigger] keys@[b]),
                forall|j: int| 0 <= j < keys@.len() ==> before.contains_key(#[trigger] keys@[j]),
                forall|j: int|
                    i <= j < keys@.len() ==> staged@.contains_key(#[trigger] keys@[j])
                        && staged@[keys@[j]] == before[keys@[j]],
                done == Set::new(|k: Key| exists|j: int| 0 <= j < i && #[trigger] keys@[j] == k),
                overlay_view(self.state.overlay.entries()) == m0.union_prefer_right(
                    sealed_all(before).restrict(done),
                ),
                t0 is Some ==> tail_view(self.tail) == Some(
                    t0.unwrap().union_prefer_right(sealed_all(before).restrict(done)),
                ),
            decreases keys@.len() - i,
        {
            let key: Key = keys[i];
            let ghost was = staged@;
            let ghost o = self.state.overlay.entries();
            let ghost more = Set::new(
                |k: Key| exists|j: int| 0 <= j < i + 1 && #[trigger] keys@[j] == k,
            );
            assert(staged@.contains_key(key));
            match staged.take(&key) {
                None => {},
                Some(data) => {
                    let mut data = data;
                    data.seal();
                    let ghost d = data@;
                    let shared = Arc::new(data);
                    proof {
                        assert(more =~= done.insert(key)) by {
                            assert forall|k: Key| more.contains(k) == done.insert(key).contains(
                                k,
                            ) by {
                                if more.contains(k) {
                                    let j = choose|j: int|
                                        0 <= j < i + 1 && #[trigger] keys@[j] == k;
                                    if j < i {
                                        assert(keys@[j] == k);
                                    }
                                }
                                if done.contains(k) {
                                    let j = choose|j: int| 0 <= j < i && #[trigger] keys@[j] == k;
                                    assert(keys@[j] == k);
                                }
                                assert(keys@[i as int] == key);
                            }
                        }
                        assert(sealed_all(before).contains_key(key) && sealed_all(before)[key]
                            == d);
                    }
                    let ghost t = self.tail;
                    match &mut self.tail {
                        None => {},
                        Some(tail) => {
                            tail.insert(key, shared.clone());
                        },
                    }
                    let ghost a = shared;
                    self.state.overlay.insert(key, shared);
                    proof {
                        lemma_shown(o, key, a);
                        lemma_grown(m0, sealed_all(before), done, key);
                        if t0 is Some {
                            lemma_shown(t.unwrap().entries(), key, a);
                            lemma_grown(t0.unwrap(), sealed_all(before), done, key);
                        }
                        assert forall|j: int| i + 1 <= j < keys@.len() implies staged@.contains_key(
                            #[trigger] keys@[j],
                        ) && staged@[keys@[j]] == before[keys@[j]] by {
                            assert(keys@[i as int].before(keys@[j]));
                        }
                    }
                },
            }
            proof {
                done = more;
            }
            i = i + 1;
        }
        self.state.catalog = batch.catalog;
        self.state.lsn = lsn;
        proof {
            assert(sealed_all(before).restrict(done) =~= sealed_all(before)) by {
                assert forall|k: Key| #[trigger] before.contains_key(k) implies done.contains(
                    k,
                ) by {
                    assert(keys@.contains(k));
                    let j = choose|j: int| 0 <= j < keys@.len() && keys@[j] == k;
                    assert(keys@[j] == k);
                }
            }
        }
    }
}

proof fn lemma_shown(m: Map<Key, Arc<EntityData>>, key: Key, data: Arc<EntityData>)
    ensures
        overlay_view(m.insert(key, data)) == overlay_view(m).insert(key, data@),
{
    assert(overlay_view(m.insert(key, data)) =~= overlay_view(m).insert(key, data@));
}

proof fn lemma_grown(m: Map<Key, DataV>, r: Map<Key, DataV>, done: Set<Key>, key: Key)
    requires
        r.contains_key(key),
    ensures
        m.union_prefer_right(r.restrict(done)).insert(key, r[key]) == m.union_prefer_right(
            r.restrict(done.insert(key)),
        ),
{
    assert(m.union_prefer_right(r.restrict(done)).insert(key, r[key]) =~= m.union_prefer_right(
        r.restrict(done.insert(key)),
    ));
}

// ---- Groups ----

/// Transactions that commit together, and the results of those that are settled.
pub struct Group {
    /// The results, by the place of the transaction in the group.
    pub results: Vec<Option<Result<u64>>>,
    /// The transactions that are not settled, with their places, in order.
    pub active: Vec<(usize, Prepared)>,
}

/// What becomes of a transaction before it is written.
pub open spec fn settled(b: Prepared, now: u64) -> Option<Result<u64>> {
    if past(b.deadline, now) {
        Some(Err(Error::DeadlineExceeded))
    } else if b.operations@.len() == 0 {
        Some(Ok(b.base_sequence))
    } else {
        None
    }
}

/// Whether a transaction waits to be written.
pub open spec fn waits(now: u64) -> spec_fn((usize, Prepared)) -> bool {
    |a: (usize, Prepared)| settled(a.1, now) is None
}

/// Whether every transaction either has its result or is active, once.
pub open spec fn accounted(results: Seq<Option<Result<u64>>>, active: Seq<(usize, Prepared)>) -> bool {
    &&& forall|i: int|
        0 <= i < active.len() ==> (#[trigger] active[i]).0 < results.len()
            && results[active[i].0 as int] is None
    &&& forall|i: int, j: int|
        0 <= i < j < active.len() ==> (#[trigger] active[i]).0 < (#[trigger] active[j]).0
    &&& forall|p: int|
        0 <= p < results.len() && (#[trigger] results[p]) is None ==> exists|i: int|
            0 <= i < active.len() && (#[trigger] active[i]).0 == p
}

/// Whether results changed only where transactions were settled.
pub open spec fn settles(
    before: Seq<Option<Result<u64>>>,
    active: Seq<(usize, Prepared)>,
    now: u64,
    after: Seq<Option<Result<u64>>>,
) -> bool {
    &&& after.len() == before.len()
    &&& forall|i: int|
        0 <= i < active.len() ==> after[(#[trigger] active[i]).0 as int] == settled(
            active[i].1,
            now,
        )
    &&& forall|p: int|
        0 <= p < before.len() && (#[trigger] before[p]) is Some ==> after[p] == before[p]
}

/// The log frame of a transaction.
pub open spec fn logged(b: Prepared, lsn: u64) -> Seq<u8> {
    enc_frame(FrameV { kind: 2, lsn, payload: enc_ops(ops_view(b.operations@)) })
}

/// Whether a transaction only got its number.
pub open spec fn numbered(before: Prepared, lsn: u64, after: Prepared) -> bool {
    &&& after.base_sequence == before.base_sequence
    &&& after.root_generation == before.root_generation
    &&& after.catalog == before.catalog
    &&& after.operations == before.operations
    &&& after.reservation == before.reservation
    &&& after.permit == before.permit
    &&& after.deadline == before.deadline
    &&& after.staged@ == restamped_all(before.staged@, before.base_sequence, lsn)
}

impl Group {
    /// Whether every transaction either has its result or is active, once.
    pub open spec fn sound(self) -> bool {
        accounted(self.results@, self.active@)
    }

    /// A group in which nothing is settled.
    pub fn new(batches: Vec<Prepared>) -> (g: Self)
        ensures
            g.sound(),
            g.results@.len() == batches@.len(),
            g.active@.len() == batches@.len(),
            forall|i: int|
                0 <= i < batches@.len() ==> (#[trigger] g.active@[i]) == (i as usize, batches@[i]),
    {
        let mut results: Vec<Option<Result<u64>>> = Vec::new();
        let mut active: Vec<(usize, Prepared)> = Vec::new();
        let mut batches = batches;
        let ghost all = batches@;
        let total: usize = batches.len();
        let mut i: usize = 0;
        while i < total
            invariant
                i <= total,
                total == all.len(),
                batches@ == all.skip(i as int),
                results@.len() == i,
                active@.len() == i,
                forall|j: int| 0 <= j < i ==> (#[trigger] results@[j]) is None,
                forall|j: int| 0 <= j < i ==> (#[trigger] active@[j]) == (j as usize, all[j]),
            decreases total - i,
        {
            let batch = batches.remove(0);
            assert(batches@ =~= all.skip(i + 1));
            results.push(None);
            active.push((i, batch));
            i = i + 1;
        }
        proof {
            assert forall|p: int|
                0 <= p < results@.len() && (#[trigger] results@[p]) is None implies exists|j: int|
                0 <= j < active@.len() && (#[trigger] active@[j]).0 == p by {
                assert(active@[p].0 == p);
            }
        }
        Group { results, active }
    }

    /// Settles the transactions whose deadline has come and those that wrote nothing.
    pub fn settle(&mut self, now: u64)
        requires
            old(self).sound(),
        ensures
            final(self).sound(),
            final(self).active@ == old(self).active@.filter(waits(now)),
            settles(old(self).results@, old(self).active@, now, final(self).results@),
    {
        let ghost all = self.active@;
        let ghost before = self.results@;
        let ghost p = waits(now);
        let mut i: usize = 0;
        let ghost mut seen: int = 0;
        proof {
            assert(all.take(0) =~= Seq::empty());
            assert(all.take(0).filter(p) =~= Seq::empty()) by {
                reveal(Seq::filter);
            }
            assert(self.active@ =~= all.take(0).filter(p) + all.skip(0));
        }
        while i < self.active.len()
            invariant
                i <= self.active@.len(),
                0 <= seen <= all.len(),
                p == waits(now),
                accounted(before, all),
                self.results@.len() == before.len(),
                i == all.take(seen).filter(p).len(),
                self.active@ == all.take(seen).filter(p) + all.skip(seen),
                forall|j: int|
                    0 <= j < seen ==> self.results@[(#[trigger] all[j]).0 as int] == settled(
                        all[j].1,
                        now,
                    ),
                forall|j: int|
                    seen <= j < all.len() ==> self.results@[(#[trigger] all[j]).0 as int] is None,
                forall|q: int|
                    0 <= q < before.len() && (#[trigger] before[q]) is Some ==> self.results@[q]
                        == before[q],
            decreases all.len() - seen,
        {
            let ghost a = self.active@[i as int];
            proof {
                let kept = all.take(seen).filter(p);
                assert(seen < all.len());
                assert(a == all[seen]);
                assert(all.take(seen + 1).drop_last() =~= all.take(seen));
                assert(all.take(seen + 1).last() == a);
                reveal(Seq::filter);
            }
            let place: usize = self.active[i].0;
            let late: bool = check(self.active[i].1.deadline, now).is_err();
            if late || self.active[i].1.is_empty() {
                let base: u64 = self.active[i].1.base_sequence;
                let result: Result<u64> = if late {
                    Err(Error::DeadlineExceeded)
                } else {
                    Ok(base)
                };
                let ghost was = self.results@;
                let ghost kept = all.take(seen).filter(p);
                self.results.set(place, Some(result));
                let removed = self.active.remove(i);
                proof {
                    assert(self.active@ =~= kept + all.skip(seen + 1));
                    assert forall|j: int| 0 <= j < all.len() && j != seen implies self.results@[(
                    #[trigger] all[j]).0 as int] == was[all[j].0 as int] by {
                        if j < seen {
                            assert(all[j].0 < all[seen].0);
                        } else {
                            assert(all[seen].0 < all[j].0);
                        }
                    }
                }
            } else {
                proof {
                    let kept = all.take(seen).filter(p);
                    assert(self.active@ =~= kept.push(a) + all.skip(seen + 1));
                }
                i = i + 1;
            }
            proof {
                seen = seen + 1;
            }
        }
        proof {
            assert(all.skip(seen) =~= Seq::empty());
            assert(seen == all.len());
            assert(all.take(seen) =~= all);
            assert(self.active@ =~= all.filter(p));
            lemma_settled(before, all, now, self.results@);
        }
    }
}

proof fn lemma_settled(
    before: Seq<Option<Result<u64>>>,
    all: Seq<(usize, Prepared)>,
    now: u64,
    after: Seq<Option<Result<u64>>>,
)
    requires
        accounted(before, all),
        settles(before, all, now, after),
    ensures
        accounted(after, all.filter(waits(now))),
{
    let p = waits(now);
    let kept = all.filter(p);
    lemma_filter_order(all, p);
    assert forall|i: int| 0 <= i < kept.len() implies (#[trigger] kept[i]).0 < after.len()
        && after[kept[i].0 as int] is None by {
        let k = choose|k: int| 0 <= k < all.len() && #[trigger] all[k] == kept[i];
        assert(p(kept[i]));
        assert(after[all[k].0 as int] == settled(all[k].1, now));
    }
    assert forall|q: int| 0 <= q < after.len() && (#[trigger] after[q]) is None implies exists|i:
        int| 0 <= i < kept.len() && (#[trigger] kept[i]).0 == q by {
        assert(before[q] is None);
        let k = choose|k: int| 0 <= k < all.len() && (#[trigger] all[k]).0 == q;
        assert(after[all[k].0 as int] == settled(all[k].1, now));
        assert(p(all[k]));
        let i = choose|i: int| 0 <= i < kept.len() && #[trigger] kept[i] == all[k];
        assert(kept[i].0 == q);
    }
}

proof fn lemma_filter_order(all: Seq<(usize, Prepared)>, p: spec_fn((usize, Prepared)) -> bool)
    requires
        forall|i: int, j: int|
            0 <= i < j < all.len() ==> (#[trigger] all[i]).0 < (#[trigger] all[j]).0,
    ensures
        forall|i: int, j: int|
            0 <= i < j < all.filter(p).len() ==> (#[trigger] all.filter(p)[i]).0 < (
            #[trigger] all.filter(p)[j]).0,
        forall|i: int|
            0 <= i < all.filter(p).len() ==> p(#[trigger] all.filter(p)[i]) && exists|k: int|
                0 <= k < all.len() && #[trigger] all[k] == all.filter(p)[i],
        forall|k: int|
            0 <= k < all.len() && p(#[trigger] all[k]) ==> exists|i: int|
                0 <= i < all.filter(p).len() && #[trigger] all.filter(p)[i] == all[k],
    decreases all.len(),
{
    reveal(Seq::filter);
    if all.len() > 0 {
        let t = all.drop_last();
        assert forall|i: int, j: int| 0 <= i < j < t.len() implies (#[trigger] t[i]).0 < (
        #[trigger] t[j]).0 by {
            assert(all[i] == t[i] && all[j] == t[j]);
        }
        lemma_filter_order(t, p);
        let (f, g) = (t.filter(p), all.filter(p));
        let last = all[all.len() - 1];
        assert forall|i: int| 0 <= i < g.len() implies p(#[trigger] g[i]) && exists|k: int|
            0 <= k < all.len() && #[trigger] all[k] == g[i] by {
            if i < f.len() {
                assert(g[i] == f[i]);
                let k = choose|k: int| 0 <= k < t.len() && #[trigger] t[k] == f[i];
                assert(all[k] == g[i]);
            } else {
                assert(all[all.len() - 1] == g[i]);
            }
        }
        assert forall|k: int| 0 <= k < all.len() && p(#[trigger] all[k]) implies exists|i: int|
            0 <= i < g.len() && #[trigger] g[i] == all[k] by {
            if k < t.len() {
                assert(t[k] == all[k]);
                let i = choose|i: int| 0 <= i < f.len() && #[trigger] f[i] == t[k];
                assert(g[i] == all[k]);
            } else {
                assert(g[g.len() - 1] == all[k]);
            }
        }
        assert forall|i: int, j: int| 0 <= i < j < g.len() implies (#[trigger] g[i]).0 < (
        #[trigger] g[j]).0 by {
            if j < f.len() {
                assert(f[i].0 < f[j].0);
            } else {
                let k = choose|k: int| 0 <= k < t.len() && #[trigger] t[k] == f[i];
                assert(all[k].0 < all[all.len() - 1].0);
            }
        }
    }
}

/// Whether every active transaction got the same error.
pub open spec fn all_failed(
    before: Seq<Option<Result<u64>>>,
    active: Seq<(usize, Prepared)>,
    e: Error,
    after: Seq<Option<Result<u64>>>,
) -> bool {
    &&& after.len() == before.len()
    &&& forall|i: int|
        0 <= i < active.len() ==> after[(#[trigger] active[i]).0 as int] == Some(
            Err::<u64, Error>(e),
        )
    &&& forall|p: int|
        0 <= p < before.len() && (#[trigger] before[p]) is Some ==> after[p] == before[p]
}

/// Whether every active transaction got its number.
pub open spec fn all_committed(
    before: Seq<Option<Result<u64>>>,
    active: Seq<(usize, Prepared)>,
    lsn: u64,
    after: Seq<Option<Result<u64>>>,
) -> bool {
    &&& after.len() == before.len()
    &&& forall|i: int|
        0 <= i < active.len() ==> after[(#[trigger] active[i]).0 as int] == Some(
            Ok::<u64, Error>((lsn + i + 1) as u64),
        )
    &&& forall|p: int|
        0 <= p < before.len() && (#[trigger] before[p]) is Some ==> after[p] == before[p]
}

/// The length of frames, added up.
pub open spec fn frames_len(frames: Seq<Vec<u8>>) -> nat
    decreases frames.len(),
{
    if frames.len() == 0 {
        0
    } else {
        frames_len(frames.drop_last()) + frames.last()@.len()
    }
}

/// A view after transactions, one by one.
pub open spec fn published_all(s: StateV, active: Seq<(usize, Prepared)>, lsn: u64) -> StateV
    decreases active.len(),
{
    if active.len() == 0 {
        s
    } else {
        published(
            published_all(s, active.drop_last(), lsn),
            active.last().1.writes(),
            (lsn + active.len()) as u64,
        )
    }
}

/// The entities changed since a checkpoint was captured, with those of transactions that are
/// published one after another.
pub open spec fn tail_after(t: Option<Map<Key, DataV>>, active: Seq<(usize, Prepared)>) -> Option<
    Map<Key, DataV>,
>
    decreases active.len(),
{
    if active.len() == 0 {
        t
    } else {
        match tail_after(t, active.drop_last()) {
            None => None,
            Some(m) => Some(m.union_prefer_right(sealed_all(active.last().1.staged@))),
        }
    }
}

/// The entities that transactions touched, counted for each.
pub open spec fn touched(active: Seq<(usize, Prepared)>) -> nat
    decreases active.len(),
{
    if active.len() == 0 {
        0
    } else {
        touched(active.drop_last()) + active.last().1.staged@.dom().len()
    }
}

proof fn lemma_touched(active: Seq<(usize, Prepared)>, n: int)
    requires
        0 <= n <= active.len(),
    ensures
        touched(active.take(n)) <= touched(active),
    decreases active.len(),
{
    if n == active.len() {
        assert(active.take(n) =~= active);
    } else {
        assert(active.drop_last().take(n) =~= active.take(n));
        lemma_touched(active.drop_last(), n);
    }
}

impl Group {
    /// Gives the active transactions the numbers that follow `lsn` and makes their log frames.
    pub fn frames(&mut self, lsn: u64) -> (r: Result<Vec<Vec<u8>>>)
        requires
            old(self).sound(),
        ensures
            final(self).sound(),
            final(self).results == old(self).results,
            final(self).active@.len() == old(self).active@.len(),
            forall|i: int|
                0 <= i < old(self).active@.len() ==> (#[trigger] final(self).active@[i]).0 == old(
                    self,
                ).active@[i].0 && final(self).active@[i].1.deadline == old(
                    self,
                ).active@[i].1.deadline && final(self).active@[i].1.operations == old(
                    self,
                ).active@[i].1.operations,
            match r {
                Ok(frames) => {
                    &&& lsn + old(self).active@.len() <= u64::MAX
                    &&& frames@.len() == old(self).active@.len()
                    &&& forall|i: int|
                        0 <= i < old(self).active@.len() ==> enc_ops(
                            ops_view((#[trigger] old(self).active@[i]).1.operations@),
                        ).len() <= crate::codec::MAX_FRAME
                    &&& forall|i: int|
                        0 <= i < frames@.len() ==> (#[trigger] frames@[i])@ == logged(
                            old(self).active@[i].1,
                            (lsn + i + 1) as u64,
                        )
                    &&& forall|i: int|
                        0 <= i < frames@.len() ==> numbered(
                            old(self).active@[i].1,
                            (lsn + i + 1) as u64,
                            (#[trigger] final(self).active@[i]).1,
                        )
                },
                Err(e) => e is Invalid && (lsn + old(self).active@.len() > u64::MAX || exists|i: int|
                    0 <= i < old(self).active@.len() && enc_ops(
                        ops_view((#[trigger] old(self).active@[i]).1.operations@),
                    ).len() > crate::codec::MAX_FRAME),
            },
    {
        let mut frames: Vec<Vec<u8>> = Vec::new();
        let ghost all = self.active@;
        let mut i: usize = 0;
        while i < self.active.len()
            invariant
                i <= self.active@.len(),
                self.active@.len() == all.len(),
                all == old(self).active@,
                self.results == old(self).results,
                accounted(self.results@, all),
                lsn + i <= u64::MAX,
                frames@.len() == i,
                forall|j: int|
                    0 <= j < i ==> enc_ops(ops_view((#[trigger] all[j]).1.operations@)).len()
                        <= crate::codec::MAX_FRAME,
                forall|j: int|
                    0 <= j < i ==> (#[trigger] frames@[j])@ == logged(
                        all[j].1,
                        (lsn + j + 1) as u64,
                    ),
                forall|j: int|
                    0 <= j < i ==> (#[trigger] self.active@[j]).0 == all[j].0 && numbered(
                        all[j].1,
                        (lsn + j + 1) as u64,
                        self.active@[j].1,
                    ),
                forall|j: int| i <= j < all.len() ==> (#[trigger] self.active@[j]) == all[j],
            decreases all.len() - i,
        {
            if i as u64 >= u64::MAX - lsn {
                proof {
                    self.lemma_same_places(old(self));
                }
                return Err(invalid("transaction sequence exhausted"));
            }
            let number: u64 = lsn + i as u64 + 1;
            let base: u64 = self.active[i].1.base_sequence;
            let ghost was = self.active@;
            assert(was[i as int] == all[i as int]);
            restamp_all(&mut self.active[i].1.staged, base, number);
            proof {
                assert forall|j: int| 0 <= j < all.len() && j != i implies self.active@[j]
                    == was[j] by {
                }
            }
            let payload = encode_ops(&self.active[i].1.operations);
            match frame::encode(2, number, payload.as_slice()) {
                Ok(bytes) => {
                    frames.push(bytes);
                },
                Err(e) => {
                    proof {
                        self.lemma_same_places(old(self));
                        assert(enc_ops(ops_view(all[i as int].1.operations@)).len()
                            > crate::codec::MAX_FRAME);
                    }
                    return Err(e);
                },
            }
            i = i + 1;
        }
        proof {
            self.lemma_same_places(old(self));
        }
        Ok(frames)
    }

    proof fn lemma_same_places(&self, before: &Group)
        requires
            before.sound(),
            self.results == before.results,
            self.active@.len() == before.active@.len(),
            forall|j: int|
                0 <= j < self.active@.len() ==> (#[trigger] self.active@[j]).0
                    == before.active@[j].0,
        ensures
            self.sound(),
    {
        let (a, b) = (self.active@, before.active@);
        assert forall|p: int|
            0 <= p < self.results@.len() && (#[trigger] self.results@[p]) is None implies exists|
            i: int,
        | 0 <= i < a.len() && (#[trigger] a[i]).0 == p by {
            let i = choose|i: int| 0 <= i < b.len() && (#[trigger] b[i]).0 == p;
            assert(a[i].0 == p);
        }
        assert forall|i: int, j: int| 0 <= i < j < a.len() implies (#[trigger] a[i]).0 < (
        #[trigger] a[j]).0 by {
            assert(b[i].0 < b[j].0);
        }
        assert forall|i: int| 0 <= i < a.len() implies (#[trigger] a[i]).0 < self.results@.len()
            && self.results@[a[i].0 as int] is None by {
            assert(b[i].0 < before.results@.len());
        }
    }

    /// Whether no deadline of an active transaction has come.
    pub fn timely(&self, now: u64) -> (r: bool)
        ensures
            r == forall|i: int|
                0 <= i < self.active@.len() ==> !past((#[trigger] self.active@[i]).1.deadline, now),
    {
        let mut i: usize = 0;
        while i < self.active.len()
            invariant
                i <= self.active@.len(),
                forall|j: int|
                    0 <= j < i ==> !past((#[trigger] self.active@[j]).1.deadline, now),
            decreases self.active@.len() - i,
        {
            if check(self.active[i].1.deadline, now).is_err() {
                assert(past(self.active@[i as int].1.deadline, now));
                return false;
            }
            i = i + 1;
        }
        true
    }

    /// Settles every active transaction with an error.
    pub fn fail(&mut self, e: &Error)
        requires
            old(self).sound(),
        ensures
            final(self).sound(),
            final(self).active@.len() == 0,
            all_failed(old(self).results@, old(self).active@, *e, final(self).results@),
    {
        let ghost all = self.active@;
        let ghost before = self.results@;
        let mut i: usize = 0;
        while i < self.active.len()
            invariant
                i <= self.active@.len(),
                self.active@ == all,
                accounted(before, all),
                self.results@.len() == before.len(),
                forall|j: int|
                    0 <= j < i ==> self.results@[(#[trigger] all[j]).0 as int] == Some(
                        Err::<u64, Error>(*e),
                    ),
                forall|p: int|
                    0 <= p < before.len() && (#[trigger] before[p]) is Some ==> self.results@[p]
                        == before[p],
                forall|p: int|
                    0 <= p < before.len() && (#[trigger] self.results@[p]) is None ==> before[p]
                        is None,
            decreases self.active@.len() - i,
        {
            let ghost was = self.results@;
            let place: usize = self.active[i].0;
            assert(all[i as int].0 == place);
            self.results.set(place, Some(Err(e.duplicate())));
            proof {
                assert forall|j: int| 0 <= j < i implies self.results@[(
                #[trigger] all[j]).0 as int] == Some(Err::<u64, Error>(*e)) by {
                    assert(all[j].0 < all[i as int].0);
                }
            }
            i = i + 1;
        }
        proof {
            assert forall|p: int| 0 <= p < before.len() implies (#[trigger] self.results@[p])
                is Some by {
                if self.results@[p] is None {
                    assert(before[p] is None);
                    let k = choose|k: int| 0 <= k < all.len() && (#[trigger] all[k]).0 == p;
                    assert(self.results@[all[k].0 as int] is Some);
                }
            }
        }
        self.active = Vec::new();
    }

    /// The results of a group in which all is settled, in the order of its transactions.
    pub fn finish(self) -> (results: Vec<Result<u64>>)
        requires
            self.sound(),
            self.active@.len() == 0,
        ensures
            results@.len() == self.results@.len(),
            forall|i: int|
                0 <= i < results@.len() ==> self.results@[i] == Some(#[trigger] results@[i]),
    {
        let mut rest = self.results;
        let ghost all = rest@;
        let mut results: Vec<Result<u64>> = Vec::new();
        let total: usize = rest.len();
        let mut i: usize = 0;
        proof {
            assert forall|p: int| 0 <= p < all.len() implies (#[trigger] all[p]) is Some by {
                if all[p] is None {
                    let k = choose|k: int|
                        0 <= k < self.active@.len() && (#[trigger] self.active@[k]).0 == p;
                }
            }
        }
        while i < total
            invariant
                i <= total,
                total == all.len(),
                rest@ == all.skip(i as int),
                results@.len() == i,
                forall|p: int| 0 <= p < all.len() ==> (#[trigger] all[p]) is Some,
                forall|j: int| 0 <= j < i ==> all[j] == Some(#[trigger] results@[j]),
            decreases total - i,
        {
            let next = rest.remove(0);
            assert(rest@ =~= all.skip(i + 1));
            assert(next == all[i as int]);
            match next {
                None => {},
                Some(r) => {
                    results.push(r);
                },
            }
            i = i + 1;
        }
        results
    }
}

/// The length of frames in all, counted to the greatest number.
fn total_len(frames: &Vec<Vec<u8>>) -> (n: u64)
    ensures
        n == (if frames_len(frames@) <= u64::MAX {
            frames_len(frames@)
        } else {
            u64::MAX as nat
        }),
{
    let mut n: u64 = 0;
    let mut i: usize = 0;
    proof {
        assert(frames@.take(0) =~= Seq::empty());
    }
    while i < frames.len()
        invariant
            i <= frames@.len(),
            n == (if frames_len(frames@.take(i as int)) <= u64::MAX {
                frames_len(frames@.take(i as int))
            } else {
                u64::MAX as nat
            }),
        decreases frames@.len() - i,
    {
        proof {
            let s = frames@;
            assert(s.take(i + 1).drop_last() =~= s.take(i as int));
            assert(s.take(i + 1).last() == s[i as int]);
        }
        let length: u64 = frames[i].len() as u64;
        n = if length <= u64::MAX - n {
            n + length
        } else {
            u64::MAX
        };
        i = i + 1;
    }
    assert(frames@.take(i as int) =~= frames@);
    n
}

impl Engine {
    /// The log bytes that no checkpoint would cover once frames are written, if the limit
    /// admits them.
    pub fn wal_after(&self, frames: &Vec<Vec<u8>>, limit: u64) -> (r: Result<u64>)
        ensures
            match r {
                Ok(n) => n <= limit && n == (if self.wal_bytes + frames_len(frames@) <= u64::MAX {
                    self.wal_bytes + frames_len(frames@)
                } else {
                    u64::MAX as int
                }),
                Err(e) => self.wal_bytes + frames_len(frames@) > limit && e
                    == (Error::LimitExceeded {
                    resource: "uncheckpointed WAL bytes",
                    limit: limit as usize,
                }),
            },
    {
        let bytes: u64 = total_len(frames);
        let after: u64 = if bytes <= u64::MAX - self.wal_bytes {
            self.wal_bytes + bytes
        } else {
            u64::MAX
        };
        if after > limit {
            return Err(
                Error::LimitExceeded {
                    resource: "uncheckpointed WAL bytes",
                    limit: limit as usize,
                },
            );
        }
        Ok(after)
    }

    /// Publishes the active transactions of a group whose frames reached the log, in order, and
    /// settles each with its number.
    pub fn publish_group(&mut self, group: &mut Group, wal_bytes: u64)
        requires
            old(self).sound(),
            old(group).sound(),
            old(self).room(touched(old(group).active@)),
            old(self).state.lsn + old(group).active@.len() <= u64::MAX,
        ensures
            final(self).sound(),
            final(group).sound(),
            final(group).active@.len() == 0,
            final(self).wal_bytes == wal_bytes,
            final(self).next_generation == old(self).next_generation,
            final(self).state@ == published_all(
                old(self).state@,
                old(group).active@,
                old(self).state.lsn,
            ),
            final(self).state.root == old(self).state.root,
            tail_view(final(self).tail) == tail_after(
                tail_view(old(self).tail),
                old(group).active@,
            ),
            all_committed(
                old(group).results@,
                old(group).active@,
                old(self).state.lsn,
                final(group).results@,
            ),
    {
        let ghost all = group.active@;
        let ghost before = group.results@;
        let ghost s0 = self.state@;
        let lsn: u64 = self.state.lsn;
        let total: usize = group.active.len();
        let mut i: usize = 0;
        proof {
            assert(all.take(0) =~= Seq::empty());
            assert(all.skip(0) =~= all);
        }
        while i < total
            invariant
                i <= total,
                total == all.len(),
                lsn + total <= u64::MAX,
                self.sound(),
                self.next_generation == old(self).next_generation,
                group.active@ == all.skip(i as int),
                accounted(before, all),
                group.results@.len() == before.len(),
                self.state@ == published_all(s0, all.take(i as int), lsn),
                self.state.root == old(self).state.root,
                tail_view(self.tail) == tail_after(
                    tail_view(old(self).tail),
                    all.take(i as int),
                ),
                old(self).room(touched(all)),
                self.tail is Some == old(self).tail is Some,
                self.state.overlay.count() <= old(self).state.overlay.count() + touched(
                    all.take(i as int),
                ),
                self.tail is Some ==> self.tail.unwrap().count() <= old(self).tail.unwrap().count()
                    + touched(all.take(i as int)),
                forall|j: int|
                    0 <= j < i ==> group.results@[(#[trigger] all[j]).0 as int] == Some(
                        Ok::<u64, Error>((lsn + j + 1) as u64),
                    ),
                forall|p: int|
                    0 <= p < before.len() && (#[trigger] before[p]) is Some ==> group.results@[p]
                        == before[p],
                forall|p: int|
                    0 <= p < before.len() && (#[trigger] group.results@[p]) is None ==> before[p]
                        is None,
            decreases total - i,
        {
            let (place, batch) = group.active.remove(0);
            proof {
                assert(all.skip(i as int)[0] == all[i as int]);
                assert(group.active@ =~= all.skip(i + 1));
                assert(all.take(i + 1).drop_last() =~= all.take(i as int));
                assert(all.take(i + 1).last() == (place, batch));
                lemma_touched(all, i + 1);
                assert(all[i as int].0 == place);
            }
            let number: u64 = lsn + i as u64 + 1;
            self.publish_state(batch, number);
            group.results.set(place, Some(Ok(number)));
            proof {
                assert forall|j: int| 0 <= j < i implies group.results@[(
                #[trigger] all[j]).0 as int] == Some(Ok::<u64, Error>((lsn + j + 1) as u64)) by {
                    assert(all[j].0 < all[i as int].0);
                }
            }
            i = i + 1;
        }
        proof {
            assert(all.take(i as int) =~= all);
            assert forall|p: int| 0 <= p < before.len() implies (#[trigger] group.results@[p])
                is Some by {
                if group.results@[p] is None {
                    assert(before[p] is None);
                    let k = choose|k: int| 0 <= k < all.len() && (#[trigger] all[k]).0 == p;
                    assert(group.results@[all[k].0 as int] is Some);
                }
            }
        }
        self.wal_bytes = wal_bytes;
    }

    /// Marks the state behind an uncertain write.
    pub fn poison(&mut self)
        ensures
            final(self).state.poisoned,
            final(self).state.root == old(self).state.root,
            final(self).state.catalog == old(self).state.catalog,
            final(self).state.overlay == old(self).state.overlay,
            final(self).state.lsn == old(self).state.lsn,
            final(self).tail == old(self).tail,
            final(self).wal_bytes == old(self).wal_bytes,
            final(self).next_generation == old(self).next_generation,
    {
        self.state.poisoned = true;
    }
}

// ---- Laws ----

/// Whether every staged event is of the transaction behind a view.
pub open spec fn fresh(m: Map<Key, DataV>, lsn: u64) -> bool {
    forall|k: Key, i: int| #[trigger]
        m.contains_key(k) && 0 <= i < m[k].events.len() ==> (
        #[trigger] m[k].events[i]).transaction == lsn + 1
}

/// Whether the entities of a view have no staged events.
pub open spec fn all_sealed(s: StateV) -> bool {
    forall|k: Key| #[trigger] s.overlay.contains_key(k) ==> s.overlay[k].events.len() == 0
}

proof fn lemma_fresh_step(s: StateV, files: Files, w: WritesV, op: OpV)
    requires
        all_sealed(s),
        fresh(w.staged, s.lsn),
        executed(s, files, w, op) is Ok,
    ensures
        fresh(executed(s, files, w, op)->Ok_0.staged, s.lsn),
{
    let after = executed(s, files, w, op)->Ok_0;
    match key_of_op(op) {
        None => {},
        Some(key) => {
            let d = fetched(s, files, w, key)->Ok_0;
            let n = after.staged[key];
            assert forall|i: int| d is Some && 0 <= i < d.unwrap().events.len() implies (
            #[trigger] d.unwrap().events[i]).transaction == s.lsn + 1 by {
                if w.staged.contains_key(key) {
                    assert(w.staged[key].events[i].transaction == s.lsn + 1);
                }
            }
            assert forall|i: int| 0 <= i < n.events.len() implies (
            #[trigger] n.events[i]).transaction == s.lsn + 1 by {
                match op {
                    OpV::Retain(_, _, count) => {
                        let e = d.unwrap();
                        let table = w.catalog[key.0];
                        if crate::entity::retained_from(e, count) != e.base.version {
                            let base = crate::entity::data_at(
                                e,
                                files,
                                table,
                                crate::entity::retained_from(e, count),
                                false,
                            )->Ok_0;
                            let p = |x: EventV| x.version > base.version;
                            crate::entity::lemma_filter_member(e.events, p);
                            let k = choose|k: int|
                                0 <= k < e.events.len() && #[trigger] e.events[k]
                                    == e.events.filter(p)[i];
                            assert(e.events[k].transaction == s.lsn + 1);
                        }
                    },
                    OpV::Apply(_, _, _) => {
                        let e = d.unwrap();
                        if i < e.events.len() {
                            assert(n.events[i] == e.events[i]);
                        }
                    },
                    OpV::Delete(_, _) => {
                        let e = d.unwrap();
                        if i < e.events.len() {
                            assert(n.events[i] == e.events[i]);
                        }
                    },
                    _ => {},
                }
            }
            assert forall|k: Key, i: int| #[trigger]
                after.staged.contains_key(k) && 0 <= i < after.staged[k].events.len() implies (
            #[trigger] after.staged[k].events[i]).transaction == s.lsn + 1 by {
                if k != key {
                    assert(w.staged.contains_key(k));
                    assert(w.staged[k].events[i].transaction == s.lsn + 1);
                } else {
                    assert(n.events[i].transaction == s.lsn + 1);
                }
            }
        },
    }
}

proof fn lemma_fresh(s: StateV, files: Files, w: WritesV, ops: Seq<OpV>)
    requires
        all_sealed(s),
        fresh(w.staged, s.lsn),
        executed_all(s, files, w, ops) is Ok,
    ensures
        fresh(executed_all(s, files, w, ops)->Ok_0.staged, s.lsn),
    decreases ops.len(),
{
    if ops.len() > 0 {
        lemma_fresh(s, files, w, ops.drop_last());
        let m = executed_all(s, files, w, ops.drop_last())->Ok_0;
        lemma_fresh_step(s, files, m, ops.last());
    }
}

/// Recovery comes to the view that the commit published: a transaction that is logged right
/// behind its view reads back from the log, and its operations, run again on that view, make
/// the writes that the commit published under its number.
pub proof fn lemma_recovery(s: StateV, files: Files, ops: Seq<OpV>, rest: Seq<u8>)
    requires
        all_sealed(s),
        s.lsn < u64::MAX,
        0 < ops.len(),
        enc_ops(ops).len() <= crate::codec::MAX_FRAME,
        crate::operation::sound_catalog(s.catalog),
        executed_all(s, files, first_writes(s), ops) is Ok,
    ensures
        ({
            let lsn = (s.lsn + 1) as u64;
            let w = executed_all(s, files, first_writes(s), ops)->Ok_0;
            let f = FrameV { kind: 2, lsn, payload: enc_ops(ops) };
            &&& frame::read_frame(enc_frame(f) + rest) == frame::Read::Complete(f)
            &&& crate::operation::dec_ops(f.payload) == Some(ops)
            &&& restamped_all(w.staged, s.lsn, lsn) == w.staged
            &&& all_sealed(published(s, w, lsn))
            &&& crate::operation::sound_catalog(w.catalog)
        }),
{
    let lsn = (s.lsn + 1) as u64;
    let w = executed_all(s, files, first_writes(s), ops)->Ok_0;
    let f = FrameV { kind: 2, lsn, payload: enc_ops(ops) };
    crate::staging::lemma_accepted_all(s, files, first_writes(s), ops);
    lemma_enc_at_least(ops);
    crate::operation::lemma_ops(ops, Seq::empty());
    assert(enc_ops(ops) + Seq::<u8>::empty() =~= enc_ops(ops));
    frame::lemma_frame(f, rest);
    lemma_fresh(s, files, first_writes(s), ops);
    let m = restamped_all(w.staged, s.lsn, lsn);
    assert forall|k: Key| #[trigger] w.staged.contains_key(k) implies m[k] == w.staged[k] by {
        assert forall|i: int| 0 <= i < w.staged[k].events.len() implies #[trigger] m[k].events[i]
            == w.staged[k].events[i] by {
            assert(w.staged[k].events[i].transaction == s.lsn + 1);
        }
        assert(m[k].events =~= w.staged[k].events);
    }
    assert(m =~= w.staged);
    let p = published(s, w, lsn);
    assert forall|k: Key| #[trigger] p.overlay.contains_key(k) implies p.overlay[k].events.len()
        == 0 by {
        if !w.staged.contains_key(k) {
            assert(s.overlay.contains_key(k));
        }
    }
}

/// The writes of a transaction that has none yet.
pub open spec fn first_writes(s: StateV) -> WritesV {
    WritesV { catalog: s.catalog, staged: Map::empty() }
}

proof fn lemma_enc_at_least(ops: Seq<OpV>)
    requires
        forall|i: int| 0 <= i < ops.len() ==> crate::operation::encodable_op(#[trigger] ops[i]),
        enc_ops(ops).len() <= crate::codec::MAX_FRAME,
    ensures
        ops.len() <= u64::MAX,
{
    let enc = crate::operation::op_encoder();
    assert forall|i: int| 0 <= i < ops.len() implies enc(#[trigger] ops[i]).len() >= 1 by {
        crate::operation::lemma_op(ops[i], Seq::empty());
    }
    crate::codec::lemma_enc_len(ops, enc, 1);
    assert(ops.len() * 1 == ops.len()) by (nonlinear_arith);
}

} // verus!
