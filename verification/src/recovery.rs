//! Opening a database: what its log says, and the way back to the committed state.

use crate::commit::first_writes;
use crate::commit::published;
use crate::commit::Engine;
use crate::commit::Prepared;
use crate::error::corrupt;
use crate::error::Error;
use crate::error::Fault;
use crate::error::Outcome;
use crate::error::Result;
use crate::key::lists;
use crate::model::Table;
use crate::model::TableV;
use crate::operation::catalog_view;
use crate::operation::dec_ops;
use crate::operation::decode_ops;
use crate::operation::ops_view;
use crate::operation::OpV;
use crate::operation::Operation;
use crate::ordered_map::OrderedMap;
use crate::overlay::Overlay;
use crate::reader::ReadState;
use crate::reader::StateV;
use crate::resources::owed;
use crate::resources::refunded;
use crate::resources::Reservation;
use crate::resources::ResourceUsage;
use crate::resources::Resources;
use crate::snapshot::dec_root;
use crate::snapshot::Root;
use crate::snapshot::RootV;
use crate::staging::op_asks;
use crate::staging::executed_all;
use crate::staging::op_bytes;
use crate::staging::Staging;
use crate::staging::WritesV;
use crate::storage::frame;
use crate::storage::frame::read_frame;
use crate::storage::frame::enc_frame;
use crate::storage::frame::Frame;
use crate::storage::frame::FrameV;
use crate::storage::frame::Read;
use crate::storage::pager::lacks;
use crate::storage::pager::Files;
use crate::storage::pager::Loaded;
use std::sync::Arc;
use vstd::prelude::*;

verus! {

// ---- Reading a log ----

/// The frames of a log, where they end, and whether what follows is not damaged.
pub struct Log {
    /// The complete frames.
    pub frames: Seq<FrameV>,
    /// Where they end.
    pub end: nat,
    /// Whether no damaged frame follows.
    pub sound: bool,
}

/// What a log holds.
pub open spec fn log_of(s: Seq<u8>) -> Log
    decreases s.len(),
{
    match read_frame(s) {
        Read::Complete(f) => {
            let n = 40 + f.payload.len();
            if n <= s.len() {
                let more = log_of(s.skip(n as int));
                Log { frames: seq![f] + more.frames, end: n + more.end, sound: more.sound }
            } else {
                Log { frames: Seq::empty(), end: 0, sound: true }
            }
        },
        Read::Incomplete => Log { frames: Seq::empty(), end: 0, sound: true },
        Read::Damaged => Log { frames: Seq::empty(), end: 0, sound: false },
    }
}

/// A log that begins with a frame holds it and then what follows.
pub proof fn lemma_log(f: FrameV, rest: Seq<u8>)
    requires
        f.payload.len() <= crate::codec::MAX_FRAME,
    ensures
        log_of(enc_frame(f) + rest).frames == seq![f] + log_of(rest).frames,
        log_of(enc_frame(f) + rest).sound == log_of(rest).sound,
        log_of(enc_frame(f) + rest).end == enc_frame(f).len() + log_of(rest).end,
{
    frame::lemma_frame(f, rest);
    frame::lemma_frame_len(f);
    let s = enc_frame(f) + rest;
    assert(s.skip((40 + f.payload.len()) as int) =~= rest);
}

/// A frame that is cut short leaves the log as if it had not been begun.
pub proof fn lemma_log_cut(f: FrameV, cut: int)
    requires
        f.payload.len() <= crate::codec::MAX_FRAME,
        0 <= cut < enc_frame(f).len(),
    ensures
        log_of(enc_frame(f).take(cut)) == (Log { frames: Seq::empty(), end: 0, sound: true }),
{
    frame::lemma_frame_prefix(f, cut);
}

/// What frames stand for.
pub open spec fn frames_view(frames: Seq<Frame>) -> Seq<FrameV> {
    frames.map_values(|f: Frame| f@)
}

/// Reads the complete frames of a log and where they end. An incomplete tail is left out; a
/// complete frame that fails its checks is an error.
pub fn read_log(data: &[u8]) -> (r: Result<(Vec<Frame>, usize)>)
    ensures
        match r {
            Ok((frames, end)) => {
                &&& log_of(data@).sound
                &&& frames_view(frames@) == log_of(data@).frames
                &&& end == log_of(data@).end
                &&& end <= data@.len()
            },
            Err(e) => !log_of(data@).sound && e is Corrupt,
        },
{
    let mut frames: Vec<Frame> = Vec::new();
    let mut at: usize = 0;
    let total: usize = data.len();
    proof {
        assert(data@.skip(0) =~= data@);
        assert(frames_view(frames@) + log_of(data@).frames =~= log_of(data@).frames);
    }
    loop
        invariant
            at <= total,
            total == data@.len(),
            log_of(data@).frames == frames_view(frames@) + log_of(data@.skip(at as int)).frames,
            log_of(data@).end == at + log_of(data@.skip(at as int)).end,
            log_of(data@).sound == log_of(data@.skip(at as int)).sound,
        decreases total - at,
    {
        match frame::read(data, at)? {
            None => {
                assert(frames_view(frames@) + Seq::<FrameV>::empty() =~= frames_view(frames@));
                return Ok((frames, at));
            },
            Some(record) => {
                let ghost was = frames@;
                let ghost f = record@;
                let ghost rest = data@.skip(at as int);
                let size: usize = 40 + record.payload.len();
                frames.push(record);
                proof {
                    assert(rest.skip(size as int) =~= data@.skip(at + size));
                    assert(frames_view(frames@) =~= frames_view(was).push(f));
                    let more = log_of(data@.skip(at + size)).frames;
                    assert(frames_view(was) + (seq![f] + more) =~= frames_view(frames@) + more);
                }
                at = at + size;
            },
        }
    }
}

// ---- The checkpoints of a log ----

/// The checkpoints of a log segment, if it is one: a checkpoint first, then checkpoints and
/// transactions, each checkpoint of no later generation than the segment.
pub open spec fn segment_roots(number: u64, frames: Seq<FrameV>) -> Option<Seq<RootV>>
    decreases frames.len(),
{
    if frames.len() == 0 {
        Some(Seq::empty())
    } else {
        let f = frames.last();
        match segment_roots(number, frames.drop_last()) {
            None => None,
            Some(roots) => if f.kind == 1 {
                match dec_root(f.payload) {
                    None => None,
                    Some(r) => if r.generation <= number && r.lsn == f.lsn {
                        Some(roots.push(r))
                    } else {
                        None
                    },
                }
            } else if f.kind == 2 && frames.len() > 1 {
                Some(roots)
            } else {
                None
            },
        }
    }
}

/// What manifests stand for.
pub open spec fn roots_view(roots: Seq<Arc<Root>>) -> Seq<RootV> {
    roots.map_values(|r: Arc<Root>| r@)
}

/// Reads the checkpoints of a log segment.
pub fn read_roots(number: u64, frames: &Vec<Frame>) -> (r: Result<Vec<Arc<Root>>>)
    ensures
        match r {
            Ok(roots) => segment_roots(number, frames_view(frames@)) == Some(roots_view(roots@)),
            Err(e) => segment_roots(number, frames_view(frames@)) is None && e is Corrupt,
        },
{
    let mut roots: Vec<Arc<Root>> = Vec::new();
    let ghost all = frames_view(frames@);
    let mut i: usize = 0;
    proof {
        assert(all.take(0) =~= Seq::empty());
        assert(roots_view(roots@) =~= Seq::empty());
    }
    while i < frames.len()
        invariant
            i <= frames@.len(),
            all == frames_view(frames@),
            segment_roots(number, all.take(i as int)) == Some(roots_view(roots@)),
        decreases frames@.len() - i,
    {
        let record = &frames[i];
        proof {
            assert(all.take(i + 1).drop_last() =~= all.take(i as int));
            assert(all.take(i + 1).last() == record@);
            lemma_segment_prefix(number, all, i + 1);
        }
        if record.kind == 1 {
            let root = Root::decode(record.payload.as_slice())?;
            if root.generation > number || root.lsn != record.lsn {
                return Err(corrupt("checkpoint/WAL identity mismatch"));
            }
            let ghost was = roots@;
            let ghost v = root@;
            roots.push(Arc::new(root));
            assert(roots_view(roots@) =~= roots_view(was).push(v));
        } else if i == 0 {
            return Err(corrupt("WAL segment lacks its checkpoint header"));
        } else if record.kind != 2 {
            return Err(corrupt("unexpected WAL record"));
        }
        i = i + 1;
    }
    assert(all.take(i as int) =~= all);
    Ok(roots)
}

proof fn lemma_segment_prefix(number: u64, frames: Seq<FrameV>, n: int)
    requires
        0 <= n <= frames.len(),
    ensures
        segment_roots(number, frames.take(n)) is None ==> segment_roots(number, frames) is None,
    decreases frames.len(),
{
    if n == frames.len() {
        assert(frames.take(n) =~= frames);
    } else {
        assert(frames.drop_last().take(n) =~= frames.take(n));
        lemma_segment_prefix(number, frames.drop_last(), n);
    }
}

/// Puts checkpoints in the order of their generations; of one generation the first counts.
pub fn order_roots(roots: &Vec<Arc<Root>>) -> (m: OrderedMap<u64, Arc<Root>>)
    ensures
        forall|g: u64| #[trigger]
            m@.contains_key(g) ==> exists|i: int|
                0 <= i < roots@.len() && m@[g] == #[trigger] roots@[i] && is_first(roots@, i)
                    && roots@[i].generation == g,
        forall|i: int|
            0 <= i < roots@.len() ==> m@.contains_key((#[trigger] roots@[i]).generation),
{
    let mut m: OrderedMap<u64, Arc<Root>> = OrderedMap::new();
    let mut i: usize = 0;
    while i < roots.len()
        invariant
            i <= roots@.len(),
            forall|g: u64| #[trigger]
                m@.contains_key(g) ==> exists|j: int|
                    0 <= j < i && m@[g] == #[trigger] roots@[j] && is_first(roots@, j)
                        && roots@[j].generation == g,
            forall|j: int| 0 <= j < i ==> m@.contains_key((#[trigger] roots@[j]).generation),
        decreases roots@.len() - i,
    {
        let ghost was = m@;
        let generation: u64 = roots[i].generation;
        if !m.contains_key(&generation) {
            m.insert(generation, roots[i].clone());
            assert(is_first(roots@, i as int));
        }
        proof {
            assert forall|g: u64| #[trigger] m@.contains_key(g) implies exists|j: int|
                0 <= j < i + 1 && m@[g] == #[trigger] roots@[j] && is_first(roots@, j)
                    && roots@[j].generation == g by {
                if was.contains_key(g) {
                    let j = choose|j: int|
                        0 <= j < i && was[g] == #[trigger] roots@[j] && is_first(roots@, j)
                            && roots@[j].generation == g;
                    assert(m@[g] == roots@[j]);
                } else {
                    assert(m@[g] == roots@[i as int]);
                }
            }
        }
        i = i + 1;
    }
    m
}

/// Whether no checkpoint of the same generation stands before.
pub open spec fn is_first(roots: Seq<Arc<Root>>, i: int) -> bool {
    forall|j: int| 0 <= j < i ==> (#[trigger] roots[j]).generation != roots[i].generation
}

/// Whether files are as a manifest says.
pub open spec fn verified(r: RootV, found: Seq<(u64, u32)>) -> bool {
    &&& found.len() == r.files.len()
    &&& forall|i: int|
        0 <= i < found.len() ==> (#[trigger] found[i]) == (r.files[i].size, r.files[i].crc)
}

impl Root {
    /// Holds the sizes and checksums that files were found to have against the manifest.
    pub fn verify(&self, found: &Vec<(u64, u32)>) -> (r: Result<()>)
        ensures
            match r {
                Ok(_) => verified(self@, found@),
                Err(e) => !verified(self@, found@) && e is Corrupt,
            },
    {
        if found.len() != self.files.len() {
            return Err(corrupt("checkpoint file checksum mismatch"));
        }
        let mut i: usize = 0;
        while i < found.len()
            invariant
                i <= found@.len(),
                found@.len() == self.files@.len(),
                forall|j: int|
                    0 <= j < i ==> (#[trigger] found@[j]) == (
                        self.files@[j].size,
                        self.files@[j].crc,
                    ),
            decreases found@.len() - i,
        {
            let (size, crc) = found[i];
            if size != self.files[i].size || crc != self.files[i].crc {
                assert(found@[i as int] != (self@.files[i as int].size, self@.files[i as int].crc));
                return Err(corrupt("checkpoint file checksum mismatch"));
            }
            i = i + 1;
        }
        Ok(())
    }
}

/// The generation of the next checkpoint, behind all that files are named after.
pub fn next_generation(last_catalog: Option<u64>, last_segment: u64) -> (n: u64)
    ensures
        n == next_number(last_catalog, last_segment),
{
    let a: u64 = match last_catalog {
        None => 1,
        Some(g) => if g < u64::MAX {
            g + 1
        } else {
            g
        },
    };
    let b: u64 = if last_segment < u64::MAX {
        last_segment + 1
    } else {
        last_segment
    };
    if a >= b {
        a
    } else {
        b
    }
}

/// A number behind another, up to the greatest.
pub open spec fn behind(n: u64) -> u64 {
    if n < u64::MAX {
        (n + 1) as u64
    } else {
        n
    }
}

/// The generation of the next checkpoint.
pub open spec fn next_number(last_catalog: Option<u64>, last_segment: u64) -> u64 {
    let a = match last_catalog {
        None => 1,
        Some(g) => behind(g),
    };
    if a >= behind(last_segment) {
        a
    } else {
        behind(last_segment)
    }
}

/// Accepts a segment that is complete. The active one may end in a partial frame, and one whose
/// header is incomplete is an orphan that a rotation left behind.
pub fn check_segment(active: bool, end: u64, length: u64) -> (r: Result<()>)
    ensures
        match r {
            Ok(_) => active || end == 0 || end == length,
            Err(e) => !active && end != 0 && end != length && e is Corrupt,
        },
{
    if !active && end != 0 && end != length {
        return Err(corrupt("incomplete frame in a sealed WAL segment"));
    }
    Ok(())
}

// ---- Replay ----

/// Whether every table has a schema.
pub open spec fn tabled(catalog: Map<u64, TableV>) -> bool {
    forall|id: u64| #[trigger] catalog.contains_key(id) ==> catalog[id].schemas.len() > 0
}

/// The view after one more record of the log.
pub open spec fn replayed_record(s: StateV, files: Files, f: FrameV) -> Outcome<StateV> {
    if f.kind == 1 {
        Ok(s)
    } else if f.kind != 2 {
        Err(Fault::Corrupt)
    } else if f.lsn <= s.root.lsn {
        Ok(s)
    } else if f.lsn != s.lsn + 1 {
        Err(Fault::Corrupt)
    } else {
        match dec_ops(f.payload) {
            None => Err(Fault::Corrupt),
            Some(ops) => match executed_all(s, files, first_writes(s), ops) {
                Err(_) => Err(Fault::Corrupt),
                Ok(w) => Ok(published(s, w, f.lsn)),
            },
        }
    }
}

/// A transaction that was logged right behind its view is replayed to the view that its commit
/// published.
pub proof fn lemma_replay(s: StateV, files: Files, ops: Seq<OpV>, rest: Seq<u8>)
    requires
        crate::commit::all_sealed(s),
        s.root.lsn <= s.lsn < u64::MAX,
        0 < ops.len(),
        crate::operation::enc_ops(ops).len() <= crate::codec::MAX_FRAME,
        crate::operation::sound_catalog(s.catalog),
        executed_all(s, files, first_writes(s), ops) is Ok,
    ensures
        ({
            let lsn = (s.lsn + 1) as u64;
            let w = executed_all(s, files, first_writes(s), ops)->Ok_0;
            let f = FrameV { kind: 2, lsn, payload: crate::operation::enc_ops(ops) };
            let committed = WritesV {
                catalog: w.catalog,
                staged: crate::commit::restamped_all(w.staged, s.lsn, lsn),
            };
            &&& log_of(enc_frame(f) + rest).frames == seq![f] + log_of(rest).frames
            &&& replayed_record(s, files, f) == Ok::<_, Fault>(published(s, committed, lsn))
        }),
{
    crate::commit::lemma_recovery(s, files, ops, rest);
    let f = FrameV {
        kind: 2,
        lsn: (s.lsn + 1) as u64,
        payload: crate::operation::enc_ops(ops),
    };
    lemma_log(f, rest);
}

/// The log bytes of operations, added up.
pub open spec fn ops_bytes(ops: Seq<OpV>) -> nat
    decreases ops.len(),
{
    if ops.len() == 0 {
        0
    } else {
        ops_bytes(ops.drop_last()) + op_bytes(ops.last())
    }
}

/// Whether running operations needs what a request names.
pub open spec fn ops_ask(base: StateV, files: Files, w: WritesV, ops: Seq<OpV>, e: Error) -> bool
    decreases ops.len(),
{
    ops.len() > 0 && (ops_ask(base, files, w, ops.drop_last(), e) || match executed_all(
        base,
        files,
        w,
        ops.drop_last(),
    ) {
        Ok(w) => op_asks(base, files, w, ops.last(), e),
        Err(_) => false,
    })
}

proof fn lemma_ops_ask(base: StateV, files: Files, w: WritesV, ops: Seq<OpV>, n: int, e: Error)
    requires
        0 <= n <= ops.len(),
        ops_ask(base, files, w, ops.take(n), e),
    ensures
        ops_ask(base, files, w, ops, e),
    decreases ops.len() - n,
{
    if n < ops.len() {
        assert(ops.take(n + 1).drop_last() =~= ops.take(n));
        lemma_ops_ask(base, files, w, ops, n + 1, e);
    } else {
        assert(ops.take(n) =~= ops);
    }
}

/// Runs operations that were accepted before.
fn run_all(
    staging: &mut Staging,
    loaded: &Loaded,
    resources: &mut Resources,
    operations: &Vec<Operation>,
) -> (r: Result<()>)
    requires
        old(staging).sound(),
        old(staging).recovery,
        !old(staging).failed,
        !old(staging).base.poisoned,
        owed(old(resources).used(), old(staging).reservation.charge()),
        old(resources).used().resident_write_bytes + ops_bytes(ops_view(operations@)) <= usize::MAX,
    ensures
        final(staging).sound(),
        final(staging).base == old(staging).base,
        final(resources).limits == old(resources).limits,
        owed(final(resources).used(), final(staging).reservation.charge()),
        refunded(final(resources).used(), final(staging).reservation.charge()) == refunded(
            old(resources).used(),
            old(staging).reservation.charge(),
        ),
        match r {
            Ok(_) => forall|files: Files| #[trigger]
                loaded.agrees(files) ==> executed_all(
                    old(staging).base@,
                    files,
                    old(staging).writes(),
                    ops_view(operations@),
                ) == Ok::<_, Fault>(final(staging).writes()),
            Err(e) => e is Unread && unread_for(loaded, e) && (forall|files: Files| #[trigger]
                loaded.agrees(files) ==> ops_ask(
                    old(staging).base@,
                    files,
                    old(staging).writes(),
                    ops_view(operations@),
                    e,
                )) || !(e is Unread) && forall|files: Files| #[trigger]
                loaded.agrees(files) ==> executed_all(
                    old(staging).base@,
                    files,
                    old(staging).writes(),
                    ops_view(operations@),
                ) is Err,
        },
{
    let ghost ops = ops_view(operations@);
    let ghost base = staging.base@;
    let ghost w = staging.writes();
    let mut i: usize = 0;
    proof {
        assert(ops.take(0) =~= Seq::empty());
    }
    while i < operations.len()
        invariant
            i <= operations@.len(),
            ops == ops_view(operations@),
            base == old(staging).base@,
            w == old(staging).writes(),
            staging.sound(),
            staging.recovery,
            !staging.failed,
            !staging.base.poisoned,
            staging.base == old(staging).base,
            resources.limits == old(resources).limits,
            owed(resources.used(), staging.reservation.charge()),
            refunded(resources.used(), staging.reservation.charge()) == refunded(
                old(resources).used(),
                old(staging).reservation.charge(),
            ),
            resources.used().resident_write_bytes == old(resources).used().resident_write_bytes
                + ops_bytes(ops.take(i as int)),
            old(resources).used().resident_write_bytes + ops_bytes(ops) <= usize::MAX,
            forall|files: Files| #[trigger]
                loaded.agrees(files) ==> executed_all(base, files, w, ops.take(i as int)) == Ok::<
                    _,
                    Fault,
                >(staging.writes()),
        decreases operations@.len() - i,
    {
        let op = &operations[i];
        proof {
            assert(ops[i as int] == op@);
            assert(ops.take(i + 1).drop_last() =~= ops.take(i as int));
            assert(ops.take(i + 1).last() == op@);
            lemma_ops_bytes(ops, i + 1);
        }
        let ghost before = *staging;
        match staging.write(loaded, resources, op) {
            Ok(_) => {},
            Err(e) => {
                proof {
                    if e is Unread {
                        assert forall|files: Files| #[trigger] loaded.agrees(files) implies ops_ask(
                            base,
                            files,
                            w,
                            ops,
                            e,
                        ) by {
                            assert(ops_ask(base, files, w, ops.take(i + 1), e));
                            lemma_ops_ask(base, files, w, ops, i + 1, e);
                        }
                    }
                    if !(e is Unread) {
                        assert forall|files: Files| #[trigger]
                            loaded.agrees(files) implies executed_all(base, files, w, ops)
                            is Err by {
                            assert(executed_all(base, files, w, ops.take(i + 1)) is Err);
                            lemma_executed_prefix(base, files, w, ops, i + 1);
                        }
                    }
                }
                return Err(e);
            },
        }
        i = i + 1;
    }
    assert(ops.take(i as int) =~= ops);
    Ok(())
}

proof fn lemma_ops_bytes(ops: Seq<OpV>, n: int)
    requires
        0 <= n <= ops.len(),
    ensures
        ops_bytes(ops.take(n)) <= ops_bytes(ops),
    decreases ops.len(),
{
    if n == ops.len() {
        assert(ops.take(n) =~= ops);
    } else {
        assert(ops.drop_last().take(n) =~= ops.take(n));
        lemma_ops_bytes(ops.drop_last(), n);
    }
}

proof fn lemma_executed_prefix(base: StateV, files: Files, w: WritesV, ops: Seq<OpV>, n: int)
    requires
        0 <= n <= ops.len(),
        executed_all(base, files, w, ops.take(n)) is Err,
    ensures
        executed_all(base, files, w, ops) is Err,
    decreases ops.len(),
{
    if n == ops.len() {
        assert(ops.take(n) =~= ops);
    } else {
        assert(ops.drop_last().take(n) =~= ops.take(n));
        lemma_executed_prefix(base, files, w, ops.drop_last(), n);
    }
}

/// The log bytes of operations, if they can be counted.
fn count_bytes(operations: &Vec<Operation>, used: usize) -> (r: bool)
    ensures
        r == (used + ops_bytes(ops_view(operations@)) <= usize::MAX),
{
    let ghost ops = ops_view(operations@);
    let mut n: usize = used;
    let mut i: usize = 0;
    proof {
        assert(ops.take(0) =~= Seq::empty());
    }
    while i < operations.len()
        invariant
            i <= operations@.len(),
            ops == ops_view(operations@),
            n == used + ops_bytes(ops.take(i as int)),
        decreases operations@.len() - i,
    {
        proof {
            assert(ops.take(i + 1).drop_last() =~= ops.take(i as int));
            assert(ops.take(i + 1).last() == operations@[i as int]@);
            lemma_ops_bytes(ops, i + 1);
        }
        let bytes: usize = operations[i].encoded_len();
        if bytes > usize::MAX - n {
            return false;
        }
        n = n + bytes;
        i = i + 1;
    }
    assert(ops.take(i as int) =~= ops);
    true
}

/// Decides whether every table has a schema.
fn all_tabled(catalog: &OrderedMap<u64, Table>) -> (r: bool)
    ensures
        r == tabled(catalog_view(catalog@)),
{
    let items = catalog.items();
    let ghost s = catalog.entries();
    let ghost m = catalog_view(catalog@);
    let mut i: usize = 0;
    proof {
        assert(items@.map_values(|e: (&u64, &Table)| (*e.0, *e.1)).len() == items@.len());
    }
    while i < items.len()
        invariant
            i <= items@.len(),
            items@.len() == s.len(),
            m == catalog_view(catalog@),
            items@.map_values(|e: (&u64, &Table)| (*e.0, *e.1)) == s,
            lists(s, catalog@),
            forall|j: int| 0 <= j < i ==> (#[trigger] s[j]).1@.schemas.len() > 0,
        decreases items@.len() - i,
    {
        let (k, t) = items[i];
        proof {
            assert(items@.map_values(|e: (&u64, &Table)| (*e.0, *e.1))[i as int] == (*k, *t));
            assert(t@.schemas.len() == t.schemas@.len());
        }
        if t.schemas.len() == 0 {
            proof {
                reveal(lists);
                assert(catalog@.contains_key(s[i as int].0));
                assert(m.contains_key(s[i as int].0));
            }
            return false;
        }
        i = i + 1;
    }
    proof {
        reveal(lists);
        assert forall|id: u64| #[trigger] m.contains_key(id) implies m[id].schemas.len() > 0 by {
            assert(catalog@.contains_key(id));
            let j = choose|j: int| 0 <= j < s.len() && (#[trigger] s[j]).0 == id;
            assert(s[j].1@.schemas.len() > 0);
        }
    }
    true
}

/// Whether a request names something that is not in memory, if memory agrees with any files.
pub open spec fn unread_for(loaded: &Loaded, e: Error) -> bool {
    lacks(loaded, e) || forall|files: Files| !(#[trigger] loaded.agrees(files))
}

/// Whether replaying a record of the log needs what a request names.
pub open spec fn record_asks(s: StateV, files: Files, f: FrameV, e: Error) -> bool {
    charging(s.root.lsn, f) && s.lsn + 1 == f.lsn && match crate::operation::dec_ops(f.payload) {
        Some(ops) => ops_ask(s, files, first_writes(s), ops, e),
        None => false,
    }
}

/// The error for more writes than can be counted.
pub open spec fn uncounted() -> Error {
    Error::LimitExceeded { resource: "recovered writes", limit: usize::MAX }
}

/// Whether the writes of a record of the log, on top of what is in use, are more than can be
/// counted.
pub open spec fn uncountable(engine: Engine, used: ResourceUsage, loaded: &Loaded, f: FrameV) -> bool {
    let s = engine.state@;
    charging(s.root.lsn, f) && s.lsn + 1 == f.lsn && match crate::operation::dec_ops(f.payload) {
        None => false,
        Some(ops) => {
            ||| used.resident_write_bytes + 8 + ops_bytes(ops) > usize::MAX
            ||| forall|files: Files| #[trigger]
                loaded.agrees(files) ==> {
                    let w = executed_all(s, files, first_writes(s), ops);
                    w is Ok && !engine.room(w->Ok_0.staged.dom().len())
                }
        },
    }
}

/// The view right behind a checkpoint.
pub open spec fn opened(r: RootV) -> StateV {
    StateV {
        root: r,
        catalog: r.catalog,
        overlay: Map::empty(),
        lsn: r.lsn,
        poisoned: false,
    }
}

impl Engine {
    /// The state right behind a checkpoint.
    pub fn open(root: Arc<Root>, next_generation: u64) -> (r: Result<Engine>)
        ensures
            match r {
                Ok(e) => {
                    &&& e.sound()
                    &&& tabled(e.state@.catalog)
                    &&& e.state@ == opened(root@)
                    &&& e.state.root == root
                    &&& e.tail is None
                    &&& e.wal_bytes == 0
                    &&& e.next_generation == next_generation
                },
                Err(e) => !tabled(root@.catalog) && e is Corrupt,
            },
    {
        if !all_tabled(&root.catalog) {
            proof {
                assert(catalog_view(root.catalog@) =~= root@.catalog);
            }
            return Err(corrupt("table without a schema"));
        }
        let state = ReadState {
            catalog: root.catalog.clone(),
            overlay: Overlay::new(),
            lsn: root.lsn,
            poisoned: false,
            root,
        };
        proof {
            assert(catalog_view(state.catalog@) =~= state@.root.catalog);
            assert(state@.overlay =~= Map::empty());
        }
        Ok(Engine { state, tail: None, wal_bytes: 0, next_generation })
    }

    /// Replays one record of the log. A request for a part of a file that is not in memory
    /// changes nothing, and the record can be replayed again. What the transaction charges is
    /// returned for as long as the view holds its writes.
    pub fn replay(&mut self, loaded: &Loaded, resources: &mut Resources, record: &Frame) -> (r:
        Result<Option<Reservation>>)
        requires
            old(self).sound(),
            tabled(old(self).state@.catalog),
            !old(self).state.poisoned,
            old(self).tail is None,
        ensures
            final(self).sound(),
            tabled(final(self).state@.catalog),
            !final(self).state.poisoned,
            final(self).tail is None,
            final(self).state.root == old(self).state.root,
            final(self).next_generation == old(self).next_generation,
            final(resources).limits == old(resources).limits,
            match r {
                Ok(c) => {
                    &&& forall|files: Files| #[trigger]
                        loaded.agrees(files) ==> replayed_record(
                            old(self).state@,
                            files,
                            record@,
                        ) == Ok::<_, Fault>(final(self).state@)
                    &&& c is Some == charging(old(self).state@.root.lsn, record@)
                    &&& match c {
                        None => final(resources).used() == old(resources).used() && final(self).wal_bytes == old(self).wal_bytes,
                        Some(c) => owed(final(resources).used(), c.charge()) && refunded(
                            final(resources).used(),
                            c.charge(),
                        ) == old(resources).used() && final(self).wal_bytes == (if old(self).wal_bytes + 40 + record.payload@.len() <= u64::MAX {
                            (old(self).wal_bytes + 40 + record.payload@.len()) as u64
                        } else {
                            u64::MAX
                        }),
                    }
                },
                Err(e) => *final(self) == *old(self) && final(resources).used() == old(
                    resources).used() && {
                    ||| e is Unread && unread_for(loaded, e) && forall|files: Files| #[trigger]
                        loaded.agrees(files) ==> record_asks(
                            old(self).state@,
                            files,
                            record@,
                            e,
                        )
                    ||| e == uncounted() && uncountable(
                        *old(self),
                        old(resources).used(),
                        loaded,
                        record@,
                    )
                    ||| e is Corrupt && forall|files: Files| #[trigger]
                        loaded.agrees(files) ==> replayed_record(
                            old(self).state@,
                            files,
                            record@,
                        ) == Err::<StateV, _>(Fault::Corrupt)
                },
            },
    {
        if record.kind == 1 {
            return Ok(None);
        }
        if record.kind != 2 {
            return Err(corrupt("unexpected record in transaction WAL"));
        }
        if record.lsn <= self.state.root.lsn {
            return Ok(None);
        }
        if self.state.lsn == u64::MAX || self.state.lsn + 1 != record.lsn {
            return Err(corrupt("gap or duplicate in transaction sequence"));
        }
        let operations = decode_ops(record.payload.as_slice())?;
        let ghost ops = ops_view(operations@);
        let used: usize = resources.usage.resident_write_bytes;
        if used > usize::MAX - 8 || !count_bytes(&operations, used + 8) {
            return Err(
                Error::LimitExceeded { resource: "recovered writes", limit: usize::MAX },
            );
        }
        let base = Arc::new(self.state.clone());
        proof {
            assert forall|id: u64| #[trigger]
                base.catalog@.contains_key(id) implies base.catalog@[id].schemas@.len() > 0 by {
                assert(self.state@.catalog.contains_key(id));
                assert(base.catalog@[id]@.schemas.len() == base.catalog@[id].schemas@.len());
            }
        }
        let mut staging = Staging::new(base, true, resources)?;
        match run_all(&mut staging, loaded, resources, &operations) {
            Ok(_) => {},
            Err(e) => {
                let taken = staging.reservation;
                resources.release_writes(taken);
                return match e {
                    Error::Unread { file, offset, length } => Err(
                        Error::Unread { file, offset, length },
                    ),
                    _ => Err(corrupt("invalid WAL operation")),
                };
            },
        }
        let ghost w = staging.writes();
        let ghost sound = staging.sound();
        let batch = staging.prepare(None);
        let room: bool = self.has_room(&batch);
        let charge = Reservation {
            bytes: batch.reservation.bytes,
            decoded_bytes: batch.reservation.decoded_bytes,
        };
        if !room {
            resources.release_writes(charge);
            return Err(
                Error::LimitExceeded { resource: "recovered writes", limit: usize::MAX },
            );
        }
        proof {
            assert forall|id: u64| #[trigger]
                w.catalog.contains_key(id) implies w.catalog[id].schemas.len() > 0 by {
                assert(batch.catalog@.contains_key(id));
                assert(batch.catalog@[id]@.schemas.len() == batch.catalog@[id].schemas@.len());
            }
        }
        self.publish_state(batch, record.lsn);
        let size: u64 = record.payload.len() as u64;
        self.wal_bytes = if size <= u64::MAX - 40 && size + 40 <= u64::MAX - self.wal_bytes {
            self.wal_bytes + (size + 40)
        } else {
            u64::MAX
        };
        Ok(Some(charge))
    }

    /// Decides whether the overlays have room for the entities of a transaction.
    pub fn has_room(&self, batch: &Prepared) -> (r: bool)
        ensures
            r == self.room(batch.staged@.dom().len()),
    {
        let n: usize = batch.keys_len();
        if self.state.overlay.len() > usize::MAX - n {
            return false;
        }
        match &self.tail {
            None => true,
            Some(tail) => tail.len() <= usize::MAX - n,
        }
    }
}

// ---- Many records ----

/// Whether a record is replayed over a checkpoint, and so charged for.
pub open spec fn charging(checkpoint: u64, f: FrameV) -> bool {
    f.kind == 2 && f.lsn > checkpoint
}

/// The numbers of the records that are charged for.
pub open spec fn charging_numbers(checkpoint: u64, frames: Seq<FrameV>) -> Seq<u64>
    decreases frames.len(),
{
    if frames.len() == 0 {
        Seq::empty()
    } else {
        let front = charging_numbers(checkpoint, frames.drop_last());
        if charging(checkpoint, frames.last()) {
            front.push(frames.last().lsn)
        } else {
            front
        }
    }
}

/// The numbers of charges.
pub open spec fn numbers(charges: Seq<(u64, Reservation)>) -> Seq<u64> {
    charges.map_values(|c: (u64, Reservation)| c.0)
}

/// What is used once charges are given back.
pub open spec fn refunded_all(used: ResourceUsage, charges: Seq<(u64, Reservation)>) -> ResourceUsage
    decreases charges.len(),
{
    if charges.len() == 0 {
        used
    } else {
        refunded_all(refunded(used, charges.last().1.charge()), charges.drop_last())
    }
}

/// The view after records of the log, one after another.
pub open spec fn replayed_all(s: StateV, files: Files, frames: Seq<FrameV>) -> Outcome<StateV>
    decreases frames.len(),
{
    if frames.len() == 0 {
        Ok(s)
    } else {
        match replayed_all(s, files, frames.drop_last()) {
            Err(f) => Err(f),
            Ok(t) => replayed_record(t, files, frames.last()),
        }
    }
}

proof fn lemma_replay_fails(s: StateV, files: Files, frames: Seq<FrameV>, n: int)
    requires
        0 <= n <= frames.len(),
        replayed_all(s, files, frames.take(n)) is Err,
    ensures
        replayed_all(s, files, frames) is Err,
    decreases frames.len() - n,
{
    if n < frames.len() {
        assert(frames.take(n + 1).drop_last() =~= frames.take(n));
        lemma_replay_fails(s, files, frames, n + 1);
    } else {
        assert(frames.take(n) =~= frames);
    }
}

/// Records replayed in two runs are replayed as in one.
pub proof fn lemma_replayed_more(s: StateV, files: Files, a: Seq<FrameV>, b: Seq<FrameV>)
    requires
        replayed_all(s, files, a) is Ok,
    ensures
        replayed_all(s, files, a + b) == replayed_all(
            replayed_all(s, files, a)->Ok_0,
            files,
            b,
        ),
    decreases b.len(),
{
    if b.len() == 0 {
        assert(a + b =~= a);
    } else {
        lemma_replayed_more(s, files, a, b.drop_last());
        assert((a + b).drop_last() =~= a + b.drop_last());
    }
}

/// The bytes that records take in the log, of those that are replayed over a checkpoint.
pub open spec fn logged_bytes(checkpoint: u64, frames: Seq<FrameV>) -> nat
    decreases frames.len(),
{
    if frames.len() == 0 {
        0
    } else {
        logged_bytes(checkpoint, frames.drop_last()) + if charging(checkpoint, frames.last()) {
            40 + frames.last().payload.len()
        } else {
            0
        }
    }
}

/// A count of bytes, up to the greatest number.
pub open spec fn capped(n: int) -> u64 {
    if n <= u64::MAX {
        n as u64
    } else {
        u64::MAX
    }
}

/// Records of a log that are replayed, one after another.
pub struct Replay {
    frames: Vec<Frame>,
    at: usize,
    charges: Vec<(u64, Reservation)>,
}

impl Replay {
    /// The records.
    pub closed spec fn records(self) -> Seq<FrameV> {
        frames_view(self.frames@)
    }

    /// How many have been replayed.
    pub closed spec fn done(self) -> nat {
        self.at as nat
    }

    /// What the records replayed so far charge, by their numbers.
    pub closed spec fn charged(self) -> Seq<(u64, Reservation)> {
        self.charges@
    }

    /// Whether each record replayed so far over a checkpoint has its charge.
    pub open spec fn complete(self, checkpoint: u64) -> bool {
        numbers(self.charged()) == charging_numbers(
            checkpoint,
            self.records().take(self.done() as int),
        )
    }

    /// Whether a view is the one that the records replayed so far lead to.
    pub open spec fn leads(self, from: StateV, files: Files, to: StateV) -> bool {
        replayed_all(from, files, self.records().take(self.done() as int)) == Ok::<_, Fault>(to)
    }

    /// Starts to replay records.
    pub fn new(frames: Vec<Frame>) -> (r: Self)
        ensures
            r.records() == frames_view(frames@),
            r.done() == 0,
            r.charged() == Seq::<(u64, Reservation)>::empty(),
    {
        Replay { frames, at: 0, charges: Vec::new() }
    }

    /// Replays the records that are left. Where a part of a file is not in memory, replaying
    /// goes on from the record that needs it.
    pub fn advance(&mut self, engine: &mut Engine, loaded: &Loaded, resources: &mut Resources) -> (r:
        Result<()>)
        requires
            old(self).done() <= old(self).records().len(),
            old(engine).sound(),
            tabled(old(engine).state@.catalog),
            !old(engine).state.poisoned,
            old(engine).tail is None,
        ensures
            final(self).records() == old(self).records(),
            final(self).done() <= final(self).records().len(),
            final(engine).sound(),
            tabled(final(engine).state@.catalog),
            !final(engine).state.poisoned,
            final(engine).tail is None,
            final(engine).state.root == old(engine).state.root,
            final(engine).next_generation == old(engine).next_generation,
            old(self).done() <= final(self).done(),
            final(engine).wal_bytes == capped(
                old(engine).wal_bytes + logged_bytes(
                    old(engine).state@.root.lsn,
                    old(self).records().subrange(
                        old(self).done() as int,
                        final(self).done() as int,
                    ),
                ),
            ),
            final(resources).limits == old(resources).limits,
            old(self).charged().len() <= final(self).charged().len(),
            final(self).charged().take(old(self).charged().len() as int) == old(self).charged(),
            old(self).complete(old(engine).state@.root.lsn) ==> final(self).complete(
                old(engine).state@.root.lsn,
            ),
            refunded_all(
                final(resources).used(),
                final(self).charged().skip(old(self).charged().len() as int),
            ) == old(resources).used(),
            forall|from: StateV, files: Files|
                #![trigger old(self).leads(from, files, old(engine).state@)]
                loaded.agrees(files) && old(self).leads(from, files, old(engine).state@)
                    ==> final(self).leads(from, files, final(engine).state@),
            match r {
                Ok(_) => final(self).done() == final(self).records().len(),
                Err(e) => final(self).done() < final(self).records().len() && {
                    let f = final(self).records()[final(self).done() as int];
                    ||| e is Unread && unread_for(loaded, e) && forall|files: Files| #[trigger]
                        loaded.agrees(files) ==> record_asks(final(engine).state@, files, f, e)
                    ||| e == uncounted() && uncountable(
                        *final(engine),
                        final(resources).used(),
                        loaded,
                        f,
                    )
                    ||| (e is Corrupt && forall|
                    from: StateV,
                    files: Files,
                |
                    #![trigger old(self).leads(from, files, old(engine).state@)]
                    loaded.agrees(files) && old(self).leads(from, files, old(engine).state@)
                        ==> replayed_all(from, files, old(self).records()) is Err)
                },
            },
    {
        let ghost s0 = engine.state@;
        let ghost start = *self;
        let ghost checkpoint = engine.state@.root.lsn;
        let ghost held = self.charges@;
        let ghost spent = resources.used();
        proof {
            assert(self.charges@.skip(held.len() as int) =~= Seq::empty());
            assert(self.charges@.take(held.len() as int) =~= held);
            assert(self.records().subrange(self.at as int, self.at as int) =~= Seq::empty());
        }
        while self.at < self.frames.len()
            invariant
                self.frames == old(self).frames,
                old(self).at <= self.at <= self.frames@.len(),
                engine.wal_bytes == capped(
                    old(engine).wal_bytes + logged_bytes(
                        checkpoint,
                        self.records().subrange(old(self).at as int, self.at as int),
                    ),
                ),
                start == *old(self),
                s0 == old(engine).state@,
                engine.sound(),
                tabled(engine.state@.catalog),
                !engine.state.poisoned,
                engine.tail is None,
                engine.state.root == old(engine).state.root,
                engine.next_generation == old(engine).next_generation,
                resources.limits == old(resources).limits,
                checkpoint == old(engine).state@.root.lsn,
                engine.state@.root.lsn == checkpoint,
                held == old(self).charges@,
                spent == old(resources).used(),
                held.len() <= self.charges@.len(),
                self.charges@.take(held.len() as int) == held,
                start.complete(checkpoint) ==> self.complete(checkpoint),
                refunded_all(resources.used(), self.charges@.skip(held.len() as int)) == spent,
                forall|from: StateV, files: Files|
                    #![trigger start.leads(from, files, s0)]
                    loaded.agrees(files) && start.leads(from, files, s0) ==> self.leads(
                        from,
                        files,
                        engine.state@,
                    ),
            decreases self.frames@.len() - self.at,
        {
            let ghost i = self.at as int;
            let ghost before = engine.state@;
            let ghost was = *self;
            proof {
                assert(self.records().take(i + 1).drop_last() =~= self.records().take(i));
                assert(self.records().take(i + 1).last() == self.frames@[i]@);
                let all = self.records();
                let from = old(self).at as int;
                assert(all.subrange(from, i + 1).drop_last() =~= all.subrange(from, i));
                assert(all.subrange(from, i + 1).last() == self.frames@[i]@);
            }
            let lsn: u64 = self.frames[self.at].lsn;
            match engine.replay(loaded, resources, &self.frames[self.at]) {
                Err(e) => {
                    proof {
                        if e is Corrupt {
                            assert forall|from: StateV, files: Files|
                                #![trigger start.leads(from, files, s0)]
                                loaded.agrees(files) && start.leads(
                                    from,
                                    files,
                                    s0,
                                ) implies replayed_all(from, files, start.records()) is Err by {
                                assert(was.leads(from, files, before));
                                lemma_replay_fails(from, files, start.records(), i + 1);
                            }
                        }
                    }
                    return Err(e);
                },
                Ok(charge) => {
                    match charge {
                        None => {},
                        Some(charge) => {
                            let ghost old_charges = self.charges@;
                            self.charges.push((lsn, charge));
                            proof {
                                let (a, b) = (old_charges, self.charges@);
                                let n = held.len() as int;
                                assert(b.skip(n).drop_last() =~= a.skip(n));
                                assert(b.skip(n).last() == (lsn, charge));
                                assert(b.take(n) =~= a.take(n));
                                assert(numbers(b) =~= numbers(a).push(lsn));
                            }
                        },
                    }
                },
            }
            self.at = self.at + 1;
            proof {
                assert forall|from: StateV, files: Files|
                    #![trigger start.leads(from, files, s0)]
                    loaded.agrees(files) && start.leads(from, files, s0) implies self.leads(
                    from,
                    files,
                    engine.state@,
                ) by {
                    assert(was.leads(from, files, before));
                }
            }
        }
        Ok(())
    }

    /// What the replayed transactions charge, by their numbers.
    pub fn finish(self) -> (charges: Vec<(u64, Reservation)>)
        ensures
            charges@ == self.charged(),
    {
        self.charges
    }
}

// ---- Choosing where to start ----

/// Chooses the first of checkpoints whose files were found as its manifest says, of as many as
/// were looked at.
pub fn select_root(roots: &Vec<Arc<Root>>, found: &Vec<Vec<(u64, u32)>>) -> (r: Option<usize>)
    requires
        found@.len() <= roots@.len(),
    ensures
        match r {
            Some(i) => {
                &&& i < found@.len()
                &&& verified(roots@[i as int]@, found@[i as int]@)
                &&& forall|j: int|
                    0 <= j < i ==> !verified(roots@[j]@, (#[trigger] found@[j])@)
            },
            None => forall|j: int|
                0 <= j < found@.len() ==> !verified(roots@[j]@, (#[trigger] found@[j])@),
        },
{
    let mut i: usize = 0;
    while i < found.len()
        invariant
            i <= found@.len(),
            found@.len() <= roots@.len(),
            forall|j: int| 0 <= j < i ==> !verified(roots@[j]@, (#[trigger] found@[j])@),
        decreases found@.len() - i,
    {
        match roots[i].verify(&found[i]) {
            Ok(_) => {
                return Some(i);
            },
            Err(_) => {},
        }
        i = i + 1;
    }
    None
}

/// The segment that is written to: the last one with a complete frame.
pub fn active_segment(segments: &Vec<(u64, Vec<Frame>)>) -> (r: Option<u64>)
    ensures
        match r {
            Some(n) => exists|i: int|
                0 <= i < segments@.len() && (#[trigger] segments@[i]).0 == n
                    && segments@[i].1@.len() > 0 && forall|j: int|
                    i < j < segments@.len() ==> (#[trigger] segments@[j]).1@.len() == 0,
            None => forall|j: int|
                0 <= j < segments@.len() ==> (#[trigger] segments@[j]).1@.len() == 0,
        },
{
    let mut i: usize = segments.len();
    while i > 0
        invariant
            i <= segments@.len(),
            forall|j: int| i <= j < segments@.len() ==> (#[trigger] segments@[j]).1@.len() == 0,
        decreases i,
    {
        i = i - 1;
        if segments[i].1.len() > 0 {
            return Some(segments[i].0);
        }
    }
    None
}

/// Whether a segment is replayed behind a checkpoint.
pub fn replays_segment(number: u64, checkpoint: u64, active: u64) -> (r: bool)
    ensures
        r == (checkpoint <= number && number <= active),
{
    checkpoint <= number && number <= active
}

// ---- What is acknowledged is recovered ----

/// The view after transactions that are committed one after another.
pub open spec fn committed_all(s: StateV, files: Files, txs: Seq<Seq<OpV>>) -> Outcome<StateV>
    decreases txs.len(),
{
    if txs.len() == 0 {
        Ok(s)
    } else {
        match executed_all(s, files, first_writes(s), txs[0]) {
            Err(f) => Err(f),
            Ok(w) => committed_all(committed(s, w), files, txs.skip(1)),
        }
    }
}

/// The log of transactions behind a number.
pub open spec fn logged_all(lsn: u64, txs: Seq<Seq<OpV>>) -> Seq<u8>
    decreases txs.len(),
{
    if txs.len() == 0 {
        Seq::empty()
    } else {
        enc_frame(logged(lsn, txs[0])) + logged_all((lsn + 1) as u64, txs.skip(1))
    }
}

/// Whether a transaction has something to log, and a record can hold it.
pub open spec fn loggable(ops: Seq<OpV>) -> bool {
    0 < ops.len() && crate::operation::enc_ops(ops).len() <= crate::codec::MAX_FRAME
}

/// The view that committing a transaction publishes.
pub open spec fn committed(s: StateV, w: WritesV) -> StateV {
    let lsn = (s.lsn + 1) as u64;
    published(
        s,
        WritesV {
            catalog: w.catalog,
            staged: crate::commit::restamped_all(w.staged, s.lsn, lsn),
        },
        lsn,
    )
}

/// The record of a transaction.
pub open spec fn logged(lsn: u64, ops: Seq<OpV>) -> FrameV {
    FrameV { kind: 2, lsn: (lsn + 1) as u64, payload: crate::operation::enc_ops(ops) }
}

#[verifier::spinoff_prover]
proof fn lemma_one_recovered(s: StateV, files: Files, ops: Seq<OpV>, rest: Seq<u8>)
    requires
        crate::commit::all_sealed(s),
        s.root.lsn <= s.lsn,
        s.lsn < u64::MAX,
        loggable(ops),
        crate::operation::sound_catalog(s.catalog),
        executed_all(s, files, first_writes(s), ops) is Ok,
    ensures
        ({
            let f = logged(s.lsn, ops);
            let t = committed(s, executed_all(s, files, first_writes(s), ops)->Ok_0);
            let log = log_of(enc_frame(f) + rest);
            &&& log.frames == seq![f] + log_of(rest).frames
            &&& log.sound == log_of(rest).sound
            &&& replayed_record(s, files, f) == Ok::<_, Fault>(t)
            &&& crate::commit::all_sealed(t)
            &&& crate::operation::sound_catalog(t.catalog)
            &&& t.root == s.root
            &&& t.lsn == s.lsn + 1
        }),
{
    lemma_replay(s, files, ops, rest);
    crate::commit::lemma_recovery(s, files, ops, rest);
    lemma_log(logged(s.lsn, ops), rest);
}

/// What is acknowledged is recovered: the log of transactions that were committed one after
/// another, cut off at any place behind them, reads back and is replayed to the view that the
/// last commit published.
#[verifier::spinoff_prover]
pub proof fn lemma_recovered(s: StateV, files: Files, txs: Seq<Seq<OpV>>, tail: Seq<u8>)
    requires
        crate::commit::all_sealed(s),
        crate::operation::sound_catalog(s.catalog),
        s.root.lsn <= s.lsn,
        s.lsn + txs.len() <= u64::MAX,
        forall|i: int| 0 <= i < txs.len() ==> loggable(#[trigger] txs[i]),
        committed_all(s, files, txs) is Ok,
        log_of(tail).frames.len() == 0,
    ensures
        log_of(logged_all(s.lsn, txs) + tail).frames.len() == txs.len(),
        log_of(logged_all(s.lsn, txs) + tail).sound == log_of(tail).sound,
        replayed_all(s, files, log_of(logged_all(s.lsn, txs) + tail).frames) == committed_all(
            s,
            files,
            txs,
        ),
    decreases txs.len(),
{
    if txs.len() == 0 {
        assert(logged_all(s.lsn, txs) + tail =~= tail);
    } else {
        let ops = txs[0];
        assert(loggable(txs[0]));
        let rest = logged_all((s.lsn + 1) as u64, txs.skip(1)) + tail;
        let f = logged(s.lsn, ops);
        assert(logged_all(s.lsn, txs) + tail =~= enc_frame(f) + rest);
        lemma_one_recovered(s, files, ops, rest);
        let t = committed(s, executed_all(s, files, first_writes(s), ops)->Ok_0);
        assert forall|i: int| 0 <= i < txs.skip(1).len() implies loggable(
            #[trigger] txs.skip(1)[i],
        ) by {
            assert(txs.skip(1)[i] == txs[i + 1]);
        }
        lemma_recovered(t, files, txs.skip(1), tail);
        lemma_replayed_one(s, files, f, t);
        lemma_replayed_more(s, files, seq![f], log_of(rest).frames);
    }
}

proof fn lemma_replayed_one(s: StateV, files: Files, f: FrameV, t: StateV)
    requires
        replayed_record(s, files, f) == Ok::<_, Fault>(t),
    ensures
        replayed_all(s, files, seq![f]) == Ok::<_, Fault>(t),
{
    assert(seq![f].drop_last() =~= Seq::empty());
    assert(replayed_all(s, files, seq![f].drop_last()) == Ok::<_, Fault>(s));
}

} // verus!
