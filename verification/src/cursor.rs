//! Reading history in bounded batches.

use crate::error::corrupt;
use crate::error::invalid;
use crate::error::reports;
use crate::error::Error;
use crate::error::Result;
use crate::memory::charges;
use crate::memory::event_bytes;
use crate::memory::fields_size;
use crate::memory::saturated;
use crate::memory::spare;
use crate::memory::Accounted;
use crate::model::events_view;
use crate::model::Event;
use crate::model::EventV;
use crate::reader::state_range;
use crate::reader::state_range_asks;
use crate::reader::walk_events;
use crate::reader::ReadState;
use crate::reader::StateV;
use crate::reading::ends;
use crate::reading::Ending;
use crate::reading::EventWalk;
use crate::reading::Room;
use crate::reading::Run;
use crate::resources::charged;
use crate::resources::Charge;
use crate::resources::Limits;
use crate::resources::MemoryKind;
use crate::resources::MemoryReservation;
use crate::resources::Resources;
use crate::storage::pager::lacks;
use crate::storage::pager::Files;
use crate::storage::pager::Loaded;
use crate::text::label;
use std::sync::atomic::AtomicBool;
use std::sync::atomic::Ordering;
use std::sync::Arc;
use vstd::prelude::*;

verus! {

/// A request to stop reading, shared by all clones: cancelling one of them is seen by every
/// other, also from another thread. What the shared flag holds at an instant is no subject of
/// contracts; functions that depend on it take it as an argument.
#[derive(Debug)]
pub struct CancellationToken {
    flag: Arc<AtomicBool>,
}

impl Clone for CancellationToken {
    fn clone(&self) -> (copy: Self)
        ensures
            copy == *self,
    {
        CancellationToken { flag: self.flag.clone() }
    }
}

impl Default for CancellationToken {
    fn default() -> (token: Self) {
        CancellationToken { flag: Arc::new(AtomicBool::new(false)) }
    }
}

impl CancellationToken {
    /// Requests cancellation, for good.
    pub fn cancel(&self) {
        self.flag.store(true, Ordering::Release);
    }

    /// Whether cancellation has been requested.
    pub fn is_cancelled(&self) -> (r: bool) {
        self.flag.load(Ordering::Acquire)
    }

    /// Fails once cancellation has been requested.
    pub fn check(&self) -> (r: Result<()>)
        ensures
            r matches Err(e) ==> e is Cancelled,
    {
        check_cancelled(self.is_cancelled())
    }
}

/// Fails where cancellation has been requested.
pub fn check_cancelled(cancelled: bool) -> (r: Result<()>)
    ensures
        match r {
            Ok(_) => !cancelled,
            Err(e) => cancelled && e is Cancelled,
        },
{
    if cancelled {
        Err(Error::Cancelled)
    } else {
        Ok(())
    }
}

/// Inclusive event-version range and per-batch limits. The retained base has no event.
#[derive(Clone, Debug)]
pub struct HistoryOptions {
    /// First event version, or the first retained event when omitted.
    pub first_version: Option<u64>,
    /// Last event version, or the snapshot's current version when omitted.
    pub last_version: Option<u64>,
    /// Maximum events returned per batch, also capped by the database limit.
    pub max_events: usize,
    /// Logical decoded bytes per batch, also capped by the database limit.
    pub max_bytes: usize,
    /// Cooperative cancellation.
    pub cancellation: CancellationToken,
}

impl Default for HistoryOptions {
    fn default() -> (o: Self)
        ensures
            o.first_version is None,
            o.last_version is None,
            o.max_events == 256,
            o.max_bytes == 1024 * 1024,
    {
        HistoryOptions {
            first_version: None,
            last_version: None,
            max_events: 256,
            max_bytes: 1024 * 1024,
            cancellation: CancellationToken::default(),
        }
    }
}

impl HistoryOptions {
    /// Accepts options with positive limits, unless cancellation has been requested. This needs
    /// no entity.
    pub fn validate(&self, cancelled: bool) -> (r: Result<()>)
        ensures
            match r {
                Ok(_) => !cancelled && self.max_events > 0 && self.max_bytes > 0,
                Err(e) => if cancelled {
                    e is Cancelled
                } else {
                    e is Invalid && (self.max_events == 0 || self.max_bytes == 0)
                },
            },
    {
        check_cancelled(cancelled)?;
        if self.max_events == 0 || self.max_bytes == 0 {
            return Err(invalid("history batch limits must be positive"));
        }
        Ok(())
    }
}

/// Events that were read together.
pub struct HistoryBatch {
    events: Vec<Event>,
    bytes: usize,
    memory: Option<MemoryReservation>,
}

impl HistoryBatch {
    /// The events.
    pub closed spec fn taken(self) -> Seq<EventV> {
        events_view(self.events@)
    }

    /// Their size.
    pub closed spec fn size(self) -> usize {
        self.bytes
    }

    /// The memory that is reserved for the batch.
    pub closed spec fn reserved(self) -> Option<MemoryReservation> {
        self.memory
    }

    /// Gives the batch up for the memory that was reserved for it, which is then to be released.
    pub fn into_memory(self) -> (memory: Option<MemoryReservation>)
        ensures
            memory == self.reserved(),
    {
        self.memory
    }

    /// Events in increasing version order.
    pub fn iter(&self) -> (events: &Vec<Event>)
        ensures
            events_view(events@) == self.taken(),
    {
        &self.events
    }

    /// Number of events in this batch.
    pub fn len(&self) -> (n: usize)
        ensures
            n == self.taken().len(),
    {
        assert(events_view(self.events@).len() == self.events@.len());
        self.events.len()
    }

    /// Whether the batch is empty. Successful cursor batches are always nonempty.
    pub fn is_empty(&self) -> (r: bool)
        ensures
            r == (self.taken().len() == 0),
    {
        assert(events_view(self.events@).len() == self.events@.len());
        self.events.len() == 0
    }

    /// Logical decoded bytes of this batch, with its event slots.
    pub fn memory_bytes(&self) -> (n: usize)
        ensures
            n == self.size(),
    {
        self.bytes
    }
}

/// What reading a batch comes to.
pub enum Batched {
    /// Events, their size, and the version to go on from.
    Taken(Seq<EventV>, nat, Option<u64>),
    /// The first event is too large.
    TooLarge,
    /// The history has a gap, is damaged or ends early.
    Damaged,
    /// The next record exceeds a limit.
    Limited(Error),
}

/// The version behind another in a range.
pub open spec fn next_in(version: u64, last: u64) -> Option<u64> {
    if version == last || version == u64::MAX {
        None
    } else {
        Some((version + 1) as u64)
    }
}

/// The limits of a batch: events, bytes, and the bytes of an event slot.
#[derive(Clone, Copy, Debug)]
pub struct Bounds {
    /// The last version of the range.
    pub last: u64,
    /// The most events.
    pub max_events: usize,
    /// The most bytes.
    pub max_bytes: usize,
    /// The bytes of a slot.
    pub slot_bytes: usize,
}

/// Events behind the first.
pub open spec fn rest(run: Run, n: int) -> Run {
    Run { events: run.events.skip(n), ending: run.ending }
}

/// What a batch comes to that has taken some events, from the events that follow with the
/// bytes charged for each.
pub open spec fn batched(
    b: Bounds,
    taken: Seq<EventV>,
    total: nat,
    expected: Option<u64>,
    run: Run,
    sizes: Seq<usize>,
) -> Batched
    decreases run.events.len(),
{
    if run.events.len() == 0 {
        match run.ending {
            Ending::Done => if expected is Some || taken.len() == 0 {
                Batched::Damaged
            } else {
                Batched::Taken(taken, total, expected)
            },
            Ending::Damaged => Batched::Damaged,
            Ending::Limited(e) => Batched::Limited(e),
        }
    } else {
        let e = run.events[0];
        let size = sizes[0] as nat + b.slot_bytes as nat;
        if total + size > b.max_bytes {
            if total == 0 {
                Batched::TooLarge
            } else {
                Batched::Taken(taken, total, expected)
            }
        } else if expected != Some(e.version) {
            Batched::Damaged
        } else if taken.len() + 1 < b.max_events {
            batched(
                b,
                taken.push(e),
                total + size,
                next_in(e.version, b.last),
                rest(run, 1),
                sizes.skip(1),
            )
        } else {
            Batched::Taken(taken.push(e), total + size, next_in(e.version, b.last))
        }
    }
}

/// Whether bytes are charged for events, for each what it holds, with its slot.
pub open spec fn weighed(events: Seq<EventV>, sizes: Seq<usize>) -> bool {
    &&& sizes.len() == events.len()
    &&& forall|i: int|
        0 <= i < sizes.len() ==> charges(
            events[i].fields,
            vstd::layout::size_of::<Accounted<Event>>(),
            #[trigger] sizes[i],
        )
}

/// What a batch comes to from its first version on.
pub open spec fn batch_from(b: Bounds, first: u64, run: Run, sizes: Seq<usize>) -> Batched {
    batched(b, Seq::empty(), 0, Some(first), run, sizes)
}

/// Whether an error tells what reading a batch came to.
pub open spec fn batch_failed(b: Bounds, x: Batched, e: Error) -> bool {
    match x {
        Batched::Taken(_, _, _) => false,
        Batched::TooLarge => e == (Error::LimitExceeded {
            resource: "history batch bytes",
            limit: b.max_bytes,
        }),
        Batched::Damaged => e is Corrupt,
        Batched::Limited(limit) => e == limit,
    }
}

/// How events end that were read.
#[derive(Clone, Copy, Debug)]
pub enum Stop {
    /// There are no more.
    Done,
    /// The next one is damaged.
    Damaged,
    /// The next one exceeds a limit.
    Limited(&'static str, usize),
}

impl View for Stop {
    type V = Ending;

    open spec fn view(&self) -> Ending {
        match self {
            Stop::Done => Ending::Done,
            Stop::Damaged => Ending::Damaged,
            Stop::Limited(resource, limit) => Ending::Limited(
                Error::LimitExceeded { resource: *resource, limit: *limit },
            ),
        }
    }
}

/// The run of events from a place on.
pub open spec fn run_from(events: Seq<Event>, stop: Stop, at: int) -> Run {
    Run { events: events_view(events).skip(at), ending: stop@ }
}

/// Reads a batch from events with the bytes charged for each, from a place on.
pub fn take_batch(
    b: &Bounds,
    first: u64,
    events: &Vec<Event>,
    sizes: &Vec<usize>,
    at: usize,
    stop: &Stop,
) -> (r: Result<(HistoryBatch, Option<u64>)>)
    requires
        b.slot_bytes > 0,
        sizes@.len() == events@.len(),
        at <= events@.len(),
    ensures
        ({
            let x = batch_from(*b, first, run_from(events@, *stop, at as int), sizes@.skip(
                at as int,
            ));
            match r {
                Ok((batch, next)) => x == Batched::Taken(
                    batch.taken(),
                    batch.size() as nat,
                    next,
                ) && 0 < batch.taken().len() <= events@.len() - at && batch.size()
                    <= b.max_bytes && batch.reserved() is None,
                Err(e) => batch_failed(*b, x, e),
            }
        }),
{
    let ghost all = events_view(events@);
    let ghost whole = batch_from(*b, first, run_from(events@, *stop, at as int), sizes@.skip(
        at as int,
    ));
    let mut taken: Vec<Event> = Vec::new();
    let mut total: usize = 0;
    let mut expected: Option<u64> = Some(first);
    let mut i: usize = at;
    proof {
        assert(events_view(taken@) =~= Seq::empty());
    }
    while i < events.len()
        invariant
            at <= i <= events@.len(),
            b.slot_bytes > 0,
            sizes@.len() == events@.len(),
            all == events_view(events@),
            taken@.len() == i - at,
            total <= b.max_bytes,
            total == 0 <==> i == at,
            whole == batch_from(*b, first, run_from(events@, *stop, at as int), sizes@.skip(
                at as int,
            )),
            whole == batched(*b, events_view(taken@), total as nat, expected, run_from(
                events@,
                *stop,
                i as int,
            ), sizes@.skip(i as int)),
        decreases events@.len() - i,
    {
        let event = &events[i];
        proof {
            let run = run_from(events@, *stop, i as int);
            assert(all.skip(i as int)[0] == event@);
            assert(all.skip(i as int).skip(1) =~= all.skip(i + 1));
            assert(rest(run, 1) == run_from(events@, *stop, i + 1));
            assert(sizes@.skip(i as int).skip(1) =~= sizes@.skip(i + 1));
            assert(events_view(taken@).len() == i - at);
        }
        let bytes: usize = sizes[i];
        let size: Option<usize> = match bytes.checked_add(b.slot_bytes) {
            None => None,
            Some(n) => n.checked_add(total),
        };
        let fits: bool = match size {
            None => false,
            Some(n) => n <= b.max_bytes,
        };
        if !fits {
            if total == 0 {
                return Err(
                    Error::LimitExceeded {
                        resource: "history batch bytes",
                        limit: b.max_bytes,
                    },
                );
            }
            return Ok((HistoryBatch { events: taken, bytes: total, memory: None }, expected));
        }
        if expected != Some(event.version) {
            return Err(corrupt("gap in cursor history"));
        }
        expected = if event.version == b.last || event.version == u64::MAX {
            None
        } else {
            Some(event.version + 1)
        };
        total = total + bytes + b.slot_bytes;
        let ghost was = taken@;
        taken.push(event.clone());
        proof {
            assert(events_view(taken@) =~= events_view(was).push(event@));
            assert(events_view(taken@).len() == taken@.len());
        }
        i = i + 1;
        if taken.len() >= b.max_events {
            return Ok((HistoryBatch { events: taken, bytes: total, memory: None }, expected));
        }
    }
    proof {
        assert(all.skip(i as int).len() == 0);
        assert(events_view(taken@).len() == taken@.len());
    }
    match stop {
        Stop::Done => {},
        Stop::Damaged => {
            return Err(corrupt("damaged cursor history"));
        },
        Stop::Limited(resource, limit) => {
            return Err(Error::LimitExceeded { resource: *resource, limit: *limit });
        },
    }
    if expected.is_some() {
        return Err(corrupt("truncated cursor history"));
    }
    if taken.len() == 0 {
        return Err(corrupt("empty unfinished history batch"));
    }
    Ok((HistoryBatch { events: taken, bytes: total, memory: None }, expected))
}

/// How far events are read: at most so many, and no further once those that were read, with a
/// slot for each, take more than so many bytes.
#[derive(Clone, Copy, Debug)]
pub struct Reach {
    /// The most events.
    pub most: usize,
    /// The bytes, if they are limited.
    pub cap: Option<usize>,
    /// The bytes of a slot.
    pub slot_bytes: usize,
}

/// The bytes of events with their slots.
pub open spec fn summed(sizes: Seq<usize>, slot_bytes: usize) -> nat
    decreases sizes.len(),
{
    if sizes.len() == 0 {
        0
    } else {
        summed(sizes.drop_last(), slot_bytes) + sizes.last() as nat + slot_bytes as nat
    }
}

/// Whether no event is read behind so many.
pub open spec fn settled(reach: Reach, sizes: Seq<usize>, n: int) -> bool {
    n >= reach.most || (reach.cap matches Some(cap) && summed(sizes.take(n), reach.slot_bytes)
        > cap)
}

/// How many records are looked for, once so many are read: the one that is not there counts.
pub open spec fn reads_from(reach: Reach, events: Seq<EventV>, sizes: Seq<usize>, n: nat) -> nat
    decreases events.len() - n,
{
    if settled(reach, sizes, n as int) || n > events.len() {
        n
    } else if n == events.len() {
        n + 1
    } else {
        reads_from(reach, events, sizes, n + 1)
    }
}

/// How many records are looked for.
pub open spec fn reads(reach: Reach, events: Seq<EventV>, sizes: Seq<usize>) -> nat {
    reads_from(reach, events, sizes, 0)
}

proof fn lemma_reads_least(reach: Reach, events: Seq<EventV>, sizes: Seq<usize>, n: nat)
    ensures
        reads_from(reach, events, sizes, n) >= n,
    decreases events.len() - n,
{
    if !(settled(reach, sizes, n as int) || n >= events.len()) {
        lemma_reads_least(reach, events, sizes, n + 1);
    }
}

proof fn lemma_reads_on(reach: Reach, events: Seq<EventV>, sizes: Seq<usize>, n: nat, k: nat)
    requires
        n <= k <= events.len(),
        forall|j: int| n <= j < k ==> !#[trigger] settled(reach, sizes, j),
    ensures
        reads_from(reach, events, sizes, n) == reads_from(reach, events, sizes, k),
    decreases k - n,
{
    if n < k {
        assert(!settled(reach, sizes, n as int));
        lemma_reads_on(reach, events, sizes, n + 1, k);
    }
}

/// The records that are looked for, told from the first of the sizes.
proof fn lemma_reads(reach: Reach, events: Seq<EventV>, sizes: Seq<usize>, all: Seq<usize>)
    requires
        sizes.len() <= events.len(),
        all.len() == events.len(),
        all.take(sizes.len() as int) == sizes,
        forall|j: int| 0 <= j < sizes.len() ==> !#[trigger] settled(reach, sizes, j),
    ensures
        settled(reach, sizes, sizes.len() as int) ==> reads(reach, events, all) == sizes.len(),
        !settled(reach, sizes, sizes.len() as int) ==> reads(reach, events, all) > sizes.len(),
        !settled(reach, sizes, sizes.len() as int) && sizes.len() == events.len() ==> reads(
            reach,
            events,
            all,
        ) == sizes.len() + 1,
{
    let k = sizes.len();
    assert forall|j: int| 0 <= j <= k implies #[trigger] settled(reach, all, j) == settled(
        reach,
        sizes,
        j,
    ) by {
        assert(all.take(j) =~= sizes.take(j));
    }
    lemma_reads_on(reach, events, all, 0, k);
    if !settled(reach, sizes, k as int) && k < events.len() {
        lemma_reads_least(reach, events, all, k + 1);
    }
}

/// What reading events of a walk comes to.
enum Pulled {
    /// Events, the bytes charged for each, and how they end if they do.
    Read(Vec<Event>, Vec<usize>, Stop),
    /// A part of a file is not in memory.
    Missing(Error),
    /// The question before a record was answered with an error.
    Halted(usize, Error),
}

/// Whether events are the first of a run: all of it, with how it ends, or as many as settle
/// the reading.
pub open spec fn begins(
    run: Run,
    events: Seq<Event>,
    sizes: Seq<usize>,
    stop: Stop,
    reach: Reach,
) -> bool {
    &&& events.len() == sizes.len()
    &&& forall|j: int| 0 <= j < sizes.len() ==> !#[trigger] settled(reach, sizes, j)
    &&& if settled(reach, sizes, sizes.len() as int) {
        events.len() <= run.events.len() && events_view(events) == run.events.take(
            events.len() as int,
        )
    } else {
        run == run_from(events, stop, 0)
    }
}

/// How many questions were asked before records, if all were answered well.
pub open spec fn asked(reach: Reach, sizes: Seq<usize>) -> nat {
    if settled(reach, sizes, sizes.len() as int) {
        sizes.len()
    } else {
        sizes.len() + 1
    }
}

/// Whether the questions up to one, from a first one on, were answered well.
pub open spec fn passed<F: Fn(usize) -> Result<()>>(check: F, first: int, last: int) -> bool {
    forall|n: usize| first <= n <= last ==> #[trigger] call_ensures(check, (n,), Ok(()))
}

/// Reads events of a walk, with the bytes charged for each, as far as they reach. Before each
/// record it is asked whether to go on; the first record has the number 1.
fn pull<F: Fn(usize) -> Result<()>>(
    from: EventWalk<'_>,
    loaded: &Loaded,
    room: &Room,
    reach: &Reach,
    check: &F,
) -> (r: Pulled)
    requires
        from.sound(),
        forall|n: usize| #[trigger] call_requires(*check, (n,)),
    ensures
        match r {
            Pulled::Read(events, sizes, stop) => {
                &&& weighed(events_view(events@), sizes@)
                &&& events@.len() == sizes@.len() <= reach.most
                &&& passed(*check, 1, asked(*reach, sizes@) as int)
                &&& forall|files: Files| #[trigger]
                    loaded.agrees(files) ==> begins(
                        from.remaining(files, *room),
                        events@,
                        sizes@,
                        stop,
                        *reach,
                    )
            },
            Pulled::Missing(e) => e is Unread && lacks(loaded, e) && forall|files: Files| #[trigger]
                loaded.agrees(files) ==> from.asks(files, e),
            Pulled::Halted(n, e) => {
                &&& n > 0 && passed(*check, 1, n - 1)
                &&& call_ensures(*check, (n,), Err(e))
                &&& forall|files: Files| #[trigger]
                    loaded.agrees(files) ==> reaches(
                        *reach,
                        from.remaining(files, *room).events,
                        n as nat,
                    )
            },
        },
{
    let ghost start = from;
    let mut walk = from;
    let mut events: Vec<Event> = Vec::new();
    let mut sizes: Vec<usize> = Vec::new();
    let mut total: usize = 0;
    let mut over: bool = false;
    proof {
        assert(events_view(events@) =~= Seq::empty());
        assert(sizes@.take(0) =~= sizes@);
        assert forall|files: Files| #[trigger] loaded.agrees(files) implies start.remaining(
            files,
            *room,
        ) == prefixed(events_view(events@), walk.remaining(files, *room)) by {
            let run = walk.remaining(files, *room);
            assert(events_view(events@) + run.events =~= run.events);
        }
    }
    while events.len() < reach.most && !over
        invariant
            start == from,
            walk.sound(),
            forall|n: usize| #[trigger] call_requires(*check, (n,)),
            events@.len() == sizes@.len() <= reach.most,
            weighed(events_view(events@), sizes@),
            over == (reach.cap matches Some(cap) && summed(sizes@, reach.slot_bytes) > cap),
            reach.cap is Some && !over ==> total == summed(sizes@, reach.slot_bytes),
            forall|j: int| 0 <= j < sizes@.len() ==> !#[trigger] settled(*reach, sizes@, j),
            passed(*check, 1, sizes@.len() as int),
            forall|files: Files| #[trigger]
                loaded.agrees(files) ==> start.remaining(files, *room) == prefixed(
                    events_view(events@),
                    walk.remaining(files, *room),
                ),
            forall|files: Files, e: Error|
                #![trigger loaded.agrees(files), start.asks(files, e)]
                #![trigger loaded.agrees(files), walk.asks(files, e)]
                loaded.agrees(files) && walk.asks(files, e) ==> start.asks(files, e),
        decreases reach.most - events@.len(),
    {
        let ghost before = walk;
        let n: usize = events.len() + 1;
        assert(sizes@.take(sizes@.len() as int) =~= sizes@);
        assert(!settled(*reach, sizes@, sizes@.len() as int));
        match check(n) {
            Ok(none) => {
                assert(none == ());
                assert(call_ensures(*check, (n,), Ok(())));
            },
            Err(e) => {
                proof {
                    assert forall|files: Files| #[trigger] loaded.agrees(files) implies reaches(
                        *reach,
                        start.remaining(files, *room).events,
                        n as nat,
                    ) by {
                        let run = start.remaining(files, *room);
                        let all = filled(run.events, sizes@);
                        assert(events_view(events@).len() == events@.len());
                        assert(run.events.take(sizes@.len() as int) =~= events_view(events@));
                        lemma_filled(run.events, sizes@);
                        lemma_reads(*reach, run.events, sizes@, all);
                        assert(weighed(run.events, all) && n <= reads(*reach, run.events, all));
                    }
                }
                return Pulled::Halted(n, e);
            },
        }
        match walk.next(loaded, room) {
            None => {
                let stop = Stop::Done;
                proof {
                    assert forall|files: Files| #[trigger] loaded.agrees(files) implies begins(
                        start.remaining(files, *room),
                        events@,
                        sizes@,
                        stop,
                        *reach,
                    ) by {
                        lemma_ended(
                            start.remaining(files, *room),
                            before.remaining(files, *room),
                            events@,
                            stop,
                        );
                    }
                }
                return Pulled::Read(events, sizes, stop);
            },
            Some(Err(e)) => {
                let stop = match e {
                    Error::Unread { file, offset, length } => {
                        return Pulled::Missing(Error::Unread { file, offset, length });
                    },
                    Error::LimitExceeded { resource, limit } => Stop::Limited(resource, limit),
                    _ => Stop::Damaged,
                };
                proof {
                    assert forall|files: Files| #[trigger] loaded.agrees(files) implies begins(
                        start.remaining(files, *room),
                        events@,
                        sizes@,
                        stop,
                        *reach,
                    ) by {
                        lemma_ended(
                            start.remaining(files, *room),
                            before.remaining(files, *room),
                            events@,
                            stop,
                        );
                    }
                }
                return Pulled::Read(events, sizes, stop);
            },
            Some(Ok(event)) => {
                let ghost one = event@;
                let ghost was = events@;
                let ghost held = sizes@;
                let bytes: usize = event_bytes(&event);
                sizes.push(bytes);
                events.push(event);
                match reach.cap {
                    None => {},
                    Some(cap) => {
                        let size: Option<usize> = match bytes.checked_add(reach.slot_bytes) {
                            None => None,
                            Some(size) => size.checked_add(total),
                        };
                        match size {
                            None => {
                                over = true;
                            },
                            Some(size) => {
                                over = size > cap;
                                total = size;
                            },
                        }
                    },
                }
                proof {
                    assert(sizes@.drop_last() =~= held);
                    assert forall|j: int| 0 <= j < sizes@.len() implies !#[trigger] settled(
                        *reach,
                        sizes@,
                        j,
                    ) by {
                        assert(sizes@.take(j) =~= held.take(j));
                        assert(!settled(*reach, held, j));
                    }
                    assert(events_view(events@) =~= events_view(was).push(one));
                    assert forall|files: Files| #[trigger] loaded.agrees(files) implies start.remaining(
                        files,
                        *room,
                    ) == prefixed(events_view(events@), walk.remaining(files, *room)) by {
                        let run = walk.remaining(files, *room);
                        assert(events_view(was) + (seq![one] + run.events) =~= events_view(events@)
                            + run.events);
                    }
                }
            },
        }
    }
    proof {
        assert(events_view(events@).len() == events@.len());
        assert(sizes@.take(sizes@.len() as int) =~= sizes@);
        assert forall|files: Files| #[trigger] loaded.agrees(files) implies begins(
            start.remaining(files, *room),
            events@,
            sizes@,
            Stop::Done,
            *reach,
        ) by {
            let run = start.remaining(files, *room);
            assert(run.events.take(events@.len() as int) =~= events_view(events@));
        }
    }
    Pulled::Read(events, sizes, Stop::Done)
}

/// Whether so many records are looked for, with some charges for the events.
pub open spec fn reaches(reach: Reach, events: Seq<EventV>, n: nat) -> bool {
    exists|sizes: Seq<usize>|
        weighed(events, sizes) && n <= #[trigger] reads(reach, events, sizes)
}

/// Events in front of a run.
spec fn prefixed(a: Seq<EventV>, run: Run) -> Run {
    Run { events: a + run.events, ending: run.ending }
}

proof fn lemma_ended(whole: Run, left: Run, events: Seq<Event>, stop: Stop)
    requires
        whole == prefixed(events_view(events), left),
        left.events.len() == 0,
        left.ending == stop@,
    ensures
        whole == run_from(events, stop, 0),
{
    let all = events_view(events);
    assert(all + left.events =~= all);
    assert(all.skip(0) =~= all);
}

/// What is charged for an event where nothing is allocated beyond what it holds.
spec fn least(e: EventV) -> usize {
    saturated(vstd::layout::size_of::<Accounted<Event>>() + fields_size(e.fields))
}

/// Charges for the first of some events, with the least for the others.
spec fn filled(events: Seq<EventV>, sizes: Seq<usize>) -> Seq<usize> {
    Seq::new(
        events.len(),
        |i: int|
            if i < sizes.len() {
                sizes[i]
            } else {
                least(events[i])
            },
    )
}

proof fn lemma_filled(events: Seq<EventV>, sizes: Seq<usize>)
    requires
        sizes.len() <= events.len(),
        weighed(events.take(sizes.len() as int), sizes),
    ensures
        weighed(events, filled(events, sizes)),
        filled(events, sizes).take(sizes.len() as int) == sizes,
        sizes.len() == events.len() ==> filled(events, sizes) == sizes,
{
    let all = filled(events, sizes);
    assert forall|i: int| 0 <= i < all.len() implies charges(
        events[i].fields,
        vstd::layout::size_of::<Accounted<Event>>(),
        #[trigger] all[i],
    ) by {
        if i < sizes.len() {
            assert(charges(
                events.take(sizes.len() as int)[i].fields,
                vstd::layout::size_of::<Accounted<Event>>(),
                sizes[i],
            ));
        } else {
            assert(spare(events[i].fields, 0));
        }
    }
    assert(all.take(sizes.len() as int) =~= sizes);
    if sizes.len() == events.len() {
        assert(all =~= sizes);
    }
}

proof fn lemma_summed_front(sizes: Seq<usize>, slot_bytes: usize)
    requires
        sizes.len() > 0,
    ensures
        summed(sizes, slot_bytes) == sizes[0] as nat + slot_bytes as nat + summed(
            sizes.skip(1),
            slot_bytes,
        ),
    decreases sizes.len(),
{
    if sizes.len() > 1 {
        lemma_summed_front(sizes.drop_last(), slot_bytes);
        assert(sizes.drop_last().skip(1) =~= sizes.skip(1).drop_last());
    } else {
        assert(sizes.skip(1) =~= Seq::empty());
        assert(sizes.drop_last() =~= Seq::empty());
    }
}

/// A batch looks at no more events than settle it.
proof fn lemma_enough(
    b: Bounds,
    taken: Seq<EventV>,
    total: nat,
    expected: Option<u64>,
    run: Run,
    sizes: Seq<usize>,
    k: int,
    ending: Ending,
)
    requires
        0 < k <= run.events.len(),
        taken.len() + k >= b.max_events || total + summed(sizes.take(k), b.slot_bytes)
            > b.max_bytes,
        sizes.len() == run.events.len(),
    ensures
        batched(b, taken, total, expected, run, sizes) == batched(
            b,
            taken,
            total,
            expected,
            Run { events: run.events.take(k), ending },
            sizes.take(k),
        ),
    decreases k,
{
    let short = Run { events: run.events.take(k), ending };
    assert(short.events[0] == run.events[0]);
    assert(sizes.take(k)[0] == sizes[0]);
    let e = run.events[0];
    let size = sizes[0] as nat + b.slot_bytes as nat;
    lemma_summed_front(sizes.take(k), b.slot_bytes);
    assert(sizes.take(k).skip(1) =~= sizes.skip(1).take(k - 1));
    if total + size <= b.max_bytes && taken.len() + 1 < b.max_events {
        assert(rest(short, 1).events =~= rest(run, 1).events.take(k - 1));
        if k == 1 {
            assert(sizes.skip(1).take(0) =~= Seq::empty());
        }
        lemma_enough(
            b,
            taken.push(e),
            total + size,
            next_in(e.version, b.last),
            rest(run, 1),
            sizes.skip(1),
            k - 1,
            ending,
        );
    }
}

// ---- The cursor ----

/// A place in the history of an entity, over one view.
#[derive(Debug)]
pub struct HistoryCursor {
    table: u64,
    id: u64,
    next: Option<u64>,
    bounds: Bounds,
    cancellation: CancellationToken,
}

/// The first version with an event, if there is one.
pub open spec fn available(base: u64, current: u64) -> Option<u64> {
    if base < current {
        Some((base + 1) as u64)
    } else {
        None
    }
}

/// Whether a version has no event in the retained range.
pub open spec fn unavailable(base: u64, current: u64, requested: u64) -> bool {
    available(base, current) is None || requested < available(base, current).unwrap() || requested
        > current
}

/// The version of a range that was asked for and has no event, the first one if both have none.
pub open spec fn missing(o: HistoryOptions, base: u64, current: u64) -> Option<u64> {
    match o.first_version {
        Some(v) if unavailable(base, current, v) => Some(v),
        _ => match o.last_version {
            Some(v) if unavailable(base, current, v) => Some(v),
            _ => None,
        },
    }
}

/// Where a range starts and ends.
pub open spec fn range_of(o: HistoryOptions, base: u64, current: u64) -> (Option<u64>, u64) {
    (
        match o.first_version {
            Some(v) => Some(v),
            None => available(base, current),
        },
        match o.last_version {
            Some(v) => v,
            None => current,
        },
    )
}

/// The lesser number.
pub open spec fn lesser(a: usize, b: usize) -> usize {
    if a <= b {
        a
    } else {
        b
    }
}

fn is_missing(base: u64, current: u64, requested: Option<u64>) -> (r: bool)
    ensures
        r == (requested is Some && unavailable(base, current, requested.unwrap())),
{
    match requested {
        None => false,
        Some(v) => base >= current || v < base + 1 || v > current,
    }
}

/// How far the events of a batch are read.
pub open spec fn reach_of(b: Bounds) -> Reach {
    Reach {
        most: if b.max_events == 0 {
            1
        } else {
            b.max_events
        },
        cap: Some(b.max_bytes),
        slot_bytes: b.slot_bytes,
    }
}

/// Whether reading a batch comes to a result and leaves a cursor behind, where the questions
/// whether to go on were asked up to the one of a number and the last of them was answered
/// with an error, if there is one. The first question comes before anything is read, and one
/// before each record. The result is a batch and the place behind it, none where there is none
/// to read, or an error. An error ends the reading, unless only a part of a file is not in
/// memory that reading the range needs.
pub open spec fn batch_polled(
    before: HistoryCursor,
    after: HistoryCursor,
    s: StateV,
    loaded: &Loaded,
    room: Room,
    polls: nat,
    failed: Option<Error>,
    r: Result<Option<HistoryBatch>>,
) -> bool {
    let (table, id) = before.of();
    let b = before.limits();
    let reach = reach_of(b);
    match before.upcoming() {
        None => r matches Ok(None) && after.upcoming() is None && failed is None,
        Some(first) => match failed {
            Some(e) => {
                &&& r == Err::<Option<HistoryBatch>, Error>(e)
                &&& after.upcoming() is None
                &&& polls > 0 ==> forall|files: Files| #[trigger]
                    loaded.agrees(files) ==> {
                        let run = state_range(s, files, table, id, first, b.last, room);
                        run is Ok && reaches(reach, run->Ok_0.events, polls)
                    }
            },
            None => match r {
                Ok(None) => false,
                Ok(Some(batch)) => {
                    &&& forall|files: Files| #[trigger]
                        loaded.agrees(files) ==> match state_range(
                            s,
                            files,
                            table,
                            id,
                            first,
                            b.last,
                            room,
                        ) {
                            Err(_) => false,
                            Ok(run) => exists|sizes: Seq<usize>|
                                weighed(run.events, sizes) && reads(reach, run.events, sizes)
                                    == polls && #[trigger] batch_from(b, first, run, sizes)
                                    == Batched::Taken(
                                    batch.taken(),
                                    batch.size() as nat,
                                    after.upcoming(),
                                ),
                        }
                    &&& batch.taken().len() > 0
                    &&& batch.size() <= b.max_bytes
                },
                Err(e) => if e is Unread {
                    &&& after.upcoming() == before.upcoming()
                    &&& lacks(loaded, e) || forall|files: Files| !(#[trigger] loaded.agrees(files))
                    &&& forall|files: Files| #[trigger]
                        loaded.agrees(files) ==> state_range_asks(
                            s,
                            files,
                            table,
                            id,
                            first,
                            b.last,
                            e,
                        )
                } else {
                    &&& after.upcoming() is None
                    &&& forall|files: Files| #[trigger]
                        loaded.agrees(files) ==> match state_range(
                            s,
                            files,
                            table,
                            id,
                            first,
                            b.last,
                            room,
                        ) {
                            Err(f) => reports(e, f) && polls == 0,
                            Ok(run) => exists|sizes: Seq<usize>|
                                weighed(run.events, sizes) && reads(reach, run.events, sizes)
                                    == polls && batch_failed(
                                    b,
                                    #[trigger] batch_from(b, first, run, sizes),
                                    e,
                                ),
                        }
                },
            },
        },
    }
}

/// Whether questions up to the one of a number were answered well, but for the last one where
/// it failed.
pub open spec fn heard<F: Fn(usize) -> Result<()>>(
    check: F,
    polls: nat,
    failed: Option<Error>,
) -> bool {
    match failed {
        None => passed(check, 0, polls as int),
        Some(e) => passed(check, 0, polls - 1) && exists|n: usize|
            n == polls && #[trigger] call_ensures(check, (n,), Err(e)),
    }
}

/// Whether the answers are those of a read that is cancelled at a question, if it is: that
/// question fails, and none before it.
pub open spec fn cancelled_at(cancel: Option<usize>, polls: nat, failed: Option<Error>) -> bool {
    match failed {
        None => cancel matches Some(n) ==> n > polls,
        Some(e) => e is Cancelled && (cancel matches Some(n) && n == polls),
    }
}

/// The room that reading has.
pub open spec fn room_of(resources: Resources) -> Room {
    Room {
        scratch_used: resources.used().scratch_bytes,
        max_scratch: resources.limits.max_scratch_bytes,
        max_record: resources.limits.max_decoded_record_bytes,
    }
}

fn reading_room(resources: &Resources) -> (room: Room)
    ensures
        room == room_of(*resources),
{
    Room {
        scratch_used: resources.usage.scratch_bytes,
        max_scratch: resources.limits.max_scratch_bytes,
        max_record: resources.limits.max_decoded_record_bytes,
    }
}

impl HistoryCursor {
    /// The table and the entity.
    pub closed spec fn of(self) -> (u64, u64) {
        (self.table, self.id)
    }

    /// The version to go on from.
    pub closed spec fn upcoming(self) -> Option<u64> {
        self.next
    }

    /// The limits of a batch.
    pub closed spec fn limits(self) -> Bounds {
        self.bounds
    }

    /// The token that is asked whether a read is cancelled.
    pub closed spec fn token(self) -> CancellationToken {
        self.cancellation
    }

    /// Opens a cursor on an entity whose retained versions reach from `base` to `current`.
    /// Explicit unavailable versions are rejected.
    pub fn open(
        table: u64,
        id: u64,
        options: HistoryOptions,
        cancelled: bool,
        base: u64,
        current: u64,
        max_events: usize,
        max_bytes: usize,
        slot_bytes: usize,
    ) -> (r: Result<HistoryCursor>)
        ensures
            ({
                let range = range_of(options, base, current);
                match r {
                    Ok(c) => {
                        &&& !cancelled
                        &&& options.max_events > 0 && options.max_bytes > 0
                        &&& missing(options, base, current) is None
                        &&& range.0 is Some ==> range.0.unwrap() <= range.1
                        &&& c.of() == (table, id)
                        &&& c.upcoming() == range.0
                        &&& c.token() == options.cancellation
                        &&& c.limits() == (Bounds {
                            last: range.1,
                            max_events: lesser(options.max_events, max_events),
                            max_bytes: lesser(options.max_bytes, max_bytes),
                            slot_bytes,
                        })
                    },
                    Err(e) => if cancelled {
                        e is Cancelled
                    } else if options.max_events == 0 || options.max_bytes == 0 {
                        e is Invalid
                    } else if missing(options, base, current) is Some {
                        e == (Error::VersionUnavailable {
                            requested: missing(options, base, current).unwrap(),
                            first: (if base == u64::MAX {
                                base
                            } else {
                                (base + 1) as u64
                            }),
                            last: current,
                        })
                    } else {
                        e is Invalid && range.0 is Some && range.0.unwrap() > range.1
                    },
                }
            }),
            r is Ok == ({
                &&& !cancelled && options.max_events > 0 && options.max_bytes > 0
                &&& options.first_version matches Some(v) ==> base < v <= current
                &&& options.last_version matches Some(v) ==> base < v <= current
                &&& options.first_version is Some && options.last_version is Some
                    ==> options.first_version.unwrap() <= options.last_version.unwrap()
            }),
            r matches Ok(c) ==> {
                &&& options.first_version is Some ==> c.upcoming() == options.first_version
                &&& options.first_version is None && base < current ==> c.upcoming() == Some(
                    (base + 1) as u64,
                )
                &&& options.first_version is None && base >= current ==> c.upcoming() is None
                &&& options.last_version matches Some(v) ==> c.limits().last == v
                &&& options.last_version is None ==> c.limits().last == current
                &&& c.limits().max_events <= options.max_events && c.limits().max_events
                    <= max_events && (c.limits().max_events == options.max_events
                    || c.limits().max_events == max_events)
                &&& c.limits().max_bytes <= options.max_bytes && c.limits().max_bytes <= max_bytes
                    && (c.limits().max_bytes == options.max_bytes || c.limits().max_bytes
                    == max_bytes)
                &&& c.limits().slot_bytes == slot_bytes
            },
    {
        options.validate(cancelled)?;
        let requested = if is_missing(base, current, options.first_version) {
            options.first_version
        } else if is_missing(base, current, options.last_version) {
            options.last_version
        } else {
            None
        };
        match requested {
            None => {},
            Some(requested) => {
                return Err(
                    Error::VersionUnavailable {
                        requested,
                        first: base.saturating_add(1),
                        last: current,
                    },
                );
            },
        }
        let first = match options.first_version {
            Some(v) => Some(v),
            None => if base < current {
                Some(base + 1)
            } else {
                None
            },
        };
        let last: u64 = match options.last_version {
            Some(v) => v,
            None => current,
        };
        match first {
            None => {},
            Some(first) => {
                if first > last {
                    return Err(invalid("history range is reversed"));
                }
            },
        }
        let bounds = Bounds {
            last,
            max_events: if options.max_events <= max_events {
                options.max_events
            } else {
                max_events
            },
            max_bytes: if options.max_bytes <= max_bytes {
                options.max_bytes
            } else {
                max_bytes
            },
            slot_bytes,
        };
        Ok(HistoryCursor { table, id, next: first, bounds, cancellation: options.cancellation })
    }

    /// Whether there is nothing left to read.
    pub fn finished(&self) -> (r: bool)
        ensures
            r == (self.upcoming() is None),
    {
        self.next.is_none()
    }

    /// Signals cancellation to every holder of the token.
    pub fn cancel(&self) {
        self.cancellation.cancel();
    }

    /// Reads the next bounded batch, with no memory reserved for it. It is asked whether to go
    /// on before anything is read, and before each record.
    pub fn read_batch<F: Fn(usize) -> Result<()>>(
        &mut self,
        state: &ReadState,
        loaded: &Loaded,
        room: &Room,
        check: &F,
    ) -> (r: Result<Option<HistoryBatch>>)
        requires
            old(self).limits().slot_bytes > 0,
            forall|n: usize| #[trigger] call_requires(*check, (n,)),
        ensures
            final(self).of() == old(self).of(),
            final(self).limits() == old(self).limits(),
            final(self).token() == old(self).token(),
            exists|polls: nat, failed: Option<Error>| #[trigger]
                batch_polled(
                    *old(self),
                    *final(self),
                    state@,
                    loaded,
                    *room,
                    polls,
                    failed,
                    r,
                ) && (old(self).upcoming() is Some ==> heard(*check, polls, failed)),
            r matches Ok(Some(batch)) ==> batch.reserved() is None,
    {
        let ghost start = *self;
        let first: u64 = match self.next {
            None => {
                assert(batch_polled(start, *self, state@, loaded, *room, 0, None, Ok(None)));
                return Ok(None);
            },
            Some(first) => first,
        };
        match check(0) {
            Ok(none) => {
                assert(none == ());
                assert(call_ensures(*check, (0usize,), Ok(())));
            },
            Err(e) => {
                self.next = None;
                proof {
                    assert(call_ensures(*check, (0usize,), Err(e)));
                    assert(heard(*check, 0, Some(e)));
                    assert(batch_polled(
                        start,
                        *self,
                        state@,
                        loaded,
                        *room,
                        0,
                        Some(e),
                        Err(e),
                    ));
                }
                return Err(e);
            },
        }
        let reach = Reach {
            most: if self.bounds.max_events == 0 {
                1
            } else {
                self.bounds.max_events
            },
            cap: Some(self.bounds.max_bytes),
            slot_bytes: self.bounds.slot_bytes,
        };
        let fetched = self.fetch(state, loaded, room, first, &reach, check);
        let (events, sizes, stop) = match fetched {
            Ok(Pulled::Read(events, sizes, stop)) => (events, sizes, stop),
            Ok(Pulled::Halted(n, e)) => {
                self.next = None;
                proof {
                    assert(heard(*check, n as nat, Some(e)));
                    assert(batch_polled(
                        start,
                        *self,
                        state@,
                        loaded,
                        *room,
                        n as nat,
                        Some(e),
                        Err(e),
                    ));
                }
                return Err(e);
            },
            Ok(Pulled::Missing(e)) => {
                assert(batch_polled(start, *self, state@, loaded, *room, 0, None, Err(e)));
                return Err(e);
            },
            Err(e) => {
                let again: bool = match &e {
                    Error::Unread { .. } => true,
                    _ => false,
                };
                if !again {
                    self.next = None;
                }
                assert(batch_polled(start, *self, state@, loaded, *room, 0, None, Err(e)));
                return Err(e);
            },
        };
        let ghost b = self.bounds;
        let ghost x = batch_from(b, first, run_from(events@, stop, 0), sizes@.skip(0));
        let ghost polls = asked(reach, sizes@);
        proof {
            assert(sizes@.skip(0) =~= sizes@);
            assert(events_view(events@).len() == events@.len());
            assert(heard(*check, polls, None));
            assert forall|files: Files| #[trigger] loaded.agrees(files) implies ({
                let run = state_range(state@, files, self.table, self.id, first, b.last, *room);
                run is Ok && weighed(run->Ok_0.events, filled(run->Ok_0.events, sizes@)) && reads(
                    reach,
                    run->Ok_0.events,
                    filled(run->Ok_0.events, sizes@),
                ) == polls && batch_from(
                    b,
                    first,
                    run->Ok_0,
                    filled(run->Ok_0.events, sizes@),
                ) == x
            }) by {
                let run = state_range(
                    state@,
                    files,
                    self.table,
                    self.id,
                    first,
                    b.last,
                    *room,
                )->Ok_0;
                let k = sizes@.len() as int;
                assert(events_view(events@).skip(0) =~= events_view(events@));
                if settled(reach, sizes@, k) {
                    assert(sizes@.take(k) =~= sizes@);
                    if k == 0 {
                        assert(sizes@ =~= Seq::empty());
                    }
                    lemma_filled(run.events, sizes@);
                    lemma_enough(
                        b,
                        Seq::empty(),
                        0,
                        Some(first),
                        run,
                        filled(run.events, sizes@),
                        k,
                        stop@,
                    );
                } else {
                    assert(run.events.take(k) =~= run.events);
                    lemma_filled(run.events, sizes@);
                }
                lemma_reads(reach, run.events, sizes@, filled(run.events, sizes@));
            }
        }
        match take_batch(&self.bounds, first, &events, &sizes, 0, &stop) {
            Ok((batch, next)) => {
                self.next = next;
                proof {
                    assert(batch_polled(
                        start,
                        *self,
                        state@,
                        loaded,
                        *room,
                        polls,
                        None,
                        Ok(Some(batch)),
                    ));
                }
                Ok(Some(batch))
            },
            Err(e) => {
                self.next = None;
                proof {
                    lemma_limited(
                        b,
                        Seq::empty(),
                        0,
                        Some(first),
                        run_from(events@, stop, 0),
                        sizes@.skip(0),
                    );
                    assert(batch_polled(
                        start,
                        *self,
                        state@,
                        loaded,
                        *room,
                        polls,
                        None,
                        Err(e),
                    ));
                }
                Err(e)
            },
        }
    }

    /// Reads events of the range, as far as they reach.
    fn fetch<F: Fn(usize) -> Result<()>>(
        &self,
        state: &ReadState,
        loaded: &Loaded,
        room: &Room,
        first: u64,
        reach: &Reach,
        check: &F,
    ) -> (r: Result<Pulled>)
        requires
            forall|n: usize| #[trigger] call_requires(*check, (n,)),
        ensures
            match r {
                Ok(Pulled::Read(events, sizes, stop)) => {
                    &&& weighed(events_view(events@), sizes@)
                    &&& events@.len() == sizes@.len() <= reach.most
                    &&& passed(*check, 1, asked(*reach, sizes@) as int)
                    &&& forall|files: Files| #[trigger]
                        loaded.agrees(files) ==> {
                            let run = state_range(
                                state@,
                                files,
                                self.of().0,
                                self.of().1,
                                first,
                                self.limits().last,
                                *room,
                            );
                            run is Ok && begins(run->Ok_0, events@, sizes@, stop, *reach)
                        }
                },
                Ok(Pulled::Halted(n, e)) => {
                    &&& n > 0 && passed(*check, 1, n - 1)
                    &&& call_ensures(*check, (n,), Err(e))
                    &&& forall|files: Files| #[trigger]
                        loaded.agrees(files) ==> {
                            let run = state_range(
                                state@,
                                files,
                                self.of().0,
                                self.of().1,
                                first,
                                self.limits().last,
                                *room,
                            );
                            run is Ok && reaches(*reach, run->Ok_0.events, n as nat)
                        }
                },
                Ok(Pulled::Missing(e)) => e is Unread && lacks(loaded, e) && forall|files: Files|
                    #[trigger]
                    loaded.agrees(files) ==> state_range_asks(
                        state@,
                        files,
                        self.of().0,
                        self.of().1,
                        first,
                        self.limits().last,
                        e,
                    ),
                Err(e) => if e is Unread {
                    &&& lacks(loaded, e) || forall|files: Files| !(#[trigger] loaded.agrees(files))
                    &&& forall|files: Files| #[trigger]
                        loaded.agrees(files) ==> state_range_asks(
                            state@,
                            files,
                            self.of().0,
                            self.of().1,
                            first,
                            self.limits().last,
                            e,
                        )
                } else {
                    forall|files: Files| #[trigger]
                        loaded.agrees(files) ==> {
                            let run = state_range(
                                state@,
                                files,
                                self.of().0,
                                self.of().1,
                                first,
                                self.limits().last,
                                *room,
                            );
                            run is Err && reports(e, run->Err_0)
                        }
                },
            },
    {
        state.ready()?;
        let data = match state.load(loaded, self.table, self.id)? {
            None => {
                return Err(Error::NotFound(label("entity ", self.id)));
            },
            Some(data) => data,
        };
        let walk = walk_events(&data, first, self.bounds.last);
        Ok(pull(walk, loaded, room, reach, check))
    }

    /// Reads the next bounded batch and reserves memory for it. After an error or completion
    /// there is none; where only a part of a file is not in memory the cursor stays where it is.
    /// Whether the read is cancelled is asked of the shared token, before anything is read and
    /// before each record.
    pub fn next_batch(
        &mut self,
        state: &ReadState,
        loaded: &Loaded,
        resources: &mut Resources,
    ) -> (r: Result<Option<HistoryBatch>>)
        requires
            old(self).limits().slot_bytes > 0,
        ensures
            final(self).of() == old(self).of(),
            final(self).limits() == old(self).limits(),
            final(self).token() == old(self).token(),
            final(resources).limits == old(resources).limits,
            exists|polls: nat, failed: Option<Error>| #[trigger]
                batch_reserved(
                    *old(self),
                    *final(self),
                    state@,
                    loaded,
                    *old(resources),
                    final(resources).used(),
                    polls,
                    failed,
                    r,
                ) && (failed matches Some(e) ==> e is Cancelled),
    {
        let token = self.cancellation.clone();
        let check = |n: usize| -> (r: Result<()>)
            ensures
                r matches Err(e) ==> e is Cancelled,
            { token.check() };
        self.reserve_batch(state, loaded, resources, &check)
    }

    /// Reads the next bounded batch and reserves memory for it. The read is cancelled at the
    /// question of a number, if at any.
    pub fn reserve_batch_unless(
        &mut self,
        state: &ReadState,
        loaded: &Loaded,
        resources: &mut Resources,
        cancel: Option<usize>,
    ) -> (r: Result<Option<HistoryBatch>>)
        requires
            old(self).limits().slot_bytes > 0,
        ensures
            final(self).of() == old(self).of(),
            final(self).limits() == old(self).limits(),
            final(self).token() == old(self).token(),
            final(resources).limits == old(resources).limits,
            exists|polls: nat, failed: Option<Error>| #[trigger]
                batch_reserved(
                    *old(self),
                    *final(self),
                    state@,
                    loaded,
                    *old(resources),
                    final(resources).used(),
                    polls,
                    failed,
                    r,
                ) && (old(self).upcoming() is Some ==> cancelled_at(cancel, polls, failed)),
    {
        let check = |n: usize| -> (r: Result<()>)
            ensures
                match r {
                    Ok(_) => cancel != Some(n),
                    Err(e) => cancel == Some(n) && e is Cancelled,
                },
            { check_cancelled(cancel == Some(n)) };
        let ghost start = *self;
        let ghost had = *resources;
        let r = self.reserve_batch(state, loaded, resources, &check);
        proof {
            let (polls, failed) = choose|polls: nat, failed: Option<Error>| #[trigger]
                batch_reserved(
                    start,
                    *self,
                    state@,
                    loaded,
                    had,
                    resources.used(),
                    polls,
                    failed,
                    r,
                ) && (start.upcoming() is Some ==> heard(check, polls, failed));
            if start.upcoming() is Some {
                if failed is None {
                    if let Some(n) = cancel {
                        if n <= polls {
                            assert(call_ensures(check, (n,), Ok(())));
                        }
                    }
                }
                assert(cancelled_at(cancel, polls, failed));
            }
        }
        r
    }

    /// Reads the next bounded batch and reserves memory for it. It is asked whether to go on
    /// before anything is read, and before each record.
    pub fn reserve_batch<F: Fn(usize) -> Result<()>>(
        &mut self,
        state: &ReadState,
        loaded: &Loaded,
        resources: &mut Resources,
        check: &F,
    ) -> (r: Result<Option<HistoryBatch>>)
        requires
            old(self).limits().slot_bytes > 0,
            forall|n: usize| #[trigger] call_requires(*check, (n,)),
        ensures
            final(self).of() == old(self).of(),
            final(self).limits() == old(self).limits(),
            final(self).token() == old(self).token(),
            final(resources).limits == old(resources).limits,
            exists|polls: nat, failed: Option<Error>| #[trigger]
                batch_reserved(
                    *old(self),
                    *final(self),
                    state@,
                    loaded,
                    *old(resources),
                    final(resources).used(),
                    polls,
                    failed,
                    r,
                ) && (old(self).upcoming() is Some ==> heard(*check, polls, failed)),
    {
        let ghost before = *self;
        let ghost had = *resources;
        let room = reading_room(resources);
        let read = self.read_batch(state, loaded, &room, check);
        let ghost mid = *self;
        let ghost (polls, failed) = choose|polls: nat, failed: Option<Error>| #[trigger]
            batch_polled(before, mid, state@, loaded, room, polls, failed, read) && (
            before.upcoming() is Some ==> heard(*check, polls, failed));
        assert(batch_polled(before, mid, state@, loaded, room, polls, failed, read));
        let mut batch = match read {
            Err(e) => {
                assert(batch_reserved(
                    before,
                    *self,
                    state@,
                    loaded,
                    had,
                    resources.used(),
                    polls,
                    failed,
                    Err(e),
                ));
                return Err(e);
            },
            Ok(None) => {
                assert(batch_reserved(
                    before,
                    *self,
                    state@,
                    loaded,
                    had,
                    resources.used(),
                    polls,
                    failed,
                    Ok(None),
                ));
                return Ok(None);
            },
            Ok(Some(batch)) => batch,
        };
        let ghost plain = batch;
        match resources.memory(MemoryKind::Read, batch.bytes, false) {
            Ok(memory) => {
                batch.memory = Some(memory);
                proof {
                    assert(batch_polled(
                        before,
                        mid,
                        state@,
                        loaded,
                        room,
                        polls,
                        failed,
                        Ok(Some(batch)),
                    ));
                    assert(batch_reserved(
                        before,
                        *self,
                        state@,
                        loaded,
                        had,
                        resources.used(),
                        polls,
                        failed,
                        Ok(Some(batch)),
                    ));
                }
                Ok(Some(batch))
            },
            Err(e) => {
                self.next = None;
                proof {
                    assert(batch_polled(
                        before,
                        mid,
                        state@,
                        loaded,
                        room,
                        polls,
                        failed,
                        Ok(Some(plain)),
                    ));
                    assert(batch_reserved(
                        before,
                        *self,
                        state@,
                        loaded,
                        had,
                        resources.used(),
                        polls,
                        failed,
                        Err(e),
                    ));
                }
                Err(e)
            },
        }
    }
}

/// Whether a batch was read and memory reserved for it, or not for a reason.
pub open spec fn batch_reserved(
    before: HistoryCursor,
    after: HistoryCursor,
    s: StateV,
    loaded: &Loaded,
    resources: Resources,
    used: crate::resources::ResourceUsage,
    polls: nat,
    failed: Option<Error>,
    r: Result<Option<HistoryBatch>>,
) -> bool {
    let room = room_of(resources);
    let limit = resources.limits.max_read_memory_bytes;
    match r {
        Ok(None) => batch_polled(before, after, s, loaded, room, polls, failed, r) && used
            == resources.used(),
        Ok(Some(batch)) => {
            &&& batch_polled(before, after, s, loaded, room, polls, failed, r)
            &&& resources.used().read_memory_bytes + batch.size() <= limit
            &&& batch.reserved() == Some(
                MemoryReservation { kind: MemoryKind::Read, bytes: batch.size() },
            )
            &&& used == charged(resources.used(), Charge::Read(batch.size()))
        },
        Err(e) => used == resources.used() && (batch_polled(
            before,
            after,
            s,
            loaded,
            room,
            polls,
            failed,
            r,
        ) || unreserved(
            before,
            after,
            s,
            loaded,
            room,
            polls,
            failed,
            resources.used().read_memory_bytes,
            limit,
            e,
        )),
    }
}

/// Whether an error tells that a batch was read for which no memory is left.
pub open spec fn unreserved(
    before: HistoryCursor,
    after: HistoryCursor,
    s: StateV,
    loaded: &Loaded,
    room: Room,
    polls: nat,
    failed: Option<Error>,
    used: usize,
    limit: usize,
    e: Error,
) -> bool {
    &&& after.upcoming() is None
    &&& e == (Error::LimitExceeded { resource: "decoded read bytes", limit })
    &&& exists|read: HistoryCursor, batch: HistoryBatch| #[trigger]
        batch_polled(before, read, s, loaded, room, polls, failed, Ok(Some(batch))) && used
            + batch.size() > limit
}

/// Only the end of the events can exceed a limit.
proof fn lemma_limited(
    b: Bounds,
    taken: Seq<EventV>,
    total: nat,
    expected: Option<u64>,
    run: Run,
    sizes: Seq<usize>,
)
    ensures
        batched(b, taken, total, expected, run, sizes) matches Batched::Limited(e) ==> run.ending
            == Ending::Limited(e),
    decreases run.events.len(),
{
    if run.events.len() > 0 {
        let e = run.events[0];
        lemma_limited(
            b,
            taken.push(e),
            total + sizes[0] as nat + b.slot_bytes as nat,
            next_in(e.version, b.last),
            rest(run, 1),
            sizes.skip(1),
        );
    }
}

// ---- The whole range ----

/// What collecting events batch after batch comes to.
pub enum Collected {
    /// So many of the events, of a size.
    Done(nat, nat),
    /// A limit is exceeded.
    Limited(Error),
    /// The history has a gap, is damaged or ends early.
    Damaged,
}

/// The error for a result that is too large.
pub open spec fn result_limit(limits: Limits) -> Error {
    Error::LimitExceeded { resource: "read result bytes", limit: limits.max_read_result_bytes }
}

/// The error for more memory than reads may take.
pub open spec fn memory_limit(limits: Limits) -> Error {
    Error::LimitExceeded { resource: "decoded read bytes", limit: limits.max_read_memory_bytes }
}

/// The limits of the next batch of a result.
pub open spec fn next_bounds(b: Bounds, limits: Limits, bytes: nat) -> Bounds {
    let remaining = limits.max_read_result_bytes - bytes;
    Bounds {
        max_bytes: (if remaining <= limits.max_history_batch_bytes {
            remaining as usize
        } else {
            limits.max_history_batch_bytes
        }),
        ..b
    }
}

/// What collecting the rest of a range comes to, from a version on, with so many events of a
/// size collected and so much memory in use.
pub open spec fn collected(
    b: Bounds,
    next: Option<u64>,
    run: Run,
    sizes: Seq<usize>,
    count: nat,
    bytes: nat,
    limits: Limits,
    used: usize,
) -> Collected
    decreases run.events.len(),
{
    match next {
        None => Collected::Done(count, bytes),
        Some(first) => if bytes >= limits.max_read_result_bytes {
            Collected::Limited(result_limit(limits))
        } else {
            match batch_from(next_bounds(b, limits, bytes), first, run, sizes) {
                Batched::TooLarge => Collected::Limited(
                    if limits.max_read_result_bytes - bytes <= limits.max_history_batch_bytes {
                        result_limit(limits)
                    } else {
                        Error::LimitExceeded {
                            resource: "history batch bytes",
                            limit: limits.max_history_batch_bytes,
                        }
                    },
                ),
                Batched::Damaged => Collected::Damaged,
                Batched::Limited(e) => Collected::Limited(e),
                Batched::Taken(t, n, next) => if used + bytes + n > limits.max_read_memory_bytes {
                    Collected::Limited(memory_limit(limits))
                } else if 0 < t.len() <= run.events.len() {
                    collected(
                        b,
                        next,
                        rest(run, t.len() as int),
                        sizes.skip(t.len() as int),
                        count + t.len(),
                        bytes + n,
                        limits,
                        used,
                    )
                } else {
                    Collected::Damaged
                },
            }
        },
    }
}

/// The bytes of the slots of a result.
pub open spec fn slots_size(count: nat) -> nat {
    count * (vstd::layout::size_of::<Event>() + vstd::layout::size_of::<
        Option<MemoryReservation>,
    >())
}

/// What collecting a range comes to: the events, and room for the slots of the result.
pub open spec fn collection(
    b: Bounds,
    next: Option<u64>,
    run: Run,
    sizes: Seq<usize>,
    limits: Limits,
    used: usize,
) -> Collected {
    match collected(b, next, run, sizes, 0, 0, limits, used) {
        Collected::Done(count, bytes) => if slots_size(count) > usize::MAX {
            Collected::Damaged
        } else if used + bytes + slots_size(count) > limits.max_read_memory_bytes {
            Collected::Limited(memory_limit(limits))
        } else {
            Collected::Done(count, bytes)
        },
        x => x,
    }
}

/// Whether an error tells what collecting came to.
pub open spec fn collect_failed(x: Collected, e: Error) -> bool {
    match x {
        Collected::Done(_, _) => false,
        Collected::Limited(limit) => e == limit,
        Collected::Damaged => e is Corrupt,
    }
}

fn exceeded(resource: &'static str, limit: usize) -> (e: Error)
    ensures
        e == (Error::LimitExceeded { resource, limit }),
{
    Error::LimitExceeded { resource, limit }
}

/// Collects events of a range batch after batch, with the bytes charged for each, within the
/// bytes that a result may take and the memory that reads may take.
pub fn collect_sized(
    b: &Bounds,
    next: Option<u64>,
    events: &Vec<Event>,
    sizes: &Vec<usize>,
    stop: &Stop,
    limits: &Limits,
    used: usize,
) -> (r: Result<Vec<Event>>)
    requires
        b.slot_bytes > 0,
        sizes@.len() == events@.len(),
    ensures
        ({
            let x = collection(*b, next, run_from(events@, *stop, 0), sizes@, *limits, used);
            match r {
                Ok(out) => x is Done && x->Done_0 <= events@.len() && events_view(out@)
                    == events_view(events@).take(x->Done_0 as int),
                Err(e) => collect_failed(x, e) && !(e is Unread),
            }
        }),
{
    let ghost all = events_view(events@);
    let ghost whole = collected(*b, next, run_from(events@, *stop, 0), sizes@, 0, 0, *limits, used);
    let mut at: usize = 0;
    let mut bytes: usize = 0;
    let mut out: Vec<Event> = Vec::new();
    let mut upcoming: Option<u64> = next;
    proof {
        assert(sizes@.skip(0) =~= sizes@);
        assert(events_view(out@) =~= all.take(0));
    }
    loop
        invariant
            b.slot_bytes > 0,
            sizes@.len() == events@.len(),
            at <= events@.len(),
            bytes <= limits.max_read_result_bytes,
            all == events_view(events@),
            whole == collected(*b, next, run_from(events@, *stop, 0), sizes@, 0, 0, *limits, used),
            whole == collected(*b, upcoming, run_from(events@, *stop, at as int), sizes@.skip(
                at as int,
            ), at as nat, bytes as nat, *limits, used),
            events_view(out@) == all.take(at as int),
            bytes == 0 || used + bytes <= limits.max_read_memory_bytes,
        ensures
            at <= events@.len(),
            events_view(out@) == all.take(at as int),
            whole == Collected::Done(at as nat, bytes as nat),
            bytes == 0 || used + bytes <= limits.max_read_memory_bytes,
        decreases events@.len() - at,
    {
        let first: u64 = match upcoming {
            None => {
                break;
            },
            Some(first) => first,
        };
        let remaining: usize = limits.max_read_result_bytes - bytes;
        if remaining == 0 {
            return Err(exceeded("read result bytes", limits.max_read_result_bytes));
        }
        let now = Bounds {
            last: b.last,
            max_events: b.max_events,
            max_bytes: if remaining <= limits.max_history_batch_bytes {
                remaining
            } else {
                limits.max_history_batch_bytes
            },
            slot_bytes: b.slot_bytes,
        };
        let ghost run = run_from(events@, *stop, at as int);
        let ghost x = batch_from(now, first, run, sizes@.skip(at as int));
        match take_batch(&now, first, events, sizes, at, stop) {
            Err(e) => {
                proof {
                    lemma_limited(now, Seq::empty(), 0, Some(first), run, sizes@.skip(at as int));
                }
                let small: bool = match &e {
                    Error::LimitExceeded { .. } => at_batch_limit(
                        &now,
                        events,
                        sizes,
                        at,
                    ),
                    _ => false,
                };
                proof {
                    lemma_too_large(now, first, run, sizes@.skip(at as int));
                }
                if small && remaining <= limits.max_history_batch_bytes {
                    return Err(exceeded("read result bytes", limits.max_read_result_bytes));
                }
                return Err(e);
            },
            Ok((batch, after)) => {
                let n: usize = batch.bytes;
                let fits: bool = match used.checked_add(bytes) {
                    None => false,
                    Some(held) => match held.checked_add(n) {
                        None => false,
                        Some(held) => held <= limits.max_read_memory_bytes,
                    },
                };
                if !fits {
                    return Err(exceeded("decoded read bytes", limits.max_read_memory_bytes));
                }
                let mut more = batch.events;
                let count: usize = more.len();
                let ghost t = events_view(more@);
                proof {
                    assert(t.len() == count);
                    let k = lemma_prefix(
                        now,
                        Seq::empty(),
                        0,
                        Some(first),
                        run,
                        sizes@.skip(at as int),
                    );
                    assert(t =~= all.skip(at as int).take(k));
                    assert(all.take(at as int) + t =~= all.take(at + count));
                    assert(all.skip(at as int).skip(count as int) =~= all.skip(at + count));
                    assert(rest(run, count as int) == run_from(events@, *stop, at + count));
                    assert(sizes@.skip(at as int).skip(count as int) =~= sizes@.skip(at + count));
                }
                let end: usize = events.len();
                assert(at + count <= end);
                let ghost was = out@;
                let ghost added = more@;
                out.append(&mut more);
                assert(events_view(out@) =~= events_view(was) + events_view(added));
                at = at + count;
                bytes = bytes + n;
                upcoming = after;
            },
        }
    }
    let ghost (x, y) = (
        vstd::layout::size_of::<Event>(),
        vstd::layout::size_of::<Option<MemoryReservation>>(),
    );
    let slots = at.checked_mul(std::mem::size_of::<Event>());
    let owners = at.checked_mul(std::mem::size_of::<Option<MemoryReservation>>());
    assert(at * (x + y) == at * x + at * y) by (nonlinear_arith);
    let size: Option<usize> = match (slots, owners) {
        (Some(slots), Some(owners)) => slots.checked_add(owners),
        _ => None,
    };
    let size: usize = match size {
        None => {
            return Err(corrupt("read result size overflow"));
        },
        Some(size) => size,
    };
    let fits: bool = match used.checked_add(bytes) {
        None => false,
        Some(held) => match held.checked_add(size) {
            None => false,
            Some(held) => held <= limits.max_read_memory_bytes,
        },
    };
    if !fits {
        return Err(exceeded("decoded read bytes", limits.max_read_memory_bytes));
    }
    Ok(out)
}

/// Whether the first event does not fit a batch.
fn at_batch_limit(b: &Bounds, events: &Vec<Event>, sizes: &Vec<usize>, at: usize) -> (r: bool)
    requires
        sizes@.len() == events@.len(),
        at <= events@.len(),
    ensures
        r == (at < events@.len() && sizes@[at as int] + b.slot_bytes > b.max_bytes),
{
    if at == events.len() {
        return false;
    }
    match sizes[at].checked_add(b.slot_bytes) {
        None => true,
        Some(n) => n > b.max_bytes,
    }
}

/// A batch is too large exactly where its first event is.
proof fn lemma_too_large(b: Bounds, first: u64, run: Run, sizes: Seq<usize>)
    requires
        b.slot_bytes > 0,
    ensures
        (batch_from(b, first, run, sizes) is TooLarge) == (run.events.len() > 0 && sizes[0]
            + b.slot_bytes > b.max_bytes),
{
    if run.events.len() > 0 {
        lemma_not_too_large(
            b,
            Seq::empty().push(run.events[0]),
            sizes[0] as nat + b.slot_bytes as nat,
            next_in(run.events[0].version, b.last),
            rest(run, 1),
            sizes.skip(1),
        );
    }
}

proof fn lemma_not_too_large(
    b: Bounds,
    taken: Seq<EventV>,
    total: nat,
    expected: Option<u64>,
    run: Run,
    sizes: Seq<usize>,
)
    requires
        total > 0,
    ensures
        !(batched(b, taken, total, expected, run, sizes) is TooLarge),
    decreases run.events.len(),
{
    if run.events.len() > 0 {
        lemma_not_too_large(
            b,
            taken.push(run.events[0]),
            total + sizes[0] as nat + b.slot_bytes as nat,
            next_in(run.events[0].version, b.last),
            rest(run, 1),
            sizes.skip(1),
        );
    }
}

/// Whether an event is followed by the one of the next version.
spec fn linked(last: u64, events: Seq<EventV>, i: int) -> bool {
    next_in(events[i].version, last) == Some(events[i + 1].version)
}

proof fn lemma_prefix(
    b: Bounds,
    taken: Seq<EventV>,
    total: nat,
    expected: Option<u64>,
    run: Run,
    sizes: Seq<usize>,
) -> (k: int)
    requires
        b.slot_bytes > 0,
        total == 0 <==> taken.len() == 0,
        sizes.len() == run.events.len(),
        batched(b, taken, total, expected, run, sizes) is Taken,
    ensures
        ({
            let events = run.events;
            let x = batched(b, taken, total, expected, run, sizes);
            &&& 0 <= k <= events.len()
            &&& x->Taken_0 == taken + events.take(k)
            &&& k + taken.len() > 0
            &&& k == 0 ==> x->Taken_2 == expected
            &&& k > 0 ==> x->Taken_2 == next_in(events[k - 1].version, b.last) && expected == Some(
                events[0].version,
            )
        }),
        forall|i: int| 0 <= i < k - 1 ==> #[trigger] linked(b.last, run.events, i),
    decreases run.events.len(),
{
    let events = run.events;
    if events.len() == 0 {
        assert(taken + events.take(0) =~= taken);
        0
    } else {
        let e = events[0];
        let size = sizes[0] as nat + b.slot_bytes as nat;
        if total + size > b.max_bytes {
            assert(taken + events.take(0) =~= taken);
            0
        } else if taken.len() + 1 < b.max_events {
            let k = lemma_prefix(
                b,
                taken.push(e),
                total + size,
                next_in(e.version, b.last),
                rest(run, 1),
                sizes.skip(1),
            );
            assert(taken.push(e) + events.skip(1).take(k) =~= taken + events.take(k + 1));
            assert forall|i: int| 0 <= i < k implies #[trigger] linked(b.last, events, i) by {
                assert(events[i + 1] == events.skip(1)[i]);
                if i > 0 {
                    assert(linked(b.last, events.skip(1), i - 1));
                    assert(events[i] == events.skip(1)[i - 1]);
                }
            }
            k + 1
        } else {
            assert(taken.push(e) =~= taken + events.take(1));
            1
        }
    }
}

proof fn lemma_versions(last: u64, first: u64, events: Seq<EventV>, k: int, i: int)
    requires
        0 <= i < k <= events.len(),
        events[0].version == first,
        forall|i: int| 0 <= i < k - 1 ==> #[trigger] linked(last, events, i),
    ensures
        events[i].version == first + i,
    decreases i,
{
    if i > 0 {
        lemma_versions(last, first, events, k, i - 1);
        assert(linked(last, events, i - 1));
    }
}

/// A batch takes the first events of its range, at least one, with the versions from the first
/// on without a gap; what is left starts at the version behind them, and nothing is left once
/// the last version is taken.
pub proof fn lemma_batches(b: Bounds, first: u64, run: Run, sizes: Seq<usize>)
    requires
        b.slot_bytes > 0,
        sizes.len() == run.events.len(),
        batch_from(b, first, run, sizes) is Taken,
    ensures
        ({
            let x = batch_from(b, first, run, sizes);
            let t = x->Taken_0;
            &&& 0 < t.len() <= run.events.len()
            &&& t == run.events.take(t.len() as int)
            &&& forall|i: int| 0 <= i < t.len() ==> (#[trigger] t[i]).version == first + i
            &&& x->Taken_2 == next_in(t.last().version, b.last)
            &&& x->Taken_2 matches Some(next) ==> next == first + t.len()
        }),
{
    let x = batch_from(b, first, run, sizes);
    let t = x->Taken_0;
    let k = lemma_prefix(b, Seq::empty(), 0, Some(first), run, sizes);
    assert(t =~= run.events.take(k));
    assert forall|i: int| 0 <= i < t.len() implies (#[trigger] t[i]).version == first + i by {
        lemma_versions(b.last, first, run.events, k, i);
    }
    assert(t.last() == run.events[k - 1]);
}

/// Whether events are those of the versions of a range, one each, and end there.
pub open spec fn dense(run: Run, first: u64, last: u64) -> bool {
    &&& first <= last
    &&& run.ending is Done
    &&& run.events.len() == last - first + 1
    &&& forall|i: int| 0 <= i < run.events.len() ==> (#[trigger] run.events[i]).version == first + i
}

proof fn lemma_no_damage(
    b: Bounds,
    taken: Seq<EventV>,
    total: nat,
    expected: Option<u64>,
    run: Run,
    sizes: Seq<usize>,
)
    requires
        match expected {
            Some(v) => dense(run, v, b.last),
            None => run.events.len() == 0 && run.ending is Done && taken.len() > 0,
        },
    ensures
        batched(b, taken, total, expected, run, sizes) is Taken || batched(
            b,
            taken,
            total,
            expected,
            run,
            sizes,
        ) is TooLarge,
    decreases run.events.len(),
{
    if run.events.len() > 0 {
        let e = run.events[0];
        let next = next_in(e.version, b.last);
        if next is Some {
            assert forall|i: int| 0 <= i < rest(run, 1).events.len() implies (
            #[trigger] rest(run, 1).events[i]).version == next.unwrap() + i by {
                assert(rest(run, 1).events[i] == run.events[i + 1]);
            }
        }
        lemma_no_damage(
            b,
            taken.push(e),
            total + sizes[0] as nat + b.slot_bytes as nat,
            next,
            rest(run, 1),
            sizes.skip(1),
        );
    }
}

/// A range with every version is handed out: its next batch is taken, unless its first event
/// alone is too large.
pub proof fn lemma_undamaged(b: Bounds, first: u64, run: Run, sizes: Seq<usize>)
    requires
        b.slot_bytes > 0,
        dense(run, first, b.last),
    ensures
        batch_from(b, first, run, sizes) is Taken == (sizes[0] + b.slot_bytes <= b.max_bytes),
{
    lemma_no_damage(b, Seq::empty(), 0, Some(first), run, sizes);
    lemma_too_large(b, first, run, sizes);
}

/// Successive batches hand out a range with every version in order, each event once: what is
/// left behind a batch is again such a range, from the version behind it on.
pub proof fn lemma_successive(b: Bounds, first: u64, run: Run, sizes: Seq<usize>)
    requires
        b.slot_bytes > 0,
        dense(run, first, b.last),
        sizes.len() == run.events.len(),
        batch_from(b, first, run, sizes) is Taken,
    ensures
        ({
            let x = batch_from(b, first, run, sizes);
            let n = x->Taken_0.len() as int;
            match x->Taken_2 {
                Some(next) => dense(rest(run, n), next, b.last),
                None => rest(run, n).events.len() == 0,
            }
        }),
{
    lemma_batches(b, first, run, sizes);
    let x = batch_from(b, first, run, sizes);
    let t = x->Taken_0;
    let n = t.len() as int;
    assert(t.last() == run.events[n - 1]);
    assert forall|i: int| 0 <= i < rest(run, n).events.len() implies (
    #[trigger] rest(run, n).events[i]).version == first + n + i by {
        assert(rest(run, n).events[i] == run.events[n + i]);
    }
}

impl HistoryCursor {
    /// Reads what is left of the range, batch after batch, within the bytes that a result may
    /// take. Where a part of a file is not in memory nothing is handed out. Whether the read is
    /// cancelled is asked of the shared token, before anything is read and before each record.
    pub fn collect(&self, state: &ReadState, loaded: &Loaded, resources: &Resources) -> (r: Result<
        Vec<Event>,
    >)
        requires
            self.limits().slot_bytes > 0,
        ensures
            exists|polls: nat, failed: Option<Error>| #[trigger]
                range_collected(*self, state@, loaded, *resources, polls, failed, r) && (
                failed matches Some(e) ==> e is Cancelled),
    {
        let token = self.cancellation.clone();
        let check = |n: usize| -> (r: Result<()>)
            ensures
                r matches Err(e) ==> e is Cancelled,
            { token.check() };
        self.collect_checked(state, loaded, resources, &check)
    }

    /// Reads what is left of the range. The read is cancelled at the question of a number, if
    /// at any.
    pub fn collect_unless(
        &self,
        state: &ReadState,
        loaded: &Loaded,
        resources: &Resources,
        cancel: Option<usize>,
    ) -> (r: Result<Vec<Event>>)
        requires
            self.limits().slot_bytes > 0,
        ensures
            exists|polls: nat, failed: Option<Error>| #[trigger]
                range_collected(*self, state@, loaded, *resources, polls, failed, r) && (
                self.upcoming() is Some ==> cancelled_at(cancel, polls, failed)),
    {
        let check = |n: usize| -> (r: Result<()>)
            ensures
                match r {
                    Ok(_) => cancel != Some(n),
                    Err(e) => cancel == Some(n) && e is Cancelled,
                },
            { check_cancelled(cancel == Some(n)) };
        let r = self.collect_checked(state, loaded, resources, &check);
        proof {
            let (polls, failed) = choose|polls: nat, failed: Option<Error>| #[trigger]
                range_collected(*self, state@, loaded, *resources, polls, failed, r) && (
                self.upcoming() is Some ==> heard(check, polls, failed));
            if self.upcoming() is Some {
                if failed is None {
                    if let Some(n) = cancel {
                        if n <= polls {
                            assert(call_ensures(check, (n,), Ok(())));
                        }
                    }
                }
                assert(cancelled_at(cancel, polls, failed));
            }
        }
        r
    }

    /// Reads what is left of the range. It is asked whether to go on before anything is read,
    /// and before each record.
    pub fn collect_checked<F: Fn(usize) -> Result<()>>(
        &self,
        state: &ReadState,
        loaded: &Loaded,
        resources: &Resources,
        check: &F,
    ) -> (r: Result<Vec<Event>>)
        requires
            self.limits().slot_bytes > 0,
            forall|n: usize| #[trigger] call_requires(*check, (n,)),
        ensures
            exists|polls: nat, failed: Option<Error>| #[trigger]
                range_collected(*self, state@, loaded, *resources, polls, failed, r) && (
                self.upcoming() is Some ==> heard(*check, polls, failed)),
    {
        let first: u64 = match self.next {
            None => {
                let none: Vec<Event> = Vec::new();
                assert(range_collected(*self, state@, loaded, *resources, 0, None, Ok(none)));
                return Ok(none);
            },
            Some(first) => first,
        };
        match check(0) {
            Ok(none) => {
                assert(none == ());
                assert(call_ensures(*check, (0usize,), Ok(())));
            },
            Err(e) => {
                proof {
                    assert(call_ensures(*check, (0usize,), Err(e)));
                    assert(heard(*check, 0, Some(e)));
                    assert(range_collected(
                        *self,
                        state@,
                        loaded,
                        *resources,
                        0,
                        Some(e),
                        Err(e),
                    ));
                }
                return Err(e);
            },
        }
        let room = reading_room(resources);
        let reach = whole_range(self.bounds.slot_bytes);
        let fetched = self.fetch(state, loaded, &room, first, &reach, check);
        let (events, sizes, stop) = match fetched {
            Ok(Pulled::Read(events, sizes, stop)) => (events, sizes, stop),
            Ok(Pulled::Halted(n, e)) => {
                proof {
                    assert(heard(*check, n as nat, Some(e)));
                    assert(range_collected(
                        *self,
                        state@,
                        loaded,
                        *resources,
                        n as nat,
                        Some(e),
                        Err(e),
                    ));
                }
                return Err(e);
            },
            Ok(Pulled::Missing(e)) => {
                assert(range_collected(*self, state@, loaded, *resources, 0, None, Err(e)));
                return Err(e);
            },
            Err(e) => {
                assert(range_collected(*self, state@, loaded, *resources, 0, None, Err(e)));
                return Err(e);
            },
        };
        let used: usize = resources.usage.read_memory_bytes;
        let r = collect_sized(
            &self.bounds,
            Some(first),
            &events,
            &sizes,
            &stop,
            &resources.limits,
            used,
        );
        proof {
            let polls = asked(reach, sizes@);
            assert(heard(*check, polls, None));
            self.lemma_range(
                state@,
                loaded,
                *resources,
                first,
                reach,
                events@,
                sizes@,
                stop,
                r,
            );
            assert(range_collected(*self, state@, loaded, *resources, polls, None, r));
        }
        r
    }

    /// What was collected from the events of the range is what should be.
    proof fn lemma_range(
        self,
        s: StateV,
        loaded: &Loaded,
        resources: Resources,
        first: u64,
        reach: Reach,
        events: Seq<Event>,
        sizes: Seq<usize>,
        stop: Stop,
        r: Result<Vec<Event>>,
    )
        requires
            self.upcoming() == Some(first),
            reach == whole_reach(self.limits()),
            weighed(events_view(events), sizes),
            collected_to(
                collection(
                    self.limits(),
                    Some(first),
                    run_from(events, stop, 0),
                    sizes,
                    resources.limits,
                    resources.used().read_memory_bytes,
                ),
                events_view(events),
                r,
            ),
            r matches Err(e) ==> !(e is Unread),
            forall|files: Files| #[trigger]
                loaded.agrees(files) ==> {
                    let run = state_range(
                        s,
                        files,
                        self.of().0,
                        self.of().1,
                        first,
                        self.limits().last,
                        room_of(resources),
                    );
                    run is Ok && begins(run->Ok_0, events, sizes, stop, reach)
                },
        ensures
            range_collected(self, s, loaded, resources, asked(reach, sizes), None, r),
    {
        assert forall|files: Files| #[trigger] loaded.agrees(files) implies match state_range(
            s,
            files,
            self.of().0,
            self.of().1,
            first,
            self.limits().last,
            room_of(resources),
        ) {
            Err(f) => r matches Err(e) && reports(e, f) && asked(reach, sizes) == 0,
            Ok(run) => run.events.len() < usize::MAX ==> exists|all: Seq<usize>|
                weighed(run.events, all) && reads(reach, run.events, all) == asked(
                    reach,
                    sizes,
                ) && collected_to(
                    #[trigger] collection(
                        self.limits(),
                        Some(first),
                        run,
                        all,
                        resources.limits,
                        resources.used().read_memory_bytes,
                    ),
                    run.events,
                    r,
                ),
        } by {
            let run = state_range(
                s,
                files,
                self.of().0,
                self.of().1,
                first,
                self.limits().last,
                room_of(resources),
            )->Ok_0;
            if run.events.len() < usize::MAX {
                let all = events_view(events);
                assert(all.len() == events.len());
                assert(all.skip(0) =~= all);
                assert(!settled(reach, sizes, sizes.len() as int));
                assert(run.events == all);
                assert(sizes.take(sizes.len() as int) =~= sizes);
                lemma_reads(reach, run.events, sizes, sizes);
            }
        }
    }
}

/// How far the events of a whole range are read.
pub open spec fn whole_reach(b: Bounds) -> Reach {
    Reach { most: usize::MAX, cap: None, slot_bytes: b.slot_bytes }
}

fn whole_range(slot_bytes: usize) -> (reach: Reach)
    ensures
        reach == (Reach { most: usize::MAX, cap: None, slot_bytes }),
{
    Reach { most: usize::MAX, cap: None, slot_bytes }
}

/// Whether collecting the rest of a range came to what it should, where the questions whether
/// to go on were asked up to the one of a number and the last of them was answered with an
/// error, if there is one.
pub open spec fn range_collected(
    cursor: HistoryCursor,
    s: StateV,
    loaded: &Loaded,
    resources: Resources,
    polls: nat,
    failed: Option<Error>,
    r: Result<Vec<Event>>,
) -> bool {
    let (table, id) = cursor.of();
    let b = cursor.limits();
    let reach = whole_reach(b);
    let room = room_of(resources);
    match cursor.upcoming() {
        None => r matches Ok(out) && out@.len() == 0 && failed is None,
        Some(first) => match failed {
            Some(e) => {
                &&& r == Err::<Vec<Event>, Error>(e)
                &&& polls > 0 ==> forall|files: Files| #[trigger]
                    loaded.agrees(files) ==> {
                        let run = state_range(s, files, table, id, first, b.last, room);
                        run is Ok && reaches(reach, run->Ok_0.events, polls)
                    }
            },
            None => if r is Err && r->Err_0 is Unread {
                let e = r->Err_0;
                &&& lacks(loaded, e) || forall|files: Files| !(#[trigger] loaded.agrees(files))
                &&& forall|files: Files| #[trigger]
                    loaded.agrees(files) ==> state_range_asks(s, files, table, id, first, b.last, e)
            } else {
                forall|files: Files| #[trigger]
                    loaded.agrees(files) ==> match state_range(
                        s,
                        files,
                        table,
                        id,
                        first,
                        b.last,
                        room,
                    ) {
                        Err(f) => r matches Err(e) && reports(e, f) && polls == 0,
                        Ok(run) => run.events.len() < usize::MAX ==> exists|sizes: Seq<usize>|
                            weighed(run.events, sizes) && reads(reach, run.events, sizes) == polls
                                && collected_to(
                                #[trigger] collection(
                                    b,
                                    Some(first),
                                    run,
                                    sizes,
                                    resources.limits,
                                    resources.used().read_memory_bytes,
                                ),
                                run.events,
                                r,
                            ),
                    }
            },
        },
    }
}

/// Whether a result is what collecting came to.
pub open spec fn collected_to(x: Collected, events: Seq<EventV>, r: Result<Vec<Event>>) -> bool {
    match r {
        Ok(out) => x is Done && x->Done_0 <= events.len() && events_view(out@) == events.take(
            x->Done_0 as int,
        ),
        Err(e) => collect_failed(x, e),
    }
}

} // verus!
