//! The queue of commits that wait for a shared flush of the log.

use crate::deadline::Nanos;
use crate::error::invalid;
use crate::error::Error;
use crate::error::Result;
use crate::resources::check;
use crate::resources::Limits;
use vstd::prelude::*;

verus! {

/// Limits one shared WAL flush. Local exclusive transactions flush individually.
#[derive(Clone, Copy, Debug, PartialEq, Eq, Structural)]
pub struct GroupCommit {
    /// Maximum transactions in one flush.
    pub max_transactions: usize,
    /// Maximum encoded mutation bytes in one flush. A larger single request runs alone.
    pub max_bytes: usize,
    /// Optional bounded delay to gather writers; zero adds no intentional delay.
    pub delay: Nanos,
}

impl Default for GroupCommit {
    fn default() -> (g: Self)
        ensures
            g == (GroupCommit { max_transactions: 64, max_bytes: 4194304, delay: 0 }),
    {
        Self { max_transactions: 64, max_bytes: 4 * 1024 * 1024, delay: 0 }
    }
}

impl GroupCommit {
    /// Whether a flush can take something, and waits for a second at most.
    pub open spec fn valid(self) -> bool {
        self.max_transactions > 0 && self.max_bytes > 0 && self.delay <= 1_000_000_000
    }

    /// Accepts the bounds under which a flush can take something.
    pub fn validate(&self) -> (r: Result<()>)
        ensures
            match r {
                Ok(_) => self.valid(),
                Err(e) => !self.valid() && e is Invalid,
            },
    {
        if self.max_transactions == 0 || self.max_bytes == 0 || self.delay > 1_000_000_000 {
            return Err(
                invalid("invalid group commit bounds (delay must be at most one second)"),
            );
        }
        Ok(())
    }
}

/// A request for commit.
pub struct Request<P> {
    /// The number that the request is known by.
    pub ticket: u64,
    /// Its encoded mutation bytes.
    pub bytes: usize,
    /// What is to be committed.
    pub batch: P,
}

/// The bytes of some requests.
pub open spec fn bytes_of<P>(s: Seq<Request<P>>) -> nat
    decreases s.len(),
{
    if s.len() == 0 {
        0
    } else {
        bytes_of(s.drop_last()) + s.last().bytes as nat
    }
}

proof fn lemma_bytes_concat<P>(a: Seq<Request<P>>, b: Seq<Request<P>>)
    ensures
        bytes_of(a + b) == bytes_of(a) + bytes_of(b),
    decreases b.len(),
{
    if b.len() == 0 {
        assert(a + b =~= a);
    } else {
        lemma_bytes_concat(a, b.drop_last());
        assert((a + b).drop_last() =~= a + b.drop_last());
    }
}

proof fn lemma_bytes_one<P>(r: Request<P>)
    ensures
        bytes_of(seq![r]) == r.bytes,
{
    assert(seq![r].drop_last() =~= Seq::empty());
    reveal_with_fuel(bytes_of, 2);
}

/// Requests that wait, and those that are being flushed.
pub struct Queue<P> {
    waiting: Vec<Request<P>>,
    running: bool,
    count: usize,
    bytes: usize,
    next: u64,
}

impl<P> Default for Queue<P> {
    fn default() -> (q: Self)
        ensures
            q.sound(),
            q.waiting() == Seq::<Request<P>>::empty(),
            q.flushing() == (0nat, 0nat),
            !q.is_running(),
            q.issued() == 0,
    {
        Queue { waiting: Vec::new(), running: false, count: 0, bytes: 0, next: 0 }
    }
}

impl<P> Queue<P> {
    /// The requests that wait, in the order in which they came.
    pub closed spec fn waiting(self) -> Seq<Request<P>> {
        self.waiting@
    }

    /// The number and the bytes of the requests that were claimed and not finished.
    pub closed spec fn flushing(self) -> (nat, nat) {
        ((self.count - self.waiting@.len()) as nat, (self.bytes - bytes_of(self.waiting@)) as nat)
    }

    /// Whether a flush is under way.
    pub closed spec fn is_running(self) -> bool {
        self.running
    }

    /// The number of tickets given out.
    pub closed spec fn issued(self) -> u64 {
        self.next
    }

    /// Whether the counts hold at least the requests that wait, and no ticket is given twice.
    pub closed spec fn sound(self) -> bool {
        &&& self.waiting@.len() <= self.count
        &&& bytes_of(self.waiting@) <= self.bytes
        &&& forall|i: int| 0 <= i < self.waiting@.len() ==> (#[trigger] self.waiting@[i]).ticket
            < self.next
        &&& forall|i: int, j: int|
            0 <= i < j < self.waiting@.len() ==> (#[trigger] self.waiting@[i]).ticket < (
            #[trigger] self.waiting@[j]).ticket
    }

    /// Queues a request and returns its ticket.
    pub fn submit(&mut self, batch: P, bytes: usize, limits: &Limits) -> (r: Result<u64>)
        requires
            old(self).sound(),
            old(self).issued() < u64::MAX,
        ensures
            final(self).sound(),
            final(self).flushing() == old(self).flushing(),
            final(self).is_running() == old(self).is_running(),
            ({
                let count = old(self).waiting().len() + old(self).flushing().0;
                let queued = bytes_of(old(self).waiting()) + old(self).flushing().1;
                match r {
                    Ok(ticket) => {
                        &&& count < limits.max_queued_commits
                        &&& queued + bytes <= limits.max_queued_commit_bytes
                        &&& ticket == old(self).issued()
                        &&& final(self).issued() == old(self).issued() + 1
                        &&& final(self).waiting() == old(self).waiting().push(
                            Request { ticket, bytes, batch },
                        )
                    },
                    Err(e) => {
                        &&& final(self).waiting() == old(self).waiting()
                        &&& final(self).issued() == old(self).issued()
                        &&& if count >= limits.max_queued_commits {
                            e == (Error::LimitExceeded {
                                resource: "queued commits",
                                limit: limits.max_queued_commits,
                            })
                        } else {
                            &&& queued + bytes > limits.max_queued_commit_bytes
                            &&& e == (Error::LimitExceeded {
                                resource: "queued commit bytes",
                                limit: limits.max_queued_commit_bytes,
                            })
                        }
                    },
                }
            }),
    {
        check("queued commits", self.count, 1, limits.max_queued_commits)?;
        check("queued commit bytes", self.bytes, bytes, limits.max_queued_commit_bytes)?;
        let ticket: u64 = self.next;
        let ghost before = self.waiting@;
        self.waiting.push(Request { ticket, bytes, batch });
        self.next = self.next + 1;
        self.count = self.count + 1;
        self.bytes = self.bytes + bytes;
        proof {
            assert(self.waiting@.drop_last() =~= before);
        }
        Ok(ticket)
    }

    /// Takes a request back that still waits. A claimed request cannot be cancelled.
    pub fn cancel(&mut self, ticket: u64) -> (r: Option<Request<P>>)
        requires
            old(self).sound(),
        ensures
            final(self).sound(),
            final(self).flushing() == old(self).flushing(),
            final(self).is_running() == old(self).is_running(),
            final(self).issued() == old(self).issued(),
            match r {
                Some(request) => request.ticket == ticket && exists|i: int|
                    0 <= i < old(self).waiting().len() && #[trigger] old(self).waiting()[i]
                        == request && final(self).waiting() == old(self).waiting().remove(i),
                None => final(self).waiting() == old(self).waiting() && forall|i: int|
                    0 <= i < old(self).waiting().len() ==> (#[trigger] old(
                        self,
                    ).waiting()[i]).ticket != ticket,
            },
    {
        let total: usize = self.waiting.len();
        let mut i: usize = 0;
        while i < total
            invariant
                *self == *old(self),
                i <= total == self.waiting@.len(),
                self.sound(),
                forall|j: int| 0 <= j < i ==> (#[trigger] self.waiting@[j]).ticket != ticket,
            decreases total - i,
        {
            if self.waiting[i].ticket == ticket {
                let ghost before = self.waiting@;
                let request = self.waiting.remove(i);
                proof {
                    let k = i as int;
                    let (a, b) = (before.take(k), before.skip(k + 1));
                    assert(before =~= a + seq![before[k]] + b);
                    assert(self.waiting@ =~= a + b);
                    lemma_bytes_concat(a + seq![before[k]], b);
                    lemma_bytes_concat(a, seq![before[k]]);
                    lemma_bytes_concat(a, b);
                    lemma_bytes_one(before[k]);
                    assert(old(self).waiting()[k] == request);
                    assert(self.waiting@ =~= before.remove(k));
                }
                self.count = self.count - 1;
                self.bytes = self.bytes - request.bytes;
                return Some(request);
            }
            i = i + 1;
        }
        None
    }

    /// Whether the next request goes along with those already claimed.
    pub open spec fn joins(claimed: Seq<Request<P>>, next: Request<P>, bounds: GroupCommit) -> bool {
        claimed.len() == 0 || (claimed.len() != bounds.max_transactions && bytes_of(claimed)
            + next.bytes <= bounds.max_bytes)
    }

    /// Claims the first requests that go into one flush: one in any case, and further ones as
    /// long as the bounds allow.
    pub fn claim(&mut self, bounds: &GroupCommit) -> (r: Vec<Request<P>>)
        requires
            old(self).sound(),
            bounds.valid(),
        ensures
            final(self).sound(),
            final(self).is_running() == old(self).is_running(),
            final(self).issued() == old(self).issued(),
            old(self).waiting() == r@ + final(self).waiting(),
            final(self).flushing() == (
                old(self).flushing().0 + r@.len(),
                old(self).flushing().1 + bytes_of(r@),
            ),
            old(self).waiting().len() > 0 ==> r@.len() > 0,
            r@.len() <= bounds.max_transactions,
            r@.len() > 1 ==> bytes_of(r@) <= bounds.max_bytes,
            final(self).waiting().len() > 0 ==> !Self::joins(
                r@,
                final(self).waiting()[0],
                *bounds,
            ),
            final(self).waiting().len() > 0 ==> r@.len() == bounds.max_transactions || bytes_of(r@)
                + final(self).waiting()[0].bytes > bounds.max_bytes,
    {
        let total: usize = self.waiting.len();
        let ghost all = self.waiting@;
        let mut taken: usize = 0;
        let mut bytes: usize = 0;
        proof {
            assert(all.take(0) =~= Seq::empty());
        }
        while taken < total && (taken == 0 || (taken != bounds.max_transactions && bytes
            <= bounds.max_bytes && self.waiting[taken].bytes <= bounds.max_bytes - bytes))
            invariant
                *self == *old(self),
                self.sound(),
                bounds.valid(),
                all == self.waiting@,
                taken <= total == all.len(),
                taken <= bounds.max_transactions,
                bytes == bytes_of(all.take(taken as int)),
                taken > 1 ==> bytes <= bounds.max_bytes,
                bytes_of(all) <= self.bytes,
            decreases total - taken,
        {
            proof {
                assert(all.take(taken + 1).drop_last() =~= all.take(taken as int));
                let rest = all.skip(taken + 1);
                assert(all =~= all.take(taken + 1) + rest);
                lemma_bytes_concat(all.take(taken + 1), rest);
            }
            bytes = bytes + self.waiting[taken].bytes;
            taken = taken + 1;
        }
        let rest = self.waiting.split_off(taken);
        let mut claimed = rest;
        std::mem::swap(&mut claimed, &mut self.waiting);
        proof {
            assert(claimed@ =~= all.take(taken as int));
            assert(self.waiting@ =~= all.skip(taken as int));
            assert(all =~= claimed@ + self.waiting@);
            lemma_bytes_concat(claimed@, self.waiting@);
        }
        claimed
    }

    /// Says that a flush is under way.
    pub fn start(&mut self)
        requires
            old(self).sound(),
        ensures
            final(self).sound(),
            final(self).waiting() == old(self).waiting(),
            final(self).flushing() == old(self).flushing(),
            final(self).issued() == old(self).issued(),
            final(self).is_running(),
    {
        self.running = true;
    }

    /// Ends a flush of as many claimed requests and bytes.
    pub fn finish(&mut self, count: usize, bytes: usize)
        requires
            old(self).sound(),
            count <= old(self).flushing().0,
            bytes <= old(self).flushing().1,
        ensures
            final(self).sound(),
            final(self).waiting() == old(self).waiting(),
            final(self).issued() == old(self).issued(),
            final(self).flushing() == (
                (old(self).flushing().0 - count) as nat,
                (old(self).flushing().1 - bytes) as nat,
            ),
            !final(self).is_running(),
    {
        self.count = self.count - count;
        self.bytes = self.bytes - bytes;
        self.running = false;
    }
}

} // verus!
