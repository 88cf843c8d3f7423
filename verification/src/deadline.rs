//! Cooperative deadlines and the leases that expire by them.
//!
//! Instants and durations are nanoseconds; the caller reads the clock.

use crate::error::invalid;
use crate::error::Error;
use crate::error::Result;
use vstd::prelude::*;

verus! {

/// A number of nanoseconds.
pub type Nanos = u64;

/// Default upper bounds. Individual transactions may request shorter deadlines.
#[derive(Clone, Copy, Debug, PartialEq, Eq, Structural)]
pub struct Timeouts {
    /// Maximum transaction lifetime, with preparation and commit admission.
    pub transaction: Nanos,
    /// Maximum idle interval between transaction calls.
    pub idle_transaction: Nanos,
    /// Maximum lifetime of an independently pinned read snapshot.
    pub snapshot: Nanos,
    /// Cooperative duration limit for one operation; does not interrupt OS I/O.
    pub operation: Nanos,
    /// Maximum wait for commit admission, before WAL writing begins.
    pub commit_queue: Nanos,
    /// How often abandoned handles are swept for expiry.
    pub reap_interval: Nanos,
}

impl Default for Timeouts {
    fn default() -> (t: Self)
        ensures
            t == (Timeouts {
                transaction: 60_000_000_000,
                idle_transaction: 30_000_000_000,
                snapshot: 300_000_000_000,
                operation: 30_000_000_000,
                commit_queue: 5_000_000_000,
                reap_interval: 50_000_000,
            }),
    {
        Self {
            transaction: 60_000_000_000,
            idle_transaction: 30_000_000_000,
            snapshot: 300_000_000_000,
            operation: 30_000_000_000,
            commit_queue: 5_000_000_000,
            reap_interval: 50_000_000,
        }
    }
}

/// Whether a timeout from now on is positive and can be counted.
pub open spec fn countable(now: Nanos, duration: Nanos) -> bool {
    duration > 0 && now + duration <= u64::MAX
}

impl Timeouts {
    /// Whether all timeouts are positive and can be counted from now on.
    pub open spec fn valid(self, now: Nanos) -> bool {
        &&& countable(now, self.transaction)
        &&& countable(now, self.idle_transaction)
        &&& countable(now, self.snapshot)
        &&& countable(now, self.operation)
        &&& countable(now, self.commit_queue)
        &&& countable(now, self.reap_interval)
    }

    /// Accepts timeouts that are all positive and can be counted from now on.
    pub fn validate(&self, now: Nanos) -> (r: Result<()>)
        ensures
            match r {
                Ok(_) => self.valid(now),
                Err(e) => !self.valid(now) && e is Invalid,
            },
    {
        deadline(now, self.transaction)?;
        deadline(now, self.idle_transaction)?;
        deadline(now, self.snapshot)?;
        deadline(now, self.operation)?;
        deadline(now, self.commit_queue)?;
        deadline(now, self.reap_interval)?;
        Ok(())
    }
}

/// The instant at which a duration from now on ends.
pub fn deadline(now: Nanos, duration: Nanos) -> (r: Result<Nanos>)
    ensures
        match r {
            Ok(end) => countable(now, duration) && end == now + duration,
            Err(e) => !countable(now, duration) && e is Invalid,
        },
{
    if duration == 0 {
        return Err(invalid("timeouts must be positive"));
    }
    match now.checked_add(duration) {
        Some(end) => Ok(end),
        None => Err(invalid("timeout overflow")),
    }
}

/// Whether an optional deadline has come.
pub open spec fn past(end: Option<Nanos>, now: Nanos) -> bool {
    match end {
        Some(end) => now >= end,
        None => false,
    }
}

/// Decides whether an optional deadline has come.
pub fn expired(end: Option<Nanos>, now: Nanos) -> (r: bool)
    ensures
        r == past(end, now),
{
    match end {
        Some(end) => now >= end,
        None => false,
    }
}

/// Fails once an optional deadline has come.
pub fn check(end: Option<Nanos>, now: Nanos) -> (r: Result<()>)
    ensures
        match r {
            Ok(_) => !past(end, now),
            Err(e) => past(end, now) && e == Error::DeadlineExceeded,
        },
{
    if expired(end, now) {
        Err(Error::DeadlineExceeded)
    } else {
        Ok(())
    }
}

/// Whether at least a limit has passed since an instant; an instant yet to come counts as now.
pub open spec fn elapsed(since: Nanos, now: Nanos, limit: Option<Nanos>) -> bool {
    match limit {
        Some(limit) => (if now >= since {
            now - since
        } else {
            0
        }) >= limit,
        None => false,
    }
}

fn has_elapsed(since: Nanos, now: Nanos, limit: Option<Nanos>) -> (r: bool)
    ensures
        r == elapsed(since, now, limit),
{
    match limit {
        Some(limit) => {
            let passed: u64 = if now >= since {
                now - since
            } else {
                0
            };
            passed >= limit
        },
        None => false,
    }
}

/// A value that is given up once its deadline has come or it has been idle for too long.
pub struct LeaseState<T> {
    /// The value, while it is held.
    pub value: Option<T>,
    /// When the value was last used.
    pub last_access: Nanos,
    /// When the value is given up.
    pub deadline: Option<Nanos>,
    /// For how long the value may be idle.
    pub idle: Option<Nanos>,
    /// How long one use may take.
    pub operation: Option<Nanos>,
}

impl<T> LeaseState<T> {
    /// Whether the deadline has come or the value has been idle for too long.
    pub open spec fn over(self, now: Nanos) -> bool {
        past(self.deadline, now) || elapsed(self.last_access, now, self.idle)
    }

    /// Whether another lease has the same bounds.
    pub open spec fn same_bounds(self, other: Self) -> bool {
        self.deadline == other.deadline && self.idle == other.idle && self.operation
            == other.operation
    }

    /// Leases a value from now on.
    pub fn new(
        value: T,
        now: Nanos,
        timeout: Option<Nanos>,
        idle: Option<Nanos>,
        operation: Option<Nanos>,
    ) -> (r: Result<Self>)
        ensures
            match r {
                Ok(lease) => {
                    &&& timeout is Some ==> countable(now, timeout.unwrap())
                    &&& lease.value == Some(value) && lease.last_access == now
                    &&& lease.idle == idle && lease.operation == operation
                    &&& lease.deadline == (match timeout {
                        Some(t) => Some((now + t) as u64),
                        None => None,
                    })
                },
                Err(e) => timeout is Some && !countable(now, timeout.unwrap()) && e is Invalid,
            },
    {
        let end: Option<Nanos> = match timeout {
            Some(t) => Some(deadline(now, t)?),
            None => None,
        };
        Ok(LeaseState { value: Some(value), last_access: now, deadline: end, idle, operation })
    }

    /// Whether the sweep of abandoned handles must watch this lease.
    pub fn watched(&self) -> (r: bool)
        ensures
            r == (self.deadline is Some || self.idle is Some),
    {
        self.deadline.is_some() || self.idle.is_some()
    }

    /// Begins a use. A lease that is over gives its value up first.
    pub fn enter(&mut self, now: Nanos) -> (r: Result<()>)
        ensures
            final(self).same_bounds(*old(self)),
            final(self).last_access == old(self).last_access,
            match r {
                Ok(_) => !old(self).over(now) && old(self).value is Some && final(self).value
                    == old(self).value,
                Err(e) => (old(self).over(now) || old(self).value is None) && final(self).value
                    is None && e == Error::TransactionExpired,
            },
    {
        if expired(self.deadline, now) || has_elapsed(self.last_access, now, self.idle) {
            self.value = None;
        }
        if self.value.is_some() {
            Ok(())
        } else {
            Err(Error::TransactionExpired)
        }
    }

    /// Ends a use. One that took too long, or beyond the deadline, gives the value up.
    pub fn leave(&mut self, start: Nanos, now: Nanos) -> (r: Result<()>)
        ensures
            final(self).same_bounds(*old(self)),
            ({
                let late = past(old(self).deadline, now) || elapsed(
                    start,
                    now,
                    old(self).operation,
                );
                match r {
                    Ok(_) => !late && final(self).value == old(self).value
                        && final(self).last_access == now,
                    Err(e) => late && final(self).value is None && final(self).last_access
                        == old(self).last_access && e == Error::DeadlineExceeded,
                }
            }),
    {
        if expired(self.deadline, now) || has_elapsed(start, now, self.operation) {
            self.value = None;
            return Err(Error::DeadlineExceeded);
        }
        self.last_access = now;
        Ok(())
    }

    /// Takes the value out, unless the lease is over.
    pub fn take(&mut self, now: Nanos) -> (r: Result<T>)
        ensures
            final(self).same_bounds(*old(self)),
            final(self).last_access == old(self).last_access,
            final(self).value is None,
            match r {
                Ok(v) => !old(self).over(now) && old(self).value == Some(v),
                Err(e) => (old(self).over(now) || old(self).value is None) && e
                    == Error::TransactionExpired,
            },
    {
        if expired(self.deadline, now) || has_elapsed(self.last_access, now, self.idle) {
            self.value = None;
        }
        match self.value.take() {
            Some(v) => Ok(v),
            None => Err(Error::TransactionExpired),
        }
    }

    /// Gives the value up if the lease is over.
    pub fn expire(&mut self, now: Nanos)
        ensures
            final(self).same_bounds(*old(self)),
            final(self).last_access == old(self).last_access,
            final(self).value == (if old(self).over(now) {
                None
            } else {
                old(self).value
            }),
    {
        if expired(self.deadline, now) || has_elapsed(self.last_access, now, self.idle) {
            self.value = None;
        }
    }
}

/// A lease that is over stays over, as long as its value is not used again.
pub proof fn lemma_over_stays<T>(lease: LeaseState<T>, now: Nanos, later: Nanos)
    requires
        lease.over(now),
        now <= later,
    ensures
        lease.over(later),
{
}

} // verus!
