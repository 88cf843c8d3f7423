//! Admission limits, and what is in use of them.
//!
//! A permit or a reservation stands for what was taken; giving it back with
//! `release` returns exactly that.

use crate::codec::MAX_FRAME;
use crate::error::invalid;
use crate::error::Error;
use crate::error::Result;
use vstd::prelude::*;

verus! {

/// Engine admission limits with separate encoded, decoded, and scratch budgets.
/// Decoded charges contain a per-field allowance and do not measure process RSS.
#[derive(Clone, Copy, Debug, PartialEq, Eq, Structural)]
pub struct Limits {
    /// Logical decoded bytes in one entity or event (with the per-field allowance).
    pub max_decoded_record_bytes: usize,
    /// Logical decoded allocations admitted by one transaction.
    pub max_transaction_decoded_bytes: usize,
    /// Decoded transaction charges retained by staging, queued commits, and views.
    pub max_resident_decoded_write_bytes: usize,
    /// Decoded read buffers and returned history batches retained by the engine.
    pub max_read_memory_bytes: usize,
    /// Concurrent raw record and decompression scratch buffers.
    pub max_scratch_bytes: usize,
    /// Maximum logical size of a history that is collected whole.
    pub max_read_result_bytes: usize,
    /// Maximum history events admitted in one batch.
    pub max_history_batch_events: usize,
    /// Maximum logical history-batch size, with its event slots.
    pub max_history_batch_bytes: usize,
    /// Simultaneously active transactions, queued commits among them.
    pub max_transactions: usize,
    /// Independently pinned snapshots; clones share a pin.
    pub max_snapshots: usize,
    /// Sum of checkpoint file bytes per independent pin (shared files count again).
    pub max_pinned_bytes: usize,
    /// Operations in one transaction, automatic maintenance operations among them.
    pub max_transaction_operations: usize,
    /// Encoded transaction payload, with its operation-count header.
    pub max_transaction_bytes: usize,
    /// Accepted mutation bytes still staged, queued, or retained in published views.
    pub max_resident_write_bytes: usize,
    /// Waiting and currently syncing commit requests.
    pub max_queued_commits: usize,
    /// Encoded mutation bytes in waiting and currently syncing commit requests.
    pub max_queued_commit_bytes: usize,
    /// History payload files (events and snapshots) in a newly published checkpoint.
    /// Reaching this bound requires compaction or explicit retention before checkpointing.
    pub max_history_files: usize,
    /// Index routing entries in a newly published checkpoint.
    pub max_index_partitions: usize,
    /// Transaction WAL bytes after the last completed checkpoint frontier.
    pub max_uncheckpointed_wal_bytes: u64,
}

/// Eight gigabytes, or all that a smaller machine can count.
pub open spec fn default_pinned_bytes() -> usize {
    if usize::MAX >= 0x2_0000_0000u64 {
        0x2_0000_0000u64 as usize
    } else {
        usize::MAX
    }
}

impl Default for Limits {
    fn default() -> (limits: Self)
        ensures
            limits == (Limits {
                max_decoded_record_bytes: 67108864,
                max_transaction_decoded_bytes: 268435456,
                max_resident_decoded_write_bytes: 1073741824,
                max_read_memory_bytes: 268435456,
                max_scratch_bytes: 134217728,
                max_read_result_bytes: 67108864,
                max_history_batch_events: 4096,
                max_history_batch_bytes: 67108864,
                max_transactions: 1024,
                max_snapshots: 4096,
                max_pinned_bytes: default_pinned_bytes(),
                max_transaction_operations: 100000,
                max_transaction_bytes: MAX_FRAME,
                max_resident_write_bytes: 536870912,
                max_queued_commits: 256,
                max_queued_commit_bytes: 134217728,
                max_history_files: 4096,
                max_index_partitions: 65536,
                max_uncheckpointed_wal_bytes: 536870912,
            }),
    {
        let max_pinned_bytes: usize = if usize::MAX as u64 >= 0x2_0000_0000 {
            0x2_0000_0000u64 as usize
        } else {
            usize::MAX
        };
        Self {
            max_decoded_record_bytes: 64 * 1024 * 1024,
            max_transaction_decoded_bytes: 256 * 1024 * 1024,
            max_resident_decoded_write_bytes: 1024 * 1024 * 1024,
            max_read_memory_bytes: 256 * 1024 * 1024,
            max_scratch_bytes: 128 * 1024 * 1024,
            max_read_result_bytes: 64 * 1024 * 1024,
            max_history_batch_events: 4096,
            max_history_batch_bytes: 64 * 1024 * 1024,
            max_transactions: 1024,
            max_snapshots: 4096,
            max_pinned_bytes,
            max_transaction_operations: 100_000,
            max_transaction_bytes: MAX_FRAME,
            max_resident_write_bytes: 512 * 1024 * 1024,
            max_queued_commits: 256,
            max_queued_commit_bytes: 128 * 1024 * 1024,
            max_history_files: 4096,
            max_index_partitions: 65_536,
            max_uncheckpointed_wal_bytes: 512 * 1024 * 1024,
        }
    }
}

impl Limits {
    /// Whether the limits leave room to work: every one is positive, a transaction fits a
    /// frame, and what is queued or resident can hold one transaction.
    pub open spec fn valid(self) -> bool {
        &&& self.max_decoded_record_bytes > 0
        &&& self.max_transaction_decoded_bytes > 0
        &&& self.max_resident_decoded_write_bytes >= self.max_transaction_decoded_bytes
        &&& self.max_read_memory_bytes > 0
        &&& self.max_scratch_bytes > 0
        &&& self.max_read_result_bytes > 0
        &&& self.max_history_batch_events > 0
        &&& self.max_history_batch_bytes > 0
        &&& self.max_uncheckpointed_wal_bytes > 0
        &&& self.max_transactions > 0
        &&& self.max_history_files > 0
        &&& self.max_index_partitions > 0
        &&& self.max_queued_commits > 0
        &&& self.max_queued_commit_bytes >= self.max_transaction_bytes
        &&& self.max_snapshots > 0
        &&& self.max_transaction_operations > 0
        &&& 8 <= self.max_transaction_bytes <= MAX_FRAME
        &&& self.max_resident_write_bytes >= self.max_transaction_bytes
    }

    /// Accepts the limits that leave room to work.
    pub fn validate(&self) -> (r: Result<()>)
        ensures
            match r {
                Ok(_) => self.valid(),
                Err(e) => !self.valid() && e is Invalid,
            },
    {
        if self.max_decoded_record_bytes == 0 || self.max_transaction_decoded_bytes == 0
            || self.max_resident_decoded_write_bytes < self.max_transaction_decoded_bytes
            || self.max_read_memory_bytes == 0 || self.max_scratch_bytes == 0
            || self.max_read_result_bytes == 0 || self.max_history_batch_events == 0
            || self.max_history_batch_bytes == 0 || self.max_uncheckpointed_wal_bytes == 0
            || self.max_transactions == 0 || self.max_history_files == 0
            || self.max_index_partitions == 0 || self.max_queued_commits == 0
            || self.max_queued_commit_bytes < self.max_transaction_bytes || self.max_snapshots == 0
            || self.max_transaction_operations == 0 || self.max_transaction_bytes < 8
            || self.max_transaction_bytes > MAX_FRAME || self.max_resident_write_bytes
            < self.max_transaction_bytes {
            return Err(invalid("invalid admission limits"));
        }
        Ok(())
    }
}

/// Current admission counters, useful for enforcing and diagnosing limits.
#[derive(Clone, Copy, Debug, PartialEq, Eq, Structural)]
pub struct ResourceUsage {
    /// Logical decoded transaction bytes retained by accepted writes and views.
    pub decoded_write_bytes: usize,
    /// Decoded read allocations, with batches that callers still own.
    pub read_memory_bytes: usize,
    /// Raw/decompression buffers currently retained by reads.
    pub scratch_bytes: usize,
    /// Active transactions, requests waiting for commit among them.
    pub transactions: usize,
    /// Independent live snapshot pins.
    pub snapshots: usize,
    /// Checkpoint bytes charged to pins, counting files once per pin.
    pub pinned_bytes: usize,
    /// Encoded mutation bytes owned by staging, commit requests, or published views.
    pub resident_write_bytes: usize,
}

impl Default for ResourceUsage {
    fn default() -> (usage: Self)
        ensures
            usage == (ResourceUsage {
                decoded_write_bytes: 0,
                read_memory_bytes: 0,
                scratch_bytes: 0,
                transactions: 0,
                snapshots: 0,
                pinned_bytes: 0,
                resident_write_bytes: 0,
            }),
    {
        ResourceUsage {
            decoded_write_bytes: 0,
            read_memory_bytes: 0,
            scratch_bytes: 0,
            transactions: 0,
            snapshots: 0,
            pinned_bytes: 0,
            resident_write_bytes: 0,
        }
    }
}

/// Something taken of the resources.
#[derive(Clone, Copy, Debug, PartialEq, Eq, Structural)]
pub enum Charge {
    /// An active transaction.
    Transaction,
    /// A pinned snapshot with the checkpoint bytes that it pins.
    Snapshot(usize),
    /// Encoded mutation bytes and decoded write bytes.
    Write(usize, usize),
    /// Decoded read bytes.
    Read(usize),
    /// Scratch bytes.
    Scratch(usize),
}

/// Whether a charge fits the counters of a machine.
pub open spec fn countable(u: ResourceUsage, c: Charge) -> bool {
    match c {
        Charge::Transaction => u.transactions < usize::MAX,
        Charge::Snapshot(bytes) => u.snapshots < usize::MAX && u.pinned_bytes + bytes <= usize::MAX,
        Charge::Write(bytes, decoded) => u.resident_write_bytes + bytes <= usize::MAX
            && u.decoded_write_bytes + decoded <= usize::MAX,
        Charge::Read(bytes) => u.read_memory_bytes + bytes <= usize::MAX,
        Charge::Scratch(bytes) => u.scratch_bytes + bytes <= usize::MAX,
    }
}

/// The counters with a charge.
pub open spec fn charged(u: ResourceUsage, c: Charge) -> ResourceUsage {
    match c {
        Charge::Transaction => ResourceUsage { transactions: (u.transactions + 1) as usize, ..u },
        Charge::Snapshot(bytes) => ResourceUsage {
            snapshots: (u.snapshots + 1) as usize,
            pinned_bytes: (u.pinned_bytes + bytes) as usize,
            ..u
        },
        Charge::Write(bytes, decoded) => ResourceUsage {
            resident_write_bytes: (u.resident_write_bytes + bytes) as usize,
            decoded_write_bytes: (u.decoded_write_bytes + decoded) as usize,
            ..u
        },
        Charge::Read(bytes) => ResourceUsage {
            read_memory_bytes: (u.read_memory_bytes + bytes) as usize,
            ..u
        },
        Charge::Scratch(bytes) => ResourceUsage {
            scratch_bytes: (u.scratch_bytes + bytes) as usize,
            ..u
        },
    }
}

/// Whether the counters hold a charge.
pub open spec fn owed(u: ResourceUsage, c: Charge) -> bool {
    match c {
        Charge::Transaction => u.transactions >= 1,
        Charge::Snapshot(bytes) => u.snapshots >= 1 && u.pinned_bytes >= bytes,
        Charge::Write(bytes, decoded) => u.resident_write_bytes >= bytes && u.decoded_write_bytes
            >= decoded,
        Charge::Read(bytes) => u.read_memory_bytes >= bytes,
        Charge::Scratch(bytes) => u.scratch_bytes >= bytes,
    }
}

/// The counters without a charge.
pub open spec fn refunded(u: ResourceUsage, c: Charge) -> ResourceUsage {
    match c {
        Charge::Transaction => ResourceUsage { transactions: (u.transactions - 1) as usize, ..u },
        Charge::Snapshot(bytes) => ResourceUsage {
            snapshots: (u.snapshots - 1) as usize,
            pinned_bytes: (u.pinned_bytes - bytes) as usize,
            ..u
        },
        Charge::Write(bytes, decoded) => ResourceUsage {
            resident_write_bytes: (u.resident_write_bytes - bytes) as usize,
            decoded_write_bytes: (u.decoded_write_bytes - decoded) as usize,
            ..u
        },
        Charge::Read(bytes) => ResourceUsage {
            read_memory_bytes: (u.read_memory_bytes - bytes) as usize,
            ..u
        },
        Charge::Scratch(bytes) => ResourceUsage {
            scratch_bytes: (u.scratch_bytes - bytes) as usize,
            ..u
        },
    }
}

/// Taking and giving back leaves the counters as they were.
pub proof fn lemma_refund(u: ResourceUsage, c: Charge)
    requires
        countable(u, c),
    ensures
        owed(charged(u, c), c),
        refunded(charged(u, c), c) == u,
{
}

/// What was taken earlier can still be given back after something else was taken, and the
/// order in which both are given back does not matter.
pub proof fn lemma_refund_order(u: ResourceUsage, c: Charge, d: Charge)
    requires
        countable(u, c),
        countable(charged(u, c), d),
    ensures
        owed(charged(charged(u, c), d), c),
        refunded(charged(charged(u, c), d), c) == charged(u, d),
{
}

/// Admits `additional` on top of `used`, up to `limit`.
pub fn check(resource: &'static str, used: usize, additional: usize, limit: usize) -> (r: Result<()>)
    ensures
        match r {
            Ok(_) => used + additional <= limit,
            Err(e) => used + additional > limit && e == (Error::LimitExceeded { resource, limit }),
        },
{
    if additional > limit || used > limit - additional {
        Err(Error::LimitExceeded { resource, limit })
    } else {
        Ok(())
    }
}

/// The limits and what is in use of them.
pub struct Resources {
    /// The limits.
    pub limits: Limits,
    /// What is in use.
    pub usage: ResourceUsage,
}

/// A place among the active transactions or snapshots.
#[derive(Debug, PartialEq, Eq, Structural)]
pub struct Permit {
    /// What the permit stands for.
    pub charge: Charge,
}

impl Permit {
    /// What the permit stands for.
    pub open spec fn charge(self) -> Charge {
        self.charge
    }
}

impl Resources {
    /// What is in use.
    pub open spec fn used(self) -> ResourceUsage {
        self.usage
    }

    /// Nothing in use yet.
    pub fn new(limits: Limits) -> (r: Self)
        ensures
            r.limits == limits,
            r.used() == (ResourceUsage {
                decoded_write_bytes: 0,
                read_memory_bytes: 0,
                scratch_bytes: 0,
                transactions: 0,
                snapshots: 0,
                pinned_bytes: 0,
                resident_write_bytes: 0,
            }),
    {
        Resources { limits, usage: ResourceUsage::default() }
    }

    /// What is in use.
    pub fn usage(&self) -> (u: ResourceUsage)
        ensures
            u == self.used(),
    {
        self.usage
    }

    /// Admits a transaction.
    pub fn transaction(&mut self) -> (r: Result<Permit>)
        ensures
            final(self).limits == old(self).limits,
            match r {
                Ok(permit) => {
                    &&& old(self).used().transactions < old(self).limits.max_transactions
                    &&& permit.charge() == Charge::Transaction
                    &&& final(self).used() == charged(old(self).used(), Charge::Transaction)
                },
                Err(e) => {
                    &&& old(self).used().transactions >= old(self).limits.max_transactions
                    &&& e == (Error::LimitExceeded {
                        resource: "active transactions",
                        limit: old(self).limits.max_transactions,
                    })
                    &&& final(self).used() == old(self).used()
                },
            },
    {
        check(
            "active transactions",
            self.usage.transactions,
            1,
            self.limits.max_transactions,
        )?;
        self.usage.transactions = self.usage.transactions + 1;
        Ok(Permit { charge: Charge::Transaction })
    }

    /// Admits a snapshot that pins checkpoint bytes.
    pub fn snapshot(&mut self, bytes: usize) -> (r: Result<Permit>)
        ensures
            final(self).limits == old(self).limits,
            match r {
                Ok(permit) => {
                    &&& old(self).used().snapshots < old(self).limits.max_snapshots
                    &&& old(self).used().pinned_bytes + bytes <= old(self).limits.max_pinned_bytes
                    &&& permit.charge() == Charge::Snapshot(bytes)
                    &&& final(self).used() == charged(old(self).used(), Charge::Snapshot(bytes))
                },
                Err(e) => {
                    &&& final(self).used() == old(self).used()
                    &&& if old(self).used().snapshots >= old(self).limits.max_snapshots {
                        e == (Error::LimitExceeded {
                            resource: "active snapshots",
                            limit: old(self).limits.max_snapshots,
                        })
                    } else {
                        &&& old(self).used().pinned_bytes + bytes
                            > old(self).limits.max_pinned_bytes
                        &&& e == (Error::LimitExceeded {
                            resource: "pinned checkpoint bytes",
                            limit: old(self).limits.max_pinned_bytes,
                        })
                    }
                },
            },
    {
        check("active snapshots", self.usage.snapshots, 1, self.limits.max_snapshots)?;
        check(
            "pinned checkpoint bytes",
            self.usage.pinned_bytes,
            bytes,
            self.limits.max_pinned_bytes,
        )?;
        self.usage.snapshots = self.usage.snapshots + 1;
        self.usage.pinned_bytes = self.usage.pinned_bytes + bytes;
        Ok(Permit { charge: Charge::Snapshot(bytes) })
    }

    /// Takes a permit back.
    pub fn release(&mut self, permit: Permit)
        requires
            owed(old(self).used(), permit.charge()),
        ensures
            final(self).limits == old(self).limits,
            final(self).used() == refunded(old(self).used(), permit.charge()),
    {
        self.refund(permit.charge)
    }

    fn refund(&mut self, charge: Charge)
        requires
            owed(old(self).used(), charge),
        ensures
            final(self).limits == old(self).limits,
            final(self).used() == refunded(old(self).used(), charge),
    {
        match charge {
            Charge::Transaction => {
                self.usage.transactions = self.usage.transactions - 1;
            },
            Charge::Snapshot(bytes) => {
                self.usage.snapshots = self.usage.snapshots - 1;
                self.usage.pinned_bytes = self.usage.pinned_bytes - bytes;
            },
            Charge::Write(bytes, decoded) => {
                self.usage.resident_write_bytes = self.usage.resident_write_bytes - bytes;
                self.usage.decoded_write_bytes = self.usage.decoded_write_bytes - decoded;
            },
            Charge::Read(bytes) => {
                self.usage.read_memory_bytes = self.usage.read_memory_bytes - bytes;
            },
            Charge::Scratch(bytes) => {
                self.usage.scratch_bytes = self.usage.scratch_bytes - bytes;
            },
        }
    }

    /// A reservation for writes, with nothing taken yet.
    pub fn reservation(&self) -> (r: Reservation)
        ensures
            r.bytes == 0,
            r.decoded_bytes == 0,
    {
        Reservation { bytes: 0, decoded_bytes: 0 }
    }

    /// Takes a write reservation back.
    pub fn release_writes(&mut self, reservation: Reservation)
        requires
            owed(old(self).used(), reservation.charge()),
        ensures
            final(self).limits == old(self).limits,
            final(self).used() == refunded(old(self).used(), reservation.charge()),
    {
        self.refund(Charge::Write(reservation.bytes, reservation.decoded_bytes))
    }

    /// Reserves memory of a kind. Recovery is not held to the limit.
    pub fn memory(&mut self, kind: MemoryKind, bytes: usize, recovery: bool) -> (r: Result<
        MemoryReservation,
    >)
        requires
            recovery ==> countable(old(self).used(), memory_charge(kind, bytes)),
        ensures
            final(self).limits == old(self).limits,
            match r {
                Ok(memory) => {
                    &&& memory.kind() == kind && memory.bytes == bytes
                    &&& recovery || memory_used(old(self).used(), kind) + bytes <= memory_limit(
                        old(self).limits,
                        kind,
                    )
                    &&& final(self).used() == charged(old(self).used(), memory_charge(kind, bytes))
                },
                Err(e) => {
                    &&& !recovery && memory_used(old(self).used(), kind) + bytes > memory_limit(
                        old(self).limits,
                        kind,
                    )
                    &&& e == (Error::LimitExceeded {
                        resource: memory_name(kind),
                        limit: memory_limit(old(self).limits, kind),
                    })
                    &&& final(self).used() == old(self).used()
                },
            },
    {
        let mut memory = MemoryReservation { kind, bytes: 0 };
        memory.grow(self, bytes, recovery)?;
        Ok(memory)
    }

    /// Takes reserved memory back.
    pub fn release_memory(&mut self, memory: MemoryReservation)
        requires
            owed(old(self).used(), memory.charge()),
        ensures
            final(self).limits == old(self).limits,
            final(self).used() == refunded(old(self).used(), memory.charge()),
    {
        match memory.kind {
            MemoryKind::Read => self.refund(Charge::Read(memory.bytes)),
            MemoryKind::Scratch => self.refund(Charge::Scratch(memory.bytes)),
        }
    }
}

/// Mutation bytes taken for the writes of a transaction.
#[derive(Debug, PartialEq, Eq, Structural)]
pub struct Reservation {
    /// Encoded bytes.
    pub bytes: usize,
    /// Decoded bytes.
    pub decoded_bytes: usize,
}

impl Reservation {
    /// What the reservation stands for.
    pub open spec fn charge(self) -> Charge {
        Charge::Write(self.bytes, self.decoded_bytes)
    }

    /// Takes more decoded bytes. Recovery is not held to the limits.
    pub fn grow_decoded(&mut self, resources: &mut Resources, bytes: usize, recovery: bool) -> (r:
        Result<()>)
        requires
            owed(old(resources).used(), old(self).charge()),
            recovery ==> old(resources).used().decoded_write_bytes + bytes <= usize::MAX,
        ensures
            final(resources).limits == old(resources).limits,
            final(self).bytes == old(self).bytes,
            ({
                let limits = old(resources).limits;
                let used = old(resources).used();
                let small = old(self).decoded_bytes + bytes <= limits.max_transaction_decoded_bytes;
                let fits = used.decoded_write_bytes + bytes
                    <= limits.max_resident_decoded_write_bytes;
                match r {
                    Ok(_) => {
                        &&& recovery || (small && fits)
                        &&& final(self).decoded_bytes == old(self).decoded_bytes + bytes
                        &&& final(resources).used() == charged(used, Charge::Write(0, bytes))
                        &&& owed(final(resources).used(), final(self).charge())
                    },
                    Err(e) => {
                        &&& !recovery && !(small && fits)
                        &&& *final(self) == *old(self)
                        &&& final(resources).used() == used
                        &&& e == (if !small {
                            Error::LimitExceeded {
                                resource: "transaction decoded bytes",
                                limit: limits.max_transaction_decoded_bytes,
                            }
                        } else {
                            Error::LimitExceeded {
                                resource: "resident decoded write bytes",
                                limit: limits.max_resident_decoded_write_bytes,
                            }
                        })
                    },
                }
            }),
    {
        if !recovery {
            check(
                "transaction decoded bytes",
                self.decoded_bytes,
                bytes,
                resources.limits.max_transaction_decoded_bytes,
            )?;
            check(
                "resident decoded write bytes",
                resources.usage.decoded_write_bytes,
                bytes,
                resources.limits.max_resident_decoded_write_bytes,
            )?;
        }
        resources.usage.decoded_write_bytes = resources.usage.decoded_write_bytes + bytes;
        self.decoded_bytes = self.decoded_bytes + bytes;
        Ok(())
    }

    /// Takes encoded bytes that were accepted before, whatever the limit.
    pub fn recover(&mut self, resources: &mut Resources, bytes: usize)
        requires
            owed(old(resources).used(), old(self).charge()),
            old(resources).used().resident_write_bytes + bytes <= usize::MAX,
        ensures
            final(resources).limits == old(resources).limits,
            final(resources).used() == charged(old(resources).used(), Charge::Write(bytes, 0)),
            final(self).bytes == old(self).bytes + bytes,
            final(self).decoded_bytes == old(self).decoded_bytes,
            owed(final(resources).used(), final(self).charge()),
    {
        resources.usage.resident_write_bytes = resources.usage.resident_write_bytes + bytes;
        self.bytes = self.bytes + bytes;
    }

    /// Takes more encoded bytes.
    pub fn grow(&mut self, resources: &mut Resources, bytes: usize) -> (r: Result<()>)
        requires
            owed(old(resources).used(), old(self).charge()),
        ensures
            final(resources).limits == old(resources).limits,
            final(self).decoded_bytes == old(self).decoded_bytes,
            ({
                let limit = old(resources).limits.max_resident_write_bytes;
                let used = old(resources).used();
                match r {
                    Ok(_) => {
                        &&& used.resident_write_bytes + bytes <= limit
                        &&& final(self).bytes == old(self).bytes + bytes
                        &&& final(resources).used() == charged(used, Charge::Write(bytes, 0))
                        &&& owed(final(resources).used(), final(self).charge())
                    },
                    Err(e) => {
                        &&& used.resident_write_bytes + bytes > limit
                        &&& *final(self) == *old(self)
                        &&& final(resources).used() == used
                        &&& e == (Error::LimitExceeded {
                            resource: "resident mutation bytes",
                            limit,
                        })
                    },
                }
            }),
    {
        check(
            "resident mutation bytes",
            resources.usage.resident_write_bytes,
            bytes,
            resources.limits.max_resident_write_bytes,
        )?;
        resources.usage.resident_write_bytes = resources.usage.resident_write_bytes + bytes;
        self.bytes = self.bytes + bytes;
        Ok(())
    }
}

/// What memory is reserved for.
#[derive(Clone, Copy, Debug, PartialEq, Eq, Structural)]
pub enum MemoryKind {
    /// Decoded reads.
    Read,
    /// Raw and decompressed bytes.
    Scratch,
}

/// The charge for memory of a kind.
pub open spec fn memory_charge(kind: MemoryKind, bytes: usize) -> Charge {
    match kind {
        MemoryKind::Read => Charge::Read(bytes),
        MemoryKind::Scratch => Charge::Scratch(bytes),
    }
}

/// What is in use of memory of a kind.
pub open spec fn memory_used(u: ResourceUsage, kind: MemoryKind) -> usize {
    match kind {
        MemoryKind::Read => u.read_memory_bytes,
        MemoryKind::Scratch => u.scratch_bytes,
    }
}

/// The limit of memory of a kind.
pub open spec fn memory_limit(limits: Limits, kind: MemoryKind) -> usize {
    match kind {
        MemoryKind::Read => limits.max_read_memory_bytes,
        MemoryKind::Scratch => limits.max_scratch_bytes,
    }
}

/// The name of memory of a kind.
pub open spec fn memory_name(kind: MemoryKind) -> &'static str {
    match kind {
        MemoryKind::Read => "decoded read bytes",
        MemoryKind::Scratch => "scratch bytes",
    }
}

/// Memory taken for reads.
#[derive(Debug, PartialEq, Eq, Structural)]
pub struct MemoryReservation {
    /// What the memory is for.
    pub kind: MemoryKind,
    /// The bytes taken.
    pub bytes: usize,
}

impl MemoryReservation {
    /// What the memory is for.
    pub open spec fn kind(self) -> MemoryKind {
        self.kind
    }

    /// What the reservation stands for.
    pub open spec fn charge(self) -> Charge {
        memory_charge(self.kind(), self.bytes)
    }

    /// Takes more memory. Recovery is not held to the limit.
    pub fn grow(&mut self, resources: &mut Resources, bytes: usize, recovery: bool) -> (r: Result<
        (),
    >)
        requires
            owed(old(resources).used(), old(self).charge()),
            recovery ==> countable(old(resources).used(), memory_charge(old(self).kind(), bytes)),
        ensures
            final(resources).limits == old(resources).limits,
            final(self).kind() == old(self).kind(),
            ({
                let kind = old(self).kind();
                let limit = memory_limit(old(resources).limits, kind);
                let used = old(resources).used();
                match r {
                    Ok(_) => {
                        &&& recovery || memory_used(used, kind) + bytes <= limit
                        &&& final(self).bytes == old(self).bytes + bytes
                        &&& final(resources).used() == charged(used, memory_charge(kind, bytes))
                        &&& owed(final(resources).used(), final(self).charge())
                    },
                    Err(e) => {
                        &&& !recovery && memory_used(used, kind) + bytes > limit
                        &&& *final(self) == *old(self)
                        &&& final(resources).used() == used
                        &&& e == (Error::LimitExceeded { resource: memory_name(kind), limit })
                    },
                }
            }),
    {
        match self.kind {
            MemoryKind::Read => {
                if !recovery {
                    check(
                        "decoded read bytes",
                        resources.usage.read_memory_bytes,
                        bytes,
                        resources.limits.max_read_memory_bytes,
                    )?;
                }
                resources.usage.read_memory_bytes = resources.usage.read_memory_bytes + bytes;
            },
            MemoryKind::Scratch => {
                if !recovery {
                    check(
                        "scratch bytes",
                        resources.usage.scratch_bytes,
                        bytes,
                        resources.limits.max_scratch_bytes,
                    )?;
                }
                resources.usage.scratch_bytes = resources.usage.scratch_bytes + bytes;
            },
        }
        self.bytes = self.bytes + bytes;
        Ok(())
    }
}

} // verus!
