//! The options of a database.

use crate::commit_queue::GroupCommit;
use crate::deadline::Timeouts;
use crate::error::invalid;
use crate::error::Result;
use crate::resources::Limits;
use crate::snapshot::MAX_SLOTS;
use crate::storage::pager::DEFAULT_CACHE_BYTES;
use crate::storage::pager::DEFAULT_OPEN_FILES;
use vstd::prelude::*;

verus! {

/// Configuration for checkpointing and automatic history maintenance. How dense a generation
/// must stay to be kept is decided by the caller.
#[derive(Clone, Copy, Debug)]
pub struct Options {
    /// Bounds and optional collection delay for shared WAL synchronization.
    pub group_commit: GroupCommit,
    /// Transaction, snapshot, operation and commit-admission deadlines.
    pub timeouts: Timeouts,
    /// Admission and mutation retention budgets.
    pub limits: Limits,
    /// Start a checkpoint before the next transaction after this WAL size.
    pub checkpoint_bytes: u64,
    /// Target size of a history segment; one large event may exceed it.
    pub history_segment_bytes: u64,
    /// Create a snapshot every N entity versions; zero disables automatic snapshots.
    pub snapshot_interval: u64,
    /// Automatically retain at most N events per entity; None keeps all events.
    pub retain_events: Option<usize>,
    /// Use RLE for history records only when it reduces their size.
    pub compress_history: bool,
    /// Budget for the cache of decoded checkpoint pages.
    pub cache_bytes: usize,
    /// Number of checkpoint files kept open for reading.
    pub max_open_files: usize,
    /// Current-state generations one manifest may reference, with the new one.
    ///
    /// Reaching the limit forces the cheapest generations into the checkpoint
    /// that publishes next, which bounds open files, startup verification, and
    /// manifest size.
    pub max_generations: usize,
    /// Entities one checkpoint may copy for collection; zero removes the cap.
    ///
    /// Collection runs inside the checkpoint, so this is what bounds the pause
    /// it adds. A generation too large to drain at once is drained across
    /// several checkpoints, and the generation budget waits for it rather than
    /// forcing one long pause.
    pub collect_entities: usize,
}

impl Default for Options {
    fn default() -> (o: Self)
        ensures
            o.checkpoint_bytes == 8388608,
            o.history_segment_bytes == 8388608,
            o.snapshot_interval == 32,
            o.retain_events is None,
            o.compress_history,
            o.cache_bytes == 67108864,
            o.max_open_files == 256,
            o.max_generations == 8,
            o.collect_entities == 8192,
            call_ensures(GroupCommit::default, (), o.group_commit),
            call_ensures(Timeouts::default, (), o.timeouts),
            call_ensures(Limits::default, (), o.limits),
    {
        Options {
            group_commit: GroupCommit::default(),
            timeouts: Timeouts::default(),
            limits: Limits::default(),
            checkpoint_bytes: 8388608,
            history_segment_bytes: 8388608,
            snapshot_interval: 32,
            retain_events: None,
            compress_history: true,
            cache_bytes: DEFAULT_CACHE_BYTES,
            max_open_files: DEFAULT_OPEN_FILES,
            max_generations: 8,
            collect_entities: 8192,
        }
    }
}

impl Options {
    /// Whether a database can be opened with the options at a time.
    pub open spec fn valid(self, now: u64) -> bool {
        &&& self.limits.valid()
        &&& self.timeouts.valid(now)
        &&& self.group_commit.valid()
        &&& self.checkpoint_bytes >= 4096
        &&& self.history_segment_bytes >= 4096
        &&& 2 <= self.max_generations <= MAX_SLOTS
    }

    /// Accepts the options that a database can be opened with.
    pub fn validate(&self, now: u64) -> (r: Result<()>)
        ensures
            match r {
                Ok(_) => self.valid(now),
                Err(e) => !self.valid(now) && e is Invalid,
            },
    {
        self.limits.validate()?;
        self.timeouts.validate(now)?;
        self.group_commit.validate()?;
        if self.checkpoint_bytes < 4096 || self.history_segment_bytes < 4096 {
            return Err(invalid("checkpoint and segment targets must be at least 4096 bytes"));
        }
        if self.max_generations < 2 || self.max_generations > MAX_SLOTS {
            return Err(invalid("a manifest references between 2 and 256 generations"));
        }
        Ok(())
    }
}

} // verus!
