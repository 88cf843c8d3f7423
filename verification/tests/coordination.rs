//! Admission, queues, deadlines and the order of commits.

use evedb_core::commit_queue::{GroupCommit, Queue};
use evedb_core::deadline::{check, deadline, expired, LeaseState, Timeouts};
use evedb_core::error::Error;
use evedb_core::resources::{Limits, MemoryKind, Resources};
use evedb_core::shared::{Claim, IsolationLevel, Revisions, TransactionOptions};

fn claim(base: u64, keys: &[(u64, u64)], changes_catalog: bool) -> Claim {
    Claim { base, keys: keys.to_vec(), changes_catalog, is_empty: false }
}

#[test]
fn the_first_committer_wins_and_later_views_do_not_conflict() {
    let mut revisions = Revisions::new();
    revisions.record(&vec![(1, 7), (1, 8)], false, 5);
    assert!(revisions.check(5, &vec![(1, 7)]).is_ok());
    assert!(revisions.check(4, &vec![(1, 9), (2, 7)]).is_ok());
    assert!(matches!(
        revisions.check(4, &vec![(1, 9), (1, 8), (1, 7)]),
        Err(Error::Conflict { table: Some(1), entity: Some(8) })
    ));
    revisions.record(&vec![], true, 6);
    assert!(matches!(
        revisions.check(5, &vec![]),
        Err(Error::Conflict { table: None, entity: None })
    ));
    assert!(revisions.check(6, &vec![(1, 7)]).is_ok());
}

#[test]
fn pruned_revisions_change_no_decision_of_a_live_view() {
    let mut revisions = Revisions::new();
    revisions.record(&vec![(1, 1)], false, 3);
    revisions.record(&vec![(1, 2)], false, 4);
    revisions.prune(3);
    assert!(revisions.entities.get(&(1, 1)).is_none());
    assert_eq!(revisions.entities.get(&(1, 2)), Some(&4));
    assert!(revisions.check(3, &vec![(1, 1)]).is_ok());
    assert!(revisions.check(3, &vec![(1, 2)]).is_err());
}

#[test]
fn a_group_is_screened_in_order_and_against_itself() {
    let mut revisions = Revisions::new();
    revisions.record(&vec![(1, 1)], false, 9);
    let claims = vec![
        claim(9, &[(1, 1)], false),
        claim(9, &[(1, 2), (1, 1)], false),
        claim(8, &[(1, 1)], false),
        claim(9, &[(1, 3)], true),
        claim(9, &[(1, 4)], false),
        Claim { base: 0, keys: vec![], changes_catalog: false, is_empty: true },
    ];
    let verdicts = revisions.screen(&claims, 10);
    assert_eq!(verdicts.len(), 6);
    assert!(verdicts[0].is_ok());
    assert!(matches!(
        verdicts[1],
        Err(Error::Conflict { table: Some(1), entity: Some(1) })
    ));
    assert!(matches!(
        verdicts[2],
        Err(Error::Conflict { table: Some(1), entity: Some(1) })
    ));
    assert!(verdicts[3].is_ok());
    assert!(matches!(verdicts[4], Err(Error::Conflict { table: None, entity: None })));
    assert!(verdicts[5].is_ok());
    // Nothing is recorded before the commit.
    assert_eq!(revisions.entities.get(&(1, 1)), Some(&9));
    assert_eq!(revisions.catalog, 0);
}

#[test]
fn only_snapshot_isolation_is_supported_and_shorter_deadlines_win() {
    assert!(TransactionOptions::default().supported().is_ok());
    for level in [IsolationLevel::ReadCommitted, IsolationLevel::Serializable] {
        match TransactionOptions::with_isolation(level).supported() {
            Err(Error::UnsupportedIsolation(rejected)) => assert_eq!(rejected, level),
            _ => panic!("a weaker level was substituted"),
        }
    }
    let mut options = TransactionOptions::default();
    assert_eq!(options.limits(60, 30), (60, 30));
    options.timeout = Some(10);
    options.idle_timeout = Some(40);
    assert_eq!(options.limits(60, 30), (10, 30));
}

#[test]
fn queued_commits_are_bounded_claimed_in_order_and_cancellable_until_claimed() {
    let mut limits = Limits::default();
    limits.max_queued_commits = 3;
    limits.max_queued_commit_bytes = 100;
    let mut queue = Queue::default();
    let first = queue.submit("a", 40, &limits).unwrap();
    let second = queue.submit("b", 40, &limits).unwrap();
    assert!(matches!(
        queue.submit("c", 40, &limits),
        Err(Error::LimitExceeded { resource: "queued commit bytes", limit: 100 })
    ));
    let third = queue.submit("d", 10, &limits).unwrap();
    assert!(matches!(
        queue.submit("e", 0, &limits),
        Err(Error::LimitExceeded { resource: "queued commits", limit: 3 })
    ));
    assert!(first < second && second < third);
    assert_eq!(queue.cancel(second).map(|request| request.batch), Some("b"));
    assert!(queue.cancel(second).is_none());
    queue.start();
    let bounds = GroupCommit { max_transactions: 8, max_bytes: 45, delay: 0 };
    let claimed = queue.claim(&bounds);
    assert_eq!(claimed.len(), 1, "a request that does not fit waits for the next flush");
    assert_eq!(claimed[0].batch, "a");
    assert!(queue.cancel(first).is_none(), "a claimed request cannot be cancelled");
    queue.finish(1, 40);
    queue.start();
    let claimed = queue.claim(&bounds);
    assert_eq!(claimed[0].batch, "d");
    queue.finish(1, 10);
}

#[test]
fn a_request_larger_than_the_flush_bound_runs_alone() {
    let limits = Limits::default();
    let mut queue = Queue::default();
    queue.submit(1, 500, &limits).unwrap();
    queue.submit(2, 1, &limits).unwrap();
    let bounds = GroupCommit { max_transactions: 8, max_bytes: 100, delay: 0 };
    queue.start();
    let claimed = queue.claim(&bounds);
    assert_eq!(claimed.iter().map(|request| request.batch).collect::<Vec<_>>(), [1]);
}

#[test]
fn group_bounds_and_timeouts_are_validated() {
    assert!(GroupCommit::default().validate().is_ok());
    let mut bounds = GroupCommit::default();
    bounds.delay = 1_000_000_001;
    assert!(matches!(bounds.validate(), Err(Error::Invalid(_))));
    bounds.delay = 1_000_000_000;
    assert!(bounds.validate().is_ok());
    bounds.max_transactions = 0;
    assert!(matches!(bounds.validate(), Err(Error::Invalid(_))));
    assert!(Timeouts::default().validate(0).is_ok());
    assert!(matches!(Timeouts::default().validate(u64::MAX), Err(Error::Invalid(_))));
    let mut timeouts = Timeouts::default();
    timeouts.reap_interval = 0;
    assert!(matches!(timeouts.validate(0), Err(Error::Invalid(_))));
}

#[test]
fn deadlines_pass_at_their_instant() {
    assert_eq!(deadline(10, 5).unwrap(), 15);
    assert!(matches!(deadline(10, 0), Err(Error::Invalid(_))));
    assert!(!expired(None, u64::MAX));
    assert!(!expired(Some(15), 14));
    assert!(expired(Some(15), 15));
    assert!(check(Some(15), 14).is_ok());
    assert!(matches!(check(Some(15), 15), Err(Error::DeadlineExceeded)));
}

#[test]
fn an_expired_lease_gives_its_value_up_for_good() {
    let mut lease = LeaseState::new("held", 100, Some(50), Some(20), Some(5)).unwrap();
    assert!(lease.watched());
    assert!(lease.enter(110).is_ok());
    assert!(lease.leave(110, 114).is_ok());
    lease.expire(130);
    assert!(lease.value.is_some(), "the idle interval starts anew with each use");
    lease.expire(134);
    assert!(lease.value.is_none());
    assert!(matches!(lease.enter(120), Err(Error::TransactionExpired)));
    assert!(matches!(lease.take(120), Err(Error::TransactionExpired)));

    let mut slow = LeaseState::new(1, 0, None, None, Some(5)).unwrap();
    assert!(!slow.watched());
    assert!(slow.enter(0).is_ok());
    assert!(matches!(slow.leave(0, 5), Err(Error::DeadlineExceeded)));
    assert!(slow.value.is_none());

    let mut taken = LeaseState::new(1, 0, Some(9), None, None).unwrap();
    assert_eq!(taken.take(8).unwrap(), 1);
    assert!(LeaseState::new(1, 0, Some(0), None, None).is_err());
}

#[test]
fn charges_stop_at_their_limits_and_are_given_back() {
    let mut limits = Limits::default();
    limits.max_transactions = 1;
    limits.max_snapshots = 1;
    limits.max_pinned_bytes = 10;
    limits.max_read_memory_bytes = 8;
    limits.max_scratch_bytes = 4;
    let mut resources = Resources::new(limits);
    let permit = resources.transaction().unwrap();
    assert!(matches!(
        resources.transaction(),
        Err(Error::LimitExceeded { resource: "active transactions", limit: 1 })
    ));
    resources.release(permit);
    let permit = resources.transaction().unwrap();
    resources.release(permit);
    assert!(resources.snapshot(11).is_err());
    let pin = resources.snapshot(10).unwrap();
    assert!(resources.snapshot(0).is_err());
    assert_eq!(resources.usage().pinned_bytes, 10);
    resources.release(pin);
    let mut read = resources.memory(MemoryKind::Read, 5, false).unwrap();
    assert!(read.grow(&mut resources, 3, false).is_ok());
    assert!(matches!(
        read.grow(&mut resources, 1, false),
        Err(Error::LimitExceeded { resource: "decoded read bytes", limit: 8 })
    ));
    assert!(matches!(
        resources.memory(MemoryKind::Scratch, 5, false),
        Err(Error::LimitExceeded { resource: "scratch bytes", limit: 4 })
    ));
    resources.release_memory(read);
    assert_eq!(resources.usage().read_memory_bytes, 0);
    assert_eq!(resources.usage().pinned_bytes, 0);
}

#[test]
fn impossible_limits_are_rejected() {
    assert!(Limits::default().validate().is_ok());
    let mut limits = Limits::default();
    limits.max_transactions = 0;
    assert!(matches!(limits.validate(), Err(Error::Invalid(_))));
    let mut limits = Limits::default();
    limits.max_resident_decoded_write_bytes = limits.max_transaction_decoded_bytes - 1;
    assert!(matches!(limits.validate(), Err(Error::Invalid(_))));
}
