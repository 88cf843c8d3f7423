//! What is counted and when it ends: resources, deadlines, pinned views and the settling of a
//! group of commits.


use crate::admission::decoded_fits;
use crate::commit::Prepared;
use crate::commit::settled;
use crate::deadline::elapsed;
use crate::deadline::past;
use crate::error::Error;
use crate::key::lemma_listing;
use crate::key::listing;
use crate::key::lists;
use crate::memory::field_size;
use crate::memory::fields_size;
use crate::memory::lemma_lists_remove;
use crate::memory::lemma_total_order;
use crate::memory::lemma_total_remove;
use crate::model::ValueV;
use crate::pins::oldest;
use crate::pins::pinned;
use crate::pins::with_files;
use crate::reader::StateV;
use crate::record::lemma_increasing_distinct;
use crate::resources::Charge;
use crate::resources::Limits;
use crate::resources::MemoryKind;
use crate::resources::ResourceUsage;
use crate::resources::Resources;
use crate::resources::charged;
use crate::resources::countable;
use crate::resources::memory_charge;
use crate::resources::memory_limit;
use crate::resources::memory_used;
use crate::shared::shorter;
use crate::snapshot::FileInfo;
use crate::staging::Staging;
use crate::staging::refused;
use crate::storage::pager::FileId;
use vstd::utf8::encode_utf8;
use vstd::prelude::*;

verus! {

// ---- Resources ----

/// Every charge counts what it is for, and nothing else: a transaction one transaction, a
/// snapshot one snapshot and the bytes that it pins, writes their encoded and their decoded
/// bytes, a read its bytes and scratch its own.
pub proof fn lemma_charge(u: ResourceUsage, c: Charge)
    requires
        countable(u, c),
    ensures
        ({
            let n = charged(u, c);
            &&& n.transactions - u.transactions == (if c is Transaction {
                1int
            } else {
                0
            })
            &&& n.snapshots - u.snapshots == (if c is Snapshot {
                1int
            } else {
                0
            })
            &&& n.pinned_bytes - u.pinned_bytes == (match c {
                Charge::Snapshot(bytes) => bytes as int,
                _ => 0,
            })
            &&& n.resident_write_bytes - u.resident_write_bytes == (match c {
                Charge::Write(bytes, _) => bytes as int,
                _ => 0,
            })
            &&& n.decoded_write_bytes - u.decoded_write_bytes == (match c {
                Charge::Write(_, decoded) => decoded as int,
                _ => 0,
            })
            &&& n.read_memory_bytes - u.read_memory_bytes == (match c {
                Charge::Read(bytes) => bytes as int,
                _ => 0,
            })
            &&& n.scratch_bytes - u.scratch_bytes == (match c {
                Charge::Scratch(bytes) => bytes as int,
                _ => 0,
            })
        }),
{
}

/// Memory is counted under its kind: what is taken of one kind counts there in full and leaves
/// the other as it is, and the kinds have limits of their own.
pub proof fn lemma_memory(u: ResourceUsage, limits: Limits, kind: MemoryKind, other: MemoryKind, bytes: usize)
    requires
        countable(u, memory_charge(kind, bytes)),
    ensures
        ({
            let n = charged(u, memory_charge(kind, bytes));
            &&& memory_used(n, kind) == memory_used(u, kind) + bytes
            &&& other != kind ==> memory_used(n, other) == memory_used(u, other)
            &&& n.transactions == u.transactions && n.snapshots == u.snapshots
            &&& n.pinned_bytes == u.pinned_bytes
            &&& n.resident_write_bytes == u.resident_write_bytes
            &&& n.decoded_write_bytes == u.decoded_write_bytes
            &&& kind is Read ==> memory_used(u, kind) == u.read_memory_bytes && memory_limit(
                limits,
                kind,
            ) == limits.max_read_memory_bytes
            &&& kind is Scratch ==> memory_used(u, kind) == u.scratch_bytes && memory_limit(
                limits,
                kind,
            ) == limits.max_scratch_bytes
        }),
{
}

// ---- Deadlines ----

/// A deadline has come from its instant on and not before; without one it never comes. A span has
/// passed from its end on and not before, counted from an instant that is not yet to come; a span
/// of some length has not passed at an instant before its start.
pub proof fn lemma_deadlines(end: u64, since: u64, limit: u64, now: u64)
    ensures
        past(Some(end), now) <==> end <= now,
        !past(None, now),
        since <= now ==> (elapsed(since, now, Some(limit)) <==> since + limit <= now),
        now < since && limit > 0 ==> !elapsed(since, now, Some(limit)),
        !elapsed(since, now, None),
{
}

/// A duration that is asked for only shortens the configured one: the result is the lesser of the
/// two, and the configured one where none is asked for.
pub proof fn lemma_shorter(requested: Option<u64>, configured: u64)
    ensures
        shorter(requested, configured) <= configured,
        requested matches Some(t) ==> shorter(requested, configured) <= t,
        shorter(requested, configured) == configured || shorter(requested, configured)
            == requested.unwrap() && requested is Some,
        requested is None ==> shorter(requested, configured) == configured,
{
}

/// A transaction is settled before it is written exactly if its deadline has come, with that
/// error, or it has written nothing, with the number of the view that it started from; a deadline
/// that has come counts first.
pub proof fn lemma_settled(b: Prepared, now: u64)
    ensures
        ({
            let late = b.deadline matches Some(end) && end <= now;
            &&& late ==> settled(b, now) == Some(Err::<u64, Error>(Error::DeadlineExceeded))
            &&& !late && b.operations@.len() == 0 ==> settled(b, now) == Some(
                Ok::<u64, Error>(b.base_sequence),
            )
            &&& !late && b.operations@.len() > 0 ==> settled(b, now) is None
        }),
{
}

// ---- Pinned views ----

/// Whether a view refers to a file.
pub open spec fn refers(s: StateV, file: FileId) -> bool {
    exists|i: int| 0 <= i < s.root.files.len() && (#[trigger] s.root.files[i]).named() == file
}

/// Whether a view refers to a file with a size.
pub open spec fn refers_with(s: StateV, file: FileId, size: u64) -> bool {
    exists|i: int|
        0 <= i < s.root.files.len() && (#[trigger] s.root.files[i]).named() == file
            && s.root.files[i].size == size
}

proof fn lemma_with_files(m: Map<FileId, u64>, files: Seq<FileInfo>)
    ensures
        forall|f: FileId| #[trigger]
            with_files(m, files).contains_key(f) <==> m.contains_key(f) || exists|i: int|
                0 <= i < files.len() && (#[trigger] files[i]).named() == f,
        forall|f: FileId| #[trigger]
            with_files(m, files).contains_key(f) ==> (m.contains_key(f) && with_files(m, files)[f]
                == m[f]) || exists|i: int|
                0 <= i < files.len() && (#[trigger] files[i]).named() == f && files[i].size
                    == with_files(m, files)[f],
        m.dom().finite() ==> with_files(m, files).dom().finite(),
    decreases files.len(),
{
    if files.len() > 0 {
        let front = files.drop_last();
        let n = files.len() - 1;
        lemma_with_files(m, front);
        let w = with_files(m, files);
        assert forall|f: FileId| #[trigger] w.contains_key(f) <==> m.contains_key(f) || exists|i: int|
            0 <= i < files.len() && (#[trigger] files[i]).named() == f by {
            assert(w.contains_key(f) == (with_files(m, front).contains_key(f)
                || files.last().named() == f));
            if exists|i: int| 0 <= i < front.len() && (#[trigger] front[i]).named() == f {
                let i = choose|i: int| 0 <= i < front.len() && (#[trigger] front[i]).named() == f;
                assert(files[i].named() == f);
            }
            if files.last().named() == f {
                assert(files[n].named() == f);
            }
            if exists|i: int| 0 <= i < files.len() && (#[trigger] files[i]).named() == f {
                let i = choose|i: int| 0 <= i < files.len() && (#[trigger] files[i]).named() == f;
                if i < n {
                    assert(front[i].named() == f);
                }
            }
        }
        assert forall|f: FileId| #[trigger] w.contains_key(f) implies (m.contains_key(f) && w[f]
            == m[f]) || exists|i: int|
            0 <= i < files.len() && (#[trigger] files[i]).named() == f && files[i].size == w[f] by {
            if files.last().named() == f {
                assert(files[n].named() == f && files[n].size == w[f]);
            } else {
                let t = with_files(m, front);
                assert(t.contains_key(f));
                if !(m.contains_key(f) && t[f] == m[f]) {
                    let i = choose|i: int|
                        0 <= i < front.len() && (#[trigger] front[i]).named() == f && front[i].size
                            == t[f];
                    assert(files[i].named() == f);
                }
            }
        }
    }
}

/// The files that pinned views keep are exactly those that one of the views refers to, each with
/// a size that one of them names: none that a view needs is given up, and none is kept without
/// need. A further view keeps every file that was kept.
pub proof fn lemma_pinned(pins: Seq<StateV>)
    ensures
        forall|f: FileId| #[trigger]
            pinned(pins).contains_key(f) <==> exists|i: int|
                0 <= i < pins.len() && refers(#[trigger] pins[i], f),
        forall|f: FileId| #[trigger]
            pinned(pins).contains_key(f) ==> exists|i: int|
                0 <= i < pins.len() && refers_with(#[trigger] pins[i], f, pinned(pins)[f]),
        pinned(pins).dom().finite(),
    decreases pins.len(),
{
    if pins.len() > 0 {
        let front = pins.drop_last();
        let n = pins.len() - 1;
        let m = pinned(front);
        let files = pins.last().root.files;
        lemma_pinned(front);
        lemma_with_files(m, files);
        assert forall|f: FileId| #[trigger] pinned(pins).contains_key(f) <==> exists|i: int|
            0 <= i < pins.len() && refers(#[trigger] pins[i], f) by {
            if m.contains_key(f) {
                let i = choose|i: int| 0 <= i < front.len() && refers(#[trigger] front[i], f);
                assert(refers(pins[i], f));
            } else if pinned(pins).contains_key(f) {
                assert(refers(pins[n], f));
            }
            if exists|i: int| 0 <= i < pins.len() && refers(#[trigger] pins[i], f) {
                let i = choose|i: int| 0 <= i < pins.len() && refers(#[trigger] pins[i], f);
                if i < n {
                    assert(refers(front[i], f));
                }
            }
        }
        assert forall|f: FileId| #[trigger] pinned(pins).contains_key(f) implies exists|i: int|
            0 <= i < pins.len() && refers_with(#[trigger] pins[i], f, pinned(pins)[f]) by {
            if m.contains_key(f) && pinned(pins)[f] == m[f] {
                let i = choose|i: int|
                    0 <= i < front.len() && refers_with(#[trigger] front[i], f, m[f]);
                assert(refers_with(pins[i], f, m[f]));
            } else {
                assert(refers_with(pins[n], f, pinned(pins)[f]));
            }
        }
    } else {
        assert(pinned(pins).dom() =~= Set::empty());
    }
}

/// The oldest sequence of pinned views is that of one of them, and none has an earlier one; there
/// is none exactly if nothing is pinned.
pub proof fn lemma_oldest(pins: Seq<StateV>)
    ensures
        oldest(pins) is None <==> pins.len() == 0,
        oldest(pins) matches Some(n) ==> (exists|i: int|
            0 <= i < pins.len() && (#[trigger] pins[i]).lsn == n) && (forall|i: int|
            0 <= i < pins.len() ==> n <= (#[trigger] pins[i]).lsn),
    decreases pins.len(),
{
    if pins.len() > 0 {
        let front = pins.drop_last();
        let k = pins.len() - 1;
        lemma_oldest(front);
        let n = oldest(pins).unwrap();
        if oldest(front) is Some && oldest(front).unwrap() <= pins.last().lsn {
            let i = choose|i: int| 0 <= i < front.len() && (#[trigger] front[i]).lsn == n;
            assert(pins[i].lsn == n);
        } else {
            assert(pins[k].lsn == n);
        }
        assert forall|i: int| 0 <= i < pins.len() implies n <= (#[trigger] pins[i]).lsn by {
            if i < k {
                assert(front[i].lsn == pins[i].lsn);
            }
        }
    }
}

// ---- Limits on a transaction ----

/// A transaction takes an operation exactly while it has fewer operations than it may have, and
/// the bytes of the operation fit both into what the transaction may take and into what all
/// writes together may take. What is refused is refused with more bytes too. Recovery is held to
/// none of these limits.
pub proof fn lemma_refused(s: Staging, resources: Resources, bytes: nat, more: nat)
    ensures
        s.recovery ==> refused(s, resources, bytes) is None,
        !s.recovery ==> (refused(s, resources, bytes) is None <==> {
            &&& s.operations@.len() < resources.limits.max_transaction_operations
            &&& s.reservation.bytes + bytes <= resources.limits.max_transaction_bytes
            &&& resources.used().resident_write_bytes + bytes
                <= resources.limits.max_resident_write_bytes
        }),
        bytes <= more && refused(s, resources, bytes) is Some ==> refused(s, resources, more)
            is Some,
        refused(s, resources, bytes) matches Some(e) ==> e is LimitExceeded,
{
}

/// Decoded bytes are admitted exactly while they fit both into what the transaction may hold and
/// into what all writes together may hold; less is admitted wherever more is.
pub proof fn lemma_decoded(s: Staging, resources: Resources, bytes: usize, less: usize)
    ensures
        s.recovery ==> decoded_fits(s, resources, bytes),
        !s.recovery ==> (decoded_fits(s, resources, bytes) <==> {
            &&& s.reservation.decoded_bytes + bytes
                <= resources.limits.max_transaction_decoded_bytes
            &&& resources.used().decoded_write_bytes + bytes
                <= resources.limits.max_resident_decoded_write_bytes
        }),
        less <= bytes && decoded_fits(s, resources, bytes) ==> decoded_fits(s, resources, less),
{
}

// ---- Options ----

/// Limits that are accepted leave room to work: none that counts anything is zero, an encoded
/// transaction fits into a frame, and what is queued and what is resident hold at least one whole
/// transaction, encoded and decoded.
pub proof fn lemma_limits(l: Limits)
    ensures
        l.valid() <==> {
            &&& l.max_decoded_record_bytes != 0 && l.max_transaction_decoded_bytes != 0
            &&& l.max_read_memory_bytes != 0 && l.max_scratch_bytes != 0
            &&& l.max_read_result_bytes != 0
            &&& l.max_history_batch_events != 0 && l.max_history_batch_bytes != 0
            &&& l.max_transactions != 0 && l.max_snapshots != 0
            &&& l.max_transaction_operations != 0
            &&& l.max_queued_commits != 0
            &&& l.max_history_files != 0 && l.max_index_partitions != 0
            &&& l.max_uncheckpointed_wal_bytes != 0
            &&& 8 <= l.max_transaction_bytes <= 64 * 1024 * 1024
            &&& l.max_transaction_bytes <= l.max_queued_commit_bytes
            &&& l.max_transaction_bytes <= l.max_resident_write_bytes
            &&& l.max_transaction_decoded_bytes <= l.max_resident_decoded_write_bytes
        },
{
}

// ---- The size of assignments ----

/// Assignments take 128 bytes each and the bytes of their texts and byte strings: none take
/// nothing, and one more takes that much more, whatever the others are.
pub proof fn lemma_fields_size(m: Map<u32, ValueV>, k: u32, v: ValueV)
    requires
        m.dom().finite(),
        !m.contains_key(k),
    ensures
        fields_size(m.insert(k, v)) == fields_size(m) + 128 + (match v {
            ValueV::Text(text) => encode_utf8(text).len(),
            ValueV::Bytes(bytes) => bytes.len(),
            _ => 0,
        }),
        fields_size(Map::empty()) == 0,
{
    let n = m.insert(k, v);
    let (s, t) = (listing(n), listing(m));
    lemma_listing(n);
    lemma_listing(m);
    lemma_increasing_distinct(s);
    lemma_increasing_distinct(t);
    assert(n.contains_key(k));
    let j = choose|j: int| 0 <= j < s.len() && (#[trigger] s[j]).0 == k;
    assert(0 <= j < s.len() && s[j] == (k, v)) by {
        reveal(lists);
    }
    lemma_lists_remove(s, n, j);
    lemma_total_remove(s, field_size(), j);
    assert(n.remove(k) =~= m);
    lemma_total_order(s.remove(j), t, m, field_size());
    let none = Map::<u32, ValueV>::empty();
    lemma_listing(none);
    assert(listing(none).len() == 0) by {
        reveal(lists);
        if listing(none).len() > 0 {
            assert(none.contains_key(listing(none)[0].0));
        }
    }
}

} // verus!
