//! What pinned snapshots hold on to.

use crate::error::Error;
use crate::error::Result;
use crate::key::lemma_listing_is;
use crate::key::listing;
use crate::ordered_map::OrderedMap;
use crate::reader::ReadState;
use crate::reader::StateV;
use crate::snapshot::FileInfo;
use crate::snapshot::Root;
use crate::storage::pager::FileId;
use vstd::prelude::*;

verus! {

/// Snapshot retention costs. Clones of a snapshot count as one pin.
#[derive(Clone, Copy, Debug, PartialEq, Eq, Structural)]
pub struct SnapshotStats {
    /// Independently pinned snapshots, with transactions using them.
    pub active: usize,
    /// Oldest pinned committed sequence, if any.
    pub oldest_sequence: Option<u64>,
    /// Unique checkpoint bytes referenced by pins, with files still current.
    /// This leaves overlays out and is not an estimate of total process memory.
    pub referenced_bytes: u64,
}

/// Sizes of files, with those of more files.
pub open spec fn with_files(m: Map<FileId, u64>, files: Seq<FileInfo>) -> Map<FileId, u64>
    decreases files.len(),
{
    if files.len() == 0 {
        m
    } else {
        with_files(m, files.drop_last()).insert(files.last().named(), files.last().size)
    }
}

/// The files that pinned views refer to, with their sizes.
pub open spec fn pinned(pins: Seq<StateV>) -> Map<FileId, u64>
    decreases pins.len(),
{
    if pins.len() == 0 {
        Map::empty()
    } else {
        with_files(pinned(pins.drop_last()), pins.last().root.files)
    }
}

/// The earliest sequence of pinned views.
pub open spec fn oldest(pins: Seq<StateV>) -> Option<u64>
    decreases pins.len(),
{
    if pins.len() == 0 {
        None
    } else {
        match oldest(pins.drop_last()) {
            Some(n) if n <= pins.last().lsn => Some(n),
            _ => Some(pins.last().lsn),
        }
    }
}

/// Sizes added up.
pub open spec fn size_sum(s: Seq<(FileId, u64)>) -> nat
    decreases s.len(),
{
    if s.len() == 0 {
        0
    } else {
        size_sum(s.drop_last()) + s.last().1 as nat
    }
}

/// What views stand for.
pub open spec fn pins_view(pins: Seq<&ReadState>) -> Seq<StateV> {
    pins.map_values(|p: &ReadState| p@)
}

fn add_files(m: &mut OrderedMap<FileId, u64>, files: &Vec<FileInfo>)
    ensures
        final(m)@ == with_files(old(m)@, files@),
{
    let ghost was = m@;
    let mut i: usize = 0;
    assert(files@.take(0) =~= Seq::empty());
    while i < files.len()
        invariant
            i <= files@.len(),
            m@ == with_files(was, files@.take(i as int)),
        decreases files@.len() - i,
    {
        proof {
            assert(files@.take(i + 1).drop_last() =~= files@.take(i as int));
            assert(files@.take(i + 1).last() == files@[i as int]);
        }
        m.insert(files[i].id(), files[i].size);
        i = i + 1;
    }
    assert(files@.take(i as int) =~= files@);
}

/// The files that pinned views refer to, with their sizes.
pub fn pinned_files(pins: &Vec<&ReadState>) -> (files: OrderedMap<FileId, u64>)
    ensures
        files@ == pinned(pins_view(pins@)),
{
    let ghost all = pins_view(pins@);
    let mut files: OrderedMap<FileId, u64> = OrderedMap::new();
    let mut i: usize = 0;
    assert(all.take(0) =~= Seq::empty());
    while i < pins.len()
        invariant
            i <= pins@.len(),
            all == pins_view(pins@),
            files@ == pinned(all.take(i as int)),
        decreases pins@.len() - i,
    {
        proof {
            assert(all.take(i + 1).drop_last() =~= all.take(i as int));
            assert(all.take(i + 1).last() == pins@[i as int]@);
        }
        add_files(&mut files, &pins[i].root.files);
        i = i + 1;
    }
    assert(all.take(i as int) =~= all);
    files
}

/// Reports checkpoint retention by pinned views. Bytes are counted to the greatest number.
pub fn snapshot_stats(pins: &Vec<&ReadState>) -> (stats: SnapshotStats)
    ensures
        stats.active == pins@.len(),
        stats.oldest_sequence == oldest(pins_view(pins@)),
        ({
            let sum = size_sum(listing(pinned(pins_view(pins@))));
            stats.referenced_bytes == if sum <= u64::MAX {
                sum
            } else {
                u64::MAX as nat
            }
        }),
{
    let ghost all = pins_view(pins@);
    let mut first: Option<u64> = None;
    let mut i: usize = 0;
    assert(all.take(0) =~= Seq::empty());
    while i < pins.len()
        invariant
            i <= pins@.len(),
            all == pins_view(pins@),
            first == oldest(all.take(i as int)),
        decreases pins@.len() - i,
    {
        proof {
            assert(all.take(i + 1).drop_last() =~= all.take(i as int));
            assert(all.take(i + 1).last() == pins@[i as int]@);
        }
        let lsn: u64 = pins[i].lsn;
        first = match first {
            Some(n) => if n <= lsn {
                Some(n)
            } else {
                Some(lsn)
            },
            None => Some(lsn),
        };
        i = i + 1;
    }
    assert(all.take(i as int) =~= all);
    let files = pinned_files(pins);
    let items = files.items();
    let ghost s = files.entries();
    let ghost pair = |e: (&FileId, &u64)| (*e.0, *e.1);
    proof {
        lemma_listing_is(s, files@);
        assert(items@.map_values(pair).len() == items@.len());
        assert(s.take(0) =~= Seq::empty());
    }
    let mut bytes: u64 = 0;
    let mut k: usize = 0;
    while k < items.len()
        invariant
            k <= items@.len(),
            pair == (|e: (&FileId, &u64)| (*e.0, *e.1)),
            items@.map_values(pair) == s,
            bytes == (if size_sum(s.take(k as int)) <= u64::MAX {
                size_sum(s.take(k as int))
            } else {
                u64::MAX as nat
            }),
        decreases items@.len() - k,
    {
        proof {
            assert(items@.map_values(pair)[k as int] == s[k as int]);
            assert(s.take(k + 1).drop_last() =~= s.take(k as int));
            assert(s.take(k + 1).last() == s[k as int]);
        }
        bytes = bytes.saturating_add(*items[k].1);
        k = k + 1;
    }
    assert(s.take(k as int) =~= s);
    SnapshotStats { active: pins.len(), oldest_sequence: first, referenced_bytes: bytes }
}

/// Sizes of files added up, each counted to the greatest machine size.
pub open spec fn machine_sizes(files: Seq<FileInfo>) -> nat
    decreases files.len(),
{
    if files.len() == 0 {
        0
    } else {
        machine_sizes(files.drop_last()) + (if files.last().size <= usize::MAX {
            files.last().size as nat
        } else {
            usize::MAX as nat
        })
    }
}

/// The bytes that pinning a manifest is charged for.
pub fn pin_bytes(root: &Root, limit: usize) -> (r: Result<usize>)
    ensures
        match r {
            Ok(n) => n == machine_sizes(root.files@),
            Err(e) => machine_sizes(root.files@) > usize::MAX && e == (Error::LimitExceeded {
                resource: "pinned checkpoint bytes",
                limit,
            }),
        },
{
    let mut n: usize = 0;
    let mut i: usize = 0;
    assert(root.files@.take(0) =~= Seq::empty());
    while i < root.files.len()
        invariant
            i <= root.files@.len(),
            n == machine_sizes(root.files@.take(i as int)),
        decreases root.files@.len() - i,
    {
        let size: u64 = root.files[i].size;
        proof {
            assert(root.files@.take(i + 1).drop_last() =~= root.files@.take(i as int));
            assert(root.files@.take(i + 1).last() == root.files@[i as int]);
        }
        let counted: usize = if size > usize::MAX as u64 {
            usize::MAX
        } else {
            size as usize
        };
        match n.checked_add(counted) {
            Some(sum) => {
                n = sum;
            },
            None => {
                proof {
                    lemma_sizes_more(root.files@, i + 1);
                }
                return Err(Error::LimitExceeded { resource: "pinned checkpoint bytes", limit });
            },
        }
        i = i + 1;
    }
    assert(root.files@.take(i as int) =~= root.files@);
    Ok(n)
}

proof fn lemma_sizes_more(files: Seq<FileInfo>, n: int)
    requires
        0 <= n <= files.len(),
    ensures
        machine_sizes(files.take(n)) <= machine_sizes(files),
    decreases files.len(),
{
    if n < files.len() {
        lemma_sizes_more(files.drop_last(), n);
        assert(files.drop_last().take(n) =~= files.take(n));
    } else {
        assert(files.take(n) =~= files);
    }
}

} // verus!
