//! What a log is read as: the checkpoints of a segment, the records that replay takes, the
//! numbers that follow, and how history records are packed.


use crate::bytes::lemma_le_len;
use crate::commit::first_writes;
use crate::commit::published;
use crate::error::Fault;
use crate::history::packed;
use crate::history::rle;
use crate::operation::dec_ops;
use crate::partitions::Route;
use crate::reader::StateV;
use crate::recovery::next_number;
use crate::recovery::replayed_record;
use crate::recovery::segment_roots;
use crate::snapshot::RootV;
use crate::snapshot::Share;
use crate::snapshot::complete_part;
use crate::snapshot::dec_root;
use crate::snapshot::valid_file;
use crate::snapshot::valid_part;
use crate::staging::executed_all;
use crate::storage::frame::FrameV;
use crate::storage::pager::FileId;
use crate::storage::pager::Files;
use vstd::prelude::*;

verus! {

// ---- Segments ----

/// Whether a record may stand in a log segment: a checkpoint that can be read, is of no later
/// generation than the segment and has the number of its record, or a transaction.
pub open spec fn belongs(number: u64, f: FrameV) -> bool {
    if f.kind == 1 {
        dec_root(f.payload) matches Some(r) && r.generation <= number && r.lsn == f.lsn
    } else {
        f.kind == 2
    }
}

/// The checkpoints among records.
pub open spec fn is_checkpoint() -> spec_fn(FrameV) -> bool {
    |f: FrameV| f.kind == 1
}

/// The manifest of a record.
pub open spec fn manifest_of() -> spec_fn(FrameV) -> RootV {
    |f: FrameV| dec_root(f.payload).unwrap()
}

/// One more record of a segment.
proof fn lemma_one_more(number: u64, frames: Seq<FrameV>)
    requires
        frames.len() > 0,
    ensures
        ({
            let f = frames.last();
            let front = segment_roots(number, frames.drop_last());
            let all = segment_roots(number, frames);
            &&& all is Some <==> front is Some && belongs(number, f) && (f.kind == 1 || frames.len()
                > 1)
            &&& all is Some && f.kind == 1 ==> all.unwrap() == front.unwrap().push(
                manifest_of()(f),
            )
            &&& all is Some && f.kind != 1 ==> all == front
        }),
{
}

/// Records make up a log segment exactly if the first is a checkpoint and each belongs there;
/// then the checkpoints of the segment are the manifests of these records, all and in order.
pub proof fn lemma_segment(number: u64, frames: Seq<FrameV>)
    ensures
        segment_roots(number, frames) is Some <==> (frames.len() > 0 ==> frames[0].kind == 1)
            && all_belong(number, frames),
        segment_roots(number, frames) matches Some(roots) ==> roots == frames.filter(
            is_checkpoint(),
        ).map_values(manifest_of()),
    decreases frames.len(),
{
    if frames.len() > 0 {
        let front = frames.drop_last();
        lemma_segment(number, front);
        lemma_one_more(number, frames);
        lemma_filter_last(frames);
        lemma_belong_last(number, frames);
        if front.len() > 0 {
            assert(front[0] == frames[0]);
        } else {
            assert(frames[0] == frames.last());
        }
        let rest = front.filter(is_checkpoint());
        if frames.last().kind == 1 {
            assert(rest.push(frames.last()).map_values(manifest_of()) =~= rest.map_values(
                manifest_of(),
            ).push(manifest_of()(frames.last())));
        }
    } else {
        reveal(Seq::filter);
        assert(frames.filter(is_checkpoint()).map_values(manifest_of()) =~= Seq::empty());
    }
}

/// Whether each of some records may stand in a log segment.
pub open spec fn all_belong(number: u64, frames: Seq<FrameV>) -> bool {
    forall|i: int| 0 <= i < frames.len() ==> belongs(number, #[trigger] frames[i])
}

proof fn lemma_belong_last(number: u64, frames: Seq<FrameV>)
    requires
        frames.len() > 0,
    ensures
        all_belong(number, frames) == (all_belong(number, frames.drop_last()) && belongs(
            number,
            frames.last(),
        )),
{
    let front = frames.drop_last();
    if all_belong(number, frames) {
        assert forall|i: int| 0 <= i < front.len() implies belongs(number, #[trigger] front[i]) by {
            assert(front[i] == frames[i]);
        }
        assert(belongs(number, frames[frames.len() - 1]));
    }
    if all_belong(number, front) && belongs(number, frames.last()) {
        assert forall|i: int| 0 <= i < frames.len() implies belongs(number, #[trigger] frames[i]) by {
            if i < front.len() {
                assert(belongs(number, front[i]));
            }
        }
    }
}

proof fn lemma_filter_last(frames: Seq<FrameV>)
    requires
        frames.len() > 0,
    ensures
        frames.filter(is_checkpoint()) == (if frames.last().kind == 1 {
            frames.drop_last().filter(is_checkpoint()).push(frames.last())
        } else {
            frames.drop_last().filter(is_checkpoint())
        }),
{
    reveal(Seq::filter);
}

/// The next generation is behind every one that a catalog or a segment is named after, and no
/// further than it has to be.
pub proof fn lemma_next_number(last_catalog: Option<u64>, last_segment: u64)
    ensures
        ({
            let n = next_number(last_catalog, last_segment);
            &&& last_segment < u64::MAX ==> n > last_segment
            &&& last_catalog matches Some(g) ==> (g < u64::MAX ==> n > g)
            &&& n > 0
            &&& n == 1 || n == u64::MAX || last_segment == n - 1 || (last_catalog matches Some(g)
                && g == n - 1)
        }),
{
}

// ---- Records ----

/// A record changes a view only where it is the transaction that comes next: then the view is
/// what its operations make, under its number. A checkpoint, and a transaction that the view's
/// own checkpoint covers, change nothing. One that leaves a gap or comes again, one that cannot be
/// read or carried out, and one of another kind are damaged.
pub proof fn lemma_record(s: StateV, files: Files, f: FrameV)
    ensures
        ({
            let r = replayed_record(s, files, f);
            &&& f.kind == 1 ==> r == Ok::<_, Fault>(s)
            &&& f.kind == 2 && f.lsn <= s.root.lsn ==> r == Ok::<_, Fault>(s)
            &&& f.kind != 1 && f.kind != 2 ==> r == Err::<StateV, _>(Fault::Corrupt)
            &&& f.kind == 2 && f.lsn > s.root.lsn ==> {
                &&& r is Ok ==> {
                    &&& f.lsn == s.lsn + 1
                    &&& r->Ok_0.lsn == f.lsn
                    &&& r->Ok_0.root == s.root && r->Ok_0.poisoned == s.poisoned
                }
                &&& r is Err ==> r->Err_0 is Corrupt
                &&& f.lsn != s.lsn + 1 ==> r is Err
                &&& f.lsn == s.lsn + 1 && dec_ops(f.payload) is None ==> r is Err
                &&& f.lsn == s.lsn + 1 && dec_ops(f.payload) is Some ==> {
                    let done = executed_all(
                        s,
                        files,
                        first_writes(s),
                        dec_ops(f.payload).unwrap(),
                    );
                    &&& done is Err ==> r is Err
                    &&& done is Ok ==> r == Ok::<_, Fault>(published(s, done->Ok_0, f.lsn))
                }
            }
        }),
{
}

// ---- Packing ----

/// Packing never makes a record longer than it has to be: it takes thirteen bytes in front and
/// the record as it is, or its runs where they are shorter and compression is wanted.
pub proof fn lemma_packing(id: u64, bytes: Seq<u8>, compress: bool)
    ensures
        packed(id, bytes, compress).len() <= 13 + bytes.len(),
        !compress ==> packed(id, bytes, compress).skip(13) == bytes,
        compress && rle(bytes).len() >= bytes.len() ==> packed(id, bytes, compress).skip(13)
            == bytes,
        compress && rle(bytes).len() < bytes.len() ==> packed(id, bytes, compress).skip(13) == rle(
            bytes,
        ),
        packed(id, bytes, compress).len() > 8,
        packed(id, bytes, compress)[8] == (if compress && rle(bytes).len() < bytes.len() {
            1u8
        } else {
            0u8
        }),
{
    lemma_le_len(id as nat, 8);
    lemma_le_len(bytes.len(), 4);
    let s = packed(id, bytes, compress);
    assert(s.skip(13) =~= if compress && rle(bytes).len() < bytes.len() {
        rle(bytes)
    } else {
        bytes
    });
}

// ---- Manifests ----

/// A manifest that is read agrees with itself. Its generations ascend, are no more than 256 and
/// end with its own; its files are named once each, and every file that an index or its entries
/// need is among them, with the page that the index starts at. What an index covers lies in one
/// bucket of a table that there is, and a count of dead entities is not above that of all.
pub proof fn lemma_manifest(s: Seq<u8>)
    requires
        dec_root(s) is Some,
    ensures
        ({
            let r = dec_root(s).unwrap();
            &&& 0 < r.generations.len() <= 256
            &&& r.generations[r.generations.len() - 1].generation == r.generation
            &&& forall|i: int, j: int|
                0 <= i < j < r.generations.len() ==> (#[trigger] r.generations[i]).generation < (
                #[trigger] r.generations[j]).generation
            &&& forall|i: int, j: int|
                0 <= i < r.files.len() && 0 <= j < r.files.len() && i != j ==> (
                #[trigger] r.files[i]).named() != (#[trigger] r.files[j]).named()
            &&& forall|i: int|
                0 <= i < r.files.len() ==> r.catalog.contains_key((#[trigger] r.files[i]).table)
                    && r.files[i].kind <= 6
            &&& forall|at: Route| #[trigger]
                r.partitions.contains_key(at) ==> {
                    let p = r.partitions[at];
                    &&& r.catalog.contains_key(at.table)
                    &&& at.kind == 3 || at.kind == 4 || at.kind == 5
                    &&& p.file.generation <= r.generation && p.lsn <= r.lsn
                    &&& holds(r, p.file, 8192 * (p.base + 1))
                    &&& forall|f: FileId| #[trigger]
                        p.dependencies.contains_key(f) ==> f.table == at.table && holds(r, f, 0)
                    &&& forall|slot: u8| #[trigger]
                        p.slots.contains_key(slot) ==> p.slots[slot] < r.generations.len()
                }
            &&& forall|a: u64, b: u64| #[trigger]
                r.catalog.contains_key(a) && #[trigger] r.catalog.contains_key(b) && a != b
                    ==> r.catalog[a].name != r.catalog[b].name
            &&& forall|at: Share| #[trigger]
                r.occupancy.contains_key(at) ==> r.catalog.contains_key(at.table) && at.slot
                    < r.generations.len() && r.occupancy[at].dead <= r.occupancy[at].entities
        }),
{
    let r = dec_root(s).unwrap();
    assert forall|i: int, j: int|
        0 <= i < r.files.len() && 0 <= j < r.files.len() && i != j implies (
    #[trigger] r.files[i]).named() != (#[trigger] r.files[j]).named() by {
        if i < j {
            assert(r.files[i].named() != r.files[j].named());
        } else {
            assert(r.files[j].named() != r.files[i].named());
        }
    }
    assert forall|i: int| 0 <= i < r.files.len() implies r.catalog.contains_key(
        (#[trigger] r.files[i]).table,
    ) && r.files[i].kind <= 6 by {
        assert(valid_file(r, r.files[i]));
    }
    assert forall|at: Route| #[trigger] r.partitions.contains_key(at) implies holds(
        r,
        r.partitions[at].file,
        8192 * (r.partitions[at].base + 1),
    ) && forall|f: FileId| #[trigger]
        r.partitions[at].dependencies.contains_key(f) ==> f.table == at.table && holds(r, f, 0) by {
        let p = r.partitions[at];
        assert(valid_part(r, at, p));
        assert(complete_part(r.files, p));
        let i = choose|i: int|
            0 <= i < r.files.len() && (#[trigger] r.files[i]).named() == p.file && p.base
                < r.files[i].size / 8192;
        assert(r.files[i].named() == p.file);
        assert forall|f: FileId| #[trigger] p.dependencies.contains_key(f) implies f.table
            == at.table && holds(r, f, 0) by {
            let k = choose|k: int| 0 <= k < r.files.len() && (#[trigger] r.files[k]).named() == f;
            assert(r.files[k].named() == f);
        }
    }
}

/// Whether a manifest lists a file of at least a size.
pub open spec fn holds(r: RootV, f: FileId, size: int) -> bool {
    exists|i: int|
        0 <= i < r.files.len() && (#[trigger] r.files[i]).named() == f && r.files[i].size >= size
}

} // verus!
