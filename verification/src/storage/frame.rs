//! Frames: payloads between a checked header and a commit mark.
//!
//! | bytes    | content                                |
//! |----------|----------------------------------------|
//! | 0..4     | `EVFR`                                 |
//! | 4..6     | format version, 1                      |
//! | 6..8     | kind                                   |
//! | 8..16    | transaction sequence number            |
//! | 16..24   | payload length                         |
//! | 24..28   | CRC-32C of the payload                 |
//! | 28..32   | CRC-32C of the header up to here       |
//! | 32..     | payload, then `EVCOMMIT`               |

use crate::bytes::get_le;
use crate::bytes::le;
use crate::bytes::lemma_le_len;
use crate::bytes::lemma_le_un_le;
use crate::bytes::lemma_pow256;
use crate::bytes::lemma_un_le_bound;
use crate::bytes::lemma_un_le_le;
use crate::bytes::put_bytes;
use crate::bytes::put_le;
use crate::bytes::un_le;
use crate::checksum::crc;
use crate::checksum::crc32c;
use crate::checksum::lemma_changed_byte;
use crate::codec::MAX_FRAME;
use crate::error::corrupt;
use crate::error::invalid;
use crate::error::Error;
use crate::error::Result;
use crate::storage::pager::extent_of;
use crate::storage::pager::lacks;
use crate::storage::pager::length_request;
use crate::storage::pager::Extent;
use crate::storage::pager::FileId;
use crate::storage::pager::Files;
use crate::storage::pager::Loaded;
use vstd::prelude::*;

verus! {

/// A payload with its kind and transaction sequence number.
pub struct Frame {
    /// What the payload is.
    pub kind: u16,
    /// The transaction sequence number.
    pub lsn: u64,
    /// The payload.
    pub payload: Vec<u8>,
}

/// What a frame stands for.
pub struct FrameV {
    /// What the payload is.
    pub kind: u16,
    /// The transaction sequence number.
    pub lsn: u64,
    /// The payload.
    pub payload: Seq<u8>,
}

impl View for Frame {
    type V = FrameV;

    open spec fn view(&self) -> FrameV {
        FrameV { kind: self.kind, lsn: self.lsn, payload: self.payload@ }
    }
}

/// The first bytes of a header.
pub open spec fn magic() -> Seq<u8> {
    seq![69u8, 86u8, 70u8, 82u8]
}

/// The last bytes of a frame.
pub open spec fn trailer() -> Seq<u8> {
    seq![69u8, 86u8, 67u8, 79u8, 77u8, 77u8, 73u8, 84u8]
}

/// A header up to its own checksum.
pub open spec fn enc_head(f: FrameV) -> Seq<u8> {
    magic() + le(1, 2) + le(f.kind as nat, 2) + le(f.lsn as nat, 8) + le(f.payload.len(), 8) + le(
        crc(f.payload) as nat,
        4,
    )
}

/// An encoded frame.
pub open spec fn enc_frame(f: FrameV) -> Seq<u8> {
    enc_head(f) + le(crc(enc_head(f)) as nat, 4) + f.payload + trailer()
}

/// What bytes hold at their front.
pub enum Read {
    /// Less than a frame.
    Incomplete,
    /// A frame that fails its checks.
    Damaged,
    /// A frame.
    Complete(FrameV),
}

/// Whether a header of 32 bytes is one, and its checksum right.
pub open spec fn valid_header(h: Seq<u8>) -> bool {
    &&& h.subrange(0, 4) == magic()
    &&& h.subrange(4, 6) == le(1, 2)
    &&& crc(h.subrange(0, 28)) == un_le(h.subrange(28, 32))
}

/// The payload length that a header gives.
pub open spec fn payload_length(h: Seq<u8>) -> nat {
    un_le(h.subrange(16, 24))
}

/// The frame that a header makes of a payload and what follows it.
pub open spec fn assembled(h: Seq<u8>, payload: Seq<u8>, end: Seq<u8>) -> Option<FrameV> {
    if end == trailer() && crc(payload) == un_le(h.subrange(24, 28)) {
        Some(
            FrameV {
                kind: un_le(h.subrange(6, 8)) as u16,
                lsn: un_le(h.subrange(8, 16)) as u64,
                payload,
            },
        )
    } else {
        None
    }
}

/// What bytes hold at their front.
pub open spec fn read_frame(s: Seq<u8>) -> Read {
    if s.len() < 32 {
        Read::Incomplete
    } else {
        let h = s.subrange(0, 32);
        let n = payload_length(h);
        if !valid_header(h) || n > MAX_FRAME {
            Read::Damaged
        } else if s.len() < 40 + n {
            Read::Incomplete
        } else {
            match assembled(
                h,
                s.subrange(32, (32 + n) as int),
                s.subrange((32 + n) as int, (40 + n) as int),
            ) {
                Some(f) => Read::Complete(f),
                None => Read::Damaged,
            }
        }
    }
}

// ---- Laws ----

proof fn lemma_head(f: FrameV)
    requires
        f.payload.len() <= MAX_FRAME,
    ensures
        enc_head(f).len() == 28,
        enc_head(f).subrange(0, 4) == magic(),
        enc_head(f).subrange(4, 6) == le(1, 2),
        un_le(enc_head(f).subrange(6, 8)) == f.kind,
        un_le(enc_head(f).subrange(8, 16)) == f.lsn,
        un_le(enc_head(f).subrange(16, 24)) == f.payload.len(),
        un_le(enc_head(f).subrange(24, 28)) == crc(f.payload),
{
    broadcast use lemma_le_len;

    lemma_pow256();
    let h = enc_head(f);
    assert(h.subrange(0, 4) =~= magic());
    assert(h.subrange(4, 6) =~= le(1, 2));
    assert(h.subrange(6, 8) =~= le(f.kind as nat, 2));
    assert(h.subrange(8, 16) =~= le(f.lsn as nat, 8));
    assert(h.subrange(16, 24) =~= le(f.payload.len(), 8));
    assert(h.subrange(24, 28) =~= le(crc(f.payload) as nat, 4));
    lemma_un_le_le(f.kind as nat, 2);
    lemma_un_le_le(f.lsn as nat, 8);
    lemma_un_le_le(f.payload.len(), 8);
    lemma_un_le_le(crc(f.payload) as nat, 4);
}

/// The header of an encoded frame.
proof fn lemma_header(f: FrameV) -> (h: Seq<u8>)
    requires
        f.payload.len() <= MAX_FRAME,
    ensures
        h == enc_head(f) + le(crc(enc_head(f)) as nat, 4),
        h.len() == 32,
        enc_frame(f) == h + f.payload + trailer(),
        valid_header(h),
        payload_length(h) == f.payload.len(),
        assembled(h, f.payload, trailer()) == Some(f),
{
    lemma_head(f);
    let head = enc_head(f);
    let h = head + le(crc(head) as nat, 4);
    lemma_le_len(crc(head) as nat, 4);
    lemma_pow256();
    lemma_un_le_le(crc(head) as nat, 4);
    assert(h.subrange(0, 4) =~= head.subrange(0, 4));
    assert(h.subrange(4, 6) =~= head.subrange(4, 6));
    assert(h.subrange(6, 8) =~= head.subrange(6, 8));
    assert(h.subrange(8, 16) =~= head.subrange(8, 16));
    assert(h.subrange(16, 24) =~= head.subrange(16, 24));
    assert(h.subrange(24, 28) =~= head.subrange(24, 28));
    assert(h.subrange(0, 28) =~= head);
    assert(h.subrange(28, 32) =~= le(crc(head) as nat, 4));
    h
}

/// The length of an encoded frame.
pub proof fn lemma_frame_len(f: FrameV)
    ensures
        enc_frame(f).len() == 40 + f.payload.len(),
{
    broadcast use lemma_le_len;

}

/// An encoded frame is read back, whatever follows it.
pub proof fn lemma_frame(f: FrameV, rest: Seq<u8>)
    requires
        f.payload.len() <= MAX_FRAME,
    ensures
        read_frame(enc_frame(f) + rest) == Read::Complete(f),
{
    let h = lemma_header(f);
    let s = enc_frame(f) + rest;
    let n = f.payload.len() as int;
    assert(s.subrange(0, 32) =~= h);
    assert(s.subrange(32, 32 + n) =~= f.payload);
    assert(s.subrange(32 + n, 40 + n) =~= trailer());
}

/// Every proper prefix of an encoded frame reads as an incomplete one.
pub proof fn lemma_frame_prefix(f: FrameV, cut: int)
    requires
        f.payload.len() <= MAX_FRAME,
        0 <= cut < enc_frame(f).len(),
    ensures
        read_frame(enc_frame(f).take(cut)) == Read::Incomplete,
{
    let h = lemma_header(f);
    let s = enc_frame(f).take(cut);
    if cut >= 32 {
        assert(s.subrange(0, 32) =~= h);
    }
}

/// Changing one byte of an encoded frame damages it.
pub proof fn lemma_frame_damage(f: FrameV, rest: Seq<u8>, at: int, x: u8)
    requires
        f.payload.len() <= MAX_FRAME,
        0 <= at < enc_frame(f).len(),
        x != enc_frame(f)[at],
    ensures
        read_frame(enc_frame(f).update(at, x) + rest) == Read::Damaged,
{
    let h = lemma_header(f);
    lemma_frame_len(f);
    let s = enc_frame(f).update(at, x) + rest;
    let n = f.payload.len() as int;
    let g = s.subrange(0, 32);
    assert(enc_frame(f)[at] == (if at < 32 {
        h[at]
    } else if at < 32 + n {
        f.payload[at - 32]
    } else {
        trailer()[at - 32 - n]
    }));
    if at < 28 {
        let (p, q) = (h.subrange(0, 28), g.subrange(0, 28));
        assert(q =~= p.update(at, x));
        lemma_changed_byte(p, at, x);
        assert(g.subrange(28, 32) =~= h.subrange(28, 32));
    } else if at < 32 {
        assert(g.subrange(0, 28) =~= h.subrange(0, 28));
        let (p, q) = (h.subrange(28, 32), g.subrange(28, 32));
        lemma_le_un_le(p);
        lemma_le_un_le(q);
        assert(p[at - 28] != q[at - 28]);
    } else {
        assert(g =~= h);
        let payload = s.subrange(32, 32 + n);
        let end = s.subrange(32 + n, 40 + n);
        if at < 32 + n {
            assert(payload =~= f.payload.update(at - 32, x));
            lemma_changed_byte(f.payload, at - 32, x);
        } else {
            assert(end[at - 32 - n] != trailer()[at - 32 - n]);
        }
    }
}

// ---- Writing and reading ----

/// Encodes a frame.
pub fn encode(kind: u16, lsn: u64, payload: &[u8]) -> (r: Result<Vec<u8>>)
    ensures
        match r {
            Ok(bytes) => payload@.len() <= MAX_FRAME && bytes@ == enc_frame(
                FrameV { kind, lsn, payload: payload@ },
            ),
            Err(e) => payload@.len() > MAX_FRAME && e is Invalid,
        },
{
    if payload.len() > MAX_FRAME {
        return Err(invalid("transaction exceeds 64 MiB"));
    }
    let ghost f = FrameV { kind, lsn, payload: payload@ };
    let mut bytes: Vec<u8> = Vec::new();
    let front: [u8; 4] = [69, 86, 70, 82];
    put_bytes(&mut bytes, &front);
    put_le(&mut bytes, 1, 2);
    put_le(&mut bytes, kind as u64, 2);
    put_le(&mut bytes, lsn, 8);
    put_le(&mut bytes, payload.len() as u64, 8);
    put_le(&mut bytes, crc32c(payload) as u64, 4);
    assert(front@ =~= magic());
    assert(bytes@ =~= enc_head(f));
    let sum: u32 = crc32c(bytes.as_slice());
    put_le(&mut bytes, sum as u64, 4);
    put_bytes(&mut bytes, payload);
    let end: [u8; 8] = [69, 86, 67, 79, 77, 77, 73, 84];
    put_bytes(&mut bytes, &end);
    assert(end@ =~= trailer());
    assert(bytes@ =~= enc_frame(f));
    Ok(bytes)
}

/// Validates a frame header and returns its declared payload length.
pub fn header_length(header: &[u8]) -> (r: Result<u64>)
    requires
        header@.len() == 32,
    ensures
        match r {
            Ok(n) => valid_header(header@) && n == payload_length(header@) && n <= MAX_FRAME,
            Err(e) => (!valid_header(header@) || payload_length(header@) > MAX_FRAME) && e
                is Corrupt,
        },
{
    let front: [u8; 4] = [69, 86, 70, 82];
    let version: [u8; 2] = [1, 0];
    proof {
        assert(front@ =~= magic());
        lemma_le_len(1, 2);
        assert(version@ =~= le(1, 2)) by {
            reveal_with_fuel(le, 3);
        }
        lemma_pow256();
        lemma_un_le_bound(header@.subrange(28, 32));
    }
    let head = vstd::slice::slice_subrange(header, 0, 28);
    if !crate::bytes::same_bytes(vstd::slice::slice_subrange(header, 0, 4), &front)
        || !crate::bytes::same_bytes(vstd::slice::slice_subrange(header, 4, 6), &version) || crc32c(
        head,
    ) as u64 != get_le(header, 28, 4) {
        return Err(corrupt("invalid frame header or checksum"));
    }
    let length: u64 = get_le(header, 16, 8);
    if length > MAX_FRAME as u64 {
        return Err(corrupt("oversized frame"));
    }
    Ok(length)
}

/// Assembles a frame from a validated header, its payload, and its trailer.
pub fn assemble(header: &[u8], payload: Vec<u8>, end: &[u8]) -> (r: Result<Frame>)
    requires
        header@.len() == 32,
    ensures
        match r {
            Ok(f) => assembled(header@, payload@, end@) == Some(f@),
            Err(e) => assembled(header@, payload@, end@) is None && e is Corrupt,
        },
{
    let mark: [u8; 8] = [69, 86, 67, 79, 77, 77, 73, 84];
    assert(mark@ =~= trailer());
    if !crate::bytes::same_bytes(end, &mark) || crc32c(payload.as_slice()) as u64 != get_le(
        header,
        24,
        4,
    ) {
        return Err(corrupt("invalid committed frame payload or trailer"));
    }
    proof {
        lemma_pow256();
        lemma_un_le_bound(header@.subrange(6, 8));
        lemma_un_le_bound(header@.subrange(8, 16));
    }
    Ok(Frame { kind: get_le(header, 6, 2) as u16, lsn: get_le(header, 8, 8), payload })
}

/// Reads the frame at an offset. None means an empty or incomplete tail; a complete frame
/// with bad checksums is an error, never silently discarded.
pub fn read(data: &[u8], at: usize) -> (r: Result<Option<Frame>>)
    requires
        at <= data@.len(),
    ensures
        match r {
            Ok(Some(f)) => read_frame(data@.skip(at as int)) == Read::Complete(f@) && at + 40
                + f.payload@.len() <= data@.len(),
            Ok(None) => read_frame(data@.skip(at as int)) == Read::Incomplete,
            Err(e) => read_frame(data@.skip(at as int)) == Read::Damaged && e is Corrupt,
        },
{
    let ghost s = data@.skip(at as int);
    let remaining: usize = data.len() - at;
    if remaining < 32 {
        return Ok(None);
    }
    let header = vstd::slice::slice_subrange(data, at, at + 32);
    assert(header@ =~= s.subrange(0, 32));
    let length: usize = header_length(header)? as usize;
    if remaining < 40 + length {
        return Ok(None);
    }
    let payload = crate::bytes::copy_range(data, at + 32, at + 32 + length);
    let end = vstd::slice::slice_subrange(data, at + 32 + length, at + 40 + length);
    assert(payload@ =~= s.subrange(32, 32 + length));
    assert(end@ =~= s.subrange(32 + length, 40 + length));
    let frame = assemble(header, payload, end)?;
    Ok(Some(frame))
}

/// What a file holds at an offset.
pub open spec fn frame_at(c: Seq<u8>, offset: u64) -> Read {
    if offset <= c.len() {
        read_frame(c.skip(offset as int))
    } else {
        Read::Incomplete
    }
}

/// Whether reading the frame at an offset of a file needs what a request names: the length of
/// the file, the header, or the frame that the header tells of.
pub open spec fn frame_asks(files: Files, file: FileId, offset: u64, e: Error) -> bool {
    let c = files[file];
    ||| e == length_request(file)
    ||| offset + 32 <= c.len() && e == (Error::Unread { file, offset, length: 32 })
    ||| {
        let n = payload_length(c.subrange(offset as int, offset + 32));
        &&& offset + 40 + n <= c.len() && n <= MAX_FRAME
        &&& e == (Error::Unread { file, offset, length: (40 + n) as u64 })
    }
}

/// Reads the frame at an offset of a file: its header first, then all of it.
pub fn read_at(loaded: &Loaded, file: FileId, offset: u64) -> (r: Result<Option<Frame>>)
    ensures
        match r {
            Ok(Some(f)) => forall|files: Files| #[trigger]
                loaded.agrees(files) ==> frame_at(files[file], offset) == Read::Complete(f@),
            Ok(None) => forall|files: Files| #[trigger]
                loaded.agrees(files) ==> frame_at(files[file], offset) == Read::Incomplete,
            Err(e) => lacks(loaded, e) && (forall|files: Files| #[trigger]
                loaded.agrees(files) ==> frame_asks(files, file, offset, e)) || e is Corrupt
                && forall|files: Files| #[trigger]
                loaded.agrees(files) ==> frame_at(files[file], offset) == Read::Damaged,
        },
{
    let length: u64 = loaded.length(file)?;
    if offset > length || length - offset < 32 {
        return Ok(None);
    }
    let header = loaded.extent(file, offset, 32)?;
    proof {
        assert forall|files: Files| #[trigger] loaded.agrees(files) implies header@
            == files[file].skip(offset as int).subrange(0, 32) by {
            assert(extent_of(files, Extent { file, offset, length: 32 }) == Some(header@));
            assert(header@ =~= files[file].skip(offset as int).subrange(0, 32));
        }
    }
    if header.len() != 32 {
        proof {
            assert forall|files: Files| !(#[trigger] loaded.agrees(files)) by {
            }
        }
        return Err(corrupt("invalid frame header or checksum"));
    }
    let n: u64 = header_length(header.as_slice())?;
    if length - offset < 40 + n {
        return Ok(None);
    }
    proof {
        assert forall|files: Files| #[trigger] loaded.agrees(files) implies header@
            == files[file].subrange(offset as int, offset + 32) by {
            assert(header@ =~= files[file].subrange(offset as int, offset + 32));
        }
    }
    let all = loaded.extent(file, offset, 40 + n)?;
    proof {
        assert forall|files: Files| #[trigger] loaded.agrees(files) implies all@
            == files[file].skip(offset as int).take(40 + n) && header@ == all@.subrange(0, 32) by {
            let e = Extent { file, offset, length: (40 + n) as u64 };
            assert(extent_of(files, e) == Some(all@));
            assert(all@ =~= files[file].skip(offset as int).take(40 + n));
            assert(header@ =~= all@.subrange(0, 32));
        }
    }
    if all.len() as u64 != 40 + n {
        proof {
            assert forall|files: Files| !(#[trigger] loaded.agrees(files)) by {
            }
        }
        return Err(corrupt("invalid frame header or checksum"));
    }
    let size: usize = n as usize;
    let payload = crate::bytes::copy_range(all.as_slice(), 32, 32 + size);
    let end = vstd::slice::slice_subrange(all.as_slice(), 32 + size, 40 + size);
    proof {
        assert forall|files: Files| #[trigger] loaded.agrees(files) implies ({
            let s = files[file].skip(offset as int);
            payload@ == s.subrange(32, 32 + size) && end@ == s.subrange(32 + size, 40 + size)
        }) by {
            let s = files[file].skip(offset as int);
            assert(payload@ =~= s.subrange(32, 32 + size));
            assert(end@ =~= s.subrange(32 + size, 40 + size));
        }
    }
    let frame = assemble(header.as_slice(), payload, end)?;
    Ok(Some(frame))
}

/// Adds the frames of a stretch of a file to the parts in memory, one after another from its
/// start on, so that they can be read without a request for each.
pub fn read_ahead(loaded: &mut Loaded, file: FileId, offset: u64, bytes: &[u8])
    requires
        offset + bytes@.len() <= u64::MAX,
    ensures
        forall|files: Files|
            old(loaded).agrees(files) && extent_of(
                files,
                Extent { file, offset, length: bytes@.len() as u64 },
            ) == Some(bytes@) ==> #[trigger] final(loaded).agrees(files),
        forall|f: FileId| #[trigger] final(loaded).measured(f) == old(loaded).measured(f),
        forall|e: Extent| #[trigger] old(loaded).has(e) ==> final(loaded).has(e),
        forall|e: Extent| #[trigger]
            final(loaded).has(e) ==> old(loaded).has(e) || (e.file == file && offset <= e.offset
                && e.offset + e.length <= offset + bytes@.len()),
        read_frame(bytes@) matches Read::Complete(f) ==> final(loaded).has(
            Extent { file, offset, length: 32 },
        ) && final(loaded).has(Extent { file, offset, length: (40 + f.payload.len()) as u64 }),
{
    let ghost before = *loaded;
    let ghost end = offset + bytes@.len();
    let mut at: usize = 0;
    while bytes.len() - at >= 32
        invariant
            at <= bytes@.len(),
            end == offset + bytes@.len() <= u64::MAX,
            before == *old(loaded),
            forall|files: Files|
                before.agrees(files) && extent_of(
                    files,
                    Extent { file, offset, length: bytes@.len() as u64 },
                ) == Some(bytes@) ==> #[trigger] loaded.agrees(files),
            forall|f: FileId| #[trigger] loaded.measured(f) == before.measured(f),
            forall|e: Extent| #[trigger] before.has(e) ==> loaded.has(e),
            forall|e: Extent| #[trigger]
                loaded.has(e) ==> before.has(e) || (e.file == file && offset <= e.offset && e.offset
                    + e.length <= end),
            at > 0 ==> (read_frame(bytes@) matches Read::Complete(f) ==> loaded.has(
                Extent { file, offset, length: 32 },
            ) && loaded.has(Extent { file, offset, length: (40 + f.payload.len()) as u64 })),
        decreases bytes@.len() - at,
    {
        let header = crate::bytes::copy_range(bytes, at, at + 32);
        let n: u64 = match header_length(header.as_slice()) {
            Ok(n) => n,
            Err(_) => {
                assert(at == 0 ==> header@ =~= bytes@.subrange(0, 32));
                return;
            },
        };
        if ((bytes.len() - at) as u64) < 40 + n {
            assert(at == 0 ==> header@ =~= bytes@.subrange(0, 32));
            return;
        }
        let size: usize = 40 + n as usize;
        let whole = crate::bytes::copy_range(bytes, at, at + size);
        let place: u64 = offset + at as u64;
        proof {
            assert(at == 0 ==> header@ =~= bytes@.subrange(0, 32));
            assert forall|files: Files|
                before.agrees(files) && extent_of(
                    files,
                    Extent { file, offset, length: bytes@.len() as u64 },
                ) == Some(bytes@) implies #[trigger] extent_of(
                files,
                Extent { file, offset: place, length: 32 },
            ) == Some(header@) && extent_of(
                files,
                Extent { file, offset: place, length: (40 + n) as u64 },
            ) == Some(whole@) by {
                let all = files[file];
                assert(header@ =~= all.subrange(place as int, place + 32));
                assert(whole@ =~= all.subrange(place as int, place + 40 + n));
            }
        }
        let ghost was = *loaded;
        loaded.insert(file, place, 32, header);
        loaded.insert(file, place, 40 + n, whole);
        proof {
            assert forall|files: Files|
                before.agrees(files) && extent_of(
                    files,
                    Extent { file, offset, length: bytes@.len() as u64 },
                ) == Some(bytes@) implies #[trigger] loaded.agrees(files) by {
                assert(was.agrees(files));
                assert(extent_of(files, Extent { file, offset: place, length: 32 }) == Some(
                    header@,
                ));
            }
        }
        at = at + size;
    }
}

} // verus!
