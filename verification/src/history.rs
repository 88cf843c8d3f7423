//! History records: their packing, and where they stand.

use crate::bytes::get_le;
use crate::bytes::le;
use crate::bytes::lemma_le_len;
use crate::bytes::lemma_un_le_le;
use crate::bytes::put_bytes;
use crate::bytes::put_le;
use crate::bytes::un_le;
use crate::codec::MAX_RECORD;
use crate::error::corrupt;
use crate::error::invalid;
use crate::error::Result;
use vstd::prelude::*;

verus! {

/// A byte so many times.
pub open spec fn repeated(x: u8, n: nat) -> Seq<u8> {
    Seq::new(n, |i: int| x)
}

/// Whether the first `n` bytes are the same.
pub open spec fn uniform(s: Seq<u8>, n: nat) -> bool {
    &&& n <= s.len()
    &&& forall|i: int| 0 <= i < n ==> #[trigger] s[i] == s[0]
}

/// How many bytes at the front are the same, counted to 255.
pub open spec fn run(s: Seq<u8>) -> nat
    decreases s.len(),
{
    if s.len() == 0 {
        0
    } else if s.len() > 1 && s[1] == s[0] && run(s.skip(1)) < 255 {
        run(s.skip(1)) + 1
    } else if s.len() > 1 && s[1] == s[0] {
        255
    } else {
        1
    }
}

proof fn lemma_run(s: Seq<u8>)
    ensures
        run(s) <= 255,
        s.len() > 0 ==> run(s) >= 1,
        uniform(s, run(s)),
        run(s) < 255 && run(s) < s.len() ==> s[run(s) as int] != s[0],
    decreases s.len(),
{
    if s.len() > 1 && s[1] == s[0] {
        let t = s.skip(1);
        lemma_run(t);
        assert forall|i: int| 0 <= i < run(s) implies #[trigger] s[i] == s[0] by {
            if i > 0 {
                assert(t[i - 1] == t[0]);
            }
        }
        if run(s) < 255 && run(s) < s.len() {
            assert(t[run(t) as int] == s[run(s) as int]);
        }
    }
}

proof fn lemma_run_is(s: Seq<u8>, n: nat)
    requires
        1 <= n <= 255,
        uniform(s, n),
        n == 255 || n == s.len() || s[n as int] != s[0],
    ensures
        run(s) == n,
{
    lemma_run(s);
    if run(s) > n {
        assert(s[n as int] == s[0]);
    }
    if run(s) < n {
        assert(s[run(s) as int] == s[0]);
    }
}

/// Bytes as runs: each a count and a byte.
pub open spec fn rle(s: Seq<u8>) -> Seq<u8>
    decreases s.len(),
    via rle_decreases
{
    if s.len() == 0 {
        Seq::empty()
    } else {
        seq![run(s) as u8, s[0]] + rle(s.skip(run(s) as int))
    }
}

#[via_fn]
proof fn rle_decreases(s: Seq<u8>) {
    lemma_run(s);
}

/// The bytes that runs stand for.
pub open spec fn expanded(s: Seq<u8>) -> Option<Seq<u8>>
    decreases s.len(),
{
    if s.len() == 0 {
        Some(Seq::empty())
    } else if s.len() == 1 || s[0] == 0 {
        None
    } else {
        match expanded(s.skip(2)) {
            None => None,
            Some(t) => Some(repeated(s[1], s[0] as nat) + t),
        }
    }
}

/// Runs expand to the bytes that they were made of.
pub proof fn lemma_rle(s: Seq<u8>)
    ensures
        expanded(rle(s)) == Some(s),
    decreases s.len(),
{
    if s.len() > 0 {
        lemma_run(s);
        let n = run(s);
        lemma_rle(s.skip(n as int));
        let r = rle(s);
        assert(r.skip(2) =~= rle(s.skip(n as int)));
        assert(repeated(s[0], n) + s.skip(n as int) =~= s);
    } else {
        assert(s =~= Seq::empty());
    }
}

/// Whether a record is worth packing into runs.
pub open spec fn packs(bytes: Seq<u8>, compress: bool) -> bool {
    compress && rle(bytes).len() < bytes.len()
}

/// A packed history record.
pub open spec fn packed(id: u64, bytes: Seq<u8>, compress: bool) -> Seq<u8> {
    le(id as nat, 8) + seq![
        if packs(bytes, compress) {
            1u8
        } else {
            0u8
        },
    ] + le(bytes.len(), 4) + (if packs(bytes, compress) {
        rle(bytes)
    } else {
        bytes
    })
}

/// The entity and the bytes of a packed history record.
pub open spec fn unpacked(s: Seq<u8>) -> Option<(u64, Seq<u8>)> {
    if s.len() < 13 || un_le(s.subrange(9, 13)) > MAX_RECORD {
        None
    } else {
        let body = if s[8] == 0 {
            Some(s.skip(13))
        } else if s[8] == 1 {
            expanded(s.skip(13))
        } else {
            None
        };
        match body {
            None => None,
            Some(b) => if b.len() == un_le(s.subrange(9, 13)) {
                Some((un_le(s.subrange(0, 8)) as u64, b))
            } else {
                None
            },
        }
    }
}

/// A packed record unpacks to what it was made of, packed into runs or not.
pub proof fn lemma_packed(id: u64, bytes: Seq<u8>, compress: bool)
    requires
        bytes.len() <= MAX_RECORD,
    ensures
        unpacked(packed(id, bytes, compress)) == Some((id, bytes)),
{
    let s = packed(id, bytes, compress);
    lemma_le_len(id as nat, 8);
    lemma_le_len(bytes.len(), 4);
    assert(s.subrange(0, 8) =~= le(id as nat, 8));
    assert(s.subrange(9, 13) =~= le(bytes.len(), 4));
    crate::bytes::lemma_pow256();
    lemma_un_le_le(id as nat, 8);
    lemma_un_le_le(bytes.len(), 4);
    lemma_rle(bytes);
    if packs(bytes, compress) {
        assert(s.skip(13) =~= rle(bytes));
    } else {
        assert(s.skip(13) =~= bytes);
    }
}

/// Simple optional RLE; incompressible payloads remain verbatim.
pub fn pack(id: u64, bytes: &[u8], compress: bool) -> (record: Vec<u8>)
    requires
        bytes@.len() <= u32::MAX,
    ensures
        record@ == packed(id, bytes@, compress),
{
    let mut encoded: Vec<u8> = Vec::new();
    if compress {
        let mut offset: usize = 0;
        proof {
            assert(bytes@.skip(0) =~= bytes@);
            assert(encoded@ + rle(bytes@) =~= rle(bytes@));
        }
        while offset < bytes.len()
            invariant
                offset <= bytes@.len(),
                encoded@ + rle(bytes@.skip(offset as int)) == rle(bytes@),
            decreases bytes@.len() - offset,
        {
            let value: u8 = bytes[offset];
            let ghost rest = bytes@.skip(offset as int);
            let mut count: usize = 1;
            while count < 255 && count < bytes.len() - offset && bytes[offset + count] == value
                invariant
                    offset < bytes@.len(),
                    rest == bytes@.skip(offset as int),
                    value == rest[0],
                    1 <= count <= 255,
                    uniform(rest, count as nat),
                decreases 255 - count,
            {
                count = count + 1;
            }
            proof {
                lemma_run_is(rest, count as nat);
                assert(rest.skip(count as int) =~= bytes@.skip(offset + count));
            }
            let ghost before = encoded@;
            encoded.push(count as u8);
            encoded.push(value);
            proof {
                let tail = rle(bytes@.skip(offset + count));
                assert(before + (seq![count as u8, value] + tail) =~= encoded@ + tail);
            }
            offset = offset + count;
        }
        proof {
            assert(bytes@.skip(offset as int) =~= Seq::empty());
            assert(encoded@ + Seq::<u8>::empty() =~= encoded@);
        }
    }
    let use_rle: bool = compress && encoded.len() < bytes.len();
    let mut record: Vec<u8> = Vec::new();
    put_le(&mut record, id, 8);
    record.push(
        if use_rle {
            1
        } else {
            0
        },
    );
    put_le(&mut record, bytes.len() as u64, 4);
    if use_rle {
        put_bytes(&mut record, encoded.as_slice());
    } else {
        put_bytes(&mut record, bytes);
    }
    assert(record@ =~= packed(id, bytes@, compress));
    record
}

/// Takes a history record apart.
pub fn unpack(bytes: &[u8]) -> (r: Result<(u64, Vec<u8>)>)
    ensures
        match r {
            Ok((id, record)) => unpacked(bytes@) == Some((id, record@)),
            Err(e) => unpacked(bytes@) is None && e is Corrupt,
        },
{
    if bytes.len() < 13 {
        return Err(corrupt("short history record"));
    }
    let id: u64 = get_le(bytes, 0, 8);
    let size: u64 = get_le(bytes, 9, 4);
    if size > MAX_RECORD as u64 {
        return Err(corrupt("oversized history record"));
    }
    let size: usize = size as usize;
    let ghost body = bytes@.skip(13);
    let mut record: Vec<u8> = Vec::new();
    if bytes[8] == 0 {
        put_bytes(&mut record, vstd::slice::slice_subrange(bytes, 13, bytes.len()));
        assert(record@ =~= body);
    } else if bytes[8] == 1 {
        let mut at: usize = 13;
        proof {
            assert(bytes@.skip(13) =~= body);
            lemma_glue_none(expanded(body));
        }
        while at < bytes.len()
            invariant
                13 <= at <= bytes@.len(),
                body == bytes@.skip(13),
                expanded(body) == glued(record@, expanded(bytes@.skip(at as int))),
                record@.len() <= size,
                size <= MAX_RECORD,
                bytes@.len() >= 13,
                size == un_le(bytes@.subrange(9, 13)),
                bytes@[8] == 1,
            decreases bytes@.len() - at,
        {
            let ghost rest = bytes@.skip(at as int);
            if bytes.len() - at == 1 {
                return Err(corrupt("invalid RLE payload"));
            }
            let count: usize = bytes[at] as usize;
            let value: u8 = bytes[at + 1];
            let length: usize = record.len();
            proof {
                assert(rest[0] == count && rest[1] == value);
                assert(rest.skip(2) =~= bytes@.skip(at + 2));
            }
            if count == 0 || count > size - length {
                return Err(corrupt("RLE length overflow"));
            }
            let ghost before = record@;
            record.resize(length + count, value);
            proof {
                assert(record@ =~= before + repeated(value, count as nat));
                lemma_glue(before, repeated(value, count as nat), expanded(rest.skip(2)));
            }
            at = at + 2;
        }
        proof {
            assert(bytes@.skip(at as int) =~= Seq::empty());
            assert(record@ + Seq::<u8>::empty() =~= record@);
        }
    } else {
        return Err(corrupt("unsupported history compression"));
    }
    if record.len() != size {
        return Err(corrupt("history length mismatch"));
    }
    Ok((id, record))
}

/// Bytes in front of what may follow.
spec fn glued(a: Seq<u8>, t: Option<Seq<u8>>) -> Option<Seq<u8>> {
    match t {
        None => None,
        Some(t) => Some(a + t),
    }
}

proof fn lemma_glue_none(t: Option<Seq<u8>>)
    ensures
        glued(Seq::empty(), t) == t,
{
    if let Some(x) = t {
        assert(Seq::<u8>::empty() + x =~= x);
    }
}

proof fn lemma_glue(a: Seq<u8>, b: Seq<u8>, t: Option<Seq<u8>>)
    ensures
        glued(a, glued(b, t)) == glued(a + b, t),
{
    if let Some(x) = t {
        assert(a + (b + x) =~= (a + b) + x);
    }
}

/// Where an event stands: its history segment and the offset in it, in one word.
pub fn event_location(segment: u64, offset: u64) -> (r: Result<u64>)
    ensures
        match r {
            Ok(location) => segment <= 0xffff && offset < 0x1_0000_0000_0000 && location == (
            segment << 48) | offset,
            Err(e) => e is Invalid && (segment > 0xffff || offset >= 0x1_0000_0000_0000),
        },
{
    if segment > 0xffff || offset >= 0x1_0000_0000_0000 {
        return Err(invalid("history location exhausted"));
    }
    Ok((segment << 48) | offset)
}

/// The segment of an event's location.
pub open spec fn segment_of(location: u64) -> u64 {
    location >> 48
}

/// The offset of an event's location.
pub open spec fn offset_of(location: u64) -> u64 {
    location & 0xffff_ffff_ffff
}

/// The segment and the offset of an event's location.
pub fn event_split(location: u64) -> (r: (u64, u64))
    ensures
        r == (segment_of(location), offset_of(location)),
{
    (location >> 48, location & 0xffff_ffff_ffff)
}

/// A location splits into what it was made of.
pub proof fn lemma_event_location(segment: u64, offset: u64)
    requires
        segment <= 0xffff,
        offset < 0x1_0000_0000_0000,
    ensures
        segment_of((segment << 48) | offset) == segment,
        offset_of((segment << 48) | offset) == offset,
{
    assert(((segment << 48) | offset) >> 48 == segment) by (bit_vector)
        requires
            segment <= 0xffff,
            offset < 0x1_0000_0000_0000,
    ;
    assert(((segment << 48) | offset) & 0xffff_ffff_ffff == offset) by (bit_vector)
        requires
            segment <= 0xffff,
            offset < 0x1_0000_0000_0000,
    ;
}

} // verus!
