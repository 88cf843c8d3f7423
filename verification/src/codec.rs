//! Explicit byte encodings.
//!
//! Integers are little-endian, byte strings and texts carry their length
//! before them. The `dec_*` functions say what a decoder makes of a byte
//! string: the value at its front and the bytes behind it.

use crate::bytes::le;
use crate::bytes::lemma_le_len;
use crate::bytes::lemma_le_un_le;
use crate::bytes::lemma_pow256;
use crate::bytes::lemma_un_le_bound;
use crate::bytes::lemma_un_le_le;
use crate::bytes::put_le;
use crate::bytes::un_le;
use crate::error::corrupt;
use crate::error::Error;
use vstd::prelude::*;
use vstd::utf8::decode_utf8;
use vstd::utf8::encode_utf8;
use vstd::utf8::valid_utf8;

verus! {

/// The largest encoded record.
pub const MAX_RECORD: usize = 16 * 1024 * 1024;

/// The largest frame payload.
pub const MAX_FRAME: usize = 64 * 1024 * 1024;

/// A byte string behind its length.
pub open spec fn enc_bytes(b: Seq<u8>) -> Seq<u8> {
    le(b.len(), 8) + b
}

/// The UTF-8 bytes of a text behind their number.
pub open spec fn enc_string(s: Seq<char>) -> Seq<u8> {
    enc_bytes(encode_utf8(s))
}

/// A flag as a byte.
pub open spec fn enc_bool(b: bool) -> Seq<u8> {
    seq![if b { 1u8 } else { 0u8 }]
}

/// The first `n` bytes and the rest.
pub open spec fn dec_take(s: Seq<u8>, n: nat) -> Option<(Seq<u8>, Seq<u8>)> {
    if n <= s.len() {
        Some((s.take(n as int), s.skip(n as int)))
    } else {
        None
    }
}

/// A byte at the front.
pub open spec fn dec_u8(s: Seq<u8>) -> Option<(u8, Seq<u8>)> {
    if s.len() >= 1 {
        Some((s[0], s.skip(1)))
    } else {
        None
    }
}

/// A byte at the front that is 0 or 1.
pub open spec fn dec_bool(s: Seq<u8>) -> Option<(bool, Seq<u8>)> {
    if s.len() >= 1 && s[0] <= 1 {
        Some((s[0] == 1, s.skip(1)))
    } else {
        None
    }
}

/// A 32-bit integer at the front.
pub open spec fn dec_u32(s: Seq<u8>) -> Option<(u32, Seq<u8>)> {
    if s.len() >= 4 {
        Some((un_le(s.take(4)) as u32, s.skip(4)))
    } else {
        None
    }
}

/// A 64-bit integer at the front.
pub open spec fn dec_u64(s: Seq<u8>) -> Option<(u64, Seq<u8>)> {
    if s.len() >= 8 {
        Some((un_le(s.take(8)) as u64, s.skip(8)))
    } else {
        None
    }
}

/// An item count at the front that the bytes behind it can hold, at `minimum` bytes an item.
pub open spec fn dec_count(s: Seq<u8>, minimum: nat) -> Option<(nat, Seq<u8>)> {
    match dec_u64(s) {
        Some((n, rest)) => if n as nat * (if minimum == 0 {
            1
        } else {
            minimum
        }) <= rest.len() {
            Some((n as nat, rest))
        } else {
            None
        },
        None => None,
    }
}

/// A counted byte string at the front.
pub open spec fn dec_bytes(s: Seq<u8>) -> Option<(Seq<u8>, Seq<u8>)> {
    match dec_u64(s) {
        Some((n, rest)) => dec_take(rest, n as nat),
        None => None,
    }
}

/// A counted text at the front.
pub open spec fn dec_string(s: Seq<u8>) -> Option<(Seq<char>, Seq<u8>)> {
    match dec_bytes(s) {
        Some((b, rest)) => if valid_utf8(b) {
            Some((decode_utf8(b), rest))
        } else {
            None
        },
        None => None,
    }
}

// ---- Laws of the primitives ----

/// An encoded 32-bit integer decodes to itself.
pub proof fn lemma_u32(x: u32, rest: Seq<u8>)
    ensures
        dec_u32(le(x as nat, 4) + rest) == Some((x, rest)),
{
    lemma_le_len(x as nat, 4);
    lemma_pow256();
    lemma_un_le_le(x as nat, 4);
    assert((le(x as nat, 4) + rest).take(4) =~= le(x as nat, 4));
    assert((le(x as nat, 4) + rest).skip(4) =~= rest);
}

/// An encoded 64-bit integer decodes to itself.
pub proof fn lemma_u64(x: u64, rest: Seq<u8>)
    ensures
        dec_u64(le(x as nat, 8) + rest) == Some((x, rest)),
{
    lemma_le_len(x as nat, 8);
    lemma_pow256();
    lemma_un_le_le(x as nat, 8);
    assert((le(x as nat, 8) + rest).take(8) =~= le(x as nat, 8));
    assert((le(x as nat, 8) + rest).skip(8) =~= rest);
}

/// What decodes to a 32-bit integer is its encoding.
pub proof fn lemma_u32_only(s: Seq<u8>)
    requires
        dec_u32(s) is Some,
    ensures
        s == le(dec_u32(s).unwrap().0 as nat, 4) + dec_u32(s).unwrap().1,
{
    lemma_un_le_bound(s.take(4));
    lemma_pow256();
    lemma_le_un_le(s.take(4));
    assert(s =~= s.take(4) + s.skip(4));
}

/// What decodes to a 64-bit integer is its encoding.
pub proof fn lemma_u64_only(s: Seq<u8>)
    requires
        dec_u64(s) is Some,
    ensures
        s == le(dec_u64(s).unwrap().0 as nat, 8) + dec_u64(s).unwrap().1,
{
    lemma_un_le_bound(s.take(8));
    lemma_pow256();
    lemma_le_un_le(s.take(8));
    assert(s =~= s.take(8) + s.skip(8));
}

/// An encoded count decodes to itself where the bytes behind it hold that many items.
pub proof fn lemma_count(n: nat, minimum: nat, rest: Seq<u8>)
    requires
        n <= u64::MAX,
        n * minimum <= rest.len(),
        n <= rest.len(),
    ensures
        dec_count(le(n, 8) + rest, minimum) == Some((n, rest)),
{
    lemma_u64(n as u64, rest);
    assert(n * 1 == n) by (nonlinear_arith);
}

/// An encoded byte string decodes to itself.
pub proof fn lemma_bytes(b: Seq<u8>, rest: Seq<u8>)
    requires
        b.len() <= u64::MAX,
    ensures
        dec_bytes(enc_bytes(b) + rest) == Some((b, rest)),
{
    assert(enc_bytes(b) + rest =~= le(b.len(), 8) + (b + rest));
    lemma_u64(b.len() as u64, b + rest);
    assert((b + rest).take(b.len() as int) =~= b);
    assert((b + rest).skip(b.len() as int) =~= rest);
}

/// What decodes to a byte string is its encoding.
pub proof fn lemma_bytes_only(s: Seq<u8>)
    requires
        dec_bytes(s) is Some,
    ensures
        s == enc_bytes(dec_bytes(s).unwrap().0) + dec_bytes(s).unwrap().1,
{
    lemma_u64_only(s);
    let (n, rest) = dec_u64(s)->0;
    assert(rest =~= rest.take(n as int) + rest.skip(n as int));
    assert(s =~= enc_bytes(rest.take(n as int)) + rest.skip(n as int));
}

/// An encoded text decodes to itself.
pub proof fn lemma_string(c: Seq<char>, rest: Seq<u8>)
    requires
        encode_utf8(c).len() <= u64::MAX,
    ensures
        dec_string(enc_string(c) + rest) == Some((c, rest)),
{
    lemma_bytes(encode_utf8(c), rest);
    vstd::utf8::encode_utf8_valid_utf8(c);
    vstd::utf8::encode_utf8_decode_utf8(c);
}

/// What decodes to a text is its encoding.
pub proof fn lemma_string_only(s: Seq<u8>)
    requires
        dec_string(s) is Some,
    ensures
        s == enc_string(dec_string(s).unwrap().0) + dec_string(s).unwrap().1,
{
    lemma_bytes_only(s);
    vstd::utf8::decode_utf8_encode_utf8(dec_bytes(s).unwrap().0);
}

/// An encoded flag decodes to itself.
pub proof fn lemma_bool(b: bool, rest: Seq<u8>)
    ensures
        dec_bool(enc_bool(b) + rest) == Some((b, rest)),
{
    assert((enc_bool(b) + rest).skip(1) =~= rest);
}

/// What decodes to a flag is its encoding.
pub proof fn lemma_bool_only(s: Seq<u8>)
    requires
        dec_bool(s) is Some,
    ensures
        s == enc_bool(dec_bool(s).unwrap().0) + dec_bool(s).unwrap().1,
{
    assert(s =~= enc_bool(s[0] == 1) + s.skip(1));
}

/// A byte in front of others decodes to itself.
pub proof fn lemma_u8(x: u8, rest: Seq<u8>)
    ensures
        dec_u8(seq![x] + rest) == Some((x, rest)),
{
    assert((seq![x] + rest).skip(1) =~= rest);
}

/// What decodes to a byte is that byte in front of the rest.
pub proof fn lemma_u8_only(s: Seq<u8>)
    requires
        dec_u8(s) is Some,
    ensures
        s == seq![dec_u8(s).unwrap().0] + dec_u8(s).unwrap().1,
{
    assert(s =~= seq![s[0]] + s.skip(1));
}

// ---- Sequences of items ----

/// Encoded items one after the other.
pub open spec fn enc_all<T>(s: Seq<T>, enc: spec_fn(T) -> Seq<u8>) -> Seq<u8>
    decreases s.len(),
{
    if s.len() == 0 {
        Seq::empty()
    } else {
        enc_all(s.drop_last(), enc) + enc(s.last())
    }
}

/// As many items at the front as asked for.
pub open spec fn dec_n<T>(
    n: nat,
    s: Seq<u8>,
    dec: spec_fn(Seq<u8>) -> Option<(T, Seq<u8>)>,
) -> Option<(Seq<T>, Seq<u8>)>
    decreases n,
{
    if n == 0 {
        Some((Seq::empty(), s))
    } else {
        match dec(s) {
            Some((x, rest)) => prepend(seq![x], dec_n((n - 1) as nat, rest, dec)),
            None => None,
        }
    }
}

/// Decoded items behind earlier ones.
pub open spec fn prepend<T>(a: Seq<T>, d: Option<(Seq<T>, Seq<u8>)>) -> Option<(Seq<T>, Seq<u8>)> {
    match d {
        Some((t, rest)) => Some((a + t, rest)),
        None => None,
    }
}

/// A further item goes behind the earlier ones.
pub proof fn lemma_dec_step<T>(
    a: Seq<T>,
    n: nat,
    s: Seq<u8>,
    dec: spec_fn(Seq<u8>) -> Option<(T, Seq<u8>)>,
)
    requires
        n > 0,
    ensures
        prepend(a, dec_n(n, s, dec)) == (match dec(s) {
            Some((x, rest)) => prepend(a.push(x), dec_n((n - 1) as nat, rest, dec)),
            None => None,
        }),
{
    if let Some((x, rest)) = dec(s) {
        if let Some((t, end)) = dec_n((n - 1) as nat, rest, dec) {
            assert(a + (seq![x] + t) =~= a.push(x) + t);
        }
    }
}

/// Encoding begins with the first item.
pub proof fn lemma_enc_front<T>(s: Seq<T>, enc: spec_fn(T) -> Seq<u8>)
    requires
        s.len() > 0,
    ensures
        enc_all(s, enc) == enc(s[0]) + enc_all(s.skip(1), enc),
    decreases s.len(),
{
    let t = s.drop_last();
    if t.len() == 0 {
        assert(s.skip(1) =~= Seq::empty());
        assert(enc_all(t, enc) =~= Seq::empty());
        assert(enc_all(s, enc) =~= enc(s[0]) + enc_all(s.skip(1), enc));
    } else {
        lemma_enc_front(t, enc);
        assert(s.skip(1).drop_last() =~= t.skip(1));
        assert(enc_all(s, enc) =~= enc(s[0]) + (enc_all(t.skip(1), enc) + enc(s.last())));
    }
}

/// Encoding goes on with a further item.
pub proof fn lemma_enc_push<T>(s: Seq<T>, x: T, enc: spec_fn(T) -> Seq<u8>)
    ensures
        enc_all(s.push(x), enc) == enc_all(s, enc) + enc(x),
{
    assert(s.push(x).drop_last() =~= s);
}

/// Items of a least length add up.
pub proof fn lemma_enc_len<T>(s: Seq<T>, enc: spec_fn(T) -> Seq<u8>, least: nat)
    requires
        forall|i: int| 0 <= i < s.len() ==> enc(#[trigger] s[i]).len() >= least,
    ensures
        enc_all(s, enc).len() >= s.len() * least,
    decreases s.len(),
{
    if s.len() > 0 {
        let t = s.drop_last();
        assert forall|i: int| 0 <= i < t.len() implies enc(#[trigger] t[i]).len() >= least by {
            assert(t[i] == s[i]);
        }
        lemma_enc_len(t, enc, least);
        assert(enc(s[s.len() - 1]).len() >= least);
        assert(s.len() * least == t.len() * least + least) by (nonlinear_arith)
            requires
                s.len() == t.len() + 1,
        ;
    } else {
        assert(s.len() * least == 0) by (nonlinear_arith)
            requires
                s.len() == 0,
        ;
    }
}

/// Where each item decodes to itself, encoded items decode to themselves.
pub proof fn lemma_all<T>(
    s: Seq<T>,
    rest: Seq<u8>,
    enc: spec_fn(T) -> Seq<u8>,
    dec: spec_fn(Seq<u8>) -> Option<(T, Seq<u8>)>,
)
    requires
        forall|i: int, r: Seq<u8>|
            0 <= i < s.len() ==> #[trigger] dec(enc(s[i]) + r) == Some((s[i], r)),
    ensures
        dec_n(s.len(), enc_all(s, enc) + rest, dec) == Some((s, rest)),
    decreases s.len(),
{
    if s.len() == 0 {
        assert(enc_all(s, enc) + rest =~= rest);
        assert(s =~= Seq::empty());
    } else {
        lemma_enc_front(s, enc);
        let t = s.skip(1);
        let more = enc_all(t, enc) + rest;
        assert(enc_all(s, enc) + rest =~= enc(s[0]) + more);
        assert(dec(enc(s[0]) + more) == Some((s[0], more)));
        assert forall|i: int, r: Seq<u8>| 0 <= i < t.len() implies #[trigger] dec(enc(t[i]) + r)
            == Some((t[i], r)) by {
            assert(t[i] == s[i + 1]);
            assert(dec(enc(s[i + 1]) + r) == Some((s[i + 1], r)));
        }
        lemma_all(t, rest, enc, dec);
        assert(seq![s[0]] + t =~= s);
    }
}

/// Where what decodes to an item is its encoding, what decodes to items is theirs.
pub proof fn lemma_all_only<T>(
    n: nat,
    s: Seq<u8>,
    enc: spec_fn(T) -> Seq<u8>,
    dec: spec_fn(Seq<u8>) -> Option<(T, Seq<u8>)>,
)
    requires
        dec_n(n, s, dec) is Some,
        forall|u: Seq<u8>| (#[trigger] dec(u)) is Some ==> u == enc(dec(u).unwrap().0) + dec(
            u,
        ).unwrap().1,
    ensures
        dec_n(n, s, dec).unwrap().0.len() == n,
        s == enc_all(dec_n(n, s, dec).unwrap().0, enc) + dec_n(n, s, dec).unwrap().1,
    decreases n,
{
    if n == 0 {
        assert(s =~= enc_all(Seq::<T>::empty(), enc) + s);
    } else {
        let (x, rest) = dec(s).unwrap();
        lemma_all_only((n - 1) as nat, rest, enc, dec);
        let (t, end) = dec_n((n - 1) as nat, rest, dec).unwrap();
        let u = seq![x] + t;
        lemma_enc_front(u, enc);
        assert(u.skip(1) =~= t);
        assert(s =~= enc_all(u, enc) + end);
    }
}

/// As many items come out as were asked for, each of them decoded.
pub proof fn lemma_dec_n<T>(
    n: nat,
    s: Seq<u8>,
    dec: spec_fn(Seq<u8>) -> Option<(T, Seq<u8>)>,
)
    requires
        dec_n(n, s, dec) is Some,
    ensures
        dec_n(n, s, dec).unwrap().0.len() == n,
        forall|i: int|
            0 <= i < n ==> exists|u: Seq<u8>|
                (#[trigger] dec(u)) is Some && dec(u).unwrap().0
                    == #[trigger] dec_n(n, s, dec).unwrap().0[i],
    decreases n,
{
    if n > 0 {
        let (x, rest) = dec(s).unwrap();
        lemma_dec_n((n - 1) as nat, rest, dec);
        let t = dec_n((n - 1) as nat, rest, dec).unwrap().0;
        let all = dec_n(n, s, dec).unwrap().0;
        assert(all == seq![x] + t);
        assert forall|i: int| 0 <= i < n implies exists|u: Seq<u8>|
            (#[trigger] dec(u)) is Some && dec(u).unwrap().0 == #[trigger] all[i] by {
            if i == 0 {
                assert(dec(s) is Some && dec(s).unwrap().0 == all[0]);
            } else {
                assert(all[i] == t[i - 1]);
            }
        }
    }
}

/// Bytes gathered for a record.
pub struct Encoder(pub Vec<u8>);

impl Default for Encoder {
    fn default() -> (e: Self)
        ensures
            e.0@ == Seq::<u8>::empty(),
    {
        Encoder(Vec::new())
    }
}

impl Encoder {
    /// Appends a byte.
    pub fn u8(&mut self, v: u8)
        ensures
            final(self).0@ == old(self).0@ + seq![v],
    {
        self.0.push(v);
        assert(self.0@ =~= old(self).0@ + seq![v]);
    }

    /// Appends a flag.
    pub fn bool(&mut self, v: bool)
        ensures
            final(self).0@ == old(self).0@ + enc_bool(v),
    {
        self.u8(if v { 1 } else { 0 });
    }

    /// Appends a 32-bit integer.
    pub fn u32(&mut self, v: u32)
        ensures
            final(self).0@ == old(self).0@ + le(v as nat, 4),
    {
        put_le(&mut self.0, v as u64, 4);
    }

    /// Appends a 64-bit integer.
    pub fn u64(&mut self, v: u64)
        ensures
            final(self).0@ == old(self).0@ + le(v as nat, 8),
    {
        put_le(&mut self.0, v, 8);
    }

    /// Appends a byte string behind its length.
    pub fn bytes(&mut self, v: &[u8])
        ensures
            final(self).0@ == old(self).0@ + enc_bytes(v@),
    {
        self.u64(v.len() as u64);
        self.0.extend_from_slice(v);
        assert(self.0@ =~= old(self).0@ + enc_bytes(v@));
    }

    /// Appends a text behind its length.
    pub fn string(&mut self, v: &str)
        ensures
            final(self).0@ == old(self).0@ + enc_string(v@),
    {
        self.bytes(v.as_bytes());
    }
}

/// Calls `String::from_utf8`: a text where the bytes are UTF-8, and then the text that
/// they encode; nothing otherwise.
#[verifier::external_body]
fn text_of(bytes: Vec<u8>) -> (text: Option<String>)
    ensures
        match text {
            Some(s) => valid_utf8(bytes@) && s@ == decode_utf8(bytes@),
            None => !valid_utf8(bytes@),
        },
{
    String::from_utf8(bytes).ok()
}

/// A reader over the bytes of a record.
pub struct Decoder<'a> {
    data: &'a [u8],
    offset: usize,
}

impl<'a> Decoder<'a> {
    #[verifier::type_invariant]
    spec fn in_bounds(self) -> bool {
        self.offset <= self.data@.len()
    }

    /// The bytes not read yet.
    pub closed spec fn rest(self) -> Seq<u8> {
        self.data@.skip(self.offset as int)
    }

    /// Starts at the front of `data`.
    pub fn new(data: &'a [u8]) -> (d: Self)
        ensures
            d.rest() == data@,
    {
        let d = Decoder { data, offset: 0 };
        assert(d.rest() =~= data@);
        d
    }

    /// Reads `count` bytes.
    pub fn take(&mut self, count: usize) -> (r: Result<&'a [u8], Error>)
        ensures
            match r {
                Ok(b) => dec_take(old(self).rest(), count as nat) == Some((b@, final(self).rest())),
                Err(e) => dec_take(old(self).rest(), count as nat) is None && e is Corrupt
                    && final(self).rest() == old(self).rest(),
            },
    {
        proof {
            use_type_invariant(&*self);
        }
        if count > usize::MAX - self.offset {
            assert(self.data.len() <= usize::MAX);
            return Err(corrupt("length overflow"));
        }
        let end: usize = self.offset + count;
        if end > self.data.len() {
            return Err(corrupt("truncated record"));
        }
        let bytes = vstd::slice::slice_subrange(self.data, self.offset, end);
        assert(bytes@ =~= self.rest().take(count as int));
        assert(self.data@.skip(end as int) =~= self.rest().skip(count as int));
        self.offset = end;
        Ok(bytes)
    }

    /// Reads a byte.
    pub fn u8(&mut self) -> (r: Result<u8, Error>)
        ensures
            match r {
                Ok(v) => dec_u8(old(self).rest()) == Some((v, final(self).rest())),
                Err(e) => dec_u8(old(self).rest()) is None && e is Corrupt,
            },
    {
        let bytes = self.take(1)?;
        Ok(bytes[0])
    }

    /// Reads a flag; `message` names the failure of a byte that is neither 0 nor 1.
    pub fn bool(&mut self, message: &str) -> (r: Result<bool, Error>)
        ensures
            match r {
                Ok(v) => dec_bool(old(self).rest()) == Some((v, final(self).rest())),
                Err(e) => dec_bool(old(self).rest()) is None && e is Corrupt,
            },
    {
        match self.u8()? {
            0 => Ok(false),
            1 => Ok(true),
            _ => Err(corrupt(message)),
        }
    }

    /// Reads a 32-bit integer.
    pub fn u32(&mut self) -> (r: Result<u32, Error>)
        ensures
            match r {
                Ok(v) => dec_u32(old(self).rest()) == Some((v, final(self).rest())),
                Err(e) => dec_u32(old(self).rest()) is None && e is Corrupt,
            },
    {
        let bytes = self.take(4)?;
        let value: u64 = crate::bytes::get_le(bytes, 0, 4);
        proof {
            assert(bytes@.subrange(0, 4) =~= bytes@);
            lemma_un_le_bound(bytes@);
            lemma_pow256();
        }
        Ok(value as u32)
    }

    /// Reads a 64-bit integer.
    pub fn u64(&mut self) -> (r: Result<u64, Error>)
        ensures
            match r {
                Ok(v) => dec_u64(old(self).rest()) == Some((v, final(self).rest())),
                Err(e) => dec_u64(old(self).rest()) is None && e is Corrupt,
            },
    {
        let bytes = self.take(8)?;
        let value: u64 = crate::bytes::get_le(bytes, 0, 8);
        assert(bytes@.subrange(0, 8) =~= bytes@);
        Ok(value)
    }

    /// Reads an item count that the remaining bytes can hold.
    pub fn count(&mut self, minimum_bytes: usize) -> (r: Result<usize, Error>)
        ensures
            match r {
                Ok(n) => dec_count(old(self).rest(), minimum_bytes as nat) == Some(
                    (n as nat, final(self).rest()),
                ),
                Err(e) => dec_count(old(self).rest(), minimum_bytes as nat) is None && e is Corrupt,
            },
    {
        let n: u64 = self.u64()?;
        let remaining: usize = self.remaining();
        let each: usize = if minimum_bytes == 0 {
            1
        } else {
            minimum_bytes
        };
        proof {
            if n as nat > usize::MAX as nat {
                assert(n as nat * each as nat >= n as nat) by (nonlinear_arith)
                    requires
                        each >= 1,
                ;
            }
            assert(n as nat * each as nat <= remaining as nat <==> n as nat <= remaining as nat
                / each as nat) by (nonlinear_arith)
                requires
                    each >= 1,
            ;
        }
        if n > usize::MAX as u64 {
            return Err(corrupt("length overflow"));
        }
        let n: usize = n as usize;
        if n > remaining / each {
            return Err(corrupt("invalid item count"));
        }
        Ok(n)
    }

    /// Reads a byte string behind its length.
    pub fn bytes(&mut self) -> (r: Result<&'a [u8], Error>)
        ensures
            match r {
                Ok(b) => dec_bytes(old(self).rest()) == Some((b@, final(self).rest())),
                Err(e) => dec_bytes(old(self).rest()) is None && e is Corrupt,
            },
    {
        proof {
            if let Some((n, rest)) = dec_u64(self.rest()) {
                assert(n as nat * 1 == n as nat) by (nonlinear_arith);
            }
        }
        let n: usize = self.count(1)?;
        self.take(n)
    }

    /// Reads a text behind its length.
    pub fn string(&mut self) -> (r: Result<String, Error>)
        ensures
            match r {
                Ok(s) => dec_string(old(self).rest()) == Some((s@, final(self).rest())),
                Err(e) => dec_string(old(self).rest()) is None && e is Corrupt,
            },
    {
        let bytes = self.bytes()?;
        match text_of(vstd::slice::slice_to_vec(bytes)) {
            Some(s) => Ok(s),
            None => Err(corrupt("invalid UTF-8")),
        }
    }

    /// The number of bytes not read yet.
    pub fn remaining(&self) -> (n: usize)
        ensures
            n == self.rest().len(),
    {
        proof {
            use_type_invariant(&*self);
        }
        self.data.len() - self.offset
    }

    /// Succeeds if every byte was read.
    pub fn finish(self) -> (r: Result<(), Error>)
        ensures
            match r {
                Ok(_) => self.rest().len() == 0,
                Err(e) => self.rest().len() > 0 && e is Corrupt && e->Corrupt_0@
                    == "unexpected trailing bytes"@,
            },
    {
        if self.remaining() != 0 {
            return Err(corrupt("unexpected trailing bytes"));
        }
        Ok(())
    }
}

} // verus!
