//! The encodings of values, entities, events and tables.

use crate::bytes::le;
use crate::bytes::lemma_le_len;
use crate::codec::dec_bool;
use crate::codec::dec_bytes;
use crate::codec::dec_count;
use crate::codec::dec_n;
use crate::codec::dec_string;
use crate::codec::dec_u32;
use crate::codec::dec_u64;
use crate::codec::dec_u8;
use crate::codec::enc_all;
use crate::codec::enc_bool;
use crate::codec::enc_bytes;
use crate::codec::enc_string;
use crate::codec::lemma_all;
use crate::codec::lemma_all_only;
use crate::codec::lemma_bool;
use crate::codec::lemma_bool_only;
use crate::codec::lemma_bytes;
use crate::codec::lemma_bytes_only;
use crate::codec::lemma_count;
use crate::codec::lemma_dec_n;
use crate::codec::lemma_dec_step;
use crate::codec::lemma_enc_len;
use crate::codec::lemma_enc_push;
use crate::codec::lemma_string;
use crate::codec::lemma_string_only;
use crate::codec::lemma_u32;
use crate::codec::lemma_u32_only;
use crate::codec::lemma_u64;
use crate::codec::lemma_u64_only;
use crate::codec::lemma_u8;
use crate::codec::lemma_u8_only;
use crate::codec::prepend;
use crate::codec::Decoder;
use crate::codec::Encoder;
use crate::error::corrupt;
use crate::error::Error;
use crate::error::Result;
use crate::key::entries32;
use crate::key::increasing;
use crate::key::lemma_listing;
use crate::key::lemma_listing_is;
use crate::key::lemma_listing_len;
use crate::key::lemma_listing_map;
use crate::key::listing;
use crate::key::lists;
use crate::key::OrderedKey;
use crate::model::fields_view;
use crate::model::finite_bits;
use crate::model::is_finite;
use crate::model::valid_name;
use crate::model::valid_schema;
use crate::model::validate_name;
use crate::model::DataType;
use crate::model::Entity;
use crate::model::EntityV;
use crate::model::Event;
use crate::model::EventKind;
use crate::model::EventV;
use crate::model::Field;
use crate::model::FieldV;
use crate::model::Fields;
use crate::model::Schema;
use crate::model::SchemaV;
use crate::model::Table;
use crate::model::TableV;
use crate::model::Value;
use crate::model::ValueV;
use vstd::prelude::*;
use vstd::utf8::encode_utf8;

verus! {

// ---- Values ----

/// A tagged value.
pub open spec fn enc_value(v: ValueV) -> Seq<u8> {
    match v {
        ValueV::Null => seq![0u8],
        ValueV::Bool(b) => seq![1u8] + enc_bool(b),
        ValueV::Int64(i) => seq![2u8] + le(i as u64 as nat, 8),
        ValueV::UInt64(u) => seq![3u8] + le(u as nat, 8),
        ValueV::Float64(bits) => seq![4u8] + le(bits as nat, 8),
        ValueV::Text(s) => seq![5u8] + enc_string(s),
        ValueV::Bytes(b) => seq![6u8] + enc_bytes(b),
    }
}

/// A tagged value at the front.
pub open spec fn dec_value(s: Seq<u8>) -> Option<(ValueV, Seq<u8>)> {
    match dec_u8(s) {
        None => None,
        Some((tag, rest)) => if tag == 0 {
            Some((ValueV::Null, rest))
        } else if tag == 1 {
            match dec_bool(rest) {
                Some((b, rest)) => Some((ValueV::Bool(b), rest)),
                None => None,
            }
        } else if tag == 2 {
            match dec_u64(rest) {
                Some((u, rest)) => Some((ValueV::Int64(u as i64), rest)),
                None => None,
            }
        } else if tag == 3 {
            match dec_u64(rest) {
                Some((u, rest)) => Some((ValueV::UInt64(u), rest)),
                None => None,
            }
        } else if tag == 4 {
            match dec_u64(rest) {
                Some((bits, rest)) => if finite_bits(bits) {
                    Some((ValueV::Float64(bits), rest))
                } else {
                    None
                },
                None => None,
            }
        } else if tag == 5 {
            match dec_string(rest) {
                Some((text, rest)) => Some((ValueV::Text(text), rest)),
                None => None,
            }
        } else if tag == 6 {
            match dec_bytes(rest) {
                Some((bytes, rest)) => Some((ValueV::Bytes(bytes), rest)),
                None => None,
            }
        } else {
            None
        },
    }
}

/// Whether a value survives encoding: a double is finite, and a length fits its 64 bits.
pub open spec fn encodable(v: ValueV) -> bool {
    match v {
        ValueV::Float64(bits) => finite_bits(bits),
        ValueV::Text(s) => encode_utf8(s).len() <= u64::MAX,
        ValueV::Bytes(b) => b.len() <= u64::MAX,
        _ => true,
    }
}

/// An encoded value decodes to itself.
pub proof fn lemma_value(v: ValueV, rest: Seq<u8>)
    requires
        encodable(v),
    ensures
        dec_value(enc_value(v) + rest) == Some((v, rest)),
{
    match v {
        ValueV::Null => {
            lemma_u8(0, rest);
        },
        ValueV::Bool(b) => {
            assert(enc_value(v) + rest =~= seq![1u8] + (enc_bool(b) + rest));
            lemma_u8(1, enc_bool(b) + rest);
            lemma_bool(b, rest);
        },
        ValueV::Int64(i) => {
            let u = i as u64;
            assert(enc_value(v) + rest =~= seq![2u8] + (le(u as nat, 8) + rest));
            lemma_u8(2, le(u as nat, 8) + rest);
            lemma_u64(u, rest);
            assert((i as u64) as i64 == i) by (bit_vector);
        },
        ValueV::UInt64(u) => {
            assert(enc_value(v) + rest =~= seq![3u8] + (le(u as nat, 8) + rest));
            lemma_u8(3, le(u as nat, 8) + rest);
            lemma_u64(u, rest);
        },
        ValueV::Float64(u) => {
            assert(enc_value(v) + rest =~= seq![4u8] + (le(u as nat, 8) + rest));
            lemma_u8(4, le(u as nat, 8) + rest);
            lemma_u64(u, rest);
        },
        ValueV::Text(s) => {
            assert(enc_value(v) + rest =~= seq![5u8] + (enc_string(s) + rest));
            lemma_u8(5, enc_string(s) + rest);
            lemma_string(s, rest);
        },
        ValueV::Bytes(b) => {
            assert(enc_value(v) + rest =~= seq![6u8] + (enc_bytes(b) + rest));
            lemma_u8(6, enc_bytes(b) + rest);
            lemma_bytes(b, rest);
        },
    }
}

/// What decodes to a value is its encoding, and the value survives encoding.
pub proof fn lemma_value_only(s: Seq<u8>)
    requires
        dec_value(s) is Some,
    ensures
        s == enc_value(dec_value(s).unwrap().0) + dec_value(s).unwrap().1,
        encodable(dec_value(s).unwrap().0),
{
    lemma_u8_only(s);
    let (tag, rest) = dec_u8(s).unwrap();
    let (v, end) = dec_value(s).unwrap();
    if tag == 1 {
        lemma_bool_only(rest);
    } else if tag == 2 {
        lemma_u64_only(rest);
        let u = dec_u64(rest).unwrap().0;
        assert((u as i64) as u64 == u) by (bit_vector);
    } else if tag == 3 || tag == 4 {
        lemma_u64_only(rest);
    } else if tag == 5 {
        lemma_string_only(rest);
        lemma_bytes_only(rest);
        let b = dec_bytes(rest).unwrap().0;
        vstd::utf8::decode_utf8_encode_utf8(b);
    } else if tag == 6 {
        lemma_bytes_only(rest);
    }
    assert(s =~= enc_value(v) + end);
}

/// Appends a tagged value.
fn encode_value(value: &Value, e: &mut Encoder)
    ensures
        final(e).0@ == old(e).0@ + enc_value(value@),
{
    match value {
        Value::Null => e.u8(0),
        Value::Bool(v) => {
            e.u8(1);
            e.bool(*v);
        },
        Value::Int64(v) => {
            e.u8(2);
            e.u64(*v as u64);
        },
        Value::UInt64(v) => {
            e.u8(3);
            e.u64(*v);
        },
        Value::Float64(bits) => {
            e.u8(4);
            e.u64(*bits);
        },
        Value::Text(v) => {
            e.u8(5);
            e.string(v.as_str());
        },
        Value::Bytes(v) => {
            e.u8(6);
            e.bytes(v.as_slice());
        },
    }
    assert(e.0@ =~= old(e).0@ + enc_value(value@));
}

/// Reads a tagged value.
fn decode_value(d: &mut Decoder<'_>) -> (r: Result<Value>)
    ensures
        match r {
            Ok(v) => dec_value(old(d).rest()) == Some((v@, final(d).rest())),
            Err(e) => dec_value(old(d).rest()) is None && e is Corrupt,
        },
{
    match d.u8()? {
        0 => Ok(Value::Null),
        1 => Ok(Value::Bool(d.bool("invalid boolean")?)),
        2 => Ok(Value::Int64(d.u64()? as i64)),
        3 => Ok(Value::UInt64(d.u64()?)),
        4 => {
            let bits: u64 = d.u64()?;
            if !is_finite(bits) {
                return Err(corrupt("non-finite float"));
            }
            Ok(Value::Float64(bits))
        },
        5 => Ok(Value::Text(d.string()?)),
        6 => Ok(Value::Bytes(vstd::slice::slice_to_vec(d.bytes()?))),
        _ => Err(corrupt("unknown value type")),
    }
}

// ---- Assignments ----

/// An assignment: its field and its value.
pub open spec fn enc_pair(p: (u32, ValueV)) -> Seq<u8> {
    le(p.0 as nat, 4) + enc_value(p.1)
}

/// An assignment at the front.
pub open spec fn dec_pair(s: Seq<u8>) -> Option<((u32, ValueV), Seq<u8>)> {
    match dec_u32(s) {
        Some((id, rest)) => match dec_value(rest) {
            Some((v, rest)) => Some(((id, v), rest)),
            None => None,
        },
        None => None,
    }
}

/// The encoding of assignments.
pub open spec fn pair_encoder() -> spec_fn((u32, ValueV)) -> Seq<u8> {
    |p: (u32, ValueV)| enc_pair(p)
}

/// The decoding of assignments.
pub open spec fn pair_decoder() -> spec_fn(Seq<u8>) -> Option<((u32, ValueV), Seq<u8>)> {
    |s: Seq<u8>| dec_pair(s)
}

/// The number of assignments and the assignments in the order of their fields.
pub open spec fn enc_fields(m: Map<u32, ValueV>) -> Seq<u8> {
    le(m.dom().len(), 8) + enc_all(listing(m), pair_encoder())
}

/// Whether no key occurs twice.
pub open spec fn distinct<K, V>(s: Seq<(K, V)>) -> bool {
    forall|i: int, j: int| 0 <= i < j < s.len() ==> (#[trigger] s[i]).0 != (#[trigger] s[j]).0
}

/// The map of the entries of a sequence.
pub open spec fn gather<K, V>(s: Seq<(K, V)>) -> Map<K, V>
    decreases s.len(),
{
    if s.len() == 0 {
        Map::empty()
    } else {
        gather(s.drop_last()).insert(s.last().0, s.last().1)
    }
}

/// Up to 4096 assignments at the front, to different fields.
pub open spec fn dec_fields(s: Seq<u8>) -> Option<(Map<u32, ValueV>, Seq<u8>)> {
    match dec_count(s, 5) {
        Some((n, rest)) => if n > 4096 {
            None
        } else {
            match dec_n(n, rest, pair_decoder()) {
                Some((pairs, rest)) => if distinct(pairs) {
                    Some((gather(pairs), rest))
                } else {
                    None
                },
                None => None,
            }
        },
        None => None,
    }
}

/// Whether assignments survive encoding: up to 4096, each with a value that does.
pub open spec fn encodable_fields(m: Map<u32, ValueV>) -> bool {
    &&& m.dom().finite()
    &&& m.dom().len() <= 4096
    &&& forall|k: u32| #[trigger] m.contains_key(k) ==> encodable(m[k])
}

/// A sequence with different keys gathers into the map that it lists.
pub proof fn lemma_gather<K, V>(s: Seq<(K, V)>)
    requires
        distinct(s),
    ensures
        lists(s, gather(s)),
        gather(s).dom().finite(),
        gather(s).dom().len() == s.len(),
    decreases s.len(),
{
    reveal(lists);
    if s.len() > 0 {
        let t = s.drop_last();
        assert(distinct(t)) by {
            assert forall|i: int, j: int| 0 <= i < j < t.len() implies (#[trigger] t[i]).0 != (
            #[trigger] t[j]).0 by {
                assert(t[i] == s[i] && t[j] == s[j]);
            }
        }
        lemma_gather(t);
        let (m, n) = (gather(s), gather(t));
        let last = s.last();
        assert(!n.contains_key(last.0)) by {
            if n.contains_key(last.0) {
                let i = choose|i: int| 0 <= i < t.len() && (#[trigger] t[i]).0 == last.0;
                assert(s[i].0 != s[s.len() - 1].0);
            }
        }
        assert forall|i: int| 0 <= i < s.len() implies m.contains_key((#[trigger] s[i]).0)
            && m[s[i].0] == s[i].1 by {
            if i < t.len() {
                assert(t[i] == s[i]);
            }
        }
        assert forall|k: K| #[trigger] m.contains_key(k) implies exists|i: int|
            0 <= i < s.len() && (#[trigger] s[i]).0 == k by {
            if k == last.0 {
                assert(s[s.len() - 1].0 == k);
            } else {
                let i = choose|i: int| 0 <= i < t.len() && (#[trigger] t[i]).0 == k;
                assert(s[i].0 == k);
            }
        }
    } else {
        assert(gather(s).dom() =~= Set::empty());
    }
}

/// Whatever sequence lists a map gathers into it.
pub proof fn lemma_gather_lists<K, V>(s: Seq<(K, V)>, m: Map<K, V>)
    requires
        distinct(s),
        lists(s, m),
    ensures
        gather(s) == m,
{
    lemma_gather(s);
    reveal(lists);
    let n = gather(s);
    assert forall|k: K| n.contains_key(k) == #[trigger] m.contains_key(k) by {
        if n.contains_key(k) {
            let i = choose|i: int| 0 <= i < s.len() && (#[trigger] s[i]).0 == k;
            assert(m.contains_key(s[i].0));
        }
        if m.contains_key(k) {
            let i = choose|i: int| 0 <= i < s.len() && (#[trigger] s[i]).0 == k;
            assert(n.contains_key(s[i].0));
        }
    }
    assert forall|k: K| #[trigger] n.contains_key(k) implies n[k] == m[k] by {
        let i = choose|i: int| 0 <= i < s.len() && (#[trigger] s[i]).0 == k;
        assert(n[s[i].0] == m[s[i].0]);
    }
    assert(n =~= m);
}

/// A listing has no key twice.
pub proof fn lemma_increasing_distinct<K: OrderedKey, V>(s: Seq<(K, V)>)
    requires
        increasing(s),
    ensures
        distinct(s),
{
    reveal(increasing);
    assert forall|i: int, j: int| 0 <= i < j < s.len() implies (#[trigger] s[i]).0 != (
    #[trigger] s[j]).0 by {
        assert(s[i].0.before(s[j].0));
        K::order_laws();
    }
}

/// Encoded assignments decode to themselves.
pub proof fn lemma_fields(m: Map<u32, ValueV>, rest: Seq<u8>)
    requires
        encodable_fields(m),
    ensures
        dec_fields(enc_fields(m) + rest) == Some((m, rest)),
{
    let s = listing(m);
    lemma_listing(m);
    lemma_listing_len(s, m);
    lemma_increasing_distinct(s);
    lemma_gather_lists(s, m);
    let enc = pair_encoder();
    let dec = pair_decoder();
    assert forall|i: int, r: Seq<u8>| 0 <= i < s.len() implies #[trigger] dec(enc(s[i]) + r)
        == Some((s[i], r)) by {
        assert(encodable(s[i].1)) by {
            reveal(lists);
            assert(m.contains_key(s[i].0));
        }
        let (id, v) = s[i];
        assert(enc(s[i]) + r =~= le(id as nat, 4) + (enc_value(v) + r));
        lemma_u32(id, enc_value(v) + r);
        lemma_value(v, r);
    }
    lemma_all(s, rest, enc, dec);
    let body = enc_all(s, enc) + rest;
    assert forall|i: int| 0 <= i < s.len() implies enc(#[trigger] s[i]).len() >= 5 by {
        lemma_le_len(s[i].0 as nat, 4);
        lemma_value_len(s[i].1);
    }
    lemma_enc_len(s, enc, 5);
    lemma_count(s.len(), 5, body);
    assert(enc_fields(m) + rest =~= le(s.len(), 8) + body);
}

proof fn lemma_value_len(v: ValueV)
    ensures
        enc_value(v).len() >= 1,
{
}

/// What decodes to assignments is an encoding of them, in some order, and they survive encoding.
#[verifier::spinoff_prover]
#[verifier::rlimit(60)]
pub proof fn lemma_fields_only(s: Seq<u8>) -> (pairs: Seq<(u32, ValueV)>)
    requires
        dec_fields(s) is Some,
    ensures
        ({
            let (m, rest) = dec_fields(s).unwrap();
            &&& encodable_fields(m)
            &&& distinct(pairs) && lists(pairs, m)
            &&& s == le(pairs.len(), 8) + enc_all(pairs, pair_encoder()) + rest
        }),
{
    let dec = pair_decoder();
    let enc = pair_encoder();
    lemma_u64_only(s);
    let (n, rest) = dec_count(s, 5).unwrap();
    assert forall|u: Seq<u8>| (#[trigger] dec(u)) is Some implies u == enc(dec(u).unwrap().0) + dec(
        u,
    ).unwrap().1 by {
        lemma_pair_only(u);
    }
    lemma_all_only(n, rest, enc, dec);
    lemma_dec_n(n, rest, dec);
    let (pairs, end) = dec_n(n, rest, dec).unwrap();
    lemma_gather(pairs);
    let m = gather(pairs);
    assert forall|k: u32| #[trigger] m.contains_key(k) implies encodable(m[k]) by {
        reveal(lists);
        let i = choose|i: int| 0 <= i < pairs.len() && (#[trigger] pairs[i]).0 == k;
        let u = choose|u: Seq<u8>|
            (#[trigger] dec(u)) is Some && dec(u).unwrap().0 == pairs[i];
        lemma_pair_only(u);
    }
    assert(s =~= le(pairs.len(), 8) + enc_all(pairs, enc) + end);
    pairs
}

proof fn lemma_pair_only(u: Seq<u8>)
    requires
        dec_pair(u) is Some,
    ensures
        u == enc_pair(dec_pair(u).unwrap().0) + dec_pair(u).unwrap().1,
        encodable(dec_pair(u).unwrap().0.1),
{
    lemma_u32_only(u);
    let (id, rest) = dec_u32(u).unwrap();
    lemma_value_only(rest);
    let ((i, v), end) = dec_pair(u).unwrap();
    assert(u =~= enc_pair((i, v)) + end);
}

/// The pairs of assignments that a sorted vector holds.
spec fn pairs_of(entries: Seq<(u32, &Value)>) -> Seq<(u32, ValueV)> {
    entries.map_values(|e: (u32, &Value)| (e.0, e.1@))
}

proof fn lemma_entries(entries: Seq<(u32, &Value)>, m: Map<u32, Value>)
    requires
        increasing(entries.map_values(|e: (u32, &Value)| (e.0, *e.1))),
        lists(entries.map_values(|e: (u32, &Value)| (e.0, *e.1)), m),
    ensures
        pairs_of(entries) == listing(fields_view(m)),
        fields_view(m).dom().finite(),
        fields_view(m).dom().len() == entries.len(),
        m.dom().len() == entries.len(),
{
    let s = entries.map_values(|e: (u32, &Value)| (e.0, *e.1));
    let f = |v: Value| v@;
    lemma_listing_len(s, m);
    lemma_listing_map(s, m, f);
    let t = s.map_values(|e: (u32, Value)| (e.0, f(e.1)));
    assert(t =~= pairs_of(entries));
    assert(m.map_values(f) =~= fields_view(m));
    lemma_listing_is(t, fields_view(m));
    lemma_listing_len(t, fields_view(m));
}

/// The length of an encoded value, where it fits.
pub(crate) fn value_len(value: &Value) -> (n: Option<usize>)
    ensures
        match n {
            Some(n) => n == enc_value(value@).len(),
            None => enc_value(value@).len() > usize::MAX,
        },
{
    broadcast use lemma_le_len;

    match value {
        Value::Null => Some(1),
        Value::Bool(_) => Some(2),
        Value::Text(text) => text.as_str().as_bytes().len().checked_add(9),
        Value::Bytes(bytes) => bytes.len().checked_add(9),
        _ => Some(9),
    }
}

/// The length of the encoded assignments, or the greatest length where it does not fit.
pub fn fields_encoded_len(fields: &Fields) -> (n: usize)
    ensures
        n == (if enc_fields(fields_view(fields@)).len() <= usize::MAX {
            enc_fields(fields_view(fields@)).len()
        } else {
            usize::MAX as nat
        }),
{
    broadcast use lemma_le_len;

    let entries = entries32(fields);
    let total: usize = entries.len();
    let ghost pairs = pairs_of(entries@);
    let ghost enc = pair_encoder();
    proof {
        lemma_entries(entries@, fields@);
    }
    let mut n: usize = 8;
    let mut i: usize = 0;
    while i < total
        invariant
            total == entries@.len(),
            i <= total,
            enc == pair_encoder(),
            pairs == pairs_of(entries@),
            pairs == listing(fields_view(fields@)),
            fields_view(fields@).dom().len() == total,
            n == 8 + enc_all(pairs.take(i as int), enc).len(),
        decreases total - i,
    {
        proof {
            lemma_le_len(pairs[i as int].0 as nat, 4);
            lemma_le_len(total as nat, 8);
            assert(pairs.take(i + 1) =~= pairs.take(i as int).push(pairs[i as int]));
            lemma_enc_push(pairs.take(i as int), pairs[i as int], enc);
            lemma_enc_prefix(pairs, i + 1, enc);
        }
        let length: usize = match value_len(entries[i].1) {
            Some(length) => length,
            None => {
                return usize::MAX;
            },
        };
        n = match n.checked_add(4) {
            Some(n) => match n.checked_add(length) {
                Some(n) => n,
                None => {
                    return usize::MAX;
                },
            },
            None => {
                return usize::MAX;
            },
        };
        i = i + 1;
    }
    proof {
        lemma_le_len(total as nat, 8);
        assert(pairs.take(total as int) =~= pairs);
    }
    n
}

/// The first items take no more room than all of them.
pub proof fn lemma_enc_prefix<T>(s: Seq<T>, count: int, enc: spec_fn(T) -> Seq<u8>)
    requires
        0 <= count <= s.len(),
    ensures
        enc_all(s.take(count), enc).len() <= enc_all(s, enc).len(),
    decreases s.len() - count,
{
    if count == s.len() {
        assert(s.take(count) =~= s);
    } else {
        assert(s.take(count + 1) =~= s.take(count).push(s[count]));
        lemma_enc_push(s.take(count), s[count], enc);
        lemma_enc_prefix(s, count + 1, enc);
    }
}

/// Appends assignments in the order of their fields.
pub fn encode_fields(fields: &Fields, e: &mut Encoder)
    ensures
        final(e).0@ == old(e).0@ + enc_fields(fields_view(fields@)),
{
    let entries = entries32(fields);
    let total: usize = entries.len();
    let ghost pairs = pairs_of(entries@);
    let ghost enc = pair_encoder();
    proof {
        lemma_entries(entries@, fields@);
        assert(pairs.take(0) =~= Seq::empty());
    }
    e.u64(total as u64);
    let mut i: usize = 0;
    while i < total
        invariant
            total == entries@.len(),
            i <= total,
            enc == pair_encoder(),
            pairs == pairs_of(entries@),
            e.0@ =~= old(e).0@ + le(total as nat, 8) + enc_all(pairs.take(i as int), enc),
        decreases total - i,
    {
        let (id, value) = entries[i];
        e.u32(id);
        encode_value(value, e);
        proof {
            assert(pairs[i as int] == (id, value@));
            assert(pairs.take(i + 1) =~= pairs.take(i as int).push(pairs[i as int]));
            lemma_enc_push(pairs.take(i as int), pairs[i as int], enc);
        }
        i = i + 1;
    }
    proof {
        assert(pairs.take(total as int) =~= pairs);
        assert(e.0@ =~= old(e).0@ + enc_fields(fields_view(fields@)));
    }
}

/// Reads assignments.
pub fn decode_fields(d: &mut Decoder<'_>) -> (r: Result<Fields>)
    ensures
        match r {
            Ok(m) => dec_fields(old(d).rest()) == Some((fields_view(m@), final(d).rest())),
            Err(e) => dec_fields(old(d).rest()) is None && e is Corrupt,
        },
{
    let count: usize = d.count(5)?;
    if count > 4096 {
        return Err(corrupt("too many fields"));
    }
    let ghost dec = pair_decoder();
    let ghost start = d.rest();
    let mut fields = Fields::new();
    let ghost mut pairs: Seq<(u32, ValueV)> = Seq::empty();
    proof {
        assert(fields_view(fields@) =~= Map::empty());
        lemma_prepend_none(dec_n(count as nat, start, dec));
    }
    let mut i: usize = 0;
    while i < count
        invariant
            i <= count,
            dec == pair_decoder(),
            dec_n(count as nat, start, dec) == prepend(
                pairs,
                dec_n((count - i) as nat, d.rest(), dec),
            ),
            dec_count(old(d).rest(), 5) == Some((count as nat, start)),
            count <= 4096,
            distinct(pairs),
            pairs.len() == i,
            fields_view(fields@) == gather(pairs),
        decreases count - i,
    {
        proof {
            lemma_dec_step(pairs, (count - i) as nat, d.rest(), dec);
        }
        let id: u32 = d.u32()?;
        let value = decode_value(d)?;
        let ghost more = pairs.push((id, value@));
        proof {
            lemma_gather(pairs);
            assert(more.drop_last() =~= pairs);
            assert(fields_view(fields@.insert(id, value)) =~= fields_view(fields@).insert(
                id,
                value@,
            ));
            assert(fields@.contains_key(id) == gather(pairs).contains_key(id));
        }
        if fields.contains_key(&id) {
            proof {
                reveal(lists);
                let j = choose|j: int| 0 <= j < pairs.len() && (#[trigger] pairs[j]).0 == id;
                if let Some((all, end)) = dec_n(count as nat, start, dec) {
                    let tail = dec_n((count - i - 1) as nat, d.rest(), dec).unwrap().0;
                    assert(all == more + tail);
                    assert(all[j].0 == all[pairs.len() as int].0);
                    assert(!distinct(all));
                }
            }
            return Err(corrupt("duplicate field"));
        }
        fields.insert(id, value);
        proof {
            assert(distinct(more)) by {
                reveal(lists);
                assert forall|a: int, b: int| 0 <= a < b < more.len() implies (
                #[trigger] more[a]).0 != (#[trigger] more[b]).0 by {
                    assert(more[a] == pairs[a]);
                    assert(gather(pairs).contains_key(pairs[a].0));
                    if b < pairs.len() {
                        assert(more[b] == pairs[b]);
                    }
                }
            }
            pairs = more;
        }
        i = i + 1;
    }
    proof {
        assert(dec_n(0, d.rest(), dec) == Some((Seq::<(u32, ValueV)>::empty(), d.rest())));
        assert(pairs + Seq::<(u32, ValueV)>::empty() =~= pairs);
    }
    Ok(fields)
}

/// Nothing in front of decoded items leaves them as they are.
pub proof fn lemma_prepend_none<T>(d: Option<(Seq<T>, Seq<u8>)>)
    ensures
        prepend(Seq::empty(), d) == d,
{
    if let Some((t, rest)) = d {
        assert(Seq::<T>::empty() + t =~= t);
    }
}

// ---- Entities and events ----

/// An encoded entity state.
pub open spec fn enc_entity(e: EntityV) -> Seq<u8> {
    le(e.id as nat, 8) + le(e.version as nat, 8) + le(e.schema_version as nat, 8) + enc_bool(
        e.deleted,
    ) + enc_fields(e.fields)
}

/// The entity state that a record holds.
pub open spec fn dec_entity(s: Seq<u8>) -> Option<EntityV> {
    match dec_u64(s) {
        None => None,
        Some((id, s)) => match dec_u64(s) {
            None => None,
            Some((version, s)) => match dec_u64(s) {
                None => None,
                Some((schema_version, s)) => match dec_bool(s) {
                    None => None,
                    Some((deleted, s)) => match dec_fields(s) {
                        None => None,
                        Some((fields, s)) => if s.len() == 0 {
                            Some(EntityV { id, version, schema_version, deleted, fields })
                        } else {
                            None
                        },
                    },
                },
            },
        },
    }
}

/// An encoded event kind.
pub open spec fn enc_kind(kind: EventKind) -> Seq<u8> {
    enc_bool(kind == EventKind::Delete)
}

/// An encoded event.
pub open spec fn enc_event(e: EventV) -> Seq<u8> {
    le(e.version as nat, 8) + le(e.transaction as nat, 8) + le(e.schema_version as nat, 8)
        + enc_kind(e.kind) + enc_fields(e.fields)
}

/// The event that a record holds.
pub open spec fn dec_event(s: Seq<u8>) -> Option<EventV> {
    match dec_u64(s) {
        None => None,
        Some((version, s)) => match dec_u64(s) {
            None => None,
            Some((transaction, s)) => match dec_u64(s) {
                None => None,
                Some((schema_version, s)) => match dec_bool(s) {
                    None => None,
                    Some((delete, s)) => match dec_fields(s) {
                        None => None,
                        Some((fields, s)) => if s.len() == 0 {
                            let kind = if delete {
                                EventKind::Delete
                            } else {
                                EventKind::Apply
                            };
                            Some(EventV { version, transaction, schema_version, kind, fields })
                        } else {
                            None
                        },
                    },
                },
            },
        },
    }
}

/// An encoded entity state decodes to itself.
pub proof fn lemma_entity(e: EntityV)
    requires
        encodable_fields(e.fields),
    ensures
        dec_entity(enc_entity(e)) == Some(e),
{
    let s4 = enc_fields(e.fields) + Seq::<u8>::empty();
    assert(s4 =~= enc_fields(e.fields));
    let s3 = enc_bool(e.deleted) + s4;
    let s2 = le(e.schema_version as nat, 8) + s3;
    let s1 = le(e.version as nat, 8) + s2;
    assert(enc_entity(e) =~= le(e.id as nat, 8) + s1);
    lemma_u64(e.id, s1);
    lemma_u64(e.version, s2);
    lemma_u64(e.schema_version, s3);
    lemma_bool(e.deleted, s4);
    lemma_fields(e.fields, Seq::empty());
}

/// An encoded event decodes to itself.
pub proof fn lemma_event(e: EventV)
    requires
        encodable_fields(e.fields),
    ensures
        dec_event(enc_event(e)) == Some(e),
{
    let s4 = enc_fields(e.fields) + Seq::<u8>::empty();
    assert(s4 =~= enc_fields(e.fields));
    let s3 = enc_kind(e.kind) + s4;
    let s2 = le(e.schema_version as nat, 8) + s3;
    let s1 = le(e.transaction as nat, 8) + s2;
    assert(enc_event(e) =~= le(e.version as nat, 8) + s1);
    lemma_u64(e.version, s1);
    lemma_u64(e.transaction, s2);
    lemma_u64(e.schema_version, s3);
    lemma_bool(e.kind == EventKind::Delete, s4);
    lemma_fields(e.fields, Seq::empty());
}

/// A decoded entity state survives encoding.
pub proof fn lemma_entity_only(s: Seq<u8>)
    requires
        dec_entity(s) is Some,
    ensures
        encodable_fields(dec_entity(s).unwrap().fields),
{
    let a = dec_u64(s).unwrap().1;
    let b = dec_u64(a).unwrap().1;
    let c = dec_u64(b).unwrap().1;
    let d = dec_bool(c).unwrap().1;
    let pairs = lemma_fields_only(d);
}

/// A decoded event survives encoding.
pub proof fn lemma_event_only(s: Seq<u8>)
    requires
        dec_event(s) is Some,
    ensures
        encodable_fields(dec_event(s).unwrap().fields),
{
    let a = dec_u64(s).unwrap().1;
    let b = dec_u64(a).unwrap().1;
    let c = dec_u64(b).unwrap().1;
    let d = dec_bool(c).unwrap().1;
    let pairs = lemma_fields_only(d);
}

/// Encodes an entity state.
pub fn encode_entity(value: &Entity) -> (bytes: Vec<u8>)
    ensures
        bytes@ == enc_entity(value@),
{
    let mut e = Encoder::default();
    e.u64(value.id);
    e.u64(value.version);
    e.u64(value.schema_version);
    e.bool(value.deleted);
    encode_fields(&value.fields, &mut e);
    assert(e.0@ =~= enc_entity(value@));
    e.0
}

/// Decodes an entity state.
pub fn decode_entity(bytes: &[u8]) -> (r: Result<Entity>)
    ensures
        match r {
            Ok(v) => dec_entity(bytes@) == Some(v@),
            Err(e) => dec_entity(bytes@) is None && e is Corrupt,
        },
{
    let mut d = Decoder::new(bytes);
    let id: u64 = d.u64()?;
    let version: u64 = d.u64()?;
    let schema_version: u64 = d.u64()?;
    let deleted: bool = d.bool("invalid tombstone")?;
    let fields = decode_fields(&mut d)?;
    d.finish()?;
    Ok(Entity { id, version, schema_version, deleted, fields })
}

/// Encodes an event.
pub fn encode_event(value: &Event) -> (bytes: Vec<u8>)
    ensures
        bytes@ == enc_event(value@),
{
    let mut e = Encoder::default();
    e.u64(value.version);
    e.u64(value.transaction);
    e.u64(value.schema_version);
    match value.kind {
        EventKind::Apply => e.bool(false),
        EventKind::Delete => e.bool(true),
    }
    encode_fields(&value.fields, &mut e);
    assert(e.0@ =~= enc_event(value@));
    e.0
}

/// Decodes an event.
pub fn decode_event(bytes: &[u8]) -> (r: Result<Event>)
    ensures
        match r {
            Ok(v) => dec_event(bytes@) == Some(v@),
            Err(e) => dec_event(bytes@) is None && e is Corrupt,
        },
{
    let mut d = Decoder::new(bytes);
    let version: u64 = d.u64()?;
    let transaction: u64 = d.u64()?;
    let schema_version: u64 = d.u64()?;
    let kind = if d.bool("invalid event kind")? {
        EventKind::Delete
    } else {
        EventKind::Apply
    };
    let fields = decode_fields(&mut d)?;
    d.finish()?;
    Ok(Event { version, transaction, schema_version, kind, fields })
}

// ---- Tables ----

/// The tag of a type.
pub open spec fn type_tag(t: DataType) -> u8 {
    match t {
        DataType::Bool => 0,
        DataType::Int64 => 1,
        DataType::UInt64 => 2,
        DataType::Float64 => 3,
        DataType::Text => 4,
        DataType::Bytes => 5,
    }
}

/// A type tag at the front.
pub open spec fn dec_type(s: Seq<u8>) -> Option<(DataType, Seq<u8>)> {
    match dec_u8(s) {
        None => None,
        Some((tag, rest)) => if tag == 0 {
            Some((DataType::Bool, rest))
        } else if tag == 1 {
            Some((DataType::Int64, rest))
        } else if tag == 2 {
            Some((DataType::UInt64, rest))
        } else if tag == 3 {
            Some((DataType::Float64, rest))
        } else if tag == 4 {
            Some((DataType::Text, rest))
        } else if tag == 5 {
            Some((DataType::Bytes, rest))
        } else {
            None
        },
    }
}

/// An encoded field definition.
pub open spec fn enc_field(f: FieldV) -> Seq<u8> {
    le(f.id as nat, 4) + enc_string(f.name) + seq![type_tag(f.data_type)] + enc_bool(f.nullable)
}

/// A field definition at the front.
pub open spec fn dec_field(s: Seq<u8>) -> Option<(FieldV, Seq<u8>)> {
    match dec_u32(s) {
        None => None,
        Some((id, s)) => match dec_string(s) {
            None => None,
            Some((name, s)) => match dec_type(s) {
                None => None,
                Some((data_type, s)) => match dec_bool(s) {
                    None => None,
                    Some((nullable, s)) => Some((FieldV { id, name, data_type, nullable }, s)),
                },
            },
        },
    }
}

/// The encoding of field definitions.
pub open spec fn field_encoder() -> spec_fn(FieldV) -> Seq<u8> {
    |f: FieldV| enc_field(f)
}

/// The decoding of field definitions.
pub open spec fn field_decoder() -> spec_fn(Seq<u8>) -> Option<(FieldV, Seq<u8>)> {
    |s: Seq<u8>| dec_field(s)
}

/// An encoded schema.
pub open spec fn enc_schema(s: SchemaV) -> Seq<u8> {
    le(s.version as nat, 8) + le(s.fields.len(), 8) + enc_all(s.fields, field_encoder())
}

/// A schema at the front.
pub open spec fn dec_schema(s: Seq<u8>) -> Option<(SchemaV, Seq<u8>)> {
    match dec_u64(s) {
        None => None,
        Some((version, s)) => match dec_count(s, 14) {
            None => None,
            Some((n, s)) => match dec_n(n, s, field_decoder()) {
                None => None,
                Some((fields, s)) => Some((SchemaV { version, fields }, s)),
            },
        },
    }
}

/// The encoding of schemas.
pub open spec fn schema_encoder() -> spec_fn(SchemaV) -> Seq<u8> {
    |s: SchemaV| enc_schema(s)
}

/// The decoding of schemas.
pub open spec fn schema_decoder() -> spec_fn(Seq<u8>) -> Option<(SchemaV, Seq<u8>)> {
    |s: Seq<u8>| dec_schema(s)
}

/// An encoded table definition.
pub open spec fn enc_table(t: TableV) -> Seq<u8> {
    le(t.id as nat, 8) + enc_string(t.name) + le(t.schemas.len(), 8) + enc_all(
        t.schemas,
        schema_encoder(),
    )
}

/// Whether a table has an identifier, a valid name, and valid schemas numbered from one.
pub open spec fn valid_table(t: TableV) -> bool {
    &&& t.id != 0
    &&& t.schemas.len() > 0
    &&& valid_name(t.name)
    &&& forall|i: int|
        0 <= i < t.schemas.len() ==> valid_schema(#[trigger] t.schemas[i]) && t.schemas[i].version
            == i + 1
}

/// A valid table definition at the front.
pub open spec fn dec_table(s: Seq<u8>) -> Option<(TableV, Seq<u8>)> {
    match dec_u64(s) {
        None => None,
        Some((id, s)) => match dec_string(s) {
            None => None,
            Some((name, s)) => match dec_count(s, 16) {
                None => None,
                Some((n, s)) => match dec_n(n, s, schema_decoder()) {
                    None => None,
                    Some((schemas, s)) => if valid_table(TableV { id, name, schemas }) {
                        Some((TableV { id, name, schemas }, s))
                    } else {
                        None
                    },
                },
            },
        },
    }
}

proof fn lemma_field(f: FieldV, rest: Seq<u8>)
    requires
        valid_name(f.name),
    ensures
        dec_field(enc_field(f) + rest) == Some((f, rest)),
        enc_field(f).len() >= 14,
{
    let s3 = enc_bool(f.nullable) + rest;
    let s2 = seq![type_tag(f.data_type)] + s3;
    let s1 = enc_string(f.name) + s2;
    assert(enc_field(f) + rest =~= le(f.id as nat, 4) + s1);
    lemma_u32(f.id, s1);
    lemma_string(f.name, s2);
    lemma_u8(type_tag(f.data_type), s3);
    lemma_bool(f.nullable, rest);
    lemma_le_len(f.id as nat, 4);
    lemma_le_len(encode_utf8(f.name).len(), 8);
}

pub proof fn lemma_schema(s: SchemaV, rest: Seq<u8>)
    requires
        valid_schema(s),
    ensures
        dec_schema(enc_schema(s) + rest) == Some((s, rest)),
        enc_schema(s).len() >= 16,
{
    let enc = field_encoder();
    let dec = field_decoder();
    assert forall|i: int, r: Seq<u8>| 0 <= i < s.fields.len() implies #[trigger] dec(
        enc(s.fields[i]) + r,
    ) == Some((s.fields[i], r)) by {
        lemma_field(s.fields[i], r);
    }
    assert forall|i: int| 0 <= i < s.fields.len() implies enc(#[trigger] s.fields[i]).len()
        >= 14 by {
        lemma_field(s.fields[i], rest);
    }
    lemma_all(s.fields, rest, enc, dec);
    lemma_enc_len(s.fields, enc, 14);
    let s2 = enc_all(s.fields, enc) + rest;
    let s1 = le(s.fields.len(), 8) + s2;
    assert(enc_schema(s) + rest =~= le(s.version as nat, 8) + s1);
    lemma_u64(s.version, s1);
    lemma_count(s.fields.len(), 14, s2);
    lemma_le_len(s.version as nat, 8);
    lemma_le_len(s.fields.len(), 8);
}

/// An encoded valid table definition decodes to itself.
pub proof fn lemma_table(t: TableV, rest: Seq<u8>)
    requires
        valid_table(t),
        t.schemas.len() <= u64::MAX,
    ensures
        dec_table(enc_table(t) + rest) == Some((t, rest)),
{
    let enc = schema_encoder();
    let dec = schema_decoder();
    assert forall|i: int, r: Seq<u8>| 0 <= i < t.schemas.len() implies #[trigger] dec(
        enc(t.schemas[i]) + r,
    ) == Some((t.schemas[i], r)) by {
        lemma_schema(t.schemas[i], r);
    }
    assert forall|i: int| 0 <= i < t.schemas.len() implies enc(#[trigger] t.schemas[i]).len()
        >= 16 by {
        lemma_schema(t.schemas[i], rest);
    }
    lemma_all(t.schemas, rest, enc, dec);
    lemma_enc_len(t.schemas, enc, 16);
    let s3 = enc_all(t.schemas, enc) + rest;
    let s2 = le(t.schemas.len(), 8) + s3;
    let s1 = enc_string(t.name) + s2;
    assert(enc_table(t) + rest =~= le(t.id as nat, 8) + s1);
    lemma_u64(t.id, s1);
    lemma_string(t.name, s2);
    lemma_count(t.schemas.len(), 16, s3);
}

/// Appends a table definition.
pub fn encode_table(table: &Table, e: &mut Encoder)
    ensures
        final(e).0@ == old(e).0@ + enc_table(table@),
{
    e.u64(table.id);
    e.string(table.name.as_str());
    let total: usize = table.schemas.len();
    e.u64(total as u64);
    let ghost enc = schema_encoder();
    let ghost start = e.0@;
    let ghost all = table@.schemas;
    assert(all.take(0) =~= Seq::empty());
    let mut i: usize = 0;
    while i < total
        invariant
            total == table.schemas@.len(),
            i <= total,
            enc == schema_encoder(),
            all == table@.schemas,
            e.0@ =~= start + enc_all(all.take(i as int), enc),
        decreases total - i,
    {
        encode_schema(&table.schemas[i], e);
        proof {
            assert(all.take(i + 1) =~= all.take(i as int).push(all[i as int]));
            lemma_enc_push(all.take(i as int), all[i as int], enc);
        }
        i = i + 1;
    }
    assert(all.take(total as int) =~= all);
    assert(e.0@ =~= old(e).0@ + enc_table(table@));
}

fn encode_schema(schema: &Schema, e: &mut Encoder)
    ensures
        final(e).0@ == old(e).0@ + enc_schema(schema@),
{
    e.u64(schema.version);
    let total: usize = schema.fields.len();
    e.u64(total as u64);
    let ghost enc = field_encoder();
    let ghost start = e.0@;
    let ghost all = schema@.fields;
    assert(all.take(0) =~= Seq::empty());
    let mut i: usize = 0;
    while i < total
        invariant
            total == schema.fields@.len(),
            i <= total,
            enc == field_encoder(),
            all == schema@.fields,
            e.0@ =~= start + enc_all(all.take(i as int), enc),
        decreases total - i,
    {
        let field = &schema.fields[i];
        e.u32(field.id);
        e.string(field.name.as_str());
        e.u8(
            match field.data_type {
                DataType::Bool => 0,
                DataType::Int64 => 1,
                DataType::UInt64 => 2,
                DataType::Float64 => 3,
                DataType::Text => 4,
                DataType::Bytes => 5,
            },
        );
        e.bool(field.nullable);
        proof {
            assert(all[i as int] == field@);
            assert(all.take(i + 1) =~= all.take(i as int).push(all[i as int]));
            lemma_enc_push(all.take(i as int), all[i as int], enc);
        }
        i = i + 1;
    }
    assert(all.take(total as int) =~= all);
    assert(e.0@ =~= old(e).0@ + enc_schema(schema@));
}

fn decode_field(d: &mut Decoder<'_>) -> (r: Result<Field>)
    ensures
        match r {
            Ok(v) => dec_field(old(d).rest()) == Some((v@, final(d).rest())),
            Err(e) => dec_field(old(d).rest()) is None && e is Corrupt,
        },
{
    let id: u32 = d.u32()?;
    let name = d.string()?;
    let data_type = match d.u8()? {
        0 => DataType::Bool,
        1 => DataType::Int64,
        2 => DataType::UInt64,
        3 => DataType::Float64,
        4 => DataType::Text,
        5 => DataType::Bytes,
        _ => {
            return Err(corrupt("invalid field type"));
        },
    };
    let nullable: bool = d.bool("invalid nullability")?;
    Ok(Field { id, name, data_type, nullable })
}

fn decode_schema(d: &mut Decoder<'_>) -> (r: Result<Schema>)
    ensures
        match r {
            Ok(v) => dec_schema(old(d).rest()) == Some((v@, final(d).rest())),
            Err(e) => dec_schema(old(d).rest()) is None && e is Corrupt,
        },
{
    let version: u64 = d.u64()?;
    let ghost counted = d.rest();
    let count: usize = d.count(14)?;
    let ghost dec = field_decoder();
    let ghost start = d.rest();
    let mut fields: Vec<Field> = Vec::new();
    let ghost mut seen: Seq<FieldV> = Seq::empty();
    proof {
        lemma_prepend_none(dec_n(count as nat, start, dec));
    }
    let mut i: usize = 0;
    while i < count
        invariant
            i <= count,
            dec == field_decoder(),
            dec_u64(old(d).rest()) == Some((version, counted)),
            dec_count(counted, 14) == Some((count as nat, start)),
            dec_n(count as nat, start, dec) == prepend(
                seen,
                dec_n((count - i) as nat, d.rest(), dec),
            ),
            seen =~= fields@.map_values(|f: Field| f@),
        decreases count - i,
    {
        proof {
            lemma_dec_step(seen, (count - i) as nat, d.rest(), dec);
        }
        let field = decode_field(d)?;
        proof {
            seen = seen.push(field@);
        }
        fields.push(field);
        i = i + 1;
    }
    proof {
        assert(seen + Seq::<FieldV>::empty() =~= seen);
    }
    Ok(Schema { version, fields })
}

/// Reads a valid table definition.
pub fn decode_table(d: &mut Decoder<'_>) -> (r: Result<Table>)
    ensures
        match r {
            Ok(v) => dec_table(old(d).rest()) == Some((v@, final(d).rest())),
            Err(e) => dec_table(old(d).rest()) is None && e is Corrupt,
        },
{
    let id: u64 = d.u64()?;
    let ghost named = d.rest();
    let name = d.string()?;
    let ghost counted = d.rest();
    let count: usize = d.count(16)?;
    let ghost dec = schema_decoder();
    let ghost start = d.rest();
    let mut schemas: Vec<Schema> = Vec::new();
    let ghost mut seen: Seq<SchemaV> = Seq::empty();
    proof {
        lemma_prepend_none(dec_n(count as nat, start, dec));
    }
    let mut i: usize = 0;
    while i < count
        invariant
            i <= count,
            dec == schema_decoder(),
            dec_u64(old(d).rest()) == Some((id, named)),
            dec_string(named) == Some((name@, counted)),
            dec_count(counted, 16) == Some((count as nat, start)),
            dec_n(count as nat, start, dec) == prepend(
                seen,
                dec_n((count - i) as nat, d.rest(), dec),
            ),
            seen =~= schemas@.map_values(|s: Schema| s@),
            schemas@.len() == i,
            forall|j: int|
                0 <= j < i ==> valid_schema(#[trigger] seen[j]) && seen[j].version == j + 1,
        decreases count - i,
    {
        proof {
            lemma_dec_step(seen, (count - i) as nat, d.rest(), dec);
        }
        let schema = decode_schema(d)?;
        let ghost more = seen.push(schema@);
        proof {
            if let Some((all, end)) = dec_n(count as nat, start, dec) {
                let tail = dec_n((count - i - 1) as nat, d.rest(), dec).unwrap().0;
                assert(all == more + tail);
                assert(all[i as int] == schema@);
            }
        }
        match schema.validate() {
            Err(e) => {
                return Err(Error::Corrupt(e.message()));
            },
            Ok(_) => {},
        }
        if schema.version != i as u64 + 1 {
            return Err(corrupt("nonsequential schema versions"));
        }
        proof {
            seen = more;
        }
        schemas.push(schema);
        i = i + 1;
    }
    proof {
        assert(seen + Seq::<SchemaV>::empty() =~= seen);
    }
    if id == 0 || schemas.len() == 0 {
        return Err(corrupt("invalid table"));
    }
    match validate_name(name.as_str()) {
        Err(e) => {
            return Err(Error::Corrupt(e.message()));
        },
        Ok(_) => {},
    }
    Ok(Table { id, name, schemas })
}

} // verus!
