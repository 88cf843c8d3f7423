//! Maps in the encoding: a count, then the entries in the order of their keys.

use crate::bytes::le;
use crate::codec::dec_count;
use crate::codec::dec_n;
use crate::codec::enc_all;
use crate::codec::lemma_all;
use crate::codec::lemma_count;
use crate::codec::lemma_dec_step;
use crate::codec::lemma_enc_len;
use crate::codec::lemma_enc_push;
use crate::codec::prepend;
use crate::codec::Decoder;
use crate::codec::Encoder;
use crate::error::corrupt;
use crate::error::Result;
use crate::key::lemma_listing;
use crate::key::lemma_listing_is;
use crate::key::lemma_listing_len;
use crate::key::lemma_listing_map;
use crate::key::listing;
use crate::key::lists;
use crate::key::OrderedKey;
use crate::ordered_map::OrderedMap;
use crate::record::distinct;
use crate::record::gather;
use crate::record::lemma_gather;
use crate::record::lemma_gather_lists;
use crate::record::lemma_increasing_distinct;
use crate::record::lemma_prepend_none;
use vstd::prelude::*;

verus! {

/// A kind of map entry that has an encoding.
pub trait Entry {
    /// The keys.
    type Key: OrderedKey;

    /// The values in memory.
    type Stored;

    /// What the values stand for.
    type Meaning;

    /// What a value stands for.
    spec fn meaning(v: Self::Stored) -> Self::Meaning;

    /// The fewest bytes of an entry.
    spec fn least() -> nat;

    /// An encoded entry.
    spec fn enc(e: (Self::Key, Self::Meaning)) -> Seq<u8>;

    /// The entry at the front.
    spec fn dec(s: Seq<u8>) -> Option<((Self::Key, Self::Meaning), Seq<u8>)>;

    /// Appends an entry.
    fn write(key: &Self::Key, value: &Self::Stored, e: &mut Encoder)
        ensures
            final(e).0@ == old(e).0@ + Self::enc((*key, Self::meaning(*value))),
    ;

    /// Takes an entry off the front.
    fn read(d: &mut Decoder<'_>) -> (r: Result<(Self::Key, Self::Stored)>)
        ensures
            match r {
                Ok((k, v)) => Self::dec(old(d).rest()) == Some(
                    ((k, Self::meaning(v)), final(d).rest()),
                ),
                Err(e) => Self::dec(old(d).rest()) is None && e is Corrupt,
            },
    ;
}

/// The values of a map by what they stand for.
pub open spec fn meanings<E: Entry>(m: Map<E::Key, E::Stored>) -> Map<E::Key, E::Meaning> {
    m.map_values(|v: E::Stored| E::meaning(v))
}

/// The encoder of one entry.
pub open spec fn encoder<E: Entry>() -> spec_fn((E::Key, E::Meaning)) -> Seq<u8> {
    |e: (E::Key, E::Meaning)| E::enc(e)
}

/// The decoder of one entry.
pub open spec fn decoder<E: Entry>() -> spec_fn(Seq<u8>) -> Option<
    ((E::Key, E::Meaning), Seq<u8>),
> {
    |s: Seq<u8>| E::dec(s)
}

/// An encoded map.
pub open spec fn enc_map<E: Entry>(m: Map<E::Key, E::Meaning>) -> Seq<u8> {
    le(listing(m).len(), 8) + enc_all(listing(m), encoder::<E>())
}

/// The map at the front; no key may come twice.
pub open spec fn dec_map<E: Entry>(s: Seq<u8>) -> Option<(Map<E::Key, E::Meaning>, Seq<u8>)> {
    match dec_count(s, E::least()) {
        None => None,
        Some((n, s)) => match dec_n(n, s, decoder::<E>()) {
            None => None,
            Some((entries, s)) => if distinct(entries) {
                Some((gather(entries), s))
            } else {
                None
            },
        },
    }
}

/// Whether an entry survives encoding.
pub open spec fn survives<E: Entry>(k: E::Key, v: E::Meaning) -> bool {
    &&& E::enc((k, v)).len() >= E::least()
    &&& forall|r: Seq<u8>| #[trigger] E::dec(E::enc((k, v)) + r) == Some(((k, v), r))
}

/// An encoded map decodes to itself.
pub proof fn lemma_map<E: Entry>(m: Map<E::Key, E::Meaning>, rest: Seq<u8>)
    requires
        m.dom().finite(),
        m.dom().len() <= u64::MAX,
        E::least() >= 1,
        forall|k: E::Key| #[trigger] m.contains_key(k) ==> survives::<E>(k, m[k]),
    ensures
        dec_map::<E>(enc_map::<E>(m) + rest) == Some((m, rest)),
{
    let s = listing(m);
    lemma_listing(m);
    lemma_listing_len(s, m);
    lemma_increasing_distinct(s);
    lemma_gather_lists(s, m);
    let (enc, dec) = (encoder::<E>(), decoder::<E>());
    assert forall|i: int| 0 <= i < s.len() implies survives::<E>(
        (#[trigger] s[i]).0,
        s[i].1,
    ) by {
        reveal(lists);
        assert(m.contains_key(s[i].0));
    }
    assert forall|i: int, r: Seq<u8>| 0 <= i < s.len() implies #[trigger] dec(enc(s[i]) + r)
        == Some((s[i], r)) by {
        assert(survives::<E>(s[i].0, s[i].1));
        assert(s[i] == (s[i].0, s[i].1));
        assert(E::dec(E::enc((s[i].0, s[i].1)) + r) == Some(((s[i].0, s[i].1), r)));
    }
    assert forall|i: int| 0 <= i < s.len() implies enc(#[trigger] s[i]).len() >= E::least() by {
        assert(survives::<E>(s[i].0, s[i].1));
    }
    lemma_all(s, rest, enc, dec);
    lemma_enc_len(s, enc, E::least());
    let body = enc_all(s, enc) + rest;
    let least = E::least();
    assert(s.len() * least >= s.len()) by (nonlinear_arith)
        requires
            least >= 1,
    ;
    lemma_count(s.len(), least, body);
    assert(enc_map::<E>(m) + rest =~= le(s.len(), 8) + body);
}

/// Appends a map.
pub fn write_map<E: Entry>(m: &OrderedMap<E::Key, E::Stored>, e: &mut Encoder)
    ensures
        final(e).0@ == old(e).0@ + enc_map::<E>(meanings::<E>(m@)),
        m@.dom().finite() && m@.dom().len() <= u64::MAX,
{
    let items = m.items();
    let ghost f = |v: E::Stored| E::meaning(v);
    let ghost all = m.entries().map_values(|x: (E::Key, E::Stored)| (x.0, f(x.1)));
    proof {
        lemma_listing_map(m.entries(), m@, f);
        lemma_listing_is(all, meanings::<E>(m@));
        lemma_listing_len(m.entries(), m@);
    }
    let count: usize = items.len();
    e.u64(count as u64);
    let ghost head = e.0@;
    let ghost enc = encoder::<E>();
    let mut i: usize = 0;
    proof {
        assert(all.take(0) =~= Seq::empty());
        assert(head + Seq::<u8>::empty() =~= head);
        assert(items@.map_values(|x: (&E::Key, &E::Stored)| (*x.0, *x.1)).len() == items@.len());
    }
    while i < count
        invariant
            i <= count,
            count == items@.len(),
            items@.len() == all.len(),
            enc == encoder::<E>(),
            items@.map_values(|x: (&E::Key, &E::Stored)| (*x.0, *x.1)) == m.entries(),
            all == m.entries().map_values(|x: (E::Key, E::Stored)| (x.0, f(x.1))),
            f == (|v: E::Stored| E::meaning(v)),
            e.0@ == head + enc_all(all.take(i as int), enc),
        decreases count - i,
    {
        let (k, v) = items[i];
        proof {
            assert(items@.map_values(|x: (&E::Key, &E::Stored)| (*x.0, *x.1))[i as int] == (*k, *v));
            assert(all[i as int] == (*k, E::meaning(*v)));
            assert(all.take(i + 1) =~= all.take(i as int).push(all[i as int]));
            lemma_enc_push(all.take(i as int), all[i as int], enc);
        }
        let ghost before = e.0@;
        E::write(k, v, e);
        proof {
            assert(e.0@ =~= head + enc_all(all.take(i + 1), enc));
        }
        i = i + 1;
    }
    proof {
        assert(all.take(count as int) =~= all);
        assert(e.0@ =~= old(e).0@ + enc_map::<E>(meanings::<E>(m@)));
    }
}

/// Takes a map off the front; `repeated` is what a key that occurs twice is refused with.
pub fn read_map<E: Entry>(d: &mut Decoder<'_>, least: usize, repeated: &str) -> (r: Result<
    OrderedMap<E::Key, E::Stored>,
>)
    requires
        least == E::least(),
    ensures
        match r {
            Ok(m) => dec_map::<E>(old(d).rest()) == Some((meanings::<E>(m@), final(d).rest())),
            Err(e) => dec_map::<E>(old(d).rest()) is None && e is Corrupt,
        },
{
    let count: usize = d.count(least)?;
    let ghost dec = decoder::<E>();
    let ghost start = d.rest();
    let mut m: OrderedMap<E::Key, E::Stored> = OrderedMap::new();
    let ghost mut seen: Seq<(E::Key, E::Meaning)> = Seq::empty();
    proof {
        assert(meanings::<E>(m@) =~= Map::empty());
        lemma_prepend_none(dec_n(count as nat, start, dec));
    }
    let mut i: usize = 0;
    while i < count
        invariant
            i <= count,
            dec == decoder::<E>(),
            dec_n(count as nat, start, dec) == prepend(
                seen,
                dec_n((count - i) as nat, d.rest(), dec),
            ),
            dec_count(old(d).rest(), E::least()) == Some((count as nat, start)),
            distinct(seen),
            seen.len() == i,
            meanings::<E>(m@) == gather(seen),
        decreases count - i,
    {
        proof {
            lemma_dec_step(seen, (count - i) as nat, d.rest(), dec);
        }
        let (k, v) = E::read(d)?;
        let ghost more = seen.push((k, E::meaning(v)));
        proof {
            lemma_more(seen, k, E::meaning(v));
            assert(meanings::<E>(m@.insert(k, v)) =~= meanings::<E>(m@).insert(k, E::meaning(v)));
            assert(m@.contains_key(k) == gather(seen).contains_key(k));
        }
        if m.contains_key(&k) {
            proof {
                if let Some((all, end)) = dec_n(count as nat, start, dec) {
                    let tail = dec_n((count - i - 1) as nat, d.rest(), dec).unwrap().0;
                    assert(all == more + tail);
                    lemma_prefix(more, tail);
                }
            }
            return Err(corrupt(repeated));
        }
        m.insert(k, v);
        proof {
            seen = more;
        }
        i = i + 1;
    }
    proof {
        assert(dec_n(0, d.rest(), dec) == Some(
            (Seq::<(E::Key, E::Meaning)>::empty(), d.rest()),
        ));
        assert(seen + Seq::<(E::Key, E::Meaning)>::empty() =~= seen);
    }
    Ok(m)
}

/// A further entry: its key is new exactly if the keys stay distinct.
pub proof fn lemma_more<K, V>(s: Seq<(K, V)>, k: K, v: V)
    requires
        distinct(s),
    ensures
        distinct(s.push((k, v))) == !gather(s).contains_key(k),
        gather(s.push((k, v))) == gather(s).insert(k, v),
{
    reveal(lists);
    lemma_gather(s);
    let t = s.push((k, v));
    assert(t.drop_last() =~= s);
    if gather(s).contains_key(k) {
        let i = choose|i: int| 0 <= i < s.len() && (#[trigger] s[i]).0 == k;
        assert(t[i].0 == t[s.len() as int].0);
    } else {
        assert forall|a: int, b: int| 0 <= a < b < t.len() implies (#[trigger] t[a]).0 != (
        #[trigger] t[b]).0 by {
            assert(t[a] == s[a]);
            assert(gather(s).contains_key(s[a].0));
            if b < s.len() {
                assert(t[b] == s[b]);
            }
        }
    }
}

/// Keys that repeat in the front repeat in the whole.
pub proof fn lemma_prefix<K, V>(s: Seq<(K, V)>, t: Seq<(K, V)>)
    ensures
        distinct(s + t) ==> distinct(s),
{
    if distinct(s + t) {
        assert forall|a: int, b: int| 0 <= a < b < s.len() implies (#[trigger] s[a]).0 != (
        #[trigger] s[b]).0 by {
            assert((s + t)[a] == s[a]);
            assert((s + t)[b] == s[b]);
        }
    }
}

} // verus!
