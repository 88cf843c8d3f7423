//! Logical decoded allocation charges, separate from encoded WAL admission.

use crate::codec::dec_bytes;
use crate::codec::dec_count;
use crate::codec::dec_n;
use crate::codec::dec_u32;
use crate::codec::dec_u64;
use crate::codec::dec_u8;
use crate::codec::enc_all;
use crate::codec::lemma_dec_step;
use crate::codec::prepend;
use crate::codec::Decoder;
use crate::error::corrupt;
use crate::error::Result;
use crate::key::entries32;
use crate::key::increasing;
use crate::key::lemma_listing_len;
use crate::key::listing;
use crate::key::lists;
use crate::model::fields_view;
use crate::model::Entity;
use crate::model::Event;
use crate::model::Fields;
use crate::model::Value;
use crate::model::ValueV;
use crate::record::distinct;
use crate::record::enc_fields;
use crate::record::enc_value;
use crate::record::lemma_increasing_distinct;
use crate::record::lemma_prepend_none;
use crate::record::pair_encoder;
use crate::record::value_len;
use crate::resources::MemoryReservation;
use vstd::prelude::*;
use vstd::utf8::encode_utf8;

verus! {

/// A value with the memory that was reserved for it.
pub struct Accounted<T> {
    /// The value.
    pub value: T,
    /// The reservation.
    pub memory: Option<MemoryReservation>,
}

impl<T> Accounted<T> {
    /// The value alone.
    pub fn into_inner(self) -> (value: T)
        ensures
            value == self.value,
    {
        self.value
    }

    /// The bytes reserved.
    pub fn bytes(&self) -> (n: usize)
        ensures
            n == (match self.memory {
                Some(memory) => memory.bytes,
                None => 0,
            }),
    {
        match &self.memory {
            Some(memory) => memory.bytes,
            None => 0,
        }
    }
}

/// A conservative node and slot allowance per field; not an allocator metric.
pub const FIELD_BYTES: usize = 128;

/// The bytes that a value holds beside its slot.
pub open spec fn value_size(v: ValueV) -> nat {
    match v {
        ValueV::Text(s) => encode_utf8(s).len(),
        ValueV::Bytes(b) => b.len(),
        _ => 0,
    }
}

/// Calls `String::capacity`: at least the length of the text in bytes, and never more than the
/// greatest signed number. By how much it exceeds the length is the allocator's affair.
#[verifier::external_body]
fn text_capacity(text: &String) -> (n: usize)
    ensures
        encode_utf8(text@).len() <= n <= isize::MAX,
{
    text.capacity()
}

/// Calls `Vec::capacity`: at least the number of items, and for bytes never more than the
/// greatest signed number. By how much it exceeds the number is the allocator's affair.
#[verifier::external_body]
fn bytes_capacity(bytes: &Vec<u8>) -> (n: usize)
    ensures
        bytes@.len() <= n <= isize::MAX,
{
    bytes.capacity()
}

/// The bytes allocated for a value beside its slot: at least those that it holds.
pub fn value_bytes(value: &Value) -> (n: usize)
    ensures
        value_size(value@) <= n <= value_size(value@) + varies()(value@) * isize::MAX,
{
    match value {
        Value::Text(text) => text_capacity(text),
        Value::Bytes(bytes) => bytes_capacity(bytes),
        _ => 0,
    }
}

/// The sum of what `f` gives for each of some values.
pub open spec fn total(s: Seq<(u32, ValueV)>, f: spec_fn(ValueV) -> nat) -> nat
    decreases s.len(),
{
    if s.len() == 0 {
        0
    } else {
        total(s.drop_last(), f) + f(s.last().1)
    }
}

/// A value's size with its field allowance.
pub open spec fn field_size() -> spec_fn(ValueV) -> nat {
    |v: ValueV| 128 + value_size(v)
}

/// The logical size of assignments.
pub open spec fn fields_size(m: Map<u32, ValueV>) -> nat {
    total(listing(m), field_size())
}

/// One for a value whose size is not fixed, and nothing for another.
pub open spec fn varies() -> spec_fn(ValueV) -> nat {
    |v: ValueV|
        if v is Text || v is Bytes {
            1nat
        } else {
            0nat
        }
}

/// Whether so many bytes can be allocated beyond what assignments hold. None can where every
/// value has a fixed size.
pub open spec fn spare(m: Map<u32, ValueV>, extra: nat) -> bool {
    extra <= total(listing(m), varies()) * isize::MAX
}

/// A number, or the greatest that can be counted.
pub open spec fn saturated(n: nat) -> usize {
    if n <= usize::MAX {
        n as usize
    } else {
        usize::MAX
    }
}

/// Whether a number is what is charged for assignments beside something of fixed size: the
/// logical size with what is allocated beyond it, as far as that can be counted.
pub open spec fn charges(m: Map<u32, ValueV>, fixed: nat, n: usize) -> bool {
    exists|extra: nat| #[trigger] spare(m, extra) && n == saturated(fixed + fields_size(m) + extra)
}

/// The sum, or the greatest number where it does not fit.
pub fn plus(a: usize, b: usize) -> (n: usize)
    ensures
        n == (if a + b <= usize::MAX {
            (a + b) as usize
        } else {
            usize::MAX
        }),
{
    match a.checked_add(b) {
        Some(n) => n,
        None => usize::MAX,
    }
}

/// The pairs that a vector of entries stands for.
spec fn pairs_of(entries: Seq<(u32, &Value)>) -> Seq<(u32, ValueV)> {
    entries.map_values(|e: (u32, &Value)| (e.0, e.1@))
}

/// Entries of a map, seen through their values, list the map seen through its values.
proof fn lemma_pairs(entries: Seq<(u32, &Value)>, m: Map<u32, Value>)
    requires
        increasing(entries.map_values(|e: (u32, &Value)| (e.0, *e.1))),
        lists(entries.map_values(|e: (u32, &Value)| (e.0, *e.1)), m),
    ensures
        pairs_of(entries) == listing(fields_view(m)),
        increasing(pairs_of(entries)),
        lists(pairs_of(entries), fields_view(m)),
{
    let s = entries.map_values(|e: (u32, &Value)| (e.0, *e.1));
    let f = |v: Value| v@;
    crate::key::lemma_listing_map(s, m, f);
    let t = s.map_values(|e: (u32, Value)| (e.0, f(e.1)));
    assert(t =~= pairs_of(entries));
    assert(m.map_values(f) =~= fields_view(m));
    crate::key::lemma_listing_is(t, fields_view(m));
}

proof fn lemma_spare_more(count: nat, one: nat, extra: nat, size: usize, held: nat)
    requires
        extra <= count * isize::MAX,
        held <= size <= held + one * isize::MAX,
    ensures
        extra + (size - held) <= (count + one) * isize::MAX,
{
    assert((count + one) * isize::MAX == count * isize::MAX + one * isize::MAX)
        by (nonlinear_arith);
}

/// The bytes charged for assignments: their logical size with what is allocated beyond it.
pub fn fields_bytes(fields: &Fields) -> (n: usize)
    ensures
        charges(fields_view(fields@), 0, n),
{
    let entries = entries32(fields);
    let count: usize = entries.len();
    let ghost pairs = pairs_of(entries@);
    proof {
        lemma_pairs(entries@, fields@);
        assert(pairs.take(0) =~= Seq::empty());
    }
    let mut n: usize = 0;
    let mut i: usize = 0;
    let ghost mut extra: nat = 0;
    while i < count
        invariant
            i <= count == entries@.len(),
            pairs == pairs_of(entries@),
            extra <= total(pairs.take(i as int), varies()) * isize::MAX,
            n == saturated(total(pairs.take(i as int), field_size()) + extra),
        decreases count - i,
    {
        let size: usize = value_bytes(entries[i].1);
        proof {
            let before = pairs.take(i as int);
            assert(pairs.take(i + 1).drop_last() =~= before);
            assert(pairs.take(i + 1).last() == pairs[i as int]);
            let v = entries@[i as int].1@;
            lemma_spare_more(total(before, varies()), varies()(v), extra, size, value_size(v));
            extra = (extra + size - value_size(v)) as nat;
        }
        n = plus(n, plus(FIELD_BYTES, size));
        i = i + 1;
    }
    proof {
        assert(pairs.take(count as int) =~= pairs);
        assert(spare(fields_view(fields@), extra));
    }
    n
}

/// The bytes charged for an entity.
pub fn entity_bytes(entity: &Entity) -> (n: usize)
    ensures
        charges(entity@.fields, vstd::layout::size_of::<Entity>(), n),
{
    plus(std::mem::size_of::<Entity>(), fields_bytes(&entity.fields))
}

/// The bytes charged for an event.
pub fn event_bytes(event: &Event) -> (n: usize)
    ensures
        charges(event@.fields, vstd::layout::size_of::<Accounted<Event>>(), n),
{
    plus(std::mem::size_of::<Accounted<Event>>(), fields_bytes(&event.fields))
}

// ---- Sums in any order ----

pub(crate) proof fn lemma_total_remove(s: Seq<(u32, ValueV)>, f: spec_fn(ValueV) -> nat, at: int)
    requires
        0 <= at < s.len(),
    ensures
        total(s, f) == total(s.remove(at), f) + f(s[at].1),
    decreases s.len(),
{
    if at == s.len() - 1 {
        assert(s.remove(at) =~= s.drop_last());
    } else {
        lemma_total_remove(s.drop_last(), f, at);
        assert(s.remove(at).drop_last() =~= s.drop_last().remove(at));
        assert(s.remove(at).last() == s.last());
    }
}

pub(crate) proof fn lemma_lists_remove(s: Seq<(u32, ValueV)>, m: Map<u32, ValueV>, at: int)
    requires
        distinct(s),
        lists(s, m),
        0 <= at < s.len(),
    ensures
        distinct(s.remove(at)),
        lists(s.remove(at), m.remove(s[at].0)),
{
    reveal(lists);
    let t = s.remove(at);
    let n = m.remove(s[at].0);
    assert forall|i: int, j: int| 0 <= i < j < t.len() implies (#[trigger] t[i]).0 != (
    #[trigger] t[j]).0 by {
        let a = if i < at {
            i
        } else {
            i + 1
        };
        let b = if j < at {
            j
        } else {
            j + 1
        };
        assert(t[i] == s[a] && t[j] == s[b]);
    }
    assert forall|i: int| 0 <= i < t.len() implies n.contains_key((#[trigger] t[i]).0) && n[t[i].0]
        == t[i].1 by {
        let a = if i < at {
            i
        } else {
            i + 1
        };
        assert(t[i] == s[a]);
        if a < at {
            assert(s[a].0 != s[at].0);
        } else {
            assert(s[at].0 != s[a].0);
        }
    }
    assert forall|k: u32| #[trigger] n.contains_key(k) implies exists|i: int|
        0 <= i < t.len() && (#[trigger] t[i]).0 == k by {
        let a = choose|a: int| 0 <= a < s.len() && (#[trigger] s[a]).0 == k;
        if a < at {
            assert(t[a].0 == k);
        } else {
            assert(t[a - 1].0 == k);
        }
    }
}

/// The sum over the entries of a map does not depend on their order.
pub(crate) proof fn lemma_total_order(
    s: Seq<(u32, ValueV)>,
    t: Seq<(u32, ValueV)>,
    m: Map<u32, ValueV>,
    f: spec_fn(ValueV) -> nat,
)
    requires
        distinct(s),
        lists(s, m),
        distinct(t),
        lists(t, m),
    ensures
        total(s, f) == total(t, f),
    decreases s.len(),
{
    if s.len() == 0 {
        if t.len() > 0 {
            reveal(lists);
            assert(m.contains_key(t[0].0));
        }
    } else {
        let at = s.len() - 1;
        let k = s[at].0;
        let j = choose|j: int| 0 <= j < t.len() && (#[trigger] t[j]).0 == k;
        assert(0 <= j < t.len() && t[j].0 == k && t[j].1 == s[at].1) by {
            reveal(lists);
            assert(m.contains_key(k));
        }
        lemma_lists_remove(s, m, at);
        lemma_lists_remove(t, m, j);
        lemma_total_remove(s, f, at);
        lemma_total_remove(t, f, j);
        lemma_total_order(s.remove(at), t.remove(j), m.remove(k), f);
    }
}

/// The length of an encoded assignment.
spec fn pair_length() -> spec_fn(ValueV) -> nat {
    |v: ValueV| 4 + enc_value(v).len()
}

proof fn lemma_encoded_total(s: Seq<(u32, ValueV)>)
    ensures
        enc_all(s, pair_encoder()).len() == total(s, pair_length()),
    decreases s.len(),
{
    if s.len() > 0 {
        lemma_encoded_total(s.drop_last());
        crate::bytes::lemma_le_len(s.last().0 as nat, 4);
    }
}

/// Assignments with those of `changes` in place of or beside them.
fn merged<'a>(current: &'a Fields, changes: &'a Fields) -> (out: Vec<(u32, &'a Value)>)
    ensures
        distinct(pairs_of(out@)),
        lists(
            pairs_of(out@),
            fields_view(current@).union_prefer_right(fields_view(changes@)),
        ),
{
    let a = entries32(current);
    let b = entries32(changes);
    let ghost (x, y) = (pairs_of(a@), pairs_of(b@));
    let ghost (p, q) = (fields_view(current@), fields_view(changes@));
    proof {
        lemma_pairs(a@, current@);
        lemma_pairs(b@, changes@);
        lemma_increasing_distinct(x);
        lemma_increasing_distinct(y);
    }
    let mut out: Vec<(u32, &'a Value)> = Vec::new();
    let first: usize = a.len();
    let mut i: usize = 0;
    while i < first
        invariant
            i <= first == a@.len() == out@.len() + first - i,
            x == pairs_of(a@),
            q == fields_view(changes@),
            forall|j: int|
                0 <= j < i ==> (#[trigger] out@[j]).0 == a@[j].0 && out@[j].1@ == (
                if q.contains_key(a@[j].0) {
                    q[a@[j].0]
                } else {
                    a@[j].1@
                }),
        decreases first - i,
    {
        let (id, value) = a[i];
        let chosen = match changes.get(&id) {
            Some(change) => change,
            None => value,
        };
        out.push((id, chosen));
        i = i + 1;
    }
    let second: usize = b.len();
    let ghost mut kept: Seq<int> = Seq::empty();
    let mut i: usize = 0;
    while i < second
        invariant
            i <= second == b@.len(),
            first == a@.len(),
            first <= out@.len(),
            x == pairs_of(a@),
            y == pairs_of(b@),
            p == fields_view(current@),
            q == fields_view(changes@),
            kept.len() == out@.len() - first,
            forall|j: int|
                0 <= j < first ==> (#[trigger] out@[j]).0 == a@[j].0 && out@[j].1@ == (
                if q.contains_key(a@[j].0) {
                    q[a@[j].0]
                } else {
                    a@[j].1@
                }),
            forall|n: int|
                0 <= n < kept.len() ==> 0 <= (#[trigger] kept[n]) < i && out@[first + n]
                    == b@[kept[n]] && !p.contains_key(b@[kept[n]].0),
            forall|j: int, k: int|
                0 <= j < k < kept.len() ==> (#[trigger] kept[j]) < (#[trigger] kept[k]),
            forall|j: int|
                0 <= j < i && !p.contains_key((#[trigger] b@[j]).0) ==> kept.contains(j),
        decreases second - i,
    {
        let (id, value) = b[i];
        assert(current@.contains_key(id) == p.contains_key(id));
        let ghost before = kept;
        if !current.contains_key(&id) {
            out.push((id, value));
            proof {
                kept = kept.push(i as int);
                assert(kept[before.len() as int] == i);
                assert forall|j: int|
                    0 <= j < i + 1 && !p.contains_key((#[trigger] b@[j]).0) implies kept.contains(
                    j,
                ) by {
                    if j < i {
                        assert(before.contains(j));
                        let k = choose|k: int| 0 <= k < before.len() && before[k] == j;
                        assert(kept[k] == j);
                    }
                }
            }
        }
        i = i + 1;
    }
    proof {
        let s = pairs_of(out@);
        let m = p.union_prefer_right(q);
        reveal(lists);
        assert forall|j: int| 0 <= j < s.len() implies m.contains_key((#[trigger] s[j]).0)
            && m[s[j].0] == s[j].1 by {
            if j < first {
                assert(s[j].0 == x[j].0);
                assert(p.contains_key(x[j].0) && p[x[j].0] == x[j].1);
            } else {
                let k = kept[j - first];
                assert(s[j] == y[k]);
                assert(q.contains_key(y[k].0));
            }
        }
        assert forall|k: u32| #[trigger] m.contains_key(k) implies exists|j: int|
            0 <= j < s.len() && (#[trigger] s[j]).0 == k by {
            if p.contains_key(k) {
                let j = choose|j: int| 0 <= j < x.len() && (#[trigger] x[j]).0 == k;
                assert(s[j].0 == k);
            } else {
                let j = choose|j: int| 0 <= j < y.len() && (#[trigger] y[j]).0 == k;
                assert(b@[j].0 == k);
                assert(kept.contains(j));
                let n = choose|n: int| 0 <= n < kept.len() && kept[n] == j;
                assert(out@[first + n] == b@[kept[n]]);
                assert(s[first + n].0 == k);
            }
        }
        assert forall|i: int, j: int| 0 <= i < j < s.len() implies (#[trigger] s[i]).0 != (
        #[trigger] s[j]).0 by {
            if j < first {
                assert(s[i].0 == x[i].0 && s[j].0 == x[j].0);
            } else {
                let b1 = kept[j - first];
                assert(out@[j] == b@[b1]);
                if i < first {
                    assert(p.contains_key(x[i].0));
                } else {
                    let a1 = kept[i - first];
                    assert(out@[i] == b@[a1]);
                    assert(a1 < b1);
                    assert(y[a1].0 != y[b1].0);
                }
            }
        }
    }
    out
}

/// The decoded charge and the encoded length of an entity with changed assignments, each the
/// greatest number where it cannot be counted.
pub fn merged_sizes(current: &Fields, changes: &Fields) -> (r: (usize, usize))
    ensures
        ({
            let m = fields_view(current@).union_prefer_right(fields_view(changes@));
            &&& charges(m, vstd::layout::size_of::<Entity>(), r.0)
            &&& r.1 == (if 25 + enc_fields(m).len() <= usize::MAX {
                (25 + enc_fields(m).len()) as usize
            } else {
                usize::MAX
            })
        }),
{
    let entries = merged(current, changes);
    let count: usize = entries.len();
    let ghost pairs = pairs_of(entries@);
    let ghost m = fields_view(current@).union_prefer_right(fields_view(changes@));
    let ghost f = field_size();
    let ghost g = pair_length();
    proof {
        assert(pairs.take(0) =~= Seq::empty());
        lemma_finite(pairs, m);
        crate::key::lemma_listing(m);
        lemma_increasing_distinct(listing(m));
        lemma_total_order(pairs, listing(m), m, f);
        lemma_total_order(pairs, listing(m), m, g);
        lemma_total_order(pairs, listing(m), m, varies());
        lemma_encoded_total(listing(m));
        lemma_listing_len(listing(m), m);
        crate::bytes::lemma_le_len(m.dom().len(), 8);
    }
    let mut decoded: usize = std::mem::size_of::<Entity>();
    let mut encoded: usize = 33;
    let mut i: usize = 0;
    let ghost mut extra: nat = 0;
    while i < count
        invariant
            i <= count == entries@.len(),
            pairs == pairs_of(entries@),
            f == field_size(),
            g == pair_length(),
            extra <= total(pairs.take(i as int), varies()) * isize::MAX,
            decoded == saturated(
                vstd::layout::size_of::<Entity>() + total(pairs.take(i as int), f) + extra,
            ),
            encoded == (if 33 + total(pairs.take(i as int), g) <= usize::MAX {
                33 + total(pairs.take(i as int), g)
            } else {
                usize::MAX as nat
            }),
        decreases count - i,
    {
        let value = entries[i].1;
        proof {
            assert(pairs.take(i + 1).drop_last() =~= pairs.take(i as int));
            assert(pairs.take(i + 1).last() == pairs[i as int]);
        }
        let size: usize = value_bytes(value);
        proof {
            let v = value@;
            let before = pairs.take(i as int);
            lemma_spare_more(total(before, varies()), varies()(v), extra, size, value_size(v));
            extra = (extra + size - value_size(v)) as nat;
        }
        decoded = plus(decoded, plus(FIELD_BYTES, size));
        let length: usize = match value_len(value) {
            Some(length) => length,
            None => usize::MAX,
        };
        encoded = plus(encoded, plus(4, length));
        i = i + 1;
    }
    proof {
        assert(pairs.take(count as int) =~= pairs);
        assert(spare(m, extra));
    }
    (decoded, encoded)
}

/// A map with a listing in some order is finite.
proof fn lemma_finite(s: Seq<(u32, ValueV)>, m: Map<u32, ValueV>)
    requires
        distinct(s),
        lists(s, m),
    ensures
        m.dom().finite(),
{
    crate::record::lemma_gather(s);
    crate::record::lemma_gather_lists(s, m);
}

// ---- Sizes of encoded records ----

/// The variable bytes of an encoded assignment, and what follows it.
pub open spec fn skim_pair(s: Seq<u8>) -> Option<(nat, Seq<u8>)> {
    match dec_u32(s) {
        None => None,
        Some((id, s)) => match dec_u8(s) {
            None => None,
            Some((tag, s)) => if tag == 0 {
                Some((0, s))
            } else if tag == 1 {
                match dec_u8(s) {
                    Some((b, s)) => Some((0, s)),
                    None => None,
                }
            } else if tag == 2 || tag == 3 || tag == 4 {
                match dec_u64(s) {
                    Some((u, s)) => Some((0, s)),
                    None => None,
                }
            } else if tag == 5 || tag == 6 {
                match dec_bytes(s) {
                    Some((b, s)) => Some((b.len(), s)),
                    None => None,
                }
            } else {
                None
            },
        },
    }
}

/// The skimming of assignments.
pub open spec fn pair_skimmer() -> spec_fn(Seq<u8>) -> Option<(nat, Seq<u8>)> {
    |s: Seq<u8>| skim_pair(s)
}

/// The sum of some numbers.
pub open spec fn sum(s: Seq<nat>) -> nat
    decreases s.len(),
{
    if s.len() == 0 {
        0
    } else {
        sum(s.drop_last()) + s.last()
    }
}

/// The logical size of the entity or event that a record holds.
pub open spec fn record_size(s: Seq<u8>, overhead: nat) -> Option<nat> {
    match dec_u64(s) {
        None => None,
        Some((a, s)) => match dec_u64(s) {
            None => None,
            Some((b, s)) => match dec_u64(s) {
                None => None,
                Some((c, s)) => match dec_u8(s) {
                    None => None,
                    Some((d, s)) => match dec_count(s, 5) {
                        None => None,
                        Some((n, s)) => match dec_n(n, s, pair_skimmer()) {
                            None => None,
                            Some((sizes, s)) => if s.len() == 0 {
                                Some(overhead + 128 * n + sum(sizes))
                            } else {
                                None
                            },
                        },
                    },
                },
            },
        },
    }
}

fn skim(d: &mut Decoder<'_>) -> (r: Result<usize>)
    ensures
        match r {
            Ok(n) => skim_pair(old(d).rest()) == Some((n as nat, final(d).rest())),
            Err(e) => skim_pair(old(d).rest()) is None && e is Corrupt,
        },
{
    d.u32()?;
    match d.u8()? {
        0 => Ok(0),
        1 => {
            d.u8()?;
            Ok(0)
        },
        2 | 3 | 4 => {
            d.u64()?;
            Ok(0)
        },
        5 | 6 => Ok(d.bytes()?.len()),
        _ => Err(corrupt("unknown value tag")),
    }
}

proof fn lemma_sum_concat(a: Seq<nat>, b: Seq<nat>)
    ensures
        sum(a + b) == sum(a) + sum(b),
    decreases b.len(),
{
    if b.len() == 0 {
        assert(a + b =~= a);
    } else {
        lemma_sum_concat(a, b.drop_last());
        assert((a + b).drop_last() =~= a + b.drop_last());
    }
}

/// Reads lengths and field tags before allocating decoded values.
pub fn record_bytes(bytes: &[u8], overhead: usize) -> (r: Result<usize>)
    ensures
        match r {
            Ok(n) => record_size(bytes@, overhead as nat) == Some(n as nat),
            Err(e) => e is Corrupt && match record_size(bytes@, overhead as nat) {
                Some(n) => n > usize::MAX,
                None => true,
            },
        },
{
    let mut d = Decoder::new(bytes);
    d.u64()?;
    d.u64()?;
    d.u64()?;
    d.u8()?;
    let count: usize = d.count(5)?;
    let ghost dec = pair_skimmer();
    let ghost start = d.rest();
    let ghost mut seen: Seq<nat> = Seq::empty();
    proof {
        lemma_prepend_none(dec_n(count as nat, start, dec));
    }
    if count > usize::MAX / FIELD_BYTES {
        return Err(corrupt("decoded size overflow"));
    }
    let mut size: usize = match overhead.checked_add(count * FIELD_BYTES) {
        Some(size) => size,
        None => {
            return Err(corrupt("decoded size overflow"));
        },
    };
    let mut i: usize = 0;
    while i < count
        invariant
            i <= count,
            dec == pair_skimmer(),
            record_size(bytes@, overhead as nat) == (match dec_n(count as nat, start, dec) {
                None => None,
                Some((sizes, s)) => if s.len() == 0 {
                    Some(overhead as nat + 128 * count as nat + sum(sizes))
                } else {
                    None
                },
            }),
            dec_n(count as nat, start, dec) == prepend(
                seen,
                dec_n((count - i) as nat, d.rest(), dec),
            ),
            size == overhead + 128 * count + sum(seen),
        decreases count - i,
    {
        proof {
            lemma_dec_step(seen, (count - i) as nat, d.rest(), dec);
        }
        let variable: usize = skim(&mut d)?;
        proof {
            let more = seen.push(variable as nat);
            assert(more.drop_last() =~= seen);
            if let Some((sizes, end)) = dec_n(count as nat, start, dec) {
                let tail = dec_n((count - i - 1) as nat, d.rest(), dec).unwrap().0;
                lemma_sum_concat(more, tail);
            }
            seen = more;
        }
        size = match size.checked_add(variable) {
            Some(size) => size,
            None => {
                return Err(corrupt("decoded size overflow"));
            },
        };
        i = i + 1;
    }
    proof {
        assert(seen + Seq::<nat>::empty() =~= seen);
    }
    d.finish()?;
    Ok(size)
}

} // verus!
