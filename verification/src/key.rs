//! Ordered keys and the sorted listing of a map.

use std::collections::BTreeMap;
use vstd::prelude::*;
use vstd::std_specs::cmp::OrdSpec;
use vstd::std_specs::iter::IteratorSpec;

verus! {

/// A key type with a strict total order.
pub trait OrderedKey: Sized {
    /// Whether this key comes before another.
    spec fn before(self, other: Self) -> bool;

    /// The order is strict and total.
    proof fn order_laws()
        ensures
            forall|a: Self| !(#[trigger] a.before(a)),
            forall|a: Self, b: Self, c: Self| #[trigger]
                a.before(b) && #[trigger] b.before(c) ==> a.before(c),
            forall|a: Self, b: Self| #[trigger] a.before(b) || a == b || b.before(a),
    ;

    /// Decides whether this key comes before another.
    fn less(&self, other: &Self) -> (r: bool)
        ensures
            r == self.before(*other),
    ;

    /// The same key once more.
    fn same(&self) -> (r: Self)
        ensures
            r == *self,
    ;
}

impl OrderedKey for u8 {
    open spec fn before(self, other: Self) -> bool {
        self < other
    }

    proof fn order_laws() {
    }

    fn less(&self, other: &Self) -> (r: bool) {
        *self < *other
    }

    fn same(&self) -> (r: Self) {
        *self
    }
}

impl OrderedKey for u32 {
    open spec fn before(self, other: Self) -> bool {
        self < other
    }

    proof fn order_laws() {
    }

    fn less(&self, other: &Self) -> (r: bool) {
        *self < *other
    }

    fn same(&self) -> (r: Self) {
        *self
    }
}

impl OrderedKey for u64 {
    open spec fn before(self, other: Self) -> bool {
        self < other
    }

    proof fn order_laws() {
    }

    fn less(&self, other: &Self) -> (r: bool) {
        *self < *other
    }

    fn same(&self) -> (r: Self) {
        *self
    }
}

impl OrderedKey for (u64, u64) {
    open spec fn before(self, other: Self) -> bool {
        self.0 < other.0 || (self.0 == other.0 && self.1 < other.1)
    }

    proof fn order_laws() {
    }

    fn less(&self, other: &Self) -> (r: bool) {
        self.0 < other.0 || (self.0 == other.0 && self.1 < other.1)
    }

    fn same(&self) -> (r: Self) {
        (self.0, self.1)
    }
}

/// Whether entries stand in the order of their keys, no key twice.
#[verifier::opaque]
pub open spec fn increasing<K: OrderedKey, V>(s: Seq<(K, V)>) -> bool {
    forall|i: int, j: int|
        0 <= i < j < s.len() ==> (#[trigger] s[i]).0.before((#[trigger] s[j]).0)
}

/// Whether a sequence lists exactly the entries of a map.
#[verifier::opaque]
pub open spec fn lists<K, V>(s: Seq<(K, V)>, m: Map<K, V>) -> bool {
    &&& forall|i: int|
        0 <= i < s.len() ==> m.contains_key((#[trigger] s[i]).0) && m[s[i].0] == s[i].1
    &&& forall|k: K| #[trigger]
        m.contains_key(k) ==> exists|i: int| 0 <= i < s.len() && (#[trigger] s[i]).0 == k
}

/// The entries of a finite map in the order of their keys.
pub open spec fn listing<K: OrderedKey, V>(m: Map<K, V>) -> Seq<(K, V)> {
    choose|s: Seq<(K, V)>| #[trigger] increasing(s) && lists(s, m)
}

/// A non-empty finite set has a greatest key.
proof fn lemma_greatest<K: OrderedKey>(d: Set<K>) -> (k: K)
    requires
        d.finite(),
        d.len() > 0,
    ensures
        d.contains(k),
        forall|j: K| #[trigger] d.contains(j) ==> j == k || j.before(k),
    decreases d.len(),
{
    K::order_laws();
    let a = d.choose();
    let rest = d.remove(a);
    if rest.len() == 0 {
        assert forall|j: K| #[trigger] d.contains(j) implies j == a by {
            if j != a {
                assert(rest.contains(j));
            }
        }
        a
    } else {
        let b = lemma_greatest(rest);
        let k = if a.before(b) {
            b
        } else {
            a
        };
        assert forall|j: K| #[trigger] d.contains(j) implies j == k || j.before(k) by {
            if j != a {
                assert(rest.contains(j));
            }
        }
        k
    }
}

/// The last entry of a listing has the greatest key, and the others list the map without it.
proof fn lemma_last<K: OrderedKey, V>(s: Seq<(K, V)>, m: Map<K, V>)
    requires
        s.len() > 0,
        increasing(s),
        lists(s, m),
    ensures
        m.contains_key(s.last().0),
        m[s.last().0] == s.last().1,
        forall|k: K| #[trigger] m.contains_key(k) ==> k == s.last().0 || k.before(s.last().0),
        increasing(s.drop_last()),
        lists(s.drop_last(), m.remove(s.last().0)),
{
    reveal(increasing);
    reveal(lists);
    let k = s.last().0;
    let t = s.drop_last();
    let n = m.remove(k);
    assert(m.contains_key(s[s.len() - 1].0));
    assert forall|j: K| #[trigger] m.contains_key(j) implies j == k || j.before(k) by {
        let i = choose|i: int| 0 <= i < s.len() && (#[trigger] s[i]).0 == j;
        assert(i == s.len() - 1 || s[i].0.before(s[s.len() - 1].0));
    }
    assert forall|i: int| 0 <= i < t.len() implies n.contains_key((#[trigger] t[i]).0) && n[t[i].0]
        == t[i].1 by {
        assert(t[i] == s[i]);
        assert(s[i].0.before(s[s.len() - 1].0));
        K::order_laws();
    }
    assert forall|j: K| #[trigger] n.contains_key(j) implies exists|i: int|
        0 <= i < t.len() && (#[trigger] t[i]).0 == j by {
        let i = choose|i: int| 0 <= i < s.len() && (#[trigger] s[i]).0 == j;
        assert(t[i].0 == j);
    }
}

/// A greater key goes to the end of a listing.
pub proof fn lemma_listing_push<K: OrderedKey, V>(s: Seq<(K, V)>, m: Map<K, V>, k: K, v: V)
    requires
        increasing(s),
        lists(s, m),
        forall|j: K| #[trigger] m.contains_key(j) ==> j.before(k),
    ensures
        increasing(s.push((k, v))),
        lists(s.push((k, v)), m.insert(k, v)),
{
    reveal(increasing);
    reveal(lists);
    let t = s.push((k, v));
    let n = m.insert(k, v);
    assert forall|i: int, j: int| 0 <= i < j < t.len() implies (#[trigger] t[i]).0.before(
        (#[trigger] t[j]).0,
    ) by {
        assert(t[i] == s[i]);
        if j < s.len() {
            assert(t[j] == s[j]);
        }
    }
    assert forall|i: int| 0 <= i < t.len() implies n.contains_key((#[trigger] t[i]).0) && n[t[i].0]
        == t[i].1 by {
        if i < s.len() {
            assert(t[i] == s[i]);
            K::order_laws();
        }
    }
    assert forall|j: K| #[trigger] n.contains_key(j) implies exists|i: int|
        0 <= i < t.len() && (#[trigger] t[i]).0 == j by {
        if j == k {
            assert(t[s.len() as int].0 == j);
        } else {
            assert(m.contains_key(j));
            let i = choose|i: int| 0 <= i < s.len() && (#[trigger] s[i]).0 == j;
            assert(t[i].0 == j);
        }
    }
}

proof fn lemma_listing_exists<K: OrderedKey, V>(m: Map<K, V>) -> (s: Seq<(K, V)>)
    requires
        m.dom().finite(),
    ensures
        increasing(s),
        lists(s, m),
    decreases m.dom().len(),
{
    if m.dom().len() == 0 {
        reveal(increasing);
        reveal(lists);
        assert(forall|k: K| !(#[trigger] m.contains_key(k))) by {
            assert(m.dom() =~= Set::empty());
        }
        Seq::empty()
    } else {
        let k = lemma_greatest(m.dom());
        let n = m.remove(k);
        let s = lemma_listing_exists(n);
        assert forall|j: K| #[trigger] n.contains_key(j) implies j.before(k) by {
            assert(m.dom().contains(j));
        }
        lemma_listing_push(s, n, k, m[k]);
        assert(n.insert(k, m[k]) =~= m);
        s.push((k, m[k]))
    }
}

proof fn lemma_listing_unique<K: OrderedKey, V>(s: Seq<(K, V)>, t: Seq<(K, V)>, m: Map<K, V>)
    requires
        increasing(s),
        lists(s, m),
        increasing(t),
        lists(t, m),
    ensures
        s == t,
    decreases s.len(),
{
    if s.len() == 0 || t.len() == 0 {
        reveal(lists);
        if t.len() > 0 {
            assert(m.contains_key(t[0].0));
        }
        if s.len() > 0 {
            assert(m.contains_key(s[0].0));
        }
        assert(s =~= t);
    } else {
        lemma_last(s, m);
        lemma_last(t, m);
        assert(s.last().0 == t.last().0) by {
            assert(m.contains_key(s.last().0) && m.contains_key(t.last().0));
            K::order_laws();
        }
        lemma_listing_unique(s.drop_last(), t.drop_last(), m.remove(s.last().0));
        assert(s =~= s.drop_last().push(s.last()));
        assert(t =~= t.drop_last().push(t.last()));
    }
}

/// The listing of a finite map lists it in order.
pub proof fn lemma_listing<K: OrderedKey, V>(m: Map<K, V>)
    requires
        m.dom().finite(),
    ensures
        increasing(listing(m)),
        lists(listing(m), m),
{
    let s = lemma_listing_exists(m);
    assert(increasing(s) && lists(s, m));
}

/// A map has one listing.
pub proof fn lemma_listing_is<K: OrderedKey, V>(s: Seq<(K, V)>, m: Map<K, V>)
    requires
        increasing(s),
        lists(s, m),
    ensures
        listing(m) == s,
{
    lemma_listing_unique(s, listing(m), m);
}

/// A listing is as long as its map is large.
pub proof fn lemma_listing_len<K: OrderedKey, V>(s: Seq<(K, V)>, m: Map<K, V>)
    requires
        increasing(s),
        lists(s, m),
    ensures
        m.dom().finite(),
        m.dom().len() == s.len(),
    decreases s.len(),
{
    if s.len() == 0 {
        reveal(lists);
        assert(m.dom() =~= Set::empty());
    } else {
        lemma_last(s, m);
        lemma_listing_len(s.drop_last(), m.remove(s.last().0));
        assert(m.dom() =~= m.remove(s.last().0).dom().insert(s.last().0));
    }
}

/// Listing a map whose values are seen through `f` is to see the listed values through it.
pub proof fn lemma_listing_map<K: OrderedKey, V, W>(
    s: Seq<(K, V)>,
    m: Map<K, V>,
    f: spec_fn(V) -> W,
)
    requires
        increasing(s),
        lists(s, m),
    ensures
        increasing(s.map_values(|e: (K, V)| (e.0, f(e.1)))),
        lists(s.map_values(|e: (K, V)| (e.0, f(e.1))), m.map_values(f)),
{
    reveal(increasing);
    reveal(lists);
    let t = s.map_values(|e: (K, V)| (e.0, f(e.1)));
    let n = m.map_values(f);
    assert forall|k: K| #[trigger] n.contains_key(k) implies exists|i: int|
        0 <= i < t.len() && (#[trigger] t[i]).0 == k by {
        assert(m.contains_key(k));
        let i = choose|i: int| 0 <= i < s.len() && (#[trigger] s[i]).0 == k;
        assert(t[i].0 == k);
    }
    assert forall|i: int| 0 <= i < t.len() implies n.contains_key((#[trigger] t[i]).0) && n[t[i].0]
        == t[i].1 by {
        assert(m.contains_key(s[i].0));
    }
}

/// To filter what things are seen as is to see what passes the filter.
pub proof fn lemma_filter_map<A, B>(
    s: Seq<A>,
    p: spec_fn(A) -> bool,
    f: spec_fn(A) -> B,
    q: spec_fn(B) -> bool,
)
    requires
        forall|x: A| #[trigger] p(x) == q(f(x)),
    ensures
        s.filter(p).map_values(f) == s.map_values(f).filter(q),
    decreases s.len(),
{
    reveal(Seq::filter);
    if s.len() > 0 {
        let t = s.drop_last();
        lemma_filter_map(t, p, f, q);
        assert(s.map_values(f).drop_last() =~= t.map_values(f));
        assert(s.map_values(f).last() == f(s.last()));
        assert(p(s.last()) == q(f(s.last())));
        if p(s.last()) {
            assert(t.filter(p).push(s.last()).map_values(f) =~= t.filter(p).map_values(f).push(
                f(s.last()),
            ));
        }
    } else {
        assert(s.filter(p).map_values(f) =~= s.map_values(f).filter(q));
    }
}

/// A filter that takes everything leaves a sequence as it is.
pub proof fn lemma_filter_all<T>(s: Seq<T>, p: spec_fn(T) -> bool)
    requires
        forall|i: int| 0 <= i < s.len() ==> p(#[trigger] s[i]),
    ensures
        s.filter(p) == s,
    decreases s.len(),
{
    reveal(Seq::filter);
    if s.len() > 0 {
        lemma_filter_all(s.drop_last(), p);
        assert(s.drop_last().push(s.last()) =~= s);
    }
}

/// A filter that takes nothing leaves nothing.
pub proof fn lemma_filter_none<T>(s: Seq<T>, p: spec_fn(T) -> bool)
    requires
        forall|i: int| 0 <= i < s.len() ==> !p(#[trigger] s[i]),
    ensures
        s.filter(p) == Seq::<T>::empty(),
    decreases s.len(),
{
    reveal(Seq::filter);
    if s.len() > 0 {
        lemma_filter_none(s.drop_last(), p);
    }
}

/// A filter on a single item.
pub proof fn lemma_filter_one<T>(x: T, p: spec_fn(T) -> bool)
    ensures
        seq![x].filter(p) == (if p(x) {
            seq![x]
        } else {
            Seq::empty()
        }),
{
    if p(x) {
        lemma_filter_all(seq![x], p);
    } else {
        lemma_filter_none(seq![x], p);
    }
}

/// The entries of a map with 32-bit keys, in order.
pub fn entries32<V>(m: &BTreeMap<u32, V>) -> (out: Vec<(u32, &V)>)
    ensures
        increasing(out@.map_values(|e: (u32, &V)| (e.0, *e.1))),
        lists(out@.map_values(|e: (u32, &V)| (e.0, *e.1)), m@),
        out@.len() == m@.dom().len(),
{
    broadcast use vstd::std_specs::btree::group_btree_axioms;
    broadcast use vstd::laws_cmp::group_laws_cmp;

    let iter = m.iter();
    let ghost keys = iter.remaining().map_values(|kv: (&u32, &V)| *kv.0);
    let ghost all = iter.remaining();
    proof {
        assert(vstd::std_specs::btree::key_obeys_cmp_spec::<u32>());
        assert(vstd::std_specs::btree::increasing_seq(keys));
        assert forall|i: int, j: int| 0 <= i < j < all.len() implies *all[i].0 < *all[j].0 by {
            assert(keys[i].cmp_spec(&keys[j]) is Less);
        }
    }
    let mut out: Vec<(u32, &V)> = Vec::new();
    for (k, v) in it: iter
        invariant
            it.seq() == all,
            out@.len() == it.index(),
            forall|i: int|
                0 <= i < out@.len() ==> (#[trigger] out@[i]) == (*all[i].0, all[i].1),
    {
        out.push((*k, v));
    }
    proof {
        reveal(increasing);
        reveal(lists);
        let t = out@.map_values(|e: (u32, &V)| (e.0, *e.1));
        assert forall|k: u32| #[trigger] m@.contains_key(k) implies exists|i: int|
            0 <= i < t.len() && (#[trigger] t[i]).0 == k by {
            assert(all.contains((&k, &m@[k])));
            let i = choose|i: int| 0 <= i < all.len() && all[i] == (&k, &m@[k]);
            assert(t[i].0 == k);
        }
        assert forall|i: int| 0 <= i < t.len() implies m@.contains_key((#[trigger] t[i]).0)
            && m@[t[i].0] == t[i].1 by {
            assert(all.contains(all[i]));
        }
        lemma_listing_len(t, m@);
    }
    out
}

/// The entries of a map with 64-bit keys, in order.
pub fn entries64<V>(m: &BTreeMap<u64, V>) -> (out: Vec<(u64, &V)>)
    ensures
        increasing(out@.map_values(|e: (u64, &V)| (e.0, *e.1))),
        lists(out@.map_values(|e: (u64, &V)| (e.0, *e.1)), m@),
        out@.len() == m@.dom().len(),
{
    broadcast use vstd::std_specs::btree::group_btree_axioms;
    broadcast use vstd::laws_cmp::group_laws_cmp;

    let iter = m.iter();
    let ghost keys = iter.remaining().map_values(|kv: (&u64, &V)| *kv.0);
    let ghost all = iter.remaining();
    proof {
        assert(vstd::std_specs::btree::key_obeys_cmp_spec::<u64>());
        assert(vstd::std_specs::btree::increasing_seq(keys));
        assert forall|i: int, j: int| 0 <= i < j < all.len() implies *all[i].0 < *all[j].0 by {
            assert(keys[i].cmp_spec(&keys[j]) is Less);
        }
    }
    let mut out: Vec<(u64, &V)> = Vec::new();
    for (k, v) in it: iter
        invariant
            it.seq() == all,
            out@.len() == it.index(),
            forall|i: int|
                0 <= i < out@.len() ==> (#[trigger] out@[i]) == (*all[i].0, all[i].1),
    {
        out.push((*k, v));
    }
    proof {
        reveal(increasing);
        reveal(lists);
        let t = out@.map_values(|e: (u64, &V)| (e.0, *e.1));
        assert forall|k: u64| #[trigger] m@.contains_key(k) implies exists|i: int|
            0 <= i < t.len() && (#[trigger] t[i]).0 == k by {
            assert(all.contains((&k, &m@[k])));
            let i = choose|i: int| 0 <= i < all.len() && all[i] == (&k, &m@[k]);
            assert(t[i].0 == k);
        }
        assert forall|i: int| 0 <= i < t.len() implies m@.contains_key((#[trigger] t[i]).0)
            && m@[t[i].0] == t[i].1 by {
            assert(all.contains(all[i]));
        }
        lemma_listing_len(t, m@);
    }
    out
}

} // verus!
