//! Building index files.

use crate::bytes::le;
use crate::bytes::lemma_le_len;
use crate::bytes::lemma_pow256;
use crate::bytes::lemma_un_le_le;
use crate::bytes::put_bytes;
use crate::bytes::put_le;
use crate::bytes::set_bytes;
use crate::bytes::set_le;
use crate::codec::enc_all;
use crate::codec::lemma_enc_push;
use crate::error::corrupt;
use crate::error::Result;
use crate::key::increasing;
use crate::key::lemma_filter_none;
use crate::key::lemma_filter_one;
use crate::key::OrderedKey;
use crate::storage::heap::page_bytes;
use crate::storage::index::child_of;
use crate::storage::index::compute_crc;
use crate::storage::index::count_of;
use crate::storage::index::divides;
use crate::storage::index::dword;
use crate::storage::index::entries_of;
use crate::storage::index::floor_entry_of;
use crate::storage::index::floor_index_of;
use crate::storage::index::floor_of;
use crate::storage::index::key_of;
use crate::storage::index::kind_of;
use crate::storage::index::lemma_lower_bound;
use crate::storage::index::lemma_node_order;
use crate::storage::index::lookup_of;
use crate::storage::index::lower_bound_of;
use crate::storage::index::next_of;
use crate::storage::index::node_of;
use crate::storage::index::scan_of;
use crate::storage::index::sequence_of;
use crate::storage::index::stream;
use crate::storage::index::upto;
use crate::storage::index::valid_entry;
use crate::storage::index::valid_header;
use crate::storage::index::valid_node;
use crate::storage::index::value_of;
use crate::storage::index::walk;
use crate::storage::index::word_of;
use crate::storage::index::Entry;
use crate::storage::index::Key;
use crate::storage::index::Stream;
use crate::storage::index::Value;
use crate::storage::index::BRANCH_CAPACITY;
use crate::storage::index::LEAF_CAPACITY;
use crate::storage::page::word;
use vstd::prelude::*;

verus! {

// ---- Pages ----

spec fn word_encoder() -> spec_fn(u64) -> Seq<u8> {
    |w: u64| le(w as nat, 8)
}

/// Words one after the other.
proof fn lemma_words(w: Seq<u64>)
    ensures
        enc_all(w, word_encoder()).len() == 8 * w.len(),
        forall|k: int|
            0 <= k < w.len() ==> #[trigger] enc_all(w, word_encoder()).subrange(8 * k, 8 * k + 8)
                == le(w[k] as nat, 8),
    decreases w.len(),
{
    let enc = word_encoder();
    if w.len() > 0 {
        let t = w.drop_last();
        lemma_words(t);
        lemma_le_len(w.last() as nat, 8);
        let s = enc_all(w, enc);
        assert forall|k: int| 0 <= k < w.len() implies #[trigger] s.subrange(8 * k, 8 * k + 8) == le(
            w[k] as nat,
            8,
        ) by {
            if k < t.len() {
                assert(s.subrange(8 * k, 8 * k + 8) =~= enc_all(t, enc).subrange(8 * k, 8 * k + 8));
                assert(t[k] == w[k]);
            } else {
                assert(s.subrange(8 * k, 8 * k + 8) =~= le(w.last() as nat, 8));
            }
        }
    }
}

/// The header of an index page but for its checksum.
spec fn head_of(kind: u16, id: u64, lsn: u64, count: u16, next: u64) -> Seq<u8> {
    seq![69u8, 86u8, 73u8, 88u8, 1u8, 0u8] + le(kind as nat, 2) + le(id as nat, 8) + le(
        lsn as nat,
        8,
    ) + le(count as nat, 2) + seq![0u8, 0u8, 0u8, 0u8, 0u8, 0u8] + le(next as nat, 8)
}

proof fn lemma_two(b: Seq<u8>, at: int, x: u16)
    requires
        0 <= at,
        at + 2 <= b.len(),
        b.subrange(at, at + 2) == le(x as nat, 2),
    ensures
        word(b, at) == x,
{
    lemma_le_len(x as nat, 2);
    reveal_with_fuel(le, 3);
    let t = le(x as nat, 2);
    assert(t[0] == (x as nat % 256) as u8);
    assert(t[1] == ((x as nat / 256) % 256) as u8);
    assert(b.subrange(at, at + 2)[0] == b[at] && b.subrange(at, at + 2)[1] == b[at + 1]);
}

proof fn lemma_eight(b: Seq<u8>, at: int, x: u64)
    requires
        b.subrange(at, at + 8) == le(x as nat, 8),
    ensures
        dword(b, at) == x,
{
    lemma_pow256();
    lemma_un_le_le(x as nat, 8);
}

/// An index page with a header and words behind it.
fn index_page(kind: u16, id: u64, lsn: u64, count: u16, next: u64, words: &Vec<u64>) -> (b: Vec<u8>)
    requires
        words@.len() <= 1019,
    ensures
        valid_header(b@, id as nat),
        kind_of(b@) == kind,
        count_of(b@) == count,
        sequence_of(b@) == lsn,
        next_of(b@) == next,
        forall|k: int| 0 <= k < words@.len() ==> #[trigger] word_of(b@, k) == words@[k],
{
    broadcast use lemma_le_len;

    let mut b: Vec<u8> = Vec::new();
    let front: [u8; 6] = [69, 86, 73, 88, 1, 0];
    let zero: [u8; 6] = [0, 0, 0, 0, 0, 0];
    put_bytes(&mut b, &front);
    put_le(&mut b, kind as u64, 2);
    put_le(&mut b, id, 8);
    put_le(&mut b, lsn, 8);
    put_le(&mut b, count as u64, 2);
    put_bytes(&mut b, &zero);
    put_le(&mut b, next, 8);
    let ghost h = head_of(kind, id, lsn, count, next);
    let ghost enc = word_encoder();
    proof {
        assert(b@ =~= h);
        assert(h.len() == 40);
        assert(words@.take(0) =~= Seq::empty());
        assert(b@ =~= h + enc_all(words@.take(0), enc));
    }
    let total: usize = words.len();
    let mut k: usize = 0;
    while k < total
        invariant
            k <= total == words@.len(),
            enc == word_encoder(),
            b@ == h + enc_all(words@.take(k as int), enc),
        decreases total - k,
    {
        put_le(&mut b, words[k], 8);
        proof {
            assert(words@.take(k + 1) =~= words@.take(k as int).push(words@[k as int]));
            lemma_enc_push(words@.take(k as int), words@[k as int], enc);
            assert(b@ =~= h + enc_all(words@.take(k + 1), enc));
        }
        k = k + 1;
    }
    proof {
        assert(words@.take(total as int) =~= words@);
        lemma_words(words@);
    }
    let ghost w = enc_all(words@, enc);
    b.resize(8192, 0);
    let ghost x = b@;
    proof {
        assert(x.take(40 + w.len() as int) =~= h + w);
        assert forall|i: int| 0 <= i < 40 + w.len() implies x[i] == (h + w)[i] by {
            assert(x.take(40 + w.len() as int)[i] == (h + w)[i]);
        }
    }
    let sum: u32 = compute_crc(b.as_slice());
    set_le(&mut b, 28, sum as u64, 4);
    proof {
        let y = b@;
        lemma_pow256();
        lemma_un_le_le(sum as nat, 4);
        assert(y.subrange(0, 28) =~= x.subrange(0, 28));
        assert(y.subrange(32, 8192) =~= x.subrange(32, 8192));
        assert(y.subrange(28, 32) =~= le(sum as nat, 4));
        assert forall|i: int| 0 <= i < 40 implies x[i] == h[i] by {
            assert(x[i] == (h + w)[i]);
        }
        assert(y.subrange(0, 4) =~= seq![69u8, 86u8, 73u8, 88u8]);
        assert(y.subrange(4, 6) =~= seq![1u8, 0u8]);
        assert(y.subrange(6, 8) =~= le(kind as nat, 2));
        assert(y.subrange(8, 16) =~= le(id as nat, 8));
        assert(y.subrange(16, 24) =~= le(lsn as nat, 8));
        assert(y.subrange(24, 26) =~= le(count as nat, 2));
        assert(y.subrange(26, 28) =~= seq![0u8, 0u8]);
        assert(y.subrange(32, 40) =~= le(next as nat, 8));
        lemma_two(y, 6, kind);
        lemma_two(y, 24, count);
        lemma_eight(y, 8, id);
        lemma_eight(y, 16, lsn);
        lemma_eight(y, 32, next);
        assert forall|k: int| 0 <= k < words@.len() implies #[trigger] word_of(y, k)
            == words@[k] by {
            assert(w.subrange(8 * k, 8 * k + 8) == le(words@[k] as nat, 8));
            assert forall|i: int| 40 <= i < 40 + w.len() implies #[trigger] y[i] == w[i - 40] by {
                assert(x[i] == (h + w)[i]);
            }
            assert(y.subrange(40 + 8 * k, 40 + 8 * k + 8) =~= w.subrange(8 * k, 8 * k + 8));
            lemma_eight(y, 40 + 8 * k, words@[k]);
        }
    }
    b
}

/// A leaf with entries in order.
fn leaf_page(id: u64, lsn: u64, es: &Vec<Entry>, next: u64) -> (b: Vec<u8>)
    requires
        1 <= es@.len() <= 254,
        increasing(es@),
        next == 0 || next > id,
    ensures
        valid_node(b@, id as nat),
        kind_of(b@) == 1,
        entries_of(b@) == es@,
        next_of(b@) == next,
        sequence_of(b@) == lsn,
{
    let mut words: Vec<u64> = Vec::new();
    let count: usize = es.len();
    let mut i: usize = 0;
    while i < count
        invariant
            i <= count == es@.len(),
            count <= 254,
            words@.len() == 4 * i,
            forall|j: int|
                0 <= j < i ==> (#[trigger] es@[j]) == (
                    (words@[4 * j], words@[4 * j + 1]),
                    (words@[4 * j + 2], words@[4 * j + 3]),
                ),
        decreases count - i,
    {
        let (key, value) = es[i];
        words.push(key.0);
        words.push(key.1);
        words.push(value.0);
        words.push(value.1);
        i = i + 1;
    }
    let b = index_page(1, id, lsn, count as u16, next, &words);
    proof {
        assert forall|j: int| 0 <= j < count implies (#[trigger] key_of(b@, j), value_of(b@, j))
            == es@[j] by {
            assert(word_of(b@, 4 * j) == words@[4 * j]);
            assert(word_of(b@, 4 * j + 1) == words@[4 * j + 1]);
            assert(word_of(b@, 4 * j + 2) == words@[4 * j + 2]);
            assert(word_of(b@, 4 * j + 3) == words@[4 * j + 3]);
        }
        assert(entries_of(b@) =~= es@);
        assert forall|j: int| 0 <= j < count_of(b@) implies #[trigger] valid_entry(
            b@,
            id as nat,
            j,
        ) by {
            if j > 0 {
                reveal(increasing);
                assert(es@[j - 1].0.before(es@[j].0));
                assert((key_of(b@, j - 1), value_of(b@, j - 1)) == es@[j - 1]);
                assert((key_of(b@, j), value_of(b@, j)) == es@[j]);
            }
        }
    }
    b
}

/// A branch over some pages of the level below it.
fn branch_page(id: u64, lsn: u64, level: &Vec<(Key, u64)>, from: usize, to: usize) -> (b: Vec<u8>)
    requires
        from < to <= level@.len(),
        to - from <= 339,
        increasing(level@),
        forall|i: int| from <= i < to ==> 0 < (#[trigger] level@[i]).1 < id,
    ensures
        valid_node(b@, id as nat),
        kind_of(b@) == 2,
        count_of(b@) == to - from,
        sequence_of(b@) == lsn,
        forall|i: int|
            0 <= i < to - from ==> (#[trigger] key_of(b@, i)) == level@[from + i].0 && child_of(
                b@,
                i,
            ) == level@[from + i].1,
{
    let mut words: Vec<u64> = Vec::new();
    let count: usize = to - from;
    let mut i: usize = 0;
    while i < count
        invariant
            i <= count == to - from,
            from < to <= level@.len(),
            count <= 339,
            words@.len() == 3 * i,
            forall|j: int|
                from <= j < from + i ==> (#[trigger] level@[j]) == (
                    (words@[3 * (j - from)], words@[3 * (j - from) + 1]),
                    words@[3 * (j - from) + 2],
                ),
        decreases count - i,
    {
        let (key, child) = level[from + i];
        words.push(key.0);
        words.push(key.1);
        words.push(child);
        i = i + 1;
    }
    let b = index_page(2, id, lsn, count as u16, 0, &words);
    proof {
        assert forall|j: int| 0 <= j < count implies (#[trigger] key_of(b@, j)) == level@[from
            + j].0 && child_of(b@, j) == level@[from + j].1 by {
            let e = level@[from + j];
            assert(word_of(b@, 3 * j) == words@[3 * j]);
            assert(word_of(b@, 3 * j + 1) == words@[3 * j + 1]);
            assert(word_of(b@, 3 * j + 2) == words@[3 * j + 2]);
        }
        assert forall|j: int| 0 <= j < count_of(b@) implies #[trigger] valid_entry(
            b@,
            id as nat,
            j,
        ) by {
            let e = level@[from + j];
            assert(key_of(b@, j) == e.0);
            if j > 0 {
                reveal(increasing);
                assert(level@[from + j - 1].0.before(level@[from + j].0));
                assert(key_of(b@, j - 1) == level@[from + (j - 1)].0);
            }
        }
    }
    b
}

// ---- Trees ----

/// Parts joined.
spec fn joined(parts: Seq<Seq<Entry>>) -> Seq<Entry>
    decreases parts.len(),
{
    if parts.len() == 0 {
        Seq::empty()
    } else {
        joined(parts.drop_last()) + parts.last()
    }
}

/// Where a part begins among the joined ones.
spec fn offset(parts: Seq<Seq<Entry>>, i: int) -> int {
    joined(parts.take(i)).len() as int
}

proof fn lemma_joined_concat(a: Seq<Seq<Entry>>, b: Seq<Seq<Entry>>)
    ensures
        joined(a + b) == joined(a) + joined(b),
    decreases b.len(),
{
    if b.len() == 0 {
        assert(a + b =~= a);
        assert(joined(a) + joined(b) =~= joined(a));
    } else {
        lemma_joined_concat(a, b.drop_last());
        assert((a + b).drop_last() =~= a + b.drop_last());
        assert(joined(a + b) =~= joined(a) + joined(b));
    }
}

/// A part stands among the joined ones at its offset.
proof fn lemma_part(parts: Seq<Seq<Entry>>, i: int)
    requires
        0 <= i < parts.len(),
    ensures
        0 <= offset(parts, i),
        offset(parts, i) + parts[i].len() == offset(parts, i + 1),
        offset(parts, i + 1) <= joined(parts).len(),
        joined(parts).subrange(offset(parts, i), offset(parts, i + 1)) == parts[i],
{
    let head = parts.take(i);
    let tail = parts.skip(i + 1);
    assert(parts.take(i + 1) =~= head.push(parts[i]));
    assert(head.push(parts[i]).drop_last() =~= head);
    assert(parts =~= parts.take(i + 1) + tail);
    lemma_joined_concat(parts.take(i + 1), tail);
    assert(joined(parts).subrange(offset(parts, i), offset(parts, i + 1)) =~= parts[i]);
}

/// Whether a page is the root of a subtree that holds entries.
spec fn holds(c: Seq<u8>, lsn: u64, id: nat, es: Seq<Entry>) -> bool
    decreases id,
{
    match node_of(c, id, lsn) {
        None => false,
        Some(b) => {
            ||| kind_of(b) == 1 && entries_of(b) == es
            ||| kind_of(b) == 2 && exists|parts: Seq<Seq<Entry>>| #[trigger]
                joined(parts) == es && parts.len() == count_of(b) && forall|i: int|
                    0 <= i < parts.len() ==> {
                        &&& (#[trigger] parts[i]).len() > 0
                        &&& key_of(b, i) == parts[i][0].0
                        &&& child_of(b, i) < id
                        &&& holds(c, lsn, child_of(b, i) as nat, parts[i])
                    }
        },
    }
}

/// Whether a file has every sound page of another but for the first.
spec fn keeps(c: Seq<u8>, d: Seq<u8>, lsn: u64) -> bool {
    forall|id: nat|
        id > 0 && (#[trigger] node_of(c, id, lsn)) is Some ==> node_of(d, id, lsn) == node_of(
            c,
            id,
            lsn,
        )
}

proof fn lemma_holds_kept(c: Seq<u8>, d: Seq<u8>, lsn: u64, id: nat, es: Seq<Entry>)
    requires
        keeps(c, d, lsn),
        id > 0,
        holds(c, lsn, id, es),
    ensures
        holds(d, lsn, id, es),
    decreases id,
{
    let b = node_of(c, id, lsn).unwrap();
    assert(node_of(d, id, lsn) == Some(b));
    if kind_of(b) == 2 {
        let parts = choose|parts: Seq<Seq<Entry>>| #[trigger]
            joined(parts) == es && parts.len() == count_of(b) && forall|i: int|
                0 <= i < parts.len() ==> {
                    &&& (#[trigger] parts[i]).len() > 0
                    &&& key_of(b, i) == parts[i][0].0
                    &&& child_of(b, i) < id
                    &&& holds(c, lsn, child_of(b, i) as nat, parts[i])
                };
        assert forall|i: int| 0 <= i < parts.len() implies holds(
            d,
            lsn,
            child_of(b, i) as nat,
            #[trigger] parts[i],
        ) by {
            assert(valid_entry(b, id, i));
            lemma_holds_kept(c, d, lsn, child_of(b, i) as nat, parts[i]);
        }
        assert(joined(parts) == es);
    }
}

proof fn lemma_later(es: Seq<Entry>, i: int, j: int)
    requires
        increasing(es),
        0 <= i < j < es.len(),
    ensures
        es[i].0.before(es[j].0),
{
    reveal(increasing);
}

proof fn lemma_increasing_part(es: Seq<Entry>, from: int, to: int)
    requires
        increasing(es),
        0 <= from <= to <= es.len(),
    ensures
        increasing(es.subrange(from, to)),
{
    reveal(increasing);
    let t = es.subrange(from, to);
    assert forall|i: int, j: int| 0 <= i < j < t.len() implies (#[trigger] t[i]).0.before(
        (#[trigger] t[j]).0,
    ) by {
        assert(es[from + i].0.before(es[from + j].0));
    }
}

/// A sound page divides its keys at any key.
proof fn lemma_divides(b: Seq<u8>, id: nat, key: Key)
    requires
        valid_node(b, id),
        kind_of(b) != 0,
    ensures
        divides(b, key, lower_bound_of(b, key)),
{
    let n = lemma_divide_at(b, id, key, 0);
    lemma_lower_bound(b, key, n);
}

proof fn lemma_divide_at(b: Seq<u8>, id: nat, key: Key, from: nat) -> (n: nat)
    requires
        valid_node(b, id),
        kind_of(b) != 0,
        from <= count_of(b),
        forall|i: int| 0 <= i < from ==> (#[trigger] key_of(b, i)).before(key),
    ensures
        divides(b, key, n),
    decreases count_of(b) - from,
{
    if from < count_of(b) && key_of(b, from as int).before(key) {
        lemma_divide_at(b, id, key, from + 1)
    } else {
        assert forall|i: int| from <= i < count_of(b) implies !(#[trigger] key_of(b, i)).before(
            key,
        ) by {
            if i > from {
                lemma_node_order(b, id, from as int, i);
            }
        }
        from
    }
}

/// The branch entry to follow is the last one that does not come after the key.
proof fn lemma_floor(b: Seq<u8>, id: nat, key: Key)
    requires
        valid_node(b, id),
        kind_of(b) != 0,
    ensures
        floor_index_of(b, key) < count_of(b),
        floor_index_of(b, key) + 1 < count_of(b) ==> key.before(
            key_of(b, (floor_index_of(b, key) + 1) as int),
        ),
        floor_index_of(b, key) > 0 ==> !key.before(key_of(b, floor_index_of(b, key) as int)),
        floor_of(b, key) is Some ==> !key.before(key_of(b, floor_index_of(b, key) as int)),
        floor_of(b, key) is None ==> key.before(key_of(b, 0)),
{
    lemma_divides(b, id, key);
    let n = lower_bound_of(b, key);
    let i = floor_index_of(b, key);
    if n < count_of(b) {
        assert(!key_of(b, n as int).before(key));
        if n + 1 < count_of(b) {
            lemma_node_order(b, id, n as int, (n + 1) as int);
        }
    }
    if n > 0 {
        assert(key_of(b, n - 1).before(key));
    }
}

/// Whether a leaf's entries are those of the whole that stand around a key.
spec fn around(es: Seq<Entry>, at: int, leaf: Seq<Entry>, key: Key) -> bool {
    &&& 0 <= at
    &&& at + leaf.len() <= es.len()
    &&& leaf == es.subrange(at, at + leaf.len())
    &&& at > 0 ==> !key.before(es[at].0)
    &&& at + leaf.len() < es.len() ==> key.before(es[at + leaf.len()].0)
}

/// What stands around a key in the right part stands around it in the whole.
proof fn lemma_around_whole(
    parts: Seq<Seq<Entry>>,
    i: int,
    at: int,
    leaf: Seq<Entry>,
    key: Key,
)
    requires
        0 <= i < parts.len(),
        forall|k: int| 0 <= k < parts.len() ==> (#[trigger] parts[k]).len() > 0,
        around(parts[i], at, leaf, key),
        leaf.len() > 0,
        i > 0 ==> !key.before(parts[i][0].0),
        i + 1 < parts.len() ==> key.before(parts[i + 1][0].0),
    ensures
        around(joined(parts), offset(parts, i) + at, leaf, key),
{
    let es = joined(parts);
    let part = parts[i];
    lemma_part(parts, i);
    let from = offset(parts, i);
    assert(forall|k: int| 0 <= k < part.len() ==> part[k] == es[from + k]);
    assert(leaf =~= es.subrange(from + at, from + at + leaf.len()));
    if i + 1 < parts.len() {
        lemma_part(parts, i + 1);
        assert(parts[i + 1][0] == es.subrange(offset(parts, i + 1), offset(parts, i + 2))[0]);
    } else {
        assert(parts.take(i + 1) =~= parts);
    }
    if i == 0 {
        assert(parts.take(0) =~= Seq::empty());
    }
}

/// From the root of a subtree a walk leads to the leaf around the key.
proof fn lemma_walk(c: Seq<u8>, lsn: u64, id: nat, es: Seq<Entry>, key: Key) -> (r: (nat, int))
    requires
        id > 0,
        holds(c, lsn, id, es),
        increasing(es),
    ensures
        walk(c, lsn, id, key) == Some(Some(r.0)),
        r.0 > 0,
        node_of(c, r.0, lsn) is Some,
        kind_of(node_of(c, r.0, lsn).unwrap()) == 1,
        around(es, r.1, entries_of(node_of(c, r.0, lsn).unwrap()), key),
    decreases id,
{
    let b = node_of(c, id, lsn).unwrap();
    if kind_of(b) == 1 {
        assert(es.subrange(0, es.len() as int) =~= es);
        (id, 0)
    } else {
        let parts = choose|parts: Seq<Seq<Entry>>| #[trigger]
            joined(parts) == es && parts.len() == count_of(b) && forall|i: int|
                0 <= i < parts.len() ==> {
                    &&& (#[trigger] parts[i]).len() > 0
                    &&& key_of(b, i) == parts[i][0].0
                    &&& child_of(b, i) < id
                    &&& holds(c, lsn, child_of(b, i) as nat, parts[i])
                };
        lemma_floor(b, id, key);
        let i = floor_index_of(b, key) as int;
        let part = parts[i];
        lemma_part(parts, i);
        let from = offset(parts, i);
        lemma_increasing_part(es, from, from + part.len());
        assert(valid_entry(b, id, i));
        let (leaf, at) = lemma_walk(c, lsn, child_of(b, i) as nat, part, key);
        if i + 1 < parts.len() {
            assert(parts[i + 1].len() > 0);
        }
        lemma_around_whole(parts, i, at, entries_of(node_of(c, leaf, lsn).unwrap()), key);
        (leaf, from + at)
    }
}

/// Whether an optional entry is the last one that does not come after a key.
pub open spec fn is_floor(es: Seq<Entry>, key: Key, r: Option<Entry>) -> bool {
    match r {
        Some(e) => es.contains(e) && !key.before(e.0) && forall|i: int|
            0 <= i < es.len() ==> (#[trigger] es[i]).0 == e.0 || es[i].0.before(e.0) || key.before(
                es[i].0,
            ),
        None => forall|i: int| 0 <= i < es.len() ==> key.before((#[trigger] es[i]).0),
    }
}

/// Whether an optional value is the one under a key.
pub open spec fn is_value(es: Seq<Entry>, key: Key, r: Option<Value>) -> bool {
    match r {
        Some(v) => es.contains((key, v)),
        None => forall|i: int| 0 <= i < es.len() ==> (#[trigger] es[i]).0 != key,
    }
}

/// Entries off the leaf lie before or after the key.
proof fn lemma_outside(es: Seq<Entry>, at: int, leaf: Seq<Entry>, key: Key, j: int)
    requires
        increasing(es),
        around(es, at, leaf, key),
        leaf.len() > 0,
        0 <= j < es.len(),
    ensures
        j < at ==> es[j].0.before(key) && es[j].0.before(leaf[0].0),
        j >= at + leaf.len() ==> key.before(es[j].0),
        at <= j < at + leaf.len() ==> es[j] == leaf[j - at],
{
    assert(leaf[0] == es[at]);
    if j < at {
        lemma_later(es, j, at);
    }
    if j > at + leaf.len() {
        lemma_later(es, at + leaf.len(), j);
    }
}

/// What a tree makes of lookups.
proof fn lemma_queries(c: Seq<u8>, lsn: u64, meta: Seq<u8>, es: Seq<Entry>, key: Key)
    requires
        c.len() % 8192 == 0,
        node_of(c, 0, lsn) == Some(meta),
        increasing(es),
        es.len() == 0 ==> next_of(meta) == 0,
        es.len() > 0 ==> next_of(meta) > 0 && holds(c, lsn, next_of(meta) as nat, es),
    ensures
        lookup_of(c, lsn, key) is Some,
        is_value(es, key, lookup_of(c, lsn, key).unwrap()),
        floor_entry_of(c, lsn, key) is Some,
        is_floor(es, key, floor_entry_of(c, lsn, key).unwrap()),
{
    if es.len() > 0 {
        let (id, at) = lemma_walk(c, lsn, next_of(meta) as nat, es, key);
        let b = node_of(c, id, lsn).unwrap();
        let leaf = entries_of(b);
        lemma_divides(b, id, key);
        lemma_floor(b, id, key);
        let n = lower_bound_of(b, key) as int;
        assert forall|i: int| 0 <= i < leaf.len() implies leaf[i] == es[at + i] && leaf[i].0
            == key_of(b, i) by {}
        // Lookup.
        match lookup_of(c, lsn, key).unwrap() {
            Some(v) => {
                assert(es[at + n] == (key, v));
            },
            None => {
                assert forall|j: int| 0 <= j < es.len() implies (#[trigger] es[j]).0 != key by {
                    lemma_outside(es, at, leaf, key, j);
                    if at <= j < at + leaf.len() {
                        let i = j - at;
                        assert(leaf[i].0 == key_of(b, i));
                        if i > n {
                            lemma_node_order(b, id, n, i);
                            assert(!key_of(b, n).before(key));
                        }
                    }
                }
            },
        }
        // Floor.
        match floor_of(b, key) {
            Some(f) => {
                let e = es[at + f];
                assert(es.contains(e));
                assert forall|j: int| 0 <= j < es.len() implies (#[trigger] es[j]).0 == e.0
                    || es[j].0.before(e.0) || key.before(es[j].0) by {
                    lemma_outside(es, at, leaf, key, j);
                    if j < at + f {
                        lemma_later(es, j, at + f);
                    } else if at + f < j < at + leaf.len() {
                        assert(key.before(key_of(b, f as int + 1)));
                        if j > at + f + 1 {
                            lemma_node_order(b, id, f as int + 1, j - at);
                        }
                    }
                }
            },
            None => {
                assert(key.before(key_of(b, 0)));
                assert(at == 0) by {
                    if at > 0 {
                        assert(es[at] == leaf[0]);
                    }
                }
                assert forall|j: int| 0 <= j < es.len() implies key.before(
                    (#[trigger] es[j]).0,
                ) by {
                    lemma_outside(es, at, leaf, key, j);
                    if 0 < j < leaf.len() {
                        lemma_node_order(b, id, 0, j);
                    }
                }
            },
        }
    }
}

// ---- Scans ----

/// The entries of a leaf by its place.
spec fn chunk(all: Seq<Entry>, i: int) -> Seq<Entry> {
    all.subrange(
        i * 254,
        if (i + 1) * 254 <= all.len() {
            (i + 1) * 254
        } else {
            all.len() as int
        },
    )
}

/// Whether a page is a leaf with entries and a next leaf.
spec fn leaf_at(c: Seq<u8>, lsn: u64, id: nat, es: Seq<Entry>, next: int) -> bool {
    match node_of(c, id, lsn) {
        Some(b) => kind_of(b) == 1 && entries_of(b) == es && next_of(b) == next,
        None => false,
    }
}

/// Whether a leaf has its entries and leads to the next one.
spec fn in_place(c: Seq<u8>, lsn: u64, all: Seq<Entry>, leaves: nat, i: int) -> bool {
    leaf_at(
        c,
        lsn,
        (i + 1) as nat,
        chunk(all, i),
        if i + 1 < leaves {
            i + 2
        } else {
            0
        },
    )
}

/// Whether the leaves of a file are its first pages, each with its entries, in a chain.
spec fn linked(c: Seq<u8>, lsn: u64, all: Seq<Entry>, leaves: nat) -> bool {
    &&& all.len() <= leaves * 254
    &&& leaves > 0 ==> all.len() > (leaves - 1) * 254
    &&& forall|i: int| 0 <= i < leaves ==> #[trigger] in_place(c, lsn, all, leaves, i)
    &&& forall|id: nat|
        id > leaves && (#[trigger] node_of(c, id, lsn)) is Some ==> kind_of(
            node_of(c, id, lsn).unwrap(),
        ) != 1
}

proof fn lemma_upto_concat(a: Seq<Entry>, b: Seq<Entry>, upper: Key)
    ensures
        upto(a, upper).len() <= a.len(),
        upto(a + b, upper) == (if upto(a, upper).len() < a.len() {
            upto(a, upper)
        } else {
            a + upto(b, upper)
        }),
        upto(a, upper).len() == a.len() ==> upto(a, upper) == a,
    decreases a.len(),
{
    if a.len() == 0 {
        assert(a + b =~= b);
        assert(a + upto(b, upper) =~= upto(b, upper));
    } else {
        lemma_upto_concat(a.skip(1), b, upper);
        assert((a + b).skip(1) =~= a.skip(1) + b);
        if !upper.before(a[0].0) {
            let t = upto(a.skip(1), upper);
            assert(upto(a, upper) == seq![a[0]] + t);
            if t.len() == a.skip(1).len() {
                assert(seq![a[0]] + a.skip(1) =~= a);
                assert(seq![a[0]] + (a.skip(1) + upto(b, upper)) =~= a + upto(b, upper));
            }
        }
    }
}

/// From a leaf on, the chain gives the entries of the whole.
proof fn lemma_chain(
    c: Seq<u8>,
    lsn: u64,
    all: Seq<Entry>,
    leaves: nat,
    i: int,
    pos: int,
    upper: Key,
)
    requires
        linked(c, lsn, all, leaves),
        0 <= i < leaves,
        0 <= pos <= chunk(all, i).len(),
    ensures
        ({
            let next = if i + 1 < leaves {
                (i + 2) as nat
            } else {
                0
            };
            stream(c, lsn, chunk(all, i).skip(pos), next, upper) == (Stream {
                items: upto(all.skip(i * 254 + pos), upper),
                sound: true,
            })
        }),
    decreases leaves - i,
{
    let es = chunk(all, i).skip(pos);
    let whole = all.skip(i * 254 + pos);
    if i + 1 < leaves {
        let rest = all.skip((i + 1) * 254);
        assert(whole =~= es + rest);
        lemma_upto_concat(es, rest, upper);
        assert(in_place(c, lsn, all, leaves, i + 1));
        lemma_chain(c, lsn, all, leaves, i + 1, 0, upper);
        assert(chunk(all, i + 1).skip(0) =~= chunk(all, i + 1));
        let b = node_of(c, (i + 2) as nat, lsn).unwrap();
        let more = stream(c, lsn, entries_of(b), next_of(b) as nat, upper);
        assert(all.skip((i + 1) * 254 + 0) =~= rest);
        assert(more.items == upto(rest, upper));
        if upto(es, upper).len() == es.len() {
            assert(upto(es, upper) =~= es);
        }
    } else {
        assert(whole =~= es);
        lemma_upto_concat(es, Seq::empty(), upper);
    }
}

/// The keys from a lower to an upper end.
pub open spec fn between(lower: Key, upper: Key) -> spec_fn(Entry) -> bool {
    |e: Entry| !e.0.before(lower) && !upper.before(e.0)
}

proof fn lemma_upto_filter(es: Seq<Entry>, lower: Key, upper: Key)
    requires
        increasing(es),
        forall|i: int| 0 <= i < es.len() ==> !(#[trigger] es[i]).0.before(lower),
    ensures
        upto(es, upper) == es.filter(between(lower, upper)),
    decreases es.len(),
{
    let p = between(lower, upper);
    if es.len() == 0 {
        lemma_filter_none(es, p);
    } else if upper.before(es[0].0) {
        assert forall|i: int| 0 <= i < es.len() implies !p(#[trigger] es[i]) by {
            if i > 0 {
                lemma_later(es, 0, i);
            }
        }
        lemma_filter_none(es, p);
    } else {
        let rest = es.skip(1);
        assert(rest =~= es.subrange(1, es.len() as int));
        lemma_increasing_part(es, 1, es.len() as int);
        assert forall|i: int| 0 <= i < rest.len() implies !(#[trigger] rest[i]).0.before(
            lower,
        ) by {
            assert(rest[i] == es[i + 1]);
        }
        lemma_upto_filter(rest, lower, upper);
        assert(es =~= seq![es[0]] + rest);
        Seq::filter_distributes_over_add(seq![es[0]], rest, p);
        lemma_filter_one(es[0], p);
        assert(!es[0].0.before(lower));
    }
}

/// What a tree makes of scans.
proof fn lemma_scan(
    c: Seq<u8>,
    lsn: u64,
    meta: Seq<u8>,
    es: Seq<Entry>,
    leaves: nat,
    lower: Key,
    upper: Key,
)
    requires
        c.len() % 8192 == 0,
        node_of(c, 0, lsn) == Some(meta),
        increasing(es),
        es.len() == 0 ==> next_of(meta) == 0,
        es.len() > 0 ==> next_of(meta) > 0 && holds(c, lsn, next_of(meta) as nat, es),
        linked(c, lsn, es, leaves),
    ensures
        scan_of(c, lsn, lower, upper) == Some(
            Stream { items: es.filter(between(lower, upper)), sound: true },
        ),
{
    let p = between(lower, upper);
    if es.len() == 0 {
        lemma_filter_none(es, p);
    } else {
        let (id, at) = lemma_walk(c, lsn, next_of(meta) as nat, es, lower);
        let b = node_of(c, id, lsn).unwrap();
        let leaf = entries_of(b);
        assert(id <= leaves);
        let i = id - 1;
        assert(in_place(c, lsn, es, leaves, i));
        assert(leaf == chunk(es, i));
        assert(leaf[0] == es[at] && leaf[0] == es[i * 254]);
        if at < i * 254 {
            lemma_later(es, at, i * 254);
        } else if i * 254 < at {
            lemma_later(es, i * 254, at);
        }
        assert(at == i * 254);
        lemma_divides(b, id, lower);
        let pos = lower_bound_of(b, lower) as int;
        lemma_chain(c, lsn, es, leaves, i, pos, upper);
        let start = at + pos;
        let (head, tail) = (es.take(start), es.skip(start));
        assert(es =~= head + tail);
        Seq::filter_distributes_over_add(head, tail, p);
        assert forall|j: int| 0 <= j < head.len() implies !p(#[trigger] head[j]) by {
            lemma_outside(es, at, leaf, lower, j);
            assert(head[j] == es[j]);
            if j >= at {
                assert(key_of(b, j - at).before(lower));
            }
        }
        lemma_filter_none(head, p);
        assert forall|j: int| 0 <= j < tail.len() implies !(#[trigger] tail[j]).0.before(
            lower,
        ) by {
            let k = start + j;
            assert(tail[j] == es[k]);
            lemma_outside(es, at, leaf, lower, k);
            if k < at + leaf.len() {
                assert(!key_of(b, k - at).before(lower));
            }
        }
        assert(tail =~= es.subrange(start, es.len() as int));
        lemma_increasing_part(es, start, es.len() as int);
        lemma_upto_filter(tail, lower, upper);
        assert(es.filter(p) =~= tail.filter(p));
    }
}

// ---- The writer ----

/// A page behind those of a file.
proof fn lemma_append_page(c: Seq<u8>, b: Seq<u8>, id: nat, lsn: u64)
    requires
        c.len() == id * 8192,
        valid_node(b, id),
        sequence_of(b) == lsn,
        id * 8192 <= u64::MAX,
    ensures
        node_of(c + b, id, lsn) == Some(b),
        forall|m: nat| m < id ==> #[trigger] node_of(c + b, m, lsn) == node_of(c, m, lsn),
        forall|m: nat| m > id ==> #[trigger] node_of(c + b, m, lsn) is None,
        forall|m: nat| m >= id ==> #[trigger] node_of(c, m, lsn) is None,
        keeps(c, c + b, lsn),
{
    let d = c + b;
    assert(page_bytes(d, id) =~= b);
    assert forall|m: nat| m < id implies #[trigger] node_of(d, m, lsn) == node_of(c, m, lsn) by {
        assert(page_bytes(d, m) =~= page_bytes(c, m));
    }
}

/// Whether a finished leaf is in a file.
spec fn ready(c: Seq<u8>, lsn: u64, all: Seq<Entry>, i: int) -> bool {
    leaf_at(c, lsn, (i + 1) as nat, chunk(all, i), i + 2)
}

/// Whether a page of a level is the root of a subtree with entries.
spec fn rooted(c: Seq<u8>, lsn: u64, item: (Key, u64), part: Seq<Entry>, next: u64) -> bool {
    &&& part.len() > 0
    &&& item.0 == part[0].0
    &&& 0 < item.1 < next
    &&& holds(c, lsn, item.1 as nat, part)
}

/// Whether the pages of a level are the roots of subtrees with parts of the entries.
spec fn level_ok(
    c: Seq<u8>,
    lsn: u64,
    level: Seq<(Key, u64)>,
    parts: Seq<Seq<Entry>>,
    next: u64,
) -> bool {
    &&& level.len() == parts.len()
    &&& forall|i: int| 0 <= i < level.len() ==> #[trigger] rooted(c, lsn, level[i], parts[i], next)
}

proof fn lemma_level_kept(
    c: Seq<u8>,
    d: Seq<u8>,
    lsn: u64,
    level: Seq<(Key, u64)>,
    parts: Seq<Seq<Entry>>,
    next: u64,
    later: u64,
)
    requires
        level_ok(c, lsn, level, parts, next),
        keeps(c, d, lsn),
        next <= later,
    ensures
        level_ok(d, lsn, level, parts, later),
{
    assert forall|i: int| 0 <= i < level.len() implies #[trigger] rooted(
        d,
        lsn,
        level[i],
        parts[i],
        later,
    ) by {
        assert(rooted(c, lsn, level[i], parts[i], next));
        lemma_holds_kept(c, d, lsn, level[i].1 as nat, parts[i]);
    }
}

/// The first keys of consecutive parts of ordered entries are in order.
proof fn lemma_level_increasing(
    c: Seq<u8>,
    lsn: u64,
    level: Seq<(Key, u64)>,
    parts: Seq<Seq<Entry>>,
    next: u64,
)
    requires
        level_ok(c, lsn, level, parts, next),
        increasing(joined(parts)),
    ensures
        increasing(level),
{
    let es = joined(parts);
    assert forall|i: int, j: int| 0 <= i < j < level.len() implies (#[trigger] level[i]).0.before(
        (#[trigger] level[j]).0,
    ) by {
        assert(rooted(c, lsn, level[i], parts[i], next));
        assert(rooted(c, lsn, level[j], parts[j], next));
        lemma_part(parts, i);
        lemma_part(parts, j);
        lemma_offsets(parts, i + 1, j);
        assert(parts[i][0] == es.subrange(offset(parts, i), offset(parts, i + 1))[0]);
        assert(parts[j][0] == es.subrange(offset(parts, j), offset(parts, j + 1))[0]);
        lemma_later(es, offset(parts, i), offset(parts, j));
    }
    reveal(increasing);
}

proof fn lemma_offsets(parts: Seq<Seq<Entry>>, i: int, j: int)
    requires
        0 <= i <= j <= parts.len(),
    ensures
        offset(parts, i) <= offset(parts, j),
    decreases j - i,
{
    if i < j {
        lemma_part(parts, j - 1);
        lemma_offsets(parts, i, j - 1);
    }
}

/// A branch over some subtrees is the root of their joined entries.
proof fn lemma_branch(
    c: Seq<u8>,
    b: Seq<u8>,
    id: u64,
    lsn: u64,
    level: Seq<(Key, u64)>,
    parts: Seq<Seq<Entry>>,
    from: int,
    to: int,
)
    requires
        c.len() == id * 8192,
        id > 0,
        id * 8192 <= u64::MAX,
        level_ok(c, lsn, level, parts, id),
        0 <= from < to <= level.len(),
        valid_node(b, id as nat),
        sequence_of(b) == lsn,
        kind_of(b) == 2,
        count_of(b) == to - from,
        forall|i: int|
            0 <= i < to - from ==> (#[trigger] key_of(b, i)) == level[from + i].0 && child_of(b, i)
                == level[from + i].1,
    ensures
        ({
            let part = joined(parts.subrange(from, to));
            &&& part.len() > 0
            &&& part[0] == parts[from][0]
            &&& holds(c + b, lsn, id as nat, part)
        }),
{
    let d = c + b;
    lemma_append_page(c, b, id as nat, lsn);
    let some = parts.subrange(from, to);
    let part = joined(some);
    assert forall|i: int| 0 <= i < some.len() implies {
        &&& (#[trigger] some[i]).len() > 0
        &&& key_of(b, i) == some[i][0].0
        &&& child_of(b, i) < id
        &&& holds(d, lsn, child_of(b, i) as nat, some[i])
    } by {
        assert(key_of(b, i) == level[from + i].0);
        assert(rooted(c, lsn, level[from + i], parts[from + i], id));
        lemma_holds_kept(c, d, lsn, level[from + i].1 as nat, parts[from + i]);
    }
    lemma_part(some, 0);
    assert(some.take(0) =~= Seq::empty());
    assert(some[0].len() > 0);
    assert(part.subrange(offset(some, 0), offset(some, 1))[0] == some[0][0]);
    assert(joined(some) == part);
}

/// Builds an index file from entries in the order of their keys.
pub struct IndexWriter {
    out: Vec<u8>,
    lsn: u64,
    next: u64,
    count: u64,
    leaf: Vec<Entry>,
    level: Vec<(Key, u64)>,
    previous: Option<Key>,
    all: Ghost<Seq<Entry>>,
}

impl IndexWriter {
    /// The entries so far.
    pub closed spec fn entries(self) -> Seq<Entry> {
        self.all@
    }

    /// The sequence number that the pages carry.
    pub closed spec fn sequence(self) -> u64 {
        self.lsn
    }

    /// Whether the leaves so far hold the entries so far.
    pub closed spec fn sound(self) -> bool {
        let all = self.all@;
        let flushed = self.next - 1;
        &&& self.next >= 1
        &&& self.out@.len() == self.next * 8192
        &&& self.count == all.len()
        &&& increasing(all)
        &&& self.leaf@.len() <= 254
        &&& all.len() == flushed * 254 + self.leaf@.len()
        &&& self.leaf@ == all.skip(flushed * 254)
        &&& self.leaf@.len() == 0 ==> all.len() == 0
        &&& self.previous == (if all.len() == 0 {
            None
        } else {
            Some(all.last().0)
        })
        &&& self.level@.len() == flushed
        &&& forall|i: int|
            0 <= i < flushed ==> (#[trigger] self.level@[i]) == (all[i * 254].0, (i + 1) as u64)
        &&& forall|i: int| 0 <= i < flushed ==> #[trigger] ready(self.out@, self.lsn, all, i)
    }

    /// Starts an index file whose pages carry a sequence number.
    pub fn create(lsn: u64) -> (w: Self)
        ensures
            w.sound(),
            w.entries() == Seq::<Entry>::empty(),
            w.sequence() == lsn,
    {
        let mut out: Vec<u8> = Vec::new();
        out.resize(8192, 0);
        let w = IndexWriter {
            out,
            lsn,
            next: 1,
            count: 0,
            leaf: Vec::new(),
            level: Vec::new(),
            previous: None,
            all: Ghost(Seq::empty()),
        };
        proof {
            reveal(increasing);
            assert(w.leaf@ =~= w.all@.skip(0));
        }
        w
    }

    /// Appends an entry with a greater key than those before it.
    pub fn append(&mut self, key: Key, value: Value) -> (r: Result<()>)
        requires
            old(self).sound(),
        ensures
            final(self).sound(),
            final(self).sequence() == old(self).sequence(),
            match r {
                Ok(_) => {
                    &&& old(self).entries().len() > 0 ==> old(self).entries().last().0.before(key)
                    &&& final(self).entries() == old(self).entries().push((key, value))
                },
                Err(e) => {
                    &&& e is Corrupt
                    &&& old(self).entries().len() > 0 && !old(self).entries().last().0.before(key)
                    &&& *final(self) == *old(self)
                },
            },
    {
        match &self.previous {
            Some(previous) => {
                if !previous.less(&key) {
                    return Err(corrupt("index keys are not strictly ordered"));
                }
            },
            None => {},
        }
        let ghost all = self.all@;
        let length: usize = self.out.len();
        if self.leaf.len() == LEAF_CAPACITY {
            proof {
                let from = (self.next - 1) * 254;
                lemma_increasing_part(all, from, all.len() as int);
                assert(all.skip(from) =~= all.subrange(from, all.len() as int));
            }
            let page = leaf_page(self.next, self.lsn, &self.leaf, self.next + 1);
            let ghost before = self.out@;
            let ghost i = self.next - 1;
            put_bytes(&mut self.out, page.as_slice());
            proof {
                lemma_append_page(before, page@, self.next as nat, self.lsn);
                assert(self.leaf@ =~= chunk(all, i));
                assert forall|j: int| 0 <= j < i + 1 implies #[trigger] ready(
                    self.out@,
                    self.lsn,
                    all,
                    j,
                ) by {
                    if j < i {
                        assert(ready(before, self.lsn, all, j));
                    }
                }
                assert(self.leaf@[0] == all[i * 254]);
            }
            self.level.push((self.leaf[0].0, self.next));
            self.next = self.next + 1;
            self.leaf = Vec::new();
            assert(self.leaf@ =~= all.skip((self.next - 1) * 254));
        }
        let ghost mid = *self;
        self.leaf.push((key, value));
        self.previous = Some(key);
        proof {
            let more = all.push((key, value));
            let flushed = self.next - 1;
            assert(self.leaf@ =~= more.skip(flushed * 254));
            assert(increasing(more)) by {
                lemma_increasing_push(all, (key, value));
            }
            assert forall|i: int| 0 <= i < flushed implies #[trigger] ready(
                self.out@,
                self.lsn,
                more,
                i,
            ) by {
                assert(ready(self.out@, self.lsn, all, i));
                assert(chunk(more, i) =~= chunk(all, i));
            }
            self.all@ = more;
        }
        self.count = self.count + 1;
        Ok(())
    }

    /// The leaves of all the entries, the last one with the end of the chain.
    fn leaves(self) -> (r: (Vec<u8>, Vec<(Key, u64)>, u64))
        requires
            self.sound(),
        ensures
            ({
                let all = self.entries();
                let leaves = (r.2 - 1) as nat;
                &&& r.2 >= 1
                &&& r.0@.len() == r.2 * 8192
                &&& linked(r.0@, self.sequence(), all, leaves)
                &&& all.len() == 0 ==> leaves == 0
                &&& level_ok(
                    r.0@,
                    self.sequence(),
                    r.1@,
                    Seq::new(leaves, |i: int| chunk(all, i)),
                    r.2,
                )
            }),
    {
        let mut out = self.out;
        let mut level = self.level;
        let mut next: u64 = self.next;
        let lsn: u64 = self.lsn;
        let ghost all = self.all@;
        let ghost i = self.next - 1;
        let ghost before = out@;
        let length: usize = out.len();
        if self.leaf.len() > 0 {
            proof {
                lemma_increasing_part(all, i * 254, all.len() as int);
                assert(all.skip(i * 254) =~= all.subrange(i * 254, all.len() as int));
            }
            let page = leaf_page(next, lsn, &self.leaf, 0);
            put_bytes(&mut out, page.as_slice());
            proof {
                lemma_append_page(before, page@, next as nat, lsn);
                assert(self.leaf@ =~= chunk(all, i));
                assert(self.leaf@[0] == all[i * 254]);
            }
            level.push((self.leaf[0].0, next));
            next = next + 1;
        }
        proof {
            let leaves = (next - 1) as nat;
            let c = out@;
            assert forall|j: int| 0 <= j < leaves implies #[trigger] in_place(
                c,
                lsn,
                all,
                leaves,
                j,
            ) && level@[j] == (all[j * 254].0, (j + 1) as u64) by {
                if j < i {
                    assert(ready(before, lsn, all, j));
                    assert(self.level@[j] == (all[j * 254].0, (j + 1) as u64));
                }
            }
            assert forall|id: nat| id > leaves && (#[trigger] node_of(c, id, lsn))
                is Some implies kind_of(node_of(c, id, lsn).unwrap()) != 1 by {}
            let parts = Seq::new(leaves, |j: int| chunk(all, j));
            assert forall|j: int| 0 <= j < level@.len() implies #[trigger] rooted(
                c,
                lsn,
                level@[j],
                parts[j],
                next,
            ) by {
                assert(in_place(c, lsn, all, leaves, j));
                assert(parts[j][0] == all[j * 254]);
            }
        }
        (out, level, next)
    }

    /// The finished file: it answers every query from the entries.
    pub fn finish(self) -> (bytes: Vec<u8>)
        requires
            self.sound(),
        ensures
            forall|key: Key|
                (#[trigger] lookup_of(bytes@, self.sequence(), key)) is Some && is_value(
                    self.entries(),
                    key,
                    lookup_of(bytes@, self.sequence(), key).unwrap(),
                ),
            forall|key: Key|
                (#[trigger] floor_entry_of(bytes@, self.sequence(), key)) is Some && is_floor(
                    self.entries(),
                    key,
                    floor_entry_of(bytes@, self.sequence(), key).unwrap(),
                ),
            forall|lower: Key, upper: Key| #[trigger]
                scan_of(bytes@, self.sequence(), lower, upper) == Some(
                    Stream { items: self.entries().filter(between(lower, upper)), sound: true },
                ),
    {
        let ghost all = self.all@;
        let lsn: u64 = self.lsn;
        let count: u64 = self.count;
        let (out, level, next) = self.leaves();
        let ghost leaves = (next - 1) as nat;
        let ghost parts = Seq::new(leaves, |i: int| chunk(all, i));
        proof {
            lemma_chunks(all, leaves);
        }
        let (out, root) = raise(out, level, next, lsn, Ghost(parts), Ghost(leaves));
        let mut words: Vec<u64> = Vec::new();
        words.push(count);
        let meta = index_page(0, 0, lsn, 0, root, &words);
        let mut bytes = out;
        set_bytes(&mut bytes, 0, meta.as_slice());
        proof {
            let (c, d) = (out@, bytes@);
            assert(page_bytes(d, 0) =~= meta@);
            assert forall|m: nat| m > 0 implies #[trigger] node_of(d, m, lsn) == node_of(
                c,
                m,
                lsn,
            ) by {
                assert(m * 8192 + 8192 <= c.len() ==> page_bytes(d, m) =~= page_bytes(c, m));
            }
            assert(linked(d, lsn, all, leaves)) by {
                assert forall|i: int| 0 <= i < leaves implies #[trigger] in_place(
                    d,
                    lsn,
                    all,
                    leaves,
                    i,
                ) by {
                    assert(in_place(c, lsn, all, leaves, i));
                }
            }
            if all.len() > 0 {
                lemma_holds_kept(c, d, lsn, root as nat, all);
            }
            assert forall|key: Key|
                (#[trigger] lookup_of(d, lsn, key)) is Some && is_value(
                    all,
                    key,
                    lookup_of(d, lsn, key).unwrap(),
                ) by {
                lemma_queries(d, lsn, meta@, all, key);
            }
            assert forall|key: Key|
                (#[trigger] floor_entry_of(d, lsn, key)) is Some && is_floor(
                    all,
                    key,
                    floor_entry_of(d, lsn, key).unwrap(),
                ) by {
                lemma_queries(d, lsn, meta@, all, key);
            }
            assert forall|lower: Key, upper: Key| #[trigger]
                scan_of(d, lsn, lower, upper) == Some(
                    Stream { items: all.filter(between(lower, upper)), sound: true },
                ) by {
                lemma_scan(d, lsn, meta@, all, leaves, lower, upper);
            }
        }
        bytes
    }
}

/// The entries of all leaves are all the entries.
proof fn lemma_chunks(all: Seq<Entry>, leaves: nat)
    requires
        all.len() <= leaves * 254,
        leaves > 0 ==> all.len() > (leaves - 1) * 254,
    ensures
        joined(Seq::new(leaves, |i: int| chunk(all, i))) == all,
{
    let parts = Seq::new(leaves, |i: int| chunk(all, i));
    lemma_first_chunks(all, leaves, leaves);
    assert(parts.take(leaves as int) =~= parts);
    if leaves > 0 {
        assert(all.take(all.len() as int) =~= all);
    } else {
        assert(all =~= Seq::empty());
    }
}

proof fn lemma_first_chunks(all: Seq<Entry>, leaves: nat, count: nat)
    requires
        all.len() <= leaves * 254,
        leaves > 0 ==> all.len() > (leaves - 1) * 254,
        count <= leaves,
    ensures
        joined(Seq::new(leaves, |i: int| chunk(all, i)).take(count as int)) == all.take(
            if count * 254 <= all.len() {
                (count * 254) as int
            } else {
                all.len() as int
            },
        ),
    decreases count,
{
    let parts = Seq::new(leaves, |i: int| chunk(all, i));
    if count == 0 {
        assert(parts.take(0) =~= Seq::empty());
        assert(all.take(0) =~= Seq::empty());
    } else {
        lemma_first_chunks(all, leaves, (count - 1) as nat);
        assert(parts.take(count as int).drop_last() =~= parts.take(count - 1));
        let from = (count - 1) * 254;
        let to = if count * 254 <= all.len() {
            (count * 254) as int
        } else {
            all.len() as int
        };
        assert(all.take(from) + chunk(all, count - 1) =~= all.take(to));
    }
}

/// Raises branches over a level until one page is left: the root.
fn raise(
    out: Vec<u8>,
    level: Vec<(Key, u64)>,
    next: u64,
    lsn: u64,
    Ghost(parts): Ghost<Seq<Seq<Entry>>>,
    Ghost(leaves): Ghost<nat>,
) -> (r: (Vec<u8>, u64))
    requires
        next >= 1,
        out@.len() == next * 8192,
        level_ok(out@, lsn, level@, parts, next),
        increasing(joined(parts)),
        linked(out@, lsn, joined(parts), leaves),
        joined(parts).len() == 0 ==> level@.len() == 0,
        next > leaves,
    ensures
        r.0@.len() % 8192 == 0,
        r.0@.len() >= 8192,
        linked(r.0@, lsn, joined(parts), leaves),
        joined(parts).len() == 0 ==> r.1 == 0,
        joined(parts).len() > 0 ==> r.1 > 0 && holds(r.0@, lsn, r.1 as nat, joined(parts)),
{
    let ghost all = joined(parts);
    let ghost mut below = parts;
    let mut out = out;
    let mut level = level;
    let mut next: u64 = next;
    while level.len() > 1
        invariant
            next >= 1,
            next > leaves,
            out@.len() == next * 8192,
            level_ok(out@, lsn, level@, below, next),
            joined(below) == all,
            increasing(all),
            linked(out@, lsn, all, leaves),
            all.len() == 0 ==> level@.len() == 0,
        decreases level@.len(),
    {
        let (more, parents, after, Ghost(above)) = raise_once(
            out,
            &level,
            next,
            lsn,
            Ghost(below),
            Ghost(all),
            Ghost(leaves),
        );
        out = more;
        level = parents;
        next = after;
        proof {
            below = above;
        }
    }
    let root: u64 = if level.len() == 0 {
        0
    } else {
        level[0].1
    };
    proof {
        if level@.len() == 0 {
            assert(below =~= Seq::empty());
        } else {
            assert(rooted(out@, lsn, level@[0], below[0], next));
            assert(below =~= seq![below[0]]);
            reveal_with_fuel(joined, 2);
            assert(below.drop_last() =~= Seq::empty());
            assert(joined(below) =~= below[0]);
        }
    }
    (out, root)
}

/// Raises one level of branches.
fn raise_once(
    out: Vec<u8>,
    level: &Vec<(Key, u64)>,
    next: u64,
    lsn: u64,
    Ghost(parts): Ghost<Seq<Seq<Entry>>>,
    Ghost(all): Ghost<Seq<Entry>>,
    Ghost(leaves): Ghost<nat>,
) -> (r: (Vec<u8>, Vec<(Key, u64)>, u64, Ghost<Seq<Seq<Entry>>>))
    requires
        level@.len() > 1,
        next >= 1,
        next > leaves,
        out@.len() == next * 8192,
        level_ok(out@, lsn, level@, parts, next),
        joined(parts) == all,
        increasing(all),
        linked(out@, lsn, all, leaves),
    ensures
        r.2 >= 1,
        r.2 > leaves,
        r.0@.len() == r.2 * 8192,
        level_ok(r.0@, lsn, r.1@, r.3@, r.2),
        joined(r.3@) == all,
        linked(r.0@, lsn, all, leaves),
        r.1@.len() < level@.len(),
        r.1@.len() > 0,
{
    let total: usize = level.len();
    let mut out = out;
    let mut next: u64 = next;
    let mut parents: Vec<(Key, u64)> = Vec::new();
    let ghost mut above: Seq<Seq<Entry>> = Seq::empty();
    let mut i: usize = 0;
    proof {
        lemma_level_increasing(out@, lsn, level@, parts, next);
        assert(parts.take(0) =~= Seq::empty());
    }
    while i < total
        invariant
            i <= total == level@.len(),
            total > 1,
            next >= 1,
            next > leaves,
            out@.len() == next * 8192,
            level_ok(out@, lsn, level@, parts, next),
            level_ok(out@, lsn, parents@, above, next),
            joined(above) == joined(parts.take(i as int)),
            increasing(level@),
            linked(out@, lsn, all, leaves),
            i < total ==> i == parents@.len() * 339,
            i == total ==> (parents@.len() - 1) * 339 < total && parents@.len() > 0,
        decreases total - i,
    {
        let to: usize = if total - i <= BRANCH_CAPACITY {
            total
        } else {
            i + BRANCH_CAPACITY
        };
        proof {
            assert forall|j: int| i <= j < to implies 0 < (#[trigger] level@[j]).1 < next by {
                assert(rooted(out@, lsn, level@[j], parts[j], next));
            }
        }
        let page = branch_page(next, lsn, level, i, to);
        let ghost before = out@;
        let length: usize = out.len();
        proof {
            lemma_append_page(before, page@, next as nat, lsn);
            lemma_branch(
                before,
                page@,
                next,
                lsn,
                level@,
                parts,
                i as int,
                to as int,
            );
        }
        put_bytes(&mut out, page.as_slice());
        let more: usize = out.len();
        parents.push((level[i].0, next));
        proof {
            let part = joined(parts.subrange(i as int, to as int));
            let id = next;
            let later = (next + 1) as u64;
            assert(rooted(before, lsn, level@[i as int], parts[i as int], next));
            lemma_level_kept(before, out@, lsn, level@, parts, next, later);
            let was = parents@.drop_last();
            lemma_level_kept(before, out@, lsn, was, above, next, later);
            let grown = above.push(part);
            assert forall|j: int| 0 <= j < parents@.len() implies #[trigger] rooted(
                out@,
                lsn,
                parents@[j],
                grown[j],
                later,
            ) by {
                if j < was.len() {
                    assert(rooted(out@, lsn, was[j], above[j], later));
                }
            }
            assert(parts.take(to as int) =~= parts.take(i as int) + parts.subrange(
                i as int,
                to as int,
            ));
            lemma_joined_concat(parts.take(i as int), parts.subrange(i as int, to as int));
            assert(grown.drop_last() =~= above);
            assert(joined(grown) == joined(parts.take(to as int)));
            assert(linked(out@, lsn, all, leaves)) by {
                assert forall|j: int| 0 <= j < leaves implies #[trigger] in_place(
                    out@,
                    lsn,
                    all,
                    leaves,
                    j,
                ) by {
                    assert(in_place(before, lsn, all, leaves, j));
                }
                assert forall|m: nat| m > leaves && (#[trigger] node_of(out@, m, lsn))
                    is Some implies kind_of(node_of(out@, m, lsn).unwrap()) != 1 by {
                    if m < id {
                        assert(node_of(before, m, lsn) is Some);
                    }
                }
            }
            above = grown;
        }
        next = next + 1;
        i = to;
    }
    assert(parts.take(total as int) =~= parts);
    (out, parents, next, Ghost(above))
}

proof fn lemma_increasing_push(es: Seq<Entry>, e: Entry)
    requires
        increasing(es),
        es.len() > 0 ==> es.last().0.before(e.0),
    ensures
        increasing(es.push(e)),
{
    reveal(increasing);
    let t = es.push(e);
    assert forall|i: int, j: int| 0 <= i < j < t.len() implies (#[trigger] t[i]).0.before(
        (#[trigger] t[j]).0,
    ) by {
        assert(t[i] == es[i]);
        if j < es.len() {
            assert(t[j] == es[j]);
        } else if i < es.len() - 1 {
            assert(es[i].0.before(es[es.len() - 1].0));
        }
    }
}

} // verus!
