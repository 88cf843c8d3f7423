//! What a plan of collection does: which generations a checkpoint empties, in what order, and how
//! much it moves for that.

use crate::checkpoint::bucket_end;
use crate::checkpoint::chosen;
use crate::checkpoint::stays_whole;
use crate::checkpoint::Checkpoint;
use crate::checkpoint::Choice;
use crate::error::Fault;
use crate::key::increasing;
use crate::key::lemma_listing;
use crate::key::listing;
use crate::key::lists;
use crate::key::OrderedKey;
use crate::maintenance::ascending_stats;
use crate::maintenance::budget_of;
use crate::maintenance::candidate;
use crate::maintenance::candidates;
use crate::maintenance::drained;
use crate::maintenance::fitted;
use crate::maintenance::is_void;
use crate::maintenance::planned;
use crate::maintenance::queue_of;
use crate::maintenance::voids;
use crate::maintenance::Candidate;
use crate::maintenance::GenerationStats;
use crate::maintenance::PlanV;
use crate::partitions::lemma_remapped;
use crate::partitions::place_in;
use crate::partitions::slot_of;
use crate::partitions::Route;
use crate::reader::recent_ids;
use crate::reader::StateV;
use crate::storage::index::Value;
use crate::walks::lemma_recent;
use vstd::prelude::*;

verus! {

/// The live entities of candidates.
spec fn live_sum(q: Seq<Candidate>) -> nat
    decreases q.len(),
{
    if q.len() == 0 {
        0
    } else {
        q[0].live as nat + live_sum(q.skip(1))
    }
}

/// Whether no generation comes twice.
spec fn apart(q: Seq<Candidate>) -> bool {
    forall|i: int, j: int|
        0 <= i < j < q.len() ==> (#[trigger] q[i]).generation != (#[trigger] q[j]).generation
}

/// Whether a plan takes a generation whole.
pub open spec fn whole(quotas: Map<u64, u64>, g: u64) -> bool {
    quotas.contains_key(g) && quotas[g] == u64::MAX
}

/// Whether two plans say the same of a generation.
pub open spec fn alike(a: Map<u64, u64>, b: Map<u64, u64>, g: u64) -> bool {
    a.contains_key(g) == b.contains_key(g) && (a.contains_key(g) ==> a[g] == b[g])
}

/// What draining comes to: the first candidates go whole, the next perhaps in part, and the others
/// stay.
spec fn drained_to(
    q: Seq<Candidate>,
    plan: PlanV,
    budget: u64,
    most: int,
    r: PlanV,
    n: int,
) -> bool {
    &&& 0 <= n <= q.len()
    &&& r.slots == plan.slots - n
    &&& forall|i: int| 0 <= i < n ==> whole(r.quotas, (#[trigger] q[i]).generation)
    &&& forall|i: int| n < i < q.len() ==> alike(r.quotas, plan.quotas, (#[trigger] q[i]).generation)
    &&& forall|g: u64|
        (forall|i: int| 0 <= i < q.len() ==> (#[trigger] q[i]).generation != g)
            ==> #[trigger] alike(r.quotas, plan.quotas, g)
    &&& forall|i: int| 0 <= i < n && (#[trigger] q[i]).dense ==> plan.slots - i > most
    &&& live_sum(q.take(n)) <= budget
    &&& n < q.len() ==> {
        ||| {
            &&& alike(r.quotas, plan.quotas, q[n].generation)
            &&& live_sum(q.take(n)) == budget || (q[n].dense && plan.slots - n <= most)
        }
        ||| {
            let part = r.quotas[q[n].generation];
            &&& r.quotas.contains_key(q[n].generation)
            &&& 0 < part < q[n].live
            &&& live_sum(q.take(n)) + part == budget
            &&& q[n].dense ==> plan.slots - n > most
        }
    }
}

proof fn lemma_drained(q: Seq<Candidate>, plan: PlanV, budget: u64, most: int) -> (n: int)
    requires
        apart(q),
    ensures
        drained_to(q, plan, budget, most, drained(q, plan, budget, most), n),
    decreases q.len(),
{
    let r = drained(q, plan, budget, most);
    assert(q.take(0) =~= Seq::empty());
    if q.len() == 0 || budget == 0 || (q[0].dense && plan.slots <= most) {
        0
    } else if q[0].live > budget {
        assert forall|i: int| 0 < i < q.len() implies alike(
            r.quotas,
            plan.quotas,
            (#[trigger] q[i]).generation,
        ) by {
            assert(q[0].generation != q[i].generation);
        }
        0
    } else {
        let left = (budget - q[0].live) as u64;
        let next = PlanV {
            quotas: plan.quotas.insert(q[0].generation, u64::MAX),
            slots: plan.slots - 1,
        };
        let t = q.skip(1);
        assert forall|i: int, j: int| 0 <= i < j < t.len() implies (#[trigger] t[i]).generation != (
        #[trigger] t[j]).generation by {
            assert(q[i + 1].generation != q[j + 1].generation);
        }
        let m = lemma_drained(t, next, left, most);
        assert forall|i: int| 0 <= i < t.len() implies (#[trigger] t[i]).generation
            != q[0].generation by {
            assert(q[0].generation != q[i + 1].generation);
        }
        assert(alike(r.quotas, next.quotas, q[0].generation));
        let n = m + 1;
        assert(q.take(n)[0] == q[0]);
        assert(q.take(n).skip(1) =~= t.take(m));
        assert forall|i: int| 0 <= i < n implies whole(r.quotas, (#[trigger] q[i]).generation) by {
            if i > 0 {
                assert(t[i - 1] == q[i]);
            }
        }
        assert forall|i: int| n < i < q.len() implies alike(
            r.quotas,
            plan.quotas,
            (#[trigger] q[i]).generation,
        ) by {
            assert(t[i - 1] == q[i]);
            assert(alike(r.quotas, next.quotas, t[i - 1].generation));
        }
        assert forall|g: u64|
            (forall|i: int| 0 <= i < q.len() ==> (#[trigger] q[i]).generation
                != g) implies #[trigger] alike(r.quotas, plan.quotas, g) by {
            assert forall|i: int| 0 <= i < t.len() implies (#[trigger] t[i]).generation != g by {
                assert(q[i + 1].generation != g);
            }
            assert(q[0].generation != g);
            assert(alike(r.quotas, next.quotas, g));
        }
        assert forall|i: int| 0 <= i < n && (#[trigger] q[i]).dense implies plan.slots - i > most by {
            if i > 0 {
                assert(t[i - 1] == q[i]);
            }
        }
        if n < q.len() {
            assert(t[m] == q[n]);
            assert(q[0].generation != q[n].generation);
        }
        n
    }
}

/// What making a manifest fit comes to: the first candidates go whole, and the others stay.
spec fn fitted_to(q: Seq<Candidate>, plan: PlanV, m: int, r: PlanV, n: int) -> bool {
    &&& m <= n <= q.len()
    &&& r.slots == plan.slots - (n - m)
    &&& forall|i: int| 0 <= i < n ==> whole(r.quotas, (#[trigger] q[i]).generation)
    &&& forall|i: int| n <= i < q.len() ==> alike(r.quotas, plan.quotas, (#[trigger] q[i]).generation)
    &&& forall|g: u64|
        (forall|i: int| 0 <= i < q.len() ==> (#[trigger] q[i]).generation != g)
            ==> #[trigger] alike(r.quotas, plan.quotas, g)
    &&& r.slots < 256 || n == q.len()
    &&& n > m ==> r.slots + 1 >= 256
}

proof fn lemma_fitted(q: Seq<Candidate>, plan: PlanV, m: int) -> (n: int)
    requires
        apart(q),
        0 <= m <= q.len(),
        forall|i: int| 0 <= i < m ==> whole(plan.quotas, (#[trigger] q[i]).generation),
        forall|i: int| m <= i < q.len() ==> !whole(plan.quotas, (#[trigger] q[i]).generation),
    ensures
        fitted_to(q, plan, m, fitted(q, plan), n),
    decreases q.len(),
{
    let r = fitted(q, plan);
    if q.len() == 0 || plan.slots < 256 {
        m
    } else {
        let g = q[0].generation;
        let t = q.skip(1);
        let had = whole(plan.quotas, g);
        let next = PlanV {
            quotas: plan.quotas.insert(g, u64::MAX),
            slots: if had {
                plan.slots
            } else {
                plan.slots - 1
            },
        };
        assert forall|i: int, j: int| 0 <= i < j < t.len() implies (#[trigger] t[i]).generation != (
        #[trigger] t[j]).generation by {
            assert(q[i + 1].generation != q[j + 1].generation);
        }
        assert forall|i: int| 0 <= i < t.len() implies (#[trigger] t[i]).generation != g by {
            assert(q[0].generation != q[i + 1].generation);
        }
        let k: int = if m > 0 {
            m - 1
        } else {
            0
        };
        assert forall|i: int| 0 <= i < k implies whole(next.quotas, (#[trigger] t[i]).generation) by {
            assert(t[i] == q[i + 1]);
        }
        assert forall|i: int| k <= i < t.len() implies !whole(
            next.quotas,
            (#[trigger] t[i]).generation,
        ) by {
            assert(t[i] == q[i + 1]);
            assert(t[i].generation != g);
        }
        if m > 0 {
            assert(whole(plan.quotas, q[0].generation));
        } else {
            assert(!whole(plan.quotas, q[0].generation));
        }
        let n = lemma_fitted(t, next, k) + 1;
        assert(alike(r.quotas, next.quotas, g));
        assert forall|i: int| 0 <= i < n implies whole(r.quotas, (#[trigger] q[i]).generation) by {
            if i > 0 {
                assert(t[i - 1] == q[i]);
            }
        }
        assert forall|i: int| n <= i < q.len() implies alike(
            r.quotas,
            plan.quotas,
            (#[trigger] q[i]).generation,
        ) by {
            assert(t[i - 1] == q[i]);
            assert(alike(r.quotas, next.quotas, t[i - 1].generation));
        }
        assert forall|x: u64|
            (forall|i: int| 0 <= i < q.len() ==> (#[trigger] q[i]).generation
                != x) implies #[trigger] alike(r.quotas, plan.quotas, x) by {
            assert forall|i: int| 0 <= i < t.len() implies (#[trigger] t[i]).generation != x by {
                assert(q[i + 1].generation != x);
            }
            assert(q[0].generation != x);
            assert(alike(r.quotas, next.quotas, x));
        }
        n
    }
}

// ---- The plan over the generations ----

/// The entities of a generation that are live.
pub open spec fn live_of(g: GenerationStats) -> int {
    g.entities - g.dead
}

/// Whether a generation goes before another: one that has lost its density before one that has
/// not, then the one with fewer live entities, then the older one.
pub open spec fn goes_first(
    stats: Seq<GenerationStats>,
    sparse: Seq<bool>,
    i: int,
    j: int,
) -> bool {
    if sparse[i] != sparse[j] {
        sparse[i]
    } else if live_of(stats[i]) != live_of(stats[j]) {
        live_of(stats[i]) < live_of(stats[j])
    } else {
        stats[i].generation < stats[j].generation
    }
}

/// How many generations a plan leaves.
pub open spec fn left(stats: Seq<GenerationStats>, quotas: Map<u64, u64>) -> nat
    decreases stats.len(),
{
    if stats.len() == 0 {
        0
    } else {
        left(stats.drop_last(), quotas) + if whole(quotas, stats.last().generation) {
            0nat
        } else {
            1nat
        }
    }
}

/// How many live entities of a generation a plan moves.
pub open spec fn share(quotas: Map<u64, u64>, generation: u64, live: int) -> int {
    if !quotas.contains_key(generation) {
        0
    } else if quotas[generation] < live {
        quotas[generation] as int
    } else {
        live
    }
}

/// How many live entities a plan moves.
pub open spec fn moved(stats: Seq<GenerationStats>, quotas: Map<u64, u64>) -> int
    decreases stats.len(),
{
    if stats.len() == 0 {
        0
    } else {
        moved(stats.drop_last(), quotas) + if live_of(stats.last()) > 0 {
            share(quotas, stats.last().generation, live_of(stats.last()))
        } else {
            0
        }
    }
}

spec fn is_candidate(
    stats: Seq<GenerationStats>,
    sparse: Seq<bool>,
    i: int,
    c: Candidate,
) -> bool {
    0 <= i < stats.len() && !is_void(stats[i]) && c == candidate(stats[i], sparse[i])
}

/// Whether a candidate is that of a generation with live entities.
spec fn stands_for(stats: Seq<GenerationStats>, sparse: Seq<bool>, c: Candidate) -> bool {
    exists|i: int| #[trigger] is_candidate(stats, sparse, i, c)
}

proof fn lemma_candidates(stats: Seq<GenerationStats>, sparse: Seq<bool>)
    ensures
        candidates(stats, sparse).dom().finite(),
        forall|c: Candidate| #[trigger]
            candidates(stats, sparse).contains_key(c) <==> exists|i: int| #[trigger]
                is_candidate(stats, sparse, i, c),
    decreases stats.len(),
{
    let m = candidates(stats, sparse);
    if stats.len() > 0 {
        let front = stats.drop_last();
        let n = stats.len() - 1;
        lemma_candidates(front, sparse);
        let f = candidates(front, sparse);
        assert forall|c: Candidate| #[trigger] m.contains_key(c) <==> exists|i: int| #[trigger]
            is_candidate(stats, sparse, i, c) by {
            if f.contains_key(c) {
                let i = choose|i: int| #[trigger] is_candidate(front, sparse, i, c);
                assert(is_candidate(stats, sparse, i, c));
            } else if m.contains_key(c) {
                assert(is_candidate(stats, sparse, n, c));
            }
            if exists|i: int| #[trigger] is_candidate(stats, sparse, i, c) {
                let i = choose|i: int| #[trigger] is_candidate(stats, sparse, i, c);
                if i < n {
                    assert(is_candidate(front, sparse, i, c));
                }
            }
        }
    }
}

proof fn lemma_void(stats: Seq<GenerationStats>)
    ensures
        voids(stats).dom().finite(),
        forall|g: u64| #[trigger]
            voids(stats).contains_key(g) <==> exists|i: int|
                0 <= i < stats.len() && (#[trigger] stats[i]).generation == g && is_void(stats[i]),
        forall|g: u64| #[trigger] voids(stats).contains_key(g) ==> voids(stats)[g] == u64::MAX,
    decreases stats.len(),
{
    if stats.len() > 0 {
        let front = stats.drop_last();
        let n = stats.len() - 1;
        lemma_void(front);
        assert forall|g: u64| #[trigger] voids(stats).contains_key(g) <==> exists|i: int|
            0 <= i < stats.len() && (#[trigger] stats[i]).generation == g && is_void(stats[i]) by {
            if voids(front).contains_key(g) {
                let i = choose|i: int|
                    0 <= i < front.len() && (#[trigger] front[i]).generation == g && is_void(
                        front[i],
                    );
                assert(stats[i] == front[i]);
            } else if voids(stats).contains_key(g) {
                assert(stats[n].generation == g);
            }
            if exists|i: int|
                0 <= i < stats.len() && (#[trigger] stats[i]).generation == g && is_void(stats[i]) {
                let i = choose|i: int|
                    0 <= i < stats.len() && (#[trigger] stats[i]).generation == g && is_void(
                        stats[i],
                    );
                if i < n {
                    assert(front[i] == stats[i]);
                }
            }
        }
    } else {
        assert(voids(stats).dom() =~= Set::empty());
    }
}

/// The queue holds the generations with live entities, each once, in the order in which they go.
proof fn lemma_queue(stats: Seq<GenerationStats>, sparse: Seq<bool>)
    requires
        ascending_stats(stats),
    ensures
        ({
            let q = queue_of(stats, sparse);
            &&& apart(q)
            &&& q.no_duplicates()
            &&& forall|k: int|
                0 <= k < q.len() ==> stands_for(stats, sparse, #[trigger] q[k])
            &&& forall|i: int, c: Candidate| #[trigger]
                is_candidate(stats, sparse, i, c) ==> q.contains(c)
            &&& forall|k: int, l: int|
                0 <= k < l < q.len() ==> (#[trigger] q[k]).before(#[trigger] q[l])
        }),
{
    let m = candidates(stats, sparse);
    let s = listing(m);
    let q = queue_of(stats, sparse);
    lemma_candidates(stats, sparse);
    lemma_listing(m);
    reveal(lists);
    reveal(increasing);
    Candidate::order_laws();
    assert forall|k: int| 0 <= k < q.len() implies stands_for(
        stats,
        sparse,
        #[trigger] q[k],
    ) by {
        assert(q[k] == s[k].0);
        assert(m.contains_key(s[k].0));
    }
    assert forall|k: int, l: int| 0 <= k < l < q.len() implies (#[trigger] q[k]).before(
        #[trigger] q[l],
    ) by {
        assert(q[k] == s[k].0 && q[l] == s[l].0);
        assert(s[k].0.before(s[l].0));
    }
    assert forall|k: int, l: int| 0 <= k < l < q.len() implies (#[trigger] q[k]).generation != (
    #[trigger] q[l]).generation by {
        let i = choose|i: int| #[trigger] is_candidate(stats, sparse, i, q[k]);
        let j = choose|j: int| #[trigger] is_candidate(stats, sparse, j, q[l]);
        assert(q[k].before(q[l]));
        if i < j {
            assert(stats[i].generation < stats[j].generation);
        } else if j < i {
            assert(stats[j].generation < stats[i].generation);
        }
    }
    assert(q.no_duplicates()) by {
        assert forall|k: int, l: int| 0 <= k < q.len() && 0 <= l < q.len() && k != l implies q[k]
            != q[l] by {
            if k < l {
                assert(q[k].generation != q[l].generation);
            } else {
                assert(q[l].generation != q[k].generation);
            }
        }
    }
    assert forall|i: int, c: Candidate| #[trigger]
        is_candidate(stats, sparse, i, c) implies q.contains(c) by {
        assert(m.contains_key(c));
        let k = choose|k: int| 0 <= k < s.len() && (#[trigger] s[k]).0 == c;
        assert(q[k] == c);
    }
}

proof fn lemma_left(stats: Seq<GenerationStats>, quotas: Map<u64, u64>, gone: Set<u64>)
    requires
        ascending_stats(stats),
        forall|g: u64| #[trigger]
            gone.contains(g) <==> whole(quotas, g) && exists|i: int|
                0 <= i < stats.len() && (#[trigger] stats[i]).generation == g,
    ensures
        gone.finite(),
        left(stats, quotas) + gone.len() == stats.len(),
    decreases stats.len(),
{
    if stats.len() == 0 {
        assert(gone =~= Set::empty());
    } else {
        let front = stats.drop_last();
        let last = stats.last().generation;
        let rest = gone.remove(last);
        assert forall|i: int, j: int| 0 <= i < j < front.len() implies (
        #[trigger] front[i]).generation < (#[trigger] front[j]).generation by {
            assert(stats[i].generation < stats[j].generation);
        }
        assert forall|g: u64| #[trigger] rest.contains(g) <==> whole(quotas, g) && exists|i: int|
            0 <= i < front.len() && (#[trigger] front[i]).generation == g by {
            if exists|i: int| 0 <= i < front.len() && (#[trigger] front[i]).generation == g {
                let i = choose|i: int| 0 <= i < front.len() && (#[trigger] front[i]).generation == g;
                assert(stats[i] == front[i]);
                assert(stats[i].generation < stats[stats.len() - 1].generation);
            }
            if rest.contains(g) {
                let i = choose|i: int| 0 <= i < stats.len() && (#[trigger] stats[i]).generation == g;
                assert(i < stats.len() - 1);
                assert(front[i] == stats[i]);
            }
        }
        lemma_left(front, quotas, rest);
        assert(stats[stats.len() - 1].generation == last);
        if whole(quotas, last) {
            assert(gone.contains(last));
            assert(gone =~= rest.insert(last));
        } else {
            assert(gone =~= rest);
        }
    }
}

spec fn share_sum(q: Seq<Candidate>, quotas: Map<u64, u64>) -> int
    decreases q.len(),
{
    if q.len() == 0 {
        0
    } else {
        share(quotas, q[0].generation, q[0].live as int) + share_sum(q.skip(1), quotas)
    }
}

proof fn lemma_share_remove(q: Seq<Candidate>, quotas: Map<u64, u64>, k: int)
    requires
        0 <= k < q.len(),
    ensures
        share_sum(q, quotas) == share_sum(q.remove(k), quotas) + share(
            quotas,
            q[k].generation,
            q[k].live as int,
        ),
    decreases q.len(),
{
    if k == 0 {
        assert(q.remove(0) =~= q.skip(1));
    } else {
        lemma_share_remove(q.skip(1), quotas, k - 1);
        assert(q.remove(k)[0] == q[0]);
        assert(q.remove(k).skip(1) =~= q.skip(1).remove(k - 1));
    }
}

/// The entities that a plan moves are those of the queue.
proof fn lemma_moved(
    stats: Seq<GenerationStats>,
    sparse: Seq<bool>,
    quotas: Map<u64, u64>,
    q: Seq<Candidate>,
)
    requires
        ascending_stats(stats),
        q.no_duplicates(),
        forall|c: Candidate| #[trigger]
            q.contains(c) <==> exists|i: int| #[trigger] is_candidate(stats, sparse, i, c),
    ensures
        moved(stats, quotas) == share_sum(q, quotas),
    decreases stats.len(),
{
    if stats.len() == 0 {
        if q.len() > 0 {
            assert(q.contains(q[0]));
        }
    } else {
        let front = stats.drop_last();
        let n = stats.len() - 1;
        let c = candidate(stats[n], sparse[n]);
        assert forall|i: int, j: int| 0 <= i < j < front.len() implies (
        #[trigger] front[i]).generation < (#[trigger] front[j]).generation by {
            assert(stats[i].generation < stats[j].generation);
        }
        if is_void(stats[n]) {
            assert forall|x: Candidate| #[trigger] q.contains(x) <==> exists|i: int| #[trigger]
                is_candidate(front, sparse, i, x) by {
                if q.contains(x) {
                    let i = choose|i: int| #[trigger] is_candidate(stats, sparse, i, x);
                    assert(is_candidate(front, sparse, i, x));
                }
                if exists|i: int| #[trigger] is_candidate(front, sparse, i, x) {
                    let i = choose|i: int| #[trigger] is_candidate(front, sparse, i, x);
                    assert(is_candidate(stats, sparse, i, x));
                }
            }
            lemma_moved(front, sparse, quotas, q);
        } else {
            assert(is_candidate(stats, sparse, n, c));
            assert(q.contains(c));
            let k = choose|k: int| 0 <= k < q.len() && q[k] == c;
            let r = q.remove(k);
            assert(r =~= q.take(k) + q.skip(k + 1));
            assert forall|x: Candidate| #[trigger] r.contains(x) <==> exists|i: int| #[trigger]
                is_candidate(front, sparse, i, x) by {
                if r.contains(x) {
                    let a = choose|a: int| 0 <= a < r.len() && r[a] == x;
                    let b = if a < k {
                        a
                    } else {
                        a + 1
                    };
                    assert(q[b] == x && b != k);
                    assert(q.contains(x));
                    let i = choose|i: int| #[trigger] is_candidate(stats, sparse, i, x);
                    assert(i != n);
                    assert(is_candidate(front, sparse, i, x));
                }
                if exists|i: int| #[trigger] is_candidate(front, sparse, i, x) {
                    let i = choose|i: int| #[trigger] is_candidate(front, sparse, i, x);
                    assert(is_candidate(stats, sparse, i, x));
                    assert(stats[i].generation < stats[n].generation);
                    assert(q.contains(x));
                    let b = choose|b: int| 0 <= b < q.len() && q[b] == x;
                    if b < k {
                        assert(r[b] == x);
                    } else {
                        assert(r[b - 1] == x);
                    }
                }
            }
            assert(r.no_duplicates());
            lemma_moved(front, sparse, quotas, r);
            lemma_share_remove(q, quotas, k);
        }
    }
}

proof fn lemma_share_none(q: Seq<Candidate>, quotas: Map<u64, u64>)
    requires
        forall|i: int| 0 <= i < q.len() ==> !quotas.contains_key((#[trigger] q[i]).generation),
    ensures
        share_sum(q, quotas) == 0,
    decreases q.len(),
{
    if q.len() > 0 {
        assert forall|i: int| 0 <= i < q.skip(1).len() implies !quotas.contains_key(
            (#[trigger] q.skip(1)[i]).generation,
        ) by {
            assert(q.skip(1)[i] == q[i + 1]);
        }
        lemma_share_none(q.skip(1), quotas);
    }
}

/// What is moved of a queue whose first candidates go whole, the next in part, and no other.
proof fn lemma_share_front(q: Seq<Candidate>, quotas: Map<u64, u64>, n: int)
    requires
        0 <= n <= q.len(),
        forall|i: int| 0 <= i < n ==> whole(quotas, (#[trigger] q[i]).generation),
        forall|i: int| n < i < q.len() ==> !quotas.contains_key((#[trigger] q[i]).generation),
    ensures
        share_sum(q, quotas) == live_sum(q.take(n)) + if n < q.len() {
            share(quotas, q[n].generation, q[n].live as int)
        } else {
            0
        },
    decreases q.len(),
{
    if n == 0 {
        assert(q.take(0) =~= Seq::empty());
        if q.len() > 0 {
            assert forall|i: int| 0 <= i < q.skip(1).len() implies !quotas.contains_key(
                (#[trigger] q.skip(1)[i]).generation,
            ) by {
                assert(q.skip(1)[i] == q[i + 1]);
            }
            lemma_share_none(q.skip(1), quotas);
        }
    } else {
        let t = q.skip(1);
        assert forall|i: int| 0 <= i < n - 1 implies whole(quotas, (#[trigger] t[i]).generation) by {
            assert(t[i] == q[i + 1]);
        }
        assert forall|i: int| n - 1 < i < t.len() implies !quotas.contains_key(
            (#[trigger] t[i]).generation,
        ) by {
            assert(t[i] == q[i + 1]);
        }
        lemma_share_front(t, quotas, n - 1);
        assert(q.take(n)[0] == q[0]);
        assert(q.take(n).skip(1) =~= t.take(n - 1));
        assert(whole(quotas, q[0].generation));
        if n < q.len() {
            assert(t[n - 1] == q[n]);
        }
    }
}

/// A plan of collection empties generations in order. Those with nothing live go in any case, and
/// of the others one goes, or a part of one, only where all that go first are emptied whole; a
/// part is less than what is live. One that has kept its density goes only where the generations
/// would be more than they may be. Afterwards a manifest has room for one generation more, and
/// unless the room had to be made, no more entities are moved than the limit, if there is one.
pub proof fn lemma_plan(
    stats: Seq<GenerationStats>,
    sparse: Seq<bool>,
    most: usize,
    limit: usize,
)
    requires
        ascending_stats(stats),
        stats.len() == sparse.len(),
    ensures
        ({
            let quotas = planned(stats, sparse, most, limit);
            &&& forall|i: int|
                0 <= i < stats.len() && live_of(#[trigger] stats[i]) <= 0 ==> whole(
                    quotas,
                    stats[i].generation,
                )
            &&& forall|g: u64| #[trigger]
                quotas.contains_key(g) ==> exists|i: int|
                    0 <= i < stats.len() && (#[trigger] stats[i]).generation == g && (quotas[g]
                        == u64::MAX || 0 < quotas[g] < live_of(stats[i]))
            &&& forall|i: int, j: int|
                0 <= i < stats.len() && 0 <= j < stats.len() && live_of(#[trigger] stats[i]) > 0
                    && live_of(#[trigger] stats[j]) > 0 && goes_first(stats, sparse, i, j)
                    && quotas.contains_key(stats[j].generation) ==> whole(
                    quotas,
                    stats[i].generation,
                )
            &&& stats.len() + 1 <= most && stats.len() + 1 < 256 ==> forall|i: int|
                0 <= i < stats.len() && live_of(#[trigger] stats[i]) > 0 && !sparse[i]
                    ==> !quotas.contains_key(stats[i].generation)
            &&& left(stats, quotas) + 1 < 256 || left(stats, quotas) == 0
            &&& limit != 0 && stats.len() + 1 < 256 ==> moved(stats, quotas) <= limit
        }),
{
    let q = queue_of(stats, sparse);
    let budget = budget_of(limit);
    let first = PlanV {
        quotas: voids(stats),
        slots: stats.len() - voids(stats).dom().len() + 1,
    };
    lemma_queue(stats, sparse);
    lemma_void(stats);
    let mid = drained(q, first, budget, most as int);
    let n = lemma_drained(q, first, budget, most as int);
    assert forall|k: int| 0 <= k < q.len() implies !voids(stats).contains_key(
        (#[trigger] q[k]).generation,
    ) by {
        let i = choose|i: int| #[trigger] is_candidate(stats, sparse, i, q[k]);
        if voids(stats).contains_key(q[k].generation) {
            let j = choose|j: int|
                0 <= j < stats.len() && (#[trigger] stats[j]).generation == q[k].generation
                    && is_void(stats[j]);
            if i < j {
                assert(stats[i].generation < stats[j].generation);
            } else if j < i {
                assert(stats[j].generation < stats[i].generation);
            }
        }
    }
    assert forall|i: int| n <= i < q.len() implies !whole(
        mid.quotas,
        (#[trigger] q[i]).generation,
    ) by {
        if i > n {
            assert(alike(mid.quotas, first.quotas, q[i].generation));
        }
    }
    let m = lemma_fitted(q, mid, n);
    let end = fitted(q, mid);
    let quotas = end.quotas;
    assert(quotas == planned(stats, sparse, most, limit));
    assert forall|i: int| 0 <= i < stats.len() && live_of(#[trigger] stats[i]) <= 0 implies whole(
        quotas,
        stats[i].generation,
    ) by {
        let g = stats[i].generation;
        assert(is_void(stats[i]));
        assert(voids(stats).contains_key(g));
        assert forall|k: int| 0 <= k < q.len() implies (#[trigger] q[k]).generation != g by {
        }
        assert(alike(mid.quotas, first.quotas, g));
        assert(alike(quotas, mid.quotas, g));
    }
    assert forall|g: u64| #[trigger] quotas.contains_key(g) implies exists|i: int|
        0 <= i < stats.len() && (#[trigger] stats[i]).generation == g && (quotas[g] == u64::MAX || 0
            < quotas[g] < live_of(stats[i])) by {
        lemma_where(stats, sparse, q, first, mid, end, n, m, g);
    }
    assert forall|i: int, j: int|
        0 <= i < stats.len() && 0 <= j < stats.len() && live_of(#[trigger] stats[i]) > 0 && live_of(
            #[trigger] stats[j],
        ) > 0 && goes_first(stats, sparse, i, j) && quotas.contains_key(
            stats[j].generation,
        ) implies whole(quotas, stats[i].generation) by {
        let (a, b) = (candidate(stats[i], sparse[i]), candidate(stats[j], sparse[j]));
        assert(is_candidate(stats, sparse, i, a));
        assert(is_candidate(stats, sparse, j, b));
        let k = choose|k: int| 0 <= k < q.len() && q[k] == a;
        let l = choose|l: int| 0 <= l < q.len() && q[l] == b;
        assert(a.before(b));
        if l < k {
            assert(q[l].before(q[k]));
        }
        assert(k < l);
        if l >= m {
            assert(alike(quotas, mid.quotas, q[l].generation));
            if l > n {
                assert(alike(mid.quotas, first.quotas, q[l].generation));
            }
            assert(l == n);
        }
        assert(whole(quotas, q[k].generation));
    }
    if stats.len() + 1 <= most && stats.len() + 1 < 256 {
        assert forall|i: int|
            0 <= i < stats.len() && live_of(#[trigger] stats[i]) > 0 && !sparse[
                i
            ] implies !quotas.contains_key(stats[i].generation) by {
            let a = candidate(stats[i], sparse[i]);
            assert(is_candidate(stats, sparse, i, a));
            let k = choose|k: int| 0 <= k < q.len() && q[k] == a;
            assert(q[k].dense);
            assert(m == n);
            assert(alike(quotas, mid.quotas, q[k].generation) || k < n);
            if k > n {
                assert(alike(mid.quotas, first.quotas, q[k].generation));
            }
        }
    }
    lemma_plan_room(stats, sparse, q, quotas, first, mid, end, n, m);
    if limit != 0 && stats.len() + 1 < 256 {
        assert(m == n);
        assert forall|i: int| 0 <= i < n implies whole(quotas, (#[trigger] q[i]).generation) by {
        }
        assert forall|i: int| n < i < q.len() implies !quotas.contains_key(
            (#[trigger] q[i]).generation,
        ) by {
            assert(alike(quotas, mid.quotas, q[i].generation));
            assert(alike(mid.quotas, first.quotas, q[i].generation));
        }
        lemma_share_front(q, quotas, n);
        if n < q.len() {
            assert(alike(quotas, mid.quotas, q[n].generation));
        }
        assert forall|c: Candidate| #[trigger] q.contains(c) <==> exists|i: int| #[trigger]
            is_candidate(stats, sparse, i, c) by {
            if q.contains(c) {
                let k = choose|k: int| 0 <= k < q.len() && q[k] == c;
                assert(stands_for(stats, sparse, q[k]));
            }
        }
        lemma_moved(stats, sparse, quotas, q);
    }
}

proof fn lemma_where(
    stats: Seq<GenerationStats>,
    sparse: Seq<bool>,
    q: Seq<Candidate>,
    first: PlanV,
    mid: PlanV,
    end: PlanV,
    n: int,
    m: int,
    g: u64,
)
    requires
        first.quotas == voids(stats),
        exists|budget: u64, most: int| #[trigger] drained_to(q, first, budget, most, mid, n),
        fitted_to(q, mid, n, end, m),
        end.quotas.contains_key(g),
        forall|k: int|
            0 <= k < q.len() ==> stands_for(stats, sparse, #[trigger] q[k]),
        forall|k: int|
            0 <= k < q.len() ==> !voids(stats).contains_key((#[trigger] q[k]).generation),
    ensures
        exists|i: int|
            0 <= i < stats.len() && (#[trigger] stats[i]).generation == g && (end.quotas[g]
                == u64::MAX || 0 < end.quotas[g] < live_of(stats[i])),
{
    lemma_void(stats);
    let (budget, most) = choose|budget: u64, most: int| #[trigger]
        drained_to(q, first, budget, most, mid, n);
    if exists|k: int| 0 <= k < q.len() && (#[trigger] q[k]).generation == g {
        let k = choose|k: int| 0 <= k < q.len() && (#[trigger] q[k]).generation == g;
        let i = choose|i: int| #[trigger] is_candidate(stats, sparse, i, q[k]);
        assert(stats[i].generation == g);
        if k < m {
            assert(whole(end.quotas, q[k].generation));
        } else {
            assert(alike(end.quotas, mid.quotas, q[k].generation));
            if k > n {
                assert(alike(mid.quotas, first.quotas, q[k].generation));
            }
        }
    } else {
        assert(alike(mid.quotas, first.quotas, g));
        assert(alike(end.quotas, mid.quotas, g));
    }
}

proof fn lemma_plan_room(
    stats: Seq<GenerationStats>,
    sparse: Seq<bool>,
    q: Seq<Candidate>,
    quotas: Map<u64, u64>,
    first: PlanV,
    mid: PlanV,
    end: PlanV,
    n: int,
    m: int,
)
    requires
        ascending_stats(stats),
        stats.len() == sparse.len(),
        q == queue_of(stats, sparse),
        first == (PlanV {
            quotas: voids(stats),
            slots: stats.len() - voids(stats).dom().len() + 1,
        }),
        exists|budget: u64, most: int| #[trigger] drained_to(q, first, budget, most, mid, n),
        fitted_to(q, mid, n, end, m),
        quotas == end.quotas,
        forall|k: int|
            0 <= k < q.len() ==> !voids(stats).contains_key((#[trigger] q[k]).generation),
    ensures
        left(stats, quotas) + 1 < 256 || left(stats, quotas) == 0,
{
    lemma_queue(stats, sparse);
    lemma_void(stats);
    let (budget, most) = choose|budget: u64, most: int| #[trigger]
        drained_to(q, first, budget, most, mid, n);
    let v = voids(stats).dom();
    let gens = q.take(m).map_values(|c: Candidate| c.generation);
    assert(gens.no_duplicates()) by {
        assert forall|i: int, j: int| 0 <= i < gens.len() && 0 <= j < gens.len() && i != j implies gens[i]
            != gens[j] by {
            if i < j {
                assert(q[i].generation != q[j].generation);
            } else {
                assert(q[j].generation != q[i].generation);
            }
        }
    }
    gens.unique_seq_to_set();
    let went = gens.to_set();
    let gone = v.union(went);
    assert forall|g: u64| #[trigger] went.contains(g) implies exists|k: int|
        0 <= k < m && (#[trigger] q[k]).generation == g by {
        let k = choose|k: int| 0 <= k < gens.len() && gens[k] == g;
        assert(q[k].generation == g);
    }
    assert forall|g: u64| #[trigger] gone.contains(g) <==> whole(quotas, g) && exists|i: int|
        0 <= i < stats.len() && (#[trigger] stats[i]).generation == g by {
        if went.contains(g) {
            let k = choose|k: int| 0 <= k < m && (#[trigger] q[k]).generation == g;
            let i = choose|i: int| #[trigger] is_candidate(stats, sparse, i, q[k]);
            assert(stats[i].generation == g);
            assert(whole(quotas, q[k].generation));
        } else if v.contains(g) {
            assert(voids(stats).contains_key(g));
            assert forall|k: int| 0 <= k < q.len() implies (#[trigger] q[k]).generation != g by {
            }
            assert(alike(mid.quotas, first.quotas, g));
            assert(alike(end.quotas, mid.quotas, g));
        } else if whole(quotas, g) {
            if exists|k: int| 0 <= k < q.len() && (#[trigger] q[k]).generation == g {
                let k = choose|k: int| 0 <= k < q.len() && (#[trigger] q[k]).generation == g;
                if k < m {
                    assert(gens[k] == g);
                    assert(went.contains(g));
                } else {
                    assert(alike(end.quotas, mid.quotas, q[k].generation));
                    if k > n {
                        assert(alike(mid.quotas, first.quotas, q[k].generation));
                    }
                }
            } else {
                assert(alike(mid.quotas, first.quotas, g));
                assert(alike(end.quotas, mid.quotas, g));
            }
        }
    }
    assert(v.disjoint(went)) by {
        assert forall|g: u64| !(#[trigger] v.contains(g) && went.contains(g)) by {
            if went.contains(g) {
                let k = choose|k: int| 0 <= k < m && (#[trigger] q[k]).generation == g;
                assert(!voids(stats).contains_key(q[k].generation));
            }
        }
    }
    vstd::set_lib::lemma_set_disjoint_lens(v, went);
    lemma_left(stats, quotas, gone);
    assert(gone =~= v + went);
    assert(left(stats, quotas) == end.slots - 1);
    if m == q.len() && end.slots >= 256 {
        lemma_all_gone(stats, sparse, q, quotas, v, went);
    }
}

proof fn lemma_all_gone(
    stats: Seq<GenerationStats>,
    sparse: Seq<bool>,
    q: Seq<Candidate>,
    quotas: Map<u64, u64>,
    v: Set<u64>,
    went: Set<u64>,
)
    requires
        ascending_stats(stats),
        stats.len() == sparse.len(),
        q == queue_of(stats, sparse),
        v == voids(stats).dom(),
        went == q.take(q.len() as int).map_values(|c: Candidate| c.generation).to_set(),
        forall|g: u64| #[trigger]
            v.union(went).contains(g) <==> whole(quotas, g) && exists|i: int|
                0 <= i < stats.len() && (#[trigger] stats[i]).generation == g,
    ensures
        left(stats, quotas) == 0,
{
    lemma_queue(stats, sparse);
    lemma_void(stats);
    let gens = q.take(q.len() as int).map_values(|c: Candidate| c.generation);
    assert forall|i: int| 0 <= i < stats.len() implies whole(
        quotas,
        (#[trigger] stats[i]).generation,
    ) by {
        let g = stats[i].generation;
        if is_void(stats[i]) {
            assert(voids(stats).contains_key(g));
        } else {
            let c = candidate(stats[i], sparse[i]);
            assert(is_candidate(stats, sparse, i, c));
            let k = choose|k: int| 0 <= k < q.len() && q[k] == c;
            assert(gens[k] == g);
            assert(went.contains(g));
        }
        assert(v.union(went).contains(g));
    }
    lemma_none_left(stats, quotas);
}

proof fn lemma_none_left(stats: Seq<GenerationStats>, quotas: Map<u64, u64>)
    requires
        forall|i: int| 0 <= i < stats.len() ==> whole(quotas, (#[trigger] stats[i]).generation),
    ensures
        left(stats, quotas) == 0,
    decreases stats.len(),
{
    if stats.len() > 0 {
        assert forall|i: int| 0 <= i < stats.drop_last().len() implies whole(
            quotas,
            (#[trigger] stats.drop_last()[i]).generation,
        ) by {
            assert(stats.drop_last()[i] == stats[i]);
        }
        assert(whole(quotas, stats[stats.len() - 1].generation));
        lemma_none_left(stats.drop_last(), quotas);
    }
}

// ---- What becomes of an entity ----

/// An entity that was changed is written anew, and so is one without an entry and one whose
/// generation goes. Only one that was not changed, in a generation that stays and is not drained,
/// keeps its records: its entry leads to the same places under the new slot. A copy is left behind
/// exactly in a generation that stays; for an entity that was not changed it counts against the
/// quota of that generation, and every other quota stays.
pub proof fn lemma_choice(
    slots: Seq<Option<u8>>,
    quotas: Seq<u64>,
    touched: bool,
    v: Value,
    before: u8,
)
    requires
        slots.len() == 256,
        quotas.len() == 256,
        slot_of(v.0) == before,
        slot_of(v.1) == before,
    ensures
        chosen(slots, quotas, touched, None) == Ok::<_, Fault>(
            (Choice::Write, None::<u8>, quotas),
        ),
        chosen(slots, quotas, touched, Some(v)) is Ok,
        ({
            let (choice, dead, left) = chosen(slots, quotas, touched, Some(v))->Ok_0;
            match slots[before as int] {
                None => choice is Write && dead is None && left == quotas,
                Some(slot) => if touched {
                    choice is Write && dead == Some(slot) && left == quotas
                } else if quotas[slot as int] > 0 {
                    &&& choice is Write && dead == Some(slot)
                    &&& left.len() == quotas.len()
                    &&& left[slot as int] == quotas[slot as int] - 1
                    &&& forall|k: int|
                        0 <= k < quotas.len() && k != slot ==> #[trigger] left[k] == quotas[k]
                } else {
                    &&& choice matches Choice::Carry(x) && slot_of(x.0) == slot && slot_of(x.1)
                        == slot && place_in(x.0) == place_in(v.0) && place_in(x.1) == place_in(v.1)
                    &&& dead is None && left == quotas
                },
            }
        }),
{
    if let Some(slot) = slots[before as int] {
        lemma_remapped(v, slot);
    }
}

/// A bucket ends before the next one begins: an identifier lies between the ends of a bucket
/// exactly if it is one of the thousand and twenty-four from its first on.
pub proof fn lemma_bucket(low: u64, id: u64)
    requires
        low % 1024 == 0,
    ensures
        low <= id <= bucket_end(low) <==> id / 1024 == low / 1024,
        low <= id <= bucket_end(low) <==> low <= id < low + 1024,
{
}

/// A bucket stays as it is only where nothing of it was changed, and its generations stay and are
/// not drained.
pub proof fn lemma_stays(c: Checkpoint, s: StateV, table: u64, low: u64)
    requires
        s.overlay.dom().finite(),
        low % 1024 == 0,
        stays_whole(c, s, table, low),
    ensures
        ({
            let at = Route { table, kind: 3, low, low_second: 0 };
            &&& s.root.partitions.contains_key(at)
            &&& forall|id: u64|
                low <= id < low + 1024 ==> !(#[trigger] s.overlay.contains_key((table, id)))
            &&& forall|k: u8| #[trigger]
                s.root.partitions[at].slots.contains_key(k) ==> {
                    let slot = c.slots@[s.root.partitions[at].slots[k] as int];
                    slot is Some && c.quotas@[slot.unwrap() as int] == 0
                }
        }),
{
    let ids = recent_ids(s.overlay, table, low, bucket_end(low));
    lemma_recent(s.overlay, table, low, bucket_end(low));
    assert forall|id: u64| low <= id < low + 1024 implies !(#[trigger] s.overlay.contains_key(
        (table, id),
    )) by {
        lemma_bucket(low, id);
        assert(!ids.contains(id));
    }
}

} // verus!
