//! Isolation levels and the ordered commit coordinator.

use crate::error::Error;
use crate::error::Result;
use crate::key::lists;
use crate::ordered_map::OrderedMap;
use crate::overlay::Key;
use vstd::prelude::*;

verus! {

/// Isolation requested for a transaction. Unsupported levels are rejected.
#[derive(Clone, Copy, Debug, PartialEq, Eq, Structural)]
#[non_exhaustive]
pub enum IsolationLevel {
    /// A new committed view per operation. Reserved; currently unsupported.
    ReadCommitted,
    /// One view plus own writes; the first committer wins on overlapping writes.
    Snapshot,
    /// Equivalent to a serial execution. Reserved; currently unsupported.
    Serializable,
}

impl Default for IsolationLevel {
    fn default() -> (level: Self)
        ensures
            level == IsolationLevel::Snapshot,
    {
        IsolationLevel::Snapshot
    }
}

/// Per-transaction policy, independent of storage/maintenance options.
#[derive(Clone, Copy, Debug, PartialEq, Eq, Structural)]
#[non_exhaustive]
pub struct TransactionOptions {
    /// Requested isolation. Defaults to Snapshot.
    pub isolation: IsolationLevel,
    /// A shorter total deadline, in nanoseconds.
    pub timeout: Option<u64>,
    /// A shorter idle deadline, in nanoseconds.
    pub idle_timeout: Option<u64>,
}

impl Default for TransactionOptions {
    fn default() -> (o: Self)
        ensures
            o == (TransactionOptions {
                isolation: IsolationLevel::Snapshot,
                timeout: None,
                idle_timeout: None,
            }),
    {
        TransactionOptions {
            isolation: IsolationLevel::Snapshot,
            timeout: None,
            idle_timeout: None,
        }
    }
}

/// A requested duration, or the configured one where that is shorter.
pub open spec fn shorter(requested: Option<u64>, configured: u64) -> u64 {
    match requested {
        Some(t) => if t <= configured {
            t
        } else {
            configured
        },
        None => configured,
    }
}

impl TransactionOptions {
    /// Requests an explicit isolation level.
    pub fn with_isolation(isolation: IsolationLevel) -> (o: Self)
        ensures
            o == (TransactionOptions { isolation, timeout: None, idle_timeout: None }),
    {
        TransactionOptions { isolation, timeout: None, idle_timeout: None }
    }

    /// Rejects an isolation level that is not implemented; never substitutes a weaker one.
    pub fn supported(&self) -> (r: Result<()>)
        ensures
            match r {
                Ok(_) => self.isolation == IsolationLevel::Snapshot,
                Err(e) => self.isolation != IsolationLevel::Snapshot && e
                    == Error::UnsupportedIsolation(self.isolation),
            },
    {
        if self.isolation != IsolationLevel::Snapshot {
            return Err(Error::UnsupportedIsolation(self.isolation));
        }
        Ok(())
    }

    /// The total and the idle deadline of a transaction, held to the configured ones.
    pub fn limits(&self, transaction: u64, idle: u64) -> (r: (u64, u64))
        ensures
            r == (shorter(self.timeout, transaction), shorter(self.idle_timeout, idle)),
    {
        let total: u64 = match self.timeout {
            Some(t) => if t <= transaction {
                t
            } else {
                transaction
            },
            None => transaction,
        };
        let pause: u64 = match self.idle_timeout {
            Some(t) => if t <= idle {
                t
            } else {
                idle
            },
            None => idle,
        };
        (total, pause)
    }
}

/// The transactions that last wrote what a concurrent one may also want to write.
///
/// Retention and explicit snapshots count as writes even without a new entity version.
pub struct Revisions {
    /// The last transaction on each entity.
    pub entities: OrderedMap<Key, u64>,
    /// The last transaction that changed a table.
    pub catalog: u64,
}

/// Whether a transaction conflicts over an entity: another one wrote it behind the view that
/// this one started from.
pub open spec fn conflicts(r: Map<Key, u64>, base: u64, key: Key) -> bool {
    r.contains_key(key) && r[key] > base
}

impl Revisions {
    /// Nothing written yet.
    pub fn new() -> (r: Self)
        ensures
            r.entities@ == Map::<Key, u64>::empty(),
            r.catalog == 0,
    {
        Revisions { entities: OrderedMap::new(), catalog: 0 }
    }

    /// Admits a transaction that started from the view after `base` and touched `keys`. The
    /// first committer wins: a later one that wrote the same is told to retry.
    pub fn check(&self, base: u64, keys: &Vec<Key>) -> (r: Result<()>)
        ensures
            match r {
                Ok(_) => self.catalog <= base && forall|i: int|
                    0 <= i < keys@.len() ==> !conflicts(self.entities@, base, #[trigger] keys@[i]),
                Err(e) => if self.catalog > base {
                    e == (Error::Conflict { table: None, entity: None })
                } else {
                    exists|i: int|
                        0 <= i < keys@.len() && conflicts(
                            self.entities@,
                            base,
                            #[trigger] keys@[i],
                        ) && e == (Error::Conflict {
                            table: Some(keys@[i].0),
                            entity: Some(keys@[i].1),
                        }) && forall|j: int|
                            0 <= j < i ==> !conflicts(self.entities@, base, #[trigger] keys@[j])
                },
            },
    {
        if self.catalog > base {
            return Err(Error::Conflict { table: None, entity: None });
        }
        let mut i: usize = 0;
        while i < keys.len()
            invariant
                i <= keys@.len(),
                self.catalog <= base,
                forall|j: int|
                    0 <= j < i ==> !conflicts(self.entities@, base, #[trigger] keys@[j]),
            decreases keys@.len() - i,
        {
            let key: Key = keys[i];
            match self.entities.get(&key) {
                None => {},
                Some(lsn) => {
                    if *lsn > base {
                        assert(conflicts(self.entities@, base, keys@[i as int]));
                        return Err(
                            Error::Conflict { table: Some(key.0), entity: Some(key.1) },
                        );
                    }
                },
            }
            i = i + 1;
        }
        Ok(())
    }

    /// Records a committed transaction.
    pub fn record(&mut self, keys: &Vec<Key>, changes_catalog: bool, sequence: u64)
        ensures
            final(self).entities@ == recorded(old(self).entities@, keys@, sequence),
            final(self).catalog == (if changes_catalog {
                sequence
            } else {
                old(self).catalog
            }),
    {
        let ghost before = self.entities@;
        let mut i: usize = 0;
        proof {
            assert(keys@.take(0) =~= Seq::empty());
        }
        while i < keys.len()
            invariant
                i <= keys@.len(),
                before == old(self).entities@,
                self.catalog == old(self).catalog,
                forall|k: Key| #[trigger]
                    self.entities@.contains_key(k) == (keys@.take(i as int).contains(k)
                        || before.contains_key(k)),
                forall|k: Key| #[trigger]
                    self.entities@.contains_key(k) ==> self.entities@[k] == (if keys@.take(
                        i as int,
                    ).contains(k) {
                        sequence
                    } else {
                        before[k]
                    }),
            decreases keys@.len() - i,
        {
            let ghost was = self.entities@;
            let key: Key = keys[i];
            self.entities.insert(key, sequence);
            proof {
                let (a, b) = (keys@.take(i as int), keys@.take(i + 1));
                assert(b =~= a.push(key));
                assert forall|k: Key| #[trigger] b.contains(k) == (a.contains(k) || k == key) by {
                    if a.contains(k) {
                        let j = choose|j: int| 0 <= j < a.len() && a[j] == k;
                        assert(b[j] == k);
                    }
                    if k == key {
                        assert(b[i as int] == k);
                    }
                }
                assert forall|k: Key| #[trigger] self.entities@.contains_key(k) == (b.contains(k)
                    || before.contains_key(k)) by {
                    assert(was.contains_key(k) == (a.contains(k) || before.contains_key(k)));
                }
                assert forall|k: Key| #[trigger]
                    self.entities@.contains_key(k) implies self.entities@[k] == (if b.contains(
                    k,
                ) {
                    sequence
                } else {
                    before[k]
                }) by {
                    if k != key {
                        assert(was.contains_key(k));
                    }
                }
            }
            i = i + 1;
        }
        assert(keys@.take(i as int) =~= keys@);
        assert(self.entities@ =~= recorded(before, keys@, sequence));
        if changes_catalog {
            self.catalog = sequence;
        }
    }

    /// Forgets what no live view can conflict with.
    pub fn prune(&mut self, oldest: u64)
        ensures
            final(self).entities@ == old(self).entities@.restrict(
                Set::new(|k: Key| old(self).entities@[k] > oldest),
            ),
            final(self).catalog == old(self).catalog,
    {
        let mut kept: OrderedMap<Key, u64> = OrderedMap::new();
        let ghost before = self.entities@;
        let items = self.entities.items();
        let ghost s = self.entities.entries();
        let mut i: usize = 0;
        proof {
            assert(items@.map_values(|e: (&Key, &u64)| (*e.0, *e.1)).len() == items@.len());
        }
        while i < items.len()
            invariant
                i <= items@.len(),
                items@.len() == s.len(),
                items@.map_values(|e: (&Key, &u64)| (*e.0, *e.1)) == s,
                lists(s, before),
                forall|j: int|
                    0 <= j < i && (#[trigger] s[j]).1 > oldest ==> kept@.contains_key(s[j].0),
                forall|k: Key| #[trigger]
                    kept@.contains_key(k) ==> before.contains_key(k) && kept@[k] == before[k]
                        && before[k] > oldest,
            decreases items@.len() - i,
        {
            let (k, v) = items[i];
            proof {
                assert(items@.map_values(|e: (&Key, &u64)| (*e.0, *e.1))[i as int] == (*k, *v));
                reveal(lists);
                assert(before.contains_key(s[i as int].0));
            }
            if *v > oldest {
                kept.insert(*k, *v);
            }
            i = i + 1;
        }
        proof {
            reveal(lists);
            assert(kept@ =~= before.restrict(Set::new(|k: Key| before[k] > oldest))) by {
                assert forall|k: Key|
                    before.contains_key(k) && before[k] > oldest implies #[trigger] kept@.contains_key(
                    k,
                ) by {
                    let j = choose|j: int| 0 <= j < s.len() && (#[trigger] s[j]).0 == k;
                    assert(s[j].1 > oldest);
                }
            }
        }
        self.entities = kept;
    }
}

/// What was last written, with a further transaction.
pub open spec fn recorded(r: Map<Key, u64>, keys: Seq<Key>, sequence: u64) -> Map<Key, u64> {
    r.union_prefer_right(Map::new(|k: Key| keys.contains(k), |k: Key| sequence))
}

/// The first committer wins: a transaction from an earlier view that wrote one of the same
/// entities conflicts, one that wrote none of them does not on their account, and one that
/// starts behind the commit does not either.
pub proof fn lemma_first_wins(
    r: Map<Key, u64>,
    keys: Seq<Key>,
    sequence: u64,
    base: u64,
    key: Key,
)
    ensures
        keys.contains(key) && base < sequence ==> conflicts(
            recorded(r, keys, sequence),
            base,
            key,
        ),
        keys.contains(key) && base >= sequence ==> !conflicts(
            recorded(r, keys, sequence),
            base,
            key,
        ),
        !keys.contains(key) ==> conflicts(recorded(r, keys, sequence), base, key) == conflicts(
            r,
            base,
            key,
        ),
{
}

/// Forgetting what is not behind the oldest live view changes no later decision.
pub proof fn lemma_prune(r: Map<Key, u64>, oldest: u64, base: u64, key: Key)
    requires
        base >= oldest,
    ensures
        conflicts(r.restrict(Set::new(|k: Key| r[k] > oldest)), base, key) == conflicts(
            r,
            base,
            key,
        ),
{
}

// ---- Groups ----

/// What a transaction of a group asks to commit.
pub struct Claim {
    /// The transaction of the view that it started from.
    pub base: u64,
    /// The entities that it touched.
    pub keys: Vec<Key>,
    /// Whether it changes a table.
    pub changes_catalog: bool,
    /// Whether it writes nothing.
    pub is_empty: bool,
}

/// What was last written, as a value.
pub struct RevisionsV {
    /// The last transaction on each entity.
    pub entities: Map<Key, u64>,
    /// The last transaction that changed a table.
    pub catalog: u64,
}

/// Whether a transaction may commit.
pub open spec fn admits(r: RevisionsV, c: Claim) -> bool {
    c.is_empty || (r.catalog <= c.base && forall|i: int|
        0 <= i < c.keys@.len() ==> !conflicts(r.entities, c.base, #[trigger] c.keys@[i]))
}

/// Whether an error names what a transaction conflicts over.
pub open spec fn names_conflict(r: RevisionsV, c: Claim, e: Error) -> bool {
    if r.catalog > c.base {
        e == (Error::Conflict { table: None, entity: None })
    } else {
        exists|i: int|
            0 <= i < c.keys@.len() && conflicts(r.entities, c.base, #[trigger] c.keys@[i]) && e == (
            Error::Conflict { table: Some(c.keys@[i].0), entity: Some(c.keys@[i].1) })
    }
}

/// What is last written once transactions of a group are committed in their order, each that
/// may commit under the number `sequence`.
pub open spec fn after(r: RevisionsV, claims: Seq<Claim>, sequence: u64) -> RevisionsV
    decreases claims.len(),
{
    if claims.len() == 0 {
        r
    } else {
        let s = after(r, claims.drop_last(), sequence);
        let c = claims.last();
        if c.is_empty || !admits(s, c) {
            s
        } else {
            RevisionsV {
                entities: recorded(s.entities, c.keys@, sequence),
                catalog: if c.changes_catalog {
                    sequence
                } else {
                    s.catalog
                },
            }
        }
    }
}

impl View for Revisions {
    type V = RevisionsV;

    open spec fn view(&self) -> RevisionsV {
        RevisionsV { entities: self.entities@, catalog: self.catalog }
    }
}

impl Revisions {
    /// Decides which transactions of a group may commit, in their order: each is held against
    /// what is committed and against those ahead of it. The number is one that no view has yet.
    pub fn screen(&self, claims: &Vec<Claim>, sequence: u64) -> (verdicts: Vec<Result<()>>)
        ensures
            verdicts@.len() == claims@.len(),
            forall|i: int|
                0 <= i < claims@.len() ==> match #[trigger] verdicts@[i] {
                    Ok(_) => admits(after(self@, claims@.take(i), sequence), claims@[i]),
                    Err(e) => !admits(after(self@, claims@.take(i), sequence), claims@[i])
                        && names_conflict(
                        after(self@, claims@.take(i), sequence),
                        claims@[i],
                        e,
                    ),
                },
    {
        let mut trial = Revisions { entities: self.entities.clone(), catalog: self.catalog };
        let mut verdicts: Vec<Result<()>> = Vec::new();
        let mut i: usize = 0;
        proof {
            assert(claims@.take(0) =~= Seq::empty());
        }
        while i < claims.len()
            invariant
                i <= claims@.len(),
                verdicts@.len() == i,
                trial@ == after(self@, claims@.take(i as int), sequence),
                forall|j: int|
                    0 <= j < i ==> match #[trigger] verdicts@[j] {
                        Ok(_) => admits(after(self@, claims@.take(j), sequence), claims@[j]),
                        Err(e) => !admits(after(self@, claims@.take(j), sequence), claims@[j])
                            && names_conflict(
                            after(self@, claims@.take(j), sequence),
                            claims@[j],
                            e,
                        ),
                    },
            decreases claims@.len() - i,
        {
            let claim = &claims[i];
            proof {
                assert(claims@.take(i + 1).drop_last() =~= claims@.take(i as int));
                assert(claims@.take(i + 1).last() == claim);
            }
            if claim.is_empty {
                verdicts.push(Ok(()));
            } else {
                let verdict = trial.check(claim.base, &claim.keys);
                if verdict.is_ok() {
                    trial.record(&claim.keys, claim.changes_catalog, sequence);
                }
                verdicts.push(verdict);
            }
            i = i + 1;
        }
        verdicts
    }
}

/// Numbers of what was last written only grow over a group.
proof fn lemma_after(r: RevisionsV, claims: Seq<Claim>, sequence: u64, i: int, key: Key)
    requires
        0 <= i < claims.len(),
        !claims[i].is_empty,
        admits(after(r, claims.take(i), sequence), claims[i]),
    ensures
        claims[i].keys@.contains(key) ==> after(r, claims, sequence).entities.contains_key(key)
            && after(r, claims, sequence).entities[key] == sequence,
        claims[i].changes_catalog ==> after(r, claims, sequence).catalog == sequence,
    decreases claims.len(),
{
    if i == claims.len() - 1 {
        assert(claims.take(i) =~= claims.drop_last());
    } else {
        assert(claims.drop_last().take(i) =~= claims.take(i));
        lemma_after(r, claims.drop_last(), sequence, i, key);
    }
}

/// Two transactions of one group that both commit wrote none of the same entities, and the
/// first of them changed no table.
pub proof fn lemma_disjoint(r: RevisionsV, claims: Seq<Claim>, sequence: u64, i: int, j: int)
    requires
        0 <= i < j < claims.len(),
        !claims[i].is_empty && !claims[j].is_empty,
        admits(after(r, claims.take(i), sequence), claims[i]),
        admits(after(r, claims.take(j), sequence), claims[j]),
        claims[j].base < sequence,
    ensures
        !claims[i].changes_catalog,
        forall|k: Key| claims[i].keys@.contains(k) ==> !(#[trigger] claims[j].keys@.contains(k)),
{
    let before = claims.take(j);
    assert(before.take(i) =~= claims.take(i));
    let s = after(r, before, sequence);
    lemma_after(r, before, sequence, i, (0, 0));
    assert forall|k: Key| claims[i].keys@.contains(k) implies !(
    #[trigger] claims[j].keys@.contains(k)) by {
        lemma_after(r, before, sequence, i, k);
        if claims[j].keys@.contains(k) {
            let n = choose|n: int| 0 <= n < claims[j].keys@.len() && claims[j].keys@[n] == k;
            assert(!conflicts(s.entities, claims[j].base, claims[j].keys@[n]));
        }
    }
}

// ---- Commits one after another ----

/// What a committed transaction left behind: the entities it touched, whether it changed a
/// table, and its number.
pub struct CommitV {
    /// The entities.
    pub keys: Seq<Key>,
    /// Whether a table changed.
    pub changes_catalog: bool,
    /// The number.
    pub sequence: u64,
}

/// What is last written once transactions have committed.
pub open spec fn noted(r: RevisionsV, commits: Seq<CommitV>) -> RevisionsV
    decreases commits.len(),
{
    if commits.len() == 0 {
        r
    } else {
        let s = noted(r, commits.drop_last());
        let c = commits.last();
        RevisionsV {
            entities: recorded(s.entities, c.keys, c.sequence),
            catalog: if c.changes_catalog {
                c.sequence
            } else {
                s.catalog
            },
        }
    }
}

/// Whether commits have increasing numbers.
pub open spec fn in_order(commits: Seq<CommitV>) -> bool {
    forall|i: int, j: int|
        0 <= i < j < commits.len() ==> (#[trigger] commits[i]).sequence < (
        #[trigger] commits[j]).sequence
}

proof fn lemma_noted(r: RevisionsV, commits: Seq<CommitV>, i: int, key: Key)
    requires
        0 <= i < commits.len(),
        in_order(commits),
    ensures
        commits[i].keys.contains(key) ==> noted(r, commits).entities.contains_key(key) && noted(
            r,
            commits,
        ).entities[key] >= commits[i].sequence,
        commits[i].changes_catalog ==> noted(r, commits).catalog >= commits[i].sequence,
    decreases commits.len(),
{
    if i < commits.len() - 1 {
        let front = commits.drop_last();
        assert(in_order(front)) by {
            assert forall|a: int, b: int| 0 <= a < b < front.len() implies (
            #[trigger] front[a]).sequence < (#[trigger] front[b]).sequence by {
                assert(front[a] == commits[a] && front[b] == commits[b]);
            }
        }
        lemma_noted(r, front, i, key);
        assert(commits[i].sequence < commits[commits.len() - 1].sequence);
    }
}

/// A transaction that may commit collides with no commit that its view does not hold: none of
/// those wrote an entity that it touched or changed a table.
pub proof fn lemma_no_lost_update(r: RevisionsV, commits: Seq<CommitV>, c: Claim, i: int)
    requires
        in_order(commits),
        0 <= i < commits.len(),
        c.base < commits[i].sequence,
        !c.is_empty,
        admits(noted(r, commits), c),
    ensures
        !commits[i].changes_catalog,
        forall|k: Key| commits[i].keys.contains(k) ==> !(#[trigger] c.keys@.contains(k)),
{
    lemma_noted(r, commits, i, (0, 0));
    assert forall|k: Key| commits[i].keys.contains(k) implies !(#[trigger] c.keys@.contains(k)) by {
        lemma_noted(r, commits, i, k);
        if c.keys@.contains(k) {
            let n = choose|n: int| 0 <= n < c.keys@.len() && c.keys@[n] == k;
            assert(!conflicts(noted(r, commits).entities, c.base, c.keys@[n]));
        }
    }
}

/// A transaction that collides with no commit behind its view may commit if it could before
/// them.
pub proof fn lemma_no_false_conflict(r: RevisionsV, commits: Seq<CommitV>, c: Claim)
    requires
        admits(r, c),
        forall|i: int|
            0 <= i < commits.len() && c.base < (#[trigger] commits[i]).sequence
                ==> !commits[i].changes_catalog && forall|k: Key|
                commits[i].keys.contains(k) ==> !(#[trigger] c.keys@.contains(k)),
    ensures
        admits(noted(r, commits), c),
    decreases commits.len(),
{
    if commits.len() > 0 && !c.is_empty {
        let front = commits.drop_last();
        assert forall|i: int|
            0 <= i < front.len() && c.base < (
            #[trigger] front[i]).sequence implies !front[i].changes_catalog && forall|k: Key|
            front[i].keys.contains(k) ==> !(#[trigger] c.keys@.contains(k)) by {
            assert(front[i] == commits[i]);
        }
        lemma_no_false_conflict(r, front, c);
        let s = noted(r, front);
        let n = noted(r, commits);
        let last = commits[commits.len() - 1];
        assert forall|i: int| 0 <= i < c.keys@.len() implies !conflicts(
            n.entities,
            c.base,
            #[trigger] c.keys@[i],
        ) by {
            let k = c.keys@[i];
            assert(!conflicts(s.entities, c.base, c.keys@[i]));
            assert(c.keys@.contains(k));
            lemma_first_wins(s.entities, last.keys, last.sequence, c.base, k);
        }
    }
}

} // verus!
