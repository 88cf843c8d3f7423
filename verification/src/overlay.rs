//! Entities changed since the last checkpoint, and the checkpoints that their history rests on.

use crate::entity::EntityData;
use crate::key::increasing;
use crate::key::lemma_listing_is;
use crate::key::listing;
use crate::key::lists;
use crate::operation::capped;
use crate::ordered_map::above;
use crate::ordered_map::within;
use crate::ordered_map::Bound;
use crate::ordered_map::OrderedMap;
use crate::ordered_map::Range;
use crate::snapshot::FileInfo;
use crate::snapshot::Root;
use crate::storage::pager::FileId;
use std::sync::Arc;
use vstd::prelude::*;

verus! {

/// A table and an entity of it.
pub type Key = (u64, u64);

/// A checkpoint that entities rest on, and how many do.
pub struct Owner {
    /// The manifest.
    pub root: Arc<Root>,
    /// The entities whose history is read through it.
    pub count: usize,
}

/// The generation of the checkpoint that an entity rests on.
pub open spec fn generation_of(d: EntityData) -> Option<u64> {
    match d.disk {
        None => None,
        Some(disk) => Some(disk.root.generation),
    }
}

fn generation(d: &EntityData) -> (g: Option<u64>)
    ensures
        g == generation_of(*d),
{
    match &d.disk {
        None => None,
        Some(disk) => Some(disk.root.generation),
    }
}

/// The entities that rest on a generation.
pub open spec fn users(entries: Map<Key, Arc<EntityData>>, g: u64) -> Set<Key> {
    entries.dom().filter(|k: Key| generation_of(*entries[k]) == Some(g))
}

/// The sizes of files, added up.
pub open spec fn sizes(files: Seq<FileInfo>) -> nat
    decreases files.len(),
{
    if files.len() == 0 {
        0
    } else {
        sizes(files.drop_last()) + files.last().size as nat
    }
}

/// The sizes of the files of manifests, added up.
pub open spec fn owned(owners: Seq<(u64, Owner)>) -> nat
    decreases owners.len(),
{
    if owners.len() == 0 {
        0
    } else {
        owned(owners.drop_last()) + sizes(owners.last().1.root.files@)
    }
}

/// Persistent overlay with independently counted history-file owners.
pub struct Overlay {
    entries: OrderedMap<Key, Arc<EntityData>>,
    roots: OrderedMap<u64, Owner>,
    size: usize,
    bytes: usize,
}

/// The total size of a manifest's files, counted to the greatest number.
pub fn root_bytes(root: &Root) -> (n: usize)
    ensures
        n == capped(sizes(root.files@)),
{
    let mut n: usize = 0;
    let mut i: usize = 0;
    proof {
        assert(root.files@.take(0) =~= Seq::empty());
    }
    while i < root.files.len()
        invariant
            i <= root.files@.len(),
            n == capped(sizes(root.files@.take(i as int))),
        decreases root.files@.len() - i,
    {
        proof {
            let s = root.files@;
            assert(s.take(i + 1).drop_last() =~= s.take(i as int));
            assert(s.take(i + 1).last() == s[i as int]);
        }
        let size: u64 = root.files[i].size;
        n = if size <= usize::MAX as u64 && size as usize <= usize::MAX - n {
            n + size as usize
        } else {
            usize::MAX
        };
        i = i + 1;
    }
    assert(root.files@.take(i as int) =~= root.files@);
    n
}

impl Overlay {
    /// The entities.
    pub closed spec fn entries(self) -> Map<Key, Arc<EntityData>> {
        self.entries@
    }

    /// The checkpoints by generation.
    pub closed spec fn roots(self) -> Map<u64, Owner> {
        self.roots@
    }

    /// The total size of the files of the checkpoints, counted to the greatest number.
    pub closed spec fn total(self) -> usize {
        self.bytes
    }

    /// How many entities there are.
    pub closed spec fn count(self) -> nat {
        self.size as nat
    }

    /// Whether the counts are right: a checkpoint is there exactly if an entity rests on it.
    pub closed spec fn sound(self) -> bool {
        &&& self.entries@.dom().finite()
        &&& self.size == self.entries@.dom().len()
        &&& forall|g: u64| #[trigger]
            self.roots@.contains_key(g) ==> self.roots@[g].count == users(self.entries@, g).len()
                && self.roots@[g].count > 0 && self.roots@[g].root.generation == g
        &&& forall|g: u64|
            !(#[trigger] self.roots@.contains_key(g)) ==> users(self.entries@, g).len() == 0
        &&& self.bytes == capped(owned(listing(self.roots@)))
    }

    /// A checkpoint is there exactly if an entity rests on it, and is counted once for each.
    pub proof fn lemma_owners(self, g: u64)
        requires
            self.sound(),
        ensures
            self.roots().contains_key(g) <==> users(self.entries(), g).len() > 0,
            self.roots().contains_key(g) ==> self.roots()[g].count == users(
                self.entries(),
                g,
            ).len() && self.roots()[g].root.generation == g,
            self.total() == capped(owned(listing(self.roots()))),
    {
    }

    /// No entities.
    pub fn new() -> (o: Self)
        ensures
            o.sound(),
            o.entries() == Map::<Key, Arc<EntityData>>::empty(),
            o.roots() == Map::<u64, Owner>::empty(),
            o.count() == 0,
    {
        let o = Overlay {
            entries: OrderedMap::new(),
            roots: OrderedMap::new(),
            size: 0,
            bytes: 0,
        };
        proof {
            assert(o.entries@.dom() =~= Set::empty());
            assert forall|g: u64| users(o.entries@, g).len() == 0 by {
                assert(users(o.entries@, g) =~= Set::empty());
            }
            reveal(increasing);
            reveal(lists);
            lemma_listing_is(Seq::<(u64, Owner)>::empty(), o.roots@);
        }
        o
    }

    /// The entity under a key.
    pub fn get(&self, key: &Key) -> (r: Option<&Arc<EntityData>>)
        ensures
            r == (if self.entries().contains_key(*key) {
                Some(&self.entries()[*key])
            } else {
                None
            }),
    {
        self.entries.get(key)
    }

    /// Whether there is an entity under a key.
    pub fn contains_key(&self, key: &Key) -> (r: bool)
        ensures
            r == self.entries().contains_key(*key),
    {
        self.entries.contains_key(key)
    }

    /// Whether there are no entities.
    pub fn is_empty(&self) -> (r: bool)
        requires
            self.sound(),
        ensures
            r == (self.entries() == Map::<Key, Arc<EntityData>>::empty()),
    {
        proof {
            if self.size == 0 {
                assert(self.entries@.dom() =~= Set::empty());
                assert(self.entries@ =~= Map::empty());
            }
        }
        self.size == 0
    }

    /// The number of entities.
    pub fn len(&self) -> (n: usize)
        ensures
            n == self.count(),
    {
        self.size
    }

    /// The total size of the files of the checkpoints.
    pub fn bytes(&self) -> (n: usize)
        ensures
            n == self.total(),
    {
        self.bytes
    }

    /// The entities between two keys, in order.
    pub fn range(&self, lower: Bound<Key>, upper: Bound<Key>) -> (r: Range<'_, Key, Arc<EntityData>>)
        ensures
            exists|s: Seq<(Key, Arc<EntityData>)>| #[trigger]
                increasing(s) && lists(s, self.entries()) && r.remaining() == s.filter(
                    |e: (Key, Arc<EntityData>)| above(lower, e.0) && within(upper, e.0),
                ),
    {
        let r = self.entries.range(lower, upper);
        assert(increasing(self.entries.entries()) && lists(self.entries.entries(), self.entries@));
        r
    }

    /// Puts an entity in, in place of what was under its key.
    pub fn insert(&mut self, key: Key, value: Arc<EntityData>)
        requires
            old(self).sound(),
            old(self).count() < usize::MAX,
        ensures
            final(self).sound(),
            final(self).entries() == old(self).entries().insert(key, value),
            final(self).count() <= old(self).count() + 1,
    {
        let ghost before = self.entries@;
        let ghost after = before.insert(key, value);
        let previous: Option<u64> = match self.entries.get(&key) {
            None => None,
            Some(data) => generation(&**data),
        };
        let known: bool = self.entries.contains_key(&key);
        let next: Option<u64> = generation(&*value);
        let same: bool = match previous {
            None => match next {
                None => true,
                Some(_) => false,
            },
            Some(a) => match next {
                None => false,
                Some(b) => a == b,
            },
        };
        proof {
            lemma_users(before, key, value);
            assert(after.dom() =~= before.dom().insert(key));
        }
        if same {
            self.entries.insert(key, value);
            if !known {
                self.size = self.size + 1;
            }
            return;
        }
        let ghost roots = self.roots@;
        match previous {
            None => {},
            Some(g) => {
                proof {
                    assert(users(before, g).contains(key));
                    assert(users(before, g).len() > 0);
                    assert(roots.contains_key(g));
                }
                match self.roots.get(&g) {
                    None => {},
                    Some(owner) => {
                        if owner.count == 1 {
                            self.roots.remove(&g);
                        } else {
                            let fewer = Owner { root: owner.root.clone(), count: owner.count - 1 };
                            self.roots.insert(g, fewer);
                        }
                    },
                }
            },
        }
        match next {
            None => {},
            Some(g) => {
                match &value.disk {
                    None => {},
                    Some(disk) => {
                        proof {
                            vstd::set_lib::lemma_len_subset(users(before, g), before.dom());
                        }
                        let more = match self.roots.get(&g) {
                            None => Owner { root: disk.root.clone(), count: 1 },
                            Some(owner) => Owner {
                                root: owner.root.clone(),
                                count: owner.count + 1,
                            },
                        };
                        self.roots.insert(g, more);
                    },
                }
            },
        }
        self.entries.insert(key, value);
        if !known {
            self.size = self.size + 1;
        }
        self.bytes = total_bytes(&self.roots);
    }

    /// The files of the checkpoints with their sizes, those of older generations first.
    pub fn file_sizes(&self) -> (out: Vec<(FileId, u64)>)
        ensures
            out@ == owned_files(listing(self.roots())),
    {
        let items = self.roots.items();
        let ghost s = self.roots.entries();
        let mut out: Vec<(FileId, u64)> = Vec::new();
        let mut i: usize = 0;
        proof {
            lemma_listing_is(s, self.roots@);
            assert(items@.map_values(|e: (&u64, &Owner)| (*e.0, *e.1)).len() == items@.len());
            assert(s.take(0) =~= Seq::empty());
        }
        while i < items.len()
            invariant
                i <= items@.len(),
                items@.len() == s.len(),
                items@.map_values(|e: (&u64, &Owner)| (*e.0, *e.1)) == s,
                out@ == owned_files(s.take(i as int)),
            decreases items@.len() - i,
        {
            let (g, owner) = items[i];
            proof {
                assert(items@.map_values(|e: (&u64, &Owner)| (*e.0, *e.1))[i as int] == (
                    *g,
                    *owner,
                ));
                assert(s.take(i + 1).drop_last() =~= s.take(i as int));
                assert(s.take(i + 1).last() == s[i as int]);
            }
            let mut files = owner.root.file_sizes();
            out.append(&mut files);
            i = i + 1;
        }
        assert(s.take(i as int) =~= s);
        out
    }
}

/// The files of manifests with their sizes.
pub open spec fn owned_files(owners: Seq<(u64, Owner)>) -> Seq<(FileId, u64)>
    decreases owners.len(),
{
    if owners.len() == 0 {
        Seq::empty()
    } else {
        owned_files(owners.drop_last()) + owners.last().1.root.files@.map_values(
            |f: FileInfo| (f.named(), f.size),
        )
    }
}

fn total_bytes(roots: &OrderedMap<u64, Owner>) -> (n: usize)
    ensures
        n == capped(owned(listing(roots@))),
{
    let items = roots.items();
    let ghost s = roots.entries();
    let mut n: usize = 0;
    let mut i: usize = 0;
    proof {
        lemma_listing_is(s, roots@);
        assert(items@.map_values(|e: (&u64, &Owner)| (*e.0, *e.1)).len() == items@.len());
        assert(s.take(0) =~= Seq::empty());
    }
    while i < items.len()
        invariant
            i <= items@.len(),
            items@.len() == s.len(),
            items@.map_values(|e: (&u64, &Owner)| (*e.0, *e.1)) == s,
            n == capped(owned(s.take(i as int))),
        decreases items@.len() - i,
    {
        let (g, owner) = items[i];
        proof {
            assert(items@.map_values(|e: (&u64, &Owner)| (*e.0, *e.1))[i as int] == (*g, *owner));
            assert(s.take(i + 1).drop_last() =~= s.take(i as int));
            assert(s.take(i + 1).last() == s[i as int]);
        }
        let size: usize = root_bytes(&*owner.root);
        n = if size <= usize::MAX - n {
            n + size
        } else {
            usize::MAX
        };
        i = i + 1;
    }
    assert(s.take(i as int) =~= s);
    n
}

/// What a further entity changes of who rests on a generation.
proof fn lemma_users(before: Map<Key, Arc<EntityData>>, key: Key, value: Arc<EntityData>)
    requires
        before.dom().finite(),
    ensures
        forall|g: u64| #[trigger]
            users(before.insert(key, value), g) == (if generation_of(*value) == Some(g) {
                users(before, g).insert(key)
            } else {
                users(before, g).remove(key)
            }),
        forall|g: u64| (#[trigger] users(before, g)).finite(),
{
    let after = before.insert(key, value);
    assert forall|g: u64| #[trigger] users(after, g) == (if generation_of(*value) == Some(g) {
        users(before, g).insert(key)
    } else {
        users(before, g).remove(key)
    }) by {
        if generation_of(*value) == Some(g) {
            assert(users(after, g) =~= users(before, g).insert(key));
        } else {
            assert(users(after, g) =~= users(before, g).remove(key));
        }
    }
    assert forall|g: u64| (#[trigger] users(before, g)).finite() by {
        vstd::set_lib::lemma_len_subset(users(before, g), before.dom());
    }
}

impl Clone for Overlay {
    fn clone(&self) -> (copy: Self)
        ensures
            copy == *self,
    {
        Overlay {
            entries: self.entries.clone(),
            roots: self.roots.clone(),
            size: self.size,
            bytes: self.bytes,
        }
    }
}

} // verus!
