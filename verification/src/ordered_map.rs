//! An ordered map whose versions share their nodes.
//!
//! The map is an AVL tree of immutable nodes. An update copies its search path
//! and shares everything else with the versions before it.

use crate::key::increasing;
use crate::key::lemma_filter_all;
use crate::key::lemma_filter_none;
use crate::key::lemma_filter_one;
use crate::key::lists;
use crate::key::OrderedKey;
use std::sync::Arc;
use vstd::prelude::*;

verus! {

/// One end of a key range.
#[derive(Debug)]
pub enum Bound<K> {
    /// The key itself belongs to the range.
    Included(K),
    /// The range stops short of the key.
    Excluded(K),
    /// The range has no end on this side.
    Unbounded,
}

/// Whether a key is not below the lower end of a range.
pub open spec fn above<K: OrderedKey>(lower: Bound<K>, key: K) -> bool {
    match lower {
        Bound::Included(k) => !key.before(k),
        Bound::Excluded(k) => k.before(key),
        Bound::Unbounded => true,
    }
}

/// Whether a key is not beyond the upper end of a range.
pub open spec fn within<K: OrderedKey>(upper: Bound<K>, key: K) -> bool {
    match upper {
        Bound::Included(k) => !k.before(key),
        Bound::Excluded(k) => key.before(k),
        Bound::Unbounded => true,
    }
}

type Link<K, V> = Option<Arc<Node<K, V>>>;

pub struct Node<K, V> {
    key: K,
    value: Arc<V>,
    left: Link<K, V>,
    right: Link<K, V>,
    height: usize,
}

/// What a tree maps its keys to.
pub closed spec fn tree<K, V>(link: Option<Arc<Node<K, V>>>) -> Map<K, V>
    decreases link,
{
    match link {
        None => Map::empty(),
        Some(n) => tree(n.left).union_prefer_right(tree(n.right)).insert(n.key, *n.value),
    }
}

/// The entries of a tree from left to right.
pub closed spec fn inorder<K, V>(link: Option<Arc<Node<K, V>>>) -> Seq<(K, V)>
    decreases link,
{
    match link {
        None => Seq::empty(),
        Some(n) => inorder(n.left) + seq![(n.key, *n.value)] + inorder(n.right),
    }
}

/// Whether keys lie left and right of each node as the order says.
pub closed spec fn ordered<K: OrderedKey, V>(link: Option<Arc<Node<K, V>>>) -> bool
    decreases link,
{
    match link {
        None => true,
        Some(n) => {
            &&& ordered(n.left)
            &&& ordered(n.right)
            &&& forall|k: K| #[trigger] tree(n.left).contains_key(k) ==> k.before(n.key)
            &&& forall|k: K| #[trigger] tree(n.right).contains_key(k) ==> n.key.before(k)
        },
    }
}

/// The height that a tree records for itself.
pub closed spec fn height_of<K, V>(link: Option<Arc<Node<K, V>>>) -> nat {
    match link {
        None => 0,
        Some(n) => n.height as nat,
    }
}

/// Whether every recorded height is right and the two sides of each node differ by one at most.
pub closed spec fn balanced<K, V>(link: Option<Arc<Node<K, V>>>) -> bool
    decreases link,
{
    match link {
        None => true,
        Some(n) => {
            &&& balanced(n.left)
            &&& balanced(n.right)
            &&& n.height == 1 + taller(height_of(n.left), height_of(n.right))
            &&& height_of(n.left) <= height_of(n.right) + 1
            &&& height_of(n.right) <= height_of(n.left) + 1
        },
    }
}

spec fn taller(a: nat, b: nat) -> nat {
    if a >= b {
        a
    } else {
        b
    }
}

spec fn up(height: nat) -> usize {
    if height < usize::MAX {
        (height + 1) as usize
    } else {
        usize::MAX
    }
}

/// The node over two subtrees.
spec fn over<K, V>(key: K, value: Arc<V>, left: Link<K, V>, right: Link<K, V>) -> Node<K, V> {
    Node { key, value, left, right, height: up(taller(height_of(left), height_of(right))) }
}

fn height<K, V>(link: &Link<K, V>) -> (h: usize)
    ensures
        h == height_of(*link),
{
    match link {
        None => 0,
        Some(n) => n.height,
    }
}

fn node<K, V>(key: K, value: Arc<V>, left: Link<K, V>, right: Link<K, V>) -> (n: Arc<Node<K, V>>)
    ensures
        *n == over(key, value, left, right),
{
    let l: usize = height(&left);
    let r: usize = height(&right);
    let top: usize = if l >= r {
        l
    } else {
        r
    };
    let height: usize = if top < usize::MAX {
        top + 1
    } else {
        top
    };
    Arc::new(Node { key, value, left, right, height })
}

fn share<K, V>(link: &Link<K, V>) -> (copy: Link<K, V>)
    ensures
        copy == *link,
{
    match link {
        None => None,
        Some(n) => Some(n.clone()),
    }
}

/// Whether the first height exceeds the second by more than one.
fn heavier(a: usize, b: usize) -> (r: bool)
    ensures
        r == (a > b + 1),
{
    a > b && a - b > 1
}

/// What a node's map holds, key by key.
proof fn lemma_tree<K, V>(n: Arc<Node<K, V>>)
    ensures
        forall|k: K| #[trigger]
            tree(Some(n)).contains_key(k) <==> tree(n.left).contains_key(k) || tree(
                n.right,
            ).contains_key(k) || k == n.key,
        forall|k: K| #[trigger]
            tree(Some(n)).contains_key(k) ==> tree(Some(n))[k] == if k == n.key {
                *n.value
            } else if tree(n.right).contains_key(k) {
                tree(n.right)[k]
            } else {
                tree(n.left)[k]
            },
{
}

/// A node's map agrees with that of either side, whose keys lie apart.
proof fn lemma_sides<K: OrderedKey, V>(n: Arc<Node<K, V>>)
    requires
        ordered(Some(n)),
    ensures
        tree(Some(n)).contains_key(n.key) && tree(Some(n))[n.key] == *n.value,
        forall|k: K| #[trigger]
            tree(n.left).contains_key(k) ==> tree(Some(n)).contains_key(k) && tree(Some(n))[k]
                == tree(n.left)[k] && k != n.key && !tree(n.right).contains_key(k),
        forall|k: K| #[trigger]
            tree(n.right).contains_key(k) ==> tree(Some(n)).contains_key(k) && tree(Some(n))[k]
                == tree(n.right)[k] && k != n.key && !tree(n.left).contains_key(k),
{
    K::order_laws();
    lemma_tree(n);
    assert forall|k: K| #[trigger] tree(n.left).contains_key(k) implies !tree(n.right).contains_key(
        k,
    ) && k != n.key by {
        assert(k.before(n.key));
        if tree(n.right).contains_key(k) {
            assert(n.key.before(k));
            assert(k.before(k));
        }
    }
}

/// Lifting either child over its parent keeps the order and the map.
proof fn lemma_rotate<K: OrderedKey, V>(
    a: Arc<Node<K, V>>,
    left: Arc<Node<K, V>>,
    b: Arc<Node<K, V>>,
    right: Arc<Node<K, V>>,
)
    requires
        a.left == Some(left),
        b.right == Some(right),
        a.key == right.key && a.value == right.value,
        b.key == left.key && b.value == left.value,
        left.left == b.left,
        left.right == right.left,
        right.right == a.right,
    ensures
        ordered(Some(a)) == ordered(Some(b)),
        ordered(Some(a)) ==> tree(Some(a)) == tree(Some(b)),
{
    reveal_with_fuel(ordered, 2);
    K::order_laws();
    lemma_tree(left);
    lemma_tree(right);
    lemma_tree(a);
    lemma_tree(b);
    if ordered(Some(a)) {
        assert(tree(Some(left)).contains_key(left.key));
        assert forall|k: K| #[trigger] tree(right.left).contains_key(k) implies k.before(
            right.key,
        ) by {
            assert(tree(Some(left)).contains_key(k));
        }
        assert(ordered(Some(right)));
        assert forall|k: K| #[trigger] tree(Some(right)).contains_key(k) implies b.key.before(
            k,
        ) by {
            if tree(right.right).contains_key(k) {
                assert(a.key.before(k));
            }
        }
        assert(ordered(Some(b)));
        lemma_sides(a);
        lemma_sides(left);
        lemma_sides(b);
        lemma_sides(right);
        let (x, y) = (tree(Some(a)), tree(Some(b)));
        assert forall|k: K| #[trigger] x.contains_key(k) implies y.contains_key(k) && x[k]
            == y[k] by {
            if k == a.key {
                assert(tree(Some(right)).contains_key(k));
            } else if tree(a.right).contains_key(k) {
                assert(tree(Some(right)).contains_key(k));
            } else if tree(left.right).contains_key(k) {
                assert(tree(Some(right)).contains_key(k));
            }
        }
        assert(x =~= y);
    }
    if ordered(Some(b)) {
        assert(tree(Some(right)).contains_key(right.key));
        assert forall|k: K| #[trigger] tree(left.right).contains_key(k) implies left.key.before(
            k,
        ) by {
            assert(tree(Some(right)).contains_key(k));
        }
        assert(ordered(Some(left)));
        assert forall|k: K| #[trigger] tree(Some(left)).contains_key(k) implies k.before(
            a.key,
        ) by {
            if tree(left.left).contains_key(k) {
                assert(k.before(b.key));
            }
        }
    }
}

fn rotate_left<K: OrderedKey, V>(root: &Arc<Node<K, V>>) -> (r: Arc<Node<K, V>>)
    requires
        root.right is Some,
        ordered(Some(*root)),
    ensures
        ordered(Some(r)),
        tree(Some(r)) == tree(Some(*root)),
        ({
            let pivot = root.right.unwrap();
            *r == over(
                pivot.key,
                pivot.value,
                Some(Arc::new(over(root.key, root.value, root.left, pivot.left))),
                pivot.right,
            )
        }),
{
    match &root.right {
        Some(pivot) => {
            let left = node(
                root.key.same(),
                root.value.clone(),
                share(&root.left),
                share(&pivot.left),
            );
            let ghost below = left;
            let r = node(
                pivot.key.same(),
                pivot.value.clone(),
                Some(left),
                share(&pivot.right),
            );
            proof {
                lemma_rotate(r, below, *root, *pivot);
            }
            r
        },
        None => root.clone(),
    }
}

fn rotate_right<K: OrderedKey, V>(root: &Arc<Node<K, V>>) -> (r: Arc<Node<K, V>>)
    requires
        root.left is Some,
        ordered(Some(*root)),
    ensures
        ordered(Some(r)),
        tree(Some(r)) == tree(Some(*root)),
        ({
            let pivot = root.left.unwrap();
            *r == over(
                pivot.key,
                pivot.value,
                pivot.left,
                Some(Arc::new(over(root.key, root.value, pivot.right, root.right))),
            )
        }),
{
    match &root.left {
        Some(pivot) => {
            let right = node(
                root.key.same(),
                root.value.clone(),
                share(&pivot.right),
                share(&root.right),
            );
            let ghost below = right;
            let r = node(
                pivot.key.same(),
                pivot.value.clone(),
                share(&pivot.left),
                Some(right),
            );
            proof {
                lemma_rotate(*root, *pivot, r, below);
            }
            r
        },
        None => root.clone(),
    }
}

/// Whether a node is balanced but for a difference of two between its sides.
spec fn almost_balanced<K, V>(n: &Node<K, V>) -> bool {
    &&& balanced(n.left)
    &&& balanced(n.right)
    &&& height_of(n.left) <= height_of(n.right) + 2
    &&& height_of(n.right) <= height_of(n.left) + 2
    &&& taller(height_of(n.left), height_of(n.right)) < usize::MAX
    &&& *n == over(n.key, n.value, n.left, n.right)
}

#[verifier::rlimit(40)]
fn balance<K: OrderedKey, V>(root: Arc<Node<K, V>>) -> (r: Arc<Node<K, V>>)
    requires
        ordered(Some(root)),
    ensures
        ordered(Some(r)),
        tree(Some(r)) == tree(Some(root)),
        almost_balanced(&*root) ==> {
            let top = taller(height_of(root.left), height_of(root.right));
            &&& balanced(Some(r))
            &&& height_of(Some(r)) == top || height_of(Some(r)) == top + 1
            &&& height_of(root.left) <= height_of(root.right) + 1 && height_of(root.right)
                <= height_of(root.left) + 1 ==> r == root
        },
{
    if heavier(height(&root.left), height(&root.right)) {
        match &root.left {
            Some(left) => {
                if height(&left.right) > height(&left.left) {
                    let inner = rotate_left(left);
                    let turned = node(
                        root.key.same(),
                        root.value.clone(),
                        Some(inner),
                        share(&root.right),
                    );
                    proof {
                        reveal_with_fuel(tree, 2);
                        reveal_with_fuel(ordered, 2);
                        assert(tree(Some(turned)) =~= tree(Some(root)));
                        assert(ordered(Some(turned)));
                    }
                    let r = rotate_right(&turned);
                    proof {
                        if almost_balanced(&*root) {
                            reveal_with_fuel(balanced, 4);
                        }
                    }
                    r
                } else {
                    let r = rotate_right(&root);
                    proof {
                        if almost_balanced(&*root) {
                            reveal_with_fuel(balanced, 3);
                        }
                    }
                    r
                }
            },
            None => root,
        }
    } else if heavier(height(&root.right), height(&root.left)) {
        match &root.right {
            Some(right) => {
                if height(&right.left) > height(&right.right) {
                    let inner = rotate_right(right);
                    let turned = node(
                        root.key.same(),
                        root.value.clone(),
                        share(&root.left),
                        Some(inner),
                    );
                    proof {
                        reveal_with_fuel(tree, 2);
                        reveal_with_fuel(ordered, 2);
                        assert(tree(Some(turned)) =~= tree(Some(root)));
                        assert(ordered(Some(turned)));
                    }
                    let r = rotate_left(&turned);
                    proof {
                        if almost_balanced(&*root) {
                            reveal_with_fuel(balanced, 4);
                        }
                    }
                    r
                } else {
                    let r = rotate_left(&root);
                    proof {
                        if almost_balanced(&*root) {
                            reveal_with_fuel(balanced, 3);
                        }
                    }
                    r
                }
            },
            None => root,
        }
    } else {
        root
    }
}

fn insert<K: OrderedKey, V>(root: &Link<K, V>, key: K, value: Arc<V>) -> (r: Arc<Node<K, V>>)
    requires
        ordered(*root),
    ensures
        ordered(Some(r)),
        tree(Some(r)) == tree(*root).insert(key, *value),
        balanced(*root) && height_of(*root) < usize::MAX ==> balanced(Some(r)) && (height_of(
            Some(r),
        ) == height_of(*root) || height_of(Some(r)) == height_of(*root) + 1),
    decreases *root,
{
    proof {
        K::order_laws();
    }
    match root {
        None => {
            let r = node(key, value, None, None);
            proof {
                reveal_with_fuel(tree, 2);
                assert(tree(Some(r)) =~= tree(*root).insert(key, *value));
            }
            r
        },
        Some(top) => {
            if key.less(&top.key) {
                let left = insert(&top.left, key.same(), value.clone());
                let updated = node(top.key.same(), top.value.clone(), Some(left), share(&top.right));
                proof {
                    assert(!tree(top.right).contains_key(key));
                    assert(tree(Some(updated)) =~= tree(*root).insert(key, *value));
                }
                balance(updated)
            } else if top.key.less(&key) {
                let right = insert(&top.right, key.same(), value.clone());
                let updated = node(top.key.same(), top.value.clone(), share(&top.left), Some(right));
                proof {
                    assert(!tree(top.left).contains_key(key));
                    assert(tree(Some(updated)) =~= tree(*root).insert(key, *value));
                }
                balance(updated)
            } else {
                let r = node(key, value, share(&top.left), share(&top.right));
                proof {
                    assert(tree(Some(r)) =~= tree(*root).insert(key, *value));
                }
                r
            }
        },
    }
}

/// Joins two trees around an entry that lies between them.
fn join<K: OrderedKey, V>(left: Link<K, V>, key: K, value: Arc<V>, right: Link<K, V>) -> (r: Arc<
    Node<K, V>,
>)
    requires
        ordered(left),
        ordered(right),
        forall|k: K| #[trigger] tree(left).contains_key(k) ==> k.before(key),
        forall|k: K| #[trigger] tree(right).contains_key(k) ==> key.before(k),
    ensures
        ordered(Some(r)),
        tree(Some(r)) == tree(left).union_prefer_right(tree(right)).insert(key, *value),
        balanced(left) && balanced(right) && taller(height_of(left), height_of(right))
            < usize::MAX ==> {
            let top = taller(height_of(left), height_of(right));
            balanced(Some(r)) && (height_of(Some(r)) == top || height_of(Some(r)) == top + 1)
        },
    decreases left, right,
{
    proof {
        K::order_laws();
    }
    if heavier(height(&left), height(&right)) {
        match &left {
            Some(top) => {
                assert(tree(left).contains_key(top.key));
                assert forall|k: K| #[trigger] tree(top.right).contains_key(k) implies k.before(
                    key,
                ) by {
                    assert(tree(left).contains_key(k));
                }
                let ghost whole = right;
                let inner = join(share(&top.right), key.same(), value.clone(), right);
                let updated = node(top.key.same(), top.value.clone(), share(&top.left), Some(inner));
                proof {
                    assert forall|k: K| #[trigger] tree(Some(inner)).contains_key(
                        k,
                    ) implies top.key.before(k) by {
                        if tree(whole).contains_key(k) {
                            assert(key.before(k));
                        }
                    }
                    assert(ordered(Some(updated)));
                    assert forall|k: K| #[trigger] tree(top.left).contains_key(k) implies tree(
                        left,
                    ).contains_key(k) by {}
                    assert(tree(Some(updated)) =~= tree(left).union_prefer_right(
                        tree(whole),
                    ).insert(key, *value));
                }
                balance(updated)
            },
            None => node(key, value, None, right),
        }
    } else if heavier(height(&right), height(&left)) {
        match &right {
            Some(top) => {
                assert(tree(right).contains_key(top.key));
                assert forall|k: K| #[trigger] tree(top.left).contains_key(k) implies key.before(
                    k,
                ) by {
                    assert(tree(right).contains_key(k));
                }
                let ghost whole = left;
                let inner = join(left, key.same(), value.clone(), share(&top.left));
                let updated = node(top.key.same(), top.value.clone(), Some(inner), share(&top.right));
                proof {
                    assert forall|k: K| #[trigger] tree(Some(inner)).contains_key(
                        k,
                    ) implies k.before(top.key) by {
                        if tree(whole).contains_key(k) {
                            assert(k.before(key));
                        }
                    }
                    assert(ordered(Some(updated)));
                    lemma_tree(*top);
                    lemma_tree(updated);
                    assert(tree(Some(updated)) =~= tree(whole).union_prefer_right(
                        tree(right),
                    ).insert(key, *value));
                }
                balance(updated)
            },
            None => node(key, value, left, None),
        }
    } else {
        node(key, value, left, right)
    }
}

/// The tree without the keys before `key`.
fn retain_from<K: OrderedKey, V>(root: &Link<K, V>, key: &K) -> (r: Link<K, V>)
    requires
        ordered(*root),
    ensures
        ordered(r),
        tree(r) == tree(*root).restrict(Set::new(|k: K| !k.before(*key))),
        balanced(*root) ==> balanced(r) && height_of(r) <= height_of(*root),
    decreases *root,
{
    proof {
        K::order_laws();
    }
    let ghost kept = Set::new(|k: K| !k.before(*key));
    match root {
        None => {
            assert(tree(*root).restrict(kept) =~= tree(*root));
            None
        },
        Some(top) => {
            if top.key.less(key) {
                let r = retain_from(&top.right, key);
                proof {
                    lemma_tree(*top);
                    assert(tree(*root).restrict(kept) =~= tree(top.right).restrict(kept));
                }
                r
            } else {
                let left = retain_from(&top.left, key);
                let ghost rest = left;
                let r = join(left, top.key.same(), top.value.clone(), share(&top.right));
                proof {
                    assert(tree(*root).restrict(kept) =~= tree(Some(r))) by {
                        assert forall|k: K| #[trigger] tree(top.right).contains_key(
                            k,
                        ) implies kept.contains(k) by {}
                    }
                }
                Some(r)
            }
        },
    }
}

/// The first entry of a tree, and the tree without it.
fn pop_first<K: OrderedKey, V>(top: &Arc<Node<K, V>>) -> (r: (K, Arc<V>, Link<K, V>))
    requires
        ordered(Some(*top)),
    ensures
        ordered(r.2),
        tree(Some(*top)).contains_key(r.0),
        tree(Some(*top))[r.0] == *r.1,
        tree(r.2) == tree(Some(*top)).remove(r.0),
        forall|k: K| #[trigger] tree(r.2).contains_key(k) ==> r.0.before(k),
        balanced(Some(*top)) ==> balanced(r.2) && height_of(r.2) <= height_of(Some(*top)),
    decreases *top,
{
    proof {
        K::order_laws();
    }
    match &top.left {
        None => {
            proof {
                lemma_tree(*top);
                assert(tree(top.left) =~= Map::empty());
                assert(!tree(top.right).contains_key(top.key));
                assert(tree(Some(*top)).remove(top.key) =~= tree(top.right));
            }
            (top.key.same(), top.value.clone(), share(&top.right))
        },
        Some(left) => {
            let (k, v, rest) = pop_first(left);
            let ghost less = rest;
            proof {
                lemma_tree(*top);
                assert(tree(top.left).contains_key(k));
                assert forall|j: K| #[trigger] tree(less).contains_key(j) implies j.before(
                    top.key,
                ) by {
                    assert(tree(top.left).contains_key(j));
                }
            }
            let joined = join(rest, top.key.same(), top.value.clone(), share(&top.right));
            proof {
                assert(!tree(top.right).contains_key(k));
                assert(tree(Some(joined)) =~= tree(Some(*top)).remove(k)) by {
                    assert(tree(less) == tree(top.left).remove(k));
                }
                assert forall|j: K| #[trigger] tree(Some(joined)).contains_key(j) implies k.before(
                    j,
                ) by {
                    if tree(less).contains_key(j) {
                    } else {
                        assert(k.before(top.key));
                    }
                }
            }
            (k, v, Some(joined))
        },
    }
}

/// The tree without a key.
fn remove<K: OrderedKey, V>(root: &Link<K, V>, key: &K) -> (r: Link<K, V>)
    requires
        ordered(*root),
    ensures
        ordered(r),
        tree(r) == tree(*root).remove(*key),
        balanced(*root) ==> balanced(r) && height_of(r) <= height_of(*root),
    decreases *root,
{
    proof {
        K::order_laws();
    }
    match root {
        None => {
            assert(tree(*root).remove(*key) =~= tree(*root));
            None
        },
        Some(top) => {
            proof {
                lemma_tree(*top);
            }
            if key.less(&top.key) {
                let left = remove(&top.left, key);
                let ghost less = left;
                proof {
                    assert forall|j: K| #[trigger] tree(less).contains_key(j) implies j.before(
                        top.key,
                    ) by {
                        assert(tree(top.left).contains_key(j));
                    }
                }
                let r = join(left, top.key.same(), top.value.clone(), share(&top.right));
                proof {
                    assert(!tree(top.right).contains_key(*key));
                    assert(tree(Some(r)) =~= tree(*root).remove(*key));
                }
                Some(r)
            } else if top.key.less(key) {
                let right = remove(&top.right, key);
                let ghost less = right;
                proof {
                    assert forall|j: K| #[trigger] tree(less).contains_key(j) implies top.key.before(
                        j,
                    ) by {
                        assert(tree(top.right).contains_key(j));
                    }
                }
                let r = join(share(&top.left), top.key.same(), top.value.clone(), right);
                proof {
                    assert(!tree(top.left).contains_key(*key));
                    assert(tree(Some(r)) =~= tree(*root).remove(*key));
                }
                Some(r)
            } else {
                proof {
                    assert(!tree(top.left).contains_key(*key));
                    assert(!tree(top.right).contains_key(*key));
                }
                match &top.right {
                    None => {
                        proof {
                            assert(tree(top.right) =~= Map::empty());
                            assert(tree(*root).remove(*key) =~= tree(top.left));
                        }
                        share(&top.left)
                    },
                    Some(right) => {
                        let (k, v, rest) = pop_first(right);
                        let ghost less = rest;
                        proof {
                            assert(tree(top.right).contains_key(k));
                            assert forall|j: K| #[trigger] tree(top.left).contains_key(
                                j,
                            ) implies j.before(k) by {
                                assert(j.before(top.key) && top.key.before(k));
                            }
                        }
                        let ghost kept = v;
                        let r = join(share(&top.left), k, v, rest);
                        proof {
                            assert(tree(less) == tree(top.right).remove(k));
                            assert(tree(Some(r)) =~= tree(*root).remove(*key)) by {
                                assert(tree(top.right)[k] == *kept);
                                assert(!tree(top.left).contains_key(k));
                            }
                        }
                        Some(r)
                    },
                }
            }
        },
    }
}

/// Whether a tree's recorded heights are right and its sides are level to within one.
fn check<K, V>(link: &Link<K, V>) -> (r: bool)
    ensures
        r == balanced(*link),
    decreases *link,
{
    match link {
        None => true,
        Some(n) => {
            let l: usize = height(&n.left);
            let r: usize = height(&n.right);
            check(&n.left) && check(&n.right) && !heavier(l, r) && !heavier(r, l) && n.height > 0
                && n.height - 1 == (if l >= r {
                l
            } else {
                r
            })
        },
    }
}

/// From left to right a tree lists its map in order.
proof fn lemma_inorder<K: OrderedKey, V>(link: Link<K, V>)
    requires
        ordered(link),
    ensures
        increasing(inorder(link)),
        lists(inorder(link), tree(link)),
    decreases link,
{
    match link {
        None => {
            reveal(increasing);
            reveal(lists);
        },
        Some(n) => {
            reveal(increasing);
            reveal(lists);
            K::order_laws();
            lemma_tree(n);
            let n = &*n;
            lemma_inorder(n.left);
            lemma_inorder(n.right);
            let (l, r) = (inorder(n.left), inorder(n.right));
            let s = inorder(link);
            let at = l.len() as int;
            assert forall|i: int| 0 <= i < s.len() implies s[i] == (if i < at {
                l[i]
            } else if i == at {
                (n.key, *n.value)
            } else {
                r[i - at - 1]
            }) by {}
            assert forall|i: int, j: int| 0 <= i < j < s.len() implies (#[trigger] s[i]).0.before(
                (#[trigger] s[j]).0,
            ) by {
                if i < at {
                    assert(tree(n.left).contains_key(l[i].0));
                }
                if j > at {
                    assert(tree(n.right).contains_key(r[j - at - 1].0));
                }
            }
            assert forall|i: int| 0 <= i < s.len() implies tree(link).contains_key(
                (#[trigger] s[i]).0,
            ) && tree(link)[s[i].0] == s[i].1 by {
                if i < at {
                    assert(tree(n.left).contains_key(l[i].0));
                }
                if i > at {
                    assert(tree(n.right).contains_key(r[i - at - 1].0));
                }
            }
            assert forall|k: K| #[trigger] tree(link).contains_key(k) implies exists|i: int|
                0 <= i < s.len() && (#[trigger] s[i]).0 == k by {
                if k == n.key {
                    assert(s[at].0 == k);
                } else if tree(n.left).contains_key(k) {
                    let i = choose|i: int| 0 <= i < l.len() && (#[trigger] l[i]).0 == k;
                    assert(s[i].0 == k);
                } else {
                    let i = choose|i: int| 0 <= i < r.len() && (#[trigger] r[i]).0 == k;
                    assert(s[i + at + 1].0 == k);
                }
            }
        },
    }
}

spec fn entry_of<K, V>(n: &Node<K, V>) -> (K, V) {
    (n.key, *n.value)
}

/// What is left to visit: the nodes on a stack, each followed by what lies right of it.
spec fn pending<K, V>(stack: Seq<&Node<K, V>>) -> Seq<(K, V)>
    decreases stack.len(),
{
    if stack.len() == 0 {
        Seq::empty()
    } else {
        let n = stack.last();
        seq![entry_of(n)] + inorder(n.right) + pending(stack.drop_last())
    }
}

/// Whether what lies right of each node on a stack is ordered.
#[verifier::opaque]
spec fn sound_stack<K: OrderedKey, V>(stack: Seq<&Node<K, V>>) -> bool {
    forall|i: int| 0 <= i < stack.len() ==> ordered((#[trigger] stack[i]).right)
}

/// Nothing is left to visit under an empty stack.
proof fn lemma_none<K: OrderedKey, V>()
    ensures
        pending(Seq::<&Node<K, V>>::empty()) == Seq::<(K, V)>::empty(),
        sound_stack(Seq::<&Node<K, V>>::empty()),
        increasing(Seq::<(K, V)>::empty()),
        forall|p: spec_fn((K, V)) -> bool| #[trigger]
            Seq::<(K, V)>::empty().filter(p) == Seq::<(K, V)>::empty(),
{
    reveal(increasing);
    reveal(sound_stack);
    assert forall|p: spec_fn((K, V)) -> bool| #[trigger]
        Seq::<(K, V)>::empty().filter(p) == Seq::<(K, V)>::empty() by {
        lemma_filter_none(Seq::<(K, V)>::empty(), p);
    }
}

proof fn lemma_push<K: OrderedKey, V>(stack: Seq<&Node<K, V>>, n: &Node<K, V>)
    ensures
        pending(stack.push(n)) == seq![entry_of(n)] + (inorder(n.right) + pending(stack)),
        sound_stack(stack.push(n)) == (sound_stack(stack) && ordered(n.right)),
{
    reveal(sound_stack);
    let t = stack.push(n);
    assert(t.drop_last() =~= stack);
    assert(pending(t) =~= seq![entry_of(n)] + (inorder(n.right) + pending(stack)));
    assert forall|i: int| 0 <= i < stack.len() implies stack[i] == #[trigger] t[i] by {}
    if sound_stack(t) {
        assert(t[stack.len() as int] == n);
        assert forall|i: int| 0 <= i < stack.len() implies ordered(
            (#[trigger] stack[i]).right,
        ) by {
            assert(t[i] == stack[i]);
        }
    }
}

spec fn not_below<K: OrderedKey, V>(lower: Bound<K>) -> spec_fn((K, V)) -> bool {
    |e: (K, V)| above(lower, e.0)
}

spec fn not_beyond<K: OrderedKey, V>(upper: Bound<K>) -> spec_fn((K, V)) -> bool {
    |e: (K, V)| within(upper, e.0)
}

proof fn lemma_filter_twice<T>(
    s: Seq<T>,
    p: spec_fn(T) -> bool,
    q: spec_fn(T) -> bool,
    both: spec_fn(T) -> bool,
)
    requires
        forall|x: T| #[trigger] both(x) == (p(x) && q(x)),
    ensures
        s.filter(p).filter(q) == s.filter(both),
    decreases s.len(),
{
    reveal(Seq::filter);
    if s.len() > 0 {
        lemma_filter_twice(s.drop_last(), p, q, both);
        assert(both(s.last()) == (p(s.last()) && q(s.last())));
        if p(s.last()) {
            assert(s.drop_last().filter(p).push(s.last()).drop_last() =~= s.drop_last().filter(p));
        }
    }
}

proof fn lemma_filter_increasing<K: OrderedKey, V>(s: Seq<(K, V)>, p: spec_fn((K, V)) -> bool)
    requires
        increasing(s),
    ensures
        increasing(s.filter(p)),
        forall|i: int|
            0 <= i < s.filter(p).len() ==> exists|j: int|
                0 <= j < s.len() && s[j] == #[trigger] s.filter(p)[i],
    decreases s.len(),
{
    reveal(Seq::filter);
    reveal(increasing);
    if s.len() > 0 {
        let head = s.drop_last();
        lemma_filter_increasing(head, p);
        let t = s.filter(p);
        assert forall|i: int| 0 <= i < t.len() implies exists|j: int|
            0 <= j < s.len() && s[j] == #[trigger] t[i] by {
            if i < head.filter(p).len() {
                let j = choose|j: int| 0 <= j < head.len() && head[j] == head.filter(p)[i];
                assert(s[j] == t[i]);
            } else {
                assert(s[s.len() - 1] == t[i]);
            }
        }
        assert forall|i: int, j: int| 0 <= i < j < t.len() implies (#[trigger] t[i]).0.before(
            (#[trigger] t[j]).0,
        ) by {
            if j < head.filter(p).len() {
                assert(t[i] == head.filter(p)[i] && t[j] == head.filter(p)[j]);
            } else {
                assert(t[i] == head.filter(p)[i]);
                let m = choose|m: int| 0 <= m < head.len() && head[m] == head.filter(p)[i];
                assert(s[m].0.before(s[s.len() - 1].0));
            }
        }
    }
}

/// Below a node outside the range only its right side counts; below one inside it, all of its
/// right side does.
proof fn lemma_descend<K: OrderedKey, V>(n: &Node<K, V>, lower: Bound<K>)
    requires
        ordered(n.left),
        ordered(n.right),
        forall|k: K| #[trigger] tree(n.left).contains_key(k) ==> k.before(n.key),
        forall|k: K| #[trigger] tree(n.right).contains_key(k) ==> n.key.before(k),
    ensures
        ({
            let p = not_below::<K, V>(lower);
            let whole = inorder(n.left) + seq![entry_of(n)] + inorder(n.right);
            whole.filter(p) == if above(lower, n.key) {
                inorder(n.left).filter(p) + seq![entry_of(n)] + inorder(n.right)
            } else {
                inorder(n.right).filter(p)
            }
        }),
{
    reveal(lists);
    K::order_laws();
    lemma_inorder(n.left);
    lemma_inorder(n.right);
    let p = not_below::<K, V>(lower);
    let here = seq![entry_of(n)];
    let (l, r) = (inorder(n.left), inorder(n.right));
    Seq::filter_distributes_over_add(l + here, r, p);
    Seq::filter_distributes_over_add(l, here, p);
    lemma_filter_one(entry_of(n), p);
    assert forall|i: int| 0 <= i < l.len() implies (#[trigger] l[i]).0.before(n.key) by {
        assert(tree(n.left).contains_key(l[i].0));
    }
    assert forall|i: int| 0 <= i < r.len() implies n.key.before((#[trigger] r[i]).0) by {
        assert(tree(n.right).contains_key(r[i].0));
    }
    if above(lower, n.key) {
        lemma_filter_all(r, p);
    } else {
        lemma_filter_none(l, p);
        assert((l + here + r).filter(p) =~= r.filter(p));
    }
}

proof fn lemma_tail<K: OrderedKey, V>(first: (K, V), rest: Seq<(K, V)>)
    requires
        increasing(seq![first] + rest),
    ensures
        increasing(rest),
{
    reveal(increasing);
    let s = seq![first] + rest;
    assert forall|i: int, j: int| 0 <= i < j < rest.len() implies (#[trigger] rest[i]).0.before(
        (#[trigger] rest[j]).0,
    ) by {
        assert(s[i + 1] == rest[i] && s[j + 1] == rest[j]);
    }
}

/// The first entry and the rest, as far as the end lets them pass: once one entry lies beyond it,
/// all the later ones do.
proof fn lemma_first<K: OrderedKey, V>(first: (K, V), rest: Seq<(K, V)>, upper: Bound<K>)
    requires
        increasing(seq![first] + rest),
    ensures
        (seq![first] + rest).filter(not_beyond(upper)) == (if within(upper, first.0) {
            seq![first] + rest.filter(not_beyond(upper))
        } else {
            Seq::empty()
        }),
{
    let s = seq![first] + rest;
    let q = not_beyond::<K, V>(upper);
    Seq::filter_distributes_over_add(seq![first], rest, q);
    lemma_filter_one(first, q);
    if !within(upper, first.0) {
        assert forall|i: int| 0 <= i < rest.len() implies !q(#[trigger] rest[i]) by {
            assert(s[0].0.before(s[i + 1].0)) by {
                reveal(increasing);
            reveal(lists);
            }
            K::order_laws();
        }
        lemma_filter_none(rest, q);
        assert(s.filter(q) =~= Seq::empty());
    }
}

/// Puts a tree before what is left to visit.
fn descend<'a, K: OrderedKey, V>(stack: Vec<&'a Node<K, V>>, link: &'a Link<K, V>) -> (r: Vec<
    &'a Node<K, V>,
>)
    requires
        ordered(*link),
        sound_stack(stack@),
    ensures
        pending(r@) == inorder(*link) + pending(stack@),
        sound_stack(r@),
{
    let mut r = stack;
    let mut current = link;
    loop
        invariant
            inorder(*link) + pending(stack@) == inorder(*current) + pending(r@),
            ordered(*current),
            sound_stack(r@),
        decreases *current,
    {
        match current {
            None => {
                proof {
                    assert(inorder(*current) + pending(r@) =~= pending(r@));
                }
                return r;
            },
            Some(n) => {
                proof {
                    lemma_push(r@, &**n);
                    assert(inorder(*current) + pending(r@) =~= inorder(n.left) + pending(
                        r@.push(&**n),
                    ));
                }
                r.push(n);
                current = &n.left;
            },
        }
    }
}

/// Takes the first entry off what is left to visit, unless it lies beyond the end.
fn advance<'a, K: OrderedKey, V>(stack: Vec<&'a Node<K, V>>, end: &Bound<K>) -> (r: (
    Vec<&'a Node<K, V>>,
    Option<(&'a K, &'a V)>,
))
    requires
        increasing(pending(stack@)),
        sound_stack(stack@),
    ensures
        increasing(pending(r.0@)),
        sound_stack(r.0@),
        ({
            let was = pending(stack@).filter(not_beyond(*end));
            let is = pending(r.0@).filter(not_beyond(*end));
            match r.1 {
                None => was == Seq::<(K, V)>::empty() && is == Seq::<(K, V)>::empty(),
                Some((k, v)) => was == seq![(*k, *v)] + is,
            }
        }),
{
    let ghost whole = stack@;
    let mut stack = stack;
    let n: &'a Node<K, V> = match stack.pop() {
        None => {
            proof {
                lemma_none::<K, V>();
                assert(stack@ =~= Seq::empty());
            }
            return (stack, None);
        },
        Some(n) => n,
    };
    let ghost rest = inorder(n.right) + pending(stack@);
    proof {
        lemma_push(stack@, n);
        assert(whole =~= stack@.push(n));
        lemma_first(entry_of(n), rest, *end);
    }
    let beyond: bool = match end {
        Bound::Included(key) => key.less(&n.key),
        Bound::Excluded(key) => !n.key.less(key),
        Bound::Unbounded => false,
    };
    if beyond {
        stack = Vec::new();
        proof {
            lemma_none::<K, V>();
            assert(stack@ =~= Seq::empty());
        }
        return (stack, None);
    }
    proof {
        lemma_tail(entry_of(n), rest);
    }
    let stack = descend(stack, &n.right);
    (stack, Some((&n.key, &n.value)))
}

/// A visit of the entries in a key range.
pub struct Range<'a, K: OrderedKey, V> {
    stack: Vec<&'a Node<K, V>>,
    end: Bound<K>,
}

impl<'a, K: OrderedKey, V> Range<'a, K, V> {
    #[verifier::type_invariant]
    spec fn sound(self) -> bool {
        &&& increasing(pending(self.stack@))
        &&& sound_stack(self.stack@)
    }

    /// The entries still to come.
    pub closed spec fn remaining(&self) -> Seq<(K, V)> {
        pending(self.stack@).filter(not_beyond(self.end))
    }

    /// The next entry.
    pub fn next(&mut self) -> (r: Option<(&'a K, &'a V)>)
        ensures
            match r {
                None => old(self).remaining() == Seq::<(K, V)>::empty() && final(self).remaining()
                    == Seq::<(K, V)>::empty(),
                Some((k, v)) => old(self).remaining() == seq![(*k, *v)] + final(self).remaining(),
            },
    {
        proof {
            use_type_invariant(&*self);
        }
        let mut stack: Vec<&'a Node<K, V>> = Vec::new();
        proof {
            lemma_none::<K, V>();
            assert(stack@ =~= Seq::empty());
        }
        std::mem::swap(&mut stack, &mut self.stack);
        let (rest, entry) = advance(stack, &self.end);
        self.stack = rest;
        entry
    }
}

/// The map.
pub struct OrderedMap<K: OrderedKey, V> {
    root: Link<K, V>,
}

impl<K: OrderedKey, V> View for OrderedMap<K, V> {
    type V = Map<K, V>;

    closed spec fn view(&self) -> Map<K, V> {
        tree(self.root)
    }
}

impl<K: OrderedKey, V> Clone for OrderedMap<K, V> {
    /// Shares every node.
    fn clone(&self) -> (copy: Self)
        ensures
            copy == *self,
    {
        proof {
            use_type_invariant(self);
        }
        Self { root: share(&self.root) }
    }
}

impl<K: OrderedKey, V> Default for OrderedMap<K, V> {
    fn default() -> (map: Self)
        ensures
            map@ == Map::<K, V>::empty(),
            map.balanced(),
    {
        Self::new()
    }
}

impl<K: OrderedKey, V> OrderedMap<K, V> {
    #[verifier::type_invariant]
    spec fn sound(self) -> bool {
        ordered(self.root)
    }

    /// The entries in the order of their keys.
    pub closed spec fn entries(&self) -> Seq<(K, V)> {
        inorder(self.root)
    }

    /// The height of the tree.
    pub closed spec fn height(&self) -> nat {
        height_of(self.root)
    }

    /// Whether the two sides of every node differ in height by one at most.
    pub closed spec fn balanced(&self) -> bool {
        balanced(self.root)
    }

    /// An empty map.
    pub fn new() -> (map: Self)
        ensures
            map@ == Map::<K, V>::empty(),
            map.balanced(),
            map.height() == 0,
    {
        Self { root: None }
    }

    /// Drops every entry.
    pub fn clear(&mut self)
        ensures
            final(self)@ == Map::<K, V>::empty(),
            final(self).balanced(),
    {
        self.root = None;
    }

    /// Decides whether the tree is balanced.
    pub fn is_balanced(&self) -> (r: bool)
        ensures
            r == self.balanced(),
    {
        check(&self.root)
    }

    /// The entry with the greatest key that is not after `key`.
    pub fn floor(&self, key: &K) -> (r: Option<(&K, &V)>)
        ensures
            match r {
                Some((k, v)) => {
                    &&& self@.contains_key(*k) && self@[*k] == *v
                    &&& !key.before(*k)
                    &&& forall|other: K| #[trigger]
                        self@.contains_key(other) ==> other == *k || other.before(*k) || key.before(
                            other,
                        )
                },
                None => forall|other: K| #[trigger] self@.contains_key(other) ==> key.before(other),
            },
    {
        proof {
            use_type_invariant(self);
            K::order_laws();
        }
        let mut current = &self.root;
        let mut result: Option<(&K, &V)> = None;
        loop
            invariant
                ordered(*current),
                forall|k: K| #[trigger]
                    tree(*current).contains_key(k) ==> self@.contains_key(k) && self@[k] == tree(
                        *current,
                    )[k] && (result is Some ==> result.unwrap().0.before(k)),
                match result {
                    Some((k, v)) => {
                        &&& self@.contains_key(*k) && self@[*k] == *v
                        &&& !key.before(*k)
                        &&& forall|other: K| #[trigger]
                            self@.contains_key(other) ==> other == *k || other.before(*k)
                                || key.before(other) || tree(*current).contains_key(other)
                    },
                    None => forall|other: K| #[trigger]
                        self@.contains_key(other) ==> key.before(other) || tree(
                            *current,
                        ).contains_key(other),
                },
            decreases *current,
        {
            proof {
                K::order_laws();
            }
            match current {
                None => {
                    return result;
                },
                Some(n) => {
                    proof {
                        lemma_tree(*n);
                        lemma_sides(*n);
                    }
                    if key.less(&n.key) {
                        current = &n.left;
                    } else {
                        result = Some((&n.key, &n.value));
                        current = &n.right;
                    }
                },
            }
        }
    }

    /// Drops the entries with keys before `key`.
    pub fn retain_from(&mut self, key: &K)
        ensures
            final(self)@ == old(self)@.restrict(Set::new(|k: K| !k.before(*key))),
            old(self).balanced() ==> final(self).balanced() && final(self).height() <= old(
                self,
            ).height(),
    {
        proof {
            use_type_invariant(&*self);
        }
        let root = retain_from(&self.root, key);
        self.root = root;
    }

    /// Drops the entry under `key`, if there is one.
    pub fn remove(&mut self, key: &K)
        ensures
            final(self)@ == old(self)@.remove(*key),
            old(self).balanced() ==> final(self).balanced() && final(self).height() <= old(
                self,
            ).height(),
    {
        proof {
            use_type_invariant(&*self);
        }
        let root = remove(&self.root, key);
        self.root = root;
    }

    /// What the map holds under `key`.
    pub fn get(&self, key: &K) -> (r: Option<&V>)
        ensures
            r == (if self@.contains_key(*key) {
                Some(&self@[*key])
            } else {
                None
            }),
    {
        proof {
            use_type_invariant(self);
        }
        let mut current = &self.root;
        loop
            invariant
                ordered(*current),
                self@.contains_key(*key) <==> tree(*current).contains_key(*key),
                self@.contains_key(*key) ==> self@[*key] == tree(*current)[*key],
            decreases *current,
        {
            match current {
                None => {
                    return None;
                },
                Some(n) => {
                    proof {
                        K::order_laws();
                        lemma_tree(*n);
                        lemma_sides(*n);
                    }
                    if key.less(&n.key) {
                        current = &n.left;
                    } else if n.key.less(key) {
                        current = &n.right;
                    } else {
                        return Some(&n.value);
                    }
                },
            }
        }
    }

    /// Whether the map holds `key`.
    pub fn contains_key(&self, key: &K) -> (r: bool)
        ensures
            r == self@.contains_key(*key),
    {
        self.get(key).is_some()
    }

    /// Puts `value` under `key`, in place of what was there.
    pub fn insert(&mut self, key: K, value: V)
        ensures
            final(self)@ == old(self)@.insert(key, value),
            old(self).balanced() && old(self).height() < usize::MAX ==> final(self).balanced()
                && final(self).height() <= old(self).height() + 1,
    {
        proof {
            use_type_invariant(&*self);
        }
        let root = insert(&self.root, key, Arc::new(value));
        self.root = Some(root);
    }

    /// All entries in the order of their keys.
    pub fn items(&self) -> (out: Vec<(&K, &V)>)
        ensures
            out@.map_values(|e: (&K, &V)| (*e.0, *e.1)) == self.entries(),
            increasing(self.entries()),
            lists(self.entries(), self@),
    {
        let mut out: Vec<(&K, &V)> = Vec::new();
        let mut range = self.range(Bound::Unbounded, Bound::Unbounded);
        let ghost all = self.entries();
        proof {
            lemma_filter_all(all, |e: (K, V)| above(Bound::Unbounded, e.0) && within(Bound::Unbounded, e.0));
            assert(out@.map_values(|e: (&K, &V)| (*e.0, *e.1)) =~= Seq::empty());
            assert(Seq::<(K, V)>::empty() + all =~= all);
        }
        loop
            invariant
                all == self.entries(),
                increasing(all),
                lists(all, self@),
                out@.map_values(|e: (&K, &V)| (*e.0, *e.1)) + range.remaining() == all,
            decreases range.remaining().len(),
        {
            let ghost before = out@.map_values(|e: (&K, &V)| (*e.0, *e.1));
            match range.next() {
                None => {
                    proof {
                        assert(before + Seq::<(K, V)>::empty() =~= before);
                    }
                    return out;
                },
                Some((k, v)) => {
                    out.push((k, v));
                    proof {
                        assert(out@.map_values(|e: (&K, &V)| (*e.0, *e.1)) =~= before.push(
                            (*k, *v),
                        ));
                        assert(before.push((*k, *v)) + range.remaining() =~= before + (seq![
                            (*k, *v),
                        ] + range.remaining()));
                    }
                },
            }
        }
    }

    /// Visits the entries between two ends in the order of their keys.
    pub fn range(&self, lower: Bound<K>, upper: Bound<K>) -> (r: Range<'_, K, V>)
        ensures
            r.remaining() == self.entries().filter(
                |e: (K, V)| above(lower, e.0) && within(upper, e.0),
            ),
            increasing(self.entries()),
            lists(self.entries(), self@),
    {
        proof {
            use_type_invariant(self);
        }
        let mut stack: Vec<&Node<K, V>> = Vec::new();
        let mut current = &self.root;
        let ghost p = not_below::<K, V>(lower);
        proof {
            lemma_none::<K, V>();
            assert(stack@ =~= Seq::empty());
            assert(inorder(*current).filter(p) + pending(stack@) =~= inorder(*current).filter(p));
        }
        loop
            invariant
                p == not_below::<K, V>(lower),
                ordered(*current),
                ordered(self.root),
                inorder(self.root).filter(p) == inorder(*current).filter(p) + pending(stack@),
                sound_stack(stack@),
            decreases *current,
        {
            match current {
                None => {
                    proof {
                        lemma_filter_none(inorder(*current), p);
                        assert(inorder(self.root).filter(p) =~= pending(stack@));
                        let q = not_beyond::<K, V>(upper);
                        let both = |e: (K, V)| above(lower, e.0) && within(upper, e.0);
                        lemma_filter_twice(inorder(self.root), p, q, both);
                        lemma_inorder(self.root);
                        lemma_filter_increasing(inorder(self.root), p);
                    }
                    return Range { stack, end: upper };
                },
                Some(n) => {
                    let below: bool = match &lower {
                        Bound::Included(key) => n.key.less(key),
                        Bound::Excluded(key) => !key.less(&n.key),
                        Bound::Unbounded => false,
                    };
                    proof {
                        lemma_descend(&**n, lower);
                        if !below {
                            lemma_push(stack@, &**n);
                            assert(inorder(*current).filter(p) + pending(stack@) =~= inorder(
                                n.left,
                            ).filter(p) + pending(stack@.push(&**n)));
                        }
                    }
                    if below {
                        current = &n.right;
                    } else {
                        stack.push(n);
                        current = &n.left;
                    }
                },
            }
        }
    }
}

/// Two to the power of half the height, rounded down.
pub open spec fn half_power(height: nat) -> nat
    decreases height,
{
    if height < 2 {
        1
    } else {
        2 * half_power((height - 2) as nat)
    }
}

proof fn lemma_half_power(height: nat)
    ensures
        half_power(height) <= half_power(height + 1),
    decreases height,
{
    if height >= 2 {
        lemma_half_power((height - 2) as nat);
    } else {
        assert(half_power((height + 1 - 2) as nat) == 1 || height == 0);
    }
}

proof fn lemma_size<K, V>(link: Link<K, V>)
    requires
        balanced(link),
    ensures
        inorder(link).len() + 1 >= half_power(height_of(link)),
    decreases link,
{
    match link {
        None => {},
        Some(n) => {
            let n = &*n;
            lemma_size(n.left);
            lemma_size(n.right);
            let h = height_of(link);
            if h >= 2 {
                lemma_half_power((h - 2) as nat);
            }
        },
    }
}

/// A balanced map of height `h` holds at least `2^(h/2) - 1` entries, so that paths stay short.
pub proof fn lemma_height<K: OrderedKey, V>(map: &OrderedMap<K, V>)
    requires
        map.balanced(),
    ensures
        half_power(map.height()) <= map.entries().len() + 1,
{
    lemma_size(map.root);
}

} // verus!
