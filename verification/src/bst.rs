//! An unbalanced binary search tree from keys to values.
//!
//! What each operation returns is stated exactly, as a tree, by a spec
//! function that compares keys with the key type's own `==` and `<`. The
//! lemmas at the end say what those trees mean for lookups.
use vstd::laws_cmp::{
    obeys_cmp, obeys_cmp_ord, obeys_cmp_partial_ord, obeys_partial_cmp_spec_properties,
};
use vstd::laws_eq::obeys_concrete_eq;
use vstd::prelude::*;
use vstd::std_specs::cmp::{PartialEqSpec, PartialOrdIs, PartialOrdSpec};

verus! {

#[derive(Debug)]
pub enum BinaryTree<K, V> {
    /// The empty tree.
    Leaf,
    /// A left subtree, an entry and a right subtree.
    Node(Box<BinaryTree<K, V>>, (K, V), Box<BinaryTree<K, V>>),
}

/// The order in which `traverse` visits a node and its two subtrees.
pub enum Traversal {
    /// Left subtree, node, right subtree.
    Inorder,
    /// Node, left subtree, right subtree.
    Preorder,
    /// Left subtree, right subtree, node.
    Postorder,
}

impl<K, V> BinaryTree<K, V> {
    /// The empty tree.
    pub fn new() -> (t: Self)
        ensures
            t == BinaryTree::<K, V>::Leaf,
    {
        BinaryTree::Leaf
    }

    /// Some node of the tree carries the key `k`.
    pub open spec fn has_key(self, k: K) -> bool
        decreases self,
    {
        match self {
            BinaryTree::Leaf => false,
            BinaryTree::Node(l, (key, _), r) => key == k || l.has_key(k) || r.has_key(k),
        }
    }

    /// The values of the tree in the order `t`.
    pub open spec fn spec_traverse(self, t: Traversal) -> Seq<V>
        decreases self,
    {
        match self {
            BinaryTree::Leaf => Seq::empty(),
            BinaryTree::Node(l, (_, v), r) => match t {
                Traversal::Inorder => l.spec_traverse(t) + seq![v] + r.spec_traverse(t),
                Traversal::Preorder => seq![v] + l.spec_traverse(t) + r.spec_traverse(t),
                Traversal::Postorder => l.spec_traverse(t) + r.spec_traverse(t) + seq![v],
            },
        }
    }
}

impl<K: Ord + Eq, V: Clone> BinaryTree<K, V> {
    /// `==` and `<` on keys compute what the key type's specification says.
    pub open spec fn keys_compare_by_spec() -> bool {
        K::obeys_eq_spec() && K::obeys_partial_cmp_spec()
    }

    /// Keys are ordered by a strict order that agrees with `==`.
    pub open spec fn lawful_keys() -> bool {
        obeys_cmp::<K>() && obeys_concrete_eq::<K>()
    }

    /// At every node the keys to the left are less than the node's key and
    /// the keys to the right are greater.
    pub open spec fn ordered(self) -> bool
        decreases self,
    {
        match self {
            BinaryTree::Leaf => true,
            BinaryTree::Node(l, (key, _), r) => {
                &&& l.ordered()
                &&& r.ordered()
                &&& forall|j: K| #[trigger] l.has_key(j) ==> j.is_lt(&key)
                &&& forall|j: K| #[trigger] r.has_key(j) ==> key.is_lt(&j)
            },
        }
    }

    /// The value found by walking down from the root: at a node whose key
    /// equals `k` the walk ends, otherwise it goes left where `k` is less
    /// than the node's key and right where it is not.
    pub open spec fn spec_find(self, k: K) -> Option<V>
        decreases self,
    {
        match self {
            BinaryTree::Leaf => None,
            BinaryTree::Node(l, (key, value), r) => if k.eq_spec(&key) {
                Some(value)
            } else if k.is_lt(&key) {
                l.spec_find(k)
            } else {
                r.spec_find(k)
            },
        }
    }

    /// The tree with `(k, v)` put where the walk for `k` ends: in place of
    /// the entry with an equal key, or as a new node where the walk falls
    /// off the tree.
    pub open spec fn spec_insert(self, k: K, v: V) -> Self
        decreases self,
    {
        match self {
            BinaryTree::Leaf => BinaryTree::Node(
                Box::new(BinaryTree::Leaf),
                (k, v),
                Box::new(BinaryTree::Leaf),
            ),
            BinaryTree::Node(l, (key, value), r) => if k.eq_spec(&key) {
                BinaryTree::Node(l, (k, v), r)
            } else if k.is_lt(&key) {
                BinaryTree::Node(Box::new(l.spec_insert(k, v)), (key, value), r)
            } else {
                BinaryTree::Node(l, (key, value), Box::new(r.spec_insert(k, v)))
            },
        }
    }

    /// Adds the entry `(k, v)`, replacing the entry with an equal key if the
    /// walk for `k` meets one.
    pub fn insert(self, k: K, v: V) -> (res: Self)
        ensures
            Self::keys_compare_by_spec() ==> res == self.spec_insert(k, v),
            Self::lawful_keys() ==> res@ == self@.insert(k, v),
            Self::lawful_keys() && self.ordered() ==> res.ordered(),
        decreases self,
    {
        proof {
            if Self::lawful_keys() {
                lemma_lawful_keys_compare::<K, V>();
                assert forall|j: K| #[trigger]
                    self.spec_insert(k, v).spec_find(j) == (if j == k {
                        Some(v)
                    } else {
                        self.spec_find(j)
                    }) by {
                    lemma_insert_then_find(self, k, v, j);
                }
                if self.ordered() {
                    lemma_insert_keeps_order(self, k, v);
                }
            }
        }
        match self {
            BinaryTree::Leaf => BinaryTree::Node(
                Box::new(BinaryTree::Leaf),
                (k, v),
                Box::new(BinaryTree::Leaf),
            ),
            BinaryTree::Node(l, (key, value), r) => {
                if k == key {
                    BinaryTree::Node(l, (k, v), r)
                } else if k < key {
                    BinaryTree::Node(Box::new(l.insert(k, v)), (key, value), r)
                } else {
                    BinaryTree::Node(l, (key, value), Box::new(r.insert(k, v)))
                }
            },
        }
    }

    /// What `delete` leaves of the tree. The walk for `k` keeps only the
    /// subtree it goes into; where it meets a node with an equal key, a left
    /// child takes the node's place and keeps its own right subtree, else a
    /// right child takes it and keeps its own left subtree, else nothing is
    /// left.
    pub open spec fn spec_delete(self, k: K) -> Self
        decreases self,
    {
        match self {
            BinaryTree::Leaf => BinaryTree::Leaf,
            BinaryTree::Node(l, (key, _), r) => if k.eq_spec(&key) {
                match (*l, *r) {
                    (BinaryTree::Node(ll, (lk, lv), lr), _) => BinaryTree::Node(
                        Box::new(ll.spec_delete(lk)),
                        (lk, lv),
                        lr,
                    ),
                    (BinaryTree::Leaf, BinaryTree::Node(rl, (rk, rv), rr)) => BinaryTree::Node(
                        rl,
                        (rk, rv),
                        Box::new(rr.spec_delete(k)),
                    ),
                    (BinaryTree::Leaf, BinaryTree::Leaf) => BinaryTree::Leaf,
                }
            } else if k.is_lt(&key) {
                l.spec_delete(k)
            } else {
                r.spec_delete(k)
            },
        }
    }

    /// Looks `k` up and hands out a clone of the value found.
    pub fn find(&self, k: &K) -> (res: Option<V>)
        ensures
            Self::keys_compare_by_spec() ==> match res {
                Some(found) => self@.contains_key(*k) && cloned(self@[*k], found),
                None => !self@.contains_key(*k),
            },
        decreases self,
    {
        match self {
            BinaryTree::Leaf => None,
            BinaryTree::Node(l, (key, value), r) => {
                if *k == *key {
                    Some(value.clone())
                } else if *k < *key {
                    l.find(k)
                } else {
                    r.find(k)
                }
            },
        }
    }

    /// Removes the entry for `k` together with whatever the walk for `k`
    /// passes by.
    pub fn delete(self, k: &K) -> (res: Self)
        ensures
            Self::keys_compare_by_spec() ==> res == self.spec_delete(*k),
            Self::lawful_keys() && self.ordered() ==> {
                &&& res.ordered()
                &&& !res@.contains_key(*k)
                &&& res@.submap_of(self@)
            },
        decreases self,
    {
        proof {
            if Self::lawful_keys() && self.ordered() {
                lemma_lawful_keys_compare::<K, V>();
                lemma_delete_in_ordered(self, *k);
            }
        }
        match self {
            BinaryTree::Leaf => BinaryTree::Leaf,
            BinaryTree::Node(l, (key, _), r) => {
                if *k == key {
                    if let BinaryTree::Node(ll, (lk, lv), lr) = *l {
                        BinaryTree::Node(Box::new(ll.delete(&lk)), (lk, lv), lr)
                    } else if let BinaryTree::Node(rl, (rk, rv), rr) = *r {
                        BinaryTree::Node(rl, (rk, rv), Box::new(rr.delete(k)))
                    } else {
                        BinaryTree::Leaf
                    }
                } else if *k < key {
                    l.delete(k)
                } else {
                    r.delete(k)
                }
            },
        }
    }

    /// The values of the tree in the order `t`, each one cloned.
    pub fn traverse(&self, t: &Traversal) -> (res: Vec<V>)
        ensures
            res@.len() == self.spec_traverse(*t).len(),
            forall|i: int|
                0 <= i < res@.len() ==> cloned(#[trigger] self.spec_traverse(*t)[i], res@[i]),
        decreases self,
    {
        let (mut ltrav, v, mut rtrav) = if let BinaryTree::Node(l, (_, v), r) = self {
            (l.traverse(t), v, r.traverse(t))
        } else {
            return Vec::new();
        };
        let mut out: Vec<V> = Vec::new();
        match t {
            Traversal::Inorder => {
                out.append(&mut ltrav);
                out.push(v.clone());
                out.append(&mut rtrav);
            },
            Traversal::Preorder => {
                out.push(v.clone());
                out.append(&mut ltrav);
                out.append(&mut rtrav);
            },
            Traversal::Postorder => {
                out.append(&mut ltrav);
                out.append(&mut rtrav);
                out.push(v.clone());
            },
        }
        out
    }
}

impl<K: Ord + Eq, V: Clone> View for BinaryTree<K, V> {
    type V = Map<K, V>;

    /// What lookups find: the keys for which `find` gives a value, each
    /// with that value.
    open spec fn view(&self) -> Map<K, V> {
        Map::new(|j: K| self.spec_find(j) is Some, |j: K| self.spec_find(j)->0)
    }
}

impl<K: Clone, V: Clone> BinaryTree<K, V> {
    /// `other` has the shape of this tree, and at every node its key and
    /// its value are clones of the key and the value here.
    pub open spec fn cloned_as(self, other: Self) -> bool
        decreases self,
    {
        match self {
            BinaryTree::Leaf => other is Leaf,
            BinaryTree::Node(l, (k, v), r) => {
                &&& other matches BinaryTree::Node(ol, (ok, ov), or)
                &&& cloned(k, ok)
                &&& cloned(v, ov)
                &&& l.cloned_as(*ol)
                &&& r.cloned_as(*or)
            },
        }
    }
}

impl<K: Clone, V: Clone> Clone for BinaryTree<K, V> {
    fn clone(&self) -> (res: Self)
        ensures
            self.cloned_as(res),
        decreases self,
    {
        match self {
            BinaryTree::Leaf => BinaryTree::Leaf,
            BinaryTree::Node(l, (k, v), r) => {
                let left = (**l).clone();
                let right = (**r).clone();
                BinaryTree::Node(Box::new(left), (k.clone(), v.clone()), Box::new(right))
            },
        }
    }
}

/// With lawful keys, `==` and `<` on keys compute what the key type's
/// specification says.
pub proof fn lemma_lawful_keys_compare<K: Ord + Eq, V: Clone>()
    requires
        BinaryTree::<K, V>::lawful_keys(),
    ensures
        BinaryTree::<K, V>::keys_compare_by_spec(),
{
    reveal(obeys_cmp_partial_ord);
}

/// A lookup finds only keys that the tree carries.
pub proof fn lemma_found_key_is_present<K: Ord + Eq, V: Clone>(t: BinaryTree<K, V>, j: K)
    requires
        BinaryTree::<K, V>::lawful_keys(),
        t.spec_find(j) is Some,
    ensures
        t.has_key(j),
    decreases t,
{
    reveal(obeys_concrete_eq);
    match t {
        BinaryTree::Leaf => {},
        BinaryTree::Node(l, (key, _), r) => {
            if j.eq_spec(&key) {
            } else if j.is_lt(&key) {
                lemma_found_key_is_present(*l, j);
            } else {
                lemma_found_key_is_present(*r, j);
            }
        },
    }
}

/// After `insert(k, v)` a lookup of `k` finds `v`, and a lookup of any
/// other key finds what it found before. This holds of every tree, ordered
/// or not.
pub proof fn lemma_insert_then_find<K: Ord + Eq, V: Clone>(t: BinaryTree<K, V>, k: K, v: V, j: K)
    requires
        BinaryTree::<K, V>::lawful_keys(),
    ensures
        t.spec_insert(k, v).spec_find(j) == if j == k {
            Some(v)
        } else {
            t.spec_find(j)
        },
    decreases t,
{
    reveal(obeys_concrete_eq);
    match t {
        BinaryTree::Leaf => {},
        BinaryTree::Node(l, (key, _), r) => {
            if k.eq_spec(&key) {
            } else if k.is_lt(&key) {
                lemma_insert_then_find(*l, k, v, j);
            } else {
                lemma_insert_then_find(*r, k, v, j);
            }
        },
    }
}

/// `insert` adds the key `k` to the keys of the tree and no other.
pub proof fn lemma_insert_keys<K: Ord + Eq, V: Clone>(t: BinaryTree<K, V>, k: K, v: V, j: K)
    requires
        BinaryTree::<K, V>::lawful_keys(),
    ensures
        t.spec_insert(k, v).has_key(j) <==> j == k || t.has_key(j),
    decreases t,
{
    reveal(obeys_concrete_eq);
    match t {
        BinaryTree::Leaf => {},
        BinaryTree::Node(l, (key, _), r) => {
            if k.eq_spec(&key) {
            } else if k.is_lt(&key) {
                lemma_insert_keys(*l, k, v, j);
            } else {
                lemma_insert_keys(*r, k, v, j);
            }
        },
    }
}

/// `insert` keeps an ordered tree ordered.
pub proof fn lemma_insert_keeps_order<K: Ord + Eq, V: Clone>(t: BinaryTree<K, V>, k: K, v: V)
    requires
        BinaryTree::<K, V>::lawful_keys(),
        t.ordered(),
    ensures
        t.spec_insert(k, v).ordered(),
    decreases t,
{
    reveal(obeys_concrete_eq);
    reveal(obeys_cmp_partial_ord);
    reveal(obeys_cmp_ord);
    reveal(obeys_partial_cmp_spec_properties);
    match t {
        BinaryTree::Leaf => {},
        BinaryTree::Node(l, (key, _), r) => {
            if k.eq_spec(&key) {
            } else if k.is_lt(&key) {
                lemma_insert_keeps_order(*l, k, v);
                assert forall|j: K| #[trigger] l.spec_insert(k, v).has_key(j) implies j.is_lt(
                    &key,
                ) by {
                    lemma_insert_keys(*l, k, v, j);
                }
            } else {
                lemma_insert_keeps_order(*r, k, v);
                assert forall|j: K| #[trigger] r.spec_insert(k, v).has_key(j) implies key.is_lt(
                    &j,
                ) by {
                    lemma_insert_keys(*r, k, v, j);
                }
            }
        },
    }
}

/// In an ordered tree a lookup finds every key that the tree carries.
pub proof fn lemma_present_key_is_found<K: Ord + Eq, V: Clone>(t: BinaryTree<K, V>, j: K)
    requires
        BinaryTree::<K, V>::lawful_keys(),
        t.ordered(),
        t.has_key(j),
    ensures
        t.spec_find(j) is Some,
    decreases t,
{
    reveal(obeys_concrete_eq);
    reveal(obeys_cmp_partial_ord);
    reveal(obeys_partial_cmp_spec_properties);
    match t {
        BinaryTree::Leaf => {},
        BinaryTree::Node(l, (key, _), r) => {
            if j.eq_spec(&key) {
            } else if l.has_key(j) {
                lemma_present_key_is_found(*l, j);
            } else {
                lemma_present_key_is_found(*r, j);
            }
        },
    }
}

/// What `delete(k)` does to an ordered tree: the result is ordered again,
/// it does not carry `k`, it carries no key that the tree did not carry,
/// and whatever a lookup finds in it, the same lookup found before. (Keys
/// other than `k` may be gone as well: the walk for `k` drops what it
/// passes by.)
pub proof fn lemma_delete_in_ordered<K: Ord + Eq, V: Clone>(t: BinaryTree<K, V>, k: K)
    requires
        BinaryTree::<K, V>::lawful_keys(),
        t.ordered(),
    ensures
        t.spec_delete(k).ordered(),
        !t.spec_delete(k).has_key(k),
        t.spec_delete(k).spec_find(k) is None,
        forall|j: K| #[trigger] t.spec_delete(k).has_key(j) ==> t.has_key(j),
        forall|j: K| #[trigger]
            t.spec_delete(k).spec_find(j) is Some ==> t.spec_delete(k).spec_find(j) == t.spec_find(
                j,
            ),
    decreases t,
{
    reveal(obeys_concrete_eq);
    reveal(obeys_cmp_partial_ord);
    reveal(obeys_cmp_ord);
    reveal(obeys_partial_cmp_spec_properties);
    let res = t.spec_delete(k);
    match t {
        BinaryTree::Leaf => {},
        BinaryTree::Node(l, (key, _), r) => {
            assert(l.ordered() && r.ordered());
            assert forall|j: K| l.has_key(j) implies t.spec_find(j) == l.spec_find(j) by {}
            assert forall|j: K| r.has_key(j) implies t.spec_find(j) == r.spec_find(j) by {}
            if k.eq_spec(&key) {
                match (*l, *r) {
                    (BinaryTree::Node(ll, (lk, lv), lr), _) => {
                        let dl = ll.spec_delete(lk);
                        lemma_delete_in_ordered(*ll, lk);
                        assert(res == BinaryTree::Node(Box::new(dl), (lk, lv), lr));
                        assert forall|j: K| #[trigger] res.has_key(j) implies l.has_key(j) by {
                            if dl.has_key(j) {
                                assert(ll.has_key(j));
                            }
                        }
                        assert forall|j: K| #[trigger] dl.has_key(j) implies j.is_lt(&lk) by {
                            assert(ll.has_key(j));
                        }
                        assert(res.ordered());
                        assert forall|j: K| #[trigger]
                            res.spec_find(j) is Some implies res.spec_find(j) == t.spec_find(
                            j,
                        ) by {
                            lemma_found_key_is_present(res, j);
                            assert(l.has_key(j));
                            if !j.eq_spec(&lk) && j.is_lt(&lk) {
                                assert(dl.spec_find(j) is Some);
                            }
                            assert(res.spec_find(j) == l.spec_find(j));
                        }
                    },
                    (BinaryTree::Leaf, BinaryTree::Node(rl, (rk, rv), rr)) => {
                        let dr = rr.spec_delete(k);
                        lemma_delete_in_ordered(*rr, k);
                        assert(res == BinaryTree::Node(rl, (rk, rv), Box::new(dr)));
                        assert forall|j: K| #[trigger] res.has_key(j) implies r.has_key(j) by {
                            if dr.has_key(j) {
                                assert(rr.has_key(j));
                            }
                        }
                        assert forall|j: K| #[trigger] dr.has_key(j) implies rk.is_lt(&j) by {
                            assert(rr.has_key(j));
                        }
                        assert(res.ordered());
                        assert forall|j: K| #[trigger]
                            res.spec_find(j) is Some implies res.spec_find(j) == t.spec_find(
                            j,
                        ) by {
                            lemma_found_key_is_present(res, j);
                            assert(r.has_key(j));
                            if !j.eq_spec(&rk) && !j.is_lt(&rk) {
                                assert(dr.spec_find(j) is Some);
                            }
                            assert(res.spec_find(j) == r.spec_find(j));
                        }
                    },
                    (BinaryTree::Leaf, BinaryTree::Leaf) => {},
                }
            } else if k.is_lt(&key) {
                lemma_delete_in_ordered(*l, k);
                assert(res == l.spec_delete(k));
                assert forall|j: K| #[trigger] res.spec_find(j) is Some implies res.spec_find(j)
                    == t.spec_find(j) by {
                    lemma_found_key_is_present(res, j);
                    assert(l.has_key(j));
                }
            } else {
                lemma_delete_in_ordered(*r, k);
                assert(res == r.spec_delete(k));
                assert forall|j: K| #[trigger] res.spec_find(j) is Some implies res.spec_find(j)
                    == t.spec_find(j) by {
                    lemma_found_key_is_present(res, j);
                    assert(r.has_key(j));
                }
            }
        },
    }
    if res.has_key(k) {
        assert(t.has_key(k));
    }
    if res.spec_find(k) is Some {
        lemma_found_key_is_present(res, k);
    }
}

} // verus!
