//! A red-black tree from keys to values.
//!
//! The tree is a search tree whose nodes are coloured so that
//! - a `Leaf` counts as black,
//! - a red node has no red child, and
//! - every way from a node down to a `Leaf` passes the same number of black
//!   nodes.
//!
//! `insert` and `delete` keep these properties and the order of the keys, and
//! change what a lookup finds in the one key they are called with.
use self::lemmas::{
    lemma_balanced_colours, lemma_balanced_entries, lemma_blackened, lemma_key_order, lemma_moved,
    lemma_view_after_delete, lemma_view_after_insert,
};
use vstd::laws_cmp::obeys_cmp;
use vstd::laws_eq::obeys_concrete_eq;
use vstd::pervasive::unreached;
use vstd::prelude::*;
use vstd::std_specs::cmp::{PartialEqSpec, PartialOrdIs, PartialOrdSpec};

pub mod lemmas;

verus! {

/// The colour of a node.
#[derive(Debug, Clone, Copy)]
pub enum Color {
    Red,
    Black,
}

#[derive(Debug)]
pub enum RedBlackTree<K, V> {
    /// The empty tree.
    Leaf,
    /// A left subtree, an entry with its colour, and a right subtree.
    Node(Box<RedBlackTree<K, V>>, (K, V, Color), Box<RedBlackTree<K, V>>),
}

/// The order in which `traverse` visits a node and its two subtrees.
pub enum Traversal {
    /// Left subtree, node, right subtree.
    Inorder,
    /// Node, left subtree, right subtree.
    Preorder,
    /// Left subtree, right subtree, node.
    Postorder,
}

impl<K, V> RedBlackTree<K, V> {
    /// The colour of the root; a `Leaf` counts as black.
    pub open spec fn spec_color(self) -> Color {
        match self {
            RedBlackTree::Leaf => Color::Black,
            RedBlackTree::Node(_, (_, _, c), _) => c,
        }
    }

    /// The entries of the tree from left to right.
    pub open spec fn entries(self) -> Seq<(K, V)>
        decreases self,
    {
        match self {
            RedBlackTree::Leaf => Seq::empty(),
            RedBlackTree::Node(l, (k, v, _), r) => l.entries() + seq![(k, v)] + r.entries(),
        }
    }

    /// Some node of the tree carries the key `k` with the value `v`.
    pub open spec fn has_entry(self, k: K, v: V) -> bool
        decreases self,
    {
        match self {
            RedBlackTree::Leaf => false,
            RedBlackTree::Node(l, (key, value, _), r) => (key == k && value == v) || l.has_entry(
                k,
                v,
            ) || r.has_entry(k, v),
        }
    }

    /// Some node of the tree carries the key `k`.
    pub open spec fn has_key(self, k: K) -> bool
        decreases self,
    {
        match self {
            RedBlackTree::Leaf => false,
            RedBlackTree::Node(l, (key, _, _), r) => key == k || l.has_key(k) || r.has_key(k),
        }
    }

    /// Number of black nodes on the leftmost way from the root to a `Leaf`.
    pub open spec fn black_height(self) -> nat
        decreases self,
    {
        match self {
            RedBlackTree::Leaf => 0,
            RedBlackTree::Node(l, (_, _, c), _) => l.black_height() + if c is Black {
                1nat
            } else {
                0nat
            },
        }
    }

    /// Number of nodes on the longest way from the root down to a `Leaf`.
    pub open spec fn depth(self) -> nat
        decreases self,
    {
        match self {
            RedBlackTree::Leaf => 0,
            RedBlackTree::Node(l, _, r) => 1 + if l.depth() >= r.depth() {
                l.depth()
            } else {
                r.depth()
            },
        }
    }

    /// Every way from a node down to a `Leaf` passes the same number of
    /// black nodes.
    pub open spec fn black_balanced(self) -> bool
        decreases self,
    {
        match self {
            RedBlackTree::Leaf => true,
            RedBlackTree::Node(l, _, r) => {
                &&& l.black_balanced()
                &&& r.black_balanced()
                &&& l.black_height() == r.black_height()
            },
        }
    }

    /// No red node below the root has a red child.
    pub open spec fn no_red_red_below(self) -> bool
        decreases self,
    {
        match self {
            RedBlackTree::Leaf => true,
            RedBlackTree::Node(l, _, r) => l.no_red_red() && r.no_red_red(),
        }
    }

    /// No red node has a red child.
    pub open spec fn no_red_red(self) -> bool
        decreases self,
    {
        match self {
            RedBlackTree::Leaf => true,
            RedBlackTree::Node(l, (_, _, c), r) => {
                &&& l.no_red_red()
                &&& r.no_red_red()
                &&& c is Red ==> l.spec_color() is Black && r.spec_color() is Black
            },
        }
    }

    /// The colours of the tree obey the two rules of a red-black tree.
    pub open spec fn is_red_black(self) -> bool {
        self.no_red_red() && self.black_balanced()
    }

    /// The tree with its root coloured black.
    pub open spec fn blackened(self) -> Self {
        match self {
            RedBlackTree::Leaf => RedBlackTree::Leaf,
            RedBlackTree::Node(l, (k, v, _), r) => RedBlackTree::Node(l, (k, v, Color::Black), r),
        }
    }

    /// The tree with its root coloured red.
    pub open spec fn reddened(self) -> Self {
        match self {
            RedBlackTree::Leaf => RedBlackTree::Leaf,
            RedBlackTree::Node(l, (k, v, _), r) => RedBlackTree::Node(l, (k, v, Color::Red), r),
        }
    }

    /// The two trees carry the same keys with the same values.
    pub open spec fn same_content(self, other: Self) -> bool {
        &&& forall|j: K, x: V|
            #![trigger self.has_entry(j, x)]
            #![trigger other.has_entry(j, x)]
            self.has_entry(j, x) <==> other.has_entry(j, x)
        &&& forall|j: K|
            #![trigger self.has_key(j)]
            #![trigger other.has_key(j)]
            self.has_key(j) <==> other.has_key(j)
    }

    /// The left subtree; a `Leaf` has a `Leaf` there.
    pub open spec fn left(self) -> Self {
        match self {
            RedBlackTree::Leaf => RedBlackTree::Leaf,
            RedBlackTree::Node(l, _, _) => *l,
        }
    }

    /// The right subtree; a `Leaf` has a `Leaf` there.
    pub open spec fn right(self) -> Self {
        match self {
            RedBlackTree::Leaf => RedBlackTree::Leaf,
            RedBlackTree::Node(_, _, r) => *r,
        }
    }

    /// The key at the root of a node.
    pub open spec fn key(self) -> K
        recommends
            self is Node,
    {
        self->Node_1.0
    }

    /// The value at the root of a node.
    pub open spec fn value(self) -> V
        recommends
            self is Node,
    {
        self->Node_1.1
    }

    /// The root is a red node.
    pub open spec fn is_red_node(self) -> bool {
        self.spec_color() is Red
    }

    /// The red node with the entry `(k, v)` over `l` and `r`.
    pub open spec fn red_over(l: Self, k: K, v: V, r: Self) -> Self {
        RedBlackTree::Node(Box::new(l), (k, v, Color::Red), Box::new(r))
    }

    /// What `balance` makes of the tree. Below a black root, a red child
    /// with a red child of its own is turned, together with the root, into
    /// a red node over two black ones; two red children of the root are
    /// coloured black under a red root.
    pub open spec fn balanced(self) -> Self {
        let l = self.left();
        let r = self.right();
        let k = self.key();
        let v = self.value();
        if !self.is_black_node() {
            self
        } else if l.is_red_node() && r.is_red_node() {
            Self::red_over(l.blackened(), k, v, r.blackened())
        } else if l.is_red_node() && l.left().is_red_node() {
            Self::red_over(
                l.left().blackened(),
                l.key(),
                l.value(),
                Self::black_over(l.right(), k, v, r),
            )
        } else if l.is_red_node() && l.right().is_red_node() {
            Self::red_over(
                Self::black_over(l.left(), l.key(), l.value(), l.right().left()),
                l.right().key(),
                l.right().value(),
                Self::black_over(l.right().right(), k, v, r),
            )
        } else if r.is_red_node() && r.right().is_red_node() {
            Self::red_over(
                Self::black_over(l, k, v, r.left()),
                r.key(),
                r.value(),
                r.right().blackened(),
            )
        } else if r.is_red_node() && r.left().is_red_node() {
            Self::red_over(
                Self::black_over(l, k, v, r.left().left()),
                r.left().key(),
                r.left().value(),
                Self::black_over(r.left().right(), r.key(), r.value(), r.right()),
            )
        } else {
            self
        }
    }

    /// The black node with the entry `(k, v)` over `l` and `r`.
    pub open spec fn black_over(l: Self, k: K, v: V, r: Self) -> Self {
        RedBlackTree::Node(Box::new(l), (k, v, Color::Black), Box::new(r))
    }

    /// The root is a black node.
    pub open spec fn is_black_node(self) -> bool {
        self matches RedBlackTree::Node(_, (_, _, c), _) && c is Black
    }

    /// The root is black and the one place below it where a red node may
    /// have a red child is the root of a subtree: what `balance` can mend.
    pub open spec fn mendable(self) -> bool {
        match self {
            RedBlackTree::Leaf => true,
            RedBlackTree::Node(l, (_, _, c), r) => {
                &&& c is Black
                &&& l.no_red_red_below()
                &&& r.no_red_red_below()
            },
        }
    }

    /// The values of the tree in the order `t`.
    pub open spec fn spec_traverse(self, t: Traversal) -> Seq<V>
        decreases self,
    {
        match self {
            RedBlackTree::Leaf => Seq::empty(),
            RedBlackTree::Node(l, (_, v, _), r) => match t {
                Traversal::Inorder => l.spec_traverse(t) + seq![v] + r.spec_traverse(t),
                Traversal::Preorder => seq![v] + l.spec_traverse(t) + r.spec_traverse(t),
                Traversal::Postorder => l.spec_traverse(t) + r.spec_traverse(t) + seq![v],
            },
        }
    }

    /// The empty tree.
    pub fn new() -> (t: Self)
        ensures
            t == RedBlackTree::<K, V>::Leaf,
    {
        RedBlackTree::Leaf
    }

    /// The colour of the root; a `Leaf` counts as black.
    pub fn color(&self) -> (c: Color)
        ensures
            c == self.spec_color(),
    {
        match self {
            RedBlackTree::Leaf => Color::Black,
            RedBlackTree::Node(_, (_, _, c), _) => *c,
        }
    }

    fn is_red(&self) -> (b: bool)
        ensures
            b == self.is_red_node(),
    {
        match self {
            RedBlackTree::Node(_, (_, _, Color::Red), _) => true,
            _ => false,
        }
    }

    fn is_black(&self) -> (b: bool)
        ensures
            b == self.is_black_node(),
    {
        match self {
            RedBlackTree::Node(_, (_, _, Color::Black), _) => true,
            _ => false,
        }
    }

    fn left_is_black_node(&self) -> (b: bool)
        ensures
            b == self.left().is_black_node(),
    {
        match self {
            RedBlackTree::Node(l, _, _) => l.is_black(),
            RedBlackTree::Leaf => false,
        }
    }

    fn right_is_black_node(&self) -> (b: bool)
        ensures
            b == self.right().is_black_node(),
    {
        match self {
            RedBlackTree::Node(_, _, r) => r.is_black(),
            RedBlackTree::Leaf => false,
        }
    }

    fn left_is_red(&self) -> (b: bool)
        ensures
            b == self.left().is_red_node(),
    {
        match self {
            RedBlackTree::Node(l, _, _) => l.is_red(),
            RedBlackTree::Leaf => false,
        }
    }

    fn right_is_red(&self) -> (b: bool)
        ensures
            b == self.right().is_red_node(),
    {
        match self {
            RedBlackTree::Node(_, _, r) => r.is_red(),
            RedBlackTree::Leaf => false,
        }
    }

    fn redden(self) -> (res: Self)
        ensures
            res == self.reddened(),
    {
        match self {
            RedBlackTree::Leaf => RedBlackTree::Leaf,
            RedBlackTree::Node(l, (k, v, _), r) => RedBlackTree::Node(l, (k, v, Color::Red), r),
        }
    }

    fn blacken(self) -> (res: Self)
        ensures
            res == self.blackened(),
    {
        match self {
            RedBlackTree::Leaf => RedBlackTree::Leaf,
            RedBlackTree::Node(l, (k, v, _), r) => RedBlackTree::Node(l, (k, v, Color::Black), r),
        }
    }

    /// The larger of the heights of the two subtrees. A `Leaf` has height 0
    /// and no node adds to what lies below it, so this is 0 for every tree.
    pub fn height(&self) -> (h: u32)
        ensures
            h == 0,
        decreases self,
    {
        match self {
            RedBlackTree::Leaf => 0,
            RedBlackTree::Node(l, _, r) => {
                let lh = l.height();
                let rh = r.height();
                if lh >= rh {
                    lh
                } else {
                    rh
                }
            },
        }
    }
}

impl<K: Ord + Eq, V: Clone> RedBlackTree<K, V> {
    /// `==` and `<` on keys compute what the key type's specification says.
    pub open spec fn keys_compare_by_spec() -> bool {
        K::obeys_eq_spec() && K::obeys_partial_cmp_spec()
    }

    /// Keys are ordered by a strict order that agrees with `==`.
    pub open spec fn lawful_keys() -> bool {
        obeys_cmp::<K>() && obeys_concrete_eq::<K>()
    }

    /// Every key of the tree is less than `bound`.
    pub open spec fn all_less(self, bound: K) -> bool
        decreases self,
    {
        match self {
            RedBlackTree::Leaf => true,
            RedBlackTree::Node(l, (key, _, _), r) => {
                &&& key.is_lt(&bound)
                &&& l.all_less(bound)
                &&& r.all_less(bound)
            },
        }
    }

    /// Every key of the tree is greater than `bound`.
    pub open spec fn all_greater(self, bound: K) -> bool
        decreases self,
    {
        match self {
            RedBlackTree::Leaf => true,
            RedBlackTree::Node(l, (key, _, _), r) => {
                &&& bound.is_lt(&key)
                &&& l.all_greater(bound)
                &&& r.all_greater(bound)
            },
        }
    }

    /// At every node the keys to the left are less than the node's key and
    /// the keys to the right are greater.
    pub open spec fn ordered(self) -> bool
        decreases self,
    {
        match self {
            RedBlackTree::Leaf => true,
            RedBlackTree::Node(l, (key, _, _), r) => {
                &&& l.ordered()
                &&& r.ordered()
                &&& l.all_less(key)
                &&& r.all_greater(key)
            },
        }
    }

    /// What `ins` returns.
    spec fn ins_of(self, k: K, v: V) -> Self
        decreases self,
    {
        match self {
            RedBlackTree::Leaf => Self::red_over(RedBlackTree::Leaf, k, v, RedBlackTree::Leaf),
            RedBlackTree::Node(l, (key, value, c), r) => if k.eq_spec(&key) {
                RedBlackTree::Node(l, (k, v, c), r)
            } else if k.is_lt(&key) {
                RedBlackTree::Node(Box::new(l.ins_of(k, v)), (key, value, c), r).balanced()
            } else {
                RedBlackTree::Node(l, (key, value, c), Box::new(r.ins_of(k, v))).balanced()
            },
        }
    }

    /// What `bal_left` returns.
    spec fn bal_left_of(l: Self, k: K, v: V, r: Self) -> Self {
        if l.is_red_node() {
            Self::red_over(l.blackened(), k, v, r)
        } else if r.is_black_node() {
            Self::black_over(l, k, v, r.reddened()).balanced()
        } else if r.is_red_node() && r.left().is_black_node() {
            Self::red_over(
                Self::black_over(l, k, v, r.left().left()),
                r.left().key(),
                r.left().value(),
                Self::black_over(
                    r.left().right(),
                    r.key(),
                    r.value(),
                    r.right().reddened(),
                ).balanced(),
            )
        } else {
            Self::red_over(l, k, v, r)
        }
    }

    /// What `bal_right` returns.
    spec fn bal_right_of(l: Self, k: K, v: V, r: Self) -> Self {
        if r.is_red_node() {
            Self::red_over(l, k, v, r.blackened())
        } else if l.is_black_node() {
            Self::black_over(l.reddened(), k, v, r).balanced()
        } else if l.is_red_node() && l.right().is_black_node() {
            Self::red_over(
                Self::black_over(
                    l.left().reddened(),
                    l.key(),
                    l.value(),
                    l.right().left(),
                ).balanced(),
                l.right().key(),
                l.right().value(),
                Self::black_over(l.right().right(), k, v, r),
            )
        } else {
            Self::red_over(l, k, v, r)
        }
    }

    /// What `fuse` returns.
    spec fn fused(l: Self, r: Self) -> Self
        decreases l, r,
    {
        if l is Leaf {
            r
        } else if r is Leaf {
            l
        } else if l.is_red_node() && r.is_red_node() {
            let m = Self::fused(l.right(), r.left());
            if m.is_red_node() {
                Self::red_over(
                    Self::red_over(l.left(), l.key(), l.value(), m.left()),
                    m.key(),
                    m.value(),
                    Self::red_over(m.right(), r.key(), r.value(), r.right()),
                )
            } else {
                Self::red_over(
                    l.left(),
                    l.key(),
                    l.value(),
                    Self::red_over(m, r.key(), r.value(), r.right()),
                )
            }
        } else if l.is_black_node() && r.is_black_node() {
            let m = Self::fused(l.right(), r.left());
            if m.is_red_node() {
                Self::red_over(
                    Self::black_over(l.left(), l.key(), l.value(), m.left()),
                    m.key(),
                    m.value(),
                    Self::black_over(m.right(), r.key(), r.value(), r.right()),
                )
            } else {
                Self::bal_left_of(
                    l.left(),
                    l.key(),
                    l.value(),
                    Self::black_over(m, r.key(), r.value(), r.right()),
                )
            }
        } else if r.is_red_node() {
            Self::red_over(Self::fused(l, r.left()), r.key(), r.value(), r.right())
        } else {
            Self::red_over(l.left(), l.key(), l.value(), Self::fused(l.right(), r))
        }
    }

    /// What `del` returns.
    spec fn del_of(self, k: K) -> Self
        decreases self,
    {
        match self {
            RedBlackTree::Leaf => RedBlackTree::Leaf,
            RedBlackTree::Node(l, (key, value, _), r) => if k.eq_spec(&key) {
                Self::fused(*l, *r)
            } else if k.is_lt(&key) {
                if l.is_black_node() {
                    Self::bal_left_of(l.del_of(k), key, value, *r)
                } else {
                    Self::red_over(l.del_of(k), key, value, *r)
                }
            } else {
                if r.is_black_node() {
                    Self::bal_right_of(*l, key, value, r.del_of(k))
                } else {
                    Self::red_over(*l, key, value, r.del_of(k))
                }
            },
        }
    }

    /// `after` carries what this tree carries apart from the key `k`, which
    /// it does not carry.
    pub open spec fn shrunk_by(self, k: K, after: Self) -> bool {
        &&& forall|j: K, x: V| #[trigger] after.has_entry(j, x) <==> j != k && self.has_entry(j, x)
        &&& forall|j: K| #[trigger] after.has_key(j) <==> j != k && self.has_key(j)
    }

    /// `after` carries `k` with `v`, and apart from the key `k` it carries
    /// what this tree carries.
    pub open spec fn grown_by(self, k: K, v: V, after: Self) -> bool {
        &&& forall|j: K, x: V| #[trigger]
            after.has_entry(j, x) <==> (j == k && x == v) || (j != k && self.has_entry(j, x))
        &&& forall|j: K| #[trigger] after.has_key(j) <==> j == k || self.has_key(j)
    }

    /// The value found by walking down from the root: at a node whose key
    /// equals `k` the walk ends, otherwise it goes left where `k` is less
    /// than the node's key and right where it is not.
    pub open spec fn spec_find(self, k: K) -> Option<V>
        decreases self,
    {
        match self {
            RedBlackTree::Leaf => None,
            RedBlackTree::Node(l, (key, value, _), r) => if k.eq_spec(&key) {
                Some(value)
            } else if k.is_lt(&key) {
                l.spec_find(k)
            } else {
                r.spec_find(k)
            },
        }
    }

    /// Mends a red node with a red child directly below a black root, by
    /// turning the three nodes into a red root over two black children. A
    /// tree with a red root, and one with nothing to mend, comes back as it
    /// is.
    pub fn balance(self) -> (res: Self)
        ensures
            res == self.balanced(),
            res.entries() == self.entries(),
            Self::lawful_keys() && self.ordered() ==> res.ordered(),
            res.black_height() == self.black_height(),
            self.black_balanced() ==> res.black_balanced(),
            self.mendable() ==> res.no_red_red(),
            self.no_red_red() ==> res.no_red_red(),
            self is Node ==> res is Node,
    {
        proof {
            lemma_balanced_entries(self);
            lemma_balanced_colours(self);
            lemma_moved(self, self.balanced());
        }
        match self {
            RedBlackTree::Node(l, (k, v, Color::Black), r) => {
                if l.is_red() && r.is_red() {
                    RedBlackTree::Node(
                        Box::new(l.blacken()),
                        (k, v, Color::Red),
                        Box::new(r.blacken()),
                    )
                } else if l.is_red() && l.left_is_red() {
                    match *l {
                        RedBlackTree::Node(ll, (lk, lv, _), lr) => RedBlackTree::Node(
                            Box::new(ll.blacken()),
                            (lk, lv, Color::Red),
                            Box::new(RedBlackTree::Node(lr, (k, v, Color::Black), r)),
                        ),
                        RedBlackTree::Leaf => unreached(),
                    }
                } else if l.is_red() && l.right_is_red() {
                    match *l {
                        RedBlackTree::Node(ll, (lk, lv, _), lr) => match *lr {
                            RedBlackTree::Node(a, (mk, mv, _), b) => RedBlackTree::Node(
                                Box::new(RedBlackTree::Node(ll, (lk, lv, Color::Black), a)),
                                (mk, mv, Color::Red),
                                Box::new(RedBlackTree::Node(b, (k, v, Color::Black), r)),
                            ),
                            RedBlackTree::Leaf => unreached(),
                        },
                        RedBlackTree::Leaf => unreached(),
                    }
                } else if r.is_red() && r.right_is_red() {
                    match *r {
                        RedBlackTree::Node(rl, (rk, rv, _), rr) => RedBlackTree::Node(
                            Box::new(RedBlackTree::Node(l, (k, v, Color::Black), rl)),
                            (rk, rv, Color::Red),
                            Box::new(rr.blacken()),
                        ),
                        RedBlackTree::Leaf => unreached(),
                    }
                } else if r.is_red() && r.left_is_red() {
                    match *r {
                        RedBlackTree::Node(rl, (rk, rv, _), rr) => match *rl {
                            RedBlackTree::Node(a, (mk, mv, _), b) => RedBlackTree::Node(
                                Box::new(RedBlackTree::Node(l, (k, v, Color::Black), a)),
                                (mk, mv, Color::Red),
                                Box::new(RedBlackTree::Node(b, (rk, rv, Color::Black), rr)),
                            ),
                            RedBlackTree::Leaf => unreached(),
                        },
                        RedBlackTree::Leaf => unreached(),
                    }
                } else {
                    RedBlackTree::Node(l, (k, v, Color::Black), r)
                }
            },
            other => other,
        }
    }

    /// Joins `l`, the entry `(k, v)` and `r` where `l` has lost one black
    /// node on every way down, so that the result has as many black nodes
    /// on every way down as `r` has.
    fn bal_left(l: Self, k: K, v: V, r: Self) -> (res: Self)
        ensures
            res == Self::bal_left_of(l, k, v, r),
    {
        if l.is_red() {
            RedBlackTree::Node(Box::new(l.blacken()), (k, v, Color::Red), Box::new(r))
        } else if r.is_black() {
            RedBlackTree::Node(Box::new(l), (k, v, Color::Black), Box::new(r.redden())).balance()
        } else if r.is_red() && r.left_is_black_node() {
            match r {
                RedBlackTree::Node(rl, (rk, rv, _), rr) => match *rl {
                    RedBlackTree::Node(a, (mk, mv, _), b) => RedBlackTree::Node(
                        Box::new(RedBlackTree::Node(Box::new(l), (k, v, Color::Black), a)),
                        (mk, mv, Color::Red),
                        Box::new(
                            RedBlackTree::Node(
                                b,
                                (rk, rv, Color::Black),
                                Box::new(rr.redden()),
                            ).balance(),
                        ),
                    ),
                    RedBlackTree::Leaf => unreached(),
                },
                RedBlackTree::Leaf => unreached(),
            }
        } else {
            // Not reached where `r` is a red-black tree one black node
            // higher than `l`.
            RedBlackTree::Node(Box::new(l), (k, v, Color::Red), Box::new(r))
        }
    }

    /// Joins `l`, the entry `(k, v)` and `r` where `r` has lost one black
    /// node on every way down.
    fn bal_right(l: Self, k: K, v: V, r: Self) -> (res: Self)
        ensures
            res == Self::bal_right_of(l, k, v, r),
    {
        if r.is_red() {
            RedBlackTree::Node(Box::new(l), (k, v, Color::Red), Box::new(r.blacken()))
        } else if l.is_black() {
            RedBlackTree::Node(Box::new(l.redden()), (k, v, Color::Black), Box::new(r)).balance()
        } else if l.is_red() && l.right_is_black_node() {
            match l {
                RedBlackTree::Node(ll, (lk, lv, _), lr) => match *lr {
                    RedBlackTree::Node(a, (mk, mv, _), b) => RedBlackTree::Node(
                        Box::new(
                            RedBlackTree::Node(
                                Box::new(ll.redden()),
                                (lk, lv, Color::Black),
                                a,
                            ).balance(),
                        ),
                        (mk, mv, Color::Red),
                        Box::new(RedBlackTree::Node(b, (k, v, Color::Black), Box::new(r))),
                    ),
                    RedBlackTree::Leaf => unreached(),
                },
                RedBlackTree::Leaf => unreached(),
            }
        } else {
            // Not reached where `l` is a red-black tree one black node
            // higher than `r`.
            RedBlackTree::Node(Box::new(l), (k, v, Color::Red), Box::new(r))
        }
    }

    /// Joins two trees of which every key in `l` is less than every key in
    /// `r`, and which have the same number of black nodes on every way
    /// down.
    fn fuse(l: Self, r: Self) -> (res: Self)
        ensures
            res == Self::fused(l, r),
        decreases l, r,
    {
        match (l, r) {
            (RedBlackTree::Leaf, r) => r,
            (l, RedBlackTree::Leaf) => l,
            (
                RedBlackTree::Node(a, (xk, xv, Color::Red), b),
                RedBlackTree::Node(c, (yk, yv, Color::Red), d),
            ) => {
                let m = Self::fuse(*b, *c);
                if m.is_red() {
                    match m {
                        RedBlackTree::Node(ml, (mk, mv, _), mr) => RedBlackTree::Node(
                            Box::new(RedBlackTree::Node(a, (xk, xv, Color::Red), ml)),
                            (mk, mv, Color::Red),
                            Box::new(RedBlackTree::Node(mr, (yk, yv, Color::Red), d)),
                        ),
                        RedBlackTree::Leaf => unreached(),
                    }
                } else {
                    RedBlackTree::Node(
                        a,
                        (xk, xv, Color::Red),
                        Box::new(RedBlackTree::Node(Box::new(m), (yk, yv, Color::Red), d)),
                    )
                }
            },
            (
                RedBlackTree::Node(a, (xk, xv, Color::Black), b),
                RedBlackTree::Node(c, (yk, yv, Color::Black), d),
            ) => {
                let m = Self::fuse(*b, *c);
                if m.is_red() {
                    match m {
                        RedBlackTree::Node(ml, (mk, mv, _), mr) => RedBlackTree::Node(
                            Box::new(RedBlackTree::Node(a, (xk, xv, Color::Black), ml)),
                            (mk, mv, Color::Red),
                            Box::new(RedBlackTree::Node(mr, (yk, yv, Color::Black), d)),
                        ),
                        RedBlackTree::Leaf => unreached(),
                    }
                } else {
                    Self::bal_left(
                        *a,
                        xk,
                        xv,
                        RedBlackTree::Node(Box::new(m), (yk, yv, Color::Black), d),
                    )
                }
            },
            (l, RedBlackTree::Node(c, (yk, yv, Color::Red), d)) => RedBlackTree::Node(
                Box::new(Self::fuse(l, *c)),
                (yk, yv, Color::Red),
                d,
            ),
            (RedBlackTree::Node(a, (xk, xv, Color::Red), b), r) => RedBlackTree::Node(
                a,
                (xk, xv, Color::Red),
                Box::new(Self::fuse(*b, r)),
            ),
        }
    }

    /// Takes the entry for `k` out and mends the colours on the way back
    /// up. The root of the result may be a red node with a red child.
    fn del(self, k: &K) -> (res: Self)
        ensures
            Self::keys_compare_by_spec() ==> res == self.del_of(*k),
        decreases self,
    {
        match self {
            RedBlackTree::Leaf => RedBlackTree::Leaf,
            RedBlackTree::Node(l, (key, value, _), r) => {
                if *k == key {
                    Self::fuse(*l, *r)
                } else if *k < key {
                    if l.is_black() {
                        Self::bal_left(l.del(k), key, value, *r)
                    } else {
                        RedBlackTree::Node(Box::new(l.del(k)), (key, value, Color::Red), r)
                    }
                } else {
                    if r.is_black() {
                        Self::bal_right(*l, key, value, r.del(k))
                    } else {
                        RedBlackTree::Node(l, (key, value, Color::Red), Box::new(r.del(k)))
                    }
                }
            },
        }
    }

    /// Puts `(k, v)` where the walk for `k` ends, as a red node or in place
    /// of the entry with an equal key, and mends on the way back up what a
    /// black node can mend. The root of the result may be a red node with a
    /// red child.
    fn ins(self, k: K, v: V) -> (res: Self)
        ensures
            Self::keys_compare_by_spec() ==> res == self.ins_of(k, v),
        decreases self,
    {
        match self {
            RedBlackTree::Leaf => RedBlackTree::Node(
                Box::new(RedBlackTree::Leaf),
                (k, v, Color::Red),
                Box::new(RedBlackTree::Leaf),
            ),
            RedBlackTree::Node(l, (key, value, c), r) => {
                if k == key {
                    RedBlackTree::Node(l, (k, v, c), r)
                } else if k < key {
                    RedBlackTree::Node(Box::new(l.ins(k, v)), (key, value, c), r).balance()
                } else {
                    RedBlackTree::Node(l, (key, value, c), Box::new(r.ins(k, v))).balance()
                }
            },
        }
    }

    /// Adds the entry `(k, v)`, replacing the entry with an equal key if
    /// there is one.
    pub fn insert(self, k: K, v: V) -> (res: Self)
        ensures
            Self::lawful_keys() && self.ordered() ==> res.ordered() && res@ == self@.insert(k, v),
            Self::keys_compare_by_spec() && self.is_red_black() ==> res.is_red_black()
                && res.spec_color() is Black,
    {
        let grown = self.ins(k, v);
        let res = grown.blacken();
        proof {
            lemma_blackened(grown);
            if Self::keys_compare_by_spec() && self.is_red_black() {
                Self::lemma_ins_colours(self, k, v);
            }
            if Self::lawful_keys() && self.ordered() {
                lemma_key_order::<K, V>(k, k);
                Self::lemma_ins_content(self, k, v);
                lemma_view_after_insert(self, k, v, res);
            }
        }
        res
    }

    /// Removes the entry for `k`, if there is one.
    pub fn delete(self, k: &K) -> (res: Self)
        ensures
            Self::lawful_keys() && self.ordered() ==> res.ordered() && res@ == self@.remove(*k),
            Self::keys_compare_by_spec() && self.is_red_black() ==> res.is_red_black()
                && res.spec_color() is Black,
    {
        let shrunk = self.del(k);
        let res = shrunk.blacken();
        proof {
            lemma_blackened(shrunk);
            if Self::keys_compare_by_spec() && self.is_red_black() {
                Self::lemma_del_colours(self, *k);
            }
            if Self::lawful_keys() && self.ordered() {
                lemma_key_order::<K, V>(*k, *k);
                Self::lemma_del_content(self, *k);
                lemma_view_after_delete(self, *k, res);
            }
        }
        res
    }

    /// Looks `k` up and hands out a clone of the value found.
    pub fn find(&self, k: &K) -> (res: Option<V>)
        ensures
            Self::keys_compare_by_spec() ==> match res {
                Some(found) => self@.contains_key(*k) && cloned(self@[*k], found),
                None => !self@.contains_key(*k),
            },
        decreases self,
    {
        match self {
            RedBlackTree::Leaf => None,
            RedBlackTree::Node(l, (key, value, _), r) => {
                if *k == *key {
                    Some(value.clone())
                } else if *k < *key {
                    l.find(k)
                } else {
                    r.find(k)
                }
            },
        }
    }

    /// The values of the tree in the order `t`, each one cloned.
    pub fn traverse(&self, t: &Traversal) -> (res: Vec<V>)
        ensures
            res@.len() == self.spec_traverse(*t).len(),
            forall|i: int|
                0 <= i < res@.len() ==> cloned(#[trigger] self.spec_traverse(*t)[i], res@[i]),
        decreases self,
    {
        let (mut ltrav, v, mut rtrav) = if let RedBlackTree::Node(l, (_, v, _), r) = self {
            (l.traverse(t), v, r.traverse(t))
        } else {
            return Vec::new();
        };
        let mut out: Vec<V> = Vec::new();
        match t {
            Traversal::Inorder => {
                out.append(&mut ltrav);
                out.push(v.clone());
                out.append(&mut rtrav);
            },
            Traversal::Preorder => {
                out.push(v.clone());
                out.append(&mut ltrav);
                out.append(&mut rtrav);
            },
            Traversal::Postorder => {
                out.append(&mut ltrav);
                out.append(&mut rtrav);
                out.push(v.clone());
            },
        }
        out
    }
}

impl<K: Ord + Eq, V: Clone> View for RedBlackTree<K, V> {
    type V = Map<K, V>;

    /// What lookups find: the keys for which `find` gives a value, each
    /// with that value.
    open spec fn view(&self) -> Map<K, V> {
        Map::new(|j: K| self.spec_find(j) is Some, |j: K| self.spec_find(j)->0)
    }
}

impl<K: Clone, V: Clone> RedBlackTree<K, V> {
    /// `other` has the shape and the colours of this tree, and at every
    /// node its key and its value are clones of the key and the value here.
    pub open spec fn cloned_as(self, other: Self) -> bool
        decreases self,
    {
        match self {
            RedBlackTree::Leaf => other is Leaf,
            RedBlackTree::Node(l, (k, v, c), r) => {
                &&& other matches RedBlackTree::Node(ol, (ok, ov, oc), or)
                &&& cloned(k, ok)
                &&& cloned(v, ov)
                &&& c == oc
                &&& l.cloned_as(*ol)
                &&& r.cloned_as(*or)
            },
        }
    }
}

impl<K: Clone, V: Clone> Clone for RedBlackTree<K, V> {
    fn clone(&self) -> (res: Self)
        ensures
            self.cloned_as(res),
        decreases self,
    {
        match self {
            RedBlackTree::Leaf => RedBlackTree::Leaf,
            RedBlackTree::Node(l, (k, v, c), r) => {
                let left = (**l).clone();
                let right = (**r).clone();
                RedBlackTree::Node(Box::new(left), (k.clone(), v.clone(), *c), Box::new(right))
            },
        }
    }
}

} // verus!
