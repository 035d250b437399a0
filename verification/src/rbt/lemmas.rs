//! The lemmas behind the red-black tree: what the entries of a tree from
//! left to right say about its content and its order, and what `balance`,
//! insertion and deletion do to entries and colours.
use super::RedBlackTree;
use vstd::arithmetic::power2::{lemma2_to64, lemma_pow2_unfold, pow2};
use vstd::laws_cmp::{obeys_cmp_ord, obeys_cmp_partial_ord, obeys_partial_cmp_spec_properties};
use vstd::laws_eq::obeys_concrete_eq;
use vstd::prelude::*;
use vstd::std_specs::cmp::{PartialEqSpec, PartialOrdIs, PartialOrdSpec};

verus! {

/// With lawful keys, `==` and `<` on keys compute what they say, `<` is
/// transitive and never holds both ways, and of two different keys one is
/// less than the other.
pub proof fn lemma_key_order<K: Ord + Eq, V: Clone>(a: K, b: K)
    requires
        RedBlackTree::<K, V>::lawful_keys(),
    ensures
        RedBlackTree::<K, V>::keys_compare_by_spec(),
        a.eq_spec(&b) <==> a == b,
        !(a.is_lt(&b) && b.is_lt(&a)),
        a.is_lt(&b) ==> a != b,
        a == b || a.is_lt(&b) || b.is_lt(&a),
{
    reveal(obeys_concrete_eq);
    reveal(obeys_cmp_partial_ord);
    reveal(obeys_cmp_ord);
    reveal(obeys_partial_cmp_spec_properties);
}

/// With lawful keys, `a < b` and `b < c` give `a < c`.
pub proof fn lemma_less_chain<K: Ord + Eq, V: Clone>(a: K, b: K, c: K)
    requires
        RedBlackTree::<K, V>::lawful_keys(),
        a.is_lt(&b),
        b.is_lt(&c),
    ensures
        a.is_lt(&c),
{
    reveal(obeys_partial_cmp_spec_properties);
}

/// A red-black tree is shallow: no way down is longer than twice the number
/// of black nodes on it, and a tree with `h` black nodes on every way down
/// holds at least `2^h - 1` entries. So the longest way down is at most
/// about twice the logarithm of the number of entries.
pub proof fn lemma_red_black_is_shallow<K, V>(t: RedBlackTree<K, V>)
    requires
        t.is_red_black(),
    ensures
        t.depth() <= 2 * t.black_height() + if t.is_red_node() {
            1nat
        } else {
            0nat
        },
        pow2(t.black_height()) <= t.entries().len() + 1,
    decreases t,
{
    match t {
        RedBlackTree::Leaf => {
            lemma2_to64();
        },
        RedBlackTree::Node(l, _, r) => {
            lemma_red_black_is_shallow(*l);
            lemma_red_black_is_shallow(*r);
            lemma_pow2_unfold(l.black_height() + 1);
        },
    }
}

/// A key with a value is a key.
pub proof fn lemma_entry_has_key<K, V>(t: RedBlackTree<K, V>, k: K, v: V)
    requires
        t.has_entry(k, v),
    ensures
        t.has_key(k),
    decreases t,
{
    match t {
        RedBlackTree::Leaf => {},
        RedBlackTree::Node(l, _, r) => {
            if l.has_entry(k, v) {
                lemma_entry_has_key(*l, k, v);
            } else if r.has_entry(k, v) {
                lemma_entry_has_key(*r, k, v);
            }
        },
    }
}

/// A tree without entries carries no key.
pub proof fn lemma_no_entries_no_keys<K, V>(t: RedBlackTree<K, V>, k: K)
    requires
        t.entries().len() == 0,
    ensures
        !t.has_key(k),
{
    match t {
        RedBlackTree::Leaf => {},
        RedBlackTree::Node(l, (key, value, _), r) => {
            assert(t.entries().len() == l.entries().len() + 1 + r.entries().len());
        },
    }
}

/// A bound on the keys of a tree bounds every key that a node carries, and
/// the other way round.
pub proof fn lemma_bounds_are_on_keys<K: Ord + Eq, V: Clone>(t: RedBlackTree<K, V>, bound: K)
    ensures
        t.all_less(bound) <==> (forall|j: K| #[trigger] t.has_key(j) ==> j.is_lt(&bound)),
        t.all_greater(bound) <==> (forall|j: K| #[trigger] t.has_key(j) ==> bound.is_lt(&j)),
    decreases t,
{
    match t {
        RedBlackTree::Leaf => {},
        RedBlackTree::Node(l, (key, _, _), r) => {
            lemma_bounds_are_on_keys(*l, bound);
            lemma_bounds_are_on_keys(*r, bound);
            assert(t.has_key(key));
            if t.all_less(bound) {
                assert forall|j: K| #[trigger] t.has_key(j) implies j.is_lt(&bound) by {
                    assert(j == key || l.has_key(j) || r.has_key(j));
                }
            }
            if t.all_greater(bound) {
                assert forall|j: K| #[trigger] t.has_key(j) implies bound.is_lt(&j) by {
                    assert(j == key || l.has_key(j) || r.has_key(j));
                }
            }
            if forall|j: K| #[trigger] t.has_key(j) ==> j.is_lt(&bound) {
                assert forall|j: K| #[trigger] l.has_key(j) implies j.is_lt(&bound) by {
                    assert(t.has_key(j));
                }
                assert forall|j: K| #[trigger] r.has_key(j) implies j.is_lt(&bound) by {
                    assert(t.has_key(j));
                }
            }
            if forall|j: K| #[trigger] t.has_key(j) ==> bound.is_lt(&j) {
                assert forall|j: K| #[trigger] l.has_key(j) implies bound.is_lt(&j) by {
                    assert(t.has_key(j));
                }
                assert forall|j: K| #[trigger] r.has_key(j) implies bound.is_lt(&j) by {
                    assert(t.has_key(j));
                }
            }
        },
    }
}

/// The keys in `s` go up strictly from left to right.
pub open spec fn strictly_sorted<K: Ord + Eq, V>(s: Seq<(K, V)>) -> bool {
    forall|i: int, j: int| #![trigger s[i], s[j]] 0 <= i < j < s.len() ==> s[i].0.is_lt(&s[j].0)
}

/// Some entry in `s` has the key `k`.
pub open spec fn lists_key<K, V>(s: Seq<(K, V)>, k: K) -> bool {
    exists|i: int| 0 <= i < s.len() && (#[trigger] s[i]).0 == k
}

/// What a tree carries is what its entries list.
pub proof fn lemma_entries_content<K, V>(t: RedBlackTree<K, V>, k: K, v: V)
    ensures
        t.has_entry(k, v) <==> t.entries().contains((k, v)),
        t.has_key(k) <==> lists_key(t.entries(), k),
    decreases t,
{
    match t {
        RedBlackTree::Leaf => {},
        RedBlackTree::Node(l, (key, value, _), r) => {
            lemma_entries_content(*l, k, v);
            lemma_entries_content(*r, k, v);
            let le = l.entries();
            let re = r.entries();
            let all = t.entries();
            let m = le.len() as int;
            assert(all.len() == m + 1 + re.len());
            assert(all[m] == (key, value));
            assert forall|i: int| 0 <= i < m implies all[i] == le[i] by {}
            assert forall|i: int| 0 <= i < re.len() implies all[m + 1 + i] == re[i] by {}
            if le.contains((k, v)) {
                let i = choose|i: int| 0 <= i < le.len() && le[i] == (k, v);
                assert(all[i] == (k, v));
            }
            if re.contains((k, v)) {
                let i = choose|i: int| 0 <= i < re.len() && re[i] == (k, v);
                assert(all[m + 1 + i] == (k, v));
            }
            if all.contains((k, v)) {
                let i = choose|i: int| 0 <= i < all.len() && all[i] == (k, v);
                if i < m {
                    assert(le[i] == (k, v));
                } else if i > m {
                    assert(re[i - m - 1] == (k, v));
                }
            }
            if lists_key(le, k) {
                let i = choose|i: int| 0 <= i < le.len() && (#[trigger] le[i]).0 == k;
                assert(all[i].0 == k);
            }
            if lists_key(re, k) {
                let i = choose|i: int| 0 <= i < re.len() && (#[trigger] re[i]).0 == k;
                assert(all[m + 1 + i].0 == k);
            }
            if lists_key(all, k) {
                let i = choose|i: int| 0 <= i < all.len() && (#[trigger] all[i]).0 == k;
                if i < m {
                    assert(le[i].0 == k);
                } else if i > m {
                    assert(re[i - m - 1].0 == k);
                }
            }
        },
    }
}

/// A bound on the keys of a tree is a bound on the keys its entries list.
pub proof fn lemma_bounds_are_on_entries<K: Ord + Eq, V: Clone>(t: RedBlackTree<K, V>, bound: K)
    ensures
        t.all_less(bound) <==> (forall|i: int|
            0 <= i < t.entries().len() ==> (#[trigger] t.entries()[i]).0.is_lt(&bound)),
        t.all_greater(bound) <==> (forall|i: int|
            0 <= i < t.entries().len() ==> bound.is_lt(&(#[trigger] t.entries()[i]).0)),
{
    lemma_bounds_are_on_keys(t, bound);
    let s = t.entries();
    if t.all_less(bound) {
        assert forall|i: int| 0 <= i < s.len() implies (#[trigger] s[i]).0.is_lt(&bound) by {
            lemma_entries_content(t, s[i].0, s[i].1);
        }
    }
    if forall|i: int| 0 <= i < s.len() ==> (#[trigger] s[i]).0.is_lt(&bound) {
        assert forall|j: K| #[trigger] t.has_key(j) implies j.is_lt(&bound) by {
            lemma_entries_content(t, j, s[0].1);
        }
    }
    if t.all_greater(bound) {
        assert forall|i: int| 0 <= i < s.len() implies bound.is_lt(&(#[trigger] s[i]).0) by {
            lemma_entries_content(t, s[i].0, s[i].1);
        }
    }
    if forall|i: int| 0 <= i < s.len() ==> bound.is_lt(&(#[trigger] s[i]).0) {
        assert forall|j: K| #[trigger] t.has_key(j) implies bound.is_lt(&j) by {
            lemma_entries_content(t, j, s[0].1);
        }
    }
}

/// A tree is ordered exactly if the keys of its entries go up from left to
/// right.
pub proof fn lemma_ordered_is_sorted<K: Ord + Eq, V: Clone>(t: RedBlackTree<K, V>)
    requires
        RedBlackTree::<K, V>::lawful_keys(),
    ensures
        t.ordered() <==> strictly_sorted(t.entries()),
    decreases t,
{
    match t {
        RedBlackTree::Leaf => {},
        RedBlackTree::Node(l, (key, value, _), r) => {
            lemma_ordered_is_sorted(*l);
            lemma_ordered_is_sorted(*r);
            lemma_bounds_are_on_entries(*l, key);
            lemma_bounds_are_on_entries(*r, key);
            let le = l.entries();
            let re = r.entries();
            let all = t.entries();
            let m = le.len() as int;
            assert(all.len() == m + 1 + re.len());
            assert(all[m] == (key, value));
            assert forall|i: int| 0 <= i < m implies all[i] == le[i] by {}
            assert forall|i: int| 0 <= i < re.len() implies all[m + 1 + i] == re[i] by {}
            if t.ordered() {
                assert forall|i: int, j: int|
                    #![trigger all[i], all[j]]
                    0 <= i < j < all.len() implies all[i].0.is_lt(&all[j].0) by {
                    if j < m {
                        assert(le[i].0.is_lt(&le[j].0));
                    } else if j == m {
                        assert(le[i].0.is_lt(&key));
                    } else if i < m {
                        assert(le[i].0.is_lt(&key));
                        assert(key.is_lt(&re[j - m - 1].0));
                        lemma_less_chain::<K, V>(le[i].0, key, re[j - m - 1].0);
                    } else if i == m {
                        assert(key.is_lt(&re[j - m - 1].0));
                    } else {
                        assert(re[i - m - 1].0.is_lt(&re[j - m - 1].0));
                    }
                }
            }
            if strictly_sorted(all) {
                assert forall|i: int, j: int|
                    #![trigger le[i], le[j]]
                    0 <= i < j < le.len() implies le[i].0.is_lt(&le[j].0) by {
                    assert(all[i].0.is_lt(&all[j].0));
                }
                assert forall|i: int, j: int|
                    #![trigger re[i], re[j]]
                    0 <= i < j < re.len() implies re[i].0.is_lt(&re[j].0) by {
                    assert(all[m + 1 + i].0.is_lt(&all[m + 1 + j].0));
                }
                assert forall|i: int| 0 <= i < le.len() implies (#[trigger] le[i]).0.is_lt(
                    &key,
                ) by {
                    assert(all[i].0.is_lt(&all[m].0));
                }
                assert forall|i: int| 0 <= i < re.len() implies key.is_lt(
                    &(#[trigger] re[i]).0,
                ) by {
                    assert(all[m].0.is_lt(&all[m + 1 + i].0));
                }
            }
        },
    }
}

/// Two trees with the same entries from left to right carry the same, and
/// one is ordered if the other is.
pub proof fn lemma_moved<K: Ord + Eq, V: Clone>(a: RedBlackTree<K, V>, b: RedBlackTree<K, V>)
    requires
        a.entries() == b.entries(),
    ensures
        a.same_content(b),
        b.same_content(a),
        RedBlackTree::<K, V>::lawful_keys() ==> (a.ordered() <==> b.ordered()),
        forall|bound: K| #[trigger] a.all_less(bound) <==> b.all_less(bound),
        forall|bound: K| #[trigger] a.all_greater(bound) <==> b.all_greater(bound),
{
    assert forall|j: K, x: V| a.has_entry(j, x) <==> b.has_entry(j, x) by {
        lemma_entries_content(a, j, x);
        lemma_entries_content(b, j, x);
    }
    assert forall|j: K| a.has_key(j) <==> b.has_key(j) by {
        if a.entries().len() > 0 {
            lemma_entries_content(a, j, a.entries()[0].1);
            lemma_entries_content(b, j, a.entries()[0].1);
        } else {
            lemma_no_entries_no_keys(a, j);
            lemma_no_entries_no_keys(b, j);
        }
    }
    if RedBlackTree::<K, V>::lawful_keys() {
        lemma_ordered_is_sorted(a);
        lemma_ordered_is_sorted(b);
    }
    assert forall|bound: K| #[trigger] a.all_less(bound) <==> b.all_less(bound) by {
        lemma_bounds_are_on_entries(a, bound);
        lemma_bounds_are_on_entries(b, bound);
    }
    assert forall|bound: K| #[trigger] a.all_greater(bound) <==> b.all_greater(bound) by {
        lemma_bounds_are_on_entries(a, bound);
        lemma_bounds_are_on_entries(b, bound);
    }
}

/// A tree whose entries are those of `l` followed by those of `r`, where
/// `l` and `r` are ordered and lie on the two sides of `pivot`, is ordered
/// and carries what `l` and `r` carry.
pub proof fn lemma_joined<K: Ord + Eq, V: Clone>(
    l: RedBlackTree<K, V>,
    r: RedBlackTree<K, V>,
    joined: RedBlackTree<K, V>,
    pivot: K,
)
    requires
        RedBlackTree::<K, V>::lawful_keys(),
        joined.entries() == l.entries() + r.entries(),
        l.ordered(),
        r.ordered(),
        l.all_less(pivot),
        r.all_greater(pivot),
    ensures
        joined.ordered(),
        forall|j: K, x: V| #[trigger]
            joined.has_entry(j, x) <==> l.has_entry(j, x) || r.has_entry(j, x),
        forall|j: K| #[trigger] joined.has_key(j) <==> l.has_key(j) || r.has_key(j),
{
    let le = l.entries();
    let re = r.entries();
    let all = joined.entries();
    let m = le.len();
    lemma_ordered_is_sorted(l);
    lemma_ordered_is_sorted(r);
    lemma_ordered_is_sorted(joined);
    lemma_bounds_are_on_entries(l, pivot);
    lemma_bounds_are_on_entries(r, pivot);
    assert forall|i: int| 0 <= i < m implies all[i] == le[i] by {}
    assert forall|i: int| 0 <= i < re.len() implies all[m + i] == re[i] by {}
    assert forall|i: int, j: int|
        #![trigger all[i], all[j]]
        0 <= i < j < all.len() implies all[i].0.is_lt(&all[j].0) by {
        if j < m {
            assert(le[i].0.is_lt(&le[j].0));
        } else if i < m {
            assert(le[i].0.is_lt(&pivot));
            assert(pivot.is_lt(&re[j - m].0));
            lemma_less_chain::<K, V>(le[i].0, pivot, re[j - m].0);
        } else {
            assert(re[i - m].0.is_lt(&re[j - m].0));
        }
    }
    assert forall|j: K, x: V| #[trigger]
        joined.has_entry(j, x) <==> l.has_entry(j, x) || r.has_entry(j, x) by {
        lemma_entries_content(joined, j, x);
        lemma_entries_content(l, j, x);
        lemma_entries_content(r, j, x);
        if le.contains((j, x)) {
            let i = choose|i: int| 0 <= i < le.len() && le[i] == (j, x);
            assert(all[i] == (j, x));
        }
        if re.contains((j, x)) {
            let i = choose|i: int| 0 <= i < re.len() && re[i] == (j, x);
            assert(all[m + i] == (j, x));
        }
        if all.contains((j, x)) {
            let i = choose|i: int| 0 <= i < all.len() && all[i] == (j, x);
            if i < m {
                assert(le[i] == (j, x));
            } else {
                assert(re[i - m] == (j, x));
            }
        }
    }
    assert forall|j: K| #[trigger] joined.has_key(j) <==> l.has_key(j) || r.has_key(j) by {
        if all.len() == 0 {
            lemma_no_entries_no_keys(joined, j);
            lemma_no_entries_no_keys(l, j);
            lemma_no_entries_no_keys(r, j);
        } else {
            let x = all[0].1;
            lemma_entries_content(joined, j, x);
            lemma_entries_content(l, j, x);
            lemma_entries_content(r, j, x);
            if lists_key(le, j) {
                let i = choose|i: int| 0 <= i < le.len() && (#[trigger] le[i]).0 == j;
                assert(all[i].0 == j);
            }
            if lists_key(re, j) {
                let i = choose|i: int| 0 <= i < re.len() && (#[trigger] re[i]).0 == j;
                assert(all[m + i].0 == j);
            }
            if lists_key(all, j) {
                let i = choose|i: int| 0 <= i < all.len() && (#[trigger] all[i]).0 == j;
                if i < m {
                    assert(le[i].0 == j);
                } else {
                    assert(re[i - m].0 == j);
                }
            }
        }
    }
}

/// In an ordered tree a lookup of `k` finds `v` exactly if some node
/// carries `k` with `v`, and finds something exactly if some node carries
/// `k`.
pub proof fn lemma_find_is_entry<K: Ord + Eq, V: Clone>(t: RedBlackTree<K, V>, k: K, v: V)
    requires
        RedBlackTree::<K, V>::lawful_keys(),
        t.ordered(),
    ensures
        t.spec_find(k) == Some(v) <==> t.has_entry(k, v),
        t.spec_find(k) is Some <==> t.has_key(k),
    decreases t,
{
    reveal(obeys_concrete_eq);
    reveal(obeys_cmp_partial_ord);
    reveal(obeys_cmp_ord);
    reveal(obeys_partial_cmp_spec_properties);
    match t {
        RedBlackTree::Leaf => {},
        RedBlackTree::Node(l, (key, value, _), r) => {
            lemma_find_is_entry(*l, k, v);
            lemma_find_is_entry(*r, k, v);
            lemma_bounds_are_on_keys(*l, key);
            lemma_bounds_are_on_keys(*r, key);
            if l.has_entry(k, v) {
                lemma_entry_has_key(*l, k, v);
            }
            if r.has_entry(k, v) {
                lemma_entry_has_key(*r, k, v);
            }
        },
    }
}

/// Colouring the root black changes neither what the tree carries nor the
/// order of its keys, mends a red root with a red child, and keeps the
/// black nodes balanced.
pub proof fn lemma_blackened<K: Ord + Eq, V: Clone>(t: RedBlackTree<K, V>)
    ensures
        forall|j: K, x: V| #[trigger] t.blackened().has_entry(j, x) <==> t.has_entry(j, x),
        forall|j: K| #[trigger] t.blackened().has_key(j) <==> t.has_key(j),
        forall|b: K| #[trigger] t.blackened().all_less(b) <==> t.all_less(b),
        forall|b: K| #[trigger] t.blackened().all_greater(b) <==> t.all_greater(b),
        t.blackened().ordered() <==> t.ordered(),
        t.blackened().black_balanced() <==> t.black_balanced(),
        t.no_red_red_below() ==> t.blackened().no_red_red(),
        t.blackened().spec_color() is Black,
        t.blackened().black_height() == t.black_height() + if t.spec_color() is Red {
            1nat
        } else {
            0nat
        },
{
}

/// The entries of a node are those of its left subtree, its own, and those
/// of its right subtree.
pub proof fn lemma_entries_of_node<K, V>(t: RedBlackTree<K, V>)
    requires
        t is Node,
    ensures
        t.entries() == t.left().entries() + seq![(t.key(), t.value())] + t.right().entries(),
        t.blackened().entries() == t.entries(),
        t.reddened().entries() == t.entries(),
{
}

/// Five runs of entries with something in the middle, grouped in the ways
/// in which joined trees list them.
proof fn lemma_regroup<T>(
    a: Seq<T>,
    b: Seq<T>,
    c: Seq<T>,
    s: Seq<T>,
    t: Seq<T>,
    d: Seq<T>,
    e: Seq<T>,
)
    ensures
        (a + b + c) + s + (t + d + e) == a + b + (c + s + t) + d + e,
        (a + b + c) + (t + d + e) == a + b + (c + t) + d + e,
        a + b + (c + d + e) == a + b + c + d + e,
        c + Seq::<T>::empty() == c,
        c + Seq::<T>::empty() + Seq::<T>::empty() == c,
{
    assert((a + b + c) + s + (t + d + e) =~= a + b + (c + s + t) + d + e);
    assert((a + b + c) + (t + d + e) =~= a + b + (c + t) + d + e);
    assert(a + b + (c + d + e) =~= a + b + c + d + e);
    assert(c + Seq::<T>::empty() =~= c);
}

/// `balance` moves no entry past another.
pub proof fn lemma_balanced_entries<K, V>(t: RedBlackTree<K, V>)
    ensures
        t.balanced().entries() == t.entries(),
{
    let l = t.left();
    let r = t.right();
    let res = t.balanced();
    if res != t {
        lemma_entries_of_node(t);
        lemma_entries_of_node(res);
        lemma_entries_of_node(res.left());
        lemma_entries_of_node(res.right());
        if l.is_red_node() {
            lemma_entries_of_node(l);
            if l.left().is_red_node() {
                lemma_entries_of_node(l.left());
            }
            if l.right().is_red_node() {
                lemma_entries_of_node(l.right());
            }
        }
        if r.is_red_node() {
            lemma_entries_of_node(r);
            if r.left().is_red_node() {
                lemma_entries_of_node(r.left());
            }
            if r.right().is_red_node() {
                lemma_entries_of_node(r.right());
            }
        }
        assert(res.entries() =~= t.entries());
    }
}

/// What `balance` does to the colours: the number of black nodes on the
/// ways down stays, balance stays, a tree without a red node with a red
/// child stays one, and a mendable tree becomes one.
pub proof fn lemma_balanced_colours<K, V>(t: RedBlackTree<K, V>)
    ensures
        t.balanced().black_height() == t.black_height(),
        t.black_balanced() ==> t.balanced().black_balanced(),
        t.mendable() ==> t.balanced().no_red_red(),
        t.no_red_red() ==> t.balanced().no_red_red(),
        t is Node ==> t.balanced() is Node,
{
    reveal_with_fuel(RedBlackTree::black_height, 4);
    reveal_with_fuel(RedBlackTree::black_balanced, 4);
    reveal_with_fuel(RedBlackTree::no_red_red, 4);
}

/// One step of an insertion at the node `t`: `grown` is `t` with the new
/// entry at its root, or with its left or its right subtree replaced by
/// what the insertion below made of it.
proof fn lemma_ins_step<K: Ord + Eq, V: Clone>(
    t: RedBlackTree<K, V>,
    k: K,
    v: V,
    left: RedBlackTree<K, V>,
    right: RedBlackTree<K, V>,
    grown: RedBlackTree<K, V>,
)
    requires
        RedBlackTree::<K, V>::lawful_keys(),
        t.ordered(),
        t matches RedBlackTree::Node(l, (key, value, c), r) && {
            ||| (k == key && left == *l && right == *r && grown == RedBlackTree::Node(
                l,
                (k, v, c),
                r,
            ))
            ||| (k.is_lt(&key) && right == *r && left.ordered() && l.grown_by(k, v, left) && grown
                == RedBlackTree::Node(Box::new(left), (key, value, c), r))
            ||| (key.is_lt(&k) && left == *l && right.ordered() && r.grown_by(k, v, right) && grown
                == RedBlackTree::Node(l, (key, value, c), Box::new(right)))
        },
    ensures
        grown.ordered(),
        t.grown_by(k, v, grown),
{
    reveal(obeys_concrete_eq);
    reveal(obeys_cmp_partial_ord);
    reveal(obeys_cmp_ord);
    reveal(obeys_partial_cmp_spec_properties);
    let l = t->Node_0;
    let r = t->Node_2;
    let key = t->Node_1.0;
    lemma_bounds_are_on_keys(*l, key);
    lemma_bounds_are_on_keys(*r, key);
    lemma_bounds_are_on_keys(left, key);
    lemma_bounds_are_on_keys(right, key);
    assert forall|j: K, x: V| #[trigger]
        grown.has_entry(j, x) <==> (j == k && x == v) || (j != k && t.has_entry(j, x)) by {
        if l.has_entry(j, x) {
            lemma_entry_has_key(*l, j, x);
        }
        if r.has_entry(j, x) {
            lemma_entry_has_key(*r, j, x);
        }
        if left.has_entry(j, x) {
            lemma_entry_has_key(left, j, x);
        }
        if right.has_entry(j, x) {
            lemma_entry_has_key(right, j, x);
        }
    }
    assert forall|j: K| #[trigger] grown.has_key(j) <==> j == k || t.has_key(j) by {
        assert(t.has_key(j) <==> key == j || l.has_key(j) || r.has_key(j));
        assert(grown.has_key(j) <==> grown->Node_1.0 == j || left.has_key(j) || right.has_key(j));
    }
}

impl<K: Ord + Eq, V: Clone> RedBlackTree<K, V> {
    /// What `ins` does to an ordered tree: the result is ordered, carries `k`
    /// with `v`, and apart from the key `k` carries what the tree carried.
    pub(super) proof fn lemma_ins_content(t: Self, k: K, v: V)
        requires
            Self::lawful_keys(),
            t.ordered(),
        ensures
            t.ins_of(k, v).ordered(),
            t.grown_by(k, v, t.ins_of(k, v)),
        decreases t,
    {
        let res = t.ins_of(k, v);
        match t {
            RedBlackTree::Leaf => {
                reveal_with_fuel(RedBlackTree::has_entry, 2);
                reveal_with_fuel(RedBlackTree::has_key, 2);
                reveal_with_fuel(RedBlackTree::ordered, 2);
                reveal_with_fuel(RedBlackTree::all_less, 2);
                reveal_with_fuel(RedBlackTree::all_greater, 2);
            },
            RedBlackTree::Node(l, (key, value, c), r) => {
                lemma_key_order::<K, V>(k, key);
                if k.eq_spec(&key) {
                    lemma_ins_step(t, k, v, *l, *r, res);
                } else if k.is_lt(&key) {
                    let below = l.ins_of(k, v);
                    let grown = RedBlackTree::Node(Box::new(below), (key, value, c), r);
                    Self::lemma_ins_content(*l, k, v);
                    lemma_ins_step(t, k, v, below, *r, grown);
                    lemma_balanced_entries(grown);
                    lemma_moved(grown, res);
                } else {
                    let below = r.ins_of(k, v);
                    let grown = RedBlackTree::Node(l, (key, value, c), Box::new(below));
                    Self::lemma_ins_content(*r, k, v);
                    lemma_ins_step(t, k, v, *l, below, grown);
                    lemma_balanced_entries(grown);
                    lemma_moved(grown, res);
                }
            },
        }
    }

    /// What `ins` does to the colours: the number of black nodes on the ways
    /// down stays and so does their balance; the one red node that may have a
    /// red child afterwards is the root, and only if it was red before.
    pub(super) proof fn lemma_ins_colours(t: Self, k: K, v: V)
        ensures
            t.ins_of(k, v) is Node,
            t.ins_of(k, v).black_height() == t.black_height(),
            t.black_balanced() ==> t.ins_of(k, v).black_balanced(),
            t.no_red_red() ==> t.ins_of(k, v).no_red_red_below(),
            t.no_red_red() && t.spec_color() is Black ==> t.ins_of(k, v).no_red_red(),
        decreases t,
    {
        reveal_with_fuel(RedBlackTree::no_red_red, 2);
        reveal_with_fuel(RedBlackTree::black_height, 2);
        reveal_with_fuel(RedBlackTree::black_balanced, 2);
        match t {
            RedBlackTree::Leaf => {},
            RedBlackTree::Node(l, (key, value, c), r) => {
                if k.eq_spec(&key) {
                } else if k.is_lt(&key) {
                    Self::lemma_ins_colours(*l, k, v);
                    lemma_balanced_colours(
                        RedBlackTree::Node(Box::new(l.ins_of(k, v)), (key, value, c), r),
                    );
                } else {
                    Self::lemma_ins_colours(*r, k, v);
                    lemma_balanced_colours(
                        RedBlackTree::Node(l, (key, value, c), Box::new(r.ins_of(k, v))),
                    );
                }
            },
        }
    }

    /// The entries of a node made of `l`, `(k, v)` and `r`, in either colour.
    pub(super) proof fn lemma_entries_over(l: Self, k: K, v: V, r: Self)
        ensures
            Self::red_over(l, k, v, r).entries() == l.entries() + seq![(k, v)] + r.entries(),
            Self::black_over(l, k, v, r).entries() == l.entries() + seq![(k, v)] + r.entries(),
    {
    }

    /// `bal_left` puts the entries of `l`, then `(k, v)`, then those of `r`.
    pub(super) proof fn lemma_bal_left_entries(l: Self, k: K, v: V, r: Self)
        ensures
            Self::bal_left_of(l, k, v, r).entries() == l.entries() + seq![(k, v)] + r.entries(),
    {
        let res = Self::bal_left_of(l, k, v, r);
        if l.is_red_node() {
            lemma_entries_of_node(l);
            Self::lemma_entries_over(l.blackened(), k, v, r);
        } else if r.is_black_node() {
            lemma_entries_of_node(r);
            Self::lemma_entries_over(l, k, v, r.reddened());
            lemma_balanced_entries(Self::black_over(l, k, v, r.reddened()));
        } else if r.is_red_node() && r.left().is_black_node() {
            let mid = r.left();
            let far = Self::black_over(mid.right(), r.key(), r.value(), r.right().reddened());
            lemma_entries_of_node(r);
            lemma_entries_of_node(mid);
            if r.right() is Node {
                lemma_entries_of_node(r.right());
            }
            Self::lemma_entries_over(mid.right(), r.key(), r.value(), r.right().reddened());
            lemma_balanced_entries(far);
            Self::lemma_entries_over(l, k, v, mid.left());
            Self::lemma_entries_over(
                Self::black_over(l, k, v, mid.left()),
                mid.key(),
                mid.value(),
                far.balanced(),
            );
        } else {
            Self::lemma_entries_over(l, k, v, r);
        }
        assert(res.entries() =~= l.entries() + seq![(k, v)] + r.entries());
    }

    /// `bal_right` puts the entries of `l`, then `(k, v)`, then those of `r`.
    pub(super) proof fn lemma_bal_right_entries(l: Self, k: K, v: V, r: Self)
        ensures
            Self::bal_right_of(l, k, v, r).entries() == l.entries() + seq![(k, v)] + r.entries(),
    {
        let res = Self::bal_right_of(l, k, v, r);
        if r.is_red_node() {
            lemma_entries_of_node(r);
            Self::lemma_entries_over(l, k, v, r.blackened());
        } else if l.is_black_node() {
            lemma_entries_of_node(l);
            Self::lemma_entries_over(l.reddened(), k, v, r);
            lemma_balanced_entries(Self::black_over(l.reddened(), k, v, r));
        } else if l.is_red_node() && l.right().is_black_node() {
            let mid = l.right();
            let near = Self::black_over(l.left().reddened(), l.key(), l.value(), mid.left());
            lemma_entries_of_node(l);
            lemma_entries_of_node(mid);
            if l.left() is Node {
                lemma_entries_of_node(l.left());
            }
            Self::lemma_entries_over(l.left().reddened(), l.key(), l.value(), mid.left());
            lemma_balanced_entries(near);
            Self::lemma_entries_over(mid.right(), k, v, r);
            Self::lemma_entries_over(
                near.balanced(),
                mid.key(),
                mid.value(),
                Self::black_over(mid.right(), k, v, r),
            );
        } else {
            Self::lemma_entries_over(l, k, v, r);
        }
        assert(res.entries() =~= l.entries() + seq![(k, v)] + r.entries());
    }

    /// `fuse` puts the entries of `l` before those of `r`.
    pub(super) proof fn lemma_fused_entries(l: Self, r: Self)
        ensures
            Self::fused(l, r).entries() == l.entries() + r.entries(),
        decreases l, r,
    {
        let res = Self::fused(l, r);
        if l is Leaf {
            assert(res.entries() =~= l.entries() + r.entries());
        } else if r is Leaf {
            assert(res.entries() =~= l.entries() + r.entries());
        } else {
            lemma_entries_of_node(l);
            lemma_entries_of_node(r);
            let a = l.left().entries();
            let b = seq![(l.key(), l.value())];
            let d = seq![(r.key(), r.value())];
            let e = r.right().entries();
            if (l.is_red_node() && r.is_red_node()) || (l.is_black_node() && r.is_black_node()) {
                let m = Self::fused(l.right(), r.left());
                Self::lemma_fused_entries(l.right(), r.left());
                lemma_regroup(a, b, l.right().entries(), Seq::empty(), r.left().entries(), d, e);
                if m.is_red_node() {
                    let s = seq![(m.key(), m.value())];
                    lemma_entries_of_node(m);
                    Self::lemma_entries_over(l.left(), l.key(), l.value(), m.left());
                    Self::lemma_entries_over(m.right(), r.key(), r.value(), r.right());
                    if l.is_red_node() {
                        Self::lemma_entries_over(
                            Self::red_over(l.left(), l.key(), l.value(), m.left()),
                            m.key(),
                            m.value(),
                            Self::red_over(m.right(), r.key(), r.value(), r.right()),
                        );
                    } else {
                        Self::lemma_entries_over(
                            Self::black_over(l.left(), l.key(), l.value(), m.left()),
                            m.key(),
                            m.value(),
                            Self::black_over(m.right(), r.key(), r.value(), r.right()),
                        );
                    }
                    lemma_regroup(a, b, m.left().entries(), s, m.right().entries(), d, e);
                } else if l.is_black_node() {
                    Self::lemma_entries_over(m, r.key(), r.value(), r.right());
                    Self::lemma_bal_left_entries(
                        l.left(),
                        l.key(),
                        l.value(),
                        Self::black_over(m, r.key(), r.value(), r.right()),
                    );
                    lemma_regroup(a, b, m.entries(), Seq::empty(), Seq::empty(), d, e);
                } else {
                    Self::lemma_entries_over(m, r.key(), r.value(), r.right());
                    Self::lemma_entries_over(
                        l.left(),
                        l.key(),
                        l.value(),
                        Self::red_over(m, r.key(), r.value(), r.right()),
                    );
                    lemma_regroup(a, b, m.entries(), Seq::empty(), Seq::empty(), d, e);
                }
            } else if r.is_red_node() {
                let m = Self::fused(l, r.left());
                Self::lemma_fused_entries(l, r.left());
                Self::lemma_entries_over(m, r.key(), r.value(), r.right());
                assert(l.entries() + (r.left().entries() + d + e) =~= (l.entries()
                    + r.left().entries()) + d + e);
            } else {
                let m = Self::fused(l.right(), r);
                Self::lemma_fused_entries(l.right(), r);
                Self::lemma_entries_over(l.left(), l.key(), l.value(), m);
                assert((a + b + l.right().entries()) + r.entries() =~= a + b + (l.right().entries()
                    + r.entries()));
            }
        }
    }

    /// `bal_left` makes up for the black node that `l` is short of.
    pub(super) proof fn lemma_bal_left_colours(l: Self, k: K, v: V, r: Self)
        requires
            l.black_balanced(),
            l.no_red_red_below(),
            r.is_red_black(),
            l.black_height() + 1 == r.black_height(),
        ensures
            Self::bal_left_of(l, k, v, r).black_balanced(),
            Self::bal_left_of(l, k, v, r).black_height() == r.black_height(),
            Self::bal_left_of(l, k, v, r).no_red_red_below(),
            r.spec_color() is Black ==> Self::bal_left_of(l, k, v, r).no_red_red(),
    {
        reveal_with_fuel(RedBlackTree::black_height, 3);
        reveal_with_fuel(RedBlackTree::black_balanced, 3);
        reveal_with_fuel(RedBlackTree::no_red_red, 3);
        if l.is_red_node() {
        } else if r.is_black_node() {
            lemma_balanced_colours(Self::black_over(l, k, v, r.reddened()));
        } else if r.is_red_node() && r.left().is_black_node() {
            lemma_balanced_colours(
                Self::black_over(r.left().right(), r.key(), r.value(), r.right().reddened()),
            );
        }
    }

    /// `bal_right` makes up for the black node that `r` is short of.
    pub(super) proof fn lemma_bal_right_colours(l: Self, k: K, v: V, r: Self)
        requires
            r.black_balanced(),
            r.no_red_red_below(),
            l.is_red_black(),
            r.black_height() + 1 == l.black_height(),
        ensures
            Self::bal_right_of(l, k, v, r).black_balanced(),
            Self::bal_right_of(l, k, v, r).black_height() == l.black_height(),
            Self::bal_right_of(l, k, v, r).no_red_red_below(),
            l.spec_color() is Black ==> Self::bal_right_of(l, k, v, r).no_red_red(),
    {
        reveal_with_fuel(RedBlackTree::black_height, 3);
        reveal_with_fuel(RedBlackTree::black_balanced, 3);
        reveal_with_fuel(RedBlackTree::no_red_red, 3);
        if r.is_red_node() {
        } else if l.is_black_node() {
            lemma_balanced_colours(Self::black_over(l.reddened(), k, v, r));
        } else if l.is_red_node() && l.right().is_black_node() {
            lemma_balanced_colours(
                Self::black_over(l.left().reddened(), l.key(), l.value(), l.right().left()),
            );
        }
    }

    /// `fuse` of two red-black trees with equally many black nodes on the
    /// ways down has as many, and no red node with a red child but, where
    /// one of the two roots is red, at its root.
    pub(super) proof fn lemma_fused_colours(l: Self, r: Self)
        requires
            l.is_red_black(),
            r.is_red_black(),
            l.black_height() == r.black_height(),
        ensures
            Self::fused(l, r).black_balanced(),
            Self::fused(l, r).black_height() == l.black_height(),
            Self::fused(l, r).no_red_red_below(),
            l.spec_color() is Black && r.spec_color() is Black ==> Self::fused(l, r).no_red_red(),
        decreases l, r,
    {
        reveal_with_fuel(RedBlackTree::black_height, 3);
        reveal_with_fuel(RedBlackTree::black_balanced, 3);
        reveal_with_fuel(RedBlackTree::no_red_red, 3);
        if l is Leaf {
        } else if r is Leaf {
        } else if (l.is_red_node() && r.is_red_node()) || (l.is_black_node() && r.is_black_node()) {
            let m = Self::fused(l.right(), r.left());
            Self::lemma_fused_colours(l.right(), r.left());
            if !m.is_red_node() && l.is_black_node() {
                Self::lemma_bal_left_colours(
                    l.left(),
                    l.key(),
                    l.value(),
                    Self::black_over(m, r.key(), r.value(), r.right()),
                );
            }
        } else if r.is_red_node() {
            Self::lemma_fused_colours(l, r.left());
        } else {
            Self::lemma_fused_colours(l.right(), r);
        }
    }

    /// What `del` does to the colours of a red-black tree: below a black
    /// root every way down loses one black node, below another root none;
    /// no red node has a red child but, below a black root, the root.
    pub(super) proof fn lemma_del_colours(t: Self, k: K)
        requires
            t.is_red_black(),
        ensures
            t.del_of(k).black_balanced(),
            t.del_of(k).no_red_red_below(),
            t.is_black_node() ==> t.del_of(k).black_height() + 1 == t.black_height(),
            !t.is_black_node() ==> t.del_of(k).black_height() == t.black_height() && t.del_of(
                k,
            ).no_red_red(),
        decreases t,
    {
        reveal_with_fuel(RedBlackTree::black_height, 2);
        reveal_with_fuel(RedBlackTree::black_balanced, 2);
        reveal_with_fuel(RedBlackTree::no_red_red, 2);
        match t {
            RedBlackTree::Leaf => {},
            RedBlackTree::Node(l, (key, value, _), r) => {
                if k.eq_spec(&key) {
                    Self::lemma_fused_colours(*l, *r);
                } else if k.is_lt(&key) {
                    Self::lemma_del_colours(*l, k);
                    if l.is_black_node() {
                        Self::lemma_bal_left_colours(l.del_of(k), key, value, *r);
                    }
                } else {
                    Self::lemma_del_colours(*r, k);
                    if r.is_black_node() {
                        Self::lemma_bal_right_colours(*l, key, value, r.del_of(k));
                    }
                }
            },
        }
    }

    /// What `del` does to an ordered tree: the result is ordered and
    /// carries everything but the key `k`.
    pub(super) proof fn lemma_del_content(t: Self, k: K)
        requires
            Self::lawful_keys(),
            t.ordered(),
        ensures
            t.del_of(k).ordered(),
            t.shrunk_by(k, t.del_of(k)),
        decreases t,
    {
        let d = t.del_of(k);
        match t {
            RedBlackTree::Leaf => {},
            RedBlackTree::Node(l, (key, value, _), r) => {
                lemma_key_order::<K, V>(k, key);
                lemma_bounds_are_on_keys(*l, key);
                lemma_bounds_are_on_keys(*r, key);
                assert forall|j: K| l.has_key(j) implies j != key && (k == key || key.is_lt(&k)
                    ==> j != k) by {
                    lemma_key_order::<K, V>(j, key);
                    lemma_key_order::<K, V>(j, k);
                    if key.is_lt(&k) {
                        lemma_less_chain::<K, V>(j, key, k);
                    }
                }
                assert forall|j: K| r.has_key(j) implies j != key && (k == key || k.is_lt(&key)
                    ==> j != k) by {
                    lemma_key_order::<K, V>(key, j);
                    lemma_key_order::<K, V>(k, j);
                    if k.is_lt(&key) {
                        lemma_less_chain::<K, V>(k, key, j);
                    }
                }
                assert forall|j: K, x: V| l.has_entry(j, x) implies l.has_key(j) by {
                    lemma_entry_has_key(*l, j, x);
                }
                assert forall|j: K, x: V| r.has_entry(j, x) implies r.has_key(j) by {
                    lemma_entry_has_key(*r, j, x);
                }
                if k.eq_spec(&key) {
                    Self::lemma_fused_entries(*l, *r);
                    lemma_joined(*l, *r, d, key);
                } else if k.is_lt(&key) {
                    let below = l.del_of(k);
                    let whole = Self::black_over(below, key, value, *r);
                    Self::lemma_del_content(*l, k);
                    Self::lemma_bal_left_entries(below, key, value, *r);
                    Self::lemma_entries_over(below, key, value, *r);
                    lemma_bounds_are_on_keys(below, key);
                    lemma_moved(d, whole);
                    assert(whole.ordered());
                    assert forall|j: K, x: V| #[trigger]
                        whole.has_entry(j, x) <==> j != k && t.has_entry(j, x) by {
                        if r.has_entry(j, x) {
                            lemma_entry_has_key(*r, j, x);
                        }
                        assert(whole.has_entry(j, x) <==> (key == j && value == x)
                            || below.has_entry(j, x) || r.has_entry(j, x));
                        assert(t.has_entry(j, x) <==> (key == j && value == x) || l.has_entry(j, x)
                            || r.has_entry(j, x));
                        assert(below.has_entry(j, x) <==> j != k && l.has_entry(j, x));
                        assert(r.has_key(j) ==> j != k);
                    }
                    assert forall|j: K| #[trigger] whole.has_key(j) <==> j != k && t.has_key(
                        j,
                    ) by {
                        assert(whole.has_key(j) <==> key == j || below.has_key(j) || r.has_key(j));
                        assert(t.has_key(j) <==> key == j || l.has_key(j) || r.has_key(j));
                        assert(below.has_key(j) <==> j != k && l.has_key(j));
                        assert(r.has_key(j) ==> j != k);
                    }
                } else {
                    let below = r.del_of(k);
                    let whole = Self::black_over(*l, key, value, below);
                    Self::lemma_del_content(*r, k);
                    Self::lemma_bal_right_entries(*l, key, value, below);
                    Self::lemma_entries_over(*l, key, value, below);
                    lemma_bounds_are_on_keys(below, key);
                    lemma_moved(d, whole);
                    assert(whole.ordered());
                    assert forall|j: K, x: V| #[trigger]
                        whole.has_entry(j, x) <==> j != k && t.has_entry(j, x) by {
                        if l.has_entry(j, x) {
                            lemma_entry_has_key(*l, j, x);
                        }
                        assert(whole.has_entry(j, x) <==> (key == j && value == x) || l.has_entry(
                            j,
                            x,
                        ) || below.has_entry(j, x));
                        assert(t.has_entry(j, x) <==> (key == j && value == x) || l.has_entry(j, x)
                            || r.has_entry(j, x));
                        assert(below.has_entry(j, x) <==> j != k && r.has_entry(j, x));
                        assert(l.has_key(j) ==> j != k);
                    }
                    assert forall|j: K| #[trigger] whole.has_key(j) <==> j != k && t.has_key(
                        j,
                    ) by {
                        assert(whole.has_key(j) <==> key == j || l.has_key(j) || below.has_key(j));
                        assert(t.has_key(j) <==> key == j || l.has_key(j) || r.has_key(j));
                        assert(below.has_key(j) <==> j != k && r.has_key(j));
                        assert(l.has_key(j) ==> j != k);
                    }
                }
            },
        }
    }
}

/// Two ordered trees, of which the second carries what the first carries
/// but for the key `k`, and `k` with `v`: lookups in the second find what
/// the map of the first finds after `insert(k, v)`.
pub(super) proof fn lemma_view_after_insert<K: Ord + Eq, V: Clone>(
    before: RedBlackTree<K, V>,
    k: K,
    v: V,
    after: RedBlackTree<K, V>,
)
    requires
        RedBlackTree::<K, V>::lawful_keys(),
        before.ordered(),
        after.ordered(),
        before.grown_by(k, v, after),
    ensures
        after@ == before@.insert(k, v),
{
    assert forall|j: K| #[trigger] after.spec_find(j) == (if j == k {
        Some(v)
    } else {
        before.spec_find(j)
    }) by {
        lemma_find_is_entry(after, j, v);
        match after.spec_find(j) {
            Some(x) => {
                lemma_find_is_entry(after, j, x);
                lemma_find_is_entry(before, j, x);
            },
            None => {
                match before.spec_find(j) {
                    Some(x) => {
                        lemma_find_is_entry(after, j, x);
                        lemma_find_is_entry(before, j, x);
                    },
                    None => {},
                }
            },
        }
    }
    assert(after@ =~= before@.insert(k, v));
}

/// Two ordered trees, of which the second carries what the first carries
/// but for the key `k`: lookups in the second find what the map of the
/// first finds after `remove(k)`.
pub(super) proof fn lemma_view_after_delete<K: Ord + Eq, V: Clone>(
    before: RedBlackTree<K, V>,
    k: K,
    after: RedBlackTree<K, V>,
)
    requires
        RedBlackTree::<K, V>::lawful_keys(),
        before.ordered(),
        after.ordered(),
        before.shrunk_by(k, after),
    ensures
        after@ == before@.remove(k),
{
    assert forall|j: K| #[trigger] after.spec_find(j) == (if j == k {
        None
    } else {
        before.spec_find(j)
    }) by {
        match after.spec_find(j) {
            Some(x) => {
                lemma_find_is_entry(after, j, x);
                lemma_find_is_entry(before, j, x);
            },
            None => {
                match before.spec_find(j) {
                    Some(x) => {
                        lemma_find_is_entry(after, j, x);
                        lemma_find_is_entry(before, j, x);
                    },
                    None => {},
                }
            },
        }
    }
    assert(after@ =~= before@.remove(k));
}

} // verus!
