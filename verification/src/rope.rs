//! A rope: a binary tree over string fragments that stands for one character
//! sequence. Every operation consumes its operands and returns new ropes; what
//! an operation means is stated against [`Rope::text`], the in-order
//! concatenation of the fragments.
//!
//! Positions and lengths count characters, not bytes. A position past the
//! end is ruled out by the `requires` of `index`, `split`, `insert` and
//! `delete`; a caller that is not verified and passes one makes the call
//! abort.
use vstd::prelude::*;
use vstd::arithmetic::power2::{lemma2_to64, lemma_pow2_unfold, pow2};
use vstd::pervasive::unreached;
use vstd::string::*;

verus! {

/// Longest fragment that [`Rope::balance`] leaves in a single leaf.
pub const LEAF_LIMIT: usize = 8;

#[derive(Debug)]
pub enum Rope {
    /// The empty sequence.
    Sentinel,
    /// A fragment and its number of characters.
    Leaf(String, usize),
    /// Two subtrees and the number of characters under the left one.
    Node(Box<Rope>, usize, Box<Rope>),
}

impl View for Rope {
    type V = Seq<char>;

    open spec fn view(&self) -> Seq<char> {
        self.text()
    }
}

impl Rope {
    /// The characters of the rope, left to right.
    pub open spec fn text(self) -> Seq<char>
        decreases self,
    {
        match self {
            Rope::Sentinel => Seq::empty(),
            Rope::Leaf(s, _) => s@,
            Rope::Node(l, _, r) => l.text() + r.text(),
        }
    }

    /// Every stored count is the count it claims to be, and the total fits
    /// in a `usize`.
    pub open spec fn wf(self) -> bool
        decreases self,
    {
        match self {
            Rope::Sentinel => true,
            Rope::Leaf(s, w) => w == s@.len(),
            Rope::Node(l, w, r) => {
                &&& l.wf()
                &&& r.wf()
                &&& w == l.text().len()
                &&& l.text().len() + r.text().len() <= usize::MAX
            },
        }
    }

    /// The branch that `concat` builds from `l` and `r`.
    pub open spec fn joined(l: Rope, r: Rope) -> Rope {
        Rope::Node(Box::new(l), l.text().len() as usize, Box::new(r))
    }

    /// `a` and `b` are what cutting this rope before character `i` yields:
    /// a leaf is cut into two leaves, and at a branch the cut goes into the
    /// side that holds position `i`, the other side being kept as it is
    /// under a new branch.
    pub open spec fn splits_into(self, i: nat, a: Rope, b: Rope) -> bool
        decreases self,
    {
        match self {
            Rope::Sentinel => i == 0 && a == Rope::Sentinel && b == Rope::Sentinel,
            Rope::Leaf(s, _) => {
                &&& i <= s@.len()
                &&& a matches Rope::Leaf(sa, wa)
                &&& b matches Rope::Leaf(sb, wb)
                &&& sa@ == s@.subrange(0, i as int)
                &&& sb@ == s@.subrange(i as int, s@.len() as int)
                &&& wa == sa@.len()
                &&& wb == sb@.len()
            },
            Rope::Node(l, w, r) => if i < w {
                &&& b matches Rope::Node(bl, bw, br)
                &&& br == r
                &&& bw == bl.text().len()
                &&& l.splits_into(i, a, *bl)
            } else {
                &&& a matches Rope::Node(al, aw, ar)
                &&& al == l
                &&& aw == l.text().len()
                &&& r.splits_into((i - w) as nat, *ar, b)
            },
        }
    }

    /// This rope is a single leaf that holds exactly `t`.
    pub open spec fn is_fragment(self, t: Seq<char>) -> bool {
        self matches Rope::Leaf(s, w) && s@ == t && w == t.len()
    }

    /// Number of branches on the longest way from the root to a leaf.
    pub open spec fn depth(self) -> nat
        decreases self,
    {
        match self {
            Rope::Node(l, _, r) => 1 + if l.depth() >= r.depth() {
                l.depth()
            } else {
                r.depth()
            },
            _ => 0,
        }
    }

    /// No leaf holds more than `limit` characters.
    pub open spec fn leaves_within(self, limit: nat) -> bool
        decreases self,
    {
        match self {
            Rope::Sentinel => true,
            Rope::Leaf(s, _) => s@.len() <= limit,
            Rope::Node(l, _, r) => l.leaves_within(limit) && r.leaves_within(limit),
        }
    }

    /// The shape that `balance` builds: a text of at most [`LEAF_LIMIT`]
    /// characters is one leaf; a longer one is a branch whose left side
    /// holds the first `len / 2` characters, rounded down, both sides being
    /// of this shape again.
    pub open spec fn is_balanced(self) -> bool
        decreases self,
    {
        match self {
            Rope::Sentinel => false,
            Rope::Leaf(s, w) => s@.len() <= LEAF_LIMIT && w == s@.len(),
            Rope::Node(l, w, r) => {
                &&& l.text().len() + r.text().len() > LEAF_LIMIT
                &&& l.text().len() == (l.text().len() + r.text().len()) / 2
                &&& w == l.text().len()
                &&& l.is_balanced()
                &&& r.is_balanced()
            },
        }
    }

    /// The count stored at the root: the fragment's length at a leaf, the
    /// left subtree's length at a branch.
    pub fn weight(&self) -> (w: usize)
        ensures
            w == match *self {
                Rope::Sentinel => 0,
                Rope::Leaf(_, n) => n,
                Rope::Node(_, n, _) => n,
            },
    {
        match self {
            Rope::Sentinel => 0,
            Rope::Leaf(_, w) => *w,
            Rope::Node(_, w, _) => *w,
        }
    }

    /// Number of characters in the rope.
    pub fn len(&self) -> (n: usize)
        requires
            self.wf(),
        ensures
            n == self@.len(),
        decreases self,
    {
        match self {
            Rope::Sentinel => 0,
            Rope::Leaf(_, w) => *w,
            Rope::Node(_, w, r) => *w + r.len(),
        }
    }

    /// Joins two ropes under a new branch; neither operand is copied or
    /// changed.
    pub fn concat(l: Rope, r: Rope) -> (res: Rope)
        requires
            l.wf(),
            r.wf(),
            l@.len() + r@.len() <= usize::MAX,
        ensures
            res == Rope::joined(l, r),
            res.wf(),
            res@ == l@ + r@,
            res@.len() == l@.len() + r@.len(),
    {
        let w = l.len();
        Rope::Node(Box::new(l), w, Box::new(r))
    }

    /// Flattens the rope into one string.
    pub fn collect(&self) -> (s: String)
        ensures
            s@ == self@,
        decreases self,
    {
        match self {
            Rope::Sentinel => String::new(),
            Rope::Leaf(s, _) => s.clone(),
            Rope::Node(l, _, r) => {
                let right = r.collect();
                l.collect().concat(right.as_str())
            },
        }
    }

    /// The character at position `i`.
    pub fn index(&self, i: usize) -> (c: char)
        requires
            self.wf(),
            i < self@.len(),
        ensures
            c == self@[i as int],
        decreases self,
    {
        match self {
            Rope::Sentinel => unreached(),
            Rope::Leaf(s, _) => s.as_str().get_char(i),
            Rope::Node(l, w, r) => {
                if i < *w {
                    l.index(i)
                } else {
                    r.index(i - *w)
                }
            },
        }
    }

    /// Cuts the rope before character `i` into a prefix and a suffix.
    pub fn split(self, i: usize) -> (res: (Rope, Rope))
        requires
            self.wf(),
            i <= self@.len(),
        ensures
            self.splits_into(i as nat, res.0, res.1),
            res.0.wf(),
            res.1.wf(),
            res.0@ == self@.subrange(0, i as int),
            res.1@ == self@.subrange(i as int, self@.len() as int),
            res.0@.len() == i,
            res.0@ + res.1@ == self@,
        decreases self,
    {
        match self {
            Rope::Sentinel => {
                if i == 0 {
                    (Rope::Sentinel, Rope::Sentinel)
                } else {
                    unreached()
                }
            },
            Rope::Leaf(s, n) => {
                let l = s.as_str().substring_char(0, i);
                let r = s.as_str().substring_char(i, n);
                (Rope::Leaf(l.to_owned(), i), Rope::Leaf(r.to_owned(), n - i))
            },
            Rope::Node(l, w, r) => {
                if i < w {
                    let (ll, lr) = l.split(i);
                    (ll, Rope::concat(lr, *r))
                } else {
                    let (rl, rr) = r.split(i - w);
                    (Rope::concat(*l, rl), rr)
                }
            },
        }
    }

    /// Puts `text` into the rope before character `i`, as one new leaf
    /// between the two halves of the cut.
    pub fn insert(self, i: usize, text: &str) -> (res: Rope)
        requires
            self.wf(),
            i <= self@.len(),
            self@.len() + text@.len() <= usize::MAX,
        ensures
            res.wf(),
            res@ == self@.subrange(0, i as int) + text@ + self@.subrange(
                i as int,
                self@.len() as int,
            ),
            ({
                &&& res matches Rope::Node(prefix, w, rest)
                &&& *rest matches Rope::Node(leaf, n, suffix)
                &&& self.splits_into(i as nat, *prefix, *suffix)
                &&& leaf.is_fragment(text@)
                &&& w == i
                &&& n == text@.len()
            }),
    {
        let (l, r) = self.split(i);
        let leaf = Rope::Leaf(text.to_owned(), text.unicode_len());
        Rope::concat(l, Rope::concat(leaf, r))
    }

    /// Removes the characters from position `i` up to, not including,
    /// position `j`: the rope is cut at `i`, the rest is cut again, and the
    /// two outer parts are joined.
    pub fn delete(self, i: usize, j: usize) -> (res: Rope)
        requires
            self.wf(),
            i <= j <= self@.len(),
        ensures
            res.wf(),
            res@ == self@.subrange(0, i as int) + self@.subrange(j as int, self@.len() as int),
            ({
                &&& res matches Rope::Node(prefix, w, suffix)
                &&& w == i
                &&& exists|rest: Rope, removed: Rope|
                    {
                        &&& #[trigger] self.splits_into(i as nat, *prefix, rest)
                        &&& #[trigger] rest.splits_into((j - i) as nat, removed, *suffix)
                    }
            }),
    {
        let (l, r) = self.split(i);
        let ghost rest = r;
        let (removed, r) = r.split(j - i);
        let res = Rope::concat(l, r);
        assert(self.splits_into(i as nat, l, rest) && rest.splits_into(
            (j - i) as nat,
            removed,
            r,
        ));
        res
    }

    /// Rebuilds the rope from its flattened text as an evenly cut tree with
    /// short leaves.
    pub fn balance(self) -> (res: Rope)
        ensures
            res.wf(),
            res@ == self@,
            res.is_balanced(),
            res.leaves_within(LEAF_LIMIT as nat),
        decreases self@.len(),
    {
        let s = self.collect();
        let n = s.as_str().unicode_len();
        if n <= LEAF_LIMIT {
            Rope::Leaf(s, n)
        } else {
            let mid = n / 2;
            let l = s.as_str().substring_char(0, mid);
            let r = s.as_str().substring_char(mid, n);
            Rope::concat(
                Rope::Leaf(l.to_owned(), mid).balance(),
                Rope::Leaf(r.to_owned(), n - mid).balance(),
            )
        }
    }

    /// A balanced rope that holds `s`.
    pub fn new(s: &str) -> (res: Rope)
        ensures
            res.wf(),
            res@ == s@,
            res.is_balanced(),
            res.leaves_within(LEAF_LIMIT as nat),
    {
        let n = s.unicode_len();
        Rope::Leaf(s.to_owned(), n).balance()
    }
}

impl Clone for Rope {
    /// A copy that is equal to the rope in every node.
    fn clone(&self) -> (res: Self)
        ensures
            res == *self,
        decreases self,
    {
        match self {
            Rope::Sentinel => Rope::Sentinel,
            Rope::Leaf(s, w) => Rope::Leaf(s.clone(), *w),
            Rope::Node(l, w, r) => {
                let left = (**l).clone();
                let right = (**r).clone();
                Rope::Node(Box::new(left), *w, Box::new(right))
            },
        }
    }
}

/// Cutting and joining again gives the text back: whatever pair a cut at a
/// valid position yields, the pair is well formed, its first part holds
/// exactly `i` characters, and the branch over both parts reads as the rope
/// that was cut.
pub proof fn lemma_split_then_concat(r: Rope, i: nat, a: Rope, b: Rope)
    requires
        r.wf(),
        i <= r@.len(),
        r.splits_into(i, a, b),
    ensures
        a.wf(),
        b.wf(),
        a@ == r@.subrange(0, i as int),
        b@ == r@.subrange(i as int, r@.len() as int),
        a@.len() == i,
        Rope::joined(a, b).wf(),
        Rope::joined(a, b)@ == r@,
    decreases r,
{
    match r {
        Rope::Sentinel => {},
        Rope::Leaf(s, _) => {},
        Rope::Node(l, w, right) => {
            if i < w {
                let bl = b->Node_0;
                lemma_split_then_concat(*l, i, a, *bl);
            } else {
                let ar = a->Node_2;
                lemma_split_then_concat(*right, (i - w) as nat, *ar, b);
            }
        },
    }
    lemma_wf_len_fits(r);
    assert(a.wf() && b.wf());
}

/// The text of a well-formed rope is short enough to be counted in a
/// `usize`.
pub proof fn lemma_wf_len_fits(r: Rope)
    requires
        r.wf(),
    ensures
        r@.len() <= usize::MAX,
{
}

/// A join is as long as its two parts together.
pub proof fn lemma_concat_len(a: Rope, b: Rope)
    ensures
        Rope::joined(a, b)@.len() == a@.len() + b@.len(),
        Rope::joined(a, b)@ == a@ + b@,
{
}

/// In a rope of the balanced shape every count is right and no leaf is
/// longer than [`LEAF_LIMIT`].
pub proof fn lemma_balanced_leaves(r: Rope)
    requires
        r.is_balanced(),
        r@.len() <= usize::MAX,
    ensures
        r.wf(),
        r.leaves_within(LEAF_LIMIT as nat),
    decreases r,
{
    match r {
        Rope::Node(l, _, right) => {
            lemma_balanced_leaves(*l);
            lemma_balanced_leaves(*right);
        },
        _ => {},
    }
}

/// A rope of the balanced shape is shallow: with at most
/// `LEAF_LIMIT * 2^d` characters no leaf lies deeper than `d` branches.
pub proof fn lemma_balanced_depth(r: Rope, d: nat)
    requires
        r.is_balanced(),
        r@.len() <= LEAF_LIMIT * pow2(d),
    ensures
        r.depth() <= d,
    decreases r,
{
    match r {
        Rope::Node(l, _, right) => {
            if d == 0 {
                lemma2_to64();
            } else {
                lemma_pow2_unfold(d);
                lemma_balanced_depth(*l, (d - 1) as nat);
                lemma_balanced_depth(*right, (d - 1) as nat);
            }
        },
        _ => {},
    }
}

} // verus!
