//! A trie over characters that holds a set of words.
//!
//! A word is in the trie when the walk along its characters, which at every
//! node takes the first child labelled with the next character, ends on a
//! `Leaf` exactly when the word is used up.
use vstd::prelude::*;
use vstd::string::*;

verus! {

#[derive(Debug)]
pub enum Trie {
    /// The end of a word.
    Leaf,
    /// The labelled children of an inner node, in the order they were added.
    Node(Vec<(char, Trie)>),
}

/// Position of the first child in `children` labelled `c`, or the number of
/// children if there is none.
pub open spec fn first_labelled(children: Seq<(char, Trie)>, c: char) -> int
    decreases children.len(),
{
    if children.len() == 0 {
        0
    } else if children[0].0 == c {
        0
    } else {
        1 + first_labelled(children.drop_first(), c)
    }
}

/// `p` is the beginning of `w` and shorter than `w`.
pub open spec fn is_proper_prefix(p: Seq<char>, w: Seq<char>) -> bool {
    p.len() < w.len() && w.subrange(0, p.len() as int) == p
}

impl View for Trie {
    type V = Set<Seq<char>>;

    /// The words of the trie.
    open spec fn view(&self) -> Set<Seq<char>> {
        Set::new(|w: Seq<char>| self.spec_search(w))
    }
}

impl Trie {
    /// The word `w` is in the trie.
    pub open spec fn spec_search(self, w: Seq<char>) -> bool
        decreases w.len(),
    {
        match self {
            Trie::Leaf => w.len() == 0,
            Trie::Node(children) => {
                let i = first_labelled(children@, w[0]);
                w.len() > 0 && i < children@.len() && children@[i].1.spec_search(w.drop_first())
            },
        }
    }

    /// The walk along all of `w` stays in the trie and ends on a `Node`, so
    /// that `w` is the beginning of longer walks, or a dead end.
    pub open spec fn reaches_node(self, w: Seq<char>) -> bool
        decreases w.len(),
    {
        match self {
            Trie::Leaf => false,
            Trie::Node(children) => {
                let i = first_labelled(children@, w[0]);
                w.len() == 0 || (i < children@.len() && children@[i].1.reaches_node(
                    w.drop_first(),
                ))
            },
        }
    }

    /// The words of the trie once `w` has been walked in: unchanged where
    /// the walk along `w` ends on a `Node`; otherwise `w` is added and the
    /// word that was a proper beginning of `w` is dropped.
    pub open spec fn words_after_insert(self, w: Seq<char>) -> Set<Seq<char>> {
        if self.reaches_node(w) {
            self@
        } else {
            self@.filter(|t: Seq<char>| !is_proper_prefix(t, w)).insert(w)
        }
    }

    /// `after` is this trie with the word `w` walked in: where the walk
    /// finds a child with the next label it goes on below that child; where
    /// it finds none, or stands on a `Leaf`, it hangs the rest of the word
    /// there as a new chain; where `w` is used up it changes nothing.
    pub open spec fn grows_into(self, w: Seq<char>, after: Trie) -> bool
        decreases w.len(),
    {
        if w.len() == 0 {
            after == self
        } else {
            match self {
                Trie::Leaf => {
                    &&& after matches Trie::Node(grown)
                    &&& grown@.len() == 1
                    &&& grown@[0].0 == w[0]
                    &&& Trie::Leaf.grows_into(w.drop_first(), grown@[0].1)
                },
                Trie::Node(children) => {
                    let i = first_labelled(children@, w[0]);
                    &&& after matches Trie::Node(grown)
                    &&& if i < children@.len() {
                        &&& grown@.len() == children@.len()
                        &&& forall|j: int|
                            0 <= j < children@.len() && j != i ==> grown@[j] == children@[j]
                        &&& grown@[i].0 == w[0]
                        &&& children@[i].1.grows_into(w.drop_first(), grown@[i].1)
                    } else {
                        &&& grown@.len() == children@.len() + 1
                        &&& grown@.subrange(0, children@.len() as int) =~= children@
                        &&& grown@.last().0 == w[0]
                        &&& Trie::Leaf.grows_into(w.drop_first(), grown@.last().1)
                    }
                },
            }
        }
    }

    /// A trie that holds the empty word and nothing else.
    pub fn new() -> (t: Self)
        ensures
            t == Trie::Leaf,
            t@ =~= set![Seq::<char>::empty()],
    {
        let t = Trie::Leaf;
        proof {
            assert forall|w: Seq<char>| t@.contains(w) <==> w == Seq::<char>::empty() by {
                if w.len() == 0 {
                    assert(w =~= Seq::<char>::empty());
                }
            }
        }
        t
    }

    /// Walks the word `s` into the trie.
    pub fn insert(&mut self, s: &str)
        ensures
            old(self).grows_into(s@, *final(self)),
            final(self)@ == old(self).words_after_insert(s@),
        decreases s@.len(),
    {
        let n = s.unicode_len();
        if n > 0 {
            let c = s.get_char(0);
            let rest = s.substring_char(1, n);
            match self {
                Trie::Leaf => {
                    let mut leaf = Trie::new();
                    leaf.insert(rest);
                    let mut children = Vec::new();
                    children.push((c, leaf));
                    *self = Trie::Node(children);
                },
                Trie::Node(children) => {
                    let i = position(children, c);
                    if i < children.len() {
                        children[i].1.insert(rest);
                    } else {
                        let mut t = Trie::new();
                        t.insert(rest);
                        children.push((c, t));
                    }
                },
            }
        }
        proof {
            assert forall|t: Seq<char>|
                self@.contains(t) <==> old(self).words_after_insert(s@).contains(t) by {
                lemma_insert_words(*old(self), s@, *self, t);
            }
        }
    }

    /// Whether the word `s` is in the trie.
    pub fn search(&self, s: &str) -> (found: bool)
        ensures
            found == self.spec_search(s@),
            found == self@.contains(s@),
        decreases s@.len(),
    {
        let n = s.unicode_len();
        if n > 0 {
            let c = s.get_char(0);
            let rest = s.substring_char(1, n);
            match self {
                Trie::Leaf => false,
                Trie::Node(children) => {
                    let i = position(children, c);
                    if i < children.len() {
                        children[i].1.search(rest)
                    } else {
                        false
                    }
                },
            }
        } else {
            match self {
                Trie::Leaf => true,
                Trie::Node(_) => false,
            }
        }
    }
}

/// Finds the first child labelled `c`.
fn position(children: &Vec<(char, Trie)>, c: char) -> (i: usize)
    ensures
        i == first_labelled(children@, c),
        i <= children@.len(),
        i < children@.len() ==> children@[i as int].0 == c,
        forall|j: int| 0 <= j < i ==> children@[j].0 != c,
{
    let mut i: usize = 0;
    assert(children@.subrange(0, children@.len() as int) =~= children@);
    while i < children.len()
        invariant
            i <= children@.len(),
            forall|j: int| 0 <= j < i ==> children@[j].0 != c,
            first_labelled(children@, c) == i + first_labelled(
                children@.subrange(i as int, children@.len() as int),
                c,
            ),
        decreases children@.len() - i,
    {
        let ghost tail = children@.subrange(i as int, children@.len() as int);
        assert(tail.drop_first() =~= children@.subrange(i + 1, children@.len() as int));
        if children[i].0 == c {
            return i;
        }
        i += 1;
    }
    i
}

/// `first_labelled` is a position in `children` or their number; where it
/// is a position, the child there is labelled `c`, and no child before it is.
pub proof fn lemma_first_labelled(children: Seq<(char, Trie)>, c: char)
    ensures
        0 <= first_labelled(children, c) <= children.len(),
        first_labelled(children, c) < children.len() ==> children[first_labelled(children, c)].0
            == c,
        forall|j: int| 0 <= j < first_labelled(children, c) ==> children[j].0 != c,
    decreases children.len(),
{
    if children.len() > 0 && children[0].0 != c {
        let rest = children.drop_first();
        lemma_first_labelled(rest, c);
        assert forall|j: int| 0 <= j < first_labelled(children, c) implies children[j].0 != c by {
            if j > 0 {
                assert(rest[j - 1] == children[j]);
            }
        }
    }
}

/// The first position at which `c` labels a child is `first_labelled`.
pub proof fn lemma_first_labelled_is(children: Seq<(char, Trie)>, c: char, i: int)
    requires
        0 <= i <= children.len(),
        i < children.len() ==> children[i].0 == c,
        forall|j: int| 0 <= j < i ==> children[j].0 != c,
    ensures
        first_labelled(children, c) == i,
{
    lemma_first_labelled(children, c);
}

/// What `insert` does to the words of a trie. Where the walk along `w` ends
/// on a `Node`, the words stay as they are, and `w` is not among them. In
/// every other case `w` becomes a word, the word that was a proper
/// beginning of `w` (there is at most one) stops being one, and all other
/// words stay.
pub proof fn lemma_insert_words(before: Trie, w: Seq<char>, after: Trie, t: Seq<char>)
    requires
        before.grows_into(w, after),
    ensures
        after.spec_search(t) <==> if before.reaches_node(w) {
            before.spec_search(t)
        } else {
            t == w || (before.spec_search(t) && !is_proper_prefix(t, w))
        },
    decreases w.len(),
{
    if w.len() > 0 {
        let c = w[0];
        let rest = w.drop_first();
        let grown = after->Node_0@;
        if t.len() > 0 {
            let tail = t.drop_first();
            assert(t == w <==> t[0] == c && tail == rest) by {
                if t[0] == c && tail == rest {
                    assert(tail.len() == t.len() - 1 && rest.len() == w.len() - 1);
                    assert forall|i: int| 0 <= i < t.len() implies t[i] == w[i] by {
                        if i > 0 {
                            assert(rest[i - 1] == w[i]);
                        }
                    }
                    assert(t =~= w);
                }
            }
            assert(t[0] == c ==> (is_proper_prefix(t, w) <==> is_proper_prefix(tail, rest))) by {
                if t[0] == c {
                    if is_proper_prefix(t, w) {
                        assert forall|i: int| 0 <= i < tail.len() implies rest[i] == tail[i] by {}
                        assert(rest.subrange(0, tail.len() as int) =~= tail);
                    }
                    if is_proper_prefix(tail, rest) {
                        let head = rest.subrange(0, tail.len() as int);
                        assert forall|i: int| 0 <= i < t.len() implies w[i] == t[i] by {
                            if i > 0 {
                                assert(head[i - 1] == tail[i - 1]);
                            }
                        }
                        assert(w.subrange(0, t.len() as int) =~= t);
                    }
                }
            }
            assert(t[0] != c ==> !is_proper_prefix(t, w));
            if tail.len() == 0 {
                assert(rest.subrange(0, 0) =~= tail);
                if rest.len() == 0 {
                    assert(tail =~= rest);
                }
            }
            lemma_first_labelled(grown, t[0]);
            match before {
                Trie::Leaf => {
                    lemma_insert_words(Trie::Leaf, rest, grown[0].1, tail);
                },
                Trie::Node(children) => {
                    let i = first_labelled(children@, c);
                    lemma_first_labelled(children@, c);
                    lemma_first_labelled(children@, t[0]);
                    let k = first_labelled(children@, t[0]);
                    if i < children@.len() {
                        lemma_first_labelled_is(grown, t[0], k);
                        if t[0] == c {
                            lemma_insert_words(children@[i].1, rest, grown[i].1, tail);
                        }
                    } else {
                        assert forall|j: int| 0 <= j < children@.len() implies grown[j]
                            == children@[j] by {}
                        if t[0] == c {
                            lemma_first_labelled_is(grown, t[0], children@.len() as int);
                            lemma_insert_words(Trie::Leaf, rest, grown.last().1, tail);
                        } else if k < children@.len() {
                            lemma_first_labelled_is(grown, t[0], k);
                        } else {
                            lemma_first_labelled_is(grown, t[0], grown.len() as int);
                        }
                    }
                },
            }
        } else {
            assert(is_proper_prefix(t, w)) by {
                assert(w.subrange(0, 0) =~= t);
            }
        }
    }
}

} // verus!
