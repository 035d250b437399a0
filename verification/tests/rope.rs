use dsrs::rope::LEAF_LIMIT;
use dsrs::Rope;

fn leaves(r: &Rope, out: &mut Vec<String>) {
    match r {
        Rope::Sentinel => {}
        Rope::Leaf(s, w) => {
            assert_eq!(*w, s.chars().count());
            out.push(s.clone());
        }
        Rope::Node(l, w, r) => {
            assert_eq!(*w, l.len());
            leaves(l, out);
            leaves(r, out);
        }
    }
}

fn depth(r: &Rope) -> usize {
    match r {
        Rope::Node(l, _, r) => 1 + depth(l).max(depth(r)),
        _ => 0,
    }
}

#[test]
fn walk_through() {
    let r = Rope::new("Hello, world!");
    assert_eq!(r.collect(), "Hello, world!");
    let r = r.insert(3, " cruel");
    assert_eq!(r.collect(), "Hel cruello, world!");
    let r = r.delete(5, 11);
    assert_eq!(r.collect(), "Hel c, world!");
    assert_eq!(r.index(5), ',');
    let (l, r) = r.split(5);
    assert_eq!(l.collect(), "Hel c");
    assert_eq!(r.collect(), ", world!");
    let r = Rope::concat(l, r);
    assert_eq!(r.collect(), "Hel c, world!");
}

#[test]
fn new_then_collect_gives_the_text_back() {
    for s in ["", "a", "12345678", "123456789", "The quick brown fox jumps over the lazy dog"] {
        let r = Rope::new(s);
        assert_eq!(r.collect(), s);
        assert_eq!(r.len(), s.chars().count());
    }
}

#[test]
fn new_of_empty_text_is_an_empty_leaf() {
    let r = Rope::new("");
    assert!(matches!(&r, Rope::Leaf(s, 0) if s.is_empty()));
    assert_eq!(r.len(), 0);
    assert_eq!(r.collect(), "");
}

#[test]
fn short_text_is_one_leaf() {
    let r = Rope::new("12345678");
    assert!(matches!(&r, Rope::Leaf(s, 8) if s == "12345678"));
}

#[test]
fn long_text_is_cut_at_half_its_length() {
    let r = Rope::new("0123456789abcdefg");
    match r {
        Rope::Node(l, 8, r) => {
            assert!(matches!(&*l, Rope::Leaf(s, 8) if s == "01234567"));
            match *r {
                Rope::Node(rl, 4, rr) => {
                    assert!(matches!(&*rl, Rope::Leaf(s, 4) if s == "89ab"));
                    assert!(matches!(&*rr, Rope::Leaf(s, 5) if s == "cdefg"));
                }
                other => panic!("unexpected right side {:?}", other),
            }
        }
        other => panic!("unexpected shape {:?}", other),
    }
}

#[test]
fn nine_characters_are_cut_four_and_five() {
    let r = Rope::new("123456789");
    match r {
        Rope::Node(l, 4, r) => {
            assert!(matches!(&*l, Rope::Leaf(s, 4) if s == "1234"));
            assert!(matches!(&*r, Rope::Leaf(s, 5) if s == "56789"));
        }
        other => panic!("unexpected shape {:?}", other),
    }
}

#[test]
fn balance_keeps_the_text_and_shortens_the_leaves() {
    let text = "abcdefghijklmnopqrstuvwxyz0123456789ABCDEFGHIJKLMNOPQRSTUVWXYZ";
    let mut r = Rope::new("");
    for (i, c) in text.chars().enumerate() {
        r = r.insert(i, &c.to_string());
    }
    assert_eq!(r.collect(), text);
    assert!(depth(&r) > 20);
    let b = r.balance();
    assert_eq!(b.collect(), text);
    let mut ls = Vec::new();
    leaves(&b, &mut ls);
    assert!(ls.iter().all(|l| l.chars().count() <= LEAF_LIMIT));
    assert_eq!(ls.concat(), text);
    // 62 characters fit under 8 * 2^3 = 64.
    assert_eq!(depth(&b), 3);
}

#[test]
fn balance_of_the_empty_rope() {
    let b = Rope::Sentinel.balance();
    assert!(matches!(&b, Rope::Leaf(s, 0) if s.is_empty()));
}

#[test]
fn len_adds_up_over_concat() {
    let a = Rope::new("Hello, ");
    let b = Rope::new("wonderful world");
    let (la, lb) = (a.len(), b.len());
    let c = Rope::concat(a, b);
    assert_eq!(c.len(), la + lb);
    assert_eq!(c.len(), 22);
    assert_eq!(c.weight(), 7);
    assert_eq!(c.collect(), "Hello, wonderful world");
}

#[test]
fn concat_keeps_both_sides_as_they_are() {
    let c = Rope::concat(Rope::new("ab"), Rope::Sentinel);
    match c {
        Rope::Node(l, 2, r) => {
            assert!(matches!(&*l, Rope::Leaf(s, 2) if s == "ab"));
            assert!(matches!(&*r, Rope::Sentinel));
        }
        other => panic!("unexpected shape {:?}", other),
    }
}

#[test]
fn weight_is_the_stored_count() {
    assert_eq!(Rope::Sentinel.weight(), 0);
    assert_eq!(Rope::new("abc").weight(), 3);
    assert_eq!(Rope::new("0123456789").weight(), 5);
}

#[test]
fn split_then_concat_at_every_position() {
    let text = "The quick brown fox jumps over the lazy dog";
    let n = text.chars().count();
    for i in 0..=n {
        let (a, b) = Rope::new(text).split(i);
        assert_eq!(a.len(), i);
        assert_eq!(b.len(), n - i);
        assert_eq!(a.collect(), &text[..i]);
        assert_eq!(b.collect(), &text[i..]);
        assert_eq!(Rope::concat(a, b).collect(), text);
    }
}

#[test]
fn split_of_a_leaf_gives_two_leaves() {
    let (a, b) = Rope::new("abcdef").split(2);
    assert!(matches!(&a, Rope::Leaf(s, 2) if s == "ab"));
    assert!(matches!(&b, Rope::Leaf(s, 4) if s == "cdef"));
}

#[test]
fn split_of_a_branch_keeps_the_other_side() {
    // Node(Leaf("1234"), 4, Leaf("56789"))
    let (a, b) = Rope::new("123456789").split(2);
    assert!(matches!(&a, Rope::Leaf(s, 2) if s == "12"));
    match b {
        Rope::Node(l, 2, r) => {
            assert!(matches!(&*l, Rope::Leaf(s, 2) if s == "34"));
            assert!(matches!(&*r, Rope::Leaf(s, 5) if s == "56789"));
        }
        other => panic!("unexpected shape {:?}", other),
    }
    // A cut at the weight goes into the right side.
    let (a, b) = Rope::new("123456789").split(4);
    match a {
        Rope::Node(l, 4, r) => {
            assert!(matches!(&*l, Rope::Leaf(s, 4) if s == "1234"));
            assert!(matches!(&*r, Rope::Leaf(s, 0) if s.is_empty()));
        }
        other => panic!("unexpected shape {:?}", other),
    }
    assert!(matches!(&b, Rope::Leaf(s, 5) if s == "56789"));
}

#[test]
fn split_at_both_ends() {
    let (a, b) = Rope::new("abc").split(0);
    assert_eq!(a.collect(), "");
    assert_eq!(b.collect(), "abc");
    let (a, b) = Rope::new("abc").split(3);
    assert_eq!(a.collect(), "abc");
    assert_eq!(b.collect(), "");
}

#[test]
fn split_of_the_empty_rope_at_zero() {
    let (a, b) = Rope::Sentinel.split(0);
    assert!(matches!(a, Rope::Sentinel));
    assert!(matches!(b, Rope::Sentinel));
}

#[test]
fn index_reads_every_character() {
    let text = "The quick brown fox jumps over the lazy dog";
    let r = Rope::new(text);
    for (i, c) in text.chars().enumerate() {
        assert_eq!(r.index(i), c);
    }
    assert_eq!(r.index(r.len() - 1), 'g');
}

#[test]
fn index_after_edits() {
    let r = Rope::new("Hello, world!").insert(7, "big ").delete(0, 7);
    assert_eq!(r.collect(), "big world!");
    assert_eq!(r.index(0), 'b');
    assert_eq!(r.index(4), 'w');
    assert_eq!(r.index(9), '!');
}

#[test]
fn insert_splices_at_the_offset() {
    assert_eq!(Rope::new("abcdef").insert(0, "XY").collect(), "XYabcdef");
    assert_eq!(Rope::new("abcdef").insert(3, "XY").collect(), "abcXYdef");
    assert_eq!(Rope::new("abcdef").insert(6, "XY").collect(), "abcdefXY");
    assert_eq!(Rope::new("abcdef").insert(2, "").collect(), "abcdef");
    assert_eq!(Rope::Sentinel.insert(0, "abc").collect(), "abc");
}

#[test]
fn insert_adds_one_leaf_between_the_halves() {
    let r = Rope::new("abcd").insert(1, "XY");
    match r {
        Rope::Node(prefix, 1, rest) => {
            assert!(matches!(&*prefix, Rope::Leaf(s, 1) if s == "a"));
            match *rest {
                Rope::Node(leaf, 2, suffix) => {
                    assert!(matches!(&*leaf, Rope::Leaf(s, 2) if s == "XY"));
                    assert!(matches!(&*suffix, Rope::Leaf(s, 3) if s == "bcd"));
                }
                other => panic!("unexpected shape {:?}", other),
            }
        }
        other => panic!("unexpected shape {:?}", other),
    }
}

#[test]
fn delete_removes_the_half_open_range() {
    assert_eq!(Rope::new("abcdef").delete(0, 0).collect(), "abcdef");
    assert_eq!(Rope::new("abcdef").delete(0, 2).collect(), "cdef");
    assert_eq!(Rope::new("abcdef").delete(2, 4).collect(), "abef");
    assert_eq!(Rope::new("abcdef").delete(4, 6).collect(), "abcd");
    assert_eq!(Rope::new("abcdef").delete(0, 6).collect(), "");
    assert_eq!(Rope::new("abcdef").delete(3, 3).collect(), "abcdef");
}

#[test]
fn positions_count_characters_not_bytes() {
    let r = Rope::new("añb€c");
    assert_eq!(r.len(), 5);
    assert_eq!(r.index(1), 'ñ');
    assert_eq!(r.index(3), '€');
    let (a, b) = r.split(2);
    assert_eq!(a.collect(), "añ");
    assert_eq!(b.collect(), "b€c");
    let r = Rope::concat(a, b).insert(4, "ü").delete(0, 1);
    assert_eq!(r.collect(), "ñb€üc");
    assert_eq!(r.len(), 5);
}

#[test]
fn clone_is_an_equal_rope() {
    let r = Rope::new("Hello, world!").insert(5, " there");
    let c = r.clone();
    assert_eq!(c.collect(), r.collect());
    assert_eq!(c.len(), r.len());
    assert_eq!(format!("{:?}", c), format!("{:?}", r));
}
