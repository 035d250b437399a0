use dsrs::rbt::{Color, Traversal};
use dsrs::RedBlackTree;

fn node(
    l: RedBlackTree<u32, u32>,
    k: u32,
    v: u32,
    c: Color,
    r: RedBlackTree<u32, u32>,
) -> RedBlackTree<u32, u32> {
    RedBlackTree::Node(Box::new(l), (k, v, c), Box::new(r))
}

fn sample() -> RedBlackTree<u32, u32> {
    //      10b
    //     /   \
    //    5r    25r
    node(
        node(RedBlackTree::Leaf, 5, 15, Color::Red, RedBlackTree::Leaf),
        10,
        1,
        Color::Black,
        node(RedBlackTree::Leaf, 25, 2, Color::Red, RedBlackTree::Leaf),
    )
}

#[test]
fn rbt_new_is_a_black_leaf() {
    let t: RedBlackTree<u32, u32> = RedBlackTree::new();
    assert!(matches!(t, RedBlackTree::Leaf));
    assert!(matches!(t.color(), Color::Black));
    assert_eq!(t.height(), 0);
    assert_eq!(t.find(&1), None);
    assert_eq!(t.traverse(&Traversal::Inorder), Vec::<u32>::new());
}

#[test]
fn rbt_color_is_the_colour_of_the_root() {
    let t = sample();
    assert!(matches!(t.color(), Color::Black));
    let red = node(RedBlackTree::Leaf, 1, 1, Color::Red, RedBlackTree::Leaf);
    assert!(matches!(red.color(), Color::Red));
}

#[test]
fn rbt_height_is_zero() {
    assert_eq!(sample().height(), 0);
    let deep = node(sample(), 30, 3, Color::Black, RedBlackTree::Leaf);
    assert_eq!(deep.height(), 0);
}

#[test]
fn rbt_find_walks_by_key() {
    let t = sample();
    assert_eq!(t.find(&3), None);
    assert_eq!(t.find(&5), Some(15));
    assert_eq!(t.find(&10), Some(1));
    assert_eq!(t.find(&25), Some(2));
    assert_eq!(t.find(&26), None);
}

#[test]
fn rbt_traversal_orders() {
    let t = sample();
    assert_eq!(t.traverse(&Traversal::Inorder), vec![15, 1, 2]);
    assert_eq!(t.traverse(&Traversal::Preorder), vec![1, 15, 2]);
    assert_eq!(t.traverse(&Traversal::Postorder), vec![15, 2, 1]);
}

#[test]
fn rbt_clone_keeps_shape_and_colours() {
    let t = sample();
    let c = t.clone();
    assert_eq!(format!("{:?}", c), format!("{:?}", t));
}

#[test]
fn rbt_test_insert() {
    let mut bst: RedBlackTree<u32, u32> = RedBlackTree::new();
    bst = bst.insert(3, 5);
    bst = bst.insert(10, 1);
    assert_eq!(bst.find(&3), Some(5));
    assert_eq!(bst.find(&4), None);
}

#[test]
fn rbt_test_delete() {
    let mut bst: RedBlackTree<u32, u32> = RedBlackTree::new();
    bst = bst.insert(3, 5);
    bst = bst.insert(10, 1);
    bst = bst.delete(&3);
    bst = bst.insert(5, 8);
    bst = bst.insert(5, 15);
    bst = bst.insert(25, 2);
    assert_eq!(bst.find(&3), None);
    assert_eq!(bst.find(&5), Some(15));
    assert_eq!(bst.find(&25), Some(2));
}

#[test]
fn rbt_test_traverse() {
    let mut bst: RedBlackTree<u32, u32> = RedBlackTree::new();
    bst = bst.insert(3, 5);
    bst = bst.insert(10, 1);
    bst = bst.delete(&3);
    bst = bst.insert(5, 8);
    bst = bst.insert(5, 15);
    bst = bst.insert(25, 2);
    assert_eq!(bst.traverse(&Traversal::Inorder), vec![15, 1, 2]);
    assert_eq!(bst.traverse(&Traversal::Preorder), vec![1, 15, 2]);
    assert_eq!(bst.traverse(&Traversal::Postorder), vec![15, 2, 1]);
}

/// The number of black nodes on every way down, if it is the same on all
/// of them and no red node has a red child.
fn black_height(t: &RedBlackTree<u32, u32>) -> Option<usize> {
    match t {
        RedBlackTree::Leaf => Some(0),
        RedBlackTree::Node(l, (_, _, c), r) => {
            let (lh, rh) = (black_height(l)?, black_height(r)?);
            if lh != rh {
                return None;
            }
            match c {
                Color::Black => Some(lh + 1),
                Color::Red => {
                    if matches!(l.color(), Color::Red) || matches!(r.color(), Color::Red) {
                        None
                    } else {
                        Some(lh)
                    }
                }
            }
        }
    }
}

fn keys(t: &RedBlackTree<u32, u32>, out: &mut Vec<u32>) {
    if let RedBlackTree::Node(l, (k, _, _), r) = t {
        keys(l, out);
        out.push(*k);
        keys(r, out);
    }
}

fn depth(t: &RedBlackTree<u32, u32>) -> usize {
    match t {
        RedBlackTree::Leaf => 0,
        RedBlackTree::Node(l, _, r) => 1 + depth(l).max(depth(r)),
    }
}

fn check(t: &RedBlackTree<u32, u32>, expected: &std::collections::BTreeMap<u32, u32>) {
    assert!(black_height(t).is_some());
    assert!(matches!(t.color(), Color::Black));
    let mut ks = Vec::new();
    keys(t, &mut ks);
    assert_eq!(ks, expected.keys().copied().collect::<Vec<_>>());
    assert_eq!(
        t.traverse(&Traversal::Inorder),
        expected.values().copied().collect::<Vec<_>>()
    );
}

#[test]
fn rbt_insert_keeps_the_tree_red_black_and_ordered() {
    let mut t: RedBlackTree<u32, u32> = RedBlackTree::new();
    let mut m = std::collections::BTreeMap::new();
    for i in 0..200u32 {
        let k = (i * 37) % 101;
        t = t.insert(k, i);
        m.insert(k, i);
        check(&t, &m);
    }
    for k in 0..120u32 {
        assert_eq!(t.find(&k), m.get(&k).copied());
    }
}

#[test]
fn rbt_insert_in_rising_order_stays_shallow() {
    let mut t: RedBlackTree<u32, u32> = RedBlackTree::new();
    for k in 0..1000u32 {
        t = t.insert(k, k);
    }
    assert!(black_height(&t).is_some());
    // At most twice the logarithm of the number of entries plus one.
    assert!(depth(&t) <= 20);
}

#[test]
fn rbt_insert_replaces_the_value_of_an_equal_key() {
    let t: RedBlackTree<u32, u32> = RedBlackTree::new().insert(1, 10).insert(2, 20).insert(1, 11);
    assert_eq!(t.find(&1), Some(11));
    assert_eq!(t.find(&2), Some(20));
    assert_eq!(t.traverse(&Traversal::Inorder), vec![11, 20]);
}

#[test]
fn rbt_delete_keeps_the_tree_red_black_and_ordered() {
    let mut t: RedBlackTree<u32, u32> = RedBlackTree::new();
    let mut m = std::collections::BTreeMap::new();
    for i in 0..150u32 {
        let k = (i * 53) % 151;
        t = t.insert(k, i);
        m.insert(k, i);
    }
    check(&t, &m);
    for i in 0..300u32 {
        let k = (i * 29) % 157;
        t = t.delete(&k);
        m.remove(&k);
        check(&t, &m);
        assert_eq!(t.find(&k), None);
    }
    assert!(matches!(t, RedBlackTree::Leaf));
}

#[test]
fn rbt_delete_of_a_missing_key_changes_no_entry() {
    let t: RedBlackTree<u32, u32> = RedBlackTree::new().insert(1, 10).insert(2, 20).insert(3, 30);
    let t = t.delete(&7);
    assert_eq!(t.traverse(&Traversal::Inorder), vec![10, 20, 30]);
    let e: RedBlackTree<u32, u32> = RedBlackTree::new().delete(&1);
    assert!(matches!(e, RedBlackTree::Leaf));
}

#[test]
fn rbt_insert_then_delete_in_turn() {
    let mut t: RedBlackTree<u32, u32> = RedBlackTree::new();
    let mut m = std::collections::BTreeMap::new();
    let mut x: u32 = 12345;
    for _ in 0..2000 {
        x = x.wrapping_mul(1103515245).wrapping_add(12345);
        let k = (x >> 16) % 64;
        if (x >> 8) % 3 == 0 {
            t = t.delete(&k);
            m.remove(&k);
        } else {
            t = t.insert(k, x);
            m.insert(k, x);
        }
        check(&t, &m);
    }
}

#[test]
fn rbt_balance_mends_a_red_child_with_a_red_child() {
    //       30b                20r
    //      /   \              /   \
    //    20r    40b   ->    10b    30b
    //   /                            \
    // 10r                             40b
    let t = node(
        node(
            node(RedBlackTree::Leaf, 10, 1, Color::Red, RedBlackTree::Leaf),
            20,
            2,
            Color::Red,
            RedBlackTree::Leaf,
        ),
        30,
        3,
        Color::Black,
        node(RedBlackTree::Leaf, 40, 4, Color::Black, RedBlackTree::Leaf),
    );
    let b = t.balance();
    assert_eq!(b.traverse(&Traversal::Preorder), vec![2, 1, 3, 4]);
    assert_eq!(b.traverse(&Traversal::Inorder), vec![1, 2, 3, 4]);
    assert!(matches!(b.color(), Color::Red));
    match &b {
        RedBlackTree::Node(l, _, r) => {
            assert!(matches!(l.color(), Color::Black));
            assert!(matches!(r.color(), Color::Black));
        }
        other => panic!("unexpected shape {:?}", other),
    }
}

#[test]
fn rbt_balance_leaves_a_sound_tree_alone() {
    let b = sample().balance();
    // Two red children under a black root change colours with it.
    assert_eq!(b.traverse(&Traversal::Preorder), vec![1, 15, 2]);
    assert!(matches!(b.color(), Color::Red));
    let red = node(RedBlackTree::Leaf, 1, 1, Color::Red, RedBlackTree::Leaf).balance();
    assert_eq!(format!("{:?}", red), "Node(Leaf, (1, 1, Red), Leaf)");
    let plain = node(RedBlackTree::Leaf, 1, 1, Color::Black, RedBlackTree::Leaf).balance();
    assert_eq!(format!("{:?}", plain), "Node(Leaf, (1, 1, Black), Leaf)");
}
