use dsrs::{BinaryTree, Traversal};

#[test]
fn bst_test_insert() {
    let mut bst: BinaryTree<u32, u32> = BinaryTree::new();
    bst = bst.insert(3, 5);
    bst = bst.insert(10, 1);
    assert_eq!(bst.find(&3), Some(5));
    assert_eq!(bst.find(&4), None);
}

#[test]
fn bst_test_delete() {
    let mut bst: BinaryTree<u32, u32> = BinaryTree::new();
    bst = bst.insert(3, 5);
    bst = bst.insert(10, 1);
    bst = bst.delete(&3);
    bst = bst.insert(5, 8);
    bst = bst.insert(5, 15);
    bst = bst.insert(25, 2);
    assert_eq!(bst.find(&3), None);
    assert_eq!(bst.find(&5), Some(15));
    assert_eq!(bst.find(&25), Some(2));
}

#[test]
fn bst_test_traverse() {
    let mut bst: BinaryTree<u32, u32> = BinaryTree::new();
    bst = bst.insert(3, 5);
    bst = bst.insert(10, 1);
    bst = bst.delete(&3);
    bst = bst.insert(5, 8);
    bst = bst.insert(5, 15);
    bst = bst.insert(25, 2);
    assert_eq!(bst.traverse(&Traversal::Inorder), vec![15, 1, 2]);
    assert_eq!(bst.traverse(&Traversal::Preorder), vec![1, 15, 2]);
    assert_eq!(bst.traverse(&Traversal::Postorder), vec![15, 2, 1]);
}

fn sample() -> BinaryTree<u32, &'static str> {
    //        50
    //      /    \
    //    30      70
    //   /  \    /  \
    // 20   40  60   80
    let mut t = BinaryTree::new();
    for (k, v) in [
        (50, "fifty"),
        (30, "thirty"),
        (70, "seventy"),
        (20, "twenty"),
        (40, "forty"),
        (60, "sixty"),
        (80, "eighty"),
    ] {
        t = t.insert(k, v);
    }
    t
}

#[test]
fn bst_new_is_empty() {
    let t: BinaryTree<u32, u32> = BinaryTree::new();
    assert!(matches!(t, BinaryTree::Leaf));
    assert_eq!(t.find(&1), None);
    assert_eq!(t.traverse(&Traversal::Inorder), Vec::<u32>::new());
}

#[test]
fn bst_insert_builds_the_expected_shape() {
    let t = sample();
    match &t {
        BinaryTree::Node(l, (50, "fifty"), r) => {
            assert!(matches!(&**l, BinaryTree::Node(_, (30, "thirty"), _)));
            assert!(matches!(&**r, BinaryTree::Node(_, (70, "seventy"), _)));
        }
        other => panic!("unexpected shape {:?}", other),
    }
}

#[test]
fn bst_find_after_insert() {
    let t = sample();
    for (k, v) in [(20, "twenty"), (30, "thirty"), (40, "forty"), (50, "fifty"), (80, "eighty")] {
        assert_eq!(t.find(&k), Some(v));
    }
    assert_eq!(t.find(&10), None);
    assert_eq!(t.find(&55), None);
    assert_eq!(t.find(&90), None);
    let t = t.insert(40, "FORTY");
    assert_eq!(t.find(&40), Some("FORTY"));
    assert_eq!(t.find(&30), Some("thirty"));
    assert_eq!(t.traverse(&Traversal::Inorder).len(), 7);
}

#[test]
fn bst_traversal_orders() {
    let t = sample();
    assert_eq!(
        t.traverse(&Traversal::Inorder),
        vec!["twenty", "thirty", "forty", "fifty", "sixty", "seventy", "eighty"]
    );
    assert_eq!(
        t.traverse(&Traversal::Preorder),
        vec!["fifty", "thirty", "twenty", "forty", "seventy", "sixty", "eighty"]
    );
    assert_eq!(
        t.traverse(&Traversal::Postorder),
        vec!["twenty", "forty", "thirty", "sixty", "eighty", "seventy", "fifty"]
    );
}

#[test]
fn bst_delete_of_a_leaf_node_at_the_root() {
    let t: BinaryTree<u32, u32> = BinaryTree::new().insert(1, 10);
    let t = t.delete(&1);
    assert!(matches!(t, BinaryTree::Leaf));
}

#[test]
fn bst_delete_on_the_empty_tree() {
    let t: BinaryTree<u32, u32> = BinaryTree::new();
    assert!(matches!(t.delete(&1), BinaryTree::Leaf));
}

#[test]
fn bst_delete_at_the_root_keeps_the_left_child_and_its_right_side() {
    // The left child takes the root's place with nothing to its left and
    // its own right subtree; the root's right side is gone.
    let t = sample().delete(&50);
    assert_eq!(t.traverse(&Traversal::Preorder), vec!["thirty", "forty"]);
    assert_eq!(t.find(&50), None);
    assert_eq!(t.find(&30), Some("thirty"));
    assert_eq!(t.find(&40), Some("forty"));
    assert_eq!(t.find(&20), None);
    assert_eq!(t.find(&70), None);
}

#[test]
fn bst_delete_below_the_root_keeps_only_what_the_walk_goes_into() {
    // The walk for 60 goes right at 50 and left at 70; 60 has no children.
    let t = sample().delete(&60);
    assert!(matches!(t, BinaryTree::Leaf));
    // The walk for 70 goes right at 50; at 70 the left child 60 takes over.
    let t = sample().delete(&70);
    assert_eq!(t.traverse(&Traversal::Inorder), vec!["sixty"]);
}

#[test]
fn bst_delete_of_a_missing_key() {
    let t = sample().delete(&65);
    assert!(matches!(t, BinaryTree::Leaf));
}

#[test]
fn bst_delete_with_only_a_right_child() {
    let t: BinaryTree<u32, u32> = BinaryTree::new().insert(1, 10).insert(2, 20).insert(3, 30);
    // The right child takes the root's place and keeps its left side; the
    // walk for 1 goes on below it and drops what it passes by.
    let t = t.delete(&1);
    assert_eq!(t.traverse(&Traversal::Preorder), vec![20]);
    assert_eq!(t.find(&1), None);
    assert_eq!(t.find(&2), Some(20));
    assert_eq!(t.find(&3), None);
}

#[test]
fn bst_clone_has_the_same_entries() {
    let t = sample();
    let c = t.clone();
    assert_eq!(c.traverse(&Traversal::Preorder), t.traverse(&Traversal::Preorder));
    assert_eq!(format!("{:?}", c), format!("{:?}", t));
}
