use dsrs::trie::Trie;

#[test]
fn trie_test_insert() {
    let mut trie = Trie::new();
    trie.insert("hello");
    trie.insert("world");

    assert!(trie.search("world"));
    assert!(trie.search("hello"));
    assert!(!trie.search("hell"));
    assert!(!trie.search("helto"));
}

#[test]
fn trie_new_holds_the_empty_word_only() {
    let trie = Trie::new();
    assert!(matches!(trie, Trie::Leaf));
    assert!(trie.search(""));
    assert!(!trie.search("a"));
}

#[test]
fn trie_first_insert_drops_the_empty_word() {
    let mut trie = Trie::new();
    trie.insert("a");
    assert!(trie.search("a"));
    assert!(!trie.search(""));
    assert!(!trie.search("ab"));
    assert!(!trie.search("b"));
}

#[test]
fn trie_insert_of_the_empty_word_changes_nothing() {
    let mut trie = Trie::new();
    trie.insert("");
    assert!(matches!(trie, Trie::Leaf));
    trie.insert("ab");
    trie.insert("");
    assert!(!trie.search(""));
    assert!(trie.search("ab"));
}

#[test]
fn trie_longer_word_replaces_its_beginning() {
    let mut trie = Trie::new();
    trie.insert("hell");
    assert!(trie.search("hell"));
    trie.insert("hello");
    assert!(trie.search("hello"));
    assert!(!trie.search("hell"));
}

#[test]
fn trie_beginning_of_a_word_is_not_added() {
    let mut trie = Trie::new();
    trie.insert("hello");
    trie.insert("hell");
    assert!(trie.search("hello"));
    assert!(!trie.search("hell"));
}

#[test]
fn trie_words_that_share_a_beginning() {
    let mut trie = Trie::new();
    for w in ["car", "cat", "cow", "dog"] {
        trie.insert(w);
    }
    for w in ["car", "cat", "cow", "dog"] {
        assert!(trie.search(w));
    }
    for w in ["", "c", "ca", "co", "cab", "cars", "do", "dot", "x"] {
        assert!(!trie.search(w));
    }
    trie.insert("cat");
    assert!(trie.search("cat"));
}

#[test]
fn trie_children_stand_in_the_order_they_were_added() {
    let mut trie = Trie::new();
    trie.insert("b");
    trie.insert("a");
    trie.insert("bc");
    match &trie {
        Trie::Node(children) => {
            assert_eq!(children.len(), 2);
            assert_eq!(children[0].0, 'b');
            assert_eq!(children[1].0, 'a');
            assert!(matches!(&children[1].1, Trie::Leaf));
            match &children[0].1 {
                Trie::Node(below) => {
                    assert_eq!(below.len(), 1);
                    assert_eq!(below[0].0, 'c');
                    assert!(matches!(&below[0].1, Trie::Leaf));
                }
                other => panic!("unexpected shape {:?}", other),
            }
        }
        other => panic!("unexpected shape {:?}", other),
    }
}

#[test]
fn trie_search_takes_the_first_child_with_the_label() {
    let trie = Trie::Node(vec![
        ('a', Trie::Node(vec![('x', Trie::Leaf)])),
        ('a', Trie::Node(vec![('y', Trie::Leaf)])),
    ]);
    assert!(trie.search("ax"));
    assert!(!trie.search("ay"));
}

#[test]
fn trie_node_without_children_is_a_dead_end() {
    let mut trie = Trie::Node(vec![]);
    assert!(!trie.search(""));
    trie.insert("");
    assert!(!trie.search(""));
    trie.insert("a");
    assert!(trie.search("a"));
}

#[test]
fn trie_words_are_walked_by_character() {
    let mut trie = Trie::new();
    trie.insert("añb");
    trie.insert("a€");
    assert!(trie.search("añb"));
    assert!(trie.search("a€"));
    assert!(!trie.search("añ"));
    assert!(!trie.search("a"));
}
