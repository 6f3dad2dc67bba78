use data_structures::binary_search_tree::BinarySearchTree;

fn prequel_memes_tree() -> BinarySearchTree<&'static str> {
    let mut tree = BinarySearchTree::new();
    tree.insert("hello there");
    tree.insert("general kenobi");
    tree.insert("you are a bold one");
    tree.insert("kill him");
    tree.insert("back away...I will deal with this jedi slime myself");
    tree.insert("your move");
    tree.insert("you fool");
    tree
}

#[test]
fn test_search() {
    let tree = prequel_memes_tree();
    assert!(tree.search(&"hello there"));
    assert!(tree.search(&"you are a bold one"));
    assert!(tree.search(&"general kenobi"));
    assert!(tree.search(&"you fool"));
    assert!(tree.search(&"kill him"));
    assert!(!tree.search(&"but i was going to tosche station to pick up some power converters"));
    assert!(!tree.search(&"only a sith deals in absolutes"));
    assert!(!tree.search(&"you underestimate my power"));
}

#[test]
fn test_maximum_and_minimum() {
    assert_eq!(BinarySearchTree::<i32>::new().maximum(), None);
    let tree = prequel_memes_tree();
    assert_eq!(*tree.maximum().unwrap(), "your move");
    assert_eq!(
        *tree.minimum().unwrap(),
        "back away...I will deal with this jedi slime myself"
    );
    let mut tree2: BinarySearchTree<i32> = BinarySearchTree::new();
    assert!(tree2.maximum().is_none());
    assert!(tree2.minimum().is_none());
    tree2.insert(0);
    assert_eq!(*tree2.minimum().unwrap(), 0);
    assert_eq!(*tree2.maximum().unwrap(), 0);
    tree2.insert(-5);
    assert_eq!(*tree2.minimum().unwrap(), -5);
    assert_eq!(*tree2.maximum().unwrap(), 0);
    tree2.insert(5);
    assert_eq!(*tree2.minimum().unwrap(), -5);
    assert_eq!(*tree2.maximum().unwrap(), 5);
}

#[test]
fn test_floor_and_ceil() {
    let tree = prequel_memes_tree();
    assert_eq!(*tree.floor(&"hello there").unwrap(), "hello there");
    assert_eq!(
        *tree
            .floor(&"these are not the droids you're looking for")
            .unwrap(),
        "kill him"
    );
    assert!(tree.floor(&"another death star").is_none());
    assert_eq!(*tree.floor(&"you fool").unwrap(), "you fool");
    assert_eq!(
        *tree.floor(&"but i was going to tasche station").unwrap(),
        "back away...I will deal with this jedi slime myself"
    );
    assert_eq!(
        *tree.floor(&"you underestimate my power").unwrap(),
        "you fool"
    );
    assert_eq!(*tree.floor(&"your new empire").unwrap(), "your move");
    assert_eq!(*tree.ceil(&"hello there").unwrap(), "hello there");
    assert_eq!(
        *tree
            .ceil(&"these are not the droids you're looking for")
            .unwrap(),
        "you are a bold one"
    );
    assert_eq!(
        *tree.ceil(&"another death star").unwrap(),
        "back away...I will deal with this jedi slime myself"
    );
    assert_eq!(*tree.ceil(&"you fool").unwrap(), "you fool");
    assert_eq!(
        *tree.ceil(&"but i was going to tasche station").unwrap(),
        "general kenobi"
    );
    assert_eq!(
        *tree.ceil(&"you underestimate my power").unwrap(),
        "your move"
    );
    assert!(tree.ceil(&"your new empire").is_none());
}

#[test]
fn test_iterator() {
    let tree = prequel_memes_tree();
    let mut iter = tree.iter();
    assert_eq!(
        iter.next().unwrap(),
        "back away...I will deal with this jedi slime myself"
    );
    assert_eq!(iter.next().unwrap(), "general kenobi");
    assert_eq!(iter.next().unwrap(), "hello there");
    assert_eq!(iter.next().unwrap(), "kill him");
    assert_eq!(iter.next().unwrap(), "you are a bold one");
    assert_eq!(iter.next().unwrap(), "you fool");
    assert_eq!(iter.next().unwrap(), "your move");
    assert_eq!(iter.next(), None);
    assert_eq!(iter.next(), None);
}

#[test]
fn test_delete() {
    let mut tree = prequel_memes_tree();
    tree.delete(&"hello there");
    assert_eq!(tree.search(&"hello there"), false);
    assert_eq!(tree.search(&"general kenobi"), true);
    assert_eq!(tree.search(&"you are a bold one"), true);
    assert_eq!(tree.search(&"kill him"), true);
    assert_eq!(
        tree.search(&"back away...I will deal with this jedi slime myself"),
        true
    );
    tree.delete(&"general kenobi");
    assert_eq!(tree.search(&"hello there"), false);
    assert_eq!(tree.search(&"general kenobi"), false);
}

#[test]
fn test_inorder_succesor() {
    let tree = prequel_memes_tree();
    assert_eq!(tree.inorder_successor(&"hello there"), Some(&"kill him"));
    assert_eq!(
        tree.inorder_successor(&"general kenobi"),
        Some(&"hello there")
    );
    assert_eq!(
        tree.inorder_successor(&"you are a bold one"),
        Some(&"you fool")
    );
    assert_eq!(
        tree.inorder_successor(&"kill him"),
        Some(&"you are a bold one")
    );
    assert_eq!(
        tree.inorder_successor(&"back away...I will deal with this jedi slime myself"),
        Some(&"general kenobi")
    );
    assert_eq!(tree.inorder_successor(&"your move"), None);
    assert_eq!(tree.inorder_successor(&"you fool"), Some(&"your move"));
}

#[test]
fn test_inorder_predecessor() {
    let tree = prequel_memes_tree();
    assert_eq!(
        tree.inorder_predecessor(&"hello there"),
        Some(&"general kenobi")
    );
    assert_eq!(
        tree.inorder_predecessor(&"general kenobi"),
        Some(&"back away...I will deal with this jedi slime myself")
    );
    assert_eq!(tree.inorder_predecessor(&"you are a bold one"), Some(&"kill him"));
}

#[test]
fn test_insert_node() {
    let mut tree2: BinarySearchTree<i32> = BinarySearchTree::new();
    tree2.insert_node(&1);
    assert_eq!(tree2.search(&1), true);
    tree2.insert_node(&2);
    assert_eq!(tree2.search(&2), true);
    tree2.insert_node(&3);
    tree2.insert_node(&4);
    tree2.insert_node(&5);
    assert_eq!(tree2.search(&5), true);
}

#[test]
fn test_lookups_on_empty_tree() {
    let tree: BinarySearchTree<i32> = BinarySearchTree::new();
    assert!(!tree.search(&7));
    assert!(tree.minimum().is_none());
    assert!(tree.maximum().is_none());
    assert!(tree.floor(&7).is_none());
    assert!(tree.ceil(&7).is_none());
    assert!(tree.inorder_successor(&7).is_none());
    assert!(tree.inorder_predecessor(&7).is_none());
    let mut tree2: BinarySearchTree<i32> = BinarySearchTree::new();
    tree2.delete(&7);
    assert!(!tree2.search(&7));
}

#[test]
fn test_iterator_matches_reference_sort() {
    let values = [31, 4, 15, 9, 26, 5, 3, 58, 97, 93];
    let mut tree = BinarySearchTree::new();
    for v in values {
        tree.insert(v);
    }
    let mut sorted = values.to_vec();
    sorted.sort();
    let mut iter = tree.iter();
    for expected in sorted {
        assert_eq!(iter.next(), Some(expected));
    }
    assert_eq!(iter.next(), None);
}

#[test]
fn test_duplicate_insert_needs_two_deletes() {
    let mut tree = BinarySearchTree::new();
    tree.insert(8);
    tree.insert(8);
    tree.insert(3);
    assert!(tree.search(&8));
    let mut iter = tree.iter();
    assert_eq!(iter.next(), Some(3));
    assert_eq!(iter.next(), Some(8));
    assert_eq!(iter.next(), Some(8));
    assert_eq!(iter.next(), None);
    tree.delete(&8);
    assert!(tree.search(&8));
    tree.delete(&8);
    assert!(!tree.search(&8));
    assert!(tree.search(&3));
}

#[test]
fn test_insert_node_skips_duplicates() {
    let mut tree = BinarySearchTree::new();
    tree.insert_node(&8);
    tree.insert_node(&3);
    tree.insert_node(&8);
    let mut iter = tree.iter();
    assert_eq!(iter.next(), Some(3));
    assert_eq!(iter.next(), Some(8));
    assert_eq!(iter.next(), None);
}

#[test]
fn test_floor_ceil_bracket_present_value() {
    let mut tree = BinarySearchTree::new();
    for v in [10, 20, 30] {
        tree.insert(v);
    }
    assert_eq!(tree.floor(&20), Some(&20));
    assert_eq!(tree.ceil(&20), Some(&20));
    let f = *tree.floor(&25).unwrap();
    let c = *tree.ceil(&25).unwrap();
    assert!(f <= 25 && 25 <= c);
    assert_eq!(f, 20);
    assert_eq!(c, 30);
}

#[test]
fn test_delete_root_with_two_children() {
    let mut tree = BinarySearchTree::new();
    for v in [50, 30, 70, 60, 80] {
        tree.insert(v);
    }
    tree.delete(&50);
    assert!(!tree.search(&50));
    for v in [30, 70, 60, 80] {
        assert!(tree.search(&v));
    }
    let mut iter = tree.iter();
    for expected in [30, 60, 70, 80] {
        assert_eq!(iter.next(), Some(expected));
    }
    assert_eq!(iter.next(), None);
}

#[test]
fn test_delete_node_behaves_like_delete() {
    let mut tree = BinarySearchTree::new();
    for v in [5, 1, 9] {
        tree.insert(v);
    }
    tree.delete_node(&1);
    assert!(!tree.search(&1));
    assert!(tree.search(&5));
    assert!(tree.search(&9));
    tree.delete_node(&42);
    assert!(tree.search(&5));
}

#[test]
fn test_clone_preserves_tree() {
    let tree = prequel_memes_tree();
    let copy = tree.clone();
    assert!(copy.search(&"hello there"));
    assert!(copy.search(&"your move"));
    assert!(!copy.search(&"only a sith deals in absolutes"));
    assert_eq!(*copy.minimum().unwrap(), *tree.minimum().unwrap());
    assert_eq!(*copy.maximum().unwrap(), *tree.maximum().unwrap());
}
