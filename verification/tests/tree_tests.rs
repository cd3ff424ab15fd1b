use dagtree::tree::BTree;

#[test]
fn lib_test_construction() {
    let mut b: BTree<i32> = BTree::new(Some(5));
    b.insert(3);
    b.insert(7);
    b.insert(2);
    b.insert(4);
    b.insert(6);
    b.insert(8);
    assert_eq!(b.to_string(), "─5\n ├─3\n │ ├─2\n │ └─4\n └─7\n   ├─6\n   └─8\n");
    b.remove(8);
    assert_eq!(b.to_string(), "─5\n ├─3\n │ ├─2\n │ └─4\n └─7\n   └─6\n");
    b.remove(3);
    assert_eq!(b.to_string(), "─5\n ├─2\n │ └─4\n └─7\n   └─6\n");
}

#[test]
fn test_contains() {
    let mut b: BTree<i32> = BTree::new(Some(5));
    b.insert(3);
    b.insert(7);
    b.insert(2);
    b.insert(4);
    b.insert(6);
    b.insert(8);
    assert_eq!(b.contains(&3), true);
    assert_eq!(b.contains(&9), false);
}

#[test]
fn lib_test_lca() {
    let mut b: BTree<i32> = BTree::new(Some(5));
    b.insert(3);
    b.insert(7);
    b.insert(2);
    b.insert(4);
    b.insert(6);
    b.insert(8);
    assert_eq!(b.lca(&2, &7), Some(&5));
    assert_eq!(b.lca(&3, &4), Some(&3));
    assert_eq!(b.lca(&1, &5), None);
}

#[test]
fn empty_tree_renders_parentheses() {
    let b: BTree<i32> = BTree::new(None);
    assert_eq!(b.to_string(), "()");
    assert_eq!(b.contains(&1), false);
}

#[test]
fn insert_into_empty_tree() {
    let mut b: BTree<i32> = BTree::new(None);
    b.insert(42);
    assert!(b.contains(&42));
    assert_eq!(b.to_string(), "─42\n");
}

#[test]
fn duplicate_insert_is_ignored() {
    let mut b: BTree<i32> = BTree::new(Some(5));
    b.insert(5);
    assert_eq!(b.to_string(), "─5\n");
}

#[test]
fn remove_from_empty_and_missing() {
    let mut b: BTree<i32> = BTree::new(None);
    b.remove(1);
    assert_eq!(b.to_string(), "()");
    b.insert(2);
    b.remove(3);
    assert!(b.contains(&2));
}

#[test]
fn remove_sole_root() {
    let mut b: BTree<i32> = BTree::new(Some(9));
    b.remove(9);
    assert_eq!(b.to_string(), "()");
    assert_eq!(b.contains(&9), false);
}

#[test]
fn remove_root_with_two_children_splices() {
    let mut b: BTree<i32> = BTree::new(Some(5));
    b.insert(3);
    b.insert(7);
    b.remove(5);
    // the in-order neighbour from the left subtree takes the root's place
    assert_eq!(b.to_string(), "─3\n └─7\n");
    assert!(!b.contains(&5));
    assert!(b.contains(&3) && b.contains(&7));
}

#[test]
fn negative_numbers_render() {
    let mut b: BTree<i32> = BTree::new(Some(-12));
    b.insert(i32::MIN);
    assert_eq!(b.to_string(), "─-12\n └─-2147483648\n");
}

#[test]
fn lca_in_deeper_tree() {
    let mut b: BTree<i32> = BTree::new(Some(50));
    b.insert(30);
    b.insert(70);
    b.insert(20);
    b.insert(40);
    b.insert(35);
    b.insert(45);
    assert_eq!(b.lca(&35, &45), Some(&40));
    assert_eq!(b.lca(&20, &40), Some(&30));
    assert_eq!(b.lca(&40, &40), Some(&40));
}
