use rusty_database::bplus_tree::BPlusTree;

#[test]
fn test_insert_and_search() {
    let mut tree = BPlusTree::new(3);

    assert!(tree.insert(10).is_ok());
    assert!(tree.insert(20).is_ok());
    assert!(tree.insert(5).is_ok());
    assert!(tree.insert(15).is_ok());

    assert!(tree.search(10));
    assert!(tree.search(20));
    assert!(!tree.search(100));

    assert!(tree.insert(10).is_err());
}

#[test]
fn test_search_sorted() {
    let mut tree = BPlusTree::new(3);

    tree.insert(10).unwrap();
    tree.insert(30).unwrap();
    tree.insert(20).unwrap();

    let sorted_keys = tree.search_sorted();
    assert_eq!(sorted_keys, vec![10, 20, 30]);
}

#[test]
fn test_insert_negative_key() {
    let mut tree = BPlusTree::new(3);
    assert!(tree.insert(-1).is_err());
}

#[test]
fn new_tree_is_empty() {
    let tree = BPlusTree::new(2);
    assert!(tree.search_sorted().is_empty());
    assert!(!tree.search(0));
}

#[test]
fn refused_insertions_carry_their_messages() {
    let mut tree = BPlusTree::new(3);
    assert_eq!(tree.insert(-5), Err("插入的关键字不能为负数".to_string()));
    assert_eq!(tree.insert(7), Ok(()));
    assert_eq!(tree.insert(7), Err("主键 '7' 已存在".to_string()));
    assert_eq!(tree.search_sorted(), vec![7]);
}

#[test]
fn zero_is_a_valid_key() {
    let mut tree = BPlusTree::new(2);
    assert_eq!(tree.insert(0), Ok(()));
    assert!(tree.search(0));
}

#[test]
fn inserted_key_is_found_and_others_unchanged() {
    let mut tree = BPlusTree::new(2);
    for k in [4, 8, 15, 16, 23, 42] {
        tree.insert(k).unwrap();
    }
    assert!(!tree.search(9));
    tree.insert(9).unwrap();
    assert!(tree.search(9));
    for k in [4, 8, 15, 16, 23, 42] {
        assert!(tree.search(k));
    }
    assert!(!tree.search(10));
}

#[test]
fn insertion_order_does_not_change_the_keys() {
    let mut a = BPlusTree::new(2);
    let mut b = BPlusTree::new(2);
    a.insert(3).unwrap();
    a.insert(1).unwrap();
    b.insert(1).unwrap();
    b.insert(3).unwrap();
    assert_eq!(a.search_sorted(), b.search_sorted());
}

#[test]
fn many_keys_split_nodes_and_stay_sorted() {
    let mut tree = BPlusTree::new(2);
    let mut expected = Vec::new();
    let mut k: i32 = 0;
    for i in 0..200 {
        k = (k + 37) % 1000;
        if tree.insert(k).is_ok() {
            expected.push(k);
        }
        assert!(tree.search(k), "key {} after insertion {}", k, i);
    }
    expected.sort();
    assert_eq!(tree.search_sorted(), expected);
    for key in &expected {
        assert!(tree.search(*key));
    }
    assert!(!tree.search(1001));
}

#[test]
fn print_tree_lists_levels() {
    let mut tree = BPlusTree::new(2);
    assert_eq!(tree.print_tree(), "Level 0: []\n");
    tree.insert(1).unwrap();
    tree.insert(2).unwrap();
    tree.insert(3).unwrap();
    assert_eq!(tree.print_tree(), "Level 0: [1, 2, 3]\n");
    tree.insert(4).unwrap();
    assert_eq!(tree.print_tree(), "Level 0: [2]\nLevel 1: [1]\nLevel 1: [3, 4]\n");
}

#[test]
fn print_tree_after_six_inserts() {
    let mut tree = BPlusTree::new(3);
    for k in 1..=6 {
        assert_eq!(tree.insert(k), Ok(()));
    }
    assert_eq!(tree.print_tree(), "Level 0: [3]\nLevel 1: [1, 2]\nLevel 1: [4, 5, 6]\n");
    assert_eq!(tree.print_tree(), "Level 0: [3]\nLevel 1: [1, 2]\nLevel 1: [4, 5, 6]\n");
}
