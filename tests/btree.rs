use btree_study::error::DeleteError;
use btree_study::node::Node;
use btree_study::tree::BTree;

fn collect<const D: usize>(tree: &BTree<D>) -> Vec<i64> {
    let mut it = tree.iter();
    let mut out = Vec::new();
    while let Some(k) = it.next() {
        out.push(k);
    }
    out
}

/// Checks sortedness, search order and occupancy of the subtree under
/// `node`, and returns its height.
fn check_node<const D: usize>(node: &Node<D>, is_root: bool, lo: Option<i64>, hi: Option<i64>) -> usize {
    let keys = node.keys();
    let children = node.children();
    assert!(keys.len() <= 2 * D - 1, "too many keys: {:?}", keys);
    if !is_root {
        assert!(keys.len() >= D - 1, "too few keys: {:?}", keys);
    }
    for w in keys.windows(2) {
        assert!(w[0] < w[1], "keys out of order: {:?}", keys);
    }
    for k in keys.iter() {
        assert!(lo.map_or(true, |l| l < *k) && hi.map_or(true, |h| *k < h));
    }
    if children.is_empty() {
        return 0;
    }
    assert_eq!(children.len(), keys.len() + 1);
    let mut height = None;
    for (i, c) in children.iter().enumerate() {
        let clo = if i == 0 { lo } else { Some(keys[i - 1]) };
        let chi = if i == keys.len() { hi } else { Some(keys[i]) };
        let h = check_node(c, false, clo, chi);
        if let Some(prev) = height {
            assert_eq!(prev, h, "leaves at different depths");
        }
        height = Some(h);
    }
    height.unwrap() + 1
}

fn check_invariants<const D: usize>(tree: &BTree<D>) {
    check_node(tree.root(), true, None, None);
}

#[test]
fn test_simple_insert() {
    let mut btree = BTree::<2>::new();
    println!("{:#?}", btree);
    for i in 1..=9 {
        btree.insert(i);
    }
    println!("{:#?}", btree);
    println!("value is {:?}", collect(&btree));
    assert_eq!(collect(&btree), (1..=9).collect::<Vec<i64>>());

    let mut btree = BTree::<3>::new();
    println!("{:#?}", btree);
    for i in 1..=20 {
        btree.insert(i);
    }
    println!("{:#?}", btree);
    println!("value is {:?}", collect(&btree));
    assert_eq!(collect(&btree), (1..=20).collect::<Vec<i64>>());

    let mut btree = BTree::<5>::new();
    println!("{:#?}", btree);
    for i in 1..=50 {
        btree.insert(i);
    }
    println!("{:#?}", btree);
    println!("value is {:?}", collect(&btree));
    assert_eq!(collect(&btree), (1..=50).collect::<Vec<i64>>());
}

#[test]
fn test_delete_leaf_node() {
    let mut btree: BTree<2> = BTree::new();
    for i in [1, 2, 3, 5, 6, 7, 8, 9].into_iter().rev() {
        btree.insert(i);
    }
    println!("{:#?}", btree);
    assert_eq!(btree.delete(&1), Ok(()));
    println!("{:#?}", btree);
    assert_eq!(collect(&btree), vec![2, 3, 5, 6, 7, 8, 9]);
    assert_eq!(btree.delete(&2), Ok(()));
    println!("{:#?}", btree);
    assert_eq!(collect(&btree), vec![3, 5, 6, 7, 8, 9]);
    assert_eq!(btree.delete(&9), Ok(()));
    println!("{:#?}", btree);
    assert_eq!(collect(&btree), vec![3, 5, 6, 7, 8]);
    assert_eq!(btree.delete(&5), Ok(()));
    println!("{:#?}", btree);
    assert_eq!(collect(&btree), vec![3, 6, 7, 8]);
    assert_eq!(btree.delete(&8), Ok(()));
    println!("{:#?}", btree);
    assert_eq!(collect(&btree), vec![3, 6, 7]);
    check_invariants(&btree);
}

#[test]
fn test_delete_intermediate_node() {
    let mut btree: BTree<2> = BTree::new();
    for i in 1..=12 {
        btree.insert(i);
    }
    println!("{:#?}", btree);
    assert_eq!(btree.delete(&2), Ok(()));
    println!("{:#?}", btree);
    assert_eq!(collect(&btree), vec![1, 3, 4, 5, 6, 7, 8, 9, 10, 11, 12]);
    check_invariants(&btree);
}

#[test]
fn ascending_insert_of_nine_keeps_small_root() {
    let mut btree: BTree<2> = BTree::new();
    for i in 1..=9 {
        btree.insert(i);
    }
    assert!(btree.root().keys().len() <= 3);
    assert_eq!(collect(&btree), vec![1, 2, 3, 4, 5, 6, 7, 8, 9]);
    check_invariants(&btree);
}

#[test]
fn empty_tree_iterates_nothing() {
    let btree: BTree<3> = BTree::new();
    assert_eq!(collect(&btree), Vec::<i64>::new());
    check_invariants(&btree);
}

#[test]
fn any_insertion_order_iterates_sorted() {
    let mut btree: BTree<2> = BTree::new();
    let vals: Vec<i64> = vec![42, -7, 13, 0, 99, 5, -100, 64, 21, 8, 77, 3];
    for v in vals.iter() {
        btree.insert(*v);
        check_invariants(&btree);
    }
    let mut sorted = vals.clone();
    sorted.sort();
    assert_eq!(collect(&btree), sorted);
}

#[test]
fn extreme_keys() {
    let mut btree: BTree<2> = BTree::new();
    for v in [i64::MAX, i64::MIN, 0, i64::MAX - 1, i64::MIN + 1] {
        btree.insert(v);
    }
    assert_eq!(collect(&btree), vec![i64::MIN, i64::MIN + 1, 0, i64::MAX - 1, i64::MAX]);
    assert_eq!(btree.delete(&i64::MIN), Ok(()));
    assert_eq!(btree.delete(&i64::MAX), Ok(()));
    assert_eq!(collect(&btree), vec![i64::MIN + 1, 0, i64::MAX - 1]);
}

#[test]
fn inserting_twice_changes_nothing() {
    let mut once: BTree<2> = BTree::new();
    let mut twice: BTree<2> = BTree::new();
    for i in 1..=10 {
        once.insert(i);
        twice.insert(i);
    }
    once.insert(4);
    twice.insert(4);
    twice.insert(4);
    assert_eq!(collect(&once), collect(&twice));
    assert_eq!(collect(&twice), (1..=10).collect::<Vec<i64>>());
    check_invariants(&twice);
}

#[test]
fn duplicate_of_promoted_median_is_ignored() {
    let mut btree: BTree<2> = BTree::new();
    for i in [1, 2, 3, 4, 5, 6] {
        btree.insert(i);
    }
    for i in [1, 2, 3, 4, 5, 6] {
        btree.insert(i);
    }
    assert_eq!(collect(&btree), vec![1, 2, 3, 4, 5, 6]);
    check_invariants(&btree);
}

#[test]
fn delete_present_removes_exactly_one() {
    let mut btree: BTree<3> = BTree::new();
    for i in 1..=40 {
        btree.insert(i * 2);
    }
    let before = collect(&btree);
    assert_eq!(btree.delete(&30), Ok(()));
    let after = collect(&btree);
    assert_eq!(after.len() + 1, before.len());
    let expected: Vec<i64> = before.iter().copied().filter(|x| *x != 30).collect();
    assert_eq!(after, expected);
    check_invariants(&btree);
}

#[test]
fn delete_absent_reports_not_found() {
    let mut btree: BTree<2> = BTree::new();
    for i in 1..=15 {
        btree.insert(i * 10);
    }
    let before = collect(&btree);
    assert_eq!(btree.delete(&55), Err(DeleteError::NotFound));
    assert_eq!(collect(&btree), before);
    check_invariants(&btree);
    let mut empty: BTree<2> = BTree::new();
    assert_eq!(empty.delete(&1), Err(DeleteError::NotFound));
    assert_eq!(collect(&empty), Vec::<i64>::new());
}

#[test]
fn error_message_names_the_problem() {
    assert_eq!(DeleteError::NotFound.message(), "the value to delete is not in the tree");
}

#[test]
fn deleting_everything_shrinks_to_empty_leaf() {
    let mut btree: BTree<2> = BTree::new();
    for i in 1..=30 {
        btree.insert(i);
    }
    for i in (1..=30).rev() {
        assert_eq!(btree.delete(&i), Ok(()));
        check_invariants(&btree);
    }
    assert!(btree.root().keys().is_empty());
    assert!(btree.root().children().is_empty());
}

fn stress_run<const D: usize>(n: i64) {
    let mut btree: BTree<D> = BTree::new();
    for i in 1..=n {
        btree.insert(i);
    }
    check_invariants(&btree);
    assert_eq!(collect(&btree), (1..=n).collect::<Vec<i64>>());
    let mut left: Vec<i64> = (1..=n).collect();
    let mut k: i64 = 7;
    while !left.is_empty() {
        let idx = (k as usize) % left.len();
        let v = left.remove(idx);
        assert_eq!(btree.delete(&v), Ok(()));
        assert_eq!(btree.delete(&v), Err(DeleteError::NotFound));
        k = k * 31 + 17;
        k %= 1_000_003;
        if left.len() % 25 == 0 {
            check_invariants(&btree);
            let mut sorted = left.clone();
            sorted.sort();
            assert_eq!(collect(&btree), sorted);
        }
    }
    assert_eq!(collect(&btree), Vec::<i64>::new());
}

#[test]
fn stress_insert_and_delete() {
    stress_run::<2>(300);
    stress_run::<3>(400);
    stress_run::<5>(500);
}

#[test]
fn get_mut_child_in_and_out_of_range() {
    let mut leaf: Node<2> = Node::new();
    assert!(leaf.get_mut_child(0).is_none());
    assert!(leaf.is_leaf());
    assert_eq!(leaf.find_key(&3), Err(0));
}

#[test]
fn iterator_is_exhausted_after_last_key() {
    let mut btree: BTree<2> = BTree::new();
    btree.insert(2);
    btree.insert(1);
    let mut it = btree.iter();
    assert_eq!(it.next(), Some(1));
    assert_eq!(it.next(), Some(2));
    assert_eq!(it.next(), None);
    assert_eq!(it.next(), None);
}

#[test]
fn find_key_on_root_keys() {
    let mut btree: BTree<2> = BTree::new();
    for i in 1..=9 {
        btree.insert(i * 10);
    }
    let root = btree.root();
    let first = root.keys()[0];
    assert_eq!(root.find_key(&first), Ok(0));
    assert_eq!(root.find_key(&(first - 1)), Err(0));
    assert_eq!(root.find_key(&i64::MAX), Err(root.keys().len()));
    assert!(!root.is_leaf());
}

#[test]
fn delete_intermediate_on_empty_leaf_is_not_found() {
    let mut leaf: Node<3> = Node::new();
    assert_eq!(leaf.delete_intermediate(&5), Err(DeleteError::NotFound));
    assert!(leaf.keys().is_empty());
}

fn depth<const D: usize>(tree: &BTree<D>) -> usize {
    let mut node = tree.root();
    let mut levels = 0;
    while !node.children().is_empty() {
        node = &node.children()[0];
        levels += 1;
    }
    levels
}

#[test]
fn failed_delete_leaves_structure_unchanged() {
    let mut btree: BTree<2> = BTree::new();
    for i in 1..=20 {
        btree.insert(i * 3);
    }
    let before = format!("{:?}", btree);
    assert_eq!(btree.delete(&4), Err(DeleteError::NotFound));
    assert_eq!(format!("{:?}", btree), before);
}

#[test]
fn height_grows_only_when_root_is_full() {
    let mut btree: BTree<2> = BTree::new();
    for i in 1..=40 {
        let full = btree.root().keys().len() == 3;
        let h = depth(&btree);
        btree.insert(i);
        assert_eq!(depth(&btree), if full { h + 1 } else { h });
    }
    for i in 1..=40 {
        let h = depth(&btree);
        assert_eq!(btree.delete(&i), Ok(()));
        let after = depth(&btree);
        assert!(after == h || after + 1 == h);
    }
}
