use avl_tree::{Tree, TreeError};

fn build(values: &[i32]) -> Tree<i32> {
    let mut tree: Tree<i32> = Tree::new();
    for v in values {
        assert_eq!(tree.insert(*v), Ok(()));
    }
    tree
}

fn rows(tree: &Tree<i32>) -> Vec<Vec<Option<i32>>> {
    tree.level_order()
}

#[test]
fn new_tree_is_empty() {
    let tree: Tree<i32> = Tree::new();
    assert!(tree.is_well_formed());
    assert_eq!(tree.get_height(), 0);
    assert_eq!(tree.to_vec(), Vec::<i32>::new());
    assert_eq!(tree.level_order(), Vec::<Vec<Option<i32>>>::new());
}

#[test]
fn single_insert_makes_a_leaf() {
    let tree = build(&[4]);
    assert_eq!(tree.get_height(), 1);
    assert_eq!(rows(&tree), vec![vec![Some(4)]]);
}

#[test]
fn insert_eight_then_remove_four() {
    let mut tree: Tree<i32> = Tree::new();
    for v in [4, 6, 8, 2, 1, 5, 7, 9] {
        assert_eq!(tree.insert(v), Ok(()));
        assert!(tree.is_well_formed());
    }
    assert_eq!(tree.to_vec(), vec![1, 2, 4, 5, 6, 7, 8, 9]);
    assert_eq!(tree.get_height(), 4);
    assert_eq!(
        rows(&tree),
        vec![
            vec![Some(4)],
            vec![Some(2), Some(6)],
            vec![Some(1), None, Some(5), Some(8)],
            vec![None, None, None, None, None, None, Some(7), Some(9)],
        ]
    );
    assert_eq!(tree.remove(&4), Ok(()));
    assert!(tree.is_well_formed());
    assert_eq!(tree.to_vec(), vec![1, 2, 5, 6, 7, 8, 9]);
    assert_eq!(
        rows(&tree),
        vec![
            vec![Some(5)],
            vec![Some(2), Some(8)],
            vec![Some(1), None, Some(6), Some(9)],
            vec![None, None, None, None, None, Some(7), None, None],
        ]
    );
}

#[test]
fn right_right_insert_rotates_left() {
    let tree = build(&[1, 2, 3]);
    assert_eq!(rows(&tree), vec![vec![Some(2)], vec![Some(1), Some(3)]]);
}

#[test]
fn left_left_insert_rotates_right() {
    let tree = build(&[3, 2, 1]);
    assert_eq!(rows(&tree), vec![vec![Some(2)], vec![Some(1), Some(3)]]);
}

#[test]
fn left_right_insert_rotates_twice() {
    let tree = build(&[3, 1, 2]);
    assert_eq!(rows(&tree), vec![vec![Some(2)], vec![Some(1), Some(3)]]);
}

#[test]
fn right_left_insert_rotates_twice() {
    let tree = build(&[1, 3, 2]);
    assert_eq!(rows(&tree), vec![vec![Some(2)], vec![Some(1), Some(3)]]);
}

#[test]
fn duplicate_insert_is_rejected_and_changes_nothing() {
    let mut tree = build(&[4, 6, 8, 2, 1, 5, 7, 9]);
    let before = rows(&tree);
    for v in [4, 6, 8, 2, 1, 5, 7, 9] {
        assert_eq!(tree.insert(v), Err(TreeError::Duplicate));
        assert_eq!(rows(&tree), before);
        assert_eq!(tree.get_height(), 4);
    }
    assert_eq!(tree.to_vec(), vec![1, 2, 4, 5, 6, 7, 8, 9]);
}

#[test]
fn remove_of_missing_value_is_not_found_and_changes_nothing() {
    let mut tree = build(&[4, 6, 8, 2, 1, 5, 7, 9]);
    let before = rows(&tree);
    for v in [0, 3, 10, -7] {
        assert_eq!(tree.remove(&v), Err(TreeError::NotFound));
        assert_eq!(rows(&tree), before);
    }
}

#[test]
fn remove_from_empty_tree_is_not_found() {
    let mut tree: Tree<i32> = Tree::new();
    assert_eq!(tree.remove(&1), Err(TreeError::NotFound));
    assert_eq!(tree.to_vec(), Vec::<i32>::new());
}

#[test]
fn remove_last_value_empties_the_tree() {
    let mut tree = build(&[7]);
    assert_eq!(tree.remove(&7), Ok(()));
    assert_eq!(tree.get_height(), 0);
    assert_eq!(rows(&tree), Vec::<Vec<Option<i32>>>::new());
    assert_eq!(tree.insert(7), Ok(()));
    assert_eq!(tree.to_vec(), vec![7]);
}

#[test]
fn remove_leaf() {
    let mut tree = build(&[2, 1, 3]);
    assert_eq!(tree.remove(&3), Ok(()));
    assert_eq!(rows(&tree), vec![vec![Some(2)], vec![Some(1), None]]);
}

#[test]
fn remove_node_with_only_a_right_subtree() {
    let mut tree = build(&[2, 1, 3, 4]);
    assert_eq!(tree.remove(&3), Ok(()));
    assert_eq!(rows(&tree), vec![vec![Some(2)], vec![Some(1), Some(4)]]);
}

#[test]
fn remove_node_with_only_a_left_subtree() {
    let mut tree = build(&[3, 2, 4, 1]);
    assert_eq!(tree.remove(&2), Ok(()));
    assert_eq!(rows(&tree), vec![vec![Some(3)], vec![Some(1), Some(4)]]);
}

#[test]
fn remove_with_equal_subtrees_takes_from_the_right() {
    let mut tree = build(&[2, 1, 3]);
    assert_eq!(tree.remove(&2), Ok(()));
    assert_eq!(rows(&tree), vec![vec![Some(3)], vec![Some(1), None]]);

    let mut tree = build(&[4, 2, 6, 1, 3, 5, 7]);
    assert_eq!(tree.remove(&4), Ok(()));
    assert_eq!(
        rows(&tree),
        vec![
            vec![Some(5)],
            vec![Some(2), Some(6)],
            vec![Some(1), Some(3), None, Some(7)],
        ]
    );
}

#[test]
fn remove_with_taller_left_subtree_takes_from_the_left() {
    let mut tree = build(&[3, 2, 4, 1]);
    assert_eq!(tree.remove(&3), Ok(()));
    assert_eq!(rows(&tree), vec![vec![Some(2)], vec![Some(1), Some(4)]]);
}

#[test]
fn remove_with_taller_right_subtree_takes_from_the_right() {
    let mut tree = build(&[2, 1, 4, 3]);
    assert_eq!(tree.remove(&2), Ok(()));
    assert_eq!(rows(&tree), vec![vec![Some(3)], vec![Some(1), Some(4)]]);
}

#[test]
fn remove_rebalances_with_a_single_rotation() {
    // 2(1, 4(3, 5)) without 1 leans right, its right child leans neither way
    let mut tree = build(&[2, 1, 4, 3, 5]);
    assert_eq!(tree.remove(&1), Ok(()));
    assert!(tree.is_well_formed());
    assert_eq!(
        rows(&tree),
        vec![vec![Some(4)], vec![Some(2), Some(5)], vec![None, Some(3), None, None]]
    );
}

#[test]
fn remove_rebalances_with_a_double_rotation() {
    // 2(1, 4(3, _)) without 1 leans right, its right child leans left
    let mut tree = build(&[2, 1, 4, 3]);
    assert_eq!(tree.remove(&1), Ok(()));
    assert!(tree.is_well_formed());
    assert_eq!(rows(&tree), vec![vec![Some(3)], vec![Some(2), Some(4)]]);
}

#[test]
fn remove_rebalances_the_mirror_cases() {
    let mut tree = build(&[4, 5, 2, 1, 3]);
    assert_eq!(tree.remove(&5), Ok(()));
    assert_eq!(
        rows(&tree),
        vec![vec![Some(2)], vec![Some(1), Some(4)], vec![None, None, Some(3), None]]
    );
    let mut tree = build(&[4, 5, 2, 3]);
    assert_eq!(tree.remove(&5), Ok(()));
    assert_eq!(rows(&tree), vec![vec![Some(3)], vec![Some(2), Some(4)]]);
}

#[test]
fn works_for_other_ordered_types() {
    let mut tree: Tree<(u8, char)> = Tree::new();
    for v in [(2, 'b'), (1, 'z'), (2, 'a')] {
        assert_eq!(tree.insert(v), Ok(()));
    }
    assert_eq!(tree.insert((1, 'z')), Err(TreeError::Duplicate));
    assert_eq!(tree.to_vec(), vec![(1, 'z'), (2, 'a'), (2, 'b')]);
    assert_eq!(tree.remove(&(2, 'a')), Ok(()));
    assert_eq!(tree.to_vec(), vec![(1, 'z'), (2, 'b')]);
}
