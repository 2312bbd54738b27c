use avl_tree::order::compare;
use avl_tree::{Rank, Tree, TreeNode};

type Link = Option<Box<TreeNode<i32>>>;

fn node(val: i32, height: u32, left: Link, right: Link) -> Link {
    let mut n = TreeNode::new(val, height);
    n.left = left;
    n.right = right;
    Some(Box::new(n))
}

fn leaf(val: i32) -> Link {
    node(val, 1, None, None)
}

fn values(link: &Link) -> Vec<i32> {
    let mut out = Vec::new();
    Tree::<i32>::collect_in_order(link, &mut out);
    out
}

/// A subtree written out as (value, cached height, left, right).
fn shape(link: &Link) -> String {
    match link {
        None => String::from("-"),
        Some(n) => format!("({} h{} {} {})", n.val, n.height, shape(&n.left), shape(&n.right)),
    }
}

#[test]
fn new_node_has_no_subtrees() {
    let n = TreeNode::new(5, 1);
    assert_eq!(n.val, 5);
    assert_eq!(n.height, 1);
    assert!(n.left.is_none());
    assert!(n.right.is_none());
    let m = TreeNode::new('x', 7);
    assert_eq!(m.height, 7);
}

#[test]
fn node_height_is_read_from_the_cache() {
    assert_eq!(Tree::<i32>::get_node_height(&None), 0);
    assert_eq!(Tree::<i32>::get_node_height(&leaf(3)), 1);
    assert_eq!(Tree::<i32>::get_node_height(&node(3, 9, None, None)), 9);
}

#[test]
fn update_node_height_is_one_more_than_the_taller_subtree() {
    let mut n = TreeNode::new(5, 40);
    Tree::<i32>::update_node_height(&mut n);
    assert_eq!(n.height, 1);
    n.left = node(2, 3, None, None);
    Tree::<i32>::update_node_height(&mut n);
    assert_eq!(n.height, 4);
    n.right = node(8, 6, None, None);
    Tree::<i32>::update_node_height(&mut n);
    assert_eq!(n.height, 7);
    n.left = node(2, 6, None, None);
    Tree::<i32>::update_node_height(&mut n);
    assert_eq!(n.height, 7);
    assert_eq!(n.val, 5);
}

#[test]
fn rotate_left_keeps_in_order_and_raises_the_right_child() {
    // 2(1, 6(4, 8)): the right child has a left subtree of its own
    let top = node(2, 3, leaf(1), node(6, 2, leaf(4), leaf(8)));
    let before = values(&top);
    assert_eq!(before, vec![1, 2, 4, 6, 8]);
    let res = Tree::<i32>::rotate_left(top);
    assert_eq!(values(&res), before);
    assert_eq!(shape(&res), "(6 h3 (2 h2 (1 h1 - -) (4 h1 - -)) (8 h1 - -))");
}

#[test]
fn rotate_right_keeps_in_order_and_raises_the_left_child() {
    let top = node(6, 3, node(2, 2, leaf(1), leaf(4)), leaf(8));
    let before = values(&top);
    let res = Tree::<i32>::rotate_right(top);
    assert_eq!(values(&res), before);
    assert_eq!(shape(&res), "(2 h3 (1 h1 - -) (6 h2 (4 h1 - -) (8 h1 - -)))");
}

#[test]
fn rotations_undo_each_other() {
    let top = node(2, 3, leaf(1), node(6, 2, leaf(4), leaf(8)));
    let start = shape(&top);
    let res = Tree::<i32>::rotate_right(Tree::<i32>::rotate_left(top));
    assert_eq!(shape(&res), start);
}

#[test]
fn rotation_recomputes_stale_heights() {
    let top = node(1, 77, None, node(2, 55, None, leaf(3)));
    let res = Tree::<i32>::rotate_left(top);
    assert_eq!(shape(&res), "(2 h2 (1 h1 - -) (3 h1 - -))");
}

#[test]
fn rotation_of_an_absent_subtree_is_absent() {
    assert!(Tree::<i32>::rotate_left(None).is_none());
    assert!(Tree::<i32>::rotate_right(None).is_none());
    assert!(Tree::<i32>::rebalance(None).is_none());
}

#[test]
fn rebalance_of_a_balanced_node_only_recomputes_its_height() {
    let top = node(2, 9, leaf(1), node(6, 2, leaf(4), leaf(8)));
    let res = Tree::<i32>::rebalance(top);
    assert_eq!(shape(&res), "(2 h3 (1 h1 - -) (6 h2 (4 h1 - -) (8 h1 - -)))");
}

#[test]
fn rebalance_of_a_left_heavy_node() {
    // left-left: one rotation to the right
    let top = node(5, 3, node(3, 2, leaf(1), None), None);
    assert_eq!(shape(&Tree::<i32>::rebalance(top)), "(3 h2 (1 h1 - -) (5 h1 - -))");
    // left-right: the left child is rotated to the left first
    let top = node(5, 3, node(1, 2, None, leaf(3)), None);
    assert_eq!(shape(&Tree::<i32>::rebalance(top)), "(3 h2 (1 h1 - -) (5 h1 - -))");
    // left child leaning neither way: one rotation, and the result is one taller
    let top = node(7, 4, node(3, 3, node(2, 2, leaf(1), None), node(5, 2, leaf(4), None)), leaf(8));
    assert_eq!(
        shape(&Tree::<i32>::rebalance(top)),
        "(3 h4 (2 h2 (1 h1 - -) -) (7 h3 (5 h2 (4 h1 - -) -) (8 h1 - -)))"
    );
}

#[test]
fn rebalance_of_a_right_heavy_node() {
    let top = node(1, 3, None, node(3, 2, None, leaf(5)));
    assert_eq!(shape(&Tree::<i32>::rebalance(top)), "(3 h2 (1 h1 - -) (5 h1 - -))");
    let top = node(1, 3, None, node(5, 2, leaf(3), None));
    assert_eq!(shape(&Tree::<i32>::rebalance(top)), "(3 h2 (1 h1 - -) (5 h1 - -))");
}

#[test]
fn insert_with_node_returns_the_new_root() {
    let (root, grew) = Tree::<i32>::insert_with_node(None, 4);
    assert!(grew);
    assert_eq!(shape(&root), "(4 h1 - -)");
    let (root, grew) = Tree::<i32>::insert_with_node(root, 6);
    assert!(grew);
    assert_eq!(shape(&root), "(4 h2 - (6 h1 - -))");
    let (root, grew) = Tree::<i32>::insert_with_node(root, 8);
    assert!(grew);
    assert_eq!(shape(&root), "(6 h2 (4 h1 - -) (8 h1 - -))");
    let (root, grew) = Tree::<i32>::insert_with_node(root, 8);
    assert!(!grew);
    assert_eq!(shape(&root), "(6 h2 (4 h1 - -) (8 h1 - -))");
}

#[test]
fn remove_with_node_returns_the_new_root() {
    let root = node(6, 2, leaf(4), leaf(8));
    let (root, found) = Tree::<i32>::remove_with_node(root, &5);
    assert!(!found);
    let (root, found) = Tree::<i32>::remove_with_node(root, &6);
    assert!(found);
    assert_eq!(shape(&root), "(8 h2 (4 h1 - -) -)");
    let (root, found) = Tree::<i32>::remove_with_node(root, &8);
    assert!(found);
    assert_eq!(shape(&root), "(4 h1 - -)");
    let (root, found) = Tree::<i32>::remove_with_node(root, &4);
    assert!(found);
    assert!(root.is_none());
}

#[test]
fn leftmost_and_rightmost_values() {
    let top = node(4, 3, node(2, 2, None, leaf(3)), node(6, 2, leaf(5), None));
    let n = top.unwrap();
    assert_eq!(Tree::<i32>::leftmost_value(&n), 2);
    assert_eq!(Tree::<i32>::rightmost_value(&n), 6);
    let single = TreeNode::new(9, 1);
    assert_eq!(Tree::<i32>::leftmost_value(&single), 9);
    assert_eq!(Tree::<i32>::rightmost_value(&single), 9);
}

#[test]
fn level_order_of_a_lopsided_subtree() {
    let top = node(2, 3, leaf(1), node(6, 2, leaf(4), None));
    assert_eq!(
        Tree::<i32>::level_order_of(&top),
        vec![
            vec![Some(2)],
            vec![Some(1), Some(6)],
            vec![None, None, Some(4), None],
        ]
    );
    assert_eq!(Tree::<i32>::level_order_of(&None), Vec::<Vec<Option<i32>>>::new());
}

#[test]
fn checked_height_finds_imbalance_and_stale_heights() {
    let good = node(2, 3, leaf(1), node(6, 2, leaf(4), None));
    assert_eq!(Tree::<i32>::checked_height(&good), Some(3));
    assert_eq!(Tree::<i32>::checked_height(&None), Some(0));
    let stale = node(2, 4, leaf(1), node(6, 2, leaf(4), None));
    assert_eq!(Tree::<i32>::checked_height(&stale), None);
    let stale_below = node(2, 3, leaf(1), node(6, 1, leaf(4), None));
    assert_eq!(Tree::<i32>::checked_height(&stale_below), None);
    let lopsided = node(1, 3, None, node(2, 2, None, leaf(3)));
    assert_eq!(Tree::<i32>::checked_height(&lopsided), None);
}

#[test]
fn is_ordered_within_finds_misplaced_values() {
    let good = node(4, 2, leaf(2), leaf(6));
    assert!(Tree::<i32>::is_ordered_within(&good, None, None));
    assert!(Tree::<i32>::is_ordered_within(&good, Some(&1), Some(&7)));
    assert!(!Tree::<i32>::is_ordered_within(&good, Some(&2), None));
    assert!(!Tree::<i32>::is_ordered_within(&good, None, Some(&6)));
    assert!(Tree::<i32>::is_ordered_within(&None, Some(&5), Some(&5)));
    let swapped = node(4, 2, leaf(6), leaf(2));
    assert!(!Tree::<i32>::is_ordered_within(&swapped, None, None));
    let repeated = node(4, 2, leaf(4), None);
    assert!(!Tree::<i32>::is_ordered_within(&repeated, None, None));
    // 5 sits in the left subtree of 4, two levels down
    let deep = node(4, 3, node(2, 2, None, leaf(5)), leaf(6));
    assert!(!Tree::<i32>::is_ordered_within(&deep, None, None));
}

#[test]
fn compare_reports_the_rank_of_the_first_value() {
    assert_eq!(compare(&1, &2), Rank::Below);
    assert_eq!(compare(&2, &2), Rank::Same);
    assert_eq!(compare(&3, &2), Rank::Above);
    assert_eq!(compare(&"a", &"b"), Rank::Below);
}
