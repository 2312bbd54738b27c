use avl_tree::{Tree, TreeError};
use std::collections::BTreeSet;

/// A fixed pseudo-random walk through `0..modulus`.
fn scrambled(count: usize, modulus: u64, seed: u64) -> Vec<i32> {
    let mut state = seed;
    let mut out = Vec::new();
    for _ in 0..count {
        state = state.wrapping_mul(6364136223846793005).wrapping_add(1442695040888963407);
        out.push(((state >> 33) % modulus) as i32);
    }
    out
}

fn distinct(values: Vec<i32>) -> Vec<i32> {
    let mut seen = BTreeSet::new();
    values.into_iter().filter(|v| seen.insert(*v)).collect()
}

fn height_limit(n: usize) -> u32 {
    (1.44_f64 * ((n + 2) as f64).log2()).ceil() as u32
}

#[test]
fn invariants_hold_after_each_insert_of_distinct_values() {
    let values = distinct(scrambled(600, 10_000, 7));
    let mut tree: Tree<i32> = Tree::new();
    let mut model = BTreeSet::new();
    for v in values {
        assert_eq!(tree.insert(v), Ok(()));
        model.insert(v);
        assert!(tree.is_well_formed());
        assert_eq!(tree.to_vec(), model.iter().copied().collect::<Vec<i32>>());
    }
}

#[test]
fn invariants_hold_for_ascending_and_descending_inserts() {
    let mut up: Tree<i32> = Tree::new();
    let mut down: Tree<i32> = Tree::new();
    for v in 0..300 {
        assert_eq!(up.insert(v), Ok(()));
        assert_eq!(down.insert(-v), Ok(()));
        assert!(up.is_well_formed());
        assert!(down.is_well_formed());
    }
    assert_eq!(up.to_vec(), (0..300).collect::<Vec<i32>>());
    assert_eq!(down.to_vec(), (-299..=0).collect::<Vec<i32>>());
}

#[test]
fn removes_leave_the_inserted_values_without_the_removed_ones() {
    let inserted = scrambled(500, 400, 11);
    let removed = scrambled(500, 400, 23);
    let mut tree: Tree<i32> = Tree::new();
    let mut model = BTreeSet::new();
    for v in inserted {
        let fresh = model.insert(v);
        assert_eq!(tree.insert(v), if fresh { Ok(()) } else { Err(TreeError::Duplicate) });
    }
    for v in removed {
        let present = model.remove(&v);
        assert_eq!(tree.remove(&v), if present { Ok(()) } else { Err(TreeError::NotFound) });
        assert!(tree.is_well_formed());
        assert_eq!(tree.to_vec(), model.iter().copied().collect::<Vec<i32>>());
    }
}

#[test]
fn removing_everything_empties_the_tree() {
    let values = distinct(scrambled(200, 1_000, 3));
    let mut tree: Tree<i32> = Tree::new();
    for v in &values {
        assert_eq!(tree.insert(*v), Ok(()));
    }
    for v in &values {
        assert_eq!(tree.remove(v), Ok(()));
        assert!(tree.is_well_formed());
    }
    assert_eq!(tree.get_height(), 0);
    assert_eq!(tree.to_vec(), Vec::<i32>::new());
}

#[test]
fn height_stays_within_the_logarithmic_limit() {
    let mut tree: Tree<i32> = Tree::new();
    for n in 1..=3000usize {
        assert_eq!(tree.insert(n as i32), Ok(()));
        assert!(tree.get_height() <= height_limit(n), "n = {}", n);
    }
    let values = distinct(scrambled(3000, 1_000_000, 99));
    let mut tree: Tree<i32> = Tree::new();
    for (i, v) in values.iter().enumerate() {
        assert_eq!(tree.insert(*v), Ok(()));
        assert!(tree.get_height() <= height_limit(i + 1), "n = {}", i + 1);
    }
}

#[test]
fn height_limit_is_reached_by_the_sparsest_trees() {
    // the sparsest balanced trees have 1, 2, 4, 7, 12 nodes for heights 1 to 5
    assert_eq!(height_limit(1), 3);
    let sparsest: [(i32, u32); 5] = [(1, 1), (2, 2), (4, 3), (7, 4), (12, 5)];
    for (n, h) in sparsest {
        assert!(h <= height_limit(n as usize));
    }
    // 12 nodes in a tree of height 5: each subtree is the sparsest of its height
    let mut tree: Tree<i32> = Tree::new();
    for v in [8, 5, 11, 3, 7, 10, 12, 2, 4, 6, 9, 1] {
        assert_eq!(tree.insert(v), Ok(()));
    }
    assert!(tree.is_well_formed());
    assert_eq!(tree.get_height(), 5);
}

#[test]
fn level_order_has_one_row_per_level_and_doubles_in_width() {
    let values = distinct(scrambled(100, 1_000, 5));
    let mut tree: Tree<i32> = Tree::new();
    for v in &values {
        assert_eq!(tree.insert(*v), Ok(()));
    }
    let rows = tree.level_order();
    assert_eq!(rows.len(), tree.get_height() as usize);
    let mut width = 1;
    let mut seen = Vec::new();
    for row in &rows {
        assert_eq!(row.len(), width);
        width *= 2;
        seen.extend(row.iter().flatten().copied());
    }
    seen.sort();
    assert_eq!(seen, tree.to_vec());
    assert_eq!(rows[0], vec![Some(rows[0][0].unwrap())]);
    assert!(rows[rows.len() - 1].iter().any(|slot| slot.is_some()));
}
