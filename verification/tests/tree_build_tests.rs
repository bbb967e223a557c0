use std::collections::HashSet;

use ferreus::linear_tree::{build_tree, fine_keys_valid, TreeSettings};
use ferreus::morton::{decode_key, encode_morton_point, get_level, get_parent, Dimensions};

fn key2(x: u64, y: u64, level: u64) -> u64 {
    encode_morton_point(vec![x, y, level], &Dimensions::Two)
}

fn key1(x: u64, level: u64) -> u64 {
    encode_morton_point(vec![x, level], &Dimensions::One)
}

/// Closed-box adjacency of two cells, measured in cells of level `deepest`.
fn adjacent(a: u64, b: u64, dims: Dimensions, deepest: u64) -> bool {
    let da = decode_key(&a, &dims);
    let db = decode_key(&b, &dims);
    let d = da.len() - 1;
    (0..d).all(|c| {
        let (sa, ea) = (da[c] << (deepest - da[d]), (da[c] + 1) << (deepest - da[d]));
        let (sb, eb) = (db[c] << (deepest - db[d]), (db[c] + 1) << (deepest - db[d]));
        sa <= eb && sb <= ea
    })
}

fn settings(
    max_points_per_cell: usize,
    store_empty_leaves: bool,
    adaptive_tree: bool,
    max_level: u64,
    optimal_depth: u64,
    dimensions: Dimensions,
) -> TreeSettings {
    TreeSettings {
        max_points_per_cell,
        store_empty_leaves,
        adaptive_tree,
        max_level,
        optimal_depth,
        dimensions,
    }
}

fn set(keys: &[u64]) -> HashSet<u64> {
    keys.iter().copied().collect()
}

fn sorted(v: &[u64]) -> Vec<u64> {
    let mut v = v.to_vec();
    v.sort();
    v
}

#[test]
fn adaptive_tree_splits_crowded_cells() {
    // Points at level 3: (0,0), (7,7), (1,0).
    let points = vec![key2(0, 0, 3), key2(7, 7, 3), key2(1, 0, 3)];
    let s = settings(1, false, true, 3, 10, Dimensions::Two);
    assert!(fine_keys_valid(&points, &s));
    let mut depth = 0u64;
    let adj = |a: u64, b: u64| adjacent(a, b, Dimensions::Two, 3);
    let lists = build_tree(&points, &s, &mut depth, &adj);
    assert_eq!(depth, 3);

    let root = key2(0, 0, 0);
    let a1 = key2(0, 0, 1);
    let b1 = key2(1, 1, 1);
    let a2 = key2(0, 0, 2);
    let c3 = key2(0, 0, 3);
    let d3 = key2(1, 0, 3);
    assert_eq!(root, 0);
    assert_eq!(lists.tree, set(&[root, a1, b1, a2, c3, d3]));
    assert_eq!(lists.leaves, set(&[b1, c3, d3]));
    assert_eq!(lists.leaf_source_indices.len(), 3);
    assert_eq!(lists.leaf_source_indices[&b1], vec![1]);
    assert_eq!(lists.leaf_source_indices[&c3], vec![0]);
    assert_eq!(lists.leaf_source_indices[&d3], vec![2]);
    assert_eq!(sorted(&lists.children[&root]), sorted(&[a1, b1]));
    assert_eq!(lists.children[&a1], vec![a2]);
    assert_eq!(sorted(&lists.children[&a2]), sorted(&[c3, d3]));
    assert!(lists.children[&b1].is_empty());
    assert!(lists.children[&c3].is_empty());
    assert_eq!(lists.level_cells_map[&0], vec![0]);
    assert_eq!(sorted(&lists.level_cells_map[&1]), sorted(&[a1, b1]));
    assert_eq!(lists.level_cells_map[&2], vec![a2]);
    assert_eq!(sorted(&lists.level_cells_map[&3]), sorted(&[c3, d3]));
    assert_eq!(lists.key_to_index_map[&0], 0);
    let mut indices: Vec<usize> = lists.key_to_index_map.values().copied().collect();
    indices.sort();
    assert_eq!(indices, vec![0, 1, 2, 3, 4, 5]);
    assert!(lists.x_lists.is_some() && lists.w_lists.is_some());
    assert!(lists.u_lists[&b1].contains(&b1));
    assert!(lists.leaf_target_indices.is_empty());
}

#[test]
fn regular_tree_stops_at_optimal_depth() {
    let points = vec![key2(0, 0, 3), key2(7, 7, 3), key2(1, 0, 3)];
    let s = settings(1, false, false, 3, 2, Dimensions::Two);
    let mut depth = 0u64;
    let adj = |a: u64, b: u64| adjacent(a, b, Dimensions::Two, 3);
    let lists = build_tree(&points, &s, &mut depth, &adj);
    assert_eq!(depth, 2);
    let a2 = key2(0, 0, 2);
    let e2 = key2(3, 3, 2);
    assert_eq!(lists.leaves, set(&[a2, e2]));
    assert_eq!(lists.leaf_source_indices[&a2], vec![0, 2]);
    assert_eq!(lists.leaf_source_indices[&e2], vec![1]);
    assert_eq!(lists.tree.len(), 5);
    assert!(lists.x_lists.is_none() && lists.w_lists.is_none());
    let u_keys: HashSet<u64> = lists.u_lists.keys().copied().collect();
    assert_eq!(u_keys, lists.leaves);
    let v_keys: HashSet<u64> = lists.v_lists.keys().copied().collect();
    assert_eq!(v_keys, lists.tree);
}

#[test]
fn regular_tree_without_crowded_cells_stays_one_level() {
    let points = vec![key2(0, 0, 3), key2(7, 7, 3)];
    let s = settings(1, false, false, 3, 3, Dimensions::Two);
    let mut depth = 0u64;
    let adj = |a: u64, b: u64| adjacent(a, b, Dimensions::Two, 3);
    let lists = build_tree(&points, &s, &mut depth, &adj);
    assert_eq!(depth, 1);
    assert_eq!(lists.leaves, set(&[key2(0, 0, 1), key2(1, 1, 1)]));
}

#[test]
fn stored_empty_leaves_keep_all_children() {
    // 1D, points at level 2: x = 0 and x = 3; every cell holding a point is split.
    let points = vec![key1(0, 2), key1(3, 2)];
    let s = settings(0, true, true, 2, 10, Dimensions::One);
    let mut depth = 0u64;
    let adj = |a: u64, b: u64| adjacent(a, b, Dimensions::One, 2);
    let lists = build_tree(&points, &s, &mut depth, &adj);
    assert_eq!(depth, 2);
    assert_eq!(lists.tree.len(), 7);
    assert_eq!(
        lists.leaves,
        set(&[key1(0, 2), key1(1, 2), key1(2, 2), key1(3, 2)])
    );
    assert_eq!(lists.leaf_source_indices.len(), 2);
    assert_eq!(lists.leaf_source_indices[&key1(0, 2)], vec![0]);
    assert_eq!(lists.leaf_source_indices[&key1(3, 2)], vec![1]);
    assert_eq!(lists.children[&key1(0, 1)], vec![key1(0, 2), key1(1, 2)]);
}

#[test]
fn no_points_leave_only_the_root() {
    let points: Vec<u64> = Vec::new();
    let s = settings(1, false, true, 3, 10, Dimensions::Three);
    let mut depth = 0u64;
    let adj = |_a: u64, _b: u64| true;
    let lists = build_tree(&points, &s, &mut depth, &adj);
    assert_eq!(depth, 1);
    assert_eq!(lists.tree, set(&[0]));
    assert!(lists.leaves.is_empty());
}

#[test]
fn leaves_partition_the_points() {
    let mut points = Vec::new();
    for i in 0..40u64 {
        points.push(key2((i * 7) % 16, (i * 3) % 16, 4));
    }
    for adaptive in [true, false] {
        let s = settings(3, false, adaptive, 4, 4, Dimensions::Two);
        let mut depth = 0u64;
        let adj = |a: u64, b: u64| adjacent(a, b, Dimensions::Two, 4);
        let lists = build_tree(&points, &s, &mut depth, &adj);
        let mut seen = vec![0usize; points.len()];
        for (leaf, indices) in &lists.leaf_source_indices {
            assert!(lists.leaves.contains(leaf));
            for &i in indices {
                seen[i] += 1;
            }
        }
        assert!(seen.iter().all(|&c| c == 1));
    }
}

#[test]
fn fine_keys_are_checked() {
    let s = settings(1, false, true, 3, 10, Dimensions::Two);
    assert!(fine_keys_valid(&[key2(5, 6, 3)], &s));
    assert!(!fine_keys_valid(&[key2(1, 1, 2)], &s));
    assert!(!fine_keys_valid(&[key2(9, 0, 3)], &s));
    let s0 = settings(1, false, true, 0, 10, Dimensions::Two);
    assert!(!fine_keys_valid(&[], &s0));
}

#[test]
fn every_cell_hangs_below_a_split_parent() {
    let mut points = Vec::new();
    for i in 0..30u64 {
        points.push(encode_morton_point(vec![(i * 5) % 8, (i * 3) % 8, (i * 7) % 8, 3], &Dimensions::Three));
    }
    for (adaptive, store) in [(true, false), (true, true), (false, false), (false, true)] {
        let s = settings(2, store, adaptive, 3, 3, Dimensions::Three);
        let mut depth = 0u64;
        let adj = |a: u64, b: u64| adjacent(a, b, Dimensions::Three, 3);
        let lists = build_tree(&points, &s, &mut depth, &adj);
        for &cell in &lists.tree {
            if let Some(parent) = get_parent(&cell, &Dimensions::Three) {
                assert!(lists.tree.contains(&parent));
                assert!(!lists.leaves.contains(&parent));
                assert!(lists.children[&parent].contains(&cell));
            }
            // A cell is a leaf exactly when it lists no children, the root aside.
            if cell != 0 {
                assert_eq!(lists.leaves.contains(&cell), lists.children[&cell].is_empty());
            }
        }
    }
}

#[test]
fn depth_is_the_deepest_cell_and_crowded_leaves_sit_at_the_bottom() {
    // Four points share the finest cell (3,3) at level 2, so that leaf stays crowded.
    let mut points = vec![key2(3, 3, 2); 4];
    points.push(key2(0, 0, 2));
    let s = settings(2, false, true, 2, 10, Dimensions::Two);
    assert!(fine_keys_valid(&points, &s));
    let mut depth = 0u64;
    let adj = |a: u64, b: u64| adjacent(a, b, Dimensions::Two, 2);
    let lists = build_tree(&points, &s, &mut depth, &adj);
    let deepest = lists.tree.iter().map(|k| get_level(k)).max().unwrap();
    assert_eq!(depth, deepest);
    assert_eq!(depth, 2);
    let mut crowded = 0;
    for (leaf, indices) in &lists.leaf_source_indices {
        assert!(lists.tree.contains(leaf));
        if indices.len() > 2 {
            crowded += 1;
            assert_eq!(get_level(leaf), 2);
            assert_eq!(indices, &vec![0, 1, 2, 3]);
        }
    }
    assert_eq!(crowded, 1);
}
