use std::collections::HashSet;

use ferreus::linear_tree::{find_leaf_key, point_keys_to_leaves, FmmError};
use ferreus::morton::{encode_morton_point, Dimensions};

#[test]
fn leaf_found_by_walking_up() {
    let dims = Dimensions::Two;
    let leaf = encode_morton_point(vec![1, 0, 1], &dims);
    let deep = encode_morton_point(vec![3, 1, 2], &dims);
    let leaves: HashSet<u64> = [leaf].into_iter().collect();
    assert_eq!(find_leaf_key(0, deep, &leaves, &dims), Ok(leaf));
    assert_eq!(find_leaf_key(0, leaf, &leaves, &dims), Ok(leaf));
}

#[test]
fn nearest_leaf_wins() {
    let dims = Dimensions::One;
    let root = encode_morton_point(vec![0, 0], &dims);
    let mid = encode_morton_point(vec![1, 1], &dims);
    let deep = encode_morton_point(vec![3, 2], &dims);
    let leaves: HashSet<u64> = [root, mid].into_iter().collect();
    assert_eq!(find_leaf_key(4, deep, &leaves, &dims), Ok(mid));
}

#[test]
fn point_outside_tree_is_reported() {
    let dims = Dimensions::Three;
    let deep = encode_morton_point(vec![5, 6, 7, 3], &dims);
    let other = encode_morton_point(vec![0, 0, 0, 1], &dims);
    let leaves: HashSet<u64> = [other].into_iter().collect();
    assert_eq!(
        find_leaf_key(7, deep, &leaves, &dims),
        Err(FmmError::PointOutsideTree { point_index: 7 })
    );
}

#[test]
fn keys_map_to_leaves_or_first_failure() {
    let dims = Dimensions::One;
    let left = encode_morton_point(vec![0, 1], &dims);
    let keys = vec![
        encode_morton_point(vec![0, 2], &dims),
        encode_morton_point(vec![1, 2], &dims),
        encode_morton_point(vec![2, 2], &dims),
        encode_morton_point(vec![3, 2], &dims),
    ];
    let leaves: HashSet<u64> = [left].into_iter().collect();
    assert_eq!(
        point_keys_to_leaves(&keys, &leaves, &dims),
        Err(FmmError::PointOutsideTree { point_index: 2 })
    );
    let right = encode_morton_point(vec![1, 1], &dims);
    let leaves: HashSet<u64> = [left, right].into_iter().collect();
    assert_eq!(point_keys_to_leaves(&keys, &leaves, &dims), Ok(vec![left, left, right, right]));
}
