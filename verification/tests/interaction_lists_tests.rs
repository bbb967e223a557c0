use std::collections::{HashMap, HashSet};

use ferreus::interaction_lists::{
    compute_u_v_list, get_interaction_lists_adaptive, get_interaction_lists_regular,
};
use ferreus::morton::{decode_key, encode_morton_point, Dimensions};

fn key1(x: u64, level: u64) -> u64 {
    encode_morton_point(vec![x, level], &Dimensions::One)
}

/// Closed-interval adjacency of two 1D cells, measured in cells of level 4.
fn adjacent_1d(a: u64, b: u64) -> bool {
    let da = decode_key(&a, &Dimensions::One);
    let db = decode_key(&b, &Dimensions::One);
    let (sa, ea) = (da[0] << (4 - da[1]), (da[0] + 1) << (4 - da[1]));
    let (sb, eb) = (db[0] << (4 - db[1]), (db[0] + 1) << (4 - db[1]));
    sa <= eb && sb <= ea
}

fn set(keys: &[u64]) -> HashSet<u64> {
    keys.iter().copied().collect()
}

#[test]
fn adaptive_lists_of_a_small_binary_tree() {
    let tree = set(&[key1(0, 0), key1(0, 1), key1(1, 1), key1(0, 2), key1(1, 2)]);
    let leaves = set(&[key1(1, 1), key1(0, 2), key1(1, 2)]);
    let (u, v, x, w) =
        get_interaction_lists_adaptive(&tree, &leaves, &Dimensions::One, &adjacent_1d);
    let mut expected_u = HashMap::new();
    expected_u.insert(key1(1, 1), set(&[key1(1, 1), key1(1, 2)]));
    expected_u.insert(key1(0, 2), set(&[key1(0, 2), key1(1, 2)]));
    expected_u.insert(key1(1, 2), set(&[key1(1, 2), key1(0, 2), key1(1, 1)]));
    assert_eq!(u, expected_u);
    assert!(v.is_empty());
    let mut expected_w = HashMap::new();
    expected_w.insert(key1(1, 1), set(&[key1(0, 2)]));
    assert_eq!(w, expected_w);
    let mut expected_x = HashMap::new();
    expected_x.insert(key1(0, 2), set(&[key1(1, 1)]));
    assert_eq!(x, expected_x);
}

#[test]
fn adaptive_v_lists_hold_separated_cousins() {
    let tree = set(&[
        key1(0, 0),
        key1(0, 1),
        key1(1, 1),
        key1(0, 2),
        key1(1, 2),
        key1(2, 2),
        key1(3, 2),
    ]);
    let leaves = set(&[key1(0, 2), key1(1, 2), key1(2, 2), key1(3, 2)]);
    let (u, v, x, w) =
        get_interaction_lists_adaptive(&tree, &leaves, &Dimensions::One, &adjacent_1d);
    assert_eq!(v.get(&key1(0, 2)), Some(&set(&[key1(2, 2), key1(3, 2)])));
    assert_eq!(v.get(&key1(1, 2)), Some(&set(&[key1(3, 2)])));
    assert_eq!(v.get(&key1(2, 2)), Some(&set(&[key1(0, 2)])));
    assert_eq!(v.get(&key1(3, 2)), Some(&set(&[key1(0, 2), key1(1, 2)])));
    assert_eq!(v.len(), 4);
    assert_eq!(u.get(&key1(1, 2)), Some(&set(&[key1(0, 2), key1(1, 2), key1(2, 2)])));
    assert!(w.is_empty());
    assert!(x.is_empty());
}

#[test]
fn regular_lists_use_listed_children_with_points() {
    let tree = set(&[
        key1(0, 0),
        key1(0, 1),
        key1(1, 1),
        key1(0, 2),
        key1(1, 2),
        key1(2, 2),
        key1(3, 2),
    ]);
    let leaves = set(&[key1(0, 2), key1(1, 2), key1(2, 2), key1(3, 2)]);
    let mut children = HashMap::new();
    children.insert(key1(0, 0), vec![key1(0, 1), key1(1, 1)]);
    children.insert(key1(0, 1), vec![key1(0, 2), key1(1, 2)]);
    children.insert(key1(1, 1), vec![key1(2, 2), key1(3, 2)]);
    let mut points: HashMap<u64, Vec<usize>> = HashMap::new();
    for (i, k) in [key1(0, 2), key1(1, 2), key1(2, 2), key1(3, 2)].iter().enumerate() {
        points.insert(*k, vec![i]);
    }
    let (u, v) = compute_u_v_list(
        key1(1, 2),
        &children,
        &points,
        &Dimensions::One,
        &tree,
        &leaves,
        &adjacent_1d,
    );
    assert_eq!(u, set(&[key1(0, 2), key1(1, 2), key1(2, 2)]));
    assert_eq!(v, set(&[key1(3, 2)]));
    let (u_lists, v_lists) = get_interaction_lists_regular(
        &tree,
        &leaves,
        &points,
        &children,
        &Dimensions::One,
        &adjacent_1d,
    );
    assert_eq!(u_lists.len(), 4);
    assert_eq!(v_lists.len(), 7);
    assert_eq!(u_lists.get(&key1(0, 2)), Some(&set(&[key1(0, 2), key1(1, 2)])));
    assert_eq!(v_lists.get(&key1(0, 2)), Some(&set(&[key1(2, 2), key1(3, 2)])));
    assert_eq!(v_lists.get(&key1(0, 1)), Some(&HashSet::new()));
}
