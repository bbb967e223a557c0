use ferreus::morton::{
    decode_key, encode_morton_point, get_ancestors, get_child_index, get_children, get_level,
    get_neighbours, get_parent, get_siblings, Dimensions,
};

#[test]
fn level_is_low_fifteen_bits() {
    assert_eq!(get_level(&((5u64 << 15) | 3)), 3);
}

#[test]
fn encode_2d_interleaves_x_on_even_bits() {
    // x = 0b11, y = 0b01 -> body 0b0111
    assert_eq!(encode_morton_point(vec![3, 1, 2], &Dimensions::Two), (7u64 << 15) | 2);
}

#[test]
fn encode_3d_interleaves_three_coordinates() {
    // x = 1 -> bit 0, y = 2 -> bit 4, z = 4 -> bit 8
    assert_eq!(encode_morton_point(vec![1, 2, 4, 3], &Dimensions::Three), (273u64 << 15) | 3);
}

#[test]
fn encode_1d_keeps_coordinate() {
    assert_eq!(encode_morton_point(vec![5, 7], &Dimensions::One), (5u64 << 15) | 7);
}

#[test]
fn encode_uses_low_sixteen_bits_of_coordinates() {
    assert_eq!(
        encode_morton_point(vec![0x1_0001, 4], &Dimensions::One),
        encode_morton_point(vec![1, 4], &Dimensions::One)
    );
}

#[test]
fn decode_round_trips() {
    for dims in [Dimensions::One, Dimensions::Two, Dimensions::Three] {
        let anchor: Vec<u64> = match dims {
            Dimensions::One => vec![65535, 16],
            Dimensions::Two => vec![1234, 65535, 16],
            Dimensions::Three => vec![4321, 7, 65535, 16],
        };
        let key = encode_morton_point(anchor.clone(), &dims);
        assert_eq!(decode_key(&key, &dims), anchor);
    }
}

#[test]
fn parent_halves_coordinates() {
    let key = encode_morton_point(vec![3, 1, 2], &Dimensions::Two);
    let parent = get_parent(&key, &Dimensions::Two).unwrap();
    assert_eq!(parent, (1u64 << 15) | 1);
    assert_eq!(decode_key(&parent, &Dimensions::Two), vec![1, 0, 1]);
}

#[test]
fn root_has_no_parent() {
    assert_eq!(get_parent(&(0u64), &Dimensions::Three), None);
}

#[test]
fn children_and_child_index() {
    let key = (1u64 << 15) | 1;
    let children = get_children(&key, &Dimensions::One);
    assert_eq!(children, vec![(2u64 << 15) | 2, (3u64 << 15) | 2]);
    for (i, child) in children.iter().enumerate() {
        assert_eq!(get_child_index(child, &Dimensions::One), i);
        assert_eq!(get_parent(child, &Dimensions::One), Some(key));
    }
}

#[test]
fn octree_has_eight_children_with_their_parent() {
    let key = encode_morton_point(vec![5, 6, 7, 3], &Dimensions::Three);
    let children = get_children(&key, &Dimensions::Three);
    assert_eq!(children.len(), 8);
    for (i, child) in children.iter().enumerate() {
        assert_eq!(get_level(child), 4);
        assert_eq!(get_child_index(child, &Dimensions::Three), i);
        assert_eq!(get_parent(child, &Dimensions::Three), Some(key));
    }
}

#[test]
fn siblings_include_the_key() {
    let key = encode_morton_point(vec![3, 1, 2], &Dimensions::Two);
    let siblings = get_siblings(&key, &Dimensions::Two);
    assert_eq!(siblings.len(), 4);
    assert_eq!(siblings[get_child_index(&key, &Dimensions::Two)], key);
    let parent = get_parent(&key, &Dimensions::Two);
    for s in siblings {
        assert_eq!(get_parent(&s, &Dimensions::Two), parent);
    }
}

#[test]
fn ancestors_go_up_to_the_root() {
    let key = encode_morton_point(vec![3, 1, 2], &Dimensions::Two);
    let ancestors = get_ancestors(&key, &Dimensions::Two);
    assert_eq!(ancestors.len(), 3);
    assert!(ancestors.contains(&key));
    assert!(ancestors.contains(&((1u64 << 15) | 1)));
    assert!(ancestors.contains(&0));
}

#[test]
fn neighbours_1d_stay_in_grid() {
    let key = (1u64 << 15) | 1;
    assert_eq!(get_neighbours(key, &Dimensions::One), vec![1]);
}

#[test]
fn neighbours_2d_corner_cell() {
    let key = 1u64;
    assert_eq!(get_neighbours(key, &Dimensions::Two), vec![65537, 32769, 98305]);
}

#[test]
fn neighbours_3d_interior_cell_has_26() {
    let key = encode_morton_point(vec![2, 2, 2, 3], &Dimensions::Three);
    let neighbours = get_neighbours(key, &Dimensions::Three);
    assert_eq!(neighbours.len(), 26);
    assert!(!neighbours.contains(&key));
    for n in neighbours {
        let a = decode_key(&n, &Dimensions::Three);
        assert_eq!(a[3], 3);
        for c in 0..3 {
            assert!(a[c] >= 1 && a[c] <= 3);
        }
    }
}
