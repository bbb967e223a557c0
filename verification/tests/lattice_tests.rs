use ferreus::lattice::{
    add_ijk, delta_to_edge, edge_delta, facet_vertex_ids, get_edge_owner, get_edge_points,
    sorted_vertex_edge,
};

#[test]
fn edge_deltas() {
    assert_eq!(edge_delta(0), [1, 0, 0]);
    assert_eq!(edge_delta(3), [1, 1, 0]);
    assert_eq!(edge_delta(6), [1, 1, 1]);
    assert_eq!(edge_delta(10), [-1, -1, 0]);
}

#[test]
fn deltas_map_back_to_edges() {
    for e in 0..14 {
        let d = edge_delta(e);
        assert_eq!(delta_to_edge([d[0] as i8, d[1] as i8, d[2] as i8]), Some(e));
    }
    assert_eq!(delta_to_edge([2, 0, 0]), None);
    assert_eq!(delta_to_edge([1, -1, 0]), None);
}

#[test]
fn edge_owner_is_the_same_from_both_ends() {
    let a = get_edge_owner([0, 0, 0], [1, 1, 1]);
    let b = get_edge_owner([1, 1, 1], [0, 0, 0]);
    assert_eq!(a, Some(([0, 0, 0], [1, 1, 1], 6)));
    assert_eq!(a, b);
    assert_eq!(get_edge_owner([4, 4, 4], [4, 3, 3]), Some(([4, 3, 3], [4, 4, 4], 4)));
    assert_eq!(get_edge_owner([0, 0, 0], [1, -1, 0]), None);
}

#[test]
fn edge_points() {
    let pts = get_edge_points::<3>(&[5, 5, 5]);
    assert_eq!(pts, [[5, 5, 5], [6, 5, 5], [5, 6, 5]]);
    let all = get_edge_points::<15>(&[0, 0, 0]);
    assert_eq!(all[14], [-1, -1, -1]);
}

#[test]
fn small_helpers() {
    assert_eq!(add_ijk([1, 2, 3], [-1, 0, 5]), [0, 2, 8]);
    assert_eq!(sorted_vertex_edge(5, 2), (2, 5));
    assert_eq!(sorted_vertex_edge(2, 5), (2, 5));
    assert_eq!(facet_vertex_ids(&[0, 1, 2, 3, 4, 5, 6], 1), Some([3, 4, 5]));
    assert_eq!(facet_vertex_ids(&[0, 1, 2, 3, 4, 5, 6], 2), None);
}

#[test]
fn edge_points_single_point_at_the_top_of_the_range() {
    assert_eq!(get_edge_points::<1>(&[i64::MAX, 0, 0]), [[i64::MAX, 0, 0]]);
    assert_eq!(get_edge_points::<1>(&[3, -2, 7]), [[3, -2, 7]]);
}

#[test]
fn cube_corners_from_the_bottom_of_the_range() {
    let m = i64::MIN;
    let corners = get_edge_points::<8>(&[m, m, m]);
    assert_eq!(
        corners,
        [
            [m, m, m],
            [m + 1, m, m],
            [m, m + 1, m],
            [m, m, m + 1],
            [m + 1, m + 1, m],
            [m, m + 1, m + 1],
            [m + 1, m, m + 1],
            [m + 1, m + 1, m + 1],
        ]
    );
}
