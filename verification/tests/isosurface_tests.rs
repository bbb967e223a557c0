use ferreus::isosurface::{
    add_facet_cluster_owners, collect_invalid_topology_cluster_owners, edge_ref_get,
    edge_ref_set, rollback_cluster_owners, split_candidates, tet_case, tet_triangles, EdgeRefMap,
    OwnerVertices,
};
use ferreus::linear_tree::get_points_to_leaves_map;
use ferreus::mesh_intersections::{
    collect_intersecting_ids, is_true_self_intersection, shared_vertex_count, PairGeometry,
};
use std::collections::HashMap;

#[test]
fn edge_ref_reads_back_from_either_end() {
    let mut m = EdgeRefMap::new();
    edge_ref_set(&mut m, [0, 0, 0], [1, 0, 0], 7);
    assert_eq!(edge_ref_get(&m, [1, 0, 0], [0, 0, 0]), Some(7));
    assert_eq!(edge_ref_get(&m, [0, 0, 0], [1, 0, 0]), Some(7));
    edge_ref_set(&mut m, [1, 0, 0], [0, 0, 0], 9);
    assert_eq!(edge_ref_get(&m, [0, 0, 0], [1, 0, 0]), Some(9));
    assert_eq!(edge_ref_get(&m, [0, 0, 0], [0, 1, 0]), None);
    edge_ref_set(&mut m, [0, 0, 0], [2, 0, 0], 1);
    assert_eq!(edge_ref_get(&m, [0, 0, 0], [2, 0, 0]), None);
}

#[test]
fn non_manifold_owners() {
    let facets = vec![0, 1, 2, 0, 1, 3, 1, 0, 4, 5, 6, 7];
    let mut owners = HashMap::new();
    owners.insert(2usize, [1i64, 1, 1]);
    owners.insert(7usize, [2i64, 2, 2]);
    owners.insert(0usize, [0i64, 0, 0]);
    let mut bad = collect_invalid_topology_cluster_owners(&facets, &owners);
    bad.sort();
    assert_eq!(bad, vec![[0, 0, 0], [1, 1, 1]]);
    let none = collect_invalid_topology_cluster_owners(&[0, 1, 2, 0, 2, 3], &owners);
    assert!(none.is_empty());
}

#[test]
fn facet_owners_are_added_once() {
    let mut owners = HashMap::new();
    owners.insert(0usize, [3i64, 3, 3]);
    owners.insert(1usize, [3i64, 3, 3]);
    let mut bad = vec![[9i64, 9, 9]];
    add_facet_cluster_owners(&[0, 1, 2], 0, &owners, &mut bad);
    assert_eq!(bad, vec![[9, 9, 9], [3, 3, 3]]);
    add_facet_cluster_owners(&[0, 1, 2], 1, &owners, &mut bad);
    assert_eq!(bad.len(), 2);
}

#[test]
fn shared_ids_and_pair_verdicts() {
    assert_eq!(shared_vertex_count(&[0, 1, 2], &[0, 1, 3]), 2);
    assert_eq!(shared_vertex_count(&[0, 1, 2], &[3, 4, 5]), 0);
    let crossing = PairGeometry {
        degenerate: false,
        intersects: true,
        geometric_shared: 0,
        shared_vertex_crossing: false,
        near_coplanar: false,
    };
    assert!(is_true_self_intersection(&[0, 1, 2], &[3, 4, 5], &crossing));
    assert!(!is_true_self_intersection(&[0, 1, 2], &[0, 1, 3], &crossing));
    assert!(!is_true_self_intersection(&[0, 1, 2], &[0, 3, 4], &crossing));
    let coplanar = PairGeometry { near_coplanar: true, ..crossing };
    assert!(!is_true_self_intersection(&[0, 1, 2], &[3, 4, 5], &coplanar));
    let degenerate = PairGeometry { degenerate: true, ..crossing };
    assert!(!is_true_self_intersection(&[0, 1, 2], &[3, 4, 5], &degenerate));
}

#[test]
fn intersecting_ids_sorted_unique() {
    assert_eq!(
        collect_intersecting_ids(&[(3, 1), (0, 2), (1, 3)], &[true, false, true]),
        vec![1, 3]
    );
    assert!(collect_intersecting_ids(&[], &[]).is_empty());
}

#[test]
fn points_grouped_by_leaf() {
    let m = get_points_to_leaves_map(&[5, 3, 5, 5]);
    assert_eq!(m.len(), 2);
    assert_eq!(m[&5], vec![0, 2, 3]);
    assert_eq!(m[&3], vec![1]);
}

#[test]
fn candidates_on_an_edge_of_three_triangles_are_split() {
    // Edge (0, 1) is used by three triangles; vertex 1 clusters only one lattice edge.
    let facets = [0, 1, 2, 0, 1, 3, 1, 0, 4];
    assert_eq!(split_candidates(&facets, &[2, 1, 3, 2, 2]), vec![true, false, false, false, false]);
    // Two triangles per edge at most: nothing is split.
    let manifold = [0, 1, 2, 1, 0, 3];
    assert_eq!(split_candidates(&manifold, &[2, 2, 2, 2]), vec![false; 4]);
    assert_eq!(split_candidates(&[], &[5, 1]), vec![false, false]);
}

#[test]
fn tet_case_sets_a_bit_per_inside_corner() {
    assert_eq!(tet_case(&[false, false, false, false]), 0);
    assert_eq!(tet_case(&[true, false, true, false]), 5);
    assert_eq!(tet_case(&[true, true, true, true]), 15);
}

#[test]
fn tet_triangles_skip_unresolved_and_collapsed_corners() {
    let ids = [Some(7), Some(8), Some(9), None, Some(1), Some(8)];
    let row = [[0u8, 1, 2], [3, 4, 5], [0, 1, 5], [2, 4, 0]];
    assert_eq!(tet_triangles(&row, &ids), vec![[7, 8, 9], [9, 1, 7]]);
    assert_eq!(tet_triangles(&[], &ids), Vec::<[usize; 3]>::new());
}

#[test]
fn rollback_unclusters_the_vertices_of_bad_owners() {
    let a = [0i64, 0, 0];
    let b = [1i64, 0, 0];
    let c = [5i64, 5, 5];
    let mut owners = OwnerVertices::new();
    owners.add(a, 10);
    owners.add(a, 11);
    owners.add(b, 12);
    let e1 = ([0i64, 0, 0], [1i64, 0, 0]);
    let e2 = ([0i64, 0, 0], [0i64, 1, 0]);
    let e3 = ([1i64, 0, 0], [1i64, 1, 0]);
    let mut edges: HashMap<usize, Vec<([i64; 3], [i64; 3])>> = HashMap::new();
    edges.insert(10, vec![e1, e2]);
    edges.insert(12, vec![e3]);
    let mut vertex_owner: HashMap<usize, [i64; 3]> = HashMap::new();
    vertex_owner.insert(10, a);
    vertex_owner.insert(11, a);
    vertex_owner.insert(12, b);
    // Owner `c` owns nothing; owner `a` owns two vertices, one of them without edges.
    let (count, split) =
        rollback_cluster_owners(&[c, a], &mut owners, &mut edges, &mut vertex_owner);
    assert_eq!(count, 1);
    assert_eq!(split, vec![e1, e2]);
    assert!(!edges.contains_key(&10));
    assert!(edges.contains_key(&12));
    assert!(!vertex_owner.contains_key(&10));
    assert!(vertex_owner.contains_key(&11));
    assert!(vertex_owner.contains_key(&12));
    assert_eq!(owners.remove(&a), None);
    assert_eq!(owners.remove(&b), Some(vec![12]));
}
