use ferreus::cap_selection::{open_boundary_edges, select_closed_plus};

#[test]
fn flood_crosses_shared_edges() {
    let tris = [[0, 1, 2], [1, 3, 2], [3, 4, 2], [5, 6, 7]];
    assert_eq!(select_closed_plus(&tris, 8, &[], &[0]), vec![true, true, true, false]);
}

#[test]
fn barrier_edges_stop_the_flood() {
    let tris = [[0, 1, 2], [1, 3, 2], [3, 4, 2]];
    assert_eq!(select_closed_plus(&tris, 5, &[(2, 1)], &[0]), vec![true, false, false]);
    assert_eq!(select_closed_plus(&tris, 5, &[(3, 2)], &[0]), vec![true, true, false]);
}

#[test]
fn no_seeds_selects_nothing() {
    let tris = [[0, 1, 2], [1, 3, 2]];
    assert_eq!(select_closed_plus(&tris, 4, &[], &[]), vec![false, false]);
}

#[test]
fn every_seed_is_selected() {
    let tris = [[0, 1, 2], [3, 4, 5], [6, 7, 8]];
    assert_eq!(select_closed_plus(&tris, 9, &[(0, 1)], &[2, 0]), vec![true, false, true]);
}

#[test]
fn open_boundary_of_two_triangles() {
    let facets = [0, 1, 2, 1, 3, 2];
    assert_eq!(
        open_boundary_edges(&facets, 4),
        vec![(0, 1), (2, 0), (1, 3), (3, 2)]
    );
}

#[test]
fn closed_tetrahedron_has_no_open_boundary() {
    let facets = [0, 2, 1, 0, 1, 3, 1, 2, 3, 2, 0, 3];
    assert_eq!(open_boundary_edges(&facets, 4), Vec::<(usize, usize)>::new());
}

#[test]
fn trailing_partial_facet_is_ignored() {
    let facets = [0, 1, 2, 7, 8];
    assert_eq!(open_boundary_edges(&facets, 9), vec![(0, 1), (1, 2), (2, 0)]);
}

#[test]
fn edge_shared_three_times_is_not_open() {
    let facets = [0, 1, 2, 1, 0, 3, 0, 1, 4];
    assert_eq!(
        open_boundary_edges(&facets, 5),
        vec![(1, 2), (2, 0), (0, 3), (3, 1), (1, 4), (4, 0)]
    );
}
