use ferreus::topology::{
    test_topology, connected_components_masks, do_not_cluster, is_flat_hole, lowbit,
    two_edge_indices,
    BitIndexIter, TopologyCase, ALL14_MASK,
};

fn edges(clusters: &[ferreus::topology::Cluster]) -> Vec<Vec<u8>> {
    clusters.iter().map(|c| c.edges.clone()).collect()
}

#[test]
fn lowbit_selects_lowest_set_bit() {
    assert_eq!(lowbit(0b10100), 0b100);
    assert_eq!(lowbit(0), 0);
    assert_eq!(lowbit(0x8000), 0x8000);
}

#[test]
fn bit_index_iter_yields_lowest_first() {
    let mut it = BitIndexIter::new(0b10100);
    assert_eq!(it.next(), Some(2));
    assert_eq!(it.next(), Some(4));
    assert_eq!(it.next(), None);
    assert_eq!(it.next(), None);
}

#[test]
fn components_of_neighbouring_edges() {
    // +x and +xy share a face
    assert_eq!(connected_components_masks(0b1001), vec![0b1001]);
}

#[test]
fn components_of_separate_edges() {
    // +x and +y do not share a face
    assert_eq!(connected_components_masks(0b11), vec![0b1, 0b10]);
}

#[test]
fn components_of_all_and_none() {
    assert_eq!(connected_components_masks(0xffff), vec![ALL14_MASK]);
    assert_eq!(connected_components_masks(0), Vec::<u16>::new());
}

#[test]
fn two_edges_found_only_for_two_bits() {
    assert_eq!(two_edge_indices(0b1010), Some([1, 3]));
    assert_eq!(two_edge_indices(0b1), None);
    assert_eq!(two_edge_indices(0b111), None);
    assert_eq!(two_edge_indices(0xc000 | 0b100), None);
}

#[test]
fn do_not_cluster_gives_singletons() {
    assert_eq!(edges(&do_not_cluster(0b101)), vec![vec![0], vec![2]]);
}

#[test]
fn no_intersections_is_simple() {
    let r = test_topology(0, true, false);
    assert_eq!(r.case, TopologyCase::SimpleSurface);
    assert!(r.iter_clusters().is_empty());
}

#[test]
fn clustering_not_asked() {
    let r = test_topology(0b11, false, false);
    assert_eq!(r.case, TopologyCase::DoNotCluster);
    assert_eq!(edges(&r.clusters), vec![vec![0], vec![1]]);
}

#[test]
fn closed_surface() {
    let r = test_topology(ALL14_MASK, true, false);
    assert_eq!(r.case, TopologyCase::ClosedSurface);
    assert_eq!(r.clusters.len(), 14);
}

#[test]
fn multi_surface() {
    let r = test_topology(0b11, true, false);
    assert_eq!(r.case, TopologyCase::MultiSurface);
    assert_eq!(edges(&r.clusters), vec![vec![0], vec![1]]);
}

#[test]
fn multi_hole() {
    let r = test_topology(0x3f7e, true, false);
    assert_eq!(r.case, TopologyCase::MultiHole);
    assert_eq!(r.clusters.len(), 12);
}

#[test]
fn flat_hole_and_simple_surface() {
    let r = test_topology(0b1001, true, true);
    assert_eq!(r.case, TopologyCase::FlatHole);
    assert_eq!(edges(&r.clusters), vec![vec![0], vec![3]]);
    let r = test_topology(0b1001, true, false);
    assert_eq!(r.case, TopologyCase::SimpleSurface);
    assert_eq!(edges(&r.clusters), vec![vec![0, 3]]);
}

#[test]
fn flat_hole_rows_need_their_masks_and_outcome() {
    let rows = [[0b0000_0011u16, 0b0000_1100u16]];
    assert!(is_flat_hole(0b1100, &rows, &[true]));
    assert!(!is_flat_hole(0b1100, &rows, &[false]));
    // An intersection on the first side rules the row out.
    assert!(!is_flat_hole(0b1101, &rows, &[true]));
    // Both edges of the other side must be intersected.
    assert!(!is_flat_hole(0b0100, &rows, &[true]));
    // A side naming three edges never applies.
    assert!(!is_flat_hole(0b1100, &[[0b0111, 0b1100]], &[true]));
    // Bits above the 14 edges are ignored.
    assert!(is_flat_hole(0b1100 | 0x8000, &rows, &[true]));
    assert!(!is_flat_hole(0b1_0000_1100, &[[0b11, 0b1100], [0b1_0000_0000, 0]], &[false, true]));
}
