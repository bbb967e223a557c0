use ferreus::boundary_closure::{
    box_faces, keep_cap_triangle, push_unique, reverse_winding, sorted_pair, BoundaryClosure,
    BoundaryEdge, BoxFace, FaceMask,
};

#[test]
fn face_indices_and_axes() {
    let faces = box_faces();
    for (i, f) in faces.iter().enumerate() {
        assert_eq!(f.index(), i);
    }
    assert_eq!(BoxFace::YMax.index(), 3);
    assert_eq!(BoxFace::XMin.uv_axes(), [1, 2]);
    assert_eq!(BoxFace::ZMin.uv_axes(), [0, 1]);
    assert_eq!(BoxFace::XMax.grid_ijk(2, 3, [4, 5, 6]), [4, 2, 3]);
    assert_eq!(BoxFace::YMin.grid_ijk(2, 3, [4, 5, 6]), [2, 0, 3]);
    assert!(BoxFace::XMax.ccw_is_outward());
    assert!(!BoxFace::XMin.ccw_is_outward());
}

#[test]
fn face_mask_operations() {
    let mut m = FaceMask::default();
    assert!(m.is_empty());
    m.insert(BoxFace::XMin);
    m.insert(BoxFace::ZMax);
    m.insert(BoxFace::ZMax);
    assert!(m.contains(BoxFace::XMin));
    assert!(m.contains(BoxFace::ZMax));
    assert!(!m.contains(BoxFace::YMin));
    assert_eq!(m.len(), 2);
    assert!(!m.is_empty());
    let e = BoundaryEdge { faces: m, a: 1, b: 2 };
    assert!(e.on_face(BoxFace::ZMax));
    assert!(!e.on_face(BoxFace::ZMin));
}

#[test]
fn push_unique_and_sorted_pair() {
    let mut v = vec![3, 1];
    push_unique(&mut v, 1);
    push_unique(&mut v, 7);
    assert_eq!(v, vec![3, 1, 7]);
    assert_eq!(sorted_pair(9, 4), (4, 9));
}

#[test]
fn closure_modes_keep_complementary_caps() {
    for side in [false, true] {
        assert!(!keep_cap_triangle(BoundaryClosure::Open, side));
        assert_ne!(
            keep_cap_triangle(BoundaryClosure::ClosePositive, side),
            keep_cap_triangle(BoundaryClosure::CloseNegative, side)
        );
    }
    assert!(keep_cap_triangle(BoundaryClosure::ClosePositive, true));
}

#[test]
fn reverse_winding_twice_is_identity() {
    let mut f = vec![0, 1, 2, 3, 4, 5, 6];
    reverse_winding(&mut f);
    assert_eq!(f, vec![0, 2, 1, 3, 5, 4, 6]);
    reverse_winding(&mut f);
    assert_eq!(f, vec![0, 1, 2, 3, 4, 5, 6]);
}

#[test]
fn mask_len_counts_every_set_bit() {
    assert_eq!(FaceMask(0).len(), 0);
    assert_eq!(FaceMask(0b0010_0001).len(), 2);
    assert_eq!(FaceMask(0b1100_0000).len(), 2);
    assert_eq!(FaceMask(0xff).len(), 8);
}
