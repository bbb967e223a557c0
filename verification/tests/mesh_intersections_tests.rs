//! The self-intersection scenarios of a triangle mesh. The candidate pairs (all ordered
//! pairs of facets whose bounding boxes overlap) and the geometric outcomes of each
//! (degeneracy, the triangle-triangle test, coincident vertices, piercing edges,
//! near-coplanarity) are computed here in floating point; the library judges the pairs
//! and collects the ids of the intersecting triangles.

use ferreus::mesh_intersections::{get_intersecting_triangles, PairGeometry};

const TOLERANCE: f64 = 1.0e-8;
const EPSILON: f64 = 1E-6;

type P = [f64; 3];
type Tri = [P; 3];

fn sub(a: P, b: P) -> P {
    [a[0] - b[0], a[1] - b[1], a[2] - b[2]]
}

fn dot(a: P, b: P) -> f64 {
    a[0] * b[0] + a[1] * b[1] + a[2] * b[2]
}

fn cross(a: P, b: P) -> P {
    [a[1] * b[2] - a[2] * b[1], a[2] * b[0] - a[0] * b[2], a[0] * b[1] - a[1] * b[0]]
}

fn norm(a: P) -> f64 {
    dot(a, a).sqrt()
}

fn normal(t: Tri) -> P {
    cross(sub(t[1], t[0]), sub(t[2], t[0]))
}

fn close_to(a: P, b: P, tol: f64) -> bool {
    norm(sub(a, b)) <= tol
}

fn is_degenerate(t: Tri, tol: f64) -> bool {
    norm(normal(t)) <= tol
}

fn geometric_shared_vertex_count(a: Tri, b: Tri, tol: f64) -> usize {
    let mut used_b = [false; 3];
    let mut count = 0;
    for pa in a {
        for (idx, pb) in b.iter().enumerate() {
            if !used_b[idx] && close_to(pa, *pb, tol) {
                used_b[idx] = true;
                count += 1;
                break;
            }
        }
    }
    count
}

/// Whether the segment crosses the plane of `t` strictly and meets `t` strictly inside.
fn segment_pierces_interior(t: Tri, p0: P, p1: P, tol: f64) -> bool {
    let n = normal(t);
    let len = norm(n);
    if len <= tol {
        return false;
    }
    let d0 = dot(n, sub(p0, t[0])) / len;
    let d1 = dot(n, sub(p1, t[0])) / len;
    if d0.abs() <= tol || d1.abs() <= tol || d0 * d1 > 0.0 {
        return false;
    }
    let s = d0 / (d0 - d1);
    let x = [
        p0[0] + s * (p1[0] - p0[0]),
        p0[1] + s * (p1[1] - p0[1]),
        p0[2] + s * (p1[2] - p0[2]),
    ];
    let area = dot(n, n);
    let w0 = dot(cross(sub(t[1], x), sub(t[2], x)), n) / area;
    let w1 = dot(cross(sub(t[2], x), sub(t[0], x)), n) / area;
    let w2 = dot(cross(sub(t[0], x), sub(t[1], x)), n) / area;
    w0 > tol && w1 > tol && w2 > tol
}

fn opposite_edge(t: Tri, vertex_idx: usize) -> (P, P) {
    (t[(vertex_idx + 1) % 3], t[(vertex_idx + 2) % 3])
}

fn shared_vertex_extra_crossing(a: Tri, b: Tri, tol: f64) -> bool {
    for i in 0..3 {
        for j in 0..3 {
            if !close_to(a[i], b[j], tol) {
                continue;
            }
            let (a0, a1) = opposite_edge(a, i);
            let (b0, b1) = opposite_edge(b, j);
            return segment_pierces_interior(b, a0, a1, tol) || segment_pierces_interior(a, b0, b1, tol);
        }
    }
    false
}

fn max_plane_distance_to(a: Tri, b: Tri) -> f64 {
    let n = normal(a);
    let len = norm(n);
    b.iter().map(|v| (dot(n, sub(*v, a[0])) / len).abs()).fold(0.0, f64::max)
}

fn sort_pair(a: f64, b: f64) -> (f64, f64) {
    if a > b { (b, a) } else { (a, b) }
}

fn isect(vv0: f64, vv1: f64, vv2: f64, d0: f64, d1: f64, d2: f64) -> (f64, f64) {
    (vv0 + (vv1 - vv0) * d0 / (d0 - d1), vv0 + (vv2 - vv0) * d0 / (d0 - d2))
}

#[allow(clippy::too_many_arguments)]
fn intervals(vv: [f64; 3], d: [f64; 3], d0d1: f64, d0d2: f64) -> Option<(f64, f64)> {
    let [vv0, vv1, vv2] = vv;
    let [d0, d1, d2] = d;
    if d0d1 > 0.0 {
        Some(isect(vv2, vv0, vv1, d2, d0, d1))
    } else if d0d2 > 0.0 {
        Some(isect(vv1, vv0, vv2, d1, d0, d2))
    } else if d1 * d2 > 0.0 || d0 != 0.0 {
        Some(isect(vv0, vv1, vv2, d0, d1, d2))
    } else if d1 != 0.0 {
        Some(isect(vv1, vv0, vv2, d1, d0, d2))
    } else if d2 != 0.0 {
        Some(isect(vv2, vv0, vv1, d2, d0, d1))
    } else {
        None
    }
}

/// Möller's interval test for two triangles that are not coplanar.
fn tri_tri_intersect(t1: Tri, t2: Tri) -> bool {
    let n1 = normal(t1);
    let d1 = -dot(n1, t1[0]);
    let du = [dot(n1, t2[0]) + d1, dot(n1, t2[1]) + d1, dot(n1, t2[2]) + d1];
    if du[0] * du[1] > 0.0 && du[0] * du[2] > 0.0 {
        return false;
    }
    let n2 = normal(t2);
    let d2 = -dot(n2, t2[0]);
    let dv = [dot(n2, t1[0]) + d2, dot(n2, t1[1]) + d2, dot(n2, t1[2]) + d2];
    if dv[0] * dv[1] > 0.0 && dv[0] * dv[2] > 0.0 {
        return false;
    }
    let dir = cross(n1, n2);
    if dot(dir, dir) <= EPSILON * EPSILON {
        return false;
    }
    let mut index = 0;
    if dir[1].abs() > dir[index].abs() {
        index = 1;
    }
    if dir[2].abs() > dir[index].abs() {
        index = 2;
    }
    let Some((a0, a1)) = intervals(
        [t1[0][index], t1[1][index], t1[2][index]],
        dv,
        dv[0] * dv[1],
        dv[0] * dv[2],
    ) else {
        return false;
    };
    let Some((b0, b1)) = intervals(
        [t2[0][index], t2[1][index], t2[2][index]],
        du,
        du[0] * du[1],
        du[0] * du[2],
    ) else {
        return false;
    };
    let (a0, a1) = sort_pair(a0, a1);
    let (b0, b1) = sort_pair(b0, b1);
    a1.min(b1) - a0.max(b0) > EPSILON
}

fn aabbs_overlap(a: Tri, b: Tri) -> bool {
    (0..3).all(|c| {
        let amin = a.iter().map(|p| p[c]).fold(f64::INFINITY, f64::min);
        let amax = a.iter().map(|p| p[c]).fold(f64::NEG_INFINITY, f64::max);
        let bmin = b.iter().map(|p| p[c]).fold(f64::INFINITY, f64::min);
        let bmax = b.iter().map(|p| p[c]).fold(f64::NEG_INFINITY, f64::max);
        amin <= bmax && bmin <= amax
    })
}

fn pair_geometry(a: Tri, b: Tri) -> PairGeometry {
    PairGeometry {
        degenerate: is_degenerate(a, TOLERANCE) || is_degenerate(b, TOLERANCE),
        intersects: tri_tri_intersect(a, b),
        geometric_shared: geometric_shared_vertex_count(a, b, TOLERANCE),
        shared_vertex_crossing: shared_vertex_extra_crossing(a, b, TOLERANCE),
        near_coplanar: max_plane_distance_to(a, b).min(max_plane_distance_to(b, a)) <= TOLERANCE,
    }
}

fn intersecting_triangles(vertices: &[[f64; 3]], facets: &[[usize; 3]]) -> Vec<usize> {
    let tri = |f: &[usize; 3]| [vertices[f[0]], vertices[f[1]], vertices[f[2]]];
    let mut pairs = Vec::new();
    let mut geometry = Vec::new();
    for a in 0..facets.len() {
        for b in 0..facets.len() {
            let (ta, tb) = (tri(&facets[a]), tri(&facets[b]));
            if !aabbs_overlap(ta, tb) {
                continue;
            }
            pairs.push((a, b));
            geometry.push(pair_geometry(ta, tb));
        }
    }
    get_intersecting_triangles(facets, &pairs, &geometry)
}

fn assert_intersections(vertices: &[[f64; 3]], facets: &[[usize; 3]], expected: &[usize]) {
    assert_eq!(intersecting_triangles(vertices, facets), expected);
}

#[test]
fn shared_vertex_only_returns_no_ids() {
    let vertices = [
        [0.0, 0.0, 0.0],
        [1.0, 0.0, 0.0],
        [0.0, 1.0, 0.0],
        [0.0, 0.0, 1.0],
        [0.0, 1.0, 1.0],
    ];
    assert_intersections(&vertices, &[[0, 1, 2], [0, 3, 4]], &[]);
}

#[test]
fn shared_vertex_plus_interior_crossing_returns_both_ids() {
    let vertices = [
        [0.0, 0.0, 0.0],
        [1.0, 0.0, 0.0],
        [0.0, 1.0, 0.0],
        [0.75, -0.25, -1.0],
        [-0.25, 0.75, 1.0],
    ];
    assert_intersections(&vertices, &[[0, 1, 2], [0, 3, 4]], &[0, 1]);
}

#[test]
fn shared_edge_returns_no_ids() {
    let vertices = [[0.0, 0.0, 0.0], [1.0, 0.0, 0.0], [0.0, 1.0, 0.0], [0.0, 0.0, 1.0]];
    assert_intersections(&vertices, &[[0, 1, 2], [0, 1, 3]], &[]);
}

#[test]
fn coplanar_shared_edge_quad_returns_no_ids() {
    let vertices = [[0.0, 0.0, 0.0], [1.0, 0.0, 0.0], [1.0, 1.0, 0.0], [0.0, 1.0, 0.0]];
    assert_intersections(&vertices, &[[0, 1, 2], [0, 2, 3]], &[]);
}

#[test]
fn coplanar_shared_vertex_returns_no_ids() {
    let vertices = [
        [0.0, 0.0, 0.0],
        [1.0, 0.0, 0.0],
        [0.0, 1.0, 0.0],
        [-1.0, 0.0, 0.0],
        [0.0, -1.0, 0.0],
    ];
    assert_intersections(&vertices, &[[0, 1, 2], [0, 3, 4]], &[]);
}

#[test]
fn nearly_coplanar_shared_edge_returns_no_ids() {
    let vertices = [[0.0, 0.0, 0.0], [1.0, 0.0, 0.0], [0.0, 1.0, 0.0], [0.0, 0.0, 1.0e-10]];
    assert_intersections(&vertices, &[[0, 1, 2], [0, 1, 3]], &[]);
}

#[test]
fn geometric_shared_edge_with_distinct_indices_returns_no_ids() {
    let vertices = [
        [0.0, 0.0, 0.0],
        [1.0, 0.0, 0.0],
        [0.0, 1.0, 0.0],
        [0.0, 0.0, 0.0],
        [1.0, 0.0, 0.0],
        [0.0, 0.0, 1.0],
    ];
    assert_intersections(&vertices, &[[0, 1, 2], [3, 4, 5]], &[]);
}

#[test]
fn geometric_shared_vertex_plus_interior_crossing_returns_both_ids() {
    let vertices = [
        [0.0, 0.0, 0.0],
        [1.0, 0.0, 0.0],
        [0.0, 1.0, 0.0],
        [0.0, 0.0, 0.0],
        [0.75, -0.25, -1.0],
        [-0.25, 0.75, 1.0],
    ];
    assert_intersections(&vertices, &[[0, 1, 2], [3, 4, 5]], &[0, 1]);
}

#[test]
fn shared_edge_plus_positive_area_overlap_returns_no_ids() {
    let vertices = [[0.0, 0.0, 0.0], [1.0, 0.0, 0.0], [0.0, 1.0, 0.0], [0.2, 0.2, 0.0]];
    assert_intersections(&vertices, &[[0, 1, 2], [0, 1, 3]], &[]);
}

#[test]
fn fan_around_shared_vertex_returns_no_ids() {
    let vertices = [
        [0.0, 0.0, 0.0],
        [1.0, 0.0, 0.0],
        [0.0, 1.0, 0.0],
        [-1.0, 0.0, 0.0],
        [0.0, -1.0, 0.0],
        [0.0, 0.0, 1.0],
    ];
    assert_intersections(&vertices, &[[0, 1, 5], [0, 2, 5], [0, 3, 5], [0, 4, 5]], &[]);
}

#[test]
fn overlapping_aabbs_without_intersection_returns_no_ids() {
    let vertices = [
        [0.0, 0.0, 0.0],
        [1.0, 0.0, 0.0],
        [0.0, 1.0, 0.0],
        [0.2, 0.2, 0.2],
        [0.8, 0.2, 0.2],
        [0.2, 0.8, 0.2],
    ];
    assert_intersections(&vertices, &[[0, 1, 2], [3, 4, 5]], &[]);
}

#[test]
fn degenerate_triangle_returns_no_ids() {
    let vertices = [
        [0.0, 0.0, 0.0],
        [1.0, 0.0, 0.0],
        [2.0, 0.0, 0.0],
        [0.0, 0.0, -1.0],
        [0.0, 1.0, 1.0],
        [1.0, 0.0, 1.0],
    ];
    assert_intersections(&vertices, &[[0, 1, 2], [3, 4, 5]], &[]);
}

#[test]
fn piercing_triangle_returns_both_ids() {
    let vertices = [
        [0.0, 0.0, 0.0],
        [1.0, 0.0, 0.0],
        [0.0, 1.0, 0.0],
        [0.25, 0.25, -1.0],
        [0.25, 0.25, 1.0],
        [0.75, 0.25, 0.0],
    ];
    assert_intersections(&vertices, &[[0, 1, 2], [3, 4, 5]], &[0, 1]);
}

#[test]
fn non_adjacent_triangles_crossing_segment_return_both_ids() {
    let vertices = [
        [0.0, 0.0, 0.0],
        [1.0, 0.0, 0.0],
        [0.0, 1.0, 0.0],
        [0.2, 0.2, -1.0],
        [0.8, 0.2, 1.0],
        [0.2, 0.8, 1.0],
    ];
    assert_intersections(&vertices, &[[0, 1, 2], [3, 4, 5]], &[0, 1]);
}

#[test]
fn edge_interior_crossing_returns_both_ids() {
    let vertices = [
        [0.0, 0.0, 0.0],
        [1.0, 0.0, 0.0],
        [0.0, 1.0, 0.0],
        [0.5, -0.2, -1.0],
        [0.5, 0.8, 1.0],
        [0.5, -0.2, 1.0],
    ];
    assert_intersections(&vertices, &[[0, 1, 2], [3, 4, 5]], &[0, 1]);
}

#[test]
fn non_adjacent_coplanar_positive_area_overlap_returns_no_ids() {
    let vertices = [
        [0.0, 0.0, 0.0],
        [1.0, 0.0, 0.0],
        [0.0, 1.0, 0.0],
        [0.25, 0.25, 0.0],
        [1.25, 0.25, 0.0],
        [0.25, 1.25, 0.0],
    ];
    assert_intersections(&vertices, &[[0, 1, 2], [3, 4, 5]], &[]);
}
