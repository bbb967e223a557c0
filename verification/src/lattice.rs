//! The sample lattice of regularised marching tetrahedra.
//!
//! Each sample point `ijk` has 14 lattice edges: the 7 positive directions
//! `+x, +y, +z, +xy, +yz, +xz, +xyz` (edges 0 to 6), which the point owns, and their
//! opposites (edges 7 to 13), owned by the sample point at their other end. Edge
//! `e + 7` is the reverse of edge `e`.
use vstd::prelude::*;

verus! {

/// The lattice offset of edge `e` (`e < 14`).
pub open spec fn edge_offset(e: int) -> (int, int, int) {
    let (x, y, z) = if e % 7 == 0 {
        (1, 0, 0)
    } else if e % 7 == 1 {
        (0, 1, 0)
    } else if e % 7 == 2 {
        (0, 0, 1)
    } else if e % 7 == 3 {
        (1, 1, 0)
    } else if e % 7 == 4 {
        (0, 1, 1)
    } else if e % 7 == 5 {
        (1, 0, 1)
    } else {
        (1, 1, 1)
    };
    if e < 7 {
        (x, y, z)
    } else {
        (-x, -y, -z)
    }
}

/// The reverse of edge `e`: the same lattice edge seen from its other endpoint.
pub open spec fn reverse_edge(e: int) -> int {
    (e + 7) % 14
}

/// Returns an edge offset as signed lattice coordinates.
pub fn edge_delta(e: usize) -> (d: [i64; 3])
    requires
        e < 14,
    ensures
        (d[0] as int, d[1] as int, d[2] as int) == edge_offset(e as int),
{
    let k = e % 7;
    let s: i64 = if e < 7 {
        1
    } else {
        -1
    };
    if k == 0 {
        [s, 0, 0]
    } else if k == 1 {
        [0, s, 0]
    } else if k == 2 {
        [0, 0, s]
    } else if k == 3 {
        [s, s, 0]
    } else if k == 4 {
        [0, s, s]
    } else if k == 5 {
        [s, 0, s]
    } else {
        [s, s, s]
    }
}

/// Adds two lattice-space coordinate triples.
pub fn add_ijk(a: [i64; 3], b: [i64; 3]) -> (r: [i64; 3])
    requires
        i64::MIN <= a[0] + b[0] <= i64::MAX,
        i64::MIN <= a[1] + b[1] <= i64::MAX,
        i64::MIN <= a[2] + b[2] <= i64::MAX,
    ensures
        r[0] == a[0] + b[0],
        r[1] == a[1] + b[1],
        r[2] == a[2] + b[2],
{
    [a[0] + b[0], a[1] + b[1], a[2] + b[2]]
}

/// The edge whose offset is `delta`, if any.
pub open spec fn edge_of_offset(delta: (int, int, int)) -> Option<int> {
    if exists|e: int| 0 <= e < 14 && edge_offset(e) == delta {
        Some(choose|e: int| 0 <= e < 14 && edge_offset(e) == delta)
    } else {
        None
    }
}

/// The 14 edge offsets are distinct.
pub proof fn lemma_edge_offsets_distinct(e1: int, e2: int)
    requires
        0 <= e1 < 14,
        0 <= e2 < 14,
        edge_offset(e1) == edge_offset(e2),
    ensures
        e1 == e2,
{
}

/// Finds the edge whose offset is `delta`.
pub fn delta_to_edge(delta: [i8; 3]) -> (e: Option<usize>)
    ensures
        e matches Some(k) ==> k < 14 && edge_offset(k as int) == (
            delta[0] as int,
            delta[1] as int,
            delta[2] as int,
        ),
        e is None ==> forall|k: int|
            0 <= k < 14 ==> edge_offset(k) != (delta[0] as int, delta[1] as int, delta[2] as int),
{
    let mut k: usize = 0;
    while k < 14
        invariant
            k <= 14,
            forall|j: int|
                0 <= j < k ==> edge_offset(j) != (delta[0] as int, delta[1] as int, delta[2] as int),
        decreases 14 - k,
    {
        let d = edge_delta(k);
        if d[0] == delta[0] as i64 && d[1] == delta[1] as i64 && d[2] == delta[2] as i64 {
            return Some(k);
        }
        k = k + 1;
    }
    None
}

/// The point reached from `ijk` along edge `e`.
pub open spec fn edge_endpoint(ijk: [i64; 3], e: int) -> [i64; 3] {
    let (x, y, z) = edge_offset(e);
    [(ijk[0] + x) as i64, (ijk[1] + y) as i64, (ijk[2] + z) as i64]
}

/// The point reached from `ijk` along edge `e` has coordinates that fit in `i64`.
pub open spec fn endpoint_fits(ijk: [i64; 3], e: int) -> bool {
    let (x, y, z) = edge_offset(e);
    &&& i64::MIN <= ijk[0] + x <= i64::MAX
    &&& i64::MIN <= ijk[1] + y <= i64::MAX
    &&& i64::MIN <= ijk[2] + z <= i64::MAX
}

/// Returns `ijk` followed by the points reached along the first `E - 1` edges.
///
/// `E` is at most 15: the sample point and its 14 lattice neighbours.
pub fn get_edge_points<const E: usize>(ijk: &[i64; 3]) -> (corners: [[i64; 3]; E])
    requires
        1 <= E <= 15,
        forall|e: int| 0 <= e < E - 1 ==> #[trigger] endpoint_fits(*ijk, e),
    ensures
        corners@[0] == *ijk,
        forall|k: int| 1 <= k < E ==> corners@[k] == edge_endpoint(*ijk, k - 1),
{
    let mut corners: [[i64; 3]; E] = [[0i64; 3]; E];
    corners[0] = [ijk[0], ijk[1], ijk[2]];
    assert(corners@[0] =~= *ijk);
    let mut d: usize = 0;
    while d < E - 1
        invariant
            d <= E - 1,
            E <= 15,
            forall|e: int| 0 <= e < E - 1 ==> #[trigger] endpoint_fits(*ijk, e),
            corners@.len() == E,
            corners@[0] == *ijk,
            forall|k: int| 1 <= k <= d ==> corners@[k] == edge_endpoint(*ijk, k - 1),
        decreases E - 1 - d,
    {
        let eds = edge_delta(d);
        assert(endpoint_fits(*ijk, d as int));
        let p = [ijk[0] + eds[0], ijk[1] + eds[1], ijk[2] + eds[2]];
        assert(p =~= edge_endpoint(*ijk, d as int));
        corners[d + 1] = p;
        d = d + 1;
    }
    corners
}

/// The owner of the lattice edge `(u, v)`, its other endpoint and its label among the
/// owner's 7 edges, when `v - u` is a lattice edge offset.
pub open spec fn edge_owner(u: [i64; 3], v: [i64; 3]) -> Option<([i64; 3], [i64; 3], usize)> {
    let delta = (
        ((v[0] - u[0]) as i8) as int,
        ((v[1] - u[1]) as i8) as int,
        ((v[2] - u[2]) as i8) as int,
    );
    match edge_of_offset(delta) {
        Some(e) => if e < 7 {
            Some((u, v, e as usize))
        } else {
            Some((v, u, reverse_edge(e) as usize))
        },
        None => None,
    }
}

/// Returns `(owner, other_endpoint, owned_label)` for the lattice edge `(u, v)`.
///
/// The coordinate differences are narrowed to 8 bits before being matched against the
/// edge offsets.
pub fn get_edge_owner(u: [i64; 3], v: [i64; 3]) -> (r: Option<([i64; 3], [i64; 3], usize)>)
    requires
        i64::MIN <= v[0] - u[0] <= i64::MAX,
        i64::MIN <= v[1] - u[1] <= i64::MAX,
        i64::MIN <= v[2] - u[2] <= i64::MAX,
    ensures
        r == edge_owner(u, v),
{
    let delta: [i8; 3] = [
        #[verifier::truncate]
        ((v[0] - u[0]) as i8),
        #[verifier::truncate]
        ((v[1] - u[1]) as i8),
        #[verifier::truncate]
        ((v[2] - u[2]) as i8),
    ];
    let ghost sd = (delta[0] as int, delta[1] as int, delta[2] as int);
    let eid = match delta_to_edge(delta) {
        Some(eid) => eid,
        None => {
            proof {
                assert(!exists|e: int| 0 <= e < 14 && edge_offset(e) == sd);
            }
            return None;
        },
    };
    proof {
        assert(exists|e: int| 0 <= e < 14 && edge_offset(e) == sd);
        let c = choose|e: int| 0 <= e < 14 && edge_offset(e) == sd;
        lemma_edge_offsets_distinct(c, eid as int);
    }
    if eid < 7 {
        Some((u, v, eid))
    } else {
        Some((v, u, (eid + 7) % 14))
    }
}

/// Returns an undirected vertex-edge key: the two ids in ascending order.
pub fn sorted_vertex_edge(a: usize, b: usize) -> (r: (usize, usize))
    ensures
        r.0 <= r.1,
        (r.0 == a && r.1 == b) || (r.0 == b && r.1 == a),
{
    if a <= b {
        (a, b)
    } else {
        (b, a)
    }
}

/// Returns the three vertex ids of triangle `tri_idx` in a row-major facet buffer.
pub fn facet_vertex_ids(facets: &[usize], tri_idx: usize) -> (r: Option<[usize; 3]>)
    requires
        tri_idx * 3 + 2 <= usize::MAX,
    ensures
        tri_idx * 3 + 2 < facets.len() ==> r == Some(
            [facets[3 * tri_idx], facets[3 * tri_idx + 1], facets[3 * tri_idx + 2]],
        ),
        tri_idx * 3 + 2 >= facets.len() ==> r is None,
{
    let base = tri_idx * 3;
    if base + 2 >= facets.len() {
        return None;
    }
    Some([facets[base], facets[base + 1], facets[base + 2]])
}

/// The reverse of an edge has the opposite offset.
pub proof fn lemma_reverse_offset(e: int)
    requires
        0 <= e < 14,
    ensures
        0 <= reverse_edge(e) < 14,
        reverse_edge(reverse_edge(e)) == e,
        edge_offset(reverse_edge(e)) == ({
            let (x, y, z) = edge_offset(e);
            (-x, -y, -z)
        }),
{
}

/// A lattice edge has the same owner, other endpoint and label whichever endpoint it is
/// looked up from (for endpoints closer than 128 along each axis, so that the narrowed
/// differences are exact).
pub proof fn lemma_edge_owner_symmetric(u: [i64; 3], v: [i64; 3])
    requires
        -128 < v[0] - u[0] < 128,
        -128 < v[1] - u[1] < 128,
        -128 < v[2] - u[2] < 128,
    ensures
        edge_owner(u, v) == edge_owner(v, u),
{
    let d = (v[0] - u[0], v[1] - u[1], v[2] - u[2]);
    let nd = (u[0] - v[0], u[1] - v[1], u[2] - v[2]);
    assert(((v[0] - u[0]) as i8) as int == d.0 && ((v[1] - u[1]) as i8) as int == d.1 && ((v[2]
        - u[2]) as i8) as int == d.2);
    assert(((u[0] - v[0]) as i8) as int == nd.0 && ((u[1] - v[1]) as i8) as int == nd.1 && ((u[2]
        - v[2]) as i8) as int == nd.2);
    if exists|e: int| 0 <= e < 14 && edge_offset(e) == d {
        let e = choose|e: int| 0 <= e < 14 && edge_offset(e) == d;
        lemma_reverse_offset(e);
        let r = reverse_edge(e);
        assert(edge_offset(r) == nd);
        let c = choose|c: int| 0 <= c < 14 && edge_offset(c) == nd;
        lemma_edge_offsets_distinct(c, r);
        assert(edge_of_offset(d) == Some(e));
        assert(edge_of_offset(nd) == Some(r));
    } else {
        if exists|e: int| 0 <= e < 14 && edge_offset(e) == nd {
            let c = choose|c: int| 0 <= c < 14 && edge_offset(c) == nd;
            lemma_reverse_offset(c);
            assert(edge_offset(reverse_edge(c)) == d);
        }
        assert(edge_of_offset(d) is None);
        assert(edge_of_offset(nd) is None);
    }
}

} // verus!
