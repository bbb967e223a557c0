//! Integer adjacency tests used when looking for mesh self-intersections.
use vstd::prelude::*;

verus! {

/// The number of vertex ids of `a` that also occur in `b`.
pub open spec fn shared_count(a: [usize; 3], b: [usize; 3]) -> nat {
    (if b@.contains(a[0]) { 1nat } else { 0nat }) + (if b@.contains(a[1]) { 1nat } else { 0nat })
        + (if b@.contains(a[2]) { 1nat } else { 0nat })
}

/// Counts the vertex ids of facet `a` that facet `b` also uses.
pub fn shared_vertex_count(a: &[usize; 3], b: &[usize; 3]) -> (n: usize)
    ensures
        n == shared_count(*a, *b),
{
    let mut n: usize = 0;
    let mut i: usize = 0;
    while i < 3
        invariant
            i <= 3,
            n <= i,
            n == (if i > 0 && b@.contains(a[0]) { 1nat } else { 0nat }) + (if i > 1 && b@.contains(
                a[1],
            ) {
                1nat
            } else {
                0nat
            }) + (if i > 2 && b@.contains(a[2]) { 1nat } else { 0nat }),
        decreases 3 - i,
    {
        let id = a[i];
        let found = b[0] == id || b[1] == id || b[2] == id;
        proof {
            if found {
                assert(b@[0] == id || b@[1] == id || b@[2] == id);
            } else {
                assert(!b@.contains(id)) by {
                    if b@.contains(id) {
                        let k = choose|k: int| 0 <= k < 3 && b@[k] == id;
                    }
                }
            }
        }
        if found {
            n = n + 1;
        }
        i = i + 1;
    }
    n
}

/// Outcomes of the geometric tests on a candidate pair of triangles whose bounding boxes
/// overlap.
#[derive(Clone, Copy, Debug, PartialEq, Eq, Structural)]
pub struct PairGeometry {
    /// Either triangle is degenerate.
    pub degenerate: bool,
    /// The broad triangle-triangle test reports contact or crossing.
    pub intersects: bool,
    /// The number of geometrically coincident vertices.
    pub geometric_shared: usize,
    /// An edge opposite a shared vertex pierces the interior of the other triangle.
    pub shared_vertex_crossing: bool,
    /// Either triangle lies within tolerance of the other's plane.
    pub near_coplanar: bool,
}

/// Whether a candidate pair is a true self-intersection rather than valid adjacency or
/// contact.
pub open spec fn true_self_intersection(a: [usize; 3], b: [usize; 3], g: PairGeometry) -> bool {
    let shared = shared_count(a, b);
    if g.degenerate || shared >= 2 || !g.intersects {
        false
    } else if shared == 1 {
        g.shared_vertex_crossing
    } else if g.geometric_shared >= 2 {
        false
    } else if g.geometric_shared == 1 {
        g.shared_vertex_crossing
    } else {
        !g.near_coplanar
    }
}

/// Classifies a candidate triangle pair from its vertex ids and the outcomes of the
/// geometric tests: degenerate triangles, pairs sharing an edge (two vertex ids, or two
/// coincident vertices) and pairs that do not touch are not self-intersections; a pair
/// sharing one vertex is one only if an opposite edge pierces the other triangle;
/// otherwise it is one unless the triangles are near-coplanar.
pub fn is_true_self_intersection(a_ids: &[usize; 3], b_ids: &[usize; 3], geometry: &PairGeometry) -> (r: bool)
    ensures
        r == true_self_intersection(*a_ids, *b_ids, *geometry),
{
    if geometry.degenerate {
        return false;
    }
    let shared = shared_vertex_count(a_ids, b_ids);
    if shared >= 2 {
        return false;
    }
    if !geometry.intersects {
        return false;
    }
    if shared == 1 {
        return geometry.shared_vertex_crossing;
    }
    if geometry.geometric_shared >= 2 {
        return false;
    }
    if geometry.geometric_shared == 1 {
        return geometry.shared_vertex_crossing;
    }
    !geometry.near_coplanar
}

/// The triangle ids of the pairs judged to be self-intersections.
pub open spec fn flagged(pairs: Seq<(usize, usize)>, verdicts: Seq<bool>, id: usize) -> bool {
    exists|k: int|
        0 <= k < pairs.len() && verdicts[k] && (#[trigger] pairs[k].0 == id || pairs[k].1 == id)
}

/// Collects the triangle ids of the candidate pairs judged to be self-intersections,
/// each once, in ascending order.
pub fn collect_intersecting_ids(pairs: &[(usize, usize)], verdicts: &[bool]) -> (ids: Vec<usize>)
    requires
        pairs.len() == verdicts.len(),
    ensures
        forall|p: int, q: int| 0 <= p < q < ids.len() ==> ids[p] < ids[q],
        forall|id: usize| #[trigger] ids@.contains(id) <==> flagged(pairs@, verdicts@, id),
{
    let mut ids: Vec<usize> = Vec::new();
    let mut k: usize = 0;
    while k < pairs.len()
        invariant
            k <= pairs.len(),
            pairs.len() == verdicts.len(),
            forall|p: int, q: int| 0 <= p < q < ids.len() ==> ids[p] < ids[q],
            forall|id: usize|
                #[trigger] ids@.contains(id) <==> flagged(pairs@.subrange(0, k as int), verdicts@.subrange(0, k as int), id),
        decreases pairs.len() - k,
    {
        let ghost before = ids@;
        if verdicts[k] {
            insert_sorted(&mut ids, pairs[k].0);
            insert_sorted(&mut ids, pairs[k].1);
        }
        proof {
            let ps = pairs@.subrange(0, k + 1);
            let vs = verdicts@.subrange(0, k + 1);
            let ps0 = pairs@.subrange(0, k as int);
            let vs0 = verdicts@.subrange(0, k as int);
            assert forall|id: usize| #[trigger] ids@.contains(id) <==> flagged(ps, vs, id) by {
                if flagged(ps, vs, id) {
                    let j = choose|j: int| 0 <= j < ps.len() && vs[j] && (#[trigger] ps[j].0 == id || ps[j].1 == id);
                    if j < k {
                        assert(0 <= j < k);
                        assert(k <= pairs@.len());
                        assert(ps0.len() == k);
                        assert(ps0[j] == pairs@[j]);
                        assert(ps[j] == pairs@[j]);
                        assert(vs0[j] == verdicts@[j]);
                        assert(vs[j] == verdicts@[j]);
                        assert(0 <= j < ps0.len() && vs0[j] && (ps0[j].0 == id || ps0[j].1 == id));
                        assert(flagged(ps0, vs0, id));
                    }
                }
                if flagged(ps0, vs0, id) {
                    let j = choose|j: int| 0 <= j < ps0.len() && vs0[j] && (#[trigger] ps0[j].0 == id || ps0[j].1 == id);
                    assert(ps0[j] == ps[j] && vs0[j] == vs[j]);
                    assert(flagged(ps, vs, id));
                }
                if verdicts[k as int] && (pairs[k as int].0 == id || pairs[k as int].1 == id) {
                    assert(ps[k as int] == pairs[k as int]);
                    assert(flagged(ps, vs, id));
                }
            }
        }
        k = k + 1;
    }
    assert(pairs@.subrange(0, pairs.len() as int) =~= pairs@);
    assert(verdicts@.subrange(0, verdicts.len() as int) =~= verdicts@);
    ids
}

/// Inserts `x` into a strictly increasing vector unless present.
fn insert_sorted(ids: &mut Vec<usize>, x: usize)
    requires
        forall|p: int, q: int| 0 <= p < q < old(ids).len() ==> old(ids)[p] < old(ids)[q],
    ensures
        forall|p: int, q: int| 0 <= p < q < final(ids).len() ==> final(ids)[p] < final(ids)[q],
        forall|y: usize| #[trigger] final(ids)@.contains(y) <==> (old(ids)@.contains(y) || y == x),
{
    let mut i: usize = 0;
    while i < ids.len() && ids[i] < x
        invariant
            i <= ids.len(),
            ids@ == old(ids)@,
            forall|p: int| 0 <= p < i ==> ids[p] < x,
        decreases ids.len() - i,
    {
        i = i + 1;
    }
    if i < ids.len() && ids[i] == x {
        return;
    }
    let ghost before = ids@;
    ids.insert(i, x);
    proof {
        assert forall|y: usize| #[trigger] ids@.contains(y) <==> (before.contains(y) || y == x) by {
            if ids@.contains(y) {
                let j = choose|j: int| 0 <= j < ids@.len() && ids@[j] == y;
                if j < i {
                    assert(before[j] == y);
                } else if j > i {
                    assert(before[j - 1] == y);
                }
            }
            if before.contains(y) {
                let j = choose|j: int| 0 <= j < before.len() && before[j] == y;
                if j < i {
                    assert(ids@[j] == y);
                } else {
                    assert(ids@[j + 1] == y);
                }
            }
            if y == x {
                assert(ids@[i as int] == x);
            }
        }
    }
}

/// The verdict on each candidate pair: only pairs listing a lower facet id first are
/// judged, each by `true_self_intersection` on its facets and geometric outcomes.
pub open spec fn pair_verdicts(
    facets: Seq<[usize; 3]>,
    pairs: Seq<(usize, usize)>,
    geometry: Seq<PairGeometry>,
) -> Seq<bool> {
    Seq::new(
        pairs.len(),
        |k: int|
            pairs[k].0 < pairs[k].1 && true_self_intersection(
                facets[pairs[k].0 as int],
                facets[pairs[k].1 as int],
                geometry[k],
            ),
    )
}

/// Given the facets of a mesh, the candidate pairs of facets whose bounding boxes overlap
/// and the outcomes of the geometric tests on each pair, returns the ids of the facets
/// involved in true self-intersections, each once, in ascending order. A pair is judged
/// once, when it lists the lower id first; valid adjacency and contact are not reported.
pub fn get_intersecting_triangles(
    facets: &[[usize; 3]],
    pairs: &[(usize, usize)],
    geometry: &[PairGeometry],
) -> (ids: Vec<usize>)
    requires
        pairs.len() == geometry.len(),
        forall|k: int| 0 <= k < pairs.len() ==> #[trigger] pairs[k].0 < facets.len() && pairs[k].1 < facets.len(),
    ensures
        forall|p: int, q: int| 0 <= p < q < ids.len() ==> ids[p] < ids[q],
        forall|id: usize|
            #[trigger] ids@.contains(id) <==> flagged(pairs@, pair_verdicts(facets@, pairs@, geometry@), id),
{
    let mut verdicts: Vec<bool> = Vec::new();
    let mut k: usize = 0;
    while k < pairs.len()
        invariant
            k <= pairs.len(),
            pairs.len() == geometry.len(),
            forall|j: int| 0 <= j < pairs.len() ==> #[trigger] pairs[j].0 < facets.len() && pairs[j].1 < facets.len(),
            verdicts@ == pair_verdicts(facets@, pairs@, geometry@).subrange(0, k as int),
        decreases pairs.len() - k,
    {
        let (a, b) = pairs[k];
        let verdict = if a < b {
            is_true_self_intersection(&facets[a], &facets[b], &geometry[k])
        } else {
            false
        };
        verdicts.push(verdict);
        proof {
            assert(verdicts@ =~= pair_verdicts(facets@, pairs@, geometry@).subrange(0, k + 1));
        }
        k = k + 1;
    }
    proof {
        assert(verdicts@ =~= pair_verdicts(facets@, pairs@, geometry@));
    }
    collect_intersecting_ids(pairs, verdicts.as_slice())
}

} // verus!
