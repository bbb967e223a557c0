//! Topology tests deciding whether the surface intersections around one sample point of
//! a regularised marching tetrahedra lattice can be clustered into vertices without
//! changing the topology of the surface.
//!
//! The 14 lattice edges around a sample point are numbered as in [`crate::lattice`]; a
//! `u16` mask holds one bit per edge. Two edges are neighbours when they bound a common
//! triangular face of the lattice's tetrahedra.
use vstd::prelude::*;
use crate::bitmask;
use crate::lattice;

verus! {

/// Mask holding all 14 lattice edges.
pub const ALL14_MASK: u16 = 0x3fff;

/// Topology case of the intersections around a sample point.
#[derive(Debug, Clone, Copy, PartialEq, Eq, Structural)]
pub enum TopologyCase {
    ClosedSurface,
    MultiHole,
    FlatHole,
    MultiSurface,
    SimpleSurface,
    DoNotCluster,
}

/// A group of lattice edges whose intersections become one vertex.
#[derive(Debug, Clone)]
pub struct Cluster {
    pub edges: Vec<u8>,
}

/// The topology case of a sample point and the clusters it leads to.
#[derive(Debug, Clone)]
pub struct TopologyResult {
    pub case: TopologyCase,
    pub clusters: Vec<Cluster>,
}

impl TopologyResult {
    /// The clusters, in order.
    pub fn iter_clusters(&self) -> (clusters: &Vec<Cluster>)
        ensures
            clusters@ == self.clusters@,
    {
        &self.clusters
    }
}

/// The neighbour mask of lattice edge `e`: the edges that share a tetrahedron face with it.
pub open spec fn neighbour_mask(e: u16) -> u16 {
    if e == 0 {
        0x0b68
    } else if e == 1 {
        0x12d8
    } else if e == 2 {
        0x05f0
    } else if e == 3 {
        0x0243
    } else if e == 4 {
        0x00c6
    } else if e == 5 {
        0x0145
    } else if e == 6 {
        0x003f
    } else if e == 7 {
        0x3416
    } else if e == 8 {
        0x2c25
    } else if e == 9 {
        0x380b
    } else if e == 10 {
        0x2184
    } else if e == 11 {
        0x2301
    } else if e == 12 {
        0x2282
    } else if e == 13 {
        0x1f80
    } else {
        0
    }
}

/// The neighbour mask of lattice edge `e`: bit `j` is set exactly when edges `e` and `j`
/// bound a common face of the lattice's tetrahedra.
pub fn neighbour_mask_of(e: u16) -> (m: u16)
    ensures
        m == neighbour_mask(e),
        forall|j: u16| j < 14 ==> #[trigger] bitmask::is_set(m, j) == share_lattice_face(e as int, j as int),
{
    proof {
        assert forall|j: u16| j < 14 implies #[trigger] bitmask::is_set(neighbour_mask(e), j)
            == share_lattice_face(e as int, j as int) by {
            lemma_neighbours_share_a_face(e, j);
            if bitmask::is_set(neighbour_mask(e), j) {
                lemma_neighbours_in_lattice(e, j);
            }
        }
    }
    if e == 0 {
        0x0b68
    } else if e == 1 {
        0x12d8
    } else if e == 2 {
        0x05f0
    } else if e == 3 {
        0x0243
    } else if e == 4 {
        0x00c6
    } else if e == 5 {
        0x0145
    } else if e == 6 {
        0x003f
    } else if e == 7 {
        0x3416
    } else if e == 8 {
        0x2c25
    } else if e == 9 {
        0x380b
    } else if e == 10 {
        0x2184
    } else if e == 11 {
        0x2301
    } else if e == 12 {
        0x2282
    } else if e == 13 {
        0x1f80
    } else {
        0
    }
}

/// Edges `i` and `j` are neighbours.
pub open spec fn adjacent(i: u16, j: u16) -> bool {
    i < 14 && j < 14 && bitmask::is_set(neighbour_mask(i), j)
}

/// Whether `d` is the offset of one of the 14 lattice edges.
pub open spec fn is_lattice_edge(d: (int, int, int)) -> bool {
    exists|e: int| 0 <= e < 14 && #[trigger] lattice::edge_offset(e) == d
}

/// The offset from the far end of lattice edge `i` to the far end of lattice edge `j`.
pub open spec fn far_end_offset(i: int, j: int) -> (int, int, int) {
    (
        lattice::edge_offset(j).0 - lattice::edge_offset(i).0,
        lattice::edge_offset(j).1 - lattice::edge_offset(i).1,
        lattice::edge_offset(j).2 - lattice::edge_offset(i).2,
    )
}

/// Whether lattice edges `i` and `j` bound a common face of the lattice's tetrahedra: they
/// are two different edges and the segment joining their far ends is itself a lattice
/// edge, so the sample point and the two far ends span a triangle of the lattice.
pub open spec fn share_lattice_face(i: int, j: int) -> bool {
    0 <= i < 14 && 0 <= j < 14 && i != j && is_lattice_edge(far_end_offset(i, j))
}

/// Whether `(dx, dy, dz)` is a nonzero step of at most one along each axis, all of one
/// sign.
pub open spec fn is_unit_step(dx: int, dy: int, dz: int) -> bool {
    &&& !(dx == 0 && dy == 0 && dz == 0)
    &&& ((0 <= dx <= 1 && 0 <= dy <= 1 && 0 <= dz <= 1) || (-1 <= dx <= 0 && -1 <= dy <= 0 && -1
        <= dz <= 0))
}

/// The `x` step of lattice edge `e`.
spec fn step_x(e: u16) -> i16 {
    if e == 0 || e == 3 || e == 5 || e == 6 {
        1i16
    } else if e == 7 || e == 10 || e == 12 || e == 13 {
        -1i16
    } else {
        0i16
    }
}

/// The `y` step of lattice edge `e`.
spec fn step_y(e: u16) -> i16 {
    if e == 1 || e == 3 || e == 4 || e == 6 {
        1i16
    } else if e == 8 || e == 10 || e == 11 || e == 13 {
        -1i16
    } else {
        0i16
    }
}

/// The `z` step of lattice edge `e`.
spec fn step_z(e: u16) -> i16 {
    if e == 2 || e == 4 || e == 5 || e == 6 {
        1i16
    } else if e == 9 || e == 11 || e == 12 || e == 13 {
        -1i16
    } else {
        0i16
    }
}

/// The steps spell out the lattice edge offsets.
proof fn lemma_steps(e: u16)
    requires
        e < 14,
    ensures
        lattice::edge_offset(e as int) == (step_x(e) as int, step_y(e) as int, step_z(e) as int),
{
    let k = e as int;
    if k == 0 {
    } else if k == 1 {
    } else if k == 2 {
    } else if k == 3 {
    } else if k == 4 {
    } else if k == 5 {
    } else if k == 6 {
    } else if k == 7 {
    } else if k == 8 {
    } else if k == 9 {
    } else if k == 10 {
    } else if k == 11 {
    } else if k == 12 {
    } else {
        assert(k == 13);
    }
}

/// The lattice edge offsets are exactly the unit steps.
proof fn lemma_lattice_edge_is_unit_step(d: (int, int, int))
    ensures
        is_lattice_edge(d) == is_unit_step(d.0, d.1, d.2),
{
    if is_lattice_edge(d) {
        let e = choose|e: int| 0 <= e < 14 && #[trigger] lattice::edge_offset(e) == d;
        lemma_steps(e as u16);
    }
    if is_unit_step(d.0, d.1, d.2) {
        let base = if d.0 + d.1 + d.2 > 0 {
            0int
        } else {
            7int
        };
        let a = if base == 0 { d } else { (-d.0, -d.1, -d.2) };
        let k = if a == (1int, 0int, 0int) {
            0int
        } else if a == (0int, 1int, 0int) {
            1int
        } else if a == (0int, 0int, 1int) {
            2int
        } else if a == (1int, 1int, 0int) {
            3int
        } else if a == (0int, 1int, 1int) {
            4int
        } else if a == (1int, 0int, 1int) {
            5int
        } else {
            6int
        };
        assert(lattice::edge_offset(base + k) == d);
    }
}

/// The neighbour table read as bits, against the steps of the edges.
proof fn lemma_neighbour_bits(i: u16, j: u16)
    by (bit_vector)
    requires
        i < 14,
        j < 14,
    ensures
        ((neighbour_mask(i) >> j) & 1 == 1) == (i != j && is_unit_step(
            step_x(j) - step_x(i),
            step_y(j) - step_y(i),
            step_z(j) - step_z(i),
        )),
{
}

/// Two lattice edges are neighbours exactly when they bound a common face of the
/// lattice's tetrahedra: they differ, and the segment joining their far ends is a lattice
/// edge too.
pub proof fn lemma_neighbours_share_a_face(i: u16, j: u16)
    ensures
        adjacent(i, j) == share_lattice_face(i as int, j as int),
{
    if i < 14 && j < 14 {
        lemma_neighbour_bits(i, j);
        lemma_steps(i);
        lemma_steps(j);
        lemma_lattice_edge_is_unit_step(far_end_offset(i as int, j as int));
    }
}

/// The neighbour relation is symmetric.
pub proof fn lemma_adjacent_symmetric(i: u16, j: u16)
    ensures
        adjacent(i, j) == adjacent(j, i),
{
    lemma_neighbours_share_a_face(i, j);
    lemma_neighbours_share_a_face(j, i);
    let d = far_end_offset(i as int, j as int);
    let r = far_end_offset(j as int, i as int);
    assert(r == (-d.0, -d.1, -d.2));
    lemma_lattice_edge_is_unit_step(d);
    lemma_lattice_edge_is_unit_step(r);
}

/// No edge neighbours an edge outside the 14 lattice edges.
pub proof fn lemma_neighbours_in_lattice(i: u16, j: u16)
    requires
        j < 16,
        bitmask::is_set(neighbour_mask(i), j),
    ensures
        j < 14,
        i < 14,
{
    assert(((neighbour_mask(i) >> j) & 1 == 1) ==> j < 14 && i < 14) by (bit_vector)
        requires
            j < 16,
    ;
}

/// Every neighbour (within `m`) of an edge of `c` is itself in `c`.
pub open spec fn closed_in(c: u16, m: u16) -> bool {
    forall|i: u16, j: u16|
        bitmask::is_set(c, i) && bitmask::is_set(m, j) && #[trigger] adjacent(i, j)
            ==> bitmask::is_set(c, j)
}

/// `parent` and `rank` form a spanning tree of the edges of `c` rooted at `root`: every
/// other edge of `c` has a neighbouring parent in `c` of smaller rank.
pub open spec fn spanning_tree(c: u16, root: u16, parent: Map<u16, u16>, rank: Map<u16, nat>) -> bool {
    &&& forall|e: u16| #[trigger] bitmask::bits(c).contains(e) ==> rank.dom().contains(e)
    &&& forall|e: u16|
        #[trigger] bitmask::bits(c).contains(e) && e != root ==> {
            &&& parent.dom().contains(e)
            &&& bitmask::bits(c).contains(parent[e])
            &&& adjacent(parent[e], e)
            &&& rank[parent[e]] < rank[e]
        }
}

/// The edges of `c` are connected through neighbours within `c`.
pub open spec fn connected(c: u16) -> bool {
    exists|parent: Map<u16, u16>, rank: Map<u16, nat>|
        spanning_tree(c, bitmask::lowest(c), parent, rank)
}

/// `comps` lists the connected components of the edges of `m`, ordered by lowest edge.
pub open spec fn is_component_decomposition(m: u16, comps: Seq<u16>) -> bool {
    &&& forall|k: int|
        0 <= k < comps.len() ==> {
            &&& comps[k] != 0
            &&& bitmask::bits(comps[k]).subset_of(bitmask::bits(m))
            &&& closed_in(comps[k], m)
            &&& connected(comps[k])
        }
    &&& forall|k1: int, k2: int|
        0 <= k1 < comps.len() && 0 <= k2 < comps.len() && k1 != k2 ==> bitmask::bits(
            comps[k1],
        ).disjoint(bitmask::bits(comps[k2]))
    &&& forall|e: u16|
        #[trigger] bitmask::bits(m).contains(e) ==> exists|k: int|
            0 <= k < comps.len() && bitmask::bits(comps[k]).contains(e)
    &&& forall|k1: int, k2: int|
        0 <= k1 < k2 < comps.len() ==> bitmask::lowest(comps[k1]) < bitmask::lowest(comps[k2])
}

/// The connected components of the edges of `m`, ordered by lowest edge.
pub open spec fn components(m: u16) -> Seq<u16> {
    choose|comps: Seq<u16>| is_component_decomposition(m, comps)
}

/// The lowest set bit of `x` as a mask (`x & -x`); zero for zero.
pub fn lowbit(x: u16) -> (r: u16)
    ensures
        x == 0 ==> r == 0,
        x != 0 ==> r == 1u16 << bitmask::lowest(x),
{
    if x == 0 {
        0
    } else {
        assert(!x < 0xffff) by (bit_vector)
            requires
                x != 0,
        ;
        let r = x & (!x + 1);
        proof {
            bitmask::lemma_lowest(x);
            let t = bitmask::lowest(x);
            let n = (!x + 1) as u16;
            assert(n == !x + 1);
            assert((x & n) != 0 && (x & n) & (((x & n) - 1) as u16) == 0 && (x & n) & x == (x & n)
                && (((x & n) - 1) as u16) & x == 0) by (bit_vector)
                requires
                    x != 0,
                    n == (!x + 1) as u16,
            ;
            lemma_single_bit_is_lowest(x, r, t);
        }
        r
    }
}

proof fn lemma_single_bit_is_lowest(x: u16, r: u16, t: u16)
    requires
        x != 0,
        r != 0,
        r & ((r - 1) as u16) == 0,
        r & x == r,
        ((r - 1) as u16) & x == 0,
        t < 16,
        bitmask::is_set(x, t),
        forall|k: u16| k < t ==> !bitmask::is_set(x, k),
    ensures
        r == 1u16 << t,
{
    bitmask::lemma_lowest(r);
    let p = bitmask::lowest(r);
    assert(r == 1u16 << p && (x >> p) & 1 == 1) by (bit_vector)
        requires
            r & ((r - 1) as u16) == 0,
            r & x == r,
            p < 16,
            (r >> p) & 1 == 1,
    ;
    assert(p <= t) by (bit_vector)
        requires
            r == 1u16 << p,
            ((r - 1) as u16) & x == 0,
            p < 16,
            t < 16,
            (x >> t) & 1 == 1,
    ;
    if p < t {
        assert(!bitmask::is_set(x, p));
    }
}

/// The trailing-zero count of a single-bit mask is its bit position.
proof fn lemma_single_bit_position(e: u16)
    requires
        e < 16,
    ensures
        (1u16 << e).trailing_zeros() == e,
{
    let b = 1u16 << e;
    vstd::std_specs::bits::axiom_u16_trailing_zeros(b);
    bitmask::lemma_bit_ops(b, b, e);
    assert(b != 0) by (bit_vector)
        requires
            e < 16,
            b == 1u16 << e,
    ;
    let t = b.trailing_zeros() as u16;
    assert(t < 16);
    assert(bitmask::is_set(b, t));
    bitmask::lemma_single_bit(e, t);
}

/// Connected components in the 14-edge neighbour graph: starting from the lowest edge
/// still unassigned, repeatedly add the unassigned neighbours of the edges found so far.
///
/// Returns one mask per component, ordered by the lowest edge of each component.
pub fn connected_components_masks(edge_mask: u16) -> (comps: Vec<u16>)
    ensures
        is_component_decomposition(edge_mask & ALL14_MASK, comps@),
        comps@ == components(edge_mask & ALL14_MASK),
{
    let ghost m = edge_mask & ALL14_MASK;
    let mut remaining = edge_mask & ALL14_MASK;
    let mut comps: Vec<u16> = Vec::new();
    while remaining != 0
        invariant
            m == edge_mask & ALL14_MASK,
            bitmask::bits(remaining).subset_of(bitmask::bits(m)),
            forall|k: int|
                0 <= k < comps.len() ==> {
                    &&& comps[k] != 0
                    &&& bitmask::bits(comps[k]).subset_of(bitmask::bits(m))
                    &&& closed_in(comps[k], m)
                    &&& connected(comps[k])
                    &&& bitmask::bits(comps[k]).disjoint(bitmask::bits(remaining))
                },
            forall|k1: int, k2: int|
                0 <= k1 < comps.len() && 0 <= k2 < comps.len() && k1 != k2 ==> bitmask::bits(
                    comps[k1],
                ).disjoint(bitmask::bits(comps[k2])),
            forall|e: u16|
                #[trigger] bitmask::bits(m).contains(e) ==> bitmask::bits(remaining).contains(e)
                    || exists|k: int| 0 <= k < comps.len() && bitmask::bits(comps[k]).contains(e),
            forall|k1: int, k2: int|
                0 <= k1 < k2 < comps.len() ==> bitmask::lowest(comps[k1]) < bitmask::lowest(
                    comps[k2],
                ),
            forall|k: int, e: u16|
                #![trigger bitmask::lowest(comps[k]), bitmask::bits(remaining).contains(e)]
                0 <= k < comps.len() && bitmask::bits(remaining).contains(e)
                    ==> bitmask::lowest(comps[k]) < e,
        decreases remaining,
    {
        let ghost rem0 = remaining;
        proof {
            bitmask::lemma_lowest(rem0);
        }
        let ghost s = bitmask::lowest(rem0);
        let seed = lowbit(remaining);
        proof {
            bitmask::lemma_bits_single(s);
            bitmask::lemma_bits_xor_subset(rem0, seed);
        }
        remaining = remaining ^ seed;
        let mut comp: u16 = 0;
        let mut frontier: u16 = seed;
        let ghost mut parent: Map<u16, u16> = Map::empty();
        let ghost mut rank: Map<u16, nat> = Map::empty().insert(s, 0nat);
        proof {
            bitmask::lemma_bits_ops(0, 0);
        }
        #[verifier::loop_isolation(false)]
        while frontier != 0
            invariant
                s < 16,
                bitmask::bits(rem0).contains(s),
                bitmask::bits(comp).disjoint(bitmask::bits(frontier)),
                bitmask::bits(comp).disjoint(bitmask::bits(remaining)),
                bitmask::bits(frontier).disjoint(bitmask::bits(remaining)),
                bitmask::bits(comp).union(bitmask::bits(frontier)).union(bitmask::bits(remaining))
                    == bitmask::bits(rem0),
                bitmask::bits(comp).union(bitmask::bits(frontier)).contains(s),
                forall|i: u16, j: u16|
                    bitmask::bits(comp).contains(i) && #[trigger] adjacent(i, j)
                        ==> !bitmask::bits(remaining).contains(j),
                forall|e: u16|
                    #[trigger] bitmask::bits(comp).union(bitmask::bits(frontier)).contains(e)
                        ==> rank.dom().contains(e),
                forall|e: u16|
                    #[trigger] bitmask::bits(comp).union(bitmask::bits(frontier)).contains(e) && e
                        != s ==> {
                        &&& parent.dom().contains(e)
                        &&& bitmask::bits(comp).contains(parent[e])
                        &&& adjacent(parent[e], e)
                        &&& rank[parent[e]] < rank[e]
                    },
            decreases remaining, frontier,
        {
            proof {
                bitmask::lemma_lowest(frontier);
            }
            let ghost f0 = frontier;
            let ghost c0 = comp;
            let ghost parent0 = parent;
            let ghost rank0 = rank;
            let ghost e = bitmask::lowest(frontier);
            let b = lowbit(frontier);
            proof {
                bitmask::lemma_bits_single(e);
                assert(bitmask::bits(frontier).contains(e));
                bitmask::lemma_bits_xor_subset(frontier, b);
                lemma_single_bit_position(e);
            }
            frontier = frontier ^ b;
            let ei = b.trailing_zeros() as u16;
            assert(ei == e);
            proof {
                bitmask::lemma_bits_ops(comp, b);
            }
            let ghost old_comp = comp;
            comp = comp | b;
            let nm = neighbour_mask_of(ei);
            let nbrs = nm & remaining;
            proof {
                bitmask::lemma_bits_ops(nm, remaining);
                bitmask::lemma_bits_xor_subset(remaining, nbrs);
                bitmask::lemma_bits_ops(frontier, nbrs);
            }
            let ghost old_remaining = remaining;
            let ghost old_frontier = frontier;
            remaining = remaining ^ nbrs;
            frontier = frontier | nbrs;
            proof {
                let nset = bitmask::bits(nbrs);
                let re = rank[e];
                parent = parent.union_prefer_right(Map::new(|j: u16| nset.contains(j), |j: u16| e));
                rank = rank.union_prefer_right(Map::new(|j: u16| nset.contains(j), |j: u16| re + 1));
                assert forall|j: u16| #[trigger] nset.contains(j) implies adjacent(e, j) by {
                    assert(bitmask::bits(nm).contains(j));
                    lemma_neighbours_in_lattice(e, j);
                    assert(e < 16);
                }
                assert forall|i: u16, j: u16|
                    bitmask::bits(comp).contains(i) && #[trigger] adjacent(i, j) implies
                    !bitmask::bits(remaining).contains(j) by {
                    if i == e {
                        if bitmask::bits(old_remaining).contains(j) {
                            assert(bitmask::bits(nm).contains(j));
                        }
                    }
                }
                assert(bitmask::bits(comp).union(bitmask::bits(frontier)).union(
                    bitmask::bits(remaining),
                ) =~= bitmask::bits(rem0));
                assert(!nset.contains(e));
                bitmask::lemma_zero_iff_empty(b);
                assert(bitmask::bits(b).contains(e));
                assert(old_frontier < f0);
                assert(nbrs == 0 ==> (old_frontier | nbrs) == old_frontier) by (bit_vector);
                assert forall|x: u16|
                    #[trigger] bitmask::bits(comp).union(bitmask::bits(frontier)).contains(x)
                        implies rank.dom().contains(x) by {
                    if !nset.contains(x) {
                        assert(bitmask::bits(c0).union(bitmask::bits(f0)).contains(x));
                        assert(rank0.dom().contains(x));
                    }
                }
                assert forall|x: u16|
                    #[trigger] bitmask::bits(comp).union(bitmask::bits(frontier)).contains(x) && x
                        != s implies {
                        &&& parent.dom().contains(x)
                        &&& bitmask::bits(comp).contains(parent[x])
                        &&& adjacent(parent[x], x)
                        &&& rank[parent[x]] < rank[x]
                    } by {
                    assert(bitmask::bits(c0).union(bitmask::bits(f0)).contains(e));
                    assert(rank0.dom().contains(e));
                    if nset.contains(x) {
                        assert(parent[x] == e);
                        assert(rank[x] == re + 1);
                        assert(rank[e] == re);
                    } else {
                        assert(bitmask::bits(c0).union(bitmask::bits(f0)).contains(x));
                        let px = parent0[x];
                        assert(bitmask::bits(c0).contains(px));
                        assert(!nset.contains(px));
                        assert(bitmask::bits(c0).union(bitmask::bits(f0)).contains(px));
                        assert(rank0.dom().contains(px));
                        assert(parent[x] == px);
                        assert(rank[px] == rank0[px]);
                        assert(rank[x] == rank0[x]);
                    }
                }
            }
        }
        proof {
            bitmask::lemma_bits_ops(0, 0);
            bitmask::lemma_zero_iff_empty(frontier);
            assert(bitmask::bits(comp).contains(s));
            // the component's lowest edge is the seed
            assert forall|k: u16| k < s implies !bitmask::is_set(comp, k) by {
                if bitmask::is_set(comp, k) {
                    assert(bitmask::bits(comp).contains(k));
                    assert(bitmask::bits(rem0).contains(k));
                }
            }
            bitmask::lemma_lowest_unique(comp, s);
            assert(bitmask::bits(comp).union(bitmask::bits(frontier)) =~= bitmask::bits(comp));
            assert forall|e: u16| #[trigger] bitmask::bits(comp).contains(e) implies rank.dom().contains(e) by {
                assert(bitmask::bits(comp).union(bitmask::bits(frontier)).contains(e));
            }
            assert forall|e: u16| #[trigger] bitmask::bits(comp).contains(e) && e != s implies {
                &&& parent.dom().contains(e)
                &&& bitmask::bits(comp).contains(parent[e])
                &&& adjacent(parent[e], e)
                &&& rank[parent[e]] < rank[e]
            } by {
                assert(bitmask::bits(comp).union(bitmask::bits(frontier)).contains(e));
            }
            assert(spanning_tree(comp, bitmask::lowest(comp), parent, rank));
            assert(comp != 0) by {
                bitmask::lemma_zero_iff_empty(comp);
            }
            // closedness
            assert forall|i: u16, j: u16|
                bitmask::is_set(comp, i) && bitmask::is_set(m, j) && #[trigger] adjacent(
                    i,
                    j,
                ) implies bitmask::is_set(comp, j) by {
                assert(bitmask::bits(comp).contains(i));
                assert(bitmask::bits(m).contains(j));
                if !bitmask::bits(comp).contains(j) {
                    assert(!bitmask::bits(remaining).contains(j));
                    assert(!bitmask::bits(rem0).contains(j));
                    let k = choose|k: int|
                        0 <= k < comps.len() && bitmask::bits(comps[k]).contains(j);
                    lemma_adjacent_symmetric(i, j);
                    assert(bitmask::bits(rem0).contains(i));
                    assert(bitmask::bits(m).contains(i));
                    assert(adjacent(j, i));
                    assert(closed_in(comps[k], m));
                    assert(bitmask::is_set(comps[k], j));
                    assert(bitmask::is_set(comps[k], i));
                    assert(bitmask::bits(comps[k]).contains(i));
                    assert(bitmask::bits(rem0).contains(i));
                }
            }
        }
        proof {
            bitmask::lemma_subset_le(remaining, rem0 ^ seed);
        }
        let ghost old_comps = comps@;
        comps.push(comp);
        proof {
            assert forall|e: u16| #[trigger] bitmask::bits(m).contains(e) implies bitmask::bits(
                remaining,
            ).contains(e) || exists|k: int|
                0 <= k < comps.len() && bitmask::bits(comps[k]).contains(e) by {
                if !bitmask::bits(rem0).contains(e) {
                    let k = choose|k: int|
                        0 <= k < old_comps.len() && bitmask::bits(old_comps[k]).contains(e);
                    assert(comps[k] == old_comps[k]);
                } else if bitmask::bits(comp).contains(e) {
                    assert(comps[comps.len() - 1] == comp);
                }
            }
            assert forall|k: int, e: u16|
                #![trigger bitmask::lowest(comps[k]), bitmask::bits(remaining).contains(e)]
                0 <= k < comps.len() && bitmask::bits(remaining).contains(e) implies
                bitmask::lowest(comps[k]) < e by {
                assert(bitmask::bits(rem0).contains(e));
                if k == comps.len() - 1 {
                    assert(e != s);
                    assert(bitmask::is_set(rem0, e));
                    if e < s {
                        assert(!bitmask::is_set(rem0, e));
                    }
                }
            }
        }
    }
    proof {
        bitmask::lemma_bits_ops(0, 0);
        assert(bitmask::bits(remaining) =~= Set::<u16>::empty());
        assert(is_component_decomposition(m, comps@));
        lemma_decomposition_unique(m, comps@, components(m));
    }
    comps
}

/// The positions of the set bits of `m` below `n`, ascending.
pub open spec fn bit_indices_below(m: u16, n: nat) -> Seq<u8>
    decreases n,
{
    if n == 0 {
        Seq::empty()
    } else {
        let prev = bit_indices_below(m, (n - 1) as nat);
        if bitmask::is_set(m, (n - 1) as u16) {
            prev.push((n - 1) as u8)
        } else {
            prev
        }
    }
}

/// The positions of the set bits of `m`, ascending.
pub open spec fn bit_indices(m: u16) -> Seq<u8> {
    bit_indices_below(m, 16)
}

/// Taking out the lowest set bit takes out the first position.
pub proof fn lemma_bit_indices_lowest(m: u16)
    requires
        m != 0,
    ensures
        bit_indices(m) == seq![bitmask::lowest(m) as u8].add(
            bit_indices(m ^ (1u16 << bitmask::lowest(m))),
        ),
{
    bitmask::lemma_lowest(m);
    lemma_bit_indices_lowest_below(m, 16);
}

proof fn lemma_bit_indices_lowest_below(m: u16, n: nat)
    requires
        m != 0,
        n <= 16,
    ensures
        ({
            let t = bitmask::lowest(m);
            let m2 = m ^ (1u16 << t);
            &&& n <= t ==> bit_indices_below(m, n) == Seq::<u8>::empty() && bit_indices_below(
                m2,
                n,
            ) == Seq::<u8>::empty()
            &&& n > t ==> bit_indices_below(m, n) == seq![t as u8].add(bit_indices_below(m2, n))
        }),
    decreases n,
{
    bitmask::lemma_lowest(m);
    let t = bitmask::lowest(m);
    let m2 = m ^ (1u16 << t);
    if n > 0 {
        lemma_bit_indices_lowest_below(m, (n - 1) as nat);
        let k = (n - 1) as u16;
        bitmask::lemma_bit_ops(m, 1u16 << t, k);
        bitmask::lemma_single_bit(t, k);
        if n <= t {
            assert(!bitmask::is_set(m, k));
        } else if n == t + 1 {
            assert(bit_indices_below(m, n) =~= seq![t as u8].add(bit_indices_below(m2, n)));
        } else {
            assert(bit_indices_below(m, n) =~= seq![t as u8].add(bit_indices_below(m2, n)));
        }
    }
}

/// Iterator state over set-bit indices (lowest first), e.g. `0b10100` yields 2, then 4.
pub struct BitIndexIter {
    mask: u16,
}

impl BitIndexIter {
    /// The bits not yet yielded.
    pub closed spec fn pending(&self) -> u16 {
        self.mask
    }

    /// Starts iterating over the set bits of `mask`.
    pub fn new(mask: u16) -> (it: Self)
        ensures
            it.pending() == mask,
    {
        Self { mask }
    }

    /// Yields the lowest bit not yet yielded, or `None` when all have been.
    pub fn next(&mut self) -> (r: Option<u8>)
        ensures
            old(self).pending() == 0 ==> r is None && final(self).pending() == 0,
            old(self).pending() != 0 ==> {
                &&& r == Some(bitmask::lowest(old(self).pending()) as u8)
                &&& final(self).pending() == old(self).pending() ^ (1u16 << bitmask::lowest(
                    old(self).pending(),
                ))
                &&& bit_indices(old(self).pending()) == seq![r.unwrap()].add(
                    bit_indices(final(self).pending()),
                )
            },
    {
        if self.mask == 0 {
            return None;
        }
        proof {
            bitmask::lemma_lowest(self.mask);
            lemma_single_bit_position(bitmask::lowest(self.mask));
            lemma_bit_indices_lowest(self.mask);
        }
        let b = lowbit(self.mask);
        let tz = b.trailing_zeros() as u8;
        self.mask = self.mask ^ (1u16 << (tz as u16));
        Some(tz)
    }
}

/// The set-bit indices of `mask`, ascending.
fn collect_bit_indices(mask: u16) -> (r: Vec<u8>)
    ensures
        r@ == bit_indices(mask),
{
    let mut it = BitIndexIter::new(mask);
    let mut r: Vec<u8> = Vec::new();
    loop
        invariant
            r@.add(bit_indices(it.pending())) == bit_indices(mask),
        decreases it.pending(),
    {
        let ghost before = it.pending();
        match it.next() {
            Some(e) => {
                proof {
                    bitmask::lemma_lowest(before);
                    let b = 1u16 << bitmask::lowest(before);
                    bitmask::lemma_bits_single(bitmask::lowest(before));
                    bitmask::lemma_zero_iff_empty(b);
                    assert(bitmask::bits(b).contains(bitmask::lowest(before)));
                    assert(bitmask::bits(before).contains(bitmask::lowest(before)));
                    bitmask::lemma_bits_xor_subset(before, b);
                    assert(r@.push(e).add(bit_indices(it.pending())) =~= r@.add(
                        bit_indices(before),
                    ));
                }
                r.push(e);
            },
            None => {
                proof {
                    assert(bit_indices_below(0u16, 16) =~= Seq::<u8>::empty()) by {
                        lemma_bit_indices_zero(16);
                    }
                    assert(r@.add(Seq::<u8>::empty()) =~= r@);
                }
                return r;
            },
        }
    }
}

proof fn lemma_bit_indices_zero(n: nat)
    ensures
        bit_indices_below(0u16, n) == Seq::<u8>::empty(),
    decreases n,
{
    if n > 0 {
        lemma_bit_indices_zero((n - 1) as nat);
        let k = (n - 1) as u16;
        bitmask::lemma_bit_ops(0u16, 0u16, k % 16);
        assert(!bitmask::is_set(0u16, k)) by (bit_vector);
    }
}

/// One cluster per set bit of the mask: clustering is vetoed and every intersection
/// becomes its own vertex.
pub fn do_not_cluster(edge_mask: u16) -> (clusters: Vec<Cluster>)
    ensures
        clusters.len() == bit_indices(edge_mask).len(),
        forall|k: int|
            0 <= k < clusters.len() ==> clusters[k].edges@ == seq![bit_indices(edge_mask)[k]],
{
    let indices = collect_bit_indices(edge_mask);
    let mut clusters: Vec<Cluster> = Vec::new();
    let mut i: usize = 0;
    while i < indices.len()
        invariant
            i <= indices.len(),
            indices@ == bit_indices(edge_mask),
            clusters.len() == i,
            forall|k: int| 0 <= k < i ==> clusters[k].edges@ == seq![indices[k]],
        decreases indices.len() - i,
    {
        let mut edges: Vec<u8> = Vec::new();
        edges.push(indices[i]);
        clusters.push(Cluster { edges });
        i = i + 1;
    }
    clusters
}

/// The two edge indices of a mask with exactly two of the 14 edges set, lowest first.
pub fn two_edge_indices(mask: u16) -> (r: Option<[usize; 2]>)
    ensures
        bit_indices(mask & ALL14_MASK).len() == 2 ==> r == Some(
            [
                bit_indices(mask & ALL14_MASK)[0] as usize,
                bit_indices(mask & ALL14_MASK)[1] as usize,
            ],
        ),
        bit_indices(mask & ALL14_MASK).len() != 2 ==> r is None,
{
    proof {
        lemma_bit_indices_zero(16);
    }
    let mut edges = BitIndexIter::new(mask & ALL14_MASK);
    let a = match edges.next() {
        Some(a) => a,
        None => {
            return None;
        },
    };
    let b = match edges.next() {
        Some(b) => b,
        None => {
            return None;
        },
    };
    let rest = edges.next();
    if rest.is_some() {
        return None;
    }
    Some([a as usize, b as usize])
}

/// A nonzero, connected set of edges of `m` closed under neighbours within `m`.
pub open spec fn is_component(c: u16, m: u16) -> bool {
    &&& c != 0
    &&& bitmask::bits(c).subset_of(bitmask::bits(m))
    &&& closed_in(c, m)
    &&& connected(c)
}

/// Walking parent pointers from an edge of a closed set `c` stays inside `c`, so the root
/// of the tree is in `c`.
proof fn lemma_walk_to_root(
    c: u16,
    d: u16,
    m: u16,
    root: u16,
    parent: Map<u16, u16>,
    rank: Map<u16, nat>,
    y: u16,
)
    requires
        closed_in(c, m),
        bitmask::bits(d).subset_of(bitmask::bits(m)),
        spanning_tree(d, root, parent, rank),
        bitmask::bits(d).contains(y),
        bitmask::bits(c).contains(y),
    ensures
        bitmask::bits(c).contains(root),
    decreases rank[y],
{
    if y != root {
        let p = parent[y];
        assert(bitmask::bits(d).contains(y));
        lemma_adjacent_symmetric(p, y);
        assert(bitmask::bits(m).contains(p));
        assert(bitmask::is_set(c, y) && bitmask::is_set(m, p) && adjacent(y, p));
        assert(bitmask::is_set(c, p));
        lemma_walk_to_root(c, d, m, root, parent, rank, p);
    }
}

/// Every edge of a tree whose root is in a closed set `c` is in `c`.
proof fn lemma_tree_inside(
    c: u16,
    d: u16,
    m: u16,
    root: u16,
    parent: Map<u16, u16>,
    rank: Map<u16, nat>,
    y: u16,
)
    requires
        closed_in(c, m),
        bitmask::bits(d).subset_of(bitmask::bits(m)),
        spanning_tree(d, root, parent, rank),
        bitmask::bits(c).contains(root),
        bitmask::bits(d).contains(y),
    ensures
        bitmask::bits(c).contains(y),
    decreases rank[y],
{
    if y != root {
        let p = parent[y];
        assert(bitmask::bits(d).contains(y));
        lemma_tree_inside(c, d, m, root, parent, rank, p);
        assert(bitmask::bits(m).contains(y));
        assert(bitmask::is_set(c, p) && bitmask::is_set(m, y) && adjacent(p, y));
    }
}

/// Two components of the same mask that share an edge are equal.
pub proof fn lemma_components_equal(c: u16, d: u16, m: u16, x: u16)
    requires
        is_component(c, m),
        is_component(d, m),
        bitmask::bits(c).contains(x),
        bitmask::bits(d).contains(x),
    ensures
        c == d,
{
    lemma_component_inside(c, d, m, x);
    lemma_component_inside(d, c, m, x);
    bitmask::lemma_subset_le(c, d);
    bitmask::lemma_subset_le(d, c);
}

proof fn lemma_component_inside(c: u16, d: u16, m: u16, x: u16)
    requires
        is_component(c, m),
        is_component(d, m),
        bitmask::bits(c).contains(x),
        bitmask::bits(d).contains(x),
    ensures
        bitmask::bits(d).subset_of(bitmask::bits(c)),
{
    let (parent, rank) = choose|parent: Map<u16, u16>, rank: Map<u16, nat>|
        spanning_tree(d, bitmask::lowest(d), parent, rank);
    let root = bitmask::lowest(d);
    lemma_walk_to_root(c, d, m, root, parent, rank, x);
    assert forall|y: u16| bitmask::bits(d).contains(y) implies bitmask::bits(c).contains(y) by {
        lemma_tree_inside(c, d, m, root, parent, rank, y);
    }
}

/// A component of a decomposition contains some edge.
proof fn lemma_component_has_edge(c: u16) -> (x: u16)
    requires
        c != 0,
    ensures
        bitmask::bits(c).contains(x),
        x == bitmask::lowest(c),
{
    bitmask::lemma_lowest(c);
    bitmask::lowest(c)
}

/// The connected components of a mask are uniquely determined: any two decompositions
/// into components ordered by lowest edge are the same.
pub proof fn lemma_decomposition_unique(m: u16, c1: Seq<u16>, c2: Seq<u16>)
    requires
        is_component_decomposition(m, c1),
        is_component_decomposition(m, c2),
    ensures
        c1 == c2,
{
    assert forall|k: int| 0 <= k < c1.len() implies #[trigger] appears_in(c2, c1[k]) by {
        let x = lemma_component_has_edge(c1[k]);
        assert(bitmask::bits(m).contains(x));
        let j = choose|j: int| 0 <= j < c2.len() && bitmask::bits(c2[j]).contains(x);
        lemma_components_equal(c1[k], c2[j], m, x);
    }
    assert forall|k: int| 0 <= k < c2.len() implies #[trigger] appears_in(c1, c2[k]) by {
        let x = lemma_component_has_edge(c2[k]);
        assert(bitmask::bits(m).contains(x));
        let j = choose|j: int| 0 <= j < c1.len() && bitmask::bits(c1[j]).contains(x);
        lemma_components_equal(c2[k], c1[j], m, x);
    }
    lemma_sorted_equal(m, c1, c2, 0);
}

/// `x` is an element of `c`.
pub open spec fn appears_in(c: Seq<u16>, x: u16) -> bool {
    exists|j: int| 0 <= j < c.len() && c[j] == x
}

proof fn lemma_distinct(m: u16, c: Seq<u16>, i: int, j: int)
    requires
        is_component_decomposition(m, c),
        0 <= i < c.len(),
        0 <= j < c.len(),
        i != j,
    ensures
        c[i] != c[j],
{
    let x = lemma_component_has_edge(c[i]);
    assert(bitmask::bits(c[i]).disjoint(bitmask::bits(c[j])));
}

proof fn lemma_sorted_equal(m: u16, c1: Seq<u16>, c2: Seq<u16>, k: int)
    requires
        is_component_decomposition(m, c1),
        is_component_decomposition(m, c2),
        forall|a: int| 0 <= a < c1.len() ==> #[trigger] appears_in(c2, c1[a]),
        forall|a: int| 0 <= a < c2.len() ==> #[trigger] appears_in(c1, c2[a]),
        0 <= k,
        forall|a: int| 0 <= a < k && a < c1.len() && a < c2.len() ==> c1[a] == c2[a],
        k <= c1.len(),
        k <= c2.len(),
    ensures
        c1 == c2,
    decreases c1.len() + c2.len() - 2 * k,
{
    if k < c1.len() && k < c2.len() {
        assert(appears_in(c2, c1[k]));
        assert(appears_in(c1, c2[k]));
        let j = choose|j: int| 0 <= j < c2.len() && c2[j] == c1[k];
        if j < k {
            assert(c1[j] == c2[j]);
            lemma_distinct(m, c1, j, k);
        } else if j > k {
            let i = choose|i: int| 0 <= i < c1.len() && c1[i] == c2[k];
            if i < k {
                assert(c1[i] == c2[i]);
                lemma_distinct(m, c2, i, k);
            } else if i == k {
                lemma_distinct(m, c2, k, j);
            } else {
                assert(bitmask::lowest(c1[k]) < bitmask::lowest(c1[i]));
                assert(bitmask::lowest(c2[k]) < bitmask::lowest(c2[j]));
            }
        }
        assert(c1[k] == c2[k]);
        lemma_sorted_equal(m, c1, c2, k + 1);
    } else if k < c1.len() {
        assert(appears_in(c2, c1[k]));
        let j = choose|j: int| 0 <= j < c2.len() && c2[j] == c1[k];
        assert(c1[j] == c2[j]);
        lemma_distinct(m, c1, j, k);
    } else if k < c2.len() {
        assert(appears_in(c1, c2[k]));
        let i = choose|i: int| 0 <= i < c1.len() && c1[i] == c2[k];
        assert(c1[i] == c2[i]);
        lemma_distinct(m, c2, i, k);
    } else {
        assert(c1 =~= c2);
    }
}

/// The topology case of the intersections `m` (a mask of the 14 edges) around a sample
/// point; `cluster` is whether clustering was asked for and `flat_hole` whether the
/// single surface through the point would collapse flat if clustered.
pub open spec fn topology_case(m: u16, cluster: bool, flat_hole: bool) -> TopologyCase {
    if m == 0 {
        TopologyCase::SimpleSurface
    } else if !cluster {
        TopologyCase::DoNotCluster
    } else if m == ALL14_MASK {
        TopologyCase::ClosedSurface
    } else if components(m).len() > 1 {
        TopologyCase::MultiSurface
    } else if components(ALL14_MASK & !m).len() != 1 {
        TopologyCase::MultiHole
    } else if flat_hole {
        TopologyCase::FlatHole
    } else {
        TopologyCase::SimpleSurface
    }
}

/// The edge lists of the clusters for the intersections `m`.
pub open spec fn topology_clusters(m: u16, cluster: bool, flat_hole: bool) -> Seq<Seq<u8>> {
    let case = topology_case(m, cluster, flat_hole);
    if m == 0 {
        Seq::empty()
    } else if case == TopologyCase::MultiSurface {
        components(m).map(|k: int, c: u16| bit_indices(c))
    } else if case == TopologyCase::SimpleSurface {
        seq![bit_indices(m)]
    } else {
        bit_indices(m).map(|k: int, e: u8| seq![e])
    }
}

/// Determines the topology case and clusters of a sample point's intersections, given
/// whether the single surface through the point is a flat hole.
///
/// - No intersections: a simple surface with no clusters.
/// - Clustering not asked for, or all 14 edges intersected (a closed surface): every
///   intersection is its own cluster.
/// - Several connected surface components: one cluster per component.
/// - One component but several holes (components of the complement), or a flat hole:
///   every intersection is its own cluster.
/// - Otherwise a simple surface, clustered as a whole.
pub fn test_topology(near_mask: u16, cluster: bool, flat_hole: bool) -> (result:
    TopologyResult)
    ensures
        result.case == topology_case(near_mask & ALL14_MASK, cluster, flat_hole),
        result.clusters.len() == topology_clusters(near_mask & ALL14_MASK, cluster, flat_hole).len(),
        forall|k: int|
            0 <= k < result.clusters.len() ==> result.clusters[k].edges@ == topology_clusters(
                near_mask & ALL14_MASK,
                cluster,
                flat_hole,
            )[k],
{
    let m = near_mask & ALL14_MASK;
    if m == 0 {
        return TopologyResult { case: TopologyCase::SimpleSurface, clusters: Vec::new() };
    }
    if !cluster {
        return TopologyResult { case: TopologyCase::DoNotCluster, clusters: do_not_cluster(m) };
    }
    if m == ALL14_MASK {
        return TopologyResult { case: TopologyCase::ClosedSurface, clusters: do_not_cluster(m) };
    }
    let mut parts: Vec<Cluster> = Vec::new();
    let surface_components = connected_components_masks(m);
    assert(m & ALL14_MASK == m) by (bit_vector)
        requires
            m == near_mask & ALL14_MASK,
    ;
    if surface_components.len() > 1 {
        let mut i: usize = 0;
        while i < surface_components.len()
            invariant
                i <= surface_components.len(),
                surface_components@ == components(m),
                is_component_decomposition(m, surface_components@),
                m == near_mask & ALL14_MASK,
                parts.len() == i,
                forall|k: int| 0 <= k < i ==> parts[k].edges@ == bit_indices(components(m)[k]),
            decreases surface_components.len() - i,
        {
            let comp = surface_components[i] & ALL14_MASK;
            proof {
                let c = surface_components[i as int];
                assert(bitmask::bits(c).subset_of(bitmask::bits(m)));
                assert forall|e: u16| e < 16 implies bitmask::is_set(c & ALL14_MASK, e)
                    == bitmask::is_set(c, e) by {
                    bitmask::lemma_bit_ops(c, ALL14_MASK, e);
                    bitmask::lemma_bit_ops(near_mask, ALL14_MASK, e);
                    if bitmask::is_set(c, e) {
                        assert(bitmask::bits(c).contains(e));
                    }
                }
                lemma_same_bits_same_indices(c & ALL14_MASK, c, 16);
            }
            parts.push(Cluster { edges: collect_bit_indices(comp) });
            i = i + 1;
        }
        return TopologyResult { case: TopologyCase::MultiSurface, clusters: parts };
    }
    let holes = connected_components_masks(ALL14_MASK & !m);
    assert((ALL14_MASK & !m) & ALL14_MASK == ALL14_MASK & !m) by (bit_vector);
    if holes.len() != 1 {
        return TopologyResult { case: TopologyCase::MultiHole, clusters: do_not_cluster(m) };
    }
    if flat_hole {
        return TopologyResult { case: TopologyCase::FlatHole, clusters: do_not_cluster(m) };
    }
    parts.push(Cluster { edges: collect_bit_indices(m) });
    TopologyResult { case: TopologyCase::SimpleSurface, clusters: parts }
}

/// Masks agreeing on every position have the same index lists.
proof fn lemma_same_bits_same_indices(a: u16, b: u16, n: nat)
    requires
        n <= 16,
        forall|e: u16| e < 16 ==> bitmask::is_set(a, e) == bitmask::is_set(b, e),
    ensures
        bit_indices_below(a, n) == bit_indices_below(b, n),
    decreases n,
{
    if n > 0 {
        lemma_same_bits_same_indices(a, b, (n - 1) as nat);
        assert(bitmask::is_set(a, (n - 1) as u16) == bitmask::is_set(b, (n - 1) as u16));
    }
}

/// Whether row `[edge_mask, opposite_mask]` of a flat-hole table applies to the near mask
/// `sm`: each side names exactly two of the 14 edges, no edge of the first side and both
/// edges of the other side have near intersections.
pub open spec fn flat_hole_row_applies(sm: u16, row: [u16; 2]) -> bool {
    &&& sm & row[0] == 0
    &&& sm & row[1] == row[1]
    &&& bit_indices(row[0] & ALL14_MASK).len() == 2
    &&& bit_indices(row[1] & ALL14_MASK).len() == 2
}

/// The flat-hole test over a table of edge-mask pairs `[OA|OB, OC|OD]`. `near[k]` is the
/// sampled outcome for row `k`: the values at the four edge ends are known and the
/// crossings on `AD` and `AC` both lie nearer `A`, or those on `BD` and `BC` both nearer
/// `B`. The point is a flat hole when some applicable row has that outcome.
pub fn is_flat_hole(surface_comp: u16, masks: &[[u16; 2]], near: &[bool]) -> (r: bool)
    requires
        masks@.len() == near@.len(),
    ensures
        r == exists|k: int|
            0 <= k < masks@.len() && #[trigger] flat_hole_row_applies(
                surface_comp & ALL14_MASK,
                masks@[k],
            ) && near@[k],
{
    let sm = surface_comp & ALL14_MASK;
    let mut k: usize = 0;
    while k < masks.len()
        invariant
            k <= masks@.len(),
            masks@.len() == near@.len(),
            sm == surface_comp & ALL14_MASK,
            forall|j: int|
                0 <= j < k ==> !(#[trigger] flat_hole_row_applies(sm, masks@[j]) && near@[j]),
        decreases masks.len() - k,
    {
        let row = masks[k];
        let edge_mask = row[0];
        let opposite_mask = row[1];
        let applies = if (sm & edge_mask) != 0 {
            false
        } else if (sm & opposite_mask) != opposite_mask {
            false
        } else {
            match (two_edge_indices(edge_mask), two_edge_indices(opposite_mask)) {
                (Some(_), Some(_)) => true,
                _ => false,
            }
        };
        assert(applies == flat_hole_row_applies(sm, masks@[k as int]));
        if applies && near[k] {
            return true;
        }
        k = k + 1;
    }
    false
}

} // verus!
