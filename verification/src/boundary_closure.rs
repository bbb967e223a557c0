//! Combinatorial parts of closing a mesh clipped to an axis-aligned bounding box: the box
//! faces, face masks, open boundary edges and the caps chosen for each closure mode.
use vstd::prelude::*;

verus! {

/// Boundary closure mode for open surfaces clipped to an AABB. Isosurfaces can be left
/// open or capped to create a watertight surface.
#[derive(Clone, Copy, Debug, PartialEq, Eq, Structural)]
pub enum BoundaryClosure {
    /// Do not add cap triangles; leave the clipped surface open.
    Open,
    /// Close the surface as if values outside the AABB are above the isovalue.
    ClosePositive,
    /// Close the surface as if values outside the AABB are below the isovalue.
    CloseNegative,
}

/// One of the six faces of the clipping AABB.
#[derive(Clone, Copy, Debug, PartialEq, Eq, Structural)]
pub enum BoxFace {
    XMin,
    XMax,
    YMin,
    YMax,
    ZMin,
    ZMax,
}

impl BoxFace {
    /// The stable array index of a face: `XMin, XMax, YMin, YMax, ZMin, ZMax` are 0 to 5.
    pub open spec fn spec_index(&self) -> usize {
        match self {
            BoxFace::XMin => 0,
            BoxFace::XMax => 1,
            BoxFace::YMin => 2,
            BoxFace::YMax => 3,
            BoxFace::ZMin => 4,
            BoxFace::ZMax => 5,
        }
    }

    /// Returns the stable array index for this face.
    #[verifier::when_used_as_spec(spec_index)]
    pub fn index(&self) -> (i: usize)
        ensures
            i == self.spec_index(),
            i < 6,
    {
        match self {
            BoxFace::XMin => 0,
            BoxFace::XMax => 1,
            BoxFace::YMin => 2,
            BoxFace::YMax => 3,
            BoxFace::ZMin => 4,
            BoxFace::ZMax => 5,
        }
    }

    /// The axis a face is perpendicular to.
    pub open spec fn normal_axis(&self) -> usize {
        (self.spec_index() / 2) as usize
    }

    /// Returns the world axes represented by this face's local U and V coordinates: the
    /// two axes other than the face normal, in increasing order.
    pub fn uv_axes(&self) -> (axes: [usize; 2])
        ensures
            axes[0] < axes[1] < 3,
            axes[0] != self.normal_axis(),
            axes[1] != self.normal_axis(),
    {
        match self {
            BoxFace::XMin | BoxFace::XMax => [1, 2],
            BoxFace::YMin | BoxFace::YMax => [0, 2],
            BoxFace::ZMin | BoxFace::ZMax => [0, 1],
        }
    }

    /// Converts face-local grid indices to a global AABB-grid coordinate: the normal axis
    /// takes 0 on a minimum face and its grid maximum on a maximum face, and the face's U
    /// and V axes take `u` and `v`.
    pub fn grid_ijk(&self, u: usize, v: usize, grid_max: [usize; 3]) -> (ijk: [usize; 3])
        ensures
            ({
                let n = self.normal_axis() as int;
                let uv = self.uv_axes_spec();
                &&& ijk[n] == (if self.spec_index() % 2 == 0 {
                    0
                } else {
                    grid_max[n]
                })
                &&& ijk[uv[0] as int] == u
                &&& ijk[uv[1] as int] == v
            }),
    {
        match self {
            BoxFace::XMin => [0, u, v],
            BoxFace::XMax => [grid_max[0], u, v],
            BoxFace::YMin => [u, 0, v],
            BoxFace::YMax => [u, grid_max[1], v],
            BoxFace::ZMin => [u, v, 0],
            BoxFace::ZMax => [u, v, grid_max[2]],
        }
    }

    /// The U and V axes of a face.
    pub open spec fn uv_axes_spec(&self) -> [usize; 2] {
        match self {
            BoxFace::XMin | BoxFace::XMax => [1, 2],
            BoxFace::YMin | BoxFace::YMax => [0, 2],
            BoxFace::ZMin | BoxFace::ZMax => [0, 1],
        }
    }

    /// Returns whether counter-clockwise UV winding points outward for this face.
    pub fn ccw_is_outward(&self) -> (r: bool)
        ensures
            r == (match self {
                BoxFace::XMax | BoxFace::YMin | BoxFace::ZMax => true,
                _ => false,
            }),
    {
        match self {
            BoxFace::XMin => false,
            BoxFace::XMax => true,
            BoxFace::YMin => true,
            BoxFace::YMax => false,
            BoxFace::ZMin => false,
            BoxFace::ZMax => true,
        }
    }
}

/// All AABB faces, in index order.
pub fn box_faces() -> (faces: [BoxFace; 6])
    ensures
        forall|i: int| 0 <= i < 6 ==> faces[i].spec_index() == i,
{
    [BoxFace::XMin, BoxFace::XMax, BoxFace::YMin, BoxFace::YMax, BoxFace::ZMin, BoxFace::ZMax]
}

/// Bit mask over the six AABB faces: bit `face.index()` is set for each face present.
#[derive(Clone, Copy, Debug, PartialEq, Eq, Structural)]
pub struct FaceMask(pub u8);

impl Default for FaceMask {
    /// The empty mask.
    fn default() -> (m: FaceMask)
        ensures
            m.0 == 0,
    {
        FaceMask(0)
    }
}

/// Whether bit `i` of `m` is set.
pub open spec fn face_bit(m: u8, i: usize) -> bool {
    (m >> (i as u8)) & 1 == 1
}

/// The number of faces (of the six) present in a mask.
pub open spec fn face_count(m: u8) -> nat {
    (if face_bit(m, 0) { 1nat } else { 0nat }) + (if face_bit(m, 1) { 1nat } else { 0nat }) + (
    if face_bit(m, 2) {
        1nat
    } else {
        0nat
    }) + (if face_bit(m, 3) { 1nat } else { 0nat }) + (if face_bit(m, 4) { 1nat } else { 0nat })
        + (if face_bit(m, 5) { 1nat } else { 0nat })
}

impl FaceMask {
    /// Inserts `face` into the mask.
    pub fn insert(&mut self, face: BoxFace)
        ensures
            face_bit(final(self).0, face.spec_index()),
            forall|i: usize| i < 8 && i != face.spec_index() ==> face_bit(final(self).0, i) == face_bit(old(self).0, i),
    {
        let i = face.index() as u8;
        let old_m = self.0;
        self.0 = self.0 | (1u8 << i);
        proof {
            assert forall|j: usize| j < 8 implies face_bit(old_m | (1u8 << i), j) == (face_bit(
                old_m,
                j,
            ) || j == i as usize) by {
                let jj = j as u8;
                assert((((old_m | (1u8 << i)) >> jj) & 1 == 1) == (((old_m >> jj) & 1 == 1) || jj
                    == i)) by (bit_vector)
                    requires
                        i < 6,
                        jj < 8,
                ;
            }
            let fi = face.spec_index();
            assert(fi < 8 && i as usize == fi);
            assert(((old_m | (1u8 << i)) >> i) & 1 == 1) by (bit_vector)
                requires
                    i < 6,
            ;
            assert((fi as u8) == i);
            assert(face_bit(old_m | (1u8 << i), fi));
        }
    }

    /// Returns `true` if `face` is present in the mask.
    pub fn contains(&self, face: BoxFace) -> (r: bool)
        ensures
            r == face_bit(self.0, face.spec_index()),
    {
        let i = face.index() as u8;
        let m = self.0;
        assert(((m & (1u8 << i)) != 0) == ((m >> i) & 1 == 1)) by (bit_vector)
            requires
                i < 6,
        ;
        m & (1u8 << i) != 0
    }

    /// Returns `true` if no faces are present.
    pub fn is_empty(&self) -> (r: bool)
        ensures
            r == (self.0 == 0),
    {
        self.0 == 0
    }

    /// Returns the number of set bits of the mask: the number of faces when only face
    /// bits are set.
    pub fn len(&self) -> (n: usize)
        ensures
            n == set_bit_count(self.0),
            (self.0 >> 6u8) == 0 ==> n == face_count(self.0),
    {
        let m = self.0;
        let mut n: usize = 0;
        let mut i: u8 = 0;
        while i < 8
            invariant
                i <= 8,
                n <= i,
                n == set_bits_below(m, i as nat),
            decreases 8 - i,
        {
            if (m >> i) & 1 == 1 {
                n = n + 1;
            }
            i = i + 1;
        }
        proof {
            reveal_with_fuel(set_bits_below, 9);
            if (m >> 6u8) == 0 {
                assert((m >> 6u8) == 0 ==> (m >> 6u8) & 1 != 1 && (m >> 7u8) & 1 != 1)
                    by (bit_vector);
            }
        }
        n
    }
}

/// The number of set bits of `m` below position `n`.
pub open spec fn set_bits_below(m: u8, n: nat) -> nat
    decreases n,
{
    if n == 0 {
        0
    } else {
        set_bits_below(m, (n - 1) as nat) + (if face_bit(m, (n - 1) as usize) {
            1nat
        } else {
            0nat
        })
    }
}

/// The number of set bits of a mask, all eight counted.
pub open spec fn set_bit_count(m: u8) -> nat {
    set_bits_below(m, 8)
}

/// Open boundary edge from the clipped mesh, with the AABB faces it lies on.
#[derive(Clone, Copy, Debug)]
pub struct BoundaryEdge {
    /// Faces that contain this boundary edge.
    pub faces: FaceMask,
    /// First mesh vertex id, preserving the original oriented boundary edge.
    pub a: usize,
    /// Second mesh vertex id, preserving the original oriented boundary edge.
    pub b: usize,
}

impl BoundaryEdge {
    /// Returns `true` if the boundary edge belongs to `face`.
    pub fn on_face(self, face: BoxFace) -> (r: bool)
        ensures
            r == face_bit(self.faces.0, face.spec_index()),
    {
        self.faces.contains(face)
    }
}

/// Pushes `value` only if it is not already present.
pub fn push_unique(values: &mut Vec<usize>, value: usize)
    ensures
        old(values)@.contains(value) ==> final(values)@ == old(values)@,
        !old(values)@.contains(value) ==> final(values)@ == old(values)@.push(value),
{
    let mut i: usize = 0;
    while i < values.len()
        invariant
            i <= values.len(),
            values@ == old(values)@,
            forall|k: int| 0 <= k < i ==> values[k] != value,
        decreases values.len() - i,
    {
        if values[i] == value {
            return;
        }
        i = i + 1;
    }
    values.push(value);
}

/// Returns a stable undirected ordering for a pair: the smaller value first.
pub fn sorted_pair(a: usize, b: usize) -> (r: (usize, usize))
    ensures
        r.0 <= r.1,
        (r.0 == a && r.1 == b) || (r.0 == b && r.1 == a),
{
    if a <= b {
        (a, b)
    } else {
        (b, a)
    }
}

/// Whether a candidate cap triangle belongs to the cap of a closure mode, given whether
/// it is on the ClosePositive side: ClosePositive keeps that side, CloseNegative keeps its
/// complement and no closure keeps nothing.
pub fn keep_cap_triangle(mode: BoundaryClosure, closed_plus_selected: bool) -> (keep: bool)
    ensures
        keep == keep_cap_triangle_spec(mode, closed_plus_selected),
{
    match mode {
        BoundaryClosure::Open => false,
        BoundaryClosure::ClosePositive => closed_plus_selected,
        BoundaryClosure::CloseNegative => !closed_plus_selected,
    }
}

/// Reverses the winding of every triangle of a row-major facet buffer by swapping its
/// second and third vertex ids; a trailing partial triangle is left as it is.
pub fn reverse_winding(facets: &mut Vec<usize>)
    ensures
        final(facets)@ == reversed_winding(old(facets)@),
{
    let n = facets.len() / 3;
    let mut t: usize = 0;
    while t < n
        invariant
            t <= n,
            n == old(facets)@.len() / 3,
            facets@.len() == old(facets)@.len(),
            forall|i: int|
                0 <= i < old(facets)@.len() ==> facets@[i] == (if i >= 3 * t {
                    old(facets)@[i]
                } else if i % 3 == 1 {
                    old(facets)@[i + 1]
                } else if i % 3 == 2 {
                    old(facets)@[i - 1]
                } else {
                    old(facets)@[i]
                }),
        decreases n - t,
    {
        assert(3 * t + 2 < facets.len()) by (nonlinear_arith)
            requires
                t < n,
                n == facets.len() / 3,
        ;
        let a = facets[3 * t + 1];
        let b = facets[3 * t + 2];
        facets.set(3 * t + 1, b);
        facets.set(3 * t + 2, a);
        t = t + 1;
    }
    proof {
        assert(3 * n == old(facets)@.len() - old(facets)@.len() % 3);
        assert(facets@ =~= reversed_winding(old(facets)@));
    }
}

/// A facet buffer with the second and third vertex ids of every complete triangle
/// swapped.
pub open spec fn reversed_winding(s: Seq<usize>) -> Seq<usize> {
    Seq::new(
        s.len(),
        |i: int|
            if i >= s.len() - s.len() % 3 {
                s[i]
            } else if i % 3 == 1 {
                s[i + 1]
            } else if i % 3 == 2 {
                s[i - 1]
            } else {
                s[i]
            },
    )
}

/// Reversing the winding twice gives back the facets.
pub proof fn lemma_reverse_winding_involution(s: Seq<usize>)
    ensures
        reversed_winding(reversed_winding(s)) == s,
{
    let r = reversed_winding(s);
    assert forall|i: int| 0 <= i < s.len() implies #[trigger] reversed_winding(r)[i] == s[i] by {
        if i < s.len() - s.len() % 3 {
            if i % 3 == 1 {
                assert(i + 1 < s.len() - s.len() % 3);
            }
        }
    }
    assert(reversed_winding(r) =~= s);
}

/// Every candidate cap triangle is kept by exactly one of the two closure modes, and by
/// no closure at all when the surface is left open.
pub proof fn lemma_closure_modes_complementary(closed_plus_selected: bool)
    ensures
        keep_cap_triangle_spec(BoundaryClosure::ClosePositive, closed_plus_selected)
            != keep_cap_triangle_spec(BoundaryClosure::CloseNegative, closed_plus_selected),
        !keep_cap_triangle_spec(BoundaryClosure::Open, closed_plus_selected),
{
}

/// Whether a closure mode keeps a cap triangle on the given side.
pub open spec fn keep_cap_triangle_spec(mode: BoundaryClosure, closed_plus_selected: bool) -> bool {
    match mode {
        BoundaryClosure::Open => false,
        BoundaryClosure::ClosePositive => closed_plus_selected,
        BoundaryClosure::CloseNegative => !closed_plus_selected,
    }
}

} // verus!
