//! Integer bookkeeping of surface-following isosurface extraction: the clustering
//! strategy, the map from lattice edges to mesh vertices, the triangles of a marched
//! tetrahedron, and the detection and rollback of clustered vertices that make the mesh
//! non-manifold.
use vstd::prelude::*;
use std::collections::HashMap;
use crate::lattice;

verus! {

broadcast use vstd::std_specs::hash::group_hash_axioms;

/// Vertex clustering strategy used when converting edge intersections into mesh vertices.
#[derive(Clone, Copy, Debug, PartialEq, Eq, Structural)]
pub enum ClusterMethod {
    /// No vertex clustering is performed. Raw marching tetrahedra triangles are produced.
    NoClustering,
    /// Cluster topology-compatible intersections to their arithmetic mean.
    Average,
    /// Cluster topology-compatible intersections using the local curvature estimate.
    CurvatureWeighted,
}

/// A lattice edge named by its owning sample point and its label among the owner's
/// seven edges.
pub type EdgeKey = ([i64; 3], usize);

/// Map from lattice edges to the mesh vertex placed on them.
pub struct EdgeRefMap {
    entries: Vec<(EdgeKey, usize)>,
}

impl View for EdgeRefMap {
    type V = Map<EdgeKey, usize>;

    closed spec fn view(&self) -> Map<EdgeKey, usize> {
        Map::new(
            |k: EdgeKey| exists|i: int| 0 <= i < self.entries.len() && self.entries[i].0 == k,
            |k: EdgeKey|
                self.entries[choose|i: int| 0 <= i < self.entries.len() && self.entries[i].0 == k].1,
        )
    }
}

impl EdgeRefMap {
    /// No edge key is stored twice.
    pub closed spec fn wf(&self) -> bool {
        forall|i: int, j: int|
            0 <= i < self.entries.len() && 0 <= j < self.entries.len() && i != j
                ==> self.entries[i].0 != self.entries[j].0
    }

    /// An empty map.
    pub fn new() -> (m: Self)
        ensures
            m.wf(),
            m@ == Map::<EdgeKey, usize>::empty(),
    {
        let m = EdgeRefMap { entries: Vec::new() };
        assert(m@ =~= Map::<EdgeKey, usize>::empty());
        m
    }

    fn find(&self, key: &EdgeKey) -> (r: Option<usize>)
        requires
            self.wf(),
        ensures
            r matches Some(i) ==> i < self.entries.len() && self.entries[i as int].0 == *key,
            r is None ==> forall|i: int| 0 <= i < self.entries.len() ==> self.entries[i].0 != *key,
    {
        let mut i: usize = 0;
        while i < self.entries.len()
            invariant
                i <= self.entries.len(),
                forall|j: int| 0 <= j < i ==> self.entries[j].0 != *key,
            decreases self.entries.len() - i,
        {
            let e = &self.entries[i].0;
            if e.0[0] == key.0[0] && e.0[1] == key.0[1] && e.0[2] == key.0[2] && e.1 == key.1 {
                assert(e.0 =~= key.0);
                return Some(i);
            }
            i = i + 1;
        }
        None
    }

    /// The vertex stored for `key`, if any.
    pub fn get(&self, key: &EdgeKey) -> (r: Option<usize>)
        requires
            self.wf(),
        ensures
            r == (if self@.contains_key(*key) {
                Some(self@[*key])
            } else {
                None
            }),
    {
        match self.find(key) {
            Some(i) => {
                proof {
                    let c = choose|j: int| 0 <= j < self.entries.len() && self.entries[j].0 == *key;
                    assert(c == i);
                }
                Some(self.entries[i].1)
            },
            None => None,
        }
    }

    /// Stores `value` for `key`, replacing any earlier value.
    pub fn insert(&mut self, key: EdgeKey, value: usize)
        requires
            old(self).wf(),
        ensures
            final(self).wf(),
            final(self)@ == old(self)@.insert(key, value),
    {
        let ghost old_entries = self.entries@;
        match self.find(&key) {
            Some(i) => {
                self.entries.set(i, (key, value));
                proof {
                    assert forall|k: EdgeKey|
                        #[trigger] self@.contains_key(k) == old(self)@.insert(key, value).contains_key(k)
                        by {
                        if k != key && old(self)@.contains_key(k) {
                            let j = choose|j: int| 0 <= j < old_entries.len() && old_entries[j].0 == k;
                            assert(self.entries[j].0 == k);
                        }
                        if self@.contains_key(k) && k != key {
                            let j = choose|j: int| 0 <= j < self.entries.len() && self.entries[j].0 == k;
                            assert(old_entries[j].0 == k);
                        }
                        if k == key {
                            assert(self.entries[i as int].0 == k);
                        }
                    }
                    assert forall|k: EdgeKey| #[trigger] self@.contains_key(k) implies self@[k] == old(
                        self,
                    )@.insert(key, value)[k] by {
                        let j = choose|j: int| 0 <= j < self.entries.len() && self.entries[j].0 == k;
                        if k != key {
                            let j0 = choose|j: int|
                                0 <= j < old_entries.len() && old_entries[j].0 == k;
                            assert(j0 == j);
                        } else {
                            assert(j == i);
                        }
                    }
                    assert(self@ =~= old(self)@.insert(key, value));
                }
            },
            None => {
                self.entries.push((key, value));
                proof {
                    let n = old_entries.len() as int;
                    assert forall|k: EdgeKey|
                        #[trigger] self@.contains_key(k) == old(self)@.insert(key, value).contains_key(k)
                        by {
                        if k != key && old(self)@.contains_key(k) {
                            let j = choose|j: int| 0 <= j < old_entries.len() && old_entries[j].0 == k;
                            assert(self.entries[j].0 == k);
                        }
                        if k == key {
                            assert(self.entries[n].0 == k);
                        }
                        if self@.contains_key(k) && k != key {
                            let j = choose|j: int| 0 <= j < self.entries.len() && self.entries[j].0 == k;
                            assert(old_entries[j].0 == k);
                        }
                    }
                    assert forall|k: EdgeKey| #[trigger] self@.contains_key(k) implies self@[k] == old(
                        self,
                    )@.insert(key, value)[k] by {
                        let j = choose|j: int| 0 <= j < self.entries.len() && self.entries[j].0 == k;
                        if k != key {
                            let j0 = choose|j: int|
                                0 <= j < old_entries.len() && old_entries[j].0 == k;
                            assert(self.entries[j0].0 == k);
                        } else {
                            assert(self.entries[n].0 == k);
                        }
                    }
                    assert(self@ =~= old(self)@.insert(key, value));
                }
            },
        }
    }
}

/// The key under which the vertex of lattice edge `(u, v)` is stored, if `v - u` is a
/// lattice edge offset.
pub open spec fn edge_key(u: [i64; 3], v: [i64; 3]) -> Option<EdgeKey> {
    match lattice::edge_owner(u, v) {
        Some((owner, _other, lab)) => Some((owner, lab)),
        None => None,
    }
}

/// Looks up the mesh vertex assigned to the lattice edge `(u, v)`.
pub fn edge_ref_get(edge_ref: &EdgeRefMap, u: [i64; 3], v: [i64; 3]) -> (r: Option<usize>)
    requires
        edge_ref.wf(),
        i64::MIN <= v[0] - u[0] <= i64::MAX,
        i64::MIN <= v[1] - u[1] <= i64::MAX,
        i64::MIN <= v[2] - u[2] <= i64::MAX,
    ensures
        r == (match edge_key(u, v) {
            Some(k) => if edge_ref@.contains_key(k) {
                Some(edge_ref@[k])
            } else {
                None
            },
            None => None,
        }),
{
    let (owner, _other, lab) = match lattice::get_edge_owner(u, v) {
        Some(t) => t,
        None => {
            return None;
        },
    };
    edge_ref.get(&(owner, lab))
}

/// Stores the mesh vertex assigned to the lattice edge `(u, v)`; nothing changes when
/// `v - u` is not a lattice edge offset.
pub fn edge_ref_set(edge_ref: &mut EdgeRefMap, u: [i64; 3], v: [i64; 3], vid: usize)
    requires
        old(edge_ref).wf(),
        i64::MIN <= v[0] - u[0] <= i64::MAX,
        i64::MIN <= v[1] - u[1] <= i64::MAX,
        i64::MIN <= v[2] - u[2] <= i64::MAX,
    ensures
        final(edge_ref).wf(),
        final(edge_ref)@ == (match edge_key(u, v) {
            Some(k) => old(edge_ref)@.insert(k, vid),
            None => old(edge_ref)@,
        }),
{
    if let Some((owner, _other, lab)) = lattice::get_edge_owner(u, v) {
        edge_ref.insert((owner, lab), vid);
    }
}

/// The undirected key of edge `k` (0, 1 or 2) of triangle `t` of a row-major facet buffer.
pub open spec fn facet_edge(facets: Seq<usize>, t: int, k: int) -> (usize, usize) {
    let a = facets[3 * t + k];
    let b = facets[3 * t + (k + 1) % 3];
    if a <= b {
        (a, b)
    } else {
        (b, a)
    }
}

/// The number of triangle edges among the first `n` triangles whose undirected key is
/// `key`.
pub open spec fn edge_incidence(facets: Seq<usize>, key: (usize, usize), n: nat) -> nat
    decreases n,
{
    if n == 0 {
        0
    } else {
        let t = n - 1;
        edge_incidence(facets, key, (n - 1) as nat) + (if facet_edge(facets, t, 0) == key {
            1nat
        } else {
            0nat
        }) + (if facet_edge(facets, t, 1) == key {
            1nat
        } else {
            0nat
        }) + (if facet_edge(facets, t, 2) == key {
            1nat
        } else {
            0nat
        })
    }
}

/// Triangle `t` has an edge shared by more than two triangle edges of the mesh.
pub open spec fn on_non_manifold_edge(facets: Seq<usize>, t: int) -> bool {
    exists|k: int|
        0 <= k < 3 && edge_incidence(facets, facet_edge(facets, t, k), (facets.len() / 3) as nat)
            > 2
}

/// The cluster owners referenced by the vertices of the triangles on non-manifold edges.
pub open spec fn bad_owner(facets: Seq<usize>, owners: Map<usize, [i64; 3]>, o: [i64; 3]) -> bool {
    exists|t: int, c: int|
        0 <= t < facets.len() / 3 && 0 <= c < 3 && on_non_manifold_edge(facets, t)
            && #[trigger] corner_owned_by(facets, owners, t, c, o)
}

/// Appends `o` unless it is already present.
fn push_unique_owner(owners: &mut Vec<[i64; 3]>, o: [i64; 3])
    ensures
        final(owners)@.to_set() == old(owners)@.to_set().insert(o),
        old(owners)@.no_duplicates() ==> final(owners)@.no_duplicates(),
{
    let mut i: usize = 0;
    while i < owners.len()
        invariant
            i <= owners.len(),
            owners@ == old(owners)@,
            forall|k: int| 0 <= k < i ==> owners[k] != o,
        decreases owners.len() - i,
    {
        let x = owners[i];
        if x[0] == o[0] && x[1] == o[1] && x[2] == o[2] {
            assert(x =~= o);
            assert(owners@.to_set() =~= old(owners)@.to_set().insert(o)) by {
                assert(owners@.contains(o));
            }
            return;
        }
        i = i + 1;
    }
    let ghost before = owners@;
    owners.push(o);
    assert(owners@.to_set() =~= old(owners)@.to_set().insert(o)) by {
        assert forall|x: [i64; 3]| #[trigger] owners@.contains(x) implies before.contains(x) || x == o by {
            let k = choose|k: int| 0 <= k < owners@.len() && owners@[k] == x;
            if k < before.len() {
                assert(before[k] == x);
            }
        }
        assert(owners@[before.len() as int] == o);
        assert forall|x: [i64; 3]| before.contains(x) implies #[trigger] owners@.contains(x) by {
            let k = choose|k: int| 0 <= k < before.len() && before[k] == x;
            assert(owners@[k] == x);
        }
    }
}

/// Returns the three vertex ids of triangle `t`.
proof fn lemma_facet_in_bounds(facets: Seq<usize>, t: int)
    requires
        0 <= t < facets.len() / 3,
    ensures
        3 * t + 2 < facets.len(),
{
}

/// Corner `c` of triangle `t` is a vertex whose cluster owner is `o`.
pub open spec fn corner_owned_by(
    facets: Seq<usize>,
    owners: Map<usize, [i64; 3]>,
    t: int,
    c: int,
    o: [i64; 3],
) -> bool {
    owners.contains_key(facets[3 * t + c]) && owners[facets[3 * t + c]] == o
}

/// The cluster owners of the first `upto` corners of triangle `t`.
pub open spec fn facet_owners(
    facets: Seq<usize>,
    owners: Map<usize, [i64; 3]>,
    t: int,
    upto: int,
) -> Set<[i64; 3]> {
    Set::new(|o: [i64; 3]| exists|c: int| 0 <= c < upto && #[trigger] corner_owned_by(facets, owners, t, c, o))
}

/// Adds the cluster owners referenced by the vertices of triangle `tri_idx` to
/// `bad_owners` (kept free of duplicates); a missing triangle adds nothing.
pub fn add_facet_cluster_owners(
    facets: &[usize],
    tri_idx: usize,
    cluster_vertex_owner: &HashMap<usize, [i64; 3]>,
    bad_owners: &mut Vec<[i64; 3]>,
)
    requires
        tri_idx * 3 + 2 <= usize::MAX,
    ensures
        tri_idx * 3 + 2 >= facets.len() ==> final(bad_owners)@ == old(bad_owners)@,
        tri_idx * 3 + 2 < facets.len() ==> final(bad_owners)@.to_set() == old(
            bad_owners,
        )@.to_set().union(facet_owners(facets@, cluster_vertex_owner@, tri_idx as int, 3)),
        old(bad_owners)@.no_duplicates() ==> final(bad_owners)@.no_duplicates(),
{
    let ids = match lattice::facet_vertex_ids(facets, tri_idx) {
        Some(ids) => ids,
        None => {
            return;
        },
    };
    let ghost t = tri_idx as int;
    let ghost owners = cluster_vertex_owner@;
    let mut c: usize = 0;
    while c < 3
        invariant
            c <= 3,
            tri_idx * 3 + 2 < facets.len(),
            t == tri_idx as int,
            owners == cluster_vertex_owner@,
            ids@ == seq![facets@[3 * t], facets@[3 * t + 1], facets@[3 * t + 2]],
            bad_owners@.to_set() == old(bad_owners)@.to_set().union(
                facet_owners(facets@, owners, t, c as int),
            ),
            old(bad_owners)@.no_duplicates() ==> bad_owners@.no_duplicates(),
        decreases 3 - c,
    {
        let vid = ids[c];
        match cluster_vertex_owner.get(&vid) {
            Some(owner) => {
                push_unique_owner(bad_owners, *owner);
            },
            None => {},
        }
        proof {
            let cc = c as int;
            assert(vid == facets@[3 * t + cc]);
            let s_old = facet_owners(facets@, owners, t, cc);
            let s_new = facet_owners(facets@, owners, t, cc + 1);
            if owners.contains_key(vid) {
                let ov = owners[vid];
                assert(corner_owned_by(facets@, owners, t, cc, ov));
                assert(s_new =~= s_old.insert(ov)) by {
                    assert forall|o: [i64; 3]| s_new.contains(o) implies #[trigger] s_old.insert(
                        ov,
                    ).contains(o) by {
                        let k = choose|k: int|
                            0 <= k < cc + 1 && #[trigger] corner_owned_by(facets@, owners, t, k, o);
                        if k < cc {
                            assert(s_old.contains(o));
                        }
                    }
                    assert forall|o: [i64; 3]| #[trigger] s_old.insert(ov).contains(o) implies s_new.contains(o) by {
                        if o != ov {
                            let k = choose|k: int|
                                0 <= k < cc && #[trigger] corner_owned_by(facets@, owners, t, k, o);
                            assert(0 <= k < cc + 1);
                        }
                    }
                }
            } else {
                assert(s_new =~= s_old) by {
                    assert forall|o: [i64; 3]| s_new.contains(o) implies s_old.contains(o) by {
                        let k = choose|k: int|
                            0 <= k < cc + 1 && #[trigger] corner_owned_by(facets@, owners, t, k, o);
                        assert(k != cc);
                    }
                }
            }
        }
        c = c + 1;
    }
}

/// The number of triangle edges of the mesh whose undirected key is `key`.
fn count_edge_incidence(facets: &[usize], key: (usize, usize)) -> (n: usize)
    ensures
        n == edge_incidence(facets@, key, (facets@.len() / 3) as nat),
{
    let nfacets = facets.len() / 3;
    let mut n: usize = 0;
    let mut t: usize = 0;
    while t < nfacets
        invariant
            t <= nfacets,
            nfacets == facets.len() / 3,
            n == edge_incidence(facets@, key, t as nat),
            n <= 3 * t,
        decreases nfacets - t,
    {
        proof {
            lemma_facet_in_bounds(facets@, t as int);
        }
        let mut k: usize = 0;
        let ghost n0 = n;
        while k < 3
            invariant
                k <= 3,
                t < nfacets,
                nfacets == facets.len() / 3,
                3 * t + 2 < facets.len(),
                n == n0 + (if k > 0 && facet_edge(facets@, t as int, 0) == key {
                    1nat
                } else {
                    0nat
                }) + (if k > 1 && facet_edge(facets@, t as int, 1) == key {
                    1nat
                } else {
                    0nat
                }) + (if k > 2 && facet_edge(facets@, t as int, 2) == key {
                    1nat
                } else {
                    0nat
                }),
                n0 <= 3 * t,
            decreases 3 - k,
        {
            let a = facets[3 * t + k];
            let b = facets[3 * t + (k + 1) % 3];
            let e = lattice::sorted_vertex_edge(a, b);
            if e.0 == key.0 && e.1 == key.1 {
                n = n + 1;
            }
            k = k + 1;
        }
        t = t + 1;
    }
    n
}

/// Finds the clustered sample owners that take part in non-manifold mesh edges: the
/// owners of the vertices of every triangle with an edge shared by more than two
/// triangle edges. Each owner is listed once.
pub fn collect_invalid_topology_cluster_owners(
    facets: &[usize],
    cluster_vertex_owner: &HashMap<usize, [i64; 3]>,
) -> (bad_owners: Vec<[i64; 3]>)
    ensures
        bad_owners@.no_duplicates(),
        bad_owners@.to_set() == Set::new(
            |o: [i64; 3]| bad_owner(facets@, cluster_vertex_owner@, o),
        ),
{
    let nfacets = facets.len() / 3;
    let ghost owners = cluster_vertex_owner@;
    let mut bad_owners: Vec<[i64; 3]> = Vec::new();
    let mut t: usize = 0;
    while t < nfacets
        invariant
            t <= nfacets,
            nfacets == facets.len() / 3,
            owners == cluster_vertex_owner@,
            bad_owners@.no_duplicates(),
            bad_owners@.to_set() == Set::new(
                |o: [i64; 3]|
                    exists|u: int, c: int|
                        0 <= u < t && 0 <= c < 3 && on_non_manifold_edge(facets@, u)
                            && #[trigger] corner_owned_by(facets@, owners, u, c, o),
            ),
        decreases nfacets - t,
    {
        proof {
            lemma_facet_in_bounds(facets@, t as int);
        }
        let ids = match lattice::facet_vertex_ids(facets, t) {
            Some(ids) => ids,
            None => {
                assert(false);
                return bad_owners;
            },
        };
        let mut non_manifold = false;
        let mut k: usize = 0;
        while k < 3
            invariant
                k <= 3,
                t < nfacets,
                3 * t + 2 < facets.len(),
                ids@ == seq![facets@[3 * t], facets@[3 * t + 1], facets@[3 * t + 2]],
                non_manifold == exists|j: int|
                    0 <= j < k && edge_incidence(
                        facets@,
                        #[trigger] facet_edge(facets@, t as int, j),
                        (facets@.len() / 3) as nat,
                    ) > 2,
            decreases 3 - k,
        {
            let key = lattice::sorted_vertex_edge(ids[k], ids[(k + 1) % 3]);
            assert(key == facet_edge(facets@, t as int, k as int));
            let count = count_edge_incidence(facets, key);
            if count > 2 {
                non_manifold = true;
            }
            k = k + 1;
        }
        assert(non_manifold == on_non_manifold_edge(facets@, t as int));
        let ghost before = bad_owners@.to_set();
        if non_manifold {
            add_facet_cluster_owners(facets, t, cluster_vertex_owner, &mut bad_owners);
        }
        proof {
            let tt = t as int;
            let s_old = Set::new(
                |o: [i64; 3]|
                    exists|u: int, c: int|
                        0 <= u < tt && 0 <= c < 3 && on_non_manifold_edge(facets@, u)
                            && #[trigger] corner_owned_by(facets@, owners, u, c, o),
            );
            let s_new = Set::new(
                |o: [i64; 3]|
                    exists|u: int, c: int|
                        0 <= u < tt + 1 && 0 <= c < 3 && on_non_manifold_edge(facets@, u)
                            && #[trigger] corner_owned_by(facets@, owners, u, c, o),
            );
            let fo = facet_owners(facets@, owners, tt, 3);
            if non_manifold {
                assert(s_new =~= s_old.union(fo)) by {
                    assert forall|o: [i64; 3]| s_new.contains(o) implies #[trigger] s_old.union(
                        fo,
                    ).contains(o) by {
                        let (u, c) = choose|u: int, c: int|
                            0 <= u < tt + 1 && 0 <= c < 3 && on_non_manifold_edge(facets@, u)
                                && #[trigger] corner_owned_by(facets@, owners, u, c, o);
                        if u == tt {
                            assert(fo.contains(o));
                        } else {
                            assert(s_old.contains(o));
                        }
                    }
                    assert forall|o: [i64; 3]| #[trigger] s_old.union(fo).contains(o) implies s_new.contains(o) by {
                        if s_old.contains(o) {
                            let (u, c) = choose|u: int, c: int|
                                0 <= u < tt && 0 <= c < 3 && on_non_manifold_edge(facets@, u)
                                    && #[trigger] corner_owned_by(facets@, owners, u, c, o);
                            assert(0 <= u < tt + 1);
                        } else {
                            let c = choose|c: int|
                                0 <= c < 3 && #[trigger] corner_owned_by(facets@, owners, tt, c, o);
                            assert(0 <= tt < tt + 1);
                        }
                    }
                }
            } else {
                assert(s_new =~= s_old) by {
                    assert forall|o: [i64; 3]| s_new.contains(o) implies s_old.contains(o) by {
                        let (u, c) = choose|u: int, c: int|
                            0 <= u < tt + 1 && 0 <= c < 3 && on_non_manifold_edge(facets@, u)
                                && #[trigger] corner_owned_by(facets@, owners, u, c, o);
                        assert(u != tt);
                    }
                }
            }
        }
        t = t + 1;
    }
    proof {
        let s_fin = Set::new(
            |o: [i64; 3]|
                exists|u: int, c: int|
                    0 <= u < nfacets && 0 <= c < 3 && on_non_manifold_edge(facets@, u)
                        && #[trigger] corner_owned_by(facets@, owners, u, c, o),
        );
        assert(s_fin =~= Set::new(|o: [i64; 3]| bad_owner(facets@, cluster_vertex_owner@, o)));
    }
    bad_owners
}

/// After the vertex of lattice edge `(u, v)` is stored, looking the edge up from either
/// endpoint gives that vertex back.
pub proof fn lemma_edge_ref_read_after_write(
    before: Map<EdgeKey, usize>,
    u: [i64; 3],
    v: [i64; 3],
    vid: usize,
)
    requires
        -128 < v[0] - u[0] < 128,
        -128 < v[1] - u[1] < 128,
        -128 < v[2] - u[2] < 128,
        edge_key(u, v) is Some,
    ensures
        ({
            let after = before.insert(edge_key(u, v).unwrap(), vid);
            &&& edge_key(v, u) == edge_key(u, v)
            &&& after.contains_key(edge_key(v, u).unwrap())
            &&& after[edge_key(v, u).unwrap()] == vid
        }),
{
    lattice::lemma_edge_owner_symmetric(u, v);
}

/// Edge `k` of triangle `t` has `c` as an end and is shared by more than two triangle
/// edges of the mesh.
pub open spec fn crowded_edge_at(facets: Seq<usize>, t: int, k: int, c: usize) -> bool {
    &&& (facet_edge(facets, t, k).0 == c || facet_edge(facets, t, k).1 == c)
    &&& edge_incidence(facets, facet_edge(facets, t, k), (facets.len() / 3) as nat) > 2
}

/// Whether `c` is an end of an edge shared by more than two triangle edges, looking at
/// the edges of the triangles before `t` and the first `k` edges of triangle `t`.
pub open spec fn crowded_upto(facets: Seq<usize>, c: usize, t: int, k: int) -> bool {
    exists|u: int, j: int|
        0 <= u <= t && 0 <= j < 3 && (u < t || j < k) && #[trigger] crowded_edge_at(
            facets,
            u,
            j,
            c,
        )
}

/// Whether vertex `c` is an end of an edge that more than two triangle edges share.
pub open spec fn on_crowded_edge(facets: Seq<usize>, c: usize) -> bool {
    exists|u: int, j: int|
        0 <= u < facets.len() / 3 && 0 <= j < 3 && #[trigger] crowded_edge_at(facets, u, j, c)
}

/// Marks the vertex candidates to split back into their per-edge vertices: `facets` are
/// the triangles predicted from the clustered candidates, and `endpoint_counts[c]` is the
/// number of lattice edges candidate `c` clusters. A candidate is split when it clusters
/// more than one edge and is an end of an edge that more than two triangle edges share.
pub fn split_candidates(facets: &[usize], endpoint_counts: &[usize]) -> (split: Vec<bool>)
    requires
        forall|i: int| 0 <= i < facets@.len() ==> #[trigger] facets@[i] < endpoint_counts@.len(),
    ensures
        split@.len() == endpoint_counts@.len(),
        forall|c: int|
            0 <= c < split@.len() ==> #[trigger] split@[c] == (endpoint_counts@[c] > 1
                && on_crowded_edge(facets@, c as usize)),
{
    let n = endpoint_counts.len();
    let mut split: Vec<bool> = Vec::new();
    let mut c: usize = 0;
    while c < n
        invariant
            c <= n,
            n == endpoint_counts.len(),
            split@.len() == c,
            forall|x: int| 0 <= x < c ==> !(#[trigger] split@[x]),
        decreases n - c,
    {
        split.push(false);
        c = c + 1;
    }
    let nfacets = facets.len() / 3;
    let mut t: usize = 0;
    while t < nfacets
        invariant
            t <= nfacets,
            nfacets == facets.len() / 3,
            n == endpoint_counts.len(),
            split@.len() == n,
            forall|i: int| 0 <= i < facets@.len() ==> #[trigger] facets@[i] < n,
            forall|x: int|
                0 <= x < n ==> #[trigger] split@[x] == (endpoint_counts@[x] > 1 && crowded_upto(
                    facets@,
                    x as usize,
                    t as int,
                    0,
                )),
        decreases nfacets - t,
    {
        proof {
            lemma_facet_in_bounds(facets@, t as int);
        }
        let mut k: usize = 0;
        while k < 3
            invariant
                k <= 3,
                t < nfacets,
                nfacets == facets.len() / 3,
                3 * t + 2 < facets.len(),
                n == endpoint_counts.len(),
                split@.len() == n,
                forall|i: int| 0 <= i < facets@.len() ==> #[trigger] facets@[i] < n,
                forall|x: int|
                    0 <= x < n ==> #[trigger] split@[x] == (endpoint_counts@[x] > 1
                        && crowded_upto(facets@, x as usize, t as int, k as int)),
            decreases 3 - k,
        {
            let key = lattice::sorted_vertex_edge(facets[3 * t + k], facets[3 * t + (k + 1) % 3]);
            assert(key == facet_edge(facets@, t as int, k as int));
            assert(key.0 < n && key.1 < n);
            let count = count_edge_incidence(facets, key);
            let ghost before = split@;
            if count > 2 {
                if endpoint_counts[key.0] > 1 {
                    split.set(key.0, true);
                }
                if endpoint_counts[key.1] > 1 {
                    split.set(key.1, true);
                }
            }
            proof {
                assert forall|x: int| 0 <= x < n implies #[trigger] split@[x] == (endpoint_counts@[x]
                    > 1 && crowded_upto(facets@, x as usize, t as int, k + 1)) by {
                    let xs = x as usize;
                    let here = crowded_edge_at(facets@, t as int, k as int, xs);
                    if here {
                        assert(crowded_upto(facets@, xs, t as int, k + 1));
                    }
                    if crowded_upto(facets@, xs, t as int, k + 1) && !here {
                        let (u, j) = choose|u: int, j: int|
                            0 <= u <= t && 0 <= j < 3 && (u < t || j < k + 1)
                                && #[trigger] crowded_edge_at(facets@, u, j, xs);
                        assert(u < t || j < k);
                        assert(crowded_upto(facets@, xs, t as int, k as int));
                    }
                    if crowded_upto(facets@, xs, t as int, k as int) {
                        let (u, j) = choose|u: int, j: int|
                            0 <= u <= t && 0 <= j < 3 && (u < t || j < k)
                                && #[trigger] crowded_edge_at(facets@, u, j, xs);
                        assert(crowded_upto(facets@, xs, t as int, k + 1));
                    }
                    assert(before[x] == (endpoint_counts@[x] > 1 && crowded_upto(
                        facets@,
                        xs,
                        t as int,
                        k as int,
                    )));
                }
            }
            k = k + 1;
        }
        proof {
            assert forall|x: int| 0 <= x < n implies #[trigger] split@[x] == (endpoint_counts@[x]
                > 1 && crowded_upto(facets@, x as usize, t + 1, 0)) by {
                let xs = x as usize;
                if crowded_upto(facets@, xs, t as int, 3) {
                    let (u, j) = choose|u: int, j: int|
                        0 <= u <= t && 0 <= j < 3 && (u < t || j < 3)
                            && #[trigger] crowded_edge_at(facets@, u, j, xs);
                    assert(crowded_upto(facets@, xs, t + 1, 0));
                }
                if crowded_upto(facets@, xs, t + 1, 0) {
                    let (u, j) = choose|u: int, j: int|
                        0 <= u <= t + 1 && 0 <= j < 3 && (u < t + 1 || j < 0)
                            && #[trigger] crowded_edge_at(facets@, u, j, xs);
                    assert(crowded_upto(facets@, xs, t as int, 3));
                }
            }
        }
        t = t + 1;
    }
    proof {
        assert forall|x: int| 0 <= x < n implies #[trigger] split@[x] == (endpoint_counts@[x] > 1
            && on_crowded_edge(facets@, x as usize)) by {
            let xs = x as usize;
            if on_crowded_edge(facets@, xs) {
                let (u, j) = choose|u: int, j: int|
                    0 <= u < facets@.len() / 3 && 0 <= j < 3 && #[trigger] crowded_edge_at(
                        facets@,
                        u,
                        j,
                        xs,
                    );
                assert(crowded_upto(facets@, xs, nfacets as int, 0));
            }
            if crowded_upto(facets@, xs, nfacets as int, 0) {
                let (u, j) = choose|u: int, j: int|
                    0 <= u <= nfacets && 0 <= j < 3 && (u < nfacets || j < 0)
                        && #[trigger] crowded_edge_at(facets@, u, j, xs);
                assert(on_crowded_edge(facets@, xs));
            }
        }
    }
    split
}

/// The marching-tetrahedra case of a tetrahedron: bit `i` is set when corner `i` lies
/// inside the surface.
pub open spec fn tet_case_of(inside: [bool; 4]) -> int {
    (if inside[0] { 1int } else { 0int }) + (if inside[1] { 2int } else { 0int }) + (if inside[2] {
        4int
    } else {
        0int
    }) + (if inside[3] { 8int } else { 0int })
}

/// Returns the marching-tetrahedra case index for the corners' inside flags: bit `i` of
/// the index (its weight `2^i`) is set exactly when corner `i` is inside.
pub fn tet_case(inside: &[bool; 4]) -> (case: usize)
    ensures
        case == tet_case_of(*inside),
        case < 16,
        inside[0] == (case % 2 == 1),
        inside[1] == ((case / 2) % 2 == 1),
        inside[2] == ((case / 4) % 2 == 1),
        inside[3] == ((case / 8) % 2 == 1),
{
    let mut case: usize = 0;
    if inside[0] {
        case = case + 1;
    }
    if inside[1] {
        case = case + 2;
    }
    if inside[2] {
        case = case + 4;
    }
    if inside[3] {
        case = case + 8;
    }
    case
}

/// The mesh triangle for a table triangle whose corners lie on tetrahedron edges
/// `tri[0..3]`, given the vertex id resolved on each of the six tetrahedron edges: none
/// when an edge has no vertex or two corners share a vertex (a triangle collapsed by
/// clustering).
pub open spec fn resolved_triangle(tri: [u8; 3], ids: [Option<usize>; 6]) -> Option<[usize; 3]> {
    let (a, b, c) = (ids[tri[0] as int], ids[tri[1] as int], ids[tri[2] as int]);
    if a is Some && b is Some && c is Some && a->0 != b->0 && b->0 != c->0 && a->0 != c->0 {
        Some([a->0, b->0, c->0])
    } else {
        None
    }
}

/// The mesh triangles kept from a row of table triangles, in order.
pub open spec fn kept_triangles(row: Seq<[u8; 3]>, ids: [Option<usize>; 6]) -> Seq<[usize; 3]>
    decreases row.len(),
{
    if row.len() == 0 {
        Seq::empty()
    } else {
        let prev = kept_triangles(row.drop_last(), ids);
        match resolved_triangle(row.last(), ids) {
            Some(v) => prev.push(v),
            None => prev,
        }
    }
}

/// Emits the mesh triangles of one tetrahedron: `case_row` lists the table triangles of
/// its case (each corner named by a tetrahedron edge `0..6`), and `ids[e]` is the vertex
/// resolved on tetrahedron edge `e`. Triangles with an unresolved or repeated vertex are
/// skipped.
pub fn tet_triangles(case_row: &[[u8; 3]], ids: &[Option<usize>; 6]) -> (tris: Vec<[usize; 3]>)
    requires
        forall|k: int, j: int| 0 <= k < case_row@.len() && 0 <= j < 3 ==> #[trigger] case_row@[k][j] < 6,
    ensures
        tris@ == kept_triangles(case_row@, *ids),
{
    let mut tris: Vec<[usize; 3]> = Vec::new();
    let mut k: usize = 0;
    while k < case_row.len()
        invariant
            k <= case_row@.len(),
            forall|k: int, j: int|
                0 <= k < case_row@.len() && 0 <= j < 3 ==> #[trigger] case_row@[k][j] < 6,
            tris@ == kept_triangles(case_row@.take(k as int), *ids),
        decreases case_row.len() - k,
    {
        let tri = case_row[k];
        assert(tri[0] < 6 && tri[1] < 6 && tri[2] < 6) by {
            assert(case_row@[k as int][0] < 6);
            assert(case_row@[k as int][1] < 6);
            assert(case_row@[k as int][2] < 6);
        }
        let a = ids[tri[0] as usize];
        let b = ids[tri[1] as usize];
        let c = ids[tri[2] as usize];
        proof {
            let next = case_row@.take(k + 1);
            assert(next.drop_last() =~= case_row@.take(k as int));
            assert(next.last() == tri);
        }
        match (a, b, c) {
            (Some(x), Some(y), Some(z)) => {
                if x != y && y != z && x != z {
                    tris.push([x, y, z]);
                }
            },
            _ => {},
        }
        k = k + 1;
    }
    assert(case_row@.take(case_row@.len() as int) =~= case_row@);
    tris
}

/// Map from clustering owners (sample points) to the clustered vertices they own, in the
/// order the vertices were added.
pub struct OwnerVertices {
    entries: Vec<([i64; 3], Vec<usize>)>,
}

impl View for OwnerVertices {
    type V = Map<[i64; 3], Seq<usize>>;

    closed spec fn view(&self) -> Map<[i64; 3], Seq<usize>> {
        Map::new(
            |k: [i64; 3]| exists|i: int| 0 <= i < self.entries.len() && self.entries[i].0 == k,
            |k: [i64; 3]|
                self.entries[choose|i: int| 0 <= i < self.entries.len() && self.entries[i].0 == k].1@,
        )
    }
}

impl OwnerVertices {
    /// No owner is stored twice.
    pub closed spec fn wf(&self) -> bool {
        forall|i: int, j: int|
            0 <= i < self.entries.len() && 0 <= j < self.entries.len() && i != j
                ==> self.entries[i].0 != self.entries[j].0
    }

    /// The entry at position `j` is what the map holds for its owner.
    proof fn lemma_entry(&self, j: int)
        requires
            self.wf(),
            0 <= j < self.entries.len(),
        ensures
            self@.contains_key(self.entries[j].0),
            self@[self.entries[j].0] == self.entries[j].1@,
    {
        let k = self.entries[j].0;
        let c = choose|i: int| 0 <= i < self.entries.len() && self.entries[i].0 == k;
        assert(c == j);
    }

    /// An empty map.
    pub fn new() -> (m: Self)
        ensures
            m.wf(),
            m@ == Map::<[i64; 3], Seq<usize>>::empty(),
    {
        let m = OwnerVertices { entries: Vec::new() };
        assert(m@ =~= Map::<[i64; 3], Seq<usize>>::empty());
        m
    }

    fn find(&self, key: &[i64; 3]) -> (r: Option<usize>)
        requires
            self.wf(),
        ensures
            r matches Some(i) ==> i < self.entries.len() && self.entries[i as int].0 == *key,
            r is None ==> !self@.contains_key(*key),
    {
        let mut i: usize = 0;
        while i < self.entries.len()
            invariant
                i <= self.entries.len(),
                forall|j: int| 0 <= j < i ==> self.entries[j].0 != *key,
            decreases self.entries.len() - i,
        {
            let e = &self.entries[i].0;
            if e[0] == key[0] && e[1] == key[1] && e[2] == key[2] {
                assert(*e =~= *key);
                return Some(i);
            }
            i = i + 1;
        }
        None
    }

    /// Appends vertex `vid` to the list of `owner`, starting a list if there is none.
    pub fn add(&mut self, owner: [i64; 3], vid: usize)
        requires
            old(self).wf(),
        ensures
            final(self).wf(),
            final(self)@ == old(self)@.insert(
                owner,
                if old(self)@.contains_key(owner) {
                    old(self)@[owner].push(vid)
                } else {
                    seq![vid]
                },
            ),
    {
        let ghost old_entries = self.entries@;
        let ghost target = if old(self)@.contains_key(owner) {
            old(self)@[owner].push(vid)
        } else {
            seq![vid]
        };
        match self.find(&owner) {
            Some(i) => {
                proof {
                    old(self).lemma_entry(i as int);
                }
                let (k, mut list) = self.entries.remove(i);
                list.push(vid);
                self.entries.insert(i, (k, list));
                proof {
                    assert(self.entries@ =~= old_entries.update(i as int, (owner, list)));
                    assert(list@ =~= target);
                    assert forall|k: [i64; 3]|
                        #[trigger] self@.contains_key(k) == old(self)@.insert(owner, target).contains_key(k)
                        by {
                        if k != owner && old(self)@.contains_key(k) {
                            let j = choose|j: int| 0 <= j < old_entries.len() && old_entries[j].0 == k;
                            assert(self.entries[j].0 == k);
                        }
                        if self@.contains_key(k) && k != owner {
                            let j = choose|j: int| 0 <= j < self.entries.len() && self.entries[j].0 == k;
                            assert(old_entries[j].0 == k);
                        }
                        if k == owner {
                            assert(self.entries[i as int].0 == k);
                        }
                    }
                    assert forall|k: [i64; 3]| #[trigger] self@.contains_key(k) implies self@[k]
                        == old(self)@.insert(owner, target)[k] by {
                        let j = choose|j: int| 0 <= j < self.entries.len() && self.entries[j].0 == k;
                        self.lemma_entry(j);
                        if k != owner {
                            old(self).lemma_entry(j);
                        }
                    }
                    assert(self@ =~= old(self)@.insert(owner, target));
                }
            },
            None => {
                let mut list: Vec<usize> = Vec::new();
                list.push(vid);
                self.entries.push((owner, list));
                proof {
                    let n = old_entries.len() as int;
                    assert(list@ =~= target);
                    assert forall|k: [i64; 3]|
                        #[trigger] self@.contains_key(k) == old(self)@.insert(owner, target).contains_key(k)
                        by {
                        if k != owner && old(self)@.contains_key(k) {
                            let j = choose|j: int| 0 <= j < old_entries.len() && old_entries[j].0 == k;
                            assert(self.entries[j].0 == k);
                        }
                        if k == owner {
                            assert(self.entries[n].0 == k);
                        }
                        if self@.contains_key(k) && k != owner {
                            let j = choose|j: int| 0 <= j < self.entries.len() && self.entries[j].0 == k;
                            assert(old_entries[j].0 == k);
                        }
                    }
                    assert forall|k: [i64; 3]| #[trigger] self@.contains_key(k) implies self@[k]
                        == old(self)@.insert(owner, target)[k] by {
                        let j = choose|j: int| 0 <= j < self.entries.len() && self.entries[j].0 == k;
                        self.lemma_entry(j);
                        if k != owner {
                            old(self).lemma_entry(j);
                        }
                    }
                    assert(self@ =~= old(self)@.insert(owner, target));
                }
            },
        }
    }

    /// Takes out the list of `owner`, if it has one.
    pub fn remove(&mut self, owner: &[i64; 3]) -> (r: Option<Vec<usize>>)
        requires
            old(self).wf(),
        ensures
            final(self).wf(),
            final(self)@ == old(self)@.remove(*owner),
            r is None <==> !old(self)@.contains_key(*owner),
            r matches Some(list) ==> list@ == old(self)@[*owner],
    {
        let ghost old_entries = self.entries@;
        match self.find(owner) {
            Some(i) => {
                proof {
                    old(self).lemma_entry(i as int);
                }
                let (_k, list) = self.entries.remove(i);
                proof {
                    assert forall|a: int, b: int|
                        0 <= a < self.entries.len() && 0 <= b < self.entries.len() && a != b
                            implies self.entries[a].0 != self.entries[b].0 by {
                        let a0 = if a < i { a } else { a + 1 };
                        let b0 = if b < i { b } else { b + 1 };
                        assert(self.entries[a] == old_entries[a0]);
                        assert(self.entries[b] == old_entries[b0]);
                    }
                    assert forall|k: [i64; 3]|
                        #[trigger] self@.contains_key(k) == old(self)@.remove(*owner).contains_key(k)
                        by {
                        if k != *owner && old(self)@.contains_key(k) {
                            let j = choose|j: int| 0 <= j < old_entries.len() && old_entries[j].0 == k;
                            assert(j != i);
                            let j1 = if j < i { j } else { j - 1 };
                            assert(self.entries[j1].0 == k);
                        }
                        if self@.contains_key(k) {
                            let j = choose|j: int| 0 <= j < self.entries.len() && self.entries[j].0 == k;
                            let j0 = if j < i { j } else { j + 1 };
                            assert(old_entries[j0].0 == k);
                            assert(j0 != i);
                        }
                    }
                    assert forall|k: [i64; 3]| #[trigger] self@.contains_key(k) implies self@[k]
                        == old(self)@.remove(*owner)[k] by {
                        let j = choose|j: int| 0 <= j < self.entries.len() && self.entries[j].0 == k;
                        self.lemma_entry(j);
                        let j0 = if j < i { j } else { j + 1 };
                        assert(old_entries[j0] == self.entries[j]);
                        old(self).lemma_entry(j0);
                    }
                    assert(self@ =~= old(self)@.remove(*owner));
                }
                Some(list)
            },
            None => {
                assert(self@ =~= old(self)@.remove(*owner));
                None
            },
        }
    }
}

/// A lattice edge, named by its two end points.
pub type LatticeEdge = ([i64; 3], [i64; 3]);

/// The clustered vertices of the owners in `bad`, owner by owner, each owner's vertices in
/// the order it holds them.
pub open spec fn rolled_back_vertices(owners: Map<[i64; 3], Seq<usize>>, bad: Seq<[i64; 3]>) -> Seq<
    usize,
>
    decreases bad.len(),
{
    if bad.len() == 0 {
        Seq::empty()
    } else {
        rolled_back_vertices(owners, bad.drop_last()) + (if owners.contains_key(bad.last()) {
            owners[bad.last()]
        } else {
            Seq::empty()
        })
    }
}

/// The number of owners in `bad` that own at least one clustered vertex.
pub open spec fn rolled_back_count(owners: Map<[i64; 3], Seq<usize>>, bad: Seq<[i64; 3]>) -> nat
    decreases bad.len(),
{
    if bad.len() == 0 {
        0
    } else {
        rolled_back_count(owners, bad.drop_last()) + (if owners.contains_key(bad.last())
            && owners[bad.last()].len() > 0 {
            1nat
        } else {
            0nat
        })
    }
}

/// The lattice edges of the vertices `vids` that carry clustered edges, each vertex
/// taken at its first occurrence.
pub open spec fn split_edges(vids: Seq<usize>, edges: Map<usize, Vec<LatticeEdge>>) -> Seq<
    LatticeEdge,
>
    decreases vids.len(),
{
    if vids.len() == 0 {
        Seq::empty()
    } else {
        let v = vids.last();
        split_edges(vids.drop_last(), edges) + (if !vids.drop_last().contains(v)
            && edges.contains_key(v) {
            edges[v]@
        } else {
            Seq::empty()
        })
    }
}

/// The vertices of `vids` that carry clustered edges.
pub open spec fn vertices_with_edges(vids: Seq<usize>, edges: Map<usize, Vec<LatticeEdge>>) -> Set<
    usize,
> {
    Set::new(|v: usize| vids.contains(v) && edges.contains_key(v))
}

/// Unclusters the vertices of the owners in `bad_owners`: their lists leave
/// `owner_cluster_vertices`, and each of their vertices that carries clustered edges leaves
/// `cluster_vertex_edges` and `cluster_vertex_owner`. Returns the number of owners that
/// owned a vertex, and the lattice edges whose own vertices are to be placed again.
pub fn rollback_cluster_owners(
    bad_owners: &[[i64; 3]],
    owner_cluster_vertices: &mut OwnerVertices,
    cluster_vertex_edges: &mut HashMap<usize, Vec<LatticeEdge>>,
    cluster_vertex_owner: &mut HashMap<usize, [i64; 3]>,
) -> (r: (usize, Vec<LatticeEdge>))
    requires
        old(owner_cluster_vertices).wf(),
        bad_owners@.no_duplicates(),
    ensures
        final(owner_cluster_vertices).wf(),
        final(owner_cluster_vertices)@ == old(owner_cluster_vertices)@.remove_keys(
            bad_owners@.to_set(),
        ),
        r.0 == rolled_back_count(old(owner_cluster_vertices)@, bad_owners@),
        final(cluster_vertex_edges)@ == old(cluster_vertex_edges)@.remove_keys(
            rolled_back_vertices(old(owner_cluster_vertices)@, bad_owners@).to_set(),
        ),
        final(cluster_vertex_owner)@ == old(cluster_vertex_owner)@.remove_keys(
            vertices_with_edges(
                rolled_back_vertices(old(owner_cluster_vertices)@, bad_owners@),
                old(cluster_vertex_edges)@,
            ),
        ),
        r.1@ == split_edges(
            rolled_back_vertices(old(owner_cluster_vertices)@, bad_owners@),
            old(cluster_vertex_edges)@,
        ),
{
    let ghost ov0 = owner_cluster_vertices@;
    let ghost cve0 = cluster_vertex_edges@;
    let ghost cvo0 = cluster_vertex_owner@;
    let mut count: usize = 0;
    let mut out: Vec<LatticeEdge> = Vec::new();
    let mut k: usize = 0;
    while k < bad_owners.len()
        invariant
            k <= bad_owners@.len(),
            bad_owners@.no_duplicates(),
            owner_cluster_vertices.wf(),
            owner_cluster_vertices@ == ov0.remove_keys(bad_owners@.take(k as int).to_set()),
            count == rolled_back_count(ov0, bad_owners@.take(k as int)),
            count <= k,
            cluster_vertex_edges@ == cve0.remove_keys(
                rolled_back_vertices(ov0, bad_owners@.take(k as int)).to_set(),
            ),
            cluster_vertex_owner@ == cvo0.remove_keys(
                vertices_with_edges(rolled_back_vertices(ov0, bad_owners@.take(k as int)), cve0),
            ),
            out@ == split_edges(rolled_back_vertices(ov0, bad_owners@.take(k as int)), cve0),
        decreases bad_owners.len() - k,
    {
        let owner = bad_owners[k];
        let ghost done = bad_owners@.take(k as int);
        let ghost next = bad_owners@.take(k + 1);
        let ghost verts = rolled_back_vertices(ov0, done);
        proof {
            assert(next.drop_last() =~= done);
            assert(next.last() == owner);
            assert(!done.contains(owner)) by {
                if done.contains(owner) {
                    let j = choose|j: int| 0 <= j < done.len() && done[j] == owner;
                    assert(bad_owners@[j] == bad_owners@[k as int]);
                }
            }
            assert(next.to_set() =~= done.to_set().insert(owner)) by {
                assert forall|x: [i64; 3]| #[trigger] next.to_set().contains(x) implies done.to_set().insert(
                    owner,
                ).contains(x) by {
                    let j = choose|j: int| 0 <= j < next.len() && next[j] == x;
                    if j < k {
                        assert(done[j] == x);
                    }
                }
                assert forall|x: [i64; 3]| #[trigger] done.to_set().insert(owner).contains(x) implies next.to_set().contains(
                    x,
                ) by {
                    if x == owner {
                        assert(next[k as int] == x);
                    } else {
                        let j = choose|j: int| 0 <= j < done.len() && done[j] == x;
                        assert(next[j] == x);
                    }
                }
            }
        }
        let removed = owner_cluster_vertices.remove(&owner);
        proof {
            assert(owner_cluster_vertices@ =~= ov0.remove_keys(next.to_set()));
        }
        match removed {
            Some(vids) => {
                assert(ov0.contains_key(owner) && vids@ == ov0[owner]);
                if vids.len() > 0 {
                    count = count + 1;
                }
                let mut m: usize = 0;
                while m < vids.len()
                    invariant
                        m <= vids@.len(),
                        vids@ == ov0[owner],
                        verts == rolled_back_vertices(ov0, done),
                        cluster_vertex_edges@ == cve0.remove_keys(
                            (verts + vids@.take(m as int)).to_set(),
                        ),
                        cluster_vertex_owner@ == cvo0.remove_keys(
                            vertices_with_edges(verts + vids@.take(m as int), cve0),
                        ),
                        out@ == split_edges(verts + vids@.take(m as int), cve0),
                    decreases vids.len() - m,
                {
                    let vid = vids[m];
                    let ghost before = verts + vids@.take(m as int);
                    let ghost after = verts + vids@.take(m + 1);
                    proof {
                        assert(after =~= before.push(vid));
                        assert(after.drop_last() =~= before);
                        assert(after.to_set() =~= before.to_set().insert(vid)) by {
                            assert forall|x: usize| #[trigger] after.to_set().contains(x) implies before.to_set().insert(
                                vid,
                            ).contains(x) by {
                                let j = choose|j: int| 0 <= j < after.len() && after[j] == x;
                                if j < before.len() {
                                    assert(before[j] == x);
                                }
                            }
                            assert forall|x: usize| #[trigger] before.to_set().insert(vid).contains(x) implies after.to_set().contains(
                                x,
                            ) by {
                                if x == vid {
                                    assert(after[before.len() as int] == x);
                                } else {
                                    let j = choose|j: int| 0 <= j < before.len() && before[j] == x;
                                    assert(after[j] == x);
                                }
                            }
                        }
                        assert(vertices_with_edges(after, cve0) =~= (if cve0.contains_key(vid) {
                            vertices_with_edges(before, cve0).insert(vid)
                        } else {
                            vertices_with_edges(before, cve0)
                        })) by {
                            assert forall|x: usize| #[trigger] vertices_with_edges(after, cve0).contains(x)
                                == (if cve0.contains_key(vid) {
                                vertices_with_edges(before, cve0).insert(vid)
                            } else {
                                vertices_with_edges(before, cve0)
                            }).contains(x) by {
                                assert(after.to_set().contains(x) == before.to_set().insert(vid).contains(x));
                            }
                        }
                    }
                    let edges = cluster_vertex_edges.remove(&vid);
                    match edges {
                        Some(list) => {
                            assert(cve0.contains_key(vid) && !before.contains(vid));
                            assert(list == cve0[vid]);
                            cluster_vertex_owner.remove(&vid);
                            let mut e: usize = 0;
                            let ghost out0 = out@;
                            while e < list.len()
                                invariant
                                    e <= list@.len(),
                                    out@ == out0 + list@.take(e as int),
                                decreases list.len() - e,
                            {
                                out.push(list[e]);
                                e = e + 1;
                                assert(out@ =~= out0 + list@.take(e as int));
                            }
                            assert(list@.take(list@.len() as int) =~= list@);
                        },
                        None => {
                            assert(!cve0.contains_key(vid) || before.contains(vid));
                        },
                    }
                    proof {
                        assert(cluster_vertex_edges@ =~= cve0.remove_keys(after.to_set()));
                        assert(cluster_vertex_owner@ =~= cvo0.remove_keys(
                            vertices_with_edges(after, cve0),
                        ));
                    }
                    m = m + 1;
                }
                proof {
                    assert(vids@.take(vids@.len() as int) =~= vids@);
                    assert(rolled_back_vertices(ov0, next) =~= verts + vids@);
                }
            },
            None => {
                assert(!ov0.contains_key(owner));
                assert(rolled_back_vertices(ov0, next) =~= verts);
            },
        }
        k = k + 1;
    }
    proof {
        assert(bad_owners@.take(bad_owners@.len() as int) =~= bad_owners@);
    }
    (count, out)
}

} // verus!
