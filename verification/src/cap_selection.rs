//! Open boundary edges of a triangle mesh, and the selection of the cap triangles that
//! close a clipped surface: a flood fill over the candidate cap triangles, across shared
//! edges that are not mesh boundary barriers.
use vstd::prelude::*;
use std::collections::{HashMap, HashSet};
use crate::utils::{lemma_distinct_below, lemma_filter_take_step};

verus! {

broadcast use vstd::std_specs::hash::group_hash_axioms;

/// The undirected key of the edge between vertices `a` and `b`, for vertex ids below `n`:
/// the smaller id times `n` plus the larger.
pub open spec fn edge_key(a: usize, b: usize, n: nat) -> int {
    if a <= b {
        a * n + b
    } else {
        b * n + a
    }
}

/// Edge `k` of a triangle: from vertex `k` to the next one.
pub open spec fn tri_edge(tri: [usize; 3], k: int) -> (usize, usize) {
    (tri[k], tri[(k + 1) % 3])
}

/// Whether two vertex pairs are the same undirected edge.
pub open spec fn same_edge(e: (usize, usize), f: (usize, usize)) -> bool {
    (e.0 == f.0 && e.1 == f.1) || (e.0 == f.1 && e.1 == f.0)
}

/// Whether the edge `e` is one of the barrier edges, in either direction.
pub open spec fn is_barrier(barriers: Seq<(usize, usize)>, e: (usize, usize)) -> bool {
    exists|k: int| 0 <= k < barriers.len() && same_edge(#[trigger] barriers[k], e)
}

/// Whether triangle `t` can be reached from triangle `s` in one step: they share an edge
/// that is not a barrier.
pub open spec fn open_neighbours(
    tris: Seq<[usize; 3]>,
    barriers: Seq<(usize, usize)>,
    s: int,
    t: int,
) -> bool {
    exists|i: int, j: int|
        0 <= i < 3 && 0 <= j < 3 && same_edge(
            #[trigger] tri_edge(tris[s], i),
            #[trigger] tri_edge(tris[t], j),
        ) && !is_barrier(barriers, tri_edge(tris[s], i))
}

/// Whether `path` is a walk over the triangles, each step across an open shared edge.
pub open spec fn is_walk(tris: Seq<[usize; 3]>, barriers: Seq<(usize, usize)>, path: Seq<int>) -> bool {
    &&& path.len() >= 1
    &&& forall|k: int| 0 <= k < path.len() ==> 0 <= #[trigger] path[k] < tris.len()
    &&& forall|k: int|
        0 <= k < path.len() - 1 ==> open_neighbours(tris, barriers, #[trigger] path[k], path[k + 1])
}

/// Whether triangle `t` is reached by the flood fill: some walk starts at a seed and ends
/// at `t`.
pub open spec fn flood_reachable(
    tris: Seq<[usize; 3]>,
    barriers: Seq<(usize, usize)>,
    seeds: Seq<usize>,
    t: int,
) -> bool {
    exists|path: Seq<int>|
        #[trigger] is_walk(tris, barriers, path) && seeds.contains(path[0] as usize) && path.last()
            == t
}

/// Whether all vertex ids of the triangles and barriers lie below `n`.
pub open spec fn ids_below(tris: Seq<[usize; 3]>, barriers: Seq<(usize, usize)>, n: nat) -> bool {
    &&& forall|t: int, k: int| 0 <= t < tris.len() && 0 <= k < 3 ==> #[trigger] tris[t][k] < n
    &&& forall|b: int| 0 <= b < barriers.len() ==> #[trigger] barriers[b].0 < n && barriers[b].1 < n
}

/// Two edges with ids below `n` have the same key exactly when they are the same
/// undirected edge.
proof fn lemma_edge_key_injective(e: (usize, usize), f: (usize, usize), n: nat)
    requires
        e.0 < n,
        e.1 < n,
        f.0 < n,
        f.1 < n,
    ensures
        (edge_key(e.0, e.1, n) == edge_key(f.0, f.1, n)) == same_edge(e, f),
{
    let (lo1, hi1) = if e.0 <= e.1 { (e.0, e.1) } else { (e.1, e.0) };
    let (lo2, hi2) = if f.0 <= f.1 { (f.0, f.1) } else { (f.1, f.0) };
    if edge_key(e.0, e.1, n) == edge_key(f.0, f.1, n) {
        let x = edge_key(e.0, e.1, n);
        assert(x == lo1 * n + hi1);
        assert(x == lo2 * n + hi2);
        vstd::arithmetic::div_mod::lemma_fundamental_div_mod_converse(x, n as int, lo1 as int, hi1 as int);
        vstd::arithmetic::div_mod::lemma_fundamental_div_mod_converse(x, n as int, lo2 as int, hi2 as int);
    }
}

/// Computes the key of the undirected edge between `a` and `b`.
fn edge_key_of(a: usize, b: usize, n: usize) -> (key: u128)
    requires
        a < n,
        b < n,
    ensures
        key == edge_key(a, b, n as nat),
{
    let (lo, hi) = if a <= b {
        (a, b)
    } else {
        (b, a)
    };
    assert(lo * n + hi < n * n && n * n <= u128::MAX) by (nonlinear_arith)
        requires
            lo < n,
            hi < n,
            n as int <= 0xffff_ffff_ffff_ffffint,
    ;
    (lo as u128) * (n as u128) + (hi as u128)
}

/// The keys of the barrier edges.
fn barrier_keys(barrier_edges: &[(usize, usize)], n: usize) -> (keys: HashSet<u128>)
    requires
        forall|b: int|
            0 <= b < barrier_edges@.len() ==> #[trigger] barrier_edges@[b].0 < n
                && barrier_edges@[b].1 < n,
    ensures
        forall|k: u128|
            #[trigger] keys@.contains(k) <==> exists|b: int|
                0 <= b < barrier_edges@.len() && k == edge_key(
                    #[trigger] barrier_edges@[b].0,
                    barrier_edges@[b].1,
                    n as nat,
                ),
{
    let mut keys: HashSet<u128> = HashSet::new();
    let mut i: usize = 0;
    while i < barrier_edges.len()
        invariant
            i <= barrier_edges.len(),
            forall|b: int|
                0 <= b < barrier_edges@.len() ==> #[trigger] barrier_edges@[b].0 < n
                    && barrier_edges@[b].1 < n,
            forall|k: u128|
                #[trigger] keys@.contains(k) <==> exists|b: int|
                    0 <= b < i && k == edge_key(
                        #[trigger] barrier_edges@[b].0,
                        barrier_edges@[b].1,
                        n as nat,
                    ),
        decreases barrier_edges.len() - i,
    {
        let (a, b) = barrier_edges[i];
        assert(barrier_edges@[i as int].0 < n && barrier_edges@[i as int].1 < n);
        let key = edge_key_of(a, b, n);
        keys.insert(key);
        i = i + 1;
    }
    keys
}

/// Whether triangle `t` has an edge whose key is `key`.
pub open spec fn has_edge_key(tris: Seq<[usize; 3]>, t: int, key: int, n: nat) -> bool {
    exists|j: int| 0 <= j < 3 && edge_key(#[trigger] tri_edge(tris[t], j).0, tri_edge(tris[t], j).1, n) == key
}

/// Whether the map lists triangle `t` under `key`.
pub open spec fn listed(m: Map<u128, Vec<usize>>, key: u128, t: usize) -> bool {
    m.contains_key(key) && m[key]@.contains(t)
}

/// Maps each edge key to the triangles that have that edge.
fn edge_triangles(tris: &[[usize; 3]], n: usize) -> (edge_tris: HashMap<u128, Vec<usize>>)
    requires
        forall|t: int, k: int| 0 <= t < tris@.len() && 0 <= k < 3 ==> #[trigger] tris@[t][k] < n,
    ensures
        forall|key: u128, t: usize|
            #[trigger] listed(edge_tris@, key, t) <==> (t
                < tris@.len() && has_edge_key(tris@, t as int, key as int, n as nat)),
        forall|key: u128, t: usize|
            #[trigger] listed(edge_tris@, key, t) ==> t < tris@.len(),
{
    let mut edge_tris: HashMap<u128, Vec<usize>> = HashMap::new();
    let mut t: usize = 0;
    while t < tris.len()
        invariant
            t <= tris.len(),
            forall|t: int, k: int| 0 <= t < tris@.len() && 0 <= k < 3 ==> #[trigger] tris@[t][k] < n,
            forall|key: u128, s: usize|
                #[trigger] listed(edge_tris@, key, s) <==> (s
                    < t && has_edge_key(tris@, s as int, key as int, n as nat)),
        decreases tris.len() - t,
    {
        let tri = tris[t];
        let mut j: usize = 0;
        while j < 3
            invariant
                j <= 3,
                t < tris@.len(),
                tri == tris@[t as int],
                forall|t: int, k: int|
                    0 <= t < tris@.len() && 0 <= k < 3 ==> #[trigger] tris@[t][k] < n,
                forall|key: u128, s: usize|
                    #[trigger] listed(edge_tris@, key, s) <==> ((s
                        < t && has_edge_key(tris@, s as int, key as int, n as nat)) || (s == t
                        && exists|m: int|
                        0 <= m < j && edge_key(
                            #[trigger] tri_edge(tri, m).0,
                            tri_edge(tri, m).1,
                            n as nat,
                        ) == key)),
            decreases 3 - j,
        {
            let a = tri[j];
            let b = tri[(j + 1) % 3];
            assert(tris@[t as int][j as int] < n);
            assert(tris@[t as int][((j + 1) % 3) as int] < n);
            let key = edge_key_of(a, b, n);
            assert(tri_edge(tri, j as int) == (a, b));
            let ghost before = edge_tris@;
            let mut list = match edge_tris.remove(&key) {
                Some(list) => list,
                None => Vec::new(),
            };
            list.push(t);
            edge_tris.insert(key, list);
            proof {
                assert forall|k2: u128, s: usize|
                    #[trigger] listed(edge_tris@, k2, s) <==> ((s
                        < t && has_edge_key(tris@, s as int, k2 as int, n as nat)) || (s == t
                        && exists|m: int|
                        0 <= m < j + 1 && edge_key(
                            #[trigger] tri_edge(tri, m).0,
                            tri_edge(tri, m).1,
                            n as nat,
                        ) == k2)) by {
                    let rhs_old = (s < t && has_edge_key(tris@, s as int, k2 as int, n as nat)) || (
                    s == t && exists|m: int|
                        0 <= m < j && edge_key(
                            #[trigger] tri_edge(tri, m).0,
                            tri_edge(tri, m).1,
                            n as nat,
                        ) == k2);
                    assert(listed(before, k2, s) == rhs_old);
                    if k2 == key {
                        if s == t {
                            assert(edge_key(tri_edge(tri, j as int).0, tri_edge(tri, j as int).1, n as nat) == k2);
                            assert(edge_tris@[k2]@[edge_tris@[k2]@.len() - 1] == s);
                        }
                        if listed(before, k2, s) {
                            let w = choose|w: int| 0 <= w < before[k2]@.len() && before[k2]@[w] == s;
                            assert(edge_tris@[k2]@[w] == s);
                        }
                        if listed(edge_tris@, k2, s) && s != t {
                            let w = choose|w: int| 0 <= w < edge_tris@[k2]@.len() && edge_tris@[k2]@[w] == s;
                            assert(before.contains_key(k2));
                            assert(before[k2]@[w] == s);
                        }
                    } else {
                        assert(listed(edge_tris@, k2, s) == listed(before, k2, s));
                        if s == t {
                            if exists|m: int|
                                0 <= m < j + 1 && edge_key(
                                    #[trigger] tri_edge(tri, m).0,
                                    tri_edge(tri, m).1,
                                    n as nat,
                                ) == k2 {
                                let m = choose|m: int|
                                    0 <= m < j + 1 && edge_key(
                                        #[trigger] tri_edge(tri, m).0,
                                        tri_edge(tri, m).1,
                                        n as nat,
                                    ) == k2;
                                assert(m != j);
                            }
                        }
                    }
                }
            }
            j = j + 1;
        }
        proof {
            assert forall|key: u128, s: usize|
                #[trigger] listed(edge_tris@, key, s) <==> (s
                    < t + 1 && has_edge_key(tris@, s as int, key as int, n as nat)) by {
                if s == t {
                    if has_edge_key(tris@, s as int, key as int, n as nat) {
                        let m = choose|m: int|
                            0 <= m < 3 && edge_key(
                                #[trigger] tri_edge(tris@[s as int], m).0,
                                tri_edge(tris@[s as int], m).1,
                                n as nat,
                            ) == key;
                        assert(edge_key(tri_edge(tri, m).0, tri_edge(tri, m).1, n as nat) == key);
                    }
                }
            }
        }
        t = t + 1;
    }
    edge_tris
}

/// A walk to `s` followed by one open step reaches `t`.
proof fn lemma_extend_walk(
    tris: Seq<[usize; 3]>,
    barriers: Seq<(usize, usize)>,
    seeds: Seq<usize>,
    s: int,
    t: int,
)
    requires
        flood_reachable(tris, barriers, seeds, s),
        open_neighbours(tris, barriers, s, t),
        0 <= t < tris.len(),
    ensures
        flood_reachable(tris, barriers, seeds, t),
{
    let path = choose|path: Seq<int>|
        #[trigger] is_walk(tris, barriers, path) && seeds.contains(path[0] as usize) && path.last()
            == s;
    let longer = path.push(t);
    assert(longer[0] == path[0]);
    assert forall|k: int| 0 <= k < longer.len() - 1 implies open_neighbours(
        tris,
        barriers,
        #[trigger] longer[k],
        longer[k + 1],
    ) by {
        if k < path.len() - 1 {
            assert(longer[k] == path[k]);
            assert(longer[k + 1] == path[k + 1]);
        } else {
            assert(longer[k] == s);
        }
    }
    assert(is_walk(tris, barriers, longer));
}

/// A seed reaches itself.
proof fn lemma_seed_reachable(
    tris: Seq<[usize; 3]>,
    barriers: Seq<(usize, usize)>,
    seeds: Seq<usize>,
    k: int,
)
    requires
        0 <= k < seeds.len(),
        seeds[k] < tris.len(),
    ensures
        flood_reachable(tris, barriers, seeds, seeds[k] as int),
{
    let path = seq![seeds[k] as int];
    assert(seeds.contains(path[0] as usize));
    assert(is_walk(tris, barriers, path));
}

/// When every selected triangle's open neighbours are selected and every seed is selected,
/// every triangle on a walk from a seed is selected.
proof fn lemma_closed_selection_contains_walks(
    tris: Seq<[usize; 3]>,
    barriers: Seq<(usize, usize)>,
    seeds: Seq<usize>,
    selected: Seq<bool>,
    path: Seq<int>,
)
    requires
        selected.len() == tris.len(),
        tris.len() <= usize::MAX,
        forall|k: int| 0 <= k < seeds.len() ==> selected[#[trigger] seeds[k] as int],
        forall|s: int, t: int|
            0 <= s < tris.len() && 0 <= t < tris.len() && selected[s] && #[trigger] open_neighbours(
                tris,
                barriers,
                s,
                t,
            ) ==> selected[t],
        is_walk(tris, barriers, path),
        seeds.contains(path[0] as usize),
    ensures
        selected[path.last()],
    decreases path.len(),
{
    assert(0 <= path[0] < tris.len());
    if path.len() == 1 {
        let k = choose|k: int| 0 <= k < seeds.len() && seeds[k] == path[0] as usize;
        assert(seeds[k] as int == path[0]);
        assert(selected[seeds[k] as int]);
        assert(path.last() == path[0]);
    } else {
        let prefix = path.drop_last();
        assert forall|k: int| 0 <= k < prefix.len() - 1 implies open_neighbours(
            tris,
            barriers,
            #[trigger] prefix[k],
            prefix[k + 1],
        ) by {
            assert(prefix[k] == path[k]);
            assert(prefix[k + 1] == path[k + 1]);
        }
        assert(is_walk(tris, barriers, prefix));
        assert(prefix[0] == path[0]);
        lemma_closed_selection_contains_walks(tris, barriers, seeds, selected, prefix);
        let s = path[path.len() - 2];
        let t = path.last();
        assert(prefix.last() == s);
        assert(open_neighbours(tris, barriers, path[path.len() - 2], path[path.len() - 1]));
        assert(selected[s]);
        assert(0 <= s < tris.len() && 0 <= t < tris.len());
    }
}

/// The queue holds each selected triangle exactly once, and nothing else.
pub open spec fn queue_matches(selected: Seq<bool>, queue: Seq<usize>) -> bool {
    &&& queue.no_duplicates()
    &&& forall|k: int| 0 <= k < queue.len() ==> #[trigger] queue[k] < selected.len()
    &&& forall|t: int|
        0 <= t < selected.len() ==> (#[trigger] selected[t] <==> queue.contains(t as usize))
}

/// Every selected triangle is reached by the flood fill.
pub open spec fn selection_sound(
    tris: Seq<[usize; 3]>,
    barriers: Seq<(usize, usize)>,
    seeds: Seq<usize>,
    selected: Seq<bool>,
) -> bool {
    forall|t: int| 0 <= t < selected.len() && #[trigger] selected[t] ==> flood_reachable(tris, barriers, seeds, t)
}

/// Selects and enqueues each listed triangle not yet selected.
fn select_listed(
    list: &Vec<usize>,
    selected: &mut Vec<bool>,
    queue: &mut Vec<usize>,
    tris: &[[usize; 3]],
    barrier_edges: &[(usize, usize)],
    seeds: &[usize],
)
    requires
        old(selected)@.len() == tris@.len(),
        tris@.len() <= usize::MAX,
        queue_matches(old(selected)@, old(queue)@),
        selection_sound(tris@, barrier_edges@, seeds@, old(selected)@),
        forall|w: int| 0 <= w < list@.len() ==> #[trigger] list@[w] < tris@.len(),
        forall|w: int|
            0 <= w < list@.len() ==> flood_reachable(
                tris@,
                barrier_edges@,
                seeds@,
                #[trigger] list@[w] as int,
            ),
    ensures
        final(selected)@.len() == tris@.len(),
        queue_matches(final(selected)@, final(queue)@),
        selection_sound(tris@, barrier_edges@, seeds@, final(selected)@),
        final(queue)@.len() >= old(queue)@.len(),
        final(queue)@.subrange(0, old(queue)@.len() as int) == old(queue)@,
        forall|t: int| 0 <= t < tris@.len() && old(selected)@[t] ==> #[trigger] final(selected)@[t],
        forall|w: int| 0 <= w < list@.len() ==> #[trigger] final(selected)@[list@[w] as int],
{
    let ghost start_selected = selected@;
    let ghost start_queue = queue@;
    let mut w: usize = 0;
    while w < list.len()
        invariant
            w <= list.len(),
            selected@.len() == tris@.len(),
            tris@.len() <= usize::MAX,
            queue_matches(selected@, queue@),
            selection_sound(tris@, barrier_edges@, seeds@, selected@),
            forall|v: int| 0 <= v < list@.len() ==> #[trigger] list@[v] < tris@.len(),
            forall|v: int|
                0 <= v < list@.len() ==> flood_reachable(
                    tris@,
                    barrier_edges@,
                    seeds@,
                    #[trigger] list@[v] as int,
                ),
            queue@.len() >= start_queue.len(),
            queue@.subrange(0, start_queue.len() as int) == start_queue,
            forall|t: int| 0 <= t < tris@.len() && start_selected[t] ==> #[trigger] selected@[t],
            forall|v: int| 0 <= v < w ==> #[trigger] selected@[list@[v] as int],
        decreases list.len() - w,
    {
        let u = list[w];
        assert(u < tris@.len());
        if !selected[u] {
            let ghost before_sel = selected@;
            let ghost before_q = queue@;
            assert(!before_q.contains(u)) by {
                assert(before_sel[u as int] <==> before_q.contains(u as int as usize));
            }
            selected.set(u, true);
            queue.push(u);
            proof {
                assert forall|a: int, b: int|
                    0 <= a < queue@.len() && 0 <= b < queue@.len() && a != b implies queue@[a]
                    != queue@[b] by {
                    if a < before_q.len() && b < before_q.len() {
                    } else if a == before_q.len() {
                        assert(queue@[b] == before_q[b]);
                    } else {
                        assert(queue@[a] == before_q[a]);
                    }
                }
                assert forall|t: int|
                    0 <= t < selected@.len() implies (#[trigger] selected@[t] <==> queue@.contains(
                    t as usize,
                )) by {
                    if t == u as int {
                        assert(queue@[queue@.len() - 1] == u);
                    } else {
                        assert(selected@[t] == before_sel[t]);
                        if before_q.contains(t as usize) {
                            let k = choose|k: int| 0 <= k < before_q.len() && before_q[k] == t as usize;
                            assert(queue@[k] == t as usize);
                        }
                        if queue@.contains(t as usize) {
                            let k = choose|k: int| 0 <= k < queue@.len() && queue@[k] == t as usize;
                            assert(k < before_q.len());
                            assert(before_q[k] == t as usize);
                        }
                    }
                }
                assert(queue@.subrange(0, start_queue.len() as int) =~= start_queue) by {
                    assert forall|k: int| 0 <= k < start_queue.len() implies queue@[k] == start_queue[k] by {
                        assert(before_q.subrange(0, start_queue.len() as int)[k] == start_queue[k]);
                    }
                }
                assert(flood_reachable(tris@, barrier_edges@, seeds@, list@[w as int] as int));
            }
        }
        w = w + 1;
    }
}

/// Every open neighbour of the triangles in the first `head` queue entries is selected.
pub open spec fn processed_closed(
    tris: Seq<[usize; 3]>,
    barriers: Seq<(usize, usize)>,
    selected: Seq<bool>,
    queue: Seq<usize>,
    head: int,
) -> bool {
    forall|p: int, t: int|
        0 <= p < head && 0 <= t < tris.len() && #[trigger] open_neighbours(
            tris,
            barriers,
            queue[p] as int,
            t,
        ) ==> selected[t]
}

/// An open neighbour of `s` across its edge `j` has an edge with the same key, and that
/// key is not a barrier key.
proof fn lemma_open_neighbour_edge(
    tris: Seq<[usize; 3]>,
    barriers: Seq<(usize, usize)>,
    n: nat,
    s: int,
    t: int,
) -> (j: int)
    requires
        ids_below(tris, barriers, n),
        0 <= s < tris.len(),
        0 <= t < tris.len(),
        open_neighbours(tris, barriers, s, t),
    ensures
        0 <= j < 3,
        has_edge_key(tris, t, edge_key(tri_edge(tris[s], j).0, tri_edge(tris[s], j).1, n), n),
        !is_barrier(barriers, tri_edge(tris[s], j)),
{
    let (i, m) = choose|i: int, m: int|
        0 <= i < 3 && 0 <= m < 3 && same_edge(
            #[trigger] tri_edge(tris[s], i),
            #[trigger] tri_edge(tris[t], m),
        ) && !is_barrier(barriers, tri_edge(tris[s], i));
    let e = tri_edge(tris[s], i);
    let f = tri_edge(tris[t], m);
    assert(tris[s][i] < n && tris[s][(i + 1) % 3] < n);
    assert(tris[t][m] < n && tris[t][(m + 1) % 3] < n);
    lemma_edge_key_injective(e, f, n);
    assert(edge_key(tri_edge(tris[t], m).0, tri_edge(tris[t], m).1, n) == edge_key(e.0, e.1, n));
    i
}

/// Selects the candidate cap triangles of the ClosePositive region: the triangles reached
/// from the seed triangles by crossing shared edges that are not mesh boundary barriers.
/// The unselected triangles form the CloseNegative cap.
pub fn select_closed_plus(
    tris: &[[usize; 3]],
    num_vertices: usize,
    barrier_edges: &[(usize, usize)],
    seeds: &[usize],
) -> (selected: Vec<bool>)
    requires
        ids_below(tris@, barrier_edges@, num_vertices as nat),
        forall|k: int| 0 <= k < seeds@.len() ==> #[trigger] seeds@[k] < tris@.len(),
    ensures
        selected@.len() == tris@.len(),
        forall|t: int|
            0 <= t < tris@.len() ==> (#[trigger] selected@[t] <==> flood_reachable(
                tris@,
                barrier_edges@,
                seeds@,
                t,
            )),
{
    let ghost nv = num_vertices as nat;
    let n = tris.len();
    let edge_tris = edge_triangles(tris, num_vertices);
    let barriers = barrier_keys(barrier_edges, num_vertices);
    let mut selected: Vec<bool> = Vec::new();
    let mut z: usize = 0;
    while z < n
        invariant
            z <= n,
            selected@.len() == z,
            forall|t: int| 0 <= t < z ==> !#[trigger] selected@[t],
        decreases n - z,
    {
        selected.push(false);
        z = z + 1;
    }
    let mut queue: Vec<usize> = Vec::new();
    assert(queue_matches(selected@, queue@));
    let mut k: usize = 0;
    while k < seeds.len()
        invariant
            k <= seeds.len(),
            n == tris@.len(),
            selected@.len() == n,
            queue_matches(selected@, queue@),
            selection_sound(tris@, barrier_edges@, seeds@, selected@),
            forall|k: int| 0 <= k < seeds@.len() ==> #[trigger] seeds@[k] < tris@.len(),
            forall|m: int| 0 <= m < k ==> #[trigger] selected@[seeds@[m] as int],
        decreases seeds.len() - k,
    {
        let seed = vec![seeds[k]];
        proof {
            lemma_seed_reachable(tris@, barrier_edges@, seeds@, k as int);
            assert(seed@[0] == seeds@[k as int]);
        }
        let ghost before = selected@;
        select_listed(&seed, &mut selected, &mut queue, tris, barrier_edges, seeds);
        proof {
            assert(selected@[seed@[0] as int]);
            assert forall|m: int| 0 <= m < k + 1 implies #[trigger] selected@[seeds@[m] as int] by {
                if m < k {
                    assert(before[seeds@[m] as int]);
                }
            }
        }
        k = k + 1;
    }
    let mut head: usize = 0;
    while head < queue.len()
        invariant
            head <= queue@.len(),
            n == tris@.len(),
            ids_below(tris@, barrier_edges@, nv),
            nv == num_vertices as nat,
            selected@.len() == n,
            queue_matches(selected@, queue@),
            selection_sound(tris@, barrier_edges@, seeds@, selected@),
            forall|m: int| 0 <= m < seeds@.len() ==> #[trigger] selected@[seeds@[m] as int],
            forall|k: int| 0 <= k < seeds@.len() ==> #[trigger] seeds@[k] < tris@.len(),
            processed_closed(tris@, barrier_edges@, selected@, queue@, head as int),
            forall|key: u128, t: usize|
                #[trigger] listed(edge_tris@, key, t) <==> (t < tris@.len() && has_edge_key(
                    tris@,
                    t as int,
                    key as int,
                    nv,
                )),
            forall|key: u128|
                #[trigger] barriers@.contains(key) <==> exists|b: int|
                    0 <= b < barrier_edges@.len() && key == edge_key(
                        #[trigger] barrier_edges@[b].0,
                        barrier_edges@[b].1,
                        nv,
                    ),
        decreases n - head, n - queue@.len(),
    {
        proof {
            lemma_distinct_below(queue@, n as nat);
        }
        let s = queue[head];
        let tri = tris[s];
        let ghost head_sel = selected@;
        let ghost head_queue = queue@;
        let mut j: usize = 0;
        while j < 3
            invariant
                j <= 3,
                head < head_queue.len(),
                s == head_queue[head as int],
                s < n,
                forall|k: int| 0 <= k < seeds@.len() ==> #[trigger] seeds@[k] < tris@.len(),
                tri == tris@[s as int],
                n == tris@.len(),
                ids_below(tris@, barrier_edges@, nv),
                nv == num_vertices as nat,
                selected@.len() == n,
                queue_matches(selected@, queue@),
                selection_sound(tris@, barrier_edges@, seeds@, selected@),
                forall|m: int| 0 <= m < seeds@.len() ==> #[trigger] selected@[seeds@[m] as int],
                queue@.len() >= head_queue.len(),
                queue@.subrange(0, head_queue.len() as int) == head_queue,
                forall|t: int| 0 <= t < n && head_sel[t] ==> #[trigger] selected@[t],
                processed_closed(tris@, barrier_edges@, head_sel, head_queue, head as int),
                head_sel.len() == n,
                queue_matches(head_sel, head_queue),
                forall|i: int, t: int|
                    0 <= i < j && 0 <= t < n && has_edge_key(
                        tris@,
                        t,
                        edge_key(tri_edge(tri, i).0, tri_edge(tri, i).1, nv),
                        nv,
                    ) && !is_barrier(barrier_edges@, #[trigger] tri_edge(tri, i))
                        ==> #[trigger] selected@[t],
                forall|key: u128, t: usize|
                    #[trigger] listed(edge_tris@, key, t) <==> (t < tris@.len() && has_edge_key(
                        tris@,
                        t as int,
                        key as int,
                        nv,
                    )),
                forall|key: u128|
                    #[trigger] barriers@.contains(key) <==> exists|b: int|
                        0 <= b < barrier_edges@.len() && key == edge_key(
                            #[trigger] barrier_edges@[b].0,
                            barrier_edges@[b].1,
                            nv,
                        ),
            decreases 3 - j,
        {
            let a = tri[j];
            let b = tri[(j + 1) % 3];
            assert(tris@[s as int][j as int] < nv && tris@[s as int][((j + 1) % 3) as int] < nv);
            let key = edge_key_of(a, b, num_vertices);
            assert(tri_edge(tri, j as int) == (a, b));
            let barrier_key = barriers.contains(&key);
            proof {
                if barrier_key {
                    let w = choose|w: int|
                        0 <= w < barrier_edges@.len() && key == edge_key(
                            #[trigger] barrier_edges@[w].0,
                            barrier_edges@[w].1,
                            nv,
                        );
                    assert(barrier_edges@[w].0 < nv && barrier_edges@[w].1 < nv);
                    lemma_edge_key_injective(barrier_edges@[w], (a, b), nv);
                    assert(is_barrier(barrier_edges@, (a, b)));
                }
            }
            if !barrier_key {
                proof {
                    assert(!is_barrier(barrier_edges@, (a, b))) by {
                        if is_barrier(barrier_edges@, (a, b)) {
                            let w = choose|w: int|
                                0 <= w < barrier_edges@.len() && same_edge(
                                    #[trigger] barrier_edges@[w],
                                    (a, b),
                                );
                            assert(barrier_edges@[w].0 < nv && barrier_edges@[w].1 < nv);
                            lemma_edge_key_injective(barrier_edges@[w], (a, b), nv);
                            assert(barriers@.contains(key));
                        }
                    }
                }
                match edge_tris.get(&key) {
                    Some(list) => {
                        proof {
                            assert forall|w: int| 0 <= w < list@.len() implies #[trigger] list@[w]
                                < tris@.len() && flood_reachable(
                                tris@,
                                barrier_edges@,
                                seeds@,
                                list@[w] as int,
                            ) by {
                                let t = list@[w];
                                assert(listed(edge_tris@, key, t));
                                let m = choose|m: int|
                                    0 <= m < 3 && edge_key(
                                        #[trigger] tri_edge(tris@[t as int], m).0,
                                        tri_edge(tris@[t as int], m).1,
                                        nv,
                                    ) == key;
                                let f = tri_edge(tris@[t as int], m);
                                assert(tris@[t as int][m] < nv && tris@[t as int][(m + 1) % 3] < nv);
                                lemma_edge_key_injective((a, b), f, nv);
                                assert(open_neighbours(tris@, barrier_edges@, s as int, t as int));
                                assert(head_queue[head as int] == s);
                                assert(head_queue.contains(s));
                                assert(head_sel[s as int]);
                                assert(selected@[s as int]);
                                lemma_extend_walk(tris@, barrier_edges@, seeds@, s as int, t as int);
                            }
                        }
                        let ghost mid_queue = queue@;
                        let ghost mid_sel = selected@;
                        select_listed(list, &mut selected, &mut queue, tris, barrier_edges, seeds);
                        proof {
                            assert forall|i: int, t: int|
                                0 <= i < j && 0 <= t < n && has_edge_key(
                                    tris@,
                                    t,
                                    edge_key(tri_edge(tri, i).0, tri_edge(tri, i).1, nv),
                                    nv,
                                ) && !is_barrier(barrier_edges@, #[trigger] tri_edge(tri, i))
                                    implies #[trigger] selected@[t] by {
                                assert(mid_sel[t]);
                            }
                            assert(queue@.subrange(0, head_queue.len() as int) =~= head_queue) by {
                                assert forall|q: int| 0 <= q < head_queue.len() implies queue@[q]
                                    == head_queue[q] by {
                                    assert(queue@.subrange(0, mid_queue.len() as int)[q] == mid_queue[q]);
                                    assert(mid_queue.subrange(0, head_queue.len() as int)[q] == head_queue[q]);
                                }
                            }
                            assert forall|t: int|
                                0 <= t < n && has_edge_key(tris@, t, key as int, nv) implies #[trigger] selected@[t] by {
                                assert(listed(edge_tris@, key, t as usize));
                                let w = choose|w: int| 0 <= w < list@.len() && list@[w] == t as usize;
                                assert(selected@[list@[w] as int]);
                            }
                        }
                    },
                    None => {
                        proof {
                            assert forall|t: int|
                                0 <= t < n && has_edge_key(tris@, t, key as int, nv) implies false by {
                                assert(listed(edge_tris@, key, t as usize));
                            }
                        }
                    },
                }
            }
            j = j + 1;
        }
        proof {
            assert forall|p: int, t: int|
                0 <= p < head + 1 && 0 <= t < tris@.len() && #[trigger] open_neighbours(
                    tris@,
                    barrier_edges@,
                    queue@[p] as int,
                    t,
                ) implies selected@[t] by {
                assert(queue@[p] == head_queue[p]) by {
                    assert(queue@.subrange(0, head_queue.len() as int)[p] == head_queue[p]);
                }
                if p < head {
                    assert(head_sel[t]);
                } else {
                    let i = lemma_open_neighbour_edge(tris@, barrier_edges@, nv, s as int, t);
                    assert(tri_edge(tri, i) == tri_edge(tris@[s as int], i));
                }
            }
        }
        head = head + 1;
    }
    proof {
        assert forall|t: int| 0 <= t < tris@.len() implies (#[trigger] selected@[t] <==> flood_reachable(
            tris@,
            barrier_edges@,
            seeds@,
            t,
        )) by {
            if flood_reachable(tris@, barrier_edges@, seeds@, t) {
                let path = choose|path: Seq<int>|
                    #[trigger] is_walk(tris@, barrier_edges@, path) && seeds@.contains(
                        path[0] as usize,
                    ) && path.last() == t;
                assert forall|s2: int, t2: int|
                    0 <= s2 < tris@.len() && 0 <= t2 < tris@.len() && selected@[s2]
                        && #[trigger] open_neighbours(tris@, barrier_edges@, s2, t2)
                        implies selected@[t2] by {
                    assert(queue@.contains(s2 as usize));
                    let p = choose|p: int| 0 <= p < queue@.len() && queue@[p] == s2 as usize;
                    assert(open_neighbours(tris@, barrier_edges@, queue@[p] as int, t2));
                }
                lemma_closed_selection_contains_walks(
                    tris@,
                    barrier_edges@,
                    seeds@,
                    selected@,
                    path,
                );
            }
        }
    }
    selected
}

/// The oriented edges of the complete facets (three vertex ids each), three per facet in
/// facet order: `(v0, v1)`, `(v1, v2)`, `(v2, v0)`.
pub open spec fn facet_edge_list(facets: Seq<usize>) -> Seq<(usize, usize)> {
    Seq::new(
        3 * (facets.len() / 3),
        |i: int| (facets[3 * (i / 3) + i % 3], facets[3 * (i / 3) + (i % 3 + 1) % 3]),
    )
}

/// How many of the first `m` edges are the undirected edge `e`.
pub open spec fn edge_multiplicity(edges: Seq<(usize, usize)>, e: (usize, usize), m: nat) -> nat
    decreases m,
{
    if m == 0 {
        0
    } else {
        edge_multiplicity(edges, e, (m - 1) as nat) + if same_edge(edges[m - 1], e) {
            1nat
        } else {
            0nat
        }
    }
}

/// Whether an edge is used by exactly one facet edge.
pub open spec fn used_once(edges: Seq<(usize, usize)>) -> spec_fn((usize, usize)) -> bool {
    |e: (usize, usize)| edge_multiplicity(edges, e, edges.len()) == 1
}

/// The open boundary of a triangle mesh: the facet edges that no other facet edge shares,
/// each oriented as in its facet, in facet order.
pub open spec fn open_boundary(facets: Seq<usize>) -> Seq<(usize, usize)> {
    facet_edge_list(facets).filter(used_once(facet_edge_list(facets)))
}

/// How many of the first `m` edges have key `key`.
spec fn key_multiplicity(edges: Seq<(usize, usize)>, key: int, n: nat, m: nat) -> nat
    decreases m,
{
    if m == 0 {
        0
    } else {
        key_multiplicity(edges, key, n, (m - 1) as nat) + if edge_key(
            edges[m - 1].0,
            edges[m - 1].1,
            n,
        ) == key {
            1nat
        } else {
            0nat
        }
    }
}

/// Counting by key counts the same undirected edges, for ids below `n`.
proof fn lemma_key_multiplicity(edges: Seq<(usize, usize)>, e: (usize, usize), n: nat, m: nat)
    requires
        m <= edges.len(),
        e.0 < n,
        e.1 < n,
        forall|i: int| 0 <= i < edges.len() ==> #[trigger] edges[i].0 < n && edges[i].1 < n,
    ensures
        key_multiplicity(edges, edge_key(e.0, e.1, n), n, m) == edge_multiplicity(edges, e, m),
    decreases m,
{
    if m > 0 {
        lemma_key_multiplicity(edges, e, n, (m - 1) as nat);
        assert(edges[m - 1].0 < n && edges[m - 1].1 < n);
        lemma_edge_key_injective(edges[m - 1], e, n);
    }
}

/// Returns the open boundary edges of a triangle mesh given as a flat list of facet
/// vertex ids: the oriented facet edges that no other facet edge shares, in facet order.
pub fn open_boundary_edges(facets: &[usize], num_vertices: usize) -> (edges: Vec<(usize, usize)>)
    requires
        forall|i: int| 0 <= i < facets@.len() ==> #[trigger] facets@[i] < num_vertices,
    ensures
        edges@ == open_boundary(facets@),
{
    let ghost nv = num_vertices as nat;
    let ghost all = facet_edge_list(facets@);
    let num_facets = facets.len() / 3;
    let mut list: Vec<(usize, usize)> = Vec::new();
    let mut c: usize = 0;
    while c < num_facets
        invariant
            c <= num_facets,
            num_facets == facets@.len() / 3,
            all == facet_edge_list(facets@),
            list@.len() == 3 * c,
            forall|i: int| 0 <= i < 3 * c ==> #[trigger] list@[i] == all[i],
        decreases num_facets - c,
    {
        assert(3 * c + 2 < facets@.len()) by (nonlinear_arith)
            requires
                c < num_facets,
                num_facets == facets@.len() / 3,
        ;
        assert(3 * c + 2 < facets.len());
        let base = 3 * c;
        let a = facets[base];
        let b = facets[base + 1];
        let d = facets[base + 2];
        list.push((a, b));
        list.push((b, d));
        list.push((d, a));
        proof {
            assert forall|i: int| 0 <= i < 3 * (c + 1) implies #[trigger] list@[i] == all[i] by {
                if i >= 3 * c {
                    assert(i / 3 == c as int);
                    assert(i % 3 == i - 3 * c);
                }
            }
        }
        c = c + 1;
    }
    assert(list@ =~= all);
    let mut counts: HashMap<u128, usize> = HashMap::new();
    let mut i: usize = 0;
    while i < list.len()
        invariant
            i <= list.len(),
            list@ == all,
            forall|i: int| 0 <= i < facets@.len() ==> #[trigger] facets@[i] < num_vertices,
            forall|j: int| 0 <= j < all.len() ==> #[trigger] all[j].0 < nv && all[j].1 < nv,
            nv == num_vertices as nat,
            forall|key: u128|
                #[trigger] counts@.contains_key(key) <==> key_multiplicity(all, key as int, nv, i as nat) > 0,
            forall|key: u128|
                #[trigger] counts@.contains_key(key) ==> counts@[key] == key_multiplicity(
                    all,
                    key as int,
                    nv,
                    i as nat,
                ),
            forall|key: u128| #[trigger] counts@.contains_key(key) ==> counts@[key] <= i,
        decreases list.len() - i,
    {
        let (a, b) = list[i];
        assert(all[i as int].0 < nv && all[i as int].1 < nv);
        let key = edge_key_of(a, b, num_vertices);
        let count = match counts.get(&key) {
            Some(count) => *count,
            None => 0,
        };
        counts.insert(key, count + 1);
        i = i + 1;
    }
    proof {
        assert forall|j: int| 0 <= j < all.len() implies #[trigger] all[j].0 < nv && all[j].1 < nv by {
            let c = j / 3;
            assert(facets@[3 * c + j % 3] < nv);
            assert(facets@[3 * c + (j % 3 + 1) % 3] < nv);
        }
    }
    let ghost pred = used_once(all);
    let mut edges: Vec<(usize, usize)> = Vec::new();
    let mut r: usize = 0;
    while r < list.len()
        invariant
            r <= list.len(),
            list@ == all,
            pred == used_once(all),
            forall|j: int| 0 <= j < all.len() ==> #[trigger] all[j].0 < nv && all[j].1 < nv,
            nv == num_vertices as nat,
            forall|key: u128|
                #[trigger] counts@.contains_key(key) <==> key_multiplicity(all, key as int, nv, all.len()) > 0,
            forall|key: u128|
                #[trigger] counts@.contains_key(key) ==> counts@[key] == key_multiplicity(
                    all,
                    key as int,
                    nv,
                    all.len(),
                ),
            edges@ == all.take(r as int).filter(pred),
        decreases list.len() - r,
    {
        let (a, b) = list[r];
        assert(all[r as int].0 < nv && all[r as int].1 < nv);
        let key = edge_key_of(a, b, num_vertices);
        let once = match counts.get(&key) {
            Some(count) => *count == 1,
            None => false,
        };
        proof {
            lemma_key_multiplicity(all, (a, b), nv, all.len());
            assert(once == pred(all[r as int]));
            lemma_filter_take_step(all, pred, r as int);
        }
        if once {
            edges.push((a, b));
        }
        r = r + 1;
    }
    assert(all.take(r as int) =~= all);
    edges
}

} // verus!
