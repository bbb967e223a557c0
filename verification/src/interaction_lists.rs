//! Interaction lists of the cells of an adaptive linear tree for the fast multipole method.
//!
//! For a cell `B`:
//! - its colleagues are the cells at its level that touch it;
//! - its U-list (leaves only) holds the leaves adjacent to `B`, `B` included;
//! - its V-list holds the children of its parent's colleagues that are not adjacent to it;
//! - its W-list (leaves only) holds the descendants of its colleagues that are not adjacent
//!   to it but whose parent is;
//! - its X-list holds the cells that have `B` on their W-list.
//!
//! Adjacency (sharing a vertex, edge or face) is decided by a test the caller supplies.
use vstd::prelude::*;
use std::collections::{HashMap, HashSet};
use vstd::std_specs::iter::IteratorSpec;
use crate::morton::{
    ancestor_of, first_child_of, get_children, get_neighbours, get_parent, lemma_neighbour_level,
    lemma_parent_level, level_of, morton_key, neighbour_anchor, neighbour_in_bounds,
    neighbour_keys, num_children, num_directions, parent_of, sibling_of, zero_direction,
    Dimensions,
};

verus! {

broadcast use vstd::std_specs::hash::group_hash_axioms;

/// Whether the adjacency test reports cells `a` and `b` as adjacent.
pub open spec fn adjacent_cells<F: Fn(u64, u64) -> bool>(adjacent: F, a: u64, b: u64) -> bool {
    adjacent.ensures((a, b), true)
}

/// Whether the adjacency test accepts any two cells and always gives the same answer for
/// the same two cells.
pub open spec fn adjacency_test<F: Fn(u64, u64) -> bool>(adjacent: F) -> bool {
    &&& forall|a: u64, b: u64| #[trigger] adjacent.requires((a, b))
    &&& forall|a: u64, b: u64, r: bool|
        #[trigger] adjacent.ensures((a, b), r) ==> r == adjacent.ensures((a, b), true)
}

/// The children of a cell, in child-index order.
pub open spec fn child_keys(key: u64, dimensions: Dimensions) -> Seq<u64> {
    Seq::new(
        num_children(dimensions) as nat,
        |s: int| sibling_of(first_child_of(key, dimensions), dimensions, s as u64),
    )
}

/// The colleagues of a cell: the cells at its level that touch it, inside the level's grid.
pub open spec fn colleague_keys(key: u64, dimensions: Dimensions) -> Seq<u64> {
    neighbour_keys(key, dimensions, num_directions(dimensions) as nat)
}

/// Whether `c` is a child of one of the colleagues of `key`.
pub open spec fn child_of_colleague(key: u64, dimensions: Dimensions, c: u64) -> bool {
    exists|col: u64|
        #[trigger] colleague_keys(key, dimensions).contains(col) && child_keys(
            col,
            dimensions,
        ).contains(c)
}

/// The V-list of `key`: the children of its parent's colleagues that are in the tree and
/// not adjacent to it (empty at the root).
pub open spec fn v_list<F: Fn(u64, u64) -> bool>(
    adjacent: F,
    tree: Set<u64>,
    dimensions: Dimensions,
    key: u64,
) -> Set<u64> {
    Set::new(
        |c: u64|
            level_of(key) > 0 && tree.contains(c) && !adjacent_cells(adjacent, key, c)
                && child_of_colleague(parent_of(key, dimensions), dimensions, c),
    )
}

/// Whether walking up from colleague `col` of `key` meets the leaf `a`: every cell from
/// `col` up to `a` is adjacent to `key`, and no cell below `a` on the way is a leaf.
pub open spec fn leaf_above_colleague<F: Fn(u64, u64) -> bool>(
    adjacent: F,
    leaves: Set<u64>,
    dimensions: Dimensions,
    key: u64,
    col: u64,
    a: u64,
) -> bool {
    exists|k: nat|
        k <= level_of(col) && a == #[trigger] ancestor_of(col, dimensions, k) && leaves.contains(a)
            && (forall|j: nat|
            j <= k ==> adjacent_cells(adjacent, key, #[trigger] ancestor_of(col, dimensions, j)))
            && (forall|j: nat| j < k ==> !leaves.contains(#[trigger] ancestor_of(col, dimensions, j)))
}

/// Whether cell `c` lies in layer `m` of the search below the colleagues of `key`: layer
/// zero holds the children of the colleagues that are in the tree, and each later layer the
/// children in the tree of the cells of the previous layer that are adjacent to `key` and
/// not leaves.
pub open spec fn descendant_layer<F: Fn(u64, u64) -> bool>(
    adjacent: F,
    tree: Set<u64>,
    leaves: Set<u64>,
    dimensions: Dimensions,
    key: u64,
    m: nat,
    c: u64,
) -> bool
    decreases m,
{
    if m == 0 {
        tree.contains(c) && child_of_colleague(key, dimensions, c)
    } else {
        tree.contains(c) && exists|p: u64|
            descendant_layer(adjacent, tree, leaves, dimensions, key, (m - 1) as nat, p)
                && adjacent_cells(adjacent, key, p) && !leaves.contains(p) && #[trigger] child_keys(
                p,
                dimensions,
            ).contains(c)
    }
}

/// Whether `c` lies in some layer of the search below the colleagues of `key`.
pub open spec fn below_colleagues<F: Fn(u64, u64) -> bool>(
    adjacent: F,
    tree: Set<u64>,
    leaves: Set<u64>,
    dimensions: Dimensions,
    key: u64,
    c: u64,
) -> bool {
    exists|m: nat| #[trigger] descendant_layer(adjacent, tree, leaves, dimensions, key, m, c)
}

/// Whether `key` is a leaf below the root, the cells that have U- and W-lists.
pub open spec fn has_near_lists(leaves: Set<u64>, key: u64) -> bool {
    level_of(key) > 0 && leaves.contains(key)
}

/// The U-list of `key`: for a leaf below the root, itself, the leaves met walking up from
/// its colleagues, and the adjacent leaves met searching below them; otherwise empty.
pub open spec fn u_list<F: Fn(u64, u64) -> bool>(
    adjacent: F,
    tree: Set<u64>,
    leaves: Set<u64>,
    dimensions: Dimensions,
    key: u64,
) -> Set<u64> {
    Set::new(
        |c: u64|
            has_near_lists(leaves, key) && (c == key || (exists|col: u64|
                #[trigger] colleague_keys(key, dimensions).contains(col) && leaf_above_colleague(
                    adjacent,
                    leaves,
                    dimensions,
                    key,
                    col,
                    c,
                )) || (below_colleagues(adjacent, tree, leaves, dimensions, key, c)
                && adjacent_cells(adjacent, key, c) && leaves.contains(c))),
    )
}

/// The W-list of `key`: for a leaf below the root, the cells met searching below its
/// colleagues that are not adjacent to it; otherwise empty.
pub open spec fn w_list<F: Fn(u64, u64) -> bool>(
    adjacent: F,
    tree: Set<u64>,
    leaves: Set<u64>,
    dimensions: Dimensions,
    key: u64,
) -> Set<u64> {
    Set::new(
        |c: u64|
            has_near_lists(leaves, key) && below_colleagues(
                adjacent,
                tree,
                leaves,
                dimensions,
                key,
                c,
            ) && !adjacent_cells(adjacent, key, c),
    )
}

/// The X-list of `c`: the cells of the tree that have `c` on their W-list.
pub open spec fn x_list<F: Fn(u64, u64) -> bool>(
    adjacent: F,
    tree: Set<u64>,
    leaves: Set<u64>,
    dimensions: Dimensions,
    c: u64,
) -> Set<u64> {
    Set::new(
        |key: u64| tree.contains(key) && w_list(adjacent, tree, leaves, dimensions, key).contains(c),
    )
}

/// A child lies one level below its parent.
pub proof fn lemma_child_level(key: u64, dimensions: Dimensions, s: u64)
    requires
        s < num_children(dimensions),
        level_of(key) < 0x7fff,
    ensures
        level_of(sibling_of(first_child_of(key, dimensions), dimensions, s)) == level_of(key) + 1,
{
    let d = dimensions.spec_count();
    assert({
        let l = key & 0x7fff;
        let fc = (((key >> 15u64) << d) << 15u64) | ((l + 1) as u64);
        let lc = fc & 0x7fff;
        let child = (((((fc >> 15u64) >> d) << d) | s) << 15u64) | lc;
        child & 0x7fff == l + 1
    }) by (bit_vector)
        requires
            d <= 3,
            key & 0x7fff < 0x7fff,
    ;
}

/// Colleagues lie at the level of the cell.
proof fn lemma_colleague_level(key: u64, dimensions: Dimensions, n: nat, col: u64)
    requires
        neighbour_keys(key, dimensions, n).contains(col),
    ensures
        level_of(col) == level_of(key),
    decreases n,
{
    if n > 0 {
        let prev = neighbour_keys(key, dimensions, (n - 1) as nat);
        let j = (n - 1) as u64;
        if prev.contains(col) {
            lemma_colleague_level(key, dimensions, (n - 1) as nat, col);
        } else {
            assert(j != zero_direction(dimensions) && neighbour_in_bounds(key, dimensions, j));
            assert(col == morton_key(neighbour_anchor(key, dimensions, j), dimensions));
            lemma_neighbour_level(key, dimensions, j);
        }
    }
}

/// Cells in layer `m` below the colleagues of `key` lie `m + 1` levels below `key`.
proof fn lemma_layer_level<F: Fn(u64, u64) -> bool>(
    adjacent: F,
    tree: Set<u64>,
    leaves: Set<u64>,
    dimensions: Dimensions,
    key: u64,
    m: nat,
    c: u64,
)
    requires
        descendant_layer(adjacent, tree, leaves, dimensions, key, m, c),
        level_of(key) + m < 0x7fff,
    ensures
        level_of(c) == level_of(key) + m + 1,
    decreases m,
{
    if m == 0 {
        let col = choose|col: u64|
            #[trigger] colleague_keys(key, dimensions).contains(col) && child_keys(
                col,
                dimensions,
            ).contains(c);
        lemma_colleague_level(key, dimensions, num_directions(dimensions) as nat, col);
        let s = choose|s: int| 0 <= s < child_keys(col, dimensions).len() && child_keys(col, dimensions)[s] == c;
        lemma_child_level(col, dimensions, s as u64);
    } else {
        let p = choose|p: u64|
            descendant_layer(adjacent, tree, leaves, dimensions, key, (m - 1) as nat, p)
                && adjacent_cells(adjacent, key, p) && !leaves.contains(p) && #[trigger] child_keys(
                p,
                dimensions,
            ).contains(c);
        lemma_layer_level(adjacent, tree, leaves, dimensions, key, (m - 1) as nat, p);
        let s = choose|s: int| 0 <= s < child_keys(p, dimensions).len() && child_keys(p, dimensions)[s] == c;
        lemma_child_level(p, dimensions, s as u64);
    }
}

/// Once a layer is empty, every later layer is empty.
proof fn lemma_empty_layer_stays_empty<F: Fn(u64, u64) -> bool>(
    adjacent: F,
    tree: Set<u64>,
    leaves: Set<u64>,
    dimensions: Dimensions,
    key: u64,
    m: nat,
    m2: nat,
    c: u64,
)
    requires
        m <= m2,
        forall|c: u64| !#[trigger] descendant_layer(adjacent, tree, leaves, dimensions, key, m, c),
    ensures
        !descendant_layer(adjacent, tree, leaves, dimensions, key, m2, c),
    decreases m2,
{
    if m2 > m {
        if descendant_layer(adjacent, tree, leaves, dimensions, key, m2, c) {
            let p = choose|p: u64|
                descendant_layer(adjacent, tree, leaves, dimensions, key, (m2 - 1) as nat, p)
                    && adjacent_cells(adjacent, key, p) && !leaves.contains(p) && #[trigger] child_keys(
                    p,
                    dimensions,
                ).contains(c);
            lemma_empty_layer_stays_empty(adjacent, tree, leaves, dimensions, key, m, (m2 - 1) as nat, p);
        }
    }
}

/// Whether `c` is a child of one of the first `i` cells listed.
pub open spec fn child_of_listed(cells: Seq<u64>, dimensions: Dimensions, i: int, c: u64) -> bool {
    exists|k: int| 0 <= k < i && #[trigger] child_keys(cells[k], dimensions).contains(c)
}

/// The children of a cell, as computed.
fn children_of(key: u64, dimensions: &Dimensions) -> (children: Vec<u64>)
    ensures
        children@ == child_keys(key, *dimensions),
{
    let children = get_children(&key, dimensions);
    assert(children@ =~= child_keys(key, *dimensions));
    children
}

/// The V-list of a cell below the root, given its parent.
fn v_list_of<F: Fn(u64, u64) -> bool>(
    key: u64,
    parent: u64,
    tree: &HashSet<u64>,
    dimensions: &Dimensions,
    adjacent: &F,
) -> (v: HashSet<u64>)
    requires
        adjacency_test(*adjacent),
        level_of(key) > 0,
        parent == parent_of(key, *dimensions),
        level_of(parent) < 64,
    ensures
        v@ == v_list(*adjacent, tree@, *dimensions, key),
{
    let colleagues = get_neighbours(parent, dimensions);
    let ghost cols = colleagues@;
    let mut v: HashSet<u64> = HashSet::new();
    let mut i: usize = 0;
    while i < colleagues.len()
        invariant
            i <= colleagues.len(),
            cols == colleagues@,
            adjacency_test(*adjacent),
            forall|c: u64|
                #[trigger] v@.contains(c) <==> (tree@.contains(c) && !adjacent_cells(
                    *adjacent,
                    key,
                    c,
                ) && child_of_listed(cols, *dimensions, i as int, c)),
        decreases colleagues.len() - i,
    {
        let children = children_of(colleagues[i], dimensions);
        let mut k: usize = 0;
        while k < children.len()
            invariant
                k <= children.len(),
                i < colleagues.len(),
                cols == colleagues@,
                children@ == child_keys(cols[i as int], *dimensions),
                adjacency_test(*adjacent),
                forall|c: u64|
                    #[trigger] v@.contains(c) <==> (tree@.contains(c) && !adjacent_cells(
                        *adjacent,
                        key,
                        c,
                    ) && (child_of_listed(cols, *dimensions, i as int, c) || exists|t: int|
                        0 <= t < k && children@[t] == c)),
            decreases children.len() - k,
        {
            let c = children[k];
            if tree.contains(&c) && !adjacent(key, c) {
                v.insert(c);
            }
            k = k + 1;
        }
        proof {
            assert forall|c: u64|
                #[trigger] v@.contains(c) <==> (tree@.contains(c) && !adjacent_cells(
                    *adjacent,
                    key,
                    c,
                ) && child_of_listed(cols, *dimensions, i + 1, c)) by {
                if child_of_listed(cols, *dimensions, i + 1, c) && !child_of_listed(
                    cols,
                    *dimensions,
                    i as int,
                    c,
                ) {
                    let k2 = choose|k2: int|
                        0 <= k2 < i + 1 && #[trigger] child_keys(cols[k2], *dimensions).contains(c);
                    assert(k2 == i);
                }
                if exists|t: int| 0 <= t < children@.len() && children@[t] == c {
                    assert(child_keys(cols[i as int], *dimensions).contains(c));
                }
            }
        }
        i = i + 1;
    }
    proof {
        assert forall|c: u64| #[trigger] v@.contains(c) == v_list(*adjacent, tree@, *dimensions, key).contains(c) by {
            if child_of_listed(cols, *dimensions, cols.len() as int, c) {
                let k2 = choose|k2: int|
                    0 <= k2 < cols.len() && #[trigger] child_keys(cols[k2], *dimensions).contains(c);
                assert(colleague_keys(parent, *dimensions).contains(cols[k2]));
            }
            if child_of_colleague(parent, *dimensions, c) {
                let col = choose|col: u64|
                    #[trigger] colleague_keys(parent, *dimensions).contains(col) && child_keys(
                        col,
                        *dimensions,
                    ).contains(c);
                let k2 = choose|k2: int| 0 <= k2 < cols.len() && cols[k2] == col;
                assert(child_keys(cols[k2], *dimensions).contains(c));
            }
        }
        assert(v@ =~= v_list(*adjacent, tree@, *dimensions, key));
    }
    v
}

/// Walks up from colleague `col` of `key` while the cells are adjacent to `key` and not
/// leaves; returns the leaf met, if any.
fn leaf_above<F: Fn(u64, u64) -> bool>(
    key: u64,
    col: u64,
    leaves: &HashSet<u64>,
    dimensions: &Dimensions,
    adjacent: &F,
) -> (found: Option<u64>)
    requires
        adjacency_test(*adjacent),
    ensures
        match found {
            Some(a) => leaf_above_colleague(*adjacent, leaves@, *dimensions, key, col, a),
            None => forall|a: u64|
                !#[trigger] leaf_above_colleague(*adjacent, leaves@, *dimensions, key, col, a),
        },
{
    let mut cur = col;
    let ghost mut k: nat = 0;
    loop
        invariant
            adjacency_test(*adjacent),
            k <= level_of(col),
            cur == ancestor_of(col, *dimensions, k),
            level_of(cur) == level_of(col) - k,
            forall|j: nat|
                j < k ==> adjacent_cells(*adjacent, key, #[trigger] ancestor_of(col, *dimensions, j))
                    && !leaves@.contains(ancestor_of(col, *dimensions, j)),
        decreases level_of(cur),
    {
        if !adjacent(key, cur) {
            proof {
                assert forall|a: u64|
                    !#[trigger] leaf_above_colleague(*adjacent, leaves@, *dimensions, key, col, a) by {
                    if leaf_above_colleague(*adjacent, leaves@, *dimensions, key, col, a) {
                        let k2 = choose|k2: nat|
                            k2 <= level_of(col) && a == #[trigger] ancestor_of(col, *dimensions, k2)
                                && leaves@.contains(a) && (forall|j: nat|
                                j <= k2 ==> adjacent_cells(
                                    *adjacent,
                                    key,
                                    #[trigger] ancestor_of(col, *dimensions, j),
                                )) && (forall|j: nat|
                                j < k2 ==> !leaves@.contains(
                                    #[trigger] ancestor_of(col, *dimensions, j),
                                ));
                        if k2 < k {
                            assert(!leaves@.contains(ancestor_of(col, *dimensions, k2)));
                        } else {
                            assert(adjacent_cells(*adjacent, key, ancestor_of(col, *dimensions, k)));
                        }
                    }
                }
            }
            return None;
        }
        if leaves.contains(&cur) {
            proof {
                assert(forall|j: nat|
                    j <= k ==> adjacent_cells(*adjacent, key, #[trigger] ancestor_of(col, *dimensions, j)));
            }
            return Some(cur);
        }
        match get_parent(&cur, dimensions) {
            Some(p) => {
                proof {
                    lemma_parent_level(cur, *dimensions);
                    assert(ancestor_of(col, *dimensions, k + 1) == p);
                    k = k + 1;
                }
                cur = p;
            },
            None => {
                proof {
                    assert forall|a: u64|
                        !#[trigger] leaf_above_colleague(*adjacent, leaves@, *dimensions, key, col, a) by {
                        if leaf_above_colleague(*adjacent, leaves@, *dimensions, key, col, a) {
                            let k2 = choose|k2: nat|
                                k2 <= level_of(col) && a == #[trigger] ancestor_of(col, *dimensions, k2)
                                    && leaves@.contains(a) && (forall|j: nat|
                                    j <= k2 ==> adjacent_cells(
                                        *adjacent,
                                        key,
                                        #[trigger] ancestor_of(col, *dimensions, j),
                                    )) && (forall|j: nat|
                                    j < k2 ==> !leaves@.contains(
                                        #[trigger] ancestor_of(col, *dimensions, j),
                                    ));
                            if k2 < k {
                                assert(!leaves@.contains(ancestor_of(col, *dimensions, k2)));
                            }
                        }
                    }
                }
                return None;
            },
        }
    }
}

/// Whether `c` lies in one of the first `m` layers below the colleagues of `key`.
pub open spec fn in_layers_before<F: Fn(u64, u64) -> bool>(
    adjacent: F,
    tree: Set<u64>,
    leaves: Set<u64>,
    dimensions: Dimensions,
    key: u64,
    m: nat,
    c: u64,
) -> bool {
    exists|m2: nat| m2 < m && #[trigger] descendant_layer(adjacent, tree, leaves, dimensions, key, m2, c)
}

/// The children in the tree of the colleagues of `key`: the first search layer.
fn first_layer(
    key: u64,
    colleagues: &Vec<u64>,
    tree: &HashSet<u64>,
    dimensions: &Dimensions,
) -> (layer: Vec<u64>)
    requires
        colleagues@ == colleague_keys(key, *dimensions),
    ensures
        forall|c: u64|
            #[trigger] layer@.contains(c) <==> tree@.contains(c) && child_of_colleague(
                key,
                *dimensions,
                c,
            ),
{
    let ghost cols = colleagues@;
    let mut layer: Vec<u64> = Vec::new();
    let mut i: usize = 0;
    while i < colleagues.len()
        invariant
            i <= colleagues.len(),
            cols == colleagues@,
            forall|c: u64|
                #[trigger] layer@.contains(c) <==> tree@.contains(c) && child_of_listed(
                    cols,
                    *dimensions,
                    i as int,
                    c,
                ),
        decreases colleagues.len() - i,
    {
        let children = children_of(colleagues[i], dimensions);
        let ghost before = layer@;
        let mut k: usize = 0;
        while k < children.len()
            invariant
                k <= children.len(),
                i < colleagues.len(),
                cols == colleagues@,
                children@ == child_keys(cols[i as int], *dimensions),
                forall|c: u64|
                    #[trigger] layer@.contains(c) <==> tree@.contains(c) && (child_of_listed(
                        cols,
                        *dimensions,
                        i as int,
                        c,
                    ) || exists|t: int| 0 <= t < k && children@[t] == c),
            decreases children.len() - k,
        {
            let c = children[k];
            if tree.contains(&c) {
                let ghost prev = layer@;
                layer.push(c);
                proof {
                    assert forall|x: u64| #[trigger] layer@.contains(x) <==> (prev.contains(x) || x == c) by {
                        if layer@.contains(x) && x != c {
                            let w = choose|w: int| 0 <= w < layer@.len() && layer@[w] == x;
                            assert(prev[w] == x);
                        }
                        if prev.contains(x) {
                            let w = choose|w: int| 0 <= w < prev.len() && prev[w] == x;
                            assert(layer@[w] == x);
                        }
                        if x == c {
                            assert(layer@[layer@.len() - 1] == c);
                        }
                    }
                }
            }
            k = k + 1;
        }
        proof {
            assert forall|c: u64|
                #[trigger] layer@.contains(c) <==> tree@.contains(c) && child_of_listed(
                    cols,
                    *dimensions,
                    i + 1,
                    c,
                ) by {
                if child_of_listed(cols, *dimensions, i + 1, c) && !child_of_listed(
                    cols,
                    *dimensions,
                    i as int,
                    c,
                ) {
                    let k2 = choose|k2: int|
                        0 <= k2 < i + 1 && #[trigger] child_keys(cols[k2], *dimensions).contains(c);
                    assert(k2 == i);
                }
                if exists|t: int| 0 <= t < children@.len() && children@[t] == c {
                    assert(child_keys(cols[i as int], *dimensions).contains(c));
                }
            }
        }
        i = i + 1;
    }
    proof {
        assert forall|c: u64|
            child_of_listed(cols, *dimensions, cols.len() as int, c) == child_of_colleague(
                key,
                *dimensions,
                c,
            ) by {
            if child_of_listed(cols, *dimensions, cols.len() as int, c) {
                let k2 = choose|k2: int|
                    0 <= k2 < cols.len() && #[trigger] child_keys(cols[k2], *dimensions).contains(c);
                assert(colleague_keys(key, *dimensions).contains(cols[k2]));
            }
            if child_of_colleague(key, *dimensions, c) {
                let col = choose|col: u64|
                    #[trigger] colleague_keys(key, *dimensions).contains(col) && child_keys(
                        col,
                        *dimensions,
                    ).contains(c);
                let k2 = choose|k2: int| 0 <= k2 < cols.len() && cols[k2] == col;
                assert(child_keys(cols[k2], *dimensions).contains(c));
            }
        }
    }
    layer
}

/// Whether `c` is a child in the tree of a listed cell adjacent to `key` that is not a
/// leaf, among the first `i` listed.
pub open spec fn expanded_child<F: Fn(u64, u64) -> bool>(
    adjacent: F,
    tree: Set<u64>,
    leaves: Set<u64>,
    dimensions: Dimensions,
    key: u64,
    cells: Seq<u64>,
    i: int,
    c: u64,
) -> bool {
    tree.contains(c) && exists|k: int|
        0 <= k < i && adjacent_cells(adjacent, key, cells[k]) && !leaves.contains(cells[k])
            && #[trigger] child_keys(cells[k], dimensions).contains(c)
}

/// Whether `c` is among the first `i` listed cells.
pub open spec fn listed_before(cells: Seq<u64>, i: int, c: u64) -> bool {
    exists|k: int| 0 <= k < i && #[trigger] cells[k] == c
}

/// Processes one search layer: adjacent leaves join `near`, cells not adjacent join `far`,
/// and the children in the tree of adjacent non-leaves form the next layer.
fn expand_layer<F: Fn(u64, u64) -> bool>(
    key: u64,
    layer: &Vec<u64>,
    tree: &HashSet<u64>,
    leaves: &HashSet<u64>,
    dimensions: &Dimensions,
    adjacent: &F,
    near: &mut HashSet<u64>,
    far: &mut HashSet<u64>,
) -> (next: Vec<u64>)
    requires
        adjacency_test(*adjacent),
    ensures
        forall|c: u64|
            #[trigger] final(near)@.contains(c) <==> (old(near)@.contains(c) || (layer@.contains(c)
                && adjacent_cells(*adjacent, key, c) && leaves@.contains(c))),
        forall|c: u64|
            #[trigger] final(far)@.contains(c) <==> (old(far)@.contains(c) || (layer@.contains(c)
                && !adjacent_cells(*adjacent, key, c))),
        forall|c: u64|
            #[trigger] next@.contains(c) <==> expanded_child(
                *adjacent,
                tree@,
                leaves@,
                *dimensions,
                key,
                layer@,
                layer@.len() as int,
                c,
            ),
{
    let ghost near0 = near@;
    let ghost far0 = far@;
    let ghost cells = layer@;
    let mut next: Vec<u64> = Vec::new();
    let mut idx: usize = 0;
    while idx < layer.len()
        invariant
            idx <= layer.len(),
            cells == layer@,
            adjacency_test(*adjacent),
            forall|c: u64|
                #[trigger] near@.contains(c) <==> (near0.contains(c) || (listed_before(
                    cells,
                    idx as int,
                    c,
                ) && adjacent_cells(*adjacent, key, c) && leaves@.contains(c))),
            forall|c: u64|
                #[trigger] far@.contains(c) <==> (far0.contains(c) || (listed_before(
                    cells,
                    idx as int,
                    c,
                ) && !adjacent_cells(*adjacent, key, c))),
            forall|c: u64|
                #[trigger] next@.contains(c) <==> expanded_child(
                    *adjacent,
                    tree@,
                    leaves@,
                    *dimensions,
                    key,
                    cells,
                    idx as int,
                    c,
                ),
        decreases layer.len() - idx,
    {
        let c = layer[idx];
        let adj = adjacent(key, c);
        let ghost next0 = next@;
        if adj {
            if leaves.contains(&c) {
                near.insert(c);
            } else {
                let children = children_of(c, dimensions);
                let mut k: usize = 0;
                while k < children.len()
                    invariant
                        k <= children.len(),
                        idx < layer.len(),
                        c == cells[idx as int],
                        cells == layer@,
                        children@ == child_keys(c, *dimensions),
                        forall|x: u64|
                            #[trigger] next@.contains(x) <==> (next0.contains(x) || (tree@.contains(x)
                                && exists|t: int| 0 <= t < k && children@[t] == x)),
                    decreases children.len() - k,
                {
                    let ch = children[k];
                    if tree.contains(&ch) {
                        let ghost prev = next@;
                        next.push(ch);
                        proof {
                            assert forall|x: u64| #[trigger] next@.contains(x) <==> (prev.contains(x) || x == ch) by {
                                if next@.contains(x) && x != ch {
                                    let w = choose|w: int| 0 <= w < next@.len() && next@[w] == x;
                                    assert(prev[w] == x);
                                }
                                if prev.contains(x) {
                                    let w = choose|w: int| 0 <= w < prev.len() && prev[w] == x;
                                    assert(next@[w] == x);
                                }
                                if x == ch {
                                    assert(next@[next@.len() - 1] == ch);
                                }
                            }
                        }
                    }
                    k = k + 1;
                }
            }
        } else {
            far.insert(c);
        }
        proof {
            assert forall|x: u64|
                listed_before(cells, idx + 1, x) == (listed_before(cells, idx as int, x) || x == c) by {
                if listed_before(cells, idx + 1, x) && x != c {
                    let k2 = choose|k2: int| 0 <= k2 < idx + 1 && #[trigger] cells[k2] == x;
                    assert(k2 < idx);
                }
                if x == c {
                    assert(cells[idx as int] == x);
                }
            }
            assert forall|x: u64|
                #[trigger] next@.contains(x) <==> expanded_child(
                    *adjacent,
                    tree@,
                    leaves@,
                    *dimensions,
                    key,
                    cells,
                    idx + 1,
                    x,
                ) by {
                if expanded_child(*adjacent, tree@, leaves@, *dimensions, key, cells, idx + 1, x) {
                    let k2 = choose|k2: int|
                        0 <= k2 < idx + 1 && adjacent_cells(*adjacent, key, cells[k2]) && !leaves@.contains(
                            cells[k2],
                        ) && #[trigger] child_keys(cells[k2], *dimensions).contains(x);
                    if k2 == idx {
                        let w = choose|w: int|
                            0 <= w < child_keys(c, *dimensions).len() && child_keys(c, *dimensions)[w]
                                == x;
                        assert(exists|t: int| 0 <= t < child_keys(c, *dimensions).len() && child_keys(c, *dimensions)[t] == x);
                    } else {
                        assert(expanded_child(*adjacent, tree@, leaves@, *dimensions, key, cells, idx as int, x));
                    }
                }
                if next@.contains(x) && !next0.contains(x) {
                    assert(adj && !leaves@.contains(c));
                    let t = choose|t: int|
                        0 <= t < child_keys(c, *dimensions).len() && child_keys(c, *dimensions)[t] == x;
                    assert(child_keys(cells[idx as int], *dimensions).contains(x));
                }
            }
        }
        idx = idx + 1;
    }
    proof {
        assert forall|x: u64| listed_before(cells, cells.len() as int, x) == cells.contains(x) by {
            if cells.contains(x) {
                let w = choose|w: int| 0 <= w < cells.len() && cells[w] == x;
                assert(listed_before(cells, cells.len() as int, x));
            }
        }
    }
    next
}

/// Whether every cell of the tree lies above level 64.
pub open spec fn tree_levels_below_64(tree: Set<u64>) -> bool {
    forall|c: u64| #[trigger] tree.contains(c) ==> level_of(c) < 64
}

/// Searches below the colleagues of `key` layer by layer: the adjacent leaves met are added
/// to `near`; the cells met that are not adjacent to `key` are returned.
fn search_below_colleagues<F: Fn(u64, u64) -> bool>(
    key: u64,
    colleagues: &Vec<u64>,
    tree: &HashSet<u64>,
    leaves: &HashSet<u64>,
    dimensions: &Dimensions,
    adjacent: &F,
    near: &mut HashSet<u64>,
) -> (far: HashSet<u64>)
    requires
        adjacency_test(*adjacent),
        colleagues@ == colleague_keys(key, *dimensions),
        tree_levels_below_64(tree@),
        level_of(key) < 64,
    ensures
        forall|c: u64|
            #[trigger] final(near)@.contains(c) <==> old(near)@.contains(c) || (below_colleagues(
                *adjacent,
                tree@,
                leaves@,
                *dimensions,
                key,
                c,
            ) && adjacent_cells(*adjacent, key, c) && leaves@.contains(c)),
        forall|c: u64|
            #[trigger] far@.contains(c) <==> below_colleagues(
                *adjacent,
                tree@,
                leaves@,
                *dimensions,
                key,
                c,
            ) && !adjacent_cells(*adjacent, key, c),
{
    let ghost adj = *adjacent;
    let ghost t = tree@;
    let ghost l = leaves@;
    let ghost d = *dimensions;
    let ghost near0 = near@;
    let mut layer = first_layer(key, colleagues, tree, dimensions);
    let mut far: HashSet<u64> = HashSet::new();
    let ghost mut m: nat = 0;
    assert forall|c: u64| #[trigger] layer@.contains(c) <==> descendant_layer(adj, t, l, d, key, 0, c) by {
    }
    while layer.len() > 0
        invariant
            adjacency_test(*adjacent),
            adj == *adjacent,
            t == tree@,
            l == leaves@,
            d == *dimensions,
            tree_levels_below_64(t),
            level_of(key) < 64,
            m < 64,
            forall|c: u64| #[trigger] layer@.contains(c) <==> descendant_layer(adj, t, l, d, key, m, c),
            forall|c: u64|
                #[trigger] near@.contains(c) <==> near0.contains(c) || (in_layers_before(
                    adj,
                    t,
                    l,
                    d,
                    key,
                    m,
                    c,
                ) && adjacent_cells(adj, key, c) && l.contains(c)),
            forall|c: u64|
                #[trigger] far@.contains(c) <==> in_layers_before(adj, t, l, d, key, m, c)
                    && !adjacent_cells(adj, key, c),
        decreases 64 - m,
    {
        proof {
            let c0 = layer@[0];
            assert(layer@.contains(c0));
            assert(descendant_layer(adj, t, l, d, key, m, c0));
            lemma_layer_level(adj, t, l, d, key, m, c0);
            assert(t.contains(c0)) by {
                if m > 0 {
                } 
            }
            assert(level_of(c0) < 64);
        }
        let next = expand_layer(key, &layer, tree, leaves, dimensions, adjacent, near, &mut far);
        proof {
            assert forall|c: u64|
                in_layers_before(adj, t, l, d, key, m + 1, c) == (in_layers_before(
                    adj,
                    t,
                    l,
                    d,
                    key,
                    m,
                    c,
                ) || descendant_layer(adj, t, l, d, key, m, c)) by {
                if in_layers_before(adj, t, l, d, key, m + 1, c) {
                    let m2 = choose|m2: nat|
                        m2 < m + 1 && #[trigger] descendant_layer(adj, t, l, d, key, m2, c);
                    if m2 < m {
                        assert(in_layers_before(adj, t, l, d, key, m, c));
                    }
                }
                if descendant_layer(adj, t, l, d, key, m, c) {
                    assert(in_layers_before(adj, t, l, d, key, m + 1, c));
                }
            }
            assert forall|c: u64| #[trigger] next@.contains(c) <==> descendant_layer(
                adj,
                t,
                l,
                d,
                key,
                m + 1,
                c,
            ) by {
                if next@.contains(c) {
                    let k = choose|k: int|
                        0 <= k < layer@.len() && adjacent_cells(adj, key, layer@[k])
                            && !l.contains(layer@[k]) && #[trigger] child_keys(
                            layer@[k],
                            d,
                        ).contains(c);
                    assert(layer@.contains(layer@[k]));
                }
                if descendant_layer(adj, t, l, d, key, m + 1, c) {
                    let p = choose|p: u64|
                        descendant_layer(adj, t, l, d, key, m, p) && adjacent_cells(adj, key, p)
                            && !l.contains(p) && #[trigger] child_keys(p, d).contains(c);
                    assert(layer@.contains(p));
                    let k = choose|k: int| 0 <= k < layer@.len() && layer@[k] == p;
                    assert(child_keys(layer@[k], d).contains(c));
                }
            }
        }
        layer = next;
        proof {
            m = m + 1;
        }
    }
    proof {
        assert forall|c: u64|
            in_layers_before(adj, t, l, d, key, m, c) == below_colleagues(adj, t, l, d, key, c) by {
            if below_colleagues(adj, t, l, d, key, c) {
                let m2 = choose|m2: nat| #[trigger] descendant_layer(adj, t, l, d, key, m2, c);
                if m2 >= m {
                    assert forall|x: u64| !#[trigger] descendant_layer(adj, t, l, d, key, m, x) by {
                        if descendant_layer(adj, t, l, d, key, m, x) {
                            assert(layer@.contains(x));
                        }
                    }
                    lemma_empty_layer_stays_empty(adj, t, l, d, key, m, m2, c);
                }
            }
        }
    }
    far
}

/// The U-, V- and W-lists of one cell.
fn cell_interaction_lists<F: Fn(u64, u64) -> bool>(
    key: u64,
    tree: &HashSet<u64>,
    leaves: &HashSet<u64>,
    dimensions: &Dimensions,
    adjacent: &F,
) -> (lists: (HashSet<u64>, HashSet<u64>, HashSet<u64>))
    requires
        adjacency_test(*adjacent),
        tree_levels_below_64(tree@),
        level_of(key) < 64,
    ensures
        lists.0@ == u_list(*adjacent, tree@, leaves@, *dimensions, key),
        lists.1@ == v_list(*adjacent, tree@, *dimensions, key),
        lists.2@ == w_list(*adjacent, tree@, leaves@, *dimensions, key),
{
    let ghost adj = *adjacent;
    let ghost t = tree@;
    let ghost l = leaves@;
    let ghost d = *dimensions;
    match get_parent(&key, dimensions) {
        None => {
            let u: HashSet<u64> = HashSet::new();
            let v: HashSet<u64> = HashSet::new();
            let w: HashSet<u64> = HashSet::new();
            assert(u@ =~= u_list(adj, t, l, d, key));
            assert(v@ =~= v_list(adj, t, d, key));
            assert(w@ =~= w_list(adj, t, l, d, key));
            (u, v, w)
        },
        Some(parent) => {
            proof {
                lemma_parent_level(key, *dimensions);
            }
            let v = v_list_of(key, parent, tree, dimensions, adjacent);
            if leaves.contains(&key) {
                let colleagues = get_neighbours(key, dimensions);
                let ghost cols = colleagues@;
                let mut u: HashSet<u64> = HashSet::new();
                let mut i: usize = 0;
                while i < colleagues.len()
                    invariant
                        i <= colleagues.len(),
                        cols == colleagues@,
                        cols == colleague_keys(key, d),
                        adjacency_test(*adjacent),
                        adj == *adjacent,
                        l == leaves@,
                        d == *dimensions,
                        forall|a: u64|
                            #[trigger] u@.contains(a) <==> exists|k: int|
                                0 <= k < i && leaf_above_colleague(adj, l, d, key, #[trigger] cols[k], a),
                    decreases colleagues.len() - i,
                {
                    let found = leaf_above(key, colleagues[i], leaves, dimensions, adjacent);
                    match found {
                        Some(a) => {
                            u.insert(a);
                        },
                        None => {},
                    }
                    proof {
                        assert forall|a: u64|
                            #[trigger] u@.contains(a) <==> exists|k: int|
                                0 <= k < i + 1 && leaf_above_colleague(adj, l, d, key, #[trigger] cols[k], a) by {
                            if exists|k: int|
                                0 <= k < i + 1 && leaf_above_colleague(adj, l, d, key, #[trigger] cols[k], a) {
                                let k = choose|k: int|
                                    0 <= k < i + 1 && leaf_above_colleague(adj, l, d, key, #[trigger] cols[k], a);
                                if k == i {
                                    match found {
                                        Some(b) => {
                                            if b != a {
                                                lemma_leaf_above_unique(adj, l, d, key, cols[k], a, b);
                                            }
                                        },
                                        None => {},
                                    }
                                }
                            }
                        }
                    }
                    i = i + 1;
                }
                let w = search_below_colleagues(
                    key,
                    &colleagues,
                    tree,
                    leaves,
                    dimensions,
                    adjacent,
                    &mut u,
                );
                u.insert(key);
                proof {
                    assert forall|a: u64| #[trigger] u@.contains(a) == u_list(adj, t, l, d, key).contains(a) by {
                        if exists|k: int|
                            0 <= k < cols.len() && leaf_above_colleague(adj, l, d, key, #[trigger] cols[k], a) {
                            let k = choose|k: int|
                                0 <= k < cols.len() && leaf_above_colleague(adj, l, d, key, #[trigger] cols[k], a);
                            assert(colleague_keys(key, d).contains(cols[k]));
                        }
                        if exists|col: u64|
                            #[trigger] colleague_keys(key, d).contains(col) && leaf_above_colleague(
                                adj,
                                l,
                                d,
                                key,
                                col,
                                a,
                            ) {
                            let col = choose|col: u64|
                                #[trigger] colleague_keys(key, d).contains(col) && leaf_above_colleague(
                                    adj,
                                    l,
                                    d,
                                    key,
                                    col,
                                    a,
                                );
                            let k = choose|k: int| 0 <= k < cols.len() && cols[k] == col;
                            assert(leaf_above_colleague(adj, l, d, key, cols[k], a));
                        }
                    }
                    assert(u@ =~= u_list(adj, t, l, d, key));
                    assert(w@ =~= w_list(adj, t, l, d, key));
                }
                (u, v, w)
            } else {
                let u: HashSet<u64> = HashSet::new();
                let w: HashSet<u64> = HashSet::new();
                assert(u@ =~= u_list(adj, t, l, d, key));
                assert(w@ =~= w_list(adj, t, l, d, key));
                (u, v, w)
            }
        },
    }
}

/// Walking up from a colleague meets at most one leaf.
proof fn lemma_leaf_above_unique<F: Fn(u64, u64) -> bool>(
    adjacent: F,
    leaves: Set<u64>,
    dimensions: Dimensions,
    key: u64,
    col: u64,
    a: u64,
    b: u64,
)
    requires
        leaf_above_colleague(adjacent, leaves, dimensions, key, col, a),
        leaf_above_colleague(adjacent, leaves, dimensions, key, col, b),
    ensures
        a == b,
{
    let ka = choose|k: nat|
        k <= level_of(col) && a == #[trigger] ancestor_of(col, dimensions, k) && leaves.contains(a)
            && (forall|j: nat|
            j <= k ==> adjacent_cells(adjacent, key, #[trigger] ancestor_of(col, dimensions, j)))
            && (forall|j: nat| j < k ==> !leaves.contains(#[trigger] ancestor_of(col, dimensions, j)));
    let kb = choose|k: nat|
        k <= level_of(col) && b == #[trigger] ancestor_of(col, dimensions, k) && leaves.contains(b)
            && (forall|j: nat|
            j <= k ==> adjacent_cells(adjacent, key, #[trigger] ancestor_of(col, dimensions, j)))
            && (forall|j: nat| j < k ==> !leaves.contains(#[trigger] ancestor_of(col, dimensions, j)));
    if ka < kb {
        assert(!leaves.contains(ancestor_of(col, dimensions, ka)));
    } else if kb < ka {
        assert(!leaves.contains(ancestor_of(col, dimensions, kb)));
    }
}

/// Whether `k` is among the first `i` keys.
pub open spec fn key_listed(keys: Seq<&u64>, i: int, k: u64) -> bool {
    exists|j: int| 0 <= j < i && *#[trigger] keys[j] == k
}

/// Whether a map holds exactly the non-empty lists of the listed keys.
pub open spec fn holds_lists(
    lists: Map<u64, HashSet<u64>>,
    keys: Seq<&u64>,
    i: int,
    list_of: spec_fn(u64) -> Set<u64>,
) -> bool {
    &&& forall|k: u64|
        #[trigger] lists.contains_key(k) <==> key_listed(keys, i, k) && !list_of(k).is_empty()
    &&& forall|k: u64| #[trigger] lists.contains_key(k) ==> lists[k]@ == list_of(k)
}

/// Stores a list under its key when the list is not empty.
fn store_list(lists: &mut HashMap<u64, HashSet<u64>>, key: u64, list: HashSet<u64>)
    ensures
        list@.is_empty() ==> final(lists)@ == old(lists)@,
        !list@.is_empty() ==> final(lists)@ == old(lists)@.insert(key, list),
{
    if !list.is_empty() {
        lists.insert(key, list);
    }
}

/// Builds the U-, V-, X- and W-lists of every cell of an adaptive tree, keeping only the
/// non-empty ones. Adjacency of two cells is decided by `adjacent`.
pub fn get_interaction_lists_adaptive<F: Fn(u64, u64) -> bool>(
    complete_tree: &HashSet<u64>,
    leaves_set: &HashSet<u64>,
    dim: &Dimensions,
    adjacent: &F,
) -> (lists: (
    HashMap<u64, HashSet<u64>>,
    HashMap<u64, HashSet<u64>>,
    HashMap<u64, HashSet<u64>>,
    HashMap<u64, HashSet<u64>>,
))
    requires
        adjacency_test(*adjacent),
        tree_levels_below_64(complete_tree@),
    ensures
        forall|k: u64|
            #[trigger] lists.0@.contains_key(k) <==> complete_tree@.contains(k) && !u_list(
                *adjacent,
                complete_tree@,
                leaves_set@,
                *dim,
                k,
            ).is_empty(),
        forall|k: u64|
            #[trigger] lists.0@.contains_key(k) ==> lists.0@[k]@ == u_list(
                *adjacent,
                complete_tree@,
                leaves_set@,
                *dim,
                k,
            ),
        forall|k: u64|
            #[trigger] lists.1@.contains_key(k) <==> complete_tree@.contains(k) && !v_list(
                *adjacent,
                complete_tree@,
                *dim,
                k,
            ).is_empty(),
        forall|k: u64|
            #[trigger] lists.1@.contains_key(k) ==> lists.1@[k]@ == v_list(
                *adjacent,
                complete_tree@,
                *dim,
                k,
            ),
        forall|c: u64|
            #[trigger] lists.2@.contains_key(c) <==> !x_list(
                *adjacent,
                complete_tree@,
                leaves_set@,
                *dim,
                c,
            ).is_empty(),
        forall|c: u64|
            #[trigger] lists.2@.contains_key(c) ==> lists.2@[c]@ == x_list(
                *adjacent,
                complete_tree@,
                leaves_set@,
                *dim,
                c,
            ),
        forall|k: u64|
            #[trigger] lists.3@.contains_key(k) <==> complete_tree@.contains(k) && !w_list(
                *adjacent,
                complete_tree@,
                leaves_set@,
                *dim,
                k,
            ).is_empty(),
        forall|k: u64|
            #[trigger] lists.3@.contains_key(k) ==> lists.3@[k]@ == w_list(
                *adjacent,
                complete_tree@,
                leaves_set@,
                *dim,
                k,
            ),
{
    let ghost adj = *adjacent;
    let ghost t = complete_tree@;
    let ghost l = leaves_set@;
    let ghost d = *dim;
    let ghost u_of = |k: u64| u_list(adj, t, l, d, k);
    let ghost v_of = |k: u64| v_list(adj, t, d, k);
    let ghost w_of = |k: u64| w_list(adj, t, l, d, k);
    let mut u_lists: HashMap<u64, HashSet<u64>> = HashMap::new();
    let mut v_lists: HashMap<u64, HashSet<u64>> = HashMap::new();
    let mut w_lists: HashMap<u64, HashSet<u64>> = HashMap::new();
    let mut x_lists: HashMap<u64, HashSet<u64>> = HashMap::new();
    let ghost keys = vstd::std_specs::hash::spec_hash_keys_iter(complete_tree).remaining();
    for key_ref in it: complete_tree.iter()
        invariant
            it.seq() == keys,
            adjacency_test(*adjacent),
            adj == *adjacent,
            t == complete_tree@,
            l == leaves_set@,
            d == *dim,
            tree_levels_below_64(t),
            u_of == (|k: u64| u_list(adj, t, l, d, k)),
            v_of == (|k: u64| v_list(adj, t, d, k)),
            w_of == (|k: u64| w_list(adj, t, l, d, k)),
            keys.unref().to_set() == t,
            keys.no_duplicates(),
            holds_lists(u_lists@, keys, it.index() as int, u_of),
            holds_lists(v_lists@, keys, it.index() as int, v_of),
            holds_lists(w_lists@, keys, it.index() as int, w_of),
            forall|c: u64|
                #[trigger] x_lists@.contains_key(c) <==> exists|j: int|
                    0 <= j < it.index() && #[trigger] w_of(*keys[j]).contains(c),
            forall|c: u64|
                #[trigger] x_lists@.contains_key(c) ==> forall|k: u64|
                    #[trigger] x_lists@[c]@.contains(k) <==> key_listed(keys, it.index() as int, k)
                        && w_of(k).contains(c),
    {
        let key = *key_ref;
        proof {
            assert(keys.unref()[it.index() as int] == key);
            assert(t.contains(key));
        }
        let (u, v, w) = cell_interaction_lists(key, complete_tree, leaves_set, dim, adjacent);
        let ghost wk = w@;
        let ghost x_before = x_lists@;
        let ghost idx = it.index() as int;
        let ghost w_keys = vstd::std_specs::hash::spec_hash_keys_iter(&w).remaining();
        for c_ref in wit: w.iter()
            invariant
                wit.seq() == w_keys,
                w_keys.unref().to_set() == wk,
                wk == w_of(key),
                forall|c: u64|
                    #[trigger] x_lists@.contains_key(c) <==> (x_before.contains_key(c) || (exists|j: int|
                        0 <= j < wit.index() && *w_keys[j] == c)),
                forall|c: u64|
                    #[trigger] x_lists@.contains_key(c) ==> forall|k: u64|
                        #[trigger] x_lists@[c]@.contains(k) <==> ((x_before.contains_key(c)
                            && x_before[c]@.contains(k)) || (k == key && exists|j: int|
                            0 <= j < wit.index() && *w_keys[j] == c)),
        {
            let c = *c_ref;
            let ghost xb = x_lists@;
            let mut list = match x_lists.remove(&c) {
                Some(list) => list,
                None => HashSet::new(),
            };
            list.insert(key);
            x_lists.insert(c, list);
            proof {
                assert(*w_keys[wit.index() as int] == c);
            }
        }
        proof {
            assert forall|c: u64| #[trigger] wk.contains(c) implies exists|j: int|
                0 <= j < w_keys.len() && *w_keys[j] == c by {
                assert(w_keys.unref().to_set().contains(c));
                let j = choose|j: int| 0 <= j < w_keys.unref().len() && w_keys.unref()[j] == c;
                assert(*w_keys[j] == c);
            }
            assert forall|c: u64| (exists|j: int| 0 <= j < w_keys.len() && *w_keys[j] == c) implies #[trigger] wk.contains(c) by {
                let j = choose|j: int| 0 <= j < w_keys.len() && *w_keys[j] == c;
                assert(w_keys.unref()[j] == c);
                assert(w_keys.unref().to_set().contains(c));
            }
        }
        store_list(&mut u_lists, key, u);
        store_list(&mut v_lists, key, v);
        store_list(&mut w_lists, key, w);
    }
    proof {
        assert forall|k: u64| key_listed(keys, keys.len() as int, k) == t.contains(k) by {
            if key_listed(keys, keys.len() as int, k) {
                let j = choose|j: int| 0 <= j < keys.len() && *#[trigger] keys[j] == k;
                assert(keys.unref()[j] == k);
                assert(keys.unref().to_set().contains(k));
            }
            if t.contains(k) {
                assert(keys.unref().to_set().contains(k));
                let j = choose|j: int| 0 <= j < keys.unref().len() && keys.unref()[j] == k;
                assert(*keys[j] == k);
            }
        }
        assert forall|c: u64|
            (exists|j: int| 0 <= j < keys.len() && #[trigger] w_of(*keys[j]).contains(c)) == !x_list(
                adj,
                t,
                l,
                d,
                c,
            ).is_empty() by {
            if exists|j: int| 0 <= j < keys.len() && #[trigger] w_of(*keys[j]).contains(c) {
                let j = choose|j: int| 0 <= j < keys.len() && #[trigger] w_of(*keys[j]).contains(c);
                assert(key_listed(keys, keys.len() as int, *keys[j]));
                assert(x_list(adj, t, l, d, c).contains(*keys[j]));
            }
            if !x_list(adj, t, l, d, c).is_empty() {
                let k = choose|k: u64| x_list(adj, t, l, d, c).contains(k);
                assert(key_listed(keys, keys.len() as int, k));
                let j = choose|j: int| 0 <= j < keys.len() && *#[trigger] keys[j] == k;
                assert(w_of(*keys[j]).contains(c));
            }
        }
        assert forall|c: u64| #[trigger] x_lists@.contains_key(c) implies x_lists@[c]@ == x_list(
            adj,
            t,
            l,
            d,
            c,
        ) by {
            assert(x_lists@[c]@ =~= x_list(adj, t, l, d, c));
        }
    }
    (u_lists, v_lists, x_lists, w_lists)
}

/// Whether `c` is listed among the children of `p` in the children map.
pub open spec fn listed_child(children: Map<u64, Vec<u64>>, p: u64, c: u64) -> bool {
    children.contains_key(p) && children[p]@.contains(c)
}

/// Whether `c` is a listed child of a colleague of `key`'s parent that is in the tree.
pub open spec fn listed_parent_colleague_child(
    tree: Set<u64>,
    children: Map<u64, Vec<u64>>,
    dimensions: Dimensions,
    key: u64,
    c: u64,
) -> bool {
    exists|pc: u64|
        #[trigger] colleague_keys(parent_of(key, dimensions), dimensions).contains(pc)
            && tree.contains(pc) && listed_child(children, pc, c)
}

/// The U-list of a leaf below the root in a regular tree: its listed siblings that hold
/// points (itself included) and the listed children, holding points, of its parent's
/// colleagues in the tree that are adjacent to it. Empty for other cells.
pub open spec fn regular_u_list<F: Fn(u64, u64) -> bool>(
    adjacent: F,
    tree: Set<u64>,
    leaves: Set<u64>,
    children: Map<u64, Vec<u64>>,
    occupied: Set<u64>,
    dimensions: Dimensions,
    key: u64,
) -> Set<u64> {
    Set::new(
        |c: u64|
            has_near_lists(leaves, key) && occupied.contains(c) && (listed_child(
                children,
                parent_of(key, dimensions),
                c,
            ) || (listed_parent_colleague_child(tree, children, dimensions, key, c)
                && adjacent_cells(adjacent, key, c))),
    )
}

/// The V-list of a cell below the root in a regular tree: the listed children, holding
/// points, of its parent's colleagues in the tree that are not adjacent to it.
pub open spec fn regular_v_list<F: Fn(u64, u64) -> bool>(
    adjacent: F,
    tree: Set<u64>,
    children: Map<u64, Vec<u64>>,
    occupied: Set<u64>,
    dimensions: Dimensions,
    key: u64,
) -> Set<u64> {
    Set::new(
        |c: u64|
            level_of(key) > 0 && occupied.contains(c) && listed_parent_colleague_child(
                tree,
                children,
                dimensions,
                key,
                c,
            ) && !adjacent_cells(adjacent, key, c),
    )
}

/// Computes the U- and V-lists of one cell of a regular tree, given the children listed
/// for each cell and the cells that hold points.
pub fn compute_u_v_list<F: Fn(u64, u64) -> bool>(
    cell: u64,
    children: &HashMap<u64, Vec<u64>>,
    cells_points_indices: &HashMap<u64, Vec<usize>>,
    dimensions: &Dimensions,
    tree: &HashSet<u64>,
    leaves: &HashSet<u64>,
    adjacent: &F,
) -> (lists: (HashSet<u64>, HashSet<u64>))
    requires
        adjacency_test(*adjacent),
        level_of(cell) < 64,
    ensures
        lists.0@ == regular_u_list(
            *adjacent,
            tree@,
            leaves@,
            children@,
            cells_points_indices@.dom(),
            *dimensions,
            cell,
        ),
        lists.1@ == regular_v_list(
            *adjacent,
            tree@,
            children@,
            cells_points_indices@.dom(),
            *dimensions,
            cell,
        ),
{
    let ghost adj = *adjacent;
    let ghost occ = cells_points_indices@.dom();
    let ghost ch = children@;
    let ghost d = *dimensions;
    let mut u: HashSet<u64> = HashSet::new();
    let mut v: HashSet<u64> = HashSet::new();
    match get_parent(&cell, dimensions) {
        None => {
            assert(u@ =~= regular_u_list(adj, tree@, leaves@, ch, occ, d, cell));
            assert(v@ =~= regular_v_list(adj, tree@, ch, occ, d, cell));
        },
        Some(parent) => {
            proof {
                lemma_parent_level(cell, *dimensions);
            }
            let is_leaf = leaves.contains(&cell);
            if is_leaf {
                match children.get(&parent) {
                    Some(siblings) => {
                        let mut k: usize = 0;
                        while k < siblings.len()
                            invariant
                                k <= siblings.len(),
                                ch.contains_key(parent),
                                ch[parent] == *siblings,
                                ch == children@,
                                occ == cells_points_indices@.dom(),
                                v@ == Set::<u64>::empty(),
                                forall|c: u64|
                                    #[trigger] u@.contains(c) <==> occ.contains(c) && exists|t: int|
                                        0 <= t < k && siblings@[t] == c,
                            decreases siblings.len() - k,
                        {
                            let sib = siblings[k];
                            if cells_points_indices.contains_key(&sib) {
                                u.insert(sib);
                            }
                            k = k + 1;
                        }
                    },
                    None => {},
                }
            }
            let ghost u0 = u@;
            assert forall|c: u64| #[trigger] u0.contains(c) <==> is_leaf && occ.contains(c) && listed_child(ch, parent, c) by {
            }
            let parent_colleagues = get_neighbours(parent, dimensions);
            let ghost pcs = parent_colleagues@;
            let mut i: usize = 0;
            while i < parent_colleagues.len()
                invariant
                    i <= parent_colleagues.len(),
                    pcs == parent_colleagues@,
                    pcs == colleague_keys(parent, d),
                    parent == parent_of(cell, d),
                    adjacency_test(*adjacent),
                    adj == *adjacent,
                    ch == children@,
                    d == *dimensions,
                    occ == cells_points_indices@.dom(),
                    forall|c: u64|
                        #[trigger] u@.contains(c) <==> u0.contains(c) || (is_leaf && occ.contains(c)
                            && adjacent_cells(adj, cell, c) && exists|t: int|
                            0 <= t < i && tree@.contains(pcs[t]) && listed_child(ch, #[trigger] pcs[t], c)),
                    forall|c: u64|
                        #[trigger] v@.contains(c) <==> occ.contains(c) && !adjacent_cells(adj, cell, c)
                            && exists|t: int|
                            0 <= t < i && tree@.contains(pcs[t]) && listed_child(ch, #[trigger] pcs[t], c),
                decreases parent_colleagues.len() - i,
            {
                let pc = parent_colleagues[i];
                if tree.contains(&pc) {
                    match children.get(&pc) {
                        Some(pcc) => {
                            let ghost ub = u@;
                            let ghost vb = v@;
                            let mut k: usize = 0;
                            while k < pcc.len()
                                invariant
                                    k <= pcc.len(),
                                    ch.contains_key(pc),
                                    ch[pc] == *pcc,
                                    adjacency_test(*adjacent),
                                    adj == *adjacent,
                                    occ == cells_points_indices@.dom(),
                                    forall|c: u64|
                                        #[trigger] u@.contains(c) <==> ub.contains(c) || (is_leaf
                                            && occ.contains(c) && adjacent_cells(adj, cell, c) && exists|t: int|
                                            0 <= t < k && pcc@[t] == c),
                                    forall|c: u64|
                                        #[trigger] v@.contains(c) <==> vb.contains(c) || (occ.contains(c)
                                            && !adjacent_cells(adj, cell, c) && exists|t: int|
                                            0 <= t < k && pcc@[t] == c),
                                decreases pcc.len() - k,
                            {
                                let colleague = pcc[k];
                                if cells_points_indices.contains_key(&colleague) {
                                    if adjacent(cell, colleague) {
                                        if is_leaf {
                                            u.insert(colleague);
                                        }
                                    } else {
                                        v.insert(colleague);
                                    }
                                }
                                k = k + 1;
                            }
                        },
                        None => {},
                    }
                }
                proof {
                    assert forall|c: u64|
                        (exists|t: int|
                            0 <= t < i + 1 && tree@.contains(pcs[t]) && listed_child(ch, #[trigger] pcs[t], c))
                            == ((exists|t: int|
                            0 <= t < i && tree@.contains(pcs[t]) && listed_child(ch, #[trigger] pcs[t], c))
                            || (tree@.contains(pc) && listed_child(ch, pc, c))) by {
                        if exists|t: int|
                            0 <= t < i + 1 && tree@.contains(pcs[t]) && listed_child(ch, #[trigger] pcs[t], c) {
                            let t = choose|t: int|
                                0 <= t < i + 1 && tree@.contains(pcs[t]) && listed_child(ch, #[trigger] pcs[t], c);
                            if t < i {
                            } else {
                                assert(pcs[t] == pc);
                            }
                        }
                        if tree@.contains(pc) && listed_child(ch, pc, c) {
                            assert(pcs[i as int] == pc);
                        }
                    }
                }
                i = i + 1;
            }
            proof {
                assert forall|c: u64|
                    (exists|t: int|
                        0 <= t < pcs.len() && tree@.contains(pcs[t]) && listed_child(ch, #[trigger] pcs[t], c))
                        == listed_parent_colleague_child(tree@, ch, d, cell, c) by {
                    if exists|t: int|
                        0 <= t < pcs.len() && tree@.contains(pcs[t]) && listed_child(ch, #[trigger] pcs[t], c) {
                        let t = choose|t: int|
                            0 <= t < pcs.len() && tree@.contains(pcs[t]) && listed_child(ch, #[trigger] pcs[t], c);
                        assert(colleague_keys(parent, d).contains(pcs[t]));
                    }
                    if listed_parent_colleague_child(tree@, ch, d, cell, c) {
                        let pc = choose|pc: u64|
                            #[trigger] colleague_keys(parent_of(cell, d), d).contains(pc)
                                && tree@.contains(pc) && listed_child(ch, pc, c);
                        let t = choose|t: int| 0 <= t < pcs.len() && pcs[t] == pc;
                        assert(listed_child(ch, pcs[t], c));
                    }
                }
                assert(u@ =~= regular_u_list(adj, tree@, leaves@, ch, occ, d, cell));
                assert(v@ =~= regular_v_list(adj, tree@, ch, occ, d, cell));
            }
        },
    }
    (u, v)
}

/// Builds the U-lists of the leaves and the V-lists of all cells of a regular tree, given
/// the children listed for each cell and the cells that hold points. Adjacency of two cells
/// is decided by `adjacent`.
pub fn get_interaction_lists_regular<F: Fn(u64, u64) -> bool>(
    tree: &HashSet<u64>,
    leaves: &HashSet<u64>,
    cells_points_indices: &HashMap<u64, Vec<usize>>,
    children: &HashMap<u64, Vec<u64>>,
    dimensions: &Dimensions,
    adjacent: &F,
) -> (lists: (HashMap<u64, HashSet<u64>>, HashMap<u64, HashSet<u64>>))
    requires
        adjacency_test(*adjacent),
        tree_levels_below_64(tree@),
    ensures
        forall|k: u64|
            #[trigger] lists.0@.contains_key(k) <==> tree@.contains(k) && leaves@.contains(k),
        forall|k: u64|
            #[trigger] lists.0@.contains_key(k) ==> lists.0@[k]@ == regular_u_list(
                *adjacent,
                tree@,
                leaves@,
                children@,
                cells_points_indices@.dom(),
                *dimensions,
                k,
            ),
        forall|k: u64| #[trigger] lists.1@.contains_key(k) <==> tree@.contains(k),
        forall|k: u64|
            #[trigger] lists.1@.contains_key(k) ==> lists.1@[k]@ == regular_v_list(
                *adjacent,
                tree@,
                children@,
                cells_points_indices@.dom(),
                *dimensions,
                k,
            ),
{
    let ghost adj = *adjacent;
    let ghost t = tree@;
    let ghost keys = vstd::std_specs::hash::spec_hash_keys_iter(tree).remaining();
    let mut u_lists: HashMap<u64, HashSet<u64>> = HashMap::new();
    let mut v_lists: HashMap<u64, HashSet<u64>> = HashMap::new();
    for key_ref in it: tree.iter()
        invariant
            it.seq() == keys,
            adjacency_test(*adjacent),
            adj == *adjacent,
            t == tree@,
            tree_levels_below_64(t),
            keys.unref().to_set() == t,
            forall|k: u64|
                #[trigger] u_lists@.contains_key(k) <==> key_listed(keys, it.index() as int, k)
                    && leaves@.contains(k),
            forall|k: u64|
                #[trigger] u_lists@.contains_key(k) ==> u_lists@[k]@ == regular_u_list(
                    adj,
                    t,
                    leaves@,
                    children@,
                    cells_points_indices@.dom(),
                    *dimensions,
                    k,
                ),
            forall|k: u64| #[trigger] v_lists@.contains_key(k) <==> key_listed(keys, it.index() as int, k),
            forall|k: u64|
                #[trigger] v_lists@.contains_key(k) ==> v_lists@[k]@ == regular_v_list(
                    adj,
                    t,
                    children@,
                    cells_points_indices@.dom(),
                    *dimensions,
                    k,
                ),
    {
        let cell = *key_ref;
        proof {
            assert(keys.unref()[it.index() as int] == cell);
            assert(t.contains(cell));
        }
        let (u, v) = compute_u_v_list(
            cell,
            children,
            cells_points_indices,
            dimensions,
            tree,
            leaves,
            adjacent,
        );
        if leaves.contains(&cell) {
            u_lists.insert(cell, u);
        }
        v_lists.insert(cell, v);
    }
    proof {
        assert forall|k: u64| key_listed(keys, keys.len() as int, k) == t.contains(k) by {
            if key_listed(keys, keys.len() as int, k) {
                let j = choose|j: int| 0 <= j < keys.len() && *#[trigger] keys[j] == k;
                assert(keys.unref()[j] == k);
                assert(keys.unref().to_set().contains(k));
            }
            if t.contains(k) {
                assert(keys.unref().to_set().contains(k));
                let j = choose|j: int| 0 <= j < keys.unref().len() && keys.unref()[j] == k;
                assert(*keys[j] == k);
            }
        }
    }
    (u_lists, v_lists)
}

} // verus!
