//! Linear trees over points: refinement of the tree from the points' keys at the deepest
//! level (adaptive, cell by cell, or regular, level by level), the interaction lists of
//! the result, the assignment of points to leaf cells, and the grouping of points by leaf.
use vstd::prelude::*;
use std::collections::{HashMap, HashSet};
use crate::morton::{
    ancestor_of, get_parent, lemma_parent_level, level_of, parent_of, Dimensions,
};
use crate::interaction_lists::{
    adjacency_test, child_keys, get_interaction_lists_adaptive, get_interaction_lists_regular,
    lemma_child_level, regular_u_list, regular_v_list, tree_levels_below_64, u_list, v_list, w_list,
    x_list,
};
use crate::morton::{
    child_index_of, first_child_of, get_children, lemma_child_parent, num_children, sibling_of,
};

verus! {

broadcast use vstd::std_specs::hash::group_hash_axioms;

/// Errors that can occur during FMM tree operations.
#[derive(Debug, Clone, Copy, PartialEq, Eq, Structural)]
pub enum FmmError {
    /// A target point could not be assigned to any cell in the tree because it lies
    /// outside the tree extents.
    PointOutsideTree { point_index: usize },
    /// Gradient evaluation was requested but the kernel does not provide a gradient
    /// implementation.
    KernelDoesNotSupportGradients,
}

/// Whether some cell among `key` and its ancestors, up to the root, is a leaf.
pub open spec fn has_leaf_ancestor(key: u64, leaves: Set<u64>, dimensions: Dimensions) -> bool {
    exists|k: nat| k <= level_of(key) && leaves.contains(#[trigger] ancestor_of(key, dimensions, k))
}

/// Whether `leaf` is the nearest leaf among `key` and its ancestors: the first one met
/// walking up from `key`.
pub open spec fn is_nearest_leaf(key: u64, leaves: Set<u64>, dimensions: Dimensions, leaf: u64) -> bool {
    exists|k: nat|
        k <= level_of(key) && leaf == #[trigger] ancestor_of(key, dimensions, k) && leaves.contains(leaf)
            && forall|j: nat| j < k ==> !leaves.contains(#[trigger] ancestor_of(key, dimensions, j))
}

/// A cell has at most one nearest leaf among itself and its ancestors.
pub proof fn lemma_nearest_leaf_unique(
    key: u64,
    leaves: Set<u64>,
    dimensions: Dimensions,
    a: u64,
    b: u64,
)
    requires
        is_nearest_leaf(key, leaves, dimensions, a),
        is_nearest_leaf(key, leaves, dimensions, b),
    ensures
        a == b,
{
    let ka = choose|k: nat|
        k <= level_of(key) && a == #[trigger] ancestor_of(key, dimensions, k) && leaves.contains(a)
            && forall|j: nat| j < k ==> !leaves.contains(#[trigger] ancestor_of(key, dimensions, j));
    let kb = choose|k: nat|
        k <= level_of(key) && b == #[trigger] ancestor_of(key, dimensions, k) && leaves.contains(b)
            && forall|j: nat| j < k ==> !leaves.contains(#[trigger] ancestor_of(key, dimensions, j));
    if ka < kb {
        assert(!leaves.contains(ancestor_of(key, dimensions, ka)));
    } else if kb < ka {
        assert(!leaves.contains(ancestor_of(key, dimensions, kb)));
    }
}

/// Walks up from the cell `key` of point `point_index` to the first cell that is a leaf;
/// fails with `PointOutsideTree` when the root is passed without meeting one.
pub fn find_leaf_key(
    point_index: usize,
    key: u64,
    leaves_set: &HashSet<u64>,
    dimensions: &Dimensions,
) -> (leaf: Result<u64, FmmError>)
    ensures
        match leaf {
            Ok(k) => is_nearest_leaf(key, leaves_set@, *dimensions, k),
            Err(e) => e == FmmError::PointOutsideTree { point_index } && !has_leaf_ancestor(
                key,
                leaves_set@,
                *dimensions,
            ),
        },
{
    let mut current_key = key;
    let ghost mut k: nat = 0;
    while !leaves_set.contains(&current_key)
        invariant
            k <= level_of(key),
            current_key == ancestor_of(key, *dimensions, k),
            level_of(current_key) == level_of(key) - k,
            forall|j: nat| j < k ==> !leaves_set@.contains(#[trigger] ancestor_of(key, *dimensions, j)),
        decreases level_of(current_key),
    {
        match get_parent(&current_key, dimensions) {
            Some(parent) => {
                proof {
                    lemma_parent_level(current_key, *dimensions);
                    assert(ancestor_of(key, *dimensions, k + 1) == parent);
                    k = k + 1;
                }
                current_key = parent;
            },
            None => {
                proof {
                    assert forall|j: nat| j <= level_of(key) implies !leaves_set@.contains(
                        #[trigger] ancestor_of(key, *dimensions, j),
                    ) by {
                        if j == k {
                        }
                    }
                }
                return Err(FmmError::PointOutsideTree { point_index });
            },
        }
    }
    Ok(current_key)
}

/// Assigns each point, given the key of the cell holding it at the finest level, to the
/// nearest leaf among that cell and its ancestors. Fails with `PointOutsideTree` naming
/// the first point that has none.
pub fn point_keys_to_leaves(
    point_keys: &[u64],
    leaves_set: &HashSet<u64>,
    dimensions: &Dimensions,
) -> (leaves: Result<Vec<u64>, FmmError>)
    ensures
        match leaves {
            Ok(keys) => keys@.len() == point_keys@.len() && forall|i: int|
                0 <= i < point_keys@.len() ==> is_nearest_leaf(
                    #[trigger] point_keys@[i],
                    leaves_set@,
                    *dimensions,
                    keys@[i],
                ),
            Err(e) => exists|i: int|
                0 <= i < point_keys@.len() && e == FmmError::PointOutsideTree { point_index: i as usize }
                    && !has_leaf_ancestor(#[trigger] point_keys@[i], leaves_set@, *dimensions)
                    && forall|j: int|
                    0 <= j < i ==> has_leaf_ancestor(#[trigger] point_keys@[j], leaves_set@, *dimensions),
        },
{
    let mut keys: Vec<u64> = Vec::new();
    let mut i: usize = 0;
    while i < point_keys.len()
        invariant
            i <= point_keys.len(),
            keys@.len() == i,
            forall|t: int|
                0 <= t < i ==> is_nearest_leaf(
                    #[trigger] point_keys@[t],
                    leaves_set@,
                    *dimensions,
                    keys@[t],
                ),
        decreases point_keys.len() - i,
    {
        match find_leaf_key(i, point_keys[i], leaves_set, dimensions) {
            Ok(leaf) => {
                keys.push(leaf);
            },
            Err(e) => {
                proof {
                    assert forall|j: int| 0 <= j < i implies has_leaf_ancestor(
                        #[trigger] point_keys@[j],
                        leaves_set@,
                        *dimensions,
                    ) by {
                        assert(is_nearest_leaf(point_keys@[j], leaves_set@, *dimensions, keys@[j]));
                        let k = choose|k: nat|
                            k <= level_of(point_keys@[j]) && keys@[j] == #[trigger] ancestor_of(
                                point_keys@[j],
                                *dimensions,
                                k,
                            ) && leaves_set@.contains(keys@[j]) && forall|m: nat|
                                m < k ==> !leaves_set@.contains(
                                    #[trigger] ancestor_of(point_keys@[j], *dimensions, m),
                                );
                        assert(leaves_set@.contains(ancestor_of(point_keys@[j], *dimensions, k)));
                    }
                }
                return Err(e);
            },
        }
        i = i + 1;
    }
    Ok(keys)
}

/// The positions among the first `n` keys that equal `key`, ascending.
pub open spec fn indices_with_key(keys: Seq<u64>, key: u64, n: nat) -> Seq<usize>
    decreases n,
{
    if n == 0 {
        Seq::empty()
    } else {
        let prev = indices_with_key(keys, key, (n - 1) as nat);
        if keys[n - 1] == key {
            prev.push((n - 1) as usize)
        } else {
            prev
        }
    }
}

/// Maps each leaf key to the ascending indices of the points assigned to it.
pub fn get_points_to_leaves_map(point_keys: &[u64]) -> (indices_map: HashMap<u64, Vec<usize>>)
    ensures
        forall|k: u64| #[trigger] indices_map@.contains_key(k) <==> point_keys@.contains(k),
        forall|k: u64|
            #[trigger] indices_map@.contains_key(k) ==> indices_map@[k]@ == indices_with_key(
                point_keys@,
                k,
                point_keys@.len(),
            ),
{
    let mut indices_map: HashMap<u64, Vec<usize>> = HashMap::new();
    let mut i: usize = 0;
    while i < point_keys.len()
        invariant
            i <= point_keys.len(),
            forall|k: u64|
                #[trigger] indices_map@.contains_key(k) <==> point_keys@.subrange(0, i as int).contains(k),
            forall|k: u64|
                #[trigger] indices_map@.contains_key(k) ==> indices_map@[k]@ == indices_with_key(
                    point_keys@,
                    k,
                    i as nat,
                ),
            forall|k: u64|
                !(#[trigger] indices_map@.contains_key(k)) ==> indices_with_key(point_keys@, k, i as nat)
                    == Seq::<usize>::empty(),
        decreases point_keys.len() - i,
    {
        let value = point_keys[i];
        let ghost before = indices_map@;
        let mut list = match indices_map.remove(&value) {
            Some(list) => list,
            None => Vec::new(),
        };
        list.push(i);
        indices_map.insert(value, list);
        proof {
            assert forall|k: u64| #[trigger] indices_map@.contains_key(k) <==> point_keys@.subrange(
                0,
                i + 1,
            ).contains(k) by {
                if k != value && before.contains_key(k) {
                    let j = choose|j: int|
                        0 <= j < i && #[trigger] point_keys@.subrange(0, i as int)[j] == k;
                    assert(point_keys@.subrange(0, i + 1)[j] == k);
                }
                if k == value {
                    assert(point_keys@.subrange(0, i + 1)[i as int] == k);
                }
                if point_keys@.subrange(0, i + 1).contains(k) && k != value {
                    let j = choose|j: int|
                        0 <= j < i + 1 && #[trigger] point_keys@.subrange(0, i + 1)[j] == k;
                    assert(point_keys@.subrange(0, i as int)[j] == k);
                }
            }
        }
        i = i + 1;
    }
    assert(point_keys@.subrange(0, point_keys@.len() as int) =~= point_keys@);
    indices_map
}

/// Settings of the refinement of a linear tree.
#[derive(Debug, Clone, Copy, PartialEq, Eq, Structural)]
pub struct TreeSettings {
    /// A cell holding more points than this is split (adaptive tree), or makes the whole
    /// level split (regular tree).
    pub max_points_per_cell: usize,
    /// Whether every child of a split cell is kept, also those that hold no point.
    pub store_empty_leaves: bool,
    /// Adaptive refinement (cell by cell) or regular refinement (level by level).
    pub adaptive_tree: bool,
    /// The deepest level of the tree; the points' keys are given at this level.
    pub max_level: u64,
    /// A regular tree is not refined to this level or beyond.
    pub optimal_depth: u64,
    /// The dimensions of the tree.
    pub dimensions: Dimensions,
}

/// The key at level `l` of point `i`, whose key at the deepest level is `fine[i]`.
pub open spec fn point_key_at(fine: Seq<u64>, s: TreeSettings, i: int, l: int) -> u64 {
    ancestor_of(fine[i], s.dimensions, (s.max_level - l) as nat)
}

/// The points among the first `n`, ascending, whose cell at level `l + 1` is `x` and
/// whose cell at level `l` is among `procs` (the split cells of level `l`).
pub open spec fn reached_points(
    fine: Seq<u64>,
    s: TreeSettings,
    procs: Set<u64>,
    l: int,
    x: u64,
    n: nat,
) -> Seq<usize>
    decreases n,
{
    if n == 0 {
        Seq::empty()
    } else {
        let prev = reached_points(fine, s, procs, l, x, (n - 1) as nat);
        let i = n - 1;
        if point_key_at(fine, s, i, l + 1) == x && procs.contains(point_key_at(fine, s, i, l)) {
            prev.push(i as usize)
        } else {
            prev
        }
    }
}

/// The cells of level `l + 1` created by splitting the cells `procs` of level `l`: all
/// their children when empty leaves are stored, else the cells their points fall in.
pub open spec fn created_from(fine: Seq<u64>, s: TreeSettings, procs: Set<u64>, l: int) -> Set<
    u64,
> {
    Set::new(
        |x: u64|
            if s.store_empty_leaves {
                exists|c: u64| procs.contains(c) && #[trigger] child_keys(c, s.dimensions).contains(x)
            } else {
                reached_points(fine, s, procs, l, x, fine.len()).len() > 0
            },
    )
}

/// Whether a created cell of level `l + 1` holding `count` points is split further in an
/// adaptive tree.
pub open spec fn splits_cell(s: TreeSettings, l: int, count: nat) -> bool {
    count > s.max_points_per_cell && l + 1 < s.max_level
}

/// Whether the created cells of level `l + 1` are split as a whole in a regular tree:
/// one of them holds too many points and the level is below both depth limits.
pub open spec fn splits_level(fine: Seq<u64>, s: TreeSettings, procs: Set<u64>, l: int) -> bool {
    &&& exists|x: u64|
        #[trigger] created_from(fine, s, procs, l).contains(x) && reached_points(
            fine,
            s,
            procs,
            l,
            x,
            fine.len(),
        ).len() > s.max_points_per_cell
    &&& l + 1 < s.max_level
    &&& l + 1 < s.optimal_depth
}

/// The split cells of level `l + 1`, given the split cells `procs` of level `l`.
pub open spec fn split_from(fine: Seq<u64>, s: TreeSettings, procs: Set<u64>, l: int) -> Set<u64> {
    if s.adaptive_tree {
        Set::new(
            |x: u64|
                created_from(fine, s, procs, l).contains(x) && splits_cell(
                    s,
                    l,
                    reached_points(fine, s, procs, l, x, fine.len()).len(),
                ),
        )
    } else if splits_level(fine, s, procs, l) {
        created_from(fine, s, procs, l)
    } else {
        Set::empty()
    }
}

/// The split cells of level `l`: the root at level zero, then level by level.
pub open spec fn split_cells(fine: Seq<u64>, s: TreeSettings, l: int) -> Set<u64>
    decreases l,
{
    if l <= 0 {
        set![0u64]
    } else {
        split_from(fine, s, split_cells(fine, s, l - 1), l - 1)
    }
}

/// The cells of the tree at level `l`.
pub open spec fn tree_cells(fine: Seq<u64>, s: TreeSettings, l: int) -> Set<u64> {
    if l <= 0 {
        set![0u64]
    } else {
        created_from(fine, s, split_cells(fine, s, l - 1), l - 1)
    }
}

/// The points, ascending, that the cell `x` of level `l >= 1` holds.
pub open spec fn cell_points(fine: Seq<u64>, s: TreeSettings, l: int, x: u64) -> Seq<usize> {
    reached_points(fine, s, split_cells(fine, s, l - 1), l - 1, x, fine.len())
}

/// Whether `x`, at level `l >= 1`, is a leaf: a cell of the tree that is not split and
/// that holds points or is kept though empty.
pub open spec fn is_leaf_cell(fine: Seq<u64>, s: TreeSettings, l: int, x: u64) -> bool {
    &&& l >= 1
    &&& tree_cells(fine, s, l).contains(x)
    &&& !split_cells(fine, s, l).contains(x)
    &&& (s.store_empty_leaves || cell_points(fine, s, l, x).len() > 0)
}

/// The root key `0` lies at level zero, with no coordinate bits.
pub proof fn lemma_root_level()
    ensures
        level_of(0) == 0,
        (0u64 >> 15u64) < (1u64 << 0u64),
{
    assert(0u64 & 0x7fff == 0 && (0u64 >> 15u64) < (1u64 << 0u64)) by (bit_vector);
}

/// The level of an ancestor: `j` generations above a key lies `j` levels higher.
pub proof fn lemma_ancestor_level(key: u64, dimensions: Dimensions, j: nat)
    requires
        j <= level_of(key),
    ensures
        level_of(ancestor_of(key, dimensions, j)) == level_of(key) - j,
    decreases j,
{
    if j > 0 {
        lemma_ancestor_level(key, dimensions, (j - 1) as nat);
        lemma_parent_level(ancestor_of(key, dimensions, (j - 1) as nat), dimensions);
    }
}

/// The key `j` generations above `key`.
fn ancestor_exec(key: u64, dimensions: &Dimensions, j: u64) -> (a: u64)
    requires
        j <= level_of(key),
    ensures
        a == ancestor_of(key, *dimensions, j as nat),
{
    let mut a = key;
    let mut k: u64 = 0;
    while k < j
        invariant
            k <= j,
            j <= level_of(key),
            a == ancestor_of(key, *dimensions, k as nat),
            level_of(a) == level_of(key) - k,
        decreases j - k,
    {
        proof {
            lemma_parent_level(a, *dimensions);
        }
        match get_parent(&a, dimensions) {
            Some(p) => {
                a = p;
            },
            None => {
                assert(false);
                return a;
            },
        }
        k = k + 1;
    }
    a
}

/// The points' keys are keys of the deepest level whose ancestor at level zero is the
/// root `0`, and that level lies between `1` and `63`.
pub open spec fn valid_fine_keys(fine: Seq<u64>, s: TreeSettings) -> bool {
    &&& 1 <= s.max_level < 64
    &&& forall|i: int|
        0 <= i < fine.len() ==> level_of(#[trigger] fine[i]) == s.max_level && ancestor_of(
            fine[i],
            s.dimensions,
            s.max_level as nat,
        ) == 0
}

/// A point's cell at a level is the parent of its cell one level down, and lies at that
/// level.
pub proof fn lemma_point_key_parent(fine: Seq<u64>, s: TreeSettings, i: int, l: int)
    requires
        valid_fine_keys(fine, s),
        0 <= i < fine.len(),
        0 <= l < s.max_level,
    ensures
        point_key_at(fine, s, i, l) == parent_of(point_key_at(fine, s, i, l + 1), s.dimensions),
        level_of(point_key_at(fine, s, i, l + 1)) == l + 1,
        level_of(point_key_at(fine, s, i, l)) == l,
{
    assert(level_of(fine[i]) == s.max_level);
    lemma_ancestor_level(fine[i], s.dimensions, (s.max_level - l - 1) as nat);
    lemma_ancestor_level(fine[i], s.dimensions, (s.max_level - l) as nat);
}

/// Reached points are listed in ascending order, each below `n`, each with cell `x` at
/// level `l + 1` and a split cell at level `l`.
proof fn lemma_reached_points_facts(
    fine: Seq<u64>,
    s: TreeSettings,
    procs: Set<u64>,
    l: int,
    x: u64,
    n: nat,
)
    requires
        n <= fine.len(),
        n <= usize::MAX,
    ensures
        forall|a: int|
            0 <= a < reached_points(fine, s, procs, l, x, n).len() ==> {
                let i = #[trigger] reached_points(fine, s, procs, l, x, n)[a] as int;
                &&& 0 <= i < n
                &&& point_key_at(fine, s, i, l + 1) == x
                &&& procs.contains(point_key_at(fine, s, i, l))
            },
    decreases n,
{
    if n > 0 {
        lemma_reached_points_facts(fine, s, procs, l, x, (n - 1) as nat);
        let prev = reached_points(fine, s, procs, l, x, (n - 1) as nat);
        let i = n - 1;
        if point_key_at(fine, s, i, l + 1) == x && procs.contains(point_key_at(fine, s, i, l)) {
            assert(reached_points(fine, s, procs, l, x, n) == prev.push(i as usize));
            assert(((n - 1) as usize) as int == n - 1);
        }
    }
}

/// Groups the points whose cell at level `l` is split by their cell at level `l + 1`:
/// each such cell is mapped to its points in ascending order, and the cells are also
/// listed once each, in the order of their first point.
fn distribute_points(fine: &[u64], s: &TreeSettings, l: u64, split: &HashSet<u64>) -> (r: (
    HashMap<u64, Vec<usize>>,
    Vec<u64>,
))
    requires
        valid_fine_keys(fine@, *s),
        l < s.max_level,
    ensures
        forall|x: u64|
            #[trigger] r.0@.contains_key(x) <==> reached_points(
                fine@,
                *s,
                split@,
                l as int,
                x,
                fine@.len(),
            ).len() > 0,
        forall|x: u64|
            #[trigger] r.0@.contains_key(x) ==> r.0@[x]@ == reached_points(
                fine@,
                *s,
                split@,
                l as int,
                x,
                fine@.len(),
            ),
        r.1@.no_duplicates(),
        forall|x: u64| r.1@.contains(x) <==> #[trigger] r.0@.contains_key(x),
{
    let n = fine.len();
    let mut map: HashMap<u64, Vec<usize>> = HashMap::new();
    let mut order: Vec<u64> = Vec::new();
    let mut i: usize = 0;
    while i < n
        invariant
            n == fine@.len(),
            valid_fine_keys(fine@, *s),
            l < s.max_level,
            i <= n,
            forall|x: u64|
                #[trigger] map@.contains_key(x) <==> reached_points(
                    fine@,
                    *s,
                    split@,
                    l as int,
                    x,
                    i as nat,
                ).len() > 0,
            forall|x: u64|
                #[trigger] map@.contains_key(x) ==> map@[x]@ == reached_points(
                    fine@,
                    *s,
                    split@,
                    l as int,
                    x,
                    i as nat,
                ),
            order@.no_duplicates(),
            forall|x: u64| order@.contains(x) <==> #[trigger] map@.contains_key(x),
        decreases n - i,
    {
        proof {
            assert(level_of(fine@[i as int]) == s.max_level);
        }
        let cur = ancestor_exec(fine[i], &s.dimensions, s.max_level - l);
        if split.contains(&cur) {
            let next = ancestor_exec(fine[i], &s.dimensions, s.max_level - l - 1);
            let ghost before = map@;
            let ghost before_order = order@;
            let mut list = match map.remove(&next) {
                Some(list) => list,
                None => {
                    order.push(next);
                    Vec::new()
                },
            };
            list.push(i);
            map.insert(next, list);
            proof {
                assert(cur == point_key_at(fine@, *s, i as int, l as int));
                assert(next == point_key_at(fine@, *s, i as int, l + 1));
                assert forall|x: u64| #[trigger] map@.contains_key(x) <==> reached_points(
                    fine@,
                    *s,
                    split@,
                    l as int,
                    x,
                    (i + 1) as nat,
                ).len() > 0 by {
                    if x != next {
                        assert(before.contains_key(x) == map@.contains_key(x));
                    }
                }
                assert forall|x: u64| order@.contains(x) <==> #[trigger] map@.contains_key(x) by {
                    if x != next {
                        if order@.contains(x) {
                            let k = choose|k: int| 0 <= k < order@.len() && order@[k] == x;
                            assert(before_order[k] == x);
                        }
                        if before_order.contains(x) {
                            let k = choose|k: int| 0 <= k < before_order.len() && before_order[k] == x;
                            assert(order@[k] == x);
                        }
                    } else {
                        if !before.contains_key(next) {
                            assert(order@[order@.len() - 1] == next);
                        } else {
                            let k = choose|k: int| 0 <= k < before_order.len() && before_order[k] == x;
                            assert(order@[k] == x);
                        }
                    }
                }
            }
        }
        i = i + 1;
    }
    (map, order)
}

/// What a sequence holds after a push.
proof fn lemma_push_contains<T>(s: Seq<T>, v: T, x: T)
    ensures
        s.push(v).contains(x) <==> (s.contains(x) || x == v),
{
    if s.contains(x) {
        let w = choose|w: int| 0 <= w < s.len() && #[trigger] s[w] == x;
        assert(s.push(v)[w] == x);
    }
    if x == v {
        assert(s.push(v)[s.len() as int] == x);
    }
    if s.push(v).contains(x) && x != v {
        let w = choose|w: int| 0 <= w < s.len() + 1 && #[trigger] s.push(v)[w] == x;
        assert(s[w] == x);
    }
}

/// What a concatenation holds.
proof fn lemma_add_contains<T>(a: Seq<T>, b: Seq<T>, x: T)
    ensures
        (a + b).contains(x) <==> (a.contains(x) || b.contains(x)),
{
    if a.contains(x) {
        let w = choose|w: int| 0 <= w < a.len() && #[trigger] a[w] == x;
        assert((a + b)[w] == x);
    }
    if b.contains(x) {
        let w = choose|w: int| 0 <= w < b.len() && #[trigger] b[w] == x;
        assert((a + b)[a.len() + w] == x);
    }
    if (a + b).contains(x) {
        let w = choose|w: int| 0 <= w < a.len() + b.len() && #[trigger] (a + b)[w] == x;
        if w < a.len() {
            assert(a[w] == x);
        } else {
            assert(b[w - a.len()] == x);
        }
    }
}

/// What a prefix holds once it takes one more element.
proof fn lemma_prefix_contains<T>(s: Seq<T>, t: int, x: T)
    requires
        0 <= t < s.len(),
    ensures
        s.subrange(0, t + 1).contains(x) <==> (s.subrange(0, t).contains(x) || x == s[t]),
{
    assert(s.subrange(0, t + 1) =~= s.subrange(0, t).push(s[t]));
    lemma_push_contains(s.subrange(0, t), s[t], x);
}

/// The children created for the split cell `c` of level `l`: all its children when empty
/// leaves are stored, else the cells of level `l + 1` below it that hold points.
pub open spec fn cell_children(fine: Seq<u64>, s: TreeSettings, procs: Set<u64>, l: int, c: u64) -> Set<
    u64,
> {
    if s.store_empty_leaves {
        child_keys(c, s.dimensions).to_set()
    } else {
        Set::new(
            |x: u64|
                reached_points(fine, s, procs, l, x, fine.len()).len() > 0 && parent_of(
                    x,
                    s.dimensions,
                ) == c,
        )
    }
}

/// A cell of level `l + 1` that holds points lies at that level below a split cell,
/// which is its parent.
proof fn lemma_reached_cell(fine: Seq<u64>, s: TreeSettings, procs: Set<u64>, l: int, x: u64)
    requires
        valid_fine_keys(fine, s),
        0 <= l < s.max_level,
        fine.len() <= usize::MAX,
        reached_points(fine, s, procs, l, x, fine.len()).len() > 0,
    ensures
        level_of(x) == l + 1,
        procs.contains(parent_of(x, s.dimensions)),
{
    lemma_reached_points_facts(fine, s, procs, l, x, fine.len());
    let i = reached_points(fine, s, procs, l, x, fine.len())[0] as int;
    lemma_point_key_parent(fine, s, i, l);
}

/// The cells of level `l + 1` created by splitting `procs`, the split cells of level `l`,
/// lie at level `l + 1`.
pub proof fn lemma_created_level(fine: Seq<u64>, s: TreeSettings, procs: Set<u64>, l: int, x: u64)
    requires
        valid_fine_keys(fine, s),
        0 <= l < s.max_level,
        fine.len() <= usize::MAX,
        forall|c: u64| #[trigger] procs.contains(c) ==> level_of(c) == l,
        created_from(fine, s, procs, l).contains(x),
    ensures
        level_of(x) == l + 1,
{
    if s.store_empty_leaves {
        let c = choose|c: u64| procs.contains(c) && #[trigger] child_keys(c, s.dimensions).contains(x);
        let k = choose|k: int| 0 <= k < child_keys(c, s.dimensions).len() && #[trigger] child_keys(c, s.dimensions)[k] == x;
        lemma_child_level(c, s.dimensions, k as u64);
    } else {
        lemma_reached_cell(fine, s, procs, l, x);
    }
}

/// The cells of the next level and the children of each split cell of a level.
struct LevelSplit {
    /// The cells of level `l + 1`.
    pub created: Vec<u64>,
    /// The children of each split cell, in the order of the split cells.
    pub children: Vec<Vec<u64>>,
    /// The points of each cell of level `l + 1` that holds points.
    pub points: HashMap<u64, Vec<usize>>,
}

/// Splits the cells `current` (the split cells of level `l`): creates the cells of level
/// `l + 1`, the children of each split cell, and the points of each new cell.
fn refine_level(fine: &[u64], s: &TreeSettings, l: u64, current: &Vec<u64>, split: &HashSet<u64>) -> (r:
    LevelSplit)
    requires
        valid_fine_keys(fine@, *s),
        l < s.max_level,
        forall|c: u64| current@.contains(c) <==> #[trigger] split@.contains(c),
        forall|c: u64| #[trigger] split@.contains(c) ==> level_of(c) == l,
    ensures
        forall|x: u64|
            r.created@.contains(x) <==> #[trigger] created_from(fine@, *s, split@, l as int).contains(x),
        r.children@.len() == current@.len(),
        forall|k: int, x: u64|
            0 <= k < current@.len() ==> (r.children@[k]@.contains(x) <==> #[trigger] cell_children(
                fine@,
                *s,
                split@,
                l as int,
                current@[k],
            ).contains(x)),
        s.store_empty_leaves ==> forall|k: int|
            0 <= k < current@.len() ==> #[trigger] r.children@[k]@ == child_keys(current@[k], s.dimensions),
        !s.store_empty_leaves ==> forall|k: int|
            0 <= k < current@.len() ==> #[trigger] r.children@[k]@.no_duplicates(),
        forall|x: u64|
            #[trigger] r.points@.contains_key(x) <==> reached_points(
                fine@,
                *s,
                split@,
                l as int,
                x,
                fine@.len(),
            ).len() > 0,
        forall|x: u64|
            #[trigger] r.points@.contains_key(x) ==> r.points@[x]@ == reached_points(
                fine@,
                *s,
                split@,
                l as int,
                x,
                fine@.len(),
            ),
{
    let nfine = fine.len();
    let (points, order) = distribute_points(fine, s, l, split);
    let ghost procs = split@;
    let mut created: Vec<u64> = Vec::new();
    let mut children: Vec<Vec<u64>> = Vec::new();
    if s.store_empty_leaves {
        let mut k: usize = 0;
        while k < current.len()
            invariant
                s.store_empty_leaves,
                procs == split@,
                k <= current@.len(),
                children@.len() == k,
                forall|q: int| 0 <= q < k ==> #[trigger] children@[q]@ == child_keys(current@[q], s.dimensions),
                forall|x: u64|
                    created@.contains(x) <==> exists|q: int|
                        0 <= q < k && #[trigger] child_keys(current@[q], s.dimensions).contains(x),
            decreases current.len() - k,
        {
            let ch = get_children(&current[k], &s.dimensions);
            let ghost before = created@;
            proof {
                assert(ch@ =~= child_keys(current@[k as int], s.dimensions));
            }
            let mut t: usize = 0;
            while t < ch.len()
                invariant
                    k < current@.len(),
                    t <= ch@.len(),
                    ch@ == child_keys(current@[k as int], s.dimensions),
                    created@ == before + ch@.subrange(0, t as int),
                decreases ch.len() - t,
            {
                created.push(ch[t]);
                proof {
                    assert(created@ =~= before + ch@.subrange(0, t + 1));
                }
                t = t + 1;
            }
            proof {
                assert(ch@.subrange(0, ch@.len() as int) =~= ch@);
                assert forall|x: u64|
                    created@.contains(x) <==> exists|q: int|
                        0 <= q < k + 1 && #[trigger] child_keys(current@[q], s.dimensions).contains(x) by {
                    lemma_add_contains(before, ch@, x);
                    if created@.contains(x) && !before.contains(x) {
                        assert(child_keys(current@[k as int], s.dimensions).contains(x));
                    }
                    if exists|q: int|
                        0 <= q < k + 1 && #[trigger] child_keys(current@[q], s.dimensions).contains(x) {
                        let q = choose|q: int|
                            0 <= q < k + 1 && #[trigger] child_keys(current@[q], s.dimensions).contains(x);
                        if q < k {
                            assert(before.contains(x));
                        }
                    }
                }
            }
            children.push(ch);
            k = k + 1;
        }
        proof {
            assert forall|x: u64|
                created@.contains(x) <==> #[trigger] created_from(fine@, *s, procs, l as int).contains(x) by {
                if created@.contains(x) {
                    let q = choose|q: int|
                        0 <= q < current@.len() && #[trigger] child_keys(current@[q], s.dimensions).contains(x);
                    assert(procs.contains(current@[q]));
                }
                if created_from(fine@, *s, procs, l as int).contains(x) {
                    let c = choose|c: u64| procs.contains(c) && #[trigger] child_keys(c, s.dimensions).contains(x);
                    assert(current@.contains(c));
                    let q = choose|q: int| 0 <= q < current@.len() && #[trigger] current@[q] == c;
                    assert(child_keys(current@[q], s.dimensions).contains(x));
                }
            }
            assert forall|k2: int, x: u64|
                0 <= k2 < current@.len() implies (children@[k2]@.contains(x) <==> #[trigger] cell_children(
                    fine@,
                    *s,
                    procs,
                    l as int,
                    current@[k2],
                ).contains(x)) by {
                assert(children@[k2]@ == child_keys(current@[k2], s.dimensions));
            }
        }
    } else {
        created = order;
        proof {
            assert forall|x: u64| #[trigger] created@.contains(x) implies level_of(x) > 0 by {
                assert(points@.contains_key(x));
                lemma_reached_cell(fine@, *s, procs, l as int, x);
            }
        }
        let groups = group_by_parent(&created, &s.dimensions);
        let mut k: usize = 0;
        while k < current.len()
            invariant
                !s.store_empty_leaves,
                procs == split@,
                k <= current@.len(),
                children@.len() == k,
                forall|q: int, x: u64|
                    0 <= q < k ==> (#[trigger] children@[q]@.contains(x) <==> (created@.contains(x)
                        && parent_of(x, s.dimensions) == current@[q])),
                forall|q: int| 0 <= q < k ==> #[trigger] children@[q]@.no_duplicates(),
                forall|p: u64| #[trigger] groups@.contains_key(p) ==> groups@[p]@.no_duplicates(),
                forall|p: u64, x: u64|
                    #![trigger groups@[p]@.contains(x)]
                    groups@.contains_key(p) ==> (groups@[p]@.contains(x) <==> (created@.contains(x)
                        && parent_of(x, s.dimensions) == p)),
                forall|x: u64|
                    created@.contains(x) ==> #[trigger] groups@.contains_key(parent_of(x, s.dimensions)),
            decreases current.len() - k,
        {
            let c = current[k];
            let ch = match groups.get(&c) {
                Some(v) => v.clone(),
                None => Vec::new(),
            };
            proof {
                assert(ch@.no_duplicates());
            }
            children.push(ch);
            k = k + 1;
        }
        proof {
            assert forall|k2: int, x: u64|
                0 <= k2 < current@.len() implies (children@[k2]@.contains(x) <==> #[trigger] cell_children(
                    fine@,
                    *s,
                    procs,
                    l as int,
                    current@[k2],
                ).contains(x)) by {
                assert(children@[k2]@.contains(x) <==> (created@.contains(x) && parent_of(x, s.dimensions)
                    == current@[k2]));
                assert(created@.contains(x) <==> points@.contains_key(x));
            }
            assert forall|x: u64|
                created@.contains(x) <==> #[trigger] created_from(fine@, *s, procs, l as int).contains(x) by {
                assert(created@.contains(x) <==> points@.contains_key(x));
            }
        }
    }
    LevelSplit { created, children, points }
}

/// Groups cells by their parent: each parent of a listed cell is mapped to its listed
/// children, once each.
fn group_by_parent(cells: &Vec<u64>, dimensions: &Dimensions) -> (groups: HashMap<u64, Vec<u64>>)
    requires
        cells@.no_duplicates(),
        forall|x: u64| #[trigger] cells@.contains(x) ==> level_of(x) > 0,
    ensures
        forall|p: u64| #[trigger] groups@.contains_key(p) ==> groups@[p]@.no_duplicates(),
        forall|p: u64, x: u64|
            #![trigger groups@[p]@.contains(x)]
            groups@.contains_key(p) ==> (groups@[p]@.contains(x) <==> (cells@.contains(x)
                && parent_of(x, *dimensions) == p)),
        forall|x: u64| cells@.contains(x) ==> #[trigger] groups@.contains_key(parent_of(x, *dimensions)),
{
    let mut groups: HashMap<u64, Vec<u64>> = HashMap::new();
    let mut t: usize = 0;
    while t < cells.len()
        invariant
            t <= cells@.len(),
            cells@.no_duplicates(),
            forall|x: u64| #[trigger] cells@.contains(x) ==> level_of(x) > 0,
            forall|p: u64| #[trigger] groups@.contains_key(p) ==> groups@[p]@.no_duplicates(),
            forall|p: u64, x: u64|
                #![trigger groups@[p]@.contains(x)]
                groups@.contains_key(p) ==> (groups@[p]@.contains(x) <==> (cells@.subrange(
                    0,
                    t as int,
                ).contains(x) && parent_of(x, *dimensions) == p)),
            forall|x: u64|
                cells@.subrange(0, t as int).contains(x) ==> #[trigger] groups@.contains_key(
                    parent_of(x, *dimensions),
                ),
        decreases cells.len() - t,
    {
        let x = cells[t];
        proof {
            assert(cells@.contains(x));
        }
        let p = match get_parent(&x, dimensions) {
            Some(p) => p,
            None => {
                assert(false);
                0
            },
        };
        let ghost before = groups@;
        let ghost had = groups@.contains_key(p);
        let mut list = match groups.remove(&p) {
            Some(list) => list,
            None => Vec::new(),
        };
        let ghost old_list = list@;
        proof {
            assert(!old_list.contains(x)) by {
                if old_list.contains(x) {
                    assert(before[p]@.contains(x));
                    assert(cells@.subrange(0, t as int).contains(x));
                    let w = choose|w: int| 0 <= w < t && #[trigger] cells@.subrange(0, t as int)[w] == x;
                    assert(cells@[w] == cells@[t as int]);
                }
            }
            assert(had ==> old_list == before[p]@);
            assert(!had ==> old_list == Seq::<u64>::empty());
        }
        list.push(x);
        groups.insert(p, list);
        proof {
            assert(list@ == old_list.push(x));
            assert(list@.no_duplicates()) by {
                assert forall|a: int, b: int| 0 <= a < b < list@.len() implies list@[a] != list@[b] by {
                    if b == list@.len() - 1 {
                        assert(old_list.contains(list@[a]));
                    }
                }
            }
            assert forall|q: u64| #[trigger] groups@.contains_key(q) implies groups@[q]@.no_duplicates() by {
                if q != p {
                    assert(groups@[q] == before[q]);
                }
            }
            assert forall|q: u64, y: u64| groups@.contains_key(q) implies (#[trigger] groups@[q]@.contains(y)
                <==> (cells@.subrange(0, t + 1).contains(y) && parent_of(y, *dimensions) == q)) by {
                lemma_prefix_contains(cells@, t as int, y);
                if q != p {
                    assert(groups@[q] == before[q]);
                    assert(before.contains_key(q));
                    assert(before[q]@.contains(y) <==> (cells@.subrange(0, t as int).contains(y)
                        && parent_of(y, *dimensions) == q));
                } else {
                    lemma_push_contains(old_list, x, y);
                    if had {
                        assert(before[p]@.contains(y) <==> (cells@.subrange(0, t as int).contains(y)
                            && parent_of(y, *dimensions) == p));
                    } else {
                        if cells@.subrange(0, t as int).contains(y) && parent_of(y, *dimensions) == p {
                            assert(before.contains_key(parent_of(y, *dimensions)));
                        }
                    }
                }
            }
            assert forall|y: u64| cells@.subrange(0, t + 1).contains(y) implies #[trigger] groups@.contains_key(
                parent_of(y, *dimensions),
            ) by {
                lemma_prefix_contains(cells@, t as int, y);
            }
        }
        t = t + 1;
    }
    proof {
        assert(cells@.subrange(0, cells@.len() as int) =~= cells@);
    }
    groups
}

/// Split cells of a level are cells of the tree at that level.
pub proof fn lemma_split_in_tree(fine: Seq<u64>, s: TreeSettings, l: int, x: u64)
    requires
        split_cells(fine, s, l).contains(x),
    ensures
        tree_cells(fine, s, l).contains(x),
{
}

/// No cell is split at the deepest level or below it.
pub proof fn lemma_no_split_beyond(fine: Seq<u64>, s: TreeSettings, l: int)
    requires
        l >= 1,
        l >= s.max_level,
    ensures
        split_cells(fine, s, l) == Set::<u64>::empty(),
{
    assert(split_cells(fine, s, l) =~= Set::<u64>::empty());
}

/// Without split cells at a level there are no cells one level down.
pub proof fn lemma_no_cells_below_unsplit(fine: Seq<u64>, s: TreeSettings, l: int)
    requires
        l >= 0,
        split_cells(fine, s, l) == Set::<u64>::empty(),
    ensures
        tree_cells(fine, s, l + 1) == Set::<u64>::empty(),
        split_cells(fine, s, l + 1) == Set::<u64>::empty(),
{
    assert forall|x: u64| !#[trigger] tree_cells(fine, s, l + 1).contains(x) by {
        if !s.store_empty_leaves {
            lemma_reached_empty_procs(fine, s, l, x, fine.len());
        }
    }
    assert(tree_cells(fine, s, l + 1) =~= Set::<u64>::empty());
    assert(split_cells(fine, s, l + 1) =~= Set::<u64>::empty());
}

/// Without split cells no point is reached.
proof fn lemma_reached_empty_procs(fine: Seq<u64>, s: TreeSettings, l: int, x: u64, n: nat)
    ensures
        reached_points(fine, s, Set::<u64>::empty(), l, x, n) == Seq::<usize>::empty(),
    decreases n,
{
    if n > 0 {
        lemma_reached_empty_procs(fine, s, l, x, (n - 1) as nat);
    }
}

/// The cells of the tree at level `l` lie at level `l`.
pub proof fn lemma_tree_cells_level(fine: Seq<u64>, s: TreeSettings, l: int, x: u64)
    requires
        valid_fine_keys(fine, s),
        fine.len() <= usize::MAX,
        l >= 0,
        tree_cells(fine, s, l).contains(x),
    ensures
        level_of(x) == l,
    decreases l,
{
    if l == 0 {
        assert(x == 0);
        lemma_root_level();
    } else {
        let procs = split_cells(fine, s, l - 1);
        if l - 1 >= s.max_level {
            lemma_no_split_beyond(fine, s, l - 1);
            lemma_no_cells_below_unsplit(fine, s, l - 1);
        } else {
            assert forall|c: u64| #[trigger] procs.contains(c) implies level_of(c) == l - 1 by {
                lemma_split_in_tree(fine, s, l - 1, c);
                lemma_tree_cells_level(fine, s, l - 1, c);
            }
            lemma_created_level(fine, s, procs, l - 1, x);
        }
    }
}

/// Adds the cells of a new level that are not in the tree yet: each gets the next index
/// and an empty list of children, and the level lists them all. Returns the cells that
/// were added, once each.
fn add_cells(
    tree: &mut HashSet<u64>,
    key_to_index: &mut HashMap<u64, usize>,
    children: &mut HashMap<u64, Vec<u64>>,
    level_cells: &mut HashMap<u64, Vec<u64>>,
    created: &Vec<u64>,
    level: u64,
) -> (fresh: Vec<u64>)
    requires
        forall|x: u64| #[trigger] old(children)@.contains_key(x) <==> old(tree)@.contains(x),
        forall|x: u64| #[trigger] old(key_to_index)@.contains_key(x) <==> old(tree)@.contains(x),
        forall|x: u64|
            #[trigger] old(key_to_index)@.contains_key(x) ==> old(key_to_index)@[x] < old(tree)@.len(),
        forall|x: u64, y: u64|
            #![trigger old(key_to_index)@[x], old(key_to_index)@[y]]
            old(key_to_index)@.contains_key(x) && old(key_to_index)@.contains_key(y) && x != y
                ==> old(key_to_index)@[x] != old(key_to_index)@[y],
        !old(level_cells)@.contains_key(level),
        old(tree)@.finite(),
    ensures
        final(tree)@.finite(),
        forall|x: u64| #[trigger] final(tree)@.contains(x) <==> (old(tree)@.contains(x) || created@.contains(x)),
        fresh@.no_duplicates(),
        forall|x: u64| #[trigger] fresh@.contains(x) <==> (created@.contains(x) && !old(tree)@.contains(x)),
        forall|x: u64| #[trigger] final(children)@.contains_key(x) <==> final(tree)@.contains(x),
        forall|x: u64| #[trigger] old(children)@.contains_key(x) ==> final(children)@[x] == old(children)@[x],
        forall|x: u64| #[trigger] fresh@.contains(x) ==> final(children)@[x]@.len() == 0,
        forall|x: u64| #[trigger] final(key_to_index)@.contains_key(x) <==> final(tree)@.contains(x),
        forall|x: u64|
            #[trigger] final(key_to_index)@.contains_key(x) ==> final(key_to_index)@[x] < final(tree)@.len(),
        forall|x: u64, y: u64|
            #![trigger final(key_to_index)@[x], final(key_to_index)@[y]]
            final(key_to_index)@.contains_key(x) && final(key_to_index)@.contains_key(y) && x != y
                ==> final(key_to_index)@[x] != final(key_to_index)@[y],
        forall|x: u64| #[trigger] old(key_to_index)@.contains_key(x) ==> final(key_to_index)@[x] == old(key_to_index)@[x],
        forall|j: u64|
            #[trigger] final(level_cells)@.contains_key(j) <==> (old(level_cells)@.contains_key(j) || (j
                == level && created@.len() > 0)),
        forall|j: u64| #[trigger] old(level_cells)@.contains_key(j) ==> final(level_cells)@[j] == old(level_cells)@[j],
        created@.len() > 0 ==> final(level_cells)@[level]@ == created@,
{
    let mut t: usize = 0;
    let mut fresh: Vec<u64> = Vec::new();
    while t < created.len()
        invariant
            t <= created@.len(),
            forall|x: u64| #[trigger] old(children)@.contains_key(x) <==> old(tree)@.contains(x),
            forall|x: u64| #[trigger] old(key_to_index)@.contains_key(x) <==> old(tree)@.contains(x),
            tree@.finite(),
            forall|x: u64| #[trigger] tree@.contains(x) <==> (old(tree)@.contains(x) || created@.subrange(0, t as int).contains(x)),
            fresh@.no_duplicates(),
            forall|x: u64|
                #[trigger] fresh@.contains(x) <==> (created@.subrange(0, t as int).contains(x) && !old(tree)@.contains(x)),
            forall|x: u64| #[trigger] children@.contains_key(x) <==> tree@.contains(x),
            forall|x: u64| #[trigger] old(children)@.contains_key(x) ==> children@[x] == old(children)@[x],
            forall|x: u64| #[trigger] fresh@.contains(x) ==> children@[x]@.len() == 0,
            forall|x: u64| #[trigger] key_to_index@.contains_key(x) <==> tree@.contains(x),
            forall|x: u64| #[trigger] key_to_index@.contains_key(x) ==> key_to_index@[x] < tree@.len(),
            forall|x: u64, y: u64|
                #![trigger key_to_index@[x], key_to_index@[y]]
                key_to_index@.contains_key(x) && key_to_index@.contains_key(y) && x != y
                    ==> key_to_index@[x] != key_to_index@[y],
            forall|x: u64| #[trigger] old(key_to_index)@.contains_key(x) ==> key_to_index@[x] == old(key_to_index)@[x],
            level_cells@ == old(level_cells)@,
        decreases created.len() - t,
    {
        let x = created[t];
        proof {
            lemma_prefix_contains(created@, t as int, x);
        }
        if !tree.contains(&x) {
            let ghost before_tree = tree@;
            let ghost before_k = key_to_index@;
            let ghost before_fresh = fresh@;
            let ghost before_children = children@;
            tree.insert(x);
            let idx = tree.len() - 1;
            key_to_index.insert(x, idx);
            children.insert(x, Vec::new());
            fresh.push(x);
            proof {
                assert(tree@ == before_tree.insert(x));
                assert(tree@.len() == before_tree.len() + 1);
                assert forall|y: u64| #[trigger] tree@.contains(y) <==> (old(tree)@.contains(y)
                    || created@.subrange(0, t + 1).contains(y)) by {
                    lemma_prefix_contains(created@, t as int, y);
                }
                assert forall|y: u64| #[trigger] fresh@.contains(y) <==> (created@.subrange(0, t + 1).contains(y)
                    && !old(tree)@.contains(y)) by {
                    lemma_prefix_contains(created@, t as int, y);
                    lemma_push_contains(before_fresh, x, y);
                }
                assert(fresh@.no_duplicates()) by {
                    assert forall|a: int, b: int| 0 <= a < b < fresh@.len() implies fresh@[a] != fresh@[b] by {
                        if b == fresh@.len() - 1 {
                            assert(before_fresh.contains(fresh@[a]));
                        }
                    }
                }
                assert forall|y: u64| #[trigger] old(children)@.contains_key(y) implies children@[y]
                    == old(children)@[y] by {
                    assert(old(tree)@.contains(y));
                    assert(before_tree.contains(y));
                    assert(before_children.contains_key(y));
                }
                assert forall|y: u64| #[trigger] fresh@.contains(y) implies children@[y]@.len() == 0 by {
                    lemma_push_contains(before_fresh, x, y);
                    if y != x {
                        assert(before_fresh.contains(y));
                    }
                }
                assert forall|y: u64| #[trigger] key_to_index@.contains_key(y) implies key_to_index@[y] < tree@.len() by {
                    if y != x {
                        assert(before_k.contains_key(y));
                    }
                }
                assert forall|y: u64, z: u64|
                    key_to_index@.contains_key(y) && key_to_index@.contains_key(z) && y != z implies #[trigger] key_to_index@[y]
                        != #[trigger] key_to_index@[z] by {
                    if y != x && z != x {
                        assert(before_k.contains_key(y) && before_k.contains_key(z));
                    } else if y == x {
                        assert(before_k.contains_key(z));
                        assert(before_k[z] < before_tree.len());
                    } else {
                        assert(before_k.contains_key(y));
                        assert(before_k[y] < before_tree.len());
                    }
                }
                assert forall|y: u64| #[trigger] old(key_to_index)@.contains_key(y) implies key_to_index@[y]
                    == old(key_to_index)@[y] by {
                    assert(old(tree)@.contains(y));
                    assert(before_tree.contains(y));
                    assert(before_k.contains_key(y));
                }
            }
        } else {
            proof {
                assert forall|y: u64| #[trigger] tree@.contains(y) <==> (old(tree)@.contains(y)
                    || created@.subrange(0, t + 1).contains(y)) by {
                    lemma_prefix_contains(created@, t as int, y);
                }
                assert forall|y: u64| #[trigger] fresh@.contains(y) <==> (created@.subrange(0, t + 1).contains(y)
                    && !old(tree)@.contains(y)) by {
                    lemma_prefix_contains(created@, t as int, y);
                    if y == x && !old(tree)@.contains(y) {
                        assert(created@.subrange(0, t as int).contains(x));
                    }
                }
            }
        }
        t = t + 1;
    }
    proof {
        assert(created@.subrange(0, created@.len() as int) =~= created@);
    }
    if created.len() > 0 {
        level_cells.insert(level, created.clone());
    }
    fresh
}

/// Lists the children of each split cell.
fn set_children(children: &mut HashMap<u64, Vec<u64>>, current: &Vec<u64>, lists: &Vec<Vec<u64>>)
    requires
        current@.no_duplicates(),
        lists@.len() == current@.len(),
    ensures
        forall|x: u64|
            #[trigger] final(children)@.contains_key(x) <==> (old(children)@.contains_key(x)
                || current@.contains(x)),
        forall|k: int| 0 <= k < current@.len() ==> final(children)@[#[trigger] current@[k]]@ == lists@[k]@,
        forall|x: u64|
            #[trigger] old(children)@.contains_key(x) && !current@.contains(x) ==> final(children)@[x]
                == old(children)@[x],
{
    let mut k: usize = 0;
    while k < current.len()
        invariant
            k <= current@.len(),
            current@.no_duplicates(),
            lists@.len() == current@.len(),
            forall|x: u64|
                #[trigger] children@.contains_key(x) <==> (old(children)@.contains_key(x)
                    || current@.subrange(0, k as int).contains(x)),
            forall|q: int| 0 <= q < k ==> children@[#[trigger] current@[q]]@ == lists@[q]@,
            forall|x: u64|
                #[trigger] old(children)@.contains_key(x) && !current@.subrange(0, k as int).contains(x)
                    ==> children@[x] == old(children)@[x],
        decreases current.len() - k,
    {
        let ghost before = children@;
        children.insert(current[k], lists[k].clone());
        proof {
            assert forall|x: u64| #[trigger] children@.contains_key(x) <==> (old(children)@.contains_key(x)
                || current@.subrange(0, k + 1).contains(x)) by {
                lemma_prefix_contains(current@, k as int, x);
            }
            assert(children@[current@[k as int]]@ =~= lists@[k as int]@);
            assert forall|q: int| 0 <= q < k + 1 implies children@[#[trigger] current@[q]]@ == lists@[q]@ by {
                if q < k {
                    assert(current@[q] != current@[k as int]);
                }
            }
            assert forall|x: u64|
                #[trigger] old(children)@.contains_key(x) && !current@.subrange(0, k + 1).contains(x)
                    implies children@[x] == old(children)@[x] by {
                lemma_prefix_contains(current@, k as int, x);
            }
        }
        k = k + 1;
    }
    proof {
        assert(current@.subrange(0, current@.len() as int) =~= current@);
    }
}

/// The number of points a cell holds, from the points of the cells that hold any.
pub open spec fn points_count(points: Map<u64, Vec<usize>>, x: u64) -> nat {
    if points.contains_key(x) {
        points[x]@.len()
    } else {
        0
    }
}

/// Whether a regular tree splits a level whose new cells are `fresh`.
pub open spec fn level_goes_on(s: TreeSettings, l: int, fresh: Seq<u64>, points: Map<u64, Vec<usize>>) -> bool {
    &&& exists|x: u64| #[trigger] fresh.contains(x) && points_count(points, x) > s.max_points_per_cell
    &&& l + 1 < s.max_level
    &&& l + 1 < s.optimal_depth
}

/// Whether a new cell becomes a leaf.
pub open spec fn becomes_leaf(
    s: TreeSettings,
    l: int,
    fresh: Seq<u64>,
    points: Map<u64, Vec<usize>>,
    x: u64,
) -> bool {
    &&& fresh.contains(x)
    &&& if s.adaptive_tree {
        !splits_cell(s, l, points_count(points, x)) && (s.store_empty_leaves || points_count(points, x) > 0)
    } else {
        !level_goes_on(s, l, fresh, points)
    }
}

/// Whether a new cell is split further.
pub open spec fn becomes_split(
    s: TreeSettings,
    l: int,
    fresh: Seq<u64>,
    points: Map<u64, Vec<usize>>,
    x: u64,
) -> bool {
    &&& fresh.contains(x)
    &&& if s.adaptive_tree {
        splits_cell(s, l, points_count(points, x))
    } else {
        level_goes_on(s, l, fresh, points)
    }
}

/// Decides, for the new cells `fresh` of level `l + 1`, which are split further and which
/// become leaves, recording the leaves and the points of those that hold any.
fn classify_level(
    s: &TreeSettings,
    l: u64,
    fresh: &Vec<u64>,
    points: &HashMap<u64, Vec<usize>>,
    leaves: &mut HashSet<u64>,
    sources: &mut HashMap<u64, Vec<usize>>,
) -> (next: Vec<u64>)
    requires
        fresh@.no_duplicates(),
        l < s.max_level,
    ensures
        next@.no_duplicates(),
        forall|x: u64| #[trigger] next@.contains(x) <==> becomes_split(*s, l as int, fresh@, points@, x),
        forall|x: u64|
            #[trigger] final(leaves)@.contains(x) <==> (old(leaves)@.contains(x) || becomes_leaf(
                *s,
                l as int,
                fresh@,
                points@,
                x,
            )),
        forall|x: u64|
            #[trigger] final(sources)@.contains_key(x) <==> (old(sources)@.contains_key(x) || (becomes_leaf(
                *s,
                l as int,
                fresh@,
                points@,
                x,
            ) && points@.contains_key(x))),
        forall|x: u64|
            #[trigger] final(sources)@.contains_key(x) ==> final(sources)@[x]@ == if old(sources)@.contains_key(
                x,
            ) && !(becomes_leaf(*s, l as int, fresh@, points@, x) && points@.contains_key(x)) {
                old(sources)@[x]@
            } else {
                points@[x]@
            },
{
    let mut exceeds = false;
    let mut t: usize = 0;
    while t < fresh.len()
        invariant
            t <= fresh@.len(),
            exceeds <==> exists|x: u64|
                #[trigger] fresh@.subrange(0, t as int).contains(x) && points_count(points@, x)
                    > s.max_points_per_cell,
        decreases fresh.len() - t,
    {
        let x = fresh[t];
        let count: usize = match points.get(&x) {
            Some(v) => v.len(),
            None => 0,
        };
        proof {
            assert(count == points_count(points@, x));
        }
        let ghost before = exceeds;
        if count > s.max_points_per_cell {
            exceeds = true;
        }
        proof {
            if exceeds {
                if before {
                    let y = choose|y: u64|
                        #[trigger] fresh@.subrange(0, t as int).contains(y) && points_count(points@, y)
                            > s.max_points_per_cell;
                    lemma_prefix_contains(fresh@, t as int, y);
                } else {
                    lemma_prefix_contains(fresh@, t as int, x);
                }
            } else {
                assert forall|y: u64|
                    !(#[trigger] fresh@.subrange(0, t + 1).contains(y) && points_count(points@, y)
                        > s.max_points_per_cell) by {
                    lemma_prefix_contains(fresh@, t as int, y);
                }
            }
        }
        t = t + 1;
    }
    proof {
        assert(fresh@.subrange(0, fresh@.len() as int) =~= fresh@);
    }
    let goes_on = exceeds && l + 1 < s.max_level && l + 1 < s.optimal_depth;
    proof {
        assert(goes_on == level_goes_on(*s, l as int, fresh@, points@));
    }
    let mut next: Vec<u64> = Vec::new();
    let mut t: usize = 0;
    while t < fresh.len()
        invariant
            t <= fresh@.len(),
            fresh@.no_duplicates(),
            l < s.max_level,
            goes_on == level_goes_on(*s, l as int, fresh@, points@),
            next@.no_duplicates(),
            forall|x: u64|
                #[trigger] next@.contains(x) <==> (fresh@.subrange(0, t as int).contains(x) && becomes_split(
                    *s,
                    l as int,
                    fresh@,
                    points@,
                    x,
                )),
            forall|x: u64|
                #[trigger] leaves@.contains(x) <==> (old(leaves)@.contains(x) || (fresh@.subrange(
                    0,
                    t as int,
                ).contains(x) && becomes_leaf(*s, l as int, fresh@, points@, x))),
            forall|x: u64|
                #[trigger] sources@.contains_key(x) <==> (old(sources)@.contains_key(x) || (fresh@.subrange(
                    0,
                    t as int,
                ).contains(x) && becomes_leaf(*s, l as int, fresh@, points@, x) && points@.contains_key(x))),
            forall|x: u64|
                #[trigger] sources@.contains_key(x) ==> sources@[x]@ == if old(sources)@.contains_key(x)
                    && !(fresh@.subrange(0, t as int).contains(x) && becomes_leaf(
                    *s,
                    l as int,
                    fresh@,
                    points@,
                    x,
                ) && points@.contains_key(x)) {
                    old(sources)@[x]@
                } else {
                    points@[x]@
                },
        decreases fresh.len() - t,
    {
        let x = fresh[t];
        proof {
            assert(fresh@.contains(x));
        }
        let count: usize = match points.get(&x) {
            Some(v) => v.len(),
            None => 0,
        };
        proof {
            assert(count == points_count(points@, x));
        }
        let split_it = if s.adaptive_tree {
            count > s.max_points_per_cell && l + 1 < s.max_level
        } else {
            goes_on
        };
        let ghost before_next = next@;
        let ghost before_leaves = leaves@;
        let ghost before_sources = sources@;
        if split_it {
            next.push(x);
        } else if !s.adaptive_tree || s.store_empty_leaves || count > 0 {
            leaves.insert(x);
            match points.get(&x) {
                Some(v) => {
                    sources.insert(x, v.clone());
                },
                None => {},
            }
        }
        proof {
            assert(split_it == becomes_split(*s, l as int, fresh@, points@, x));
            assert(!split_it && (!s.adaptive_tree || s.store_empty_leaves || count > 0) <==> becomes_leaf(
                *s,
                l as int,
                fresh@,
                points@,
                x,
            ));
            assert(!fresh@.subrange(0, t as int).contains(x)) by {
                if fresh@.subrange(0, t as int).contains(x) {
                    let w = choose|w: int| 0 <= w < t && #[trigger] fresh@.subrange(0, t as int)[w] == x;
                    assert(fresh@[w] == fresh@[t as int]);
                }
            }
            assert(next@.no_duplicates()) by {
                if split_it {
                    assert forall|a: int, b: int| 0 <= a < b < next@.len() implies next@[a] != next@[b] by {
                        if b == next@.len() - 1 {
                            assert(before_next.contains(next@[a]));
                        }
                    }
                }
            }
            assert forall|y: u64| #[trigger] next@.contains(y) <==> (fresh@.subrange(0, t + 1).contains(y)
                && becomes_split(*s, l as int, fresh@, points@, y)) by {
                lemma_prefix_contains(fresh@, t as int, y);
                if split_it {
                    lemma_push_contains(before_next, x, y);
                }
            }
            assert forall|y: u64| #[trigger] leaves@.contains(y) <==> (old(leaves)@.contains(y) || (fresh@.subrange(
                0,
                t + 1,
            ).contains(y) && becomes_leaf(*s, l as int, fresh@, points@, y))) by {
                lemma_prefix_contains(fresh@, t as int, y);
            }
            assert forall|y: u64| #[trigger] sources@.contains_key(y) <==> (old(sources)@.contains_key(y)
                || (fresh@.subrange(0, t + 1).contains(y) && becomes_leaf(*s, l as int, fresh@, points@, y)
                && points@.contains_key(y))) by {
                lemma_prefix_contains(fresh@, t as int, y);
            }
            assert forall|y: u64| #[trigger] sources@.contains_key(y) implies sources@[y]@ == if old(
                sources,
            )@.contains_key(y) && !(fresh@.subrange(0, t + 1).contains(y) && becomes_leaf(
                *s,
                l as int,
                fresh@,
                points@,
                y,
            ) && points@.contains_key(y)) {
                old(sources)@[y]@
            } else {
                points@[y]@
            } by {
                lemma_prefix_contains(fresh@, t as int, y);
                if y == x && sources@.contains_key(x) && !before_sources.contains_key(x) {
                    assert(points@.contains_key(x));
                }
                if y == x && points@.contains_key(x) && becomes_leaf(*s, l as int, fresh@, points@, x) {
                    assert(sources@[x]@ =~= points@[x]@);
                }
            }
        }
        t = t + 1;
    }
    proof {
        assert(fresh@.subrange(0, fresh@.len() as int) =~= fresh@);
    }
    next
}

/// The structure of a linear tree: its cells, its leaves, the children of each cell, the
/// cells of each level, an index for each cell, and the points of each leaf that holds any.
pub struct TreeStructure {
    /// All cells of the tree (leaves and split cells).
    pub tree: HashSet<u64>,
    /// The leaves.
    pub leaves: HashSet<u64>,
    /// The children of each cell (none for a cell that is not split).
    pub children: HashMap<u64, Vec<u64>>,
    /// The cells of each level that has any.
    pub level_cells_map: HashMap<u64, Vec<u64>>,
    /// A distinct index below the number of cells for each cell.
    pub key_to_index_map: HashMap<u64, usize>,
    /// The points, ascending, of each leaf that holds any.
    pub leaf_source_indices: HashMap<u64, Vec<usize>>,
}

/// Whether `x` is a cell of the tree (at its own level).
pub open spec fn in_tree(fine: Seq<u64>, s: TreeSettings, x: u64) -> bool {
    tree_cells(fine, s, level_of(x) as int).contains(x)
}

/// Whether `x` is a leaf of the tree.
pub open spec fn is_leaf(fine: Seq<u64>, s: TreeSettings, x: u64) -> bool {
    is_leaf_cell(fine, s, level_of(x) as int, x)
}

/// Whether `x` is a split cell of the tree.
pub open spec fn is_split(fine: Seq<u64>, s: TreeSettings, x: u64) -> bool {
    split_cells(fine, s, level_of(x) as int).contains(x)
}

/// The children of the split cell `x`.
pub open spec fn children_of_cell(fine: Seq<u64>, s: TreeSettings, x: u64) -> Set<u64> {
    cell_children(fine, s, split_cells(fine, s, level_of(x) as int), level_of(x) as int, x)
}

/// The points, ascending, that the cell `x` holds.
pub open spec fn points_of_cell(fine: Seq<u64>, s: TreeSettings, x: u64) -> Seq<usize> {
    cell_points(fine, s, level_of(x) as int, x)
}

/// The structure `b` holds the tree's cells of the levels up to `l`: the cells, the
/// leaves and their points, the children of the split cells above level `l`, the cells of
/// each level, and distinct indices.
pub open spec fn recorded(b: TreeStructure, fine: Seq<u64>, s: TreeSettings, l: int) -> bool {
    &&& b.tree@.finite()
    &&& forall|x: u64| #[trigger] b.tree@.contains(x) <==> (level_of(x) <= l && in_tree(fine, s, x))
    &&& forall|x: u64| #[trigger] b.leaves@.contains(x) <==> (level_of(x) <= l && is_leaf(fine, s, x))
    &&& forall|x: u64|
        #[trigger] b.leaf_source_indices@.contains_key(x) <==> (b.leaves@.contains(x) && points_of_cell(
            fine,
            s,
            x,
        ).len() > 0)
    &&& forall|x: u64|
        #[trigger] b.leaf_source_indices@.contains_key(x) ==> b.leaf_source_indices@[x]@ == points_of_cell(
            fine,
            s,
            x,
        )
    &&& forall|x: u64| #[trigger] b.children@.contains_key(x) <==> b.tree@.contains(x)
    &&& forall|x: u64, y: u64|
        #![trigger b.children@[x]@.contains(y)]
        b.children@.contains_key(x) ==> (b.children@[x]@.contains(y) <==> (level_of(x) < l && is_split(
            fine,
            s,
            x,
        ) && children_of_cell(fine, s, x).contains(y)))
    &&& forall|x: u64|
        #[trigger] b.children@.contains_key(x) ==> if level_of(x) < l && is_split(fine, s, x) {
            s.store_empty_leaves ==> b.children@[x]@ == child_keys(x, s.dimensions)
        } else {
            b.children@[x]@.len() == 0
        }
    &&& !s.store_empty_leaves ==> forall|x: u64|
        #[trigger] b.children@.contains_key(x) ==> b.children@[x]@.no_duplicates()
    &&& forall|j: u64|
        #[trigger] b.level_cells_map@.contains_key(j) ==> j <= l && b.level_cells_map@[j]@.len() > 0
    &&& forall|j: u64, y: u64|
        #![trigger b.level_cells_map@[j]@.contains(y)]
        b.level_cells_map@.contains_key(j) ==> (b.level_cells_map@[j]@.contains(y) <==> tree_cells(
            fine,
            s,
            j as int,
        ).contains(y))
    &&& forall|y: u64| #[trigger] b.tree@.contains(y) ==> b.level_cells_map@.contains_key(level_of(y))
    &&& forall|x: u64| #[trigger] b.key_to_index_map@.contains_key(x) <==> b.tree@.contains(x)
    &&& forall|x: u64|
        #[trigger] b.key_to_index_map@.contains_key(x) ==> b.key_to_index_map@[x] < b.tree@.len()
    &&& forall|x: u64, y: u64|
        #![trigger b.key_to_index_map@[x], b.key_to_index_map@[y]]
        b.key_to_index_map@.contains_key(x) && b.key_to_index_map@.contains_key(y) && x != y
            ==> b.key_to_index_map@[x] != b.key_to_index_map@[y]
}

/// Records the points of the new cells that hold any.
fn merge_points(occupied: &mut HashMap<u64, Vec<usize>>, fresh: &Vec<u64>, points: &HashMap<u64, Vec<usize>>)
    ensures
        forall|x: u64|
            #[trigger] final(occupied)@.contains_key(x) <==> (old(occupied)@.contains_key(x) || (
            fresh@.contains(x) && points@.contains_key(x))),
        forall|x: u64|
            #[trigger] final(occupied)@.contains_key(x) ==> final(occupied)@[x]@ == if fresh@.contains(x)
                && points@.contains_key(x) {
                points@[x]@
            } else {
                old(occupied)@[x]@
            },
{
    let mut t: usize = 0;
    while t < fresh.len()
        invariant
            t <= fresh@.len(),
            forall|x: u64|
                #[trigger] occupied@.contains_key(x) <==> (old(occupied)@.contains_key(x) || (
                fresh@.subrange(0, t as int).contains(x) && points@.contains_key(x))),
            forall|x: u64|
                #[trigger] occupied@.contains_key(x) ==> occupied@[x]@ == if fresh@.subrange(0, t as int).contains(x)
                    && points@.contains_key(x) {
                    points@[x]@
                } else {
                    old(occupied)@[x]@
                },
        decreases fresh.len() - t,
    {
        let x = fresh[t];
        let ghost before = occupied@;
        match points.get(&x) {
            Some(v) => {
                occupied.insert(x, v.clone());
                proof {
                    assert(occupied@[x]@ =~= points@[x]@);
                }
            },
            None => {},
        }
        proof {
            assert forall|y: u64| #[trigger] occupied@.contains_key(y) <==> (old(occupied)@.contains_key(y) || (
            fresh@.subrange(0, t + 1).contains(y) && points@.contains_key(y))) by {
                lemma_prefix_contains(fresh@, t as int, y);
            }
            assert forall|y: u64| #[trigger] occupied@.contains_key(y) implies occupied@[y]@ == if fresh@.subrange(
                0,
                t + 1,
            ).contains(y) && points@.contains_key(y) {
                points@[y]@
            } else {
                old(occupied)@[y]@
            } by {
                lemma_prefix_contains(fresh@, t as int, y);
            }
        }
        t = t + 1;
    }
    proof {
        assert(fresh@.subrange(0, fresh@.len() as int) =~= fresh@);
    }
}

/// The cells that hold points among the levels up to `l`: the root, which holds every
/// point, and each cell of the tree below it that holds any.
pub open spec fn occupied_recorded(occ: Map<u64, Vec<usize>>, fine: Seq<u64>, s: TreeSettings, l: int) -> bool {
    &&& forall|x: u64|
        #[trigger] occ.contains_key(x) <==> (x == 0 || (1 <= level_of(x) <= l && in_tree(fine, s, x)
            && points_of_cell(fine, s, x).len() > 0))
    &&& occ[0]@ == Seq::new(fine.len(), |i: int| i as usize)
    &&& forall|x: u64| #[trigger] occ.contains_key(x) && x != 0 ==> occ[x]@ == points_of_cell(fine, s, x)
}

/// Whether some cell of level `l` is split.
pub open spec fn level_is_split(fine: Seq<u64>, s: TreeSettings, l: int) -> bool {
    exists|x: u64| #[trigger] split_cells(fine, s, l).contains(x)
}

/// Builds the structure of a linear tree over points given by their keys at the deepest
/// level. Starting from the root, which holds every point, the split cells of each level
/// are divided: in an adaptive tree each child holding more than the allowed number of
/// points is split in turn (up to the deepest level); in a regular tree the whole next
/// level is split while one of its cells holds too many points and both depth limits
/// allow. Returns the structure and the depth: one more than the deepest level with a
/// split cell.
pub fn build_tree_structure(fine: &[u64], s: &TreeSettings) -> (r: (
    TreeStructure,
    u64,
    HashMap<u64, Vec<usize>>,
))
    requires
        valid_fine_keys(fine@, *s),
    ensures
        recorded(r.0, fine@, *s, r.1 as int),
        occupied_recorded(r.2@, fine@, *s, r.1 as int),
        1 <= r.1 <= s.max_level,
        forall|j: int| 0 <= j < r.1 ==> level_is_split(fine@, *s, j),
        split_cells(fine@, *s, r.1 as int) == Set::<u64>::empty(),
        r.0.key_to_index_map@.contains_key(0) && r.0.key_to_index_map@[0] == 0,
{
    let nfine = fine.len();
    let mut tree: HashSet<u64> = HashSet::new();
    tree.insert(0);
    let mut children: HashMap<u64, Vec<u64>> = HashMap::new();
    children.insert(0, Vec::new());
    let mut level_cells_map: HashMap<u64, Vec<u64>> = HashMap::new();
    level_cells_map.insert(0, vec![0u64]);
    let mut key_to_index_map: HashMap<u64, usize> = HashMap::new();
    key_to_index_map.insert(0, 0);
    let mut b = TreeStructure {
        tree,
        leaves: HashSet::new(),
        children,
        level_cells_map,
        key_to_index_map,
        leaf_source_indices: HashMap::new(),
    };
    let mut current: Vec<u64> = vec![0u64];
    let mut current_set: HashSet<u64> = HashSet::new();
    current_set.insert(0);
    let mut all_points: Vec<usize> = Vec::new();
    let mut i: usize = 0;
    while i < nfine
        invariant
            i <= nfine,
            all_points@ == Seq::new(i as nat, |k: int| k as usize),
        decreases nfine - i,
    {
        all_points.push(i);
        proof {
            assert(all_points@ =~= Seq::new((i + 1) as nat, |k: int| k as usize));
        }
        i = i + 1;
    }
    let mut occupied: HashMap<u64, Vec<usize>> = HashMap::new();
    occupied.insert(0, all_points);
    let mut l: u64 = 0;
    proof {
        lemma_root_level();
        assert(level_of(0) == 0);
        assert(split_cells(fine@, *s, 0).contains(0));
        assert(recorded(b, fine@, *s, 0)) by {
            assert forall|x: u64| #[trigger] b.tree@.contains(x) <==> (level_of(x) <= 0 && in_tree(fine@, *s, x)) by {
                if level_of(x) <= 0 && in_tree(fine@, *s, x) {
                    assert(tree_cells(fine@, *s, 0).contains(x));
                }
            }
            assert forall|x: u64| #[trigger] b.leaves@.contains(x) <==> (level_of(x) <= 0 && is_leaf(fine@, *s, x)) by {
            }
            assert forall|j: u64, y: u64| b.level_cells_map@.contains_key(j) implies (#[trigger] b.level_cells_map@[j]@.contains(y)
                <==> tree_cells(fine@, *s, j as int).contains(y)) by {
                assert(j == 0);
                assert(b.level_cells_map@[j]@ == seq![0u64]);
                if y == 0 {
                    assert(b.level_cells_map@[j]@[0] == y);
                }
            }
        }
        assert(occupied_recorded(occupied@, fine@, *s, 0)) by {
            assert(occupied@[0]@ =~= Seq::new(fine@.len(), |i: int| i as usize));
        }
    }
    loop
        invariant_except_break
            recorded(b, fine@, *s, l as int),
            occupied_recorded(occupied@, fine@, *s, l as int),
            current@.no_duplicates(),
            current@.len() > 0,
            forall|c: u64| current@.contains(c) <==> #[trigger] split_cells(fine@, *s, l as int).contains(c),
            forall|c: u64| #[trigger] current_set@.contains(c) <==> split_cells(fine@, *s, l as int).contains(c),
            forall|j: int| 0 <= j <= l ==> level_is_split(fine@, *s, j),
        invariant
            valid_fine_keys(fine@, *s),
            nfine == fine@.len(),
            l < s.max_level,
            b.key_to_index_map@.contains_key(0) && b.key_to_index_map@[0] == 0,
        ensures
            recorded(b, fine@, *s, l + 1),
            occupied_recorded(occupied@, fine@, *s, l + 1),
            forall|j: int| 0 <= j <= l ==> level_is_split(fine@, *s, j),
            split_cells(fine@, *s, l + 1) == Set::<u64>::empty(),
        decreases s.max_level - l,
    {
        let ghost b0 = b;
        let ghost procs = split_cells(fine@, *s, l as int);
        proof {
            assert(current_set@ =~= procs);
            assert forall|c: u64| #[trigger] current_set@.contains(c) implies level_of(c) == l by {
                lemma_split_in_tree(fine@, *s, l as int, c);
                lemma_tree_cells_level(fine@, *s, l as int, c);
            }
        }
        let r = refine_level(fine, s, l, &current, &current_set);
        set_children(&mut b.children, &current, &r.children);
        let ghost children1 = b.children@;
        proof {
            assert forall|x: u64| #[trigger] b.children@.contains_key(x) <==> b.tree@.contains(x) by {
                if current@.contains(x) {
                    lemma_split_in_tree(fine@, *s, l as int, x);
                    lemma_tree_cells_level(fine@, *s, l as int, x);
                }
            }
            assert(!b.level_cells_map@.contains_key((l + 1) as u64));
        }
        let fresh = add_cells(
            &mut b.tree,
            &mut b.key_to_index_map,
            &mut b.children,
            &mut b.level_cells_map,
            &r.created,
            l + 1,
        );
        let next = classify_level(s, l, &fresh, &r.points, &mut b.leaves, &mut b.leaf_source_indices);
        proof {
            lemma_level_recorded(fine@, *s, l as int, b0, b, current@, r.children@, r.created@, fresh@, r.points@, next@, children1);
        }
        let ghost occ0 = occupied@;
        merge_points(&mut occupied, &fresh, &r.points);
        proof {
            assert forall|x: u64| #[trigger] r.created@.contains(x) implies level_of(x) == l + 1 && fresh@.contains(x)
                && in_tree(fine@, *s, x) by {
                lemma_created_level(fine@, *s, procs, l as int, x);
            }
            assert forall|x: u64| #[trigger] occupied@.contains_key(x) <==> (x == 0 || (1 <= level_of(x) <= l + 1
                && in_tree(fine@, *s, x) && points_of_cell(fine@, *s, x).len() > 0)) by {
                if fresh@.contains(x) {
                    assert(r.created@.contains(x));
                    if !r.points@.contains_key(x) {
                        assert(cell_points(fine@, *s, l + 1, x).len() == 0);
                    }
                }
                if level_of(x) == l + 1 && in_tree(fine@, *s, x) && points_of_cell(fine@, *s, x).len() > 0 {
                    assert(r.created@.contains(x));
                    assert(r.points@.contains_key(x));
                }
            }
            assert forall|x: u64| #[trigger] occupied@.contains_key(x) && x != 0 implies occupied@[x]@
                == points_of_cell(fine@, *s, x) by {
                if fresh@.contains(x) && r.points@.contains_key(x) {
                    assert(r.created@.contains(x));
                }
            }
            assert(level_of(0) == 0) by {
                lemma_root_level();
            }
            assert(!fresh@.contains(0)) by {
                if fresh@.contains(0) {
                    assert(r.created@.contains(0));
                }
            }
            assert(occ0.contains_key(0));
            assert(occupied@.contains_key(0));
            assert(occupied@[0]@ == occ0[0]@);
        }
        if next.len() == 0 {
            proof {
                assert(split_cells(fine@, *s, l + 1) =~= Set::<u64>::empty()) by {
                    assert forall|x: u64| !#[trigger] split_cells(fine@, *s, l + 1).contains(x) by {
                        if split_cells(fine@, *s, l + 1).contains(x) {
                            assert(next@.contains(x));
                        }
                    }
                }
            }
            break;
        }
        proof {
            assert(next@.contains(next@[0]));
            assert(split_cells(fine@, *s, l + 1).contains(next@[0]));
            if l + 1 >= s.max_level {
                lemma_no_split_beyond(fine@, *s, l + 1);
            }
        }
        let mut next_set: HashSet<u64> = HashSet::new();
        let mut t: usize = 0;
        while t < next.len()
            invariant
                t <= next@.len(),
                forall|c: u64| #[trigger] next_set@.contains(c) <==> next@.subrange(0, t as int).contains(c),
            decreases next.len() - t,
        {
            next_set.insert(next[t]);
            proof {
                assert forall|c: u64| #[trigger] next_set@.contains(c) <==> next@.subrange(0, t + 1).contains(c) by {
                    lemma_prefix_contains(next@, t as int, c);
                }
            }
            t = t + 1;
        }
        proof {
            assert(next@.subrange(0, next@.len() as int) =~= next@);
        }
        current = next;
        current_set = next_set;
        l = l + 1;
    }
    (b, l + 1, occupied)
}

/// One level of the build keeps the structure recorded: after splitting the cells
/// `current` of level `l`, adding the new cells and classifying them, the structure holds
/// the levels up to `l + 1`, and `next` lists the split cells of level `l + 1`.
proof fn lemma_level_recorded(
    fine: Seq<u64>,
    s: TreeSettings,
    l: int,
    b0: TreeStructure,
    b: TreeStructure,
    current: Seq<u64>,
    lists: Seq<Vec<u64>>,
    created: Seq<u64>,
    fresh: Seq<u64>,
    points: Map<u64, Vec<usize>>,
    next: Seq<u64>,
    children1: Map<u64, Vec<u64>>,
)
    requires
        valid_fine_keys(fine, s),
        fine.len() <= usize::MAX,
        0 <= l < s.max_level,
        recorded(b0, fine, s, l),
        current.no_duplicates(),
        forall|c: u64| current.contains(c) <==> #[trigger] split_cells(fine, s, l).contains(c),
        forall|x: u64|
            created.contains(x) <==> #[trigger] created_from(fine, s, split_cells(fine, s, l), l).contains(x),
        lists.len() == current.len(),
        forall|k: int, x: u64|
            0 <= k < current.len() ==> (lists[k]@.contains(x) <==> #[trigger] cell_children(
                fine,
                s,
                split_cells(fine, s, l),
                l,
                current[k],
            ).contains(x)),
        s.store_empty_leaves ==> forall|k: int|
            0 <= k < current.len() ==> #[trigger] lists[k]@ == child_keys(current[k], s.dimensions),
        !s.store_empty_leaves ==> forall|k: int| 0 <= k < current.len() ==> #[trigger] lists[k]@.no_duplicates(),
        forall|x: u64|
            #[trigger] points.contains_key(x) <==> reached_points(
                fine,
                s,
                split_cells(fine, s, l),
                l,
                x,
                fine.len(),
            ).len() > 0,
        forall|x: u64|
            #[trigger] points.contains_key(x) ==> points[x]@ == reached_points(
                fine,
                s,
                split_cells(fine, s, l),
                l,
                x,
                fine.len(),
            ),
        forall|x: u64|
            #[trigger] children1.contains_key(x) <==> (b0.children@.contains_key(x) || current.contains(x)),
        forall|k: int| 0 <= k < current.len() ==> children1[#[trigger] current[k]]@ == lists[k]@,
        forall|x: u64|
            #[trigger] b0.children@.contains_key(x) && !current.contains(x) ==> children1[x] == b0.children@[x],
        b.tree@.finite(),
        forall|x: u64| #[trigger] b.tree@.contains(x) <==> (b0.tree@.contains(x) || created.contains(x)),
        fresh.no_duplicates(),
        forall|x: u64| #[trigger] fresh.contains(x) <==> (created.contains(x) && !b0.tree@.contains(x)),
        forall|x: u64| #[trigger] b.children@.contains_key(x) <==> b.tree@.contains(x),
        forall|x: u64| #[trigger] children1.contains_key(x) ==> b.children@[x] == children1[x],
        forall|x: u64| #[trigger] fresh.contains(x) ==> b.children@[x]@.len() == 0,
        forall|x: u64| #[trigger] b.key_to_index_map@.contains_key(x) <==> b.tree@.contains(x),
        forall|x: u64|
            #[trigger] b.key_to_index_map@.contains_key(x) ==> b.key_to_index_map@[x] < b.tree@.len(),
        forall|x: u64, y: u64|
            #![trigger b.key_to_index_map@[x], b.key_to_index_map@[y]]
            b.key_to_index_map@.contains_key(x) && b.key_to_index_map@.contains_key(y) && x != y
                ==> b.key_to_index_map@[x] != b.key_to_index_map@[y],
        forall|j: u64|
            #[trigger] b.level_cells_map@.contains_key(j) <==> (b0.level_cells_map@.contains_key(j) || (j
                == l + 1 && created.len() > 0)),
        forall|j: u64|
            #[trigger] b0.level_cells_map@.contains_key(j) ==> b.level_cells_map@[j] == b0.level_cells_map@[j],
        created.len() > 0 ==> b.level_cells_map@[(l + 1) as u64]@ == created,
        next.no_duplicates(),
        forall|x: u64| #[trigger] next.contains(x) <==> becomes_split(s, l, fresh, points, x),
        forall|x: u64|
            #[trigger] b.leaves@.contains(x) <==> (b0.leaves@.contains(x) || becomes_leaf(s, l, fresh, points, x)),
        forall|x: u64|
            #[trigger] b.leaf_source_indices@.contains_key(x) <==> (b0.leaf_source_indices@.contains_key(x) || (
            becomes_leaf(s, l, fresh, points, x) && points.contains_key(x))),
        forall|x: u64|
            #[trigger] b.leaf_source_indices@.contains_key(x) ==> b.leaf_source_indices@[x]@ == if b0.leaf_source_indices@.contains_key(
                x,
            ) && !(becomes_leaf(s, l, fresh, points, x) && points.contains_key(x)) {
                b0.leaf_source_indices@[x]@
            } else {
                points[x]@
            },
    ensures
        recorded(b, fine, s, l + 1),
        forall|x: u64| #[trigger] next.contains(x) <==> split_cells(fine, s, l + 1).contains(x),
{
    let procs = split_cells(fine, s, l);
    assert forall|c: u64| #[trigger] procs.contains(c) implies level_of(c) == l by {
        lemma_split_in_tree(fine, s, l, c);
        lemma_tree_cells_level(fine, s, l, c);
    }
    // The new cells lie at level l + 1, so none was in the tree before.
    assert forall|x: u64| #[trigger] created.contains(x) implies level_of(x) == l + 1 && !b0.tree@.contains(x)
        && fresh.contains(x) && tree_cells(fine, s, l + 1).contains(x) by {
        lemma_created_level(fine, s, procs, l, x);
    }
    assert forall|x: u64| #[trigger] fresh.contains(x) <==> tree_cells(fine, s, l + 1).contains(x) by {
        if tree_cells(fine, s, l + 1).contains(x) {
            assert(created.contains(x));
        }
    }
    // Counts of points agree with the cells' points.
    assert forall|x: u64| points_count(points, x) == #[trigger] cell_points(fine, s, l + 1, x).len() by {
        if !points.contains_key(x) {
            assert(reached_points(fine, s, procs, l, x, fine.len()).len() == 0);
        }
    }
    // The regular tree's decision is the level split.
    assert(level_goes_on(s, l, fresh, points) == splits_level(fine, s, procs, l)) by {
        if level_goes_on(s, l, fresh, points) {
            let x = choose|x: u64| #[trigger] fresh.contains(x) && points_count(points, x) > s.max_points_per_cell;
            assert(cell_points(fine, s, l + 1, x).len() == points_count(points, x));
            assert(created_from(fine, s, procs, l).contains(x));
        }
        if splits_level(fine, s, procs, l) {
            let x = choose|x: u64|
                #[trigger] created_from(fine, s, procs, l).contains(x) && reached_points(
                    fine,
                    s,
                    procs,
                    l,
                    x,
                    fine.len(),
                ).len() > s.max_points_per_cell;
            assert(cell_points(fine, s, l + 1, x).len() == points_count(points, x));
            assert(created.contains(x));
            assert(fresh.contains(x));
        }
    }
    assert forall|x: u64| #[trigger] split_cells(fine, s, l + 1).contains(x) <==> becomes_split(
        s,
        l,
        fresh,
        points,
        x,
    ) by {
        assert(cell_points(fine, s, l + 1, x).len() == points_count(points, x));
        assert(fresh.contains(x) <==> created_from(fine, s, procs, l).contains(x));
    }
    assert forall|x: u64| level_of(x) == l + 1 implies (is_leaf(fine, s, x) <==> #[trigger] becomes_leaf(
        s,
        l,
        fresh,
        points,
        x,
    )) by {
        assert(cell_points(fine, s, l + 1, x).len() == points_count(points, x));
        assert(fresh.contains(x) <==> created_from(fine, s, procs, l).contains(x));
        assert(split_cells(fine, s, l + 1).contains(x) <==> becomes_split(s, l, fresh, points, x));
        if !s.adaptive_tree && !s.store_empty_leaves && fresh.contains(x) {
            assert(created_from(fine, s, procs, l).contains(x));
            assert(cell_points(fine, s, l + 1, x).len() > 0);
        }
    }
    assert forall|x: u64| #[trigger] becomes_leaf(s, l, fresh, points, x) implies level_of(x) == l + 1 by {
        assert(created.contains(x));
    }
    assert forall|x: u64| #[trigger] b.tree@.contains(x) <==> (level_of(x) <= l + 1 && in_tree(fine, s, x)) by {
        if level_of(x) == l + 1 && in_tree(fine, s, x) {
            assert(tree_cells(fine, s, l + 1).contains(x));
            assert(fresh.contains(x));
        }
        if created.contains(x) {
            assert(tree_cells(fine, s, l + 1).contains(x));
        }
    }
    assert forall|x: u64| #[trigger] b.leaves@.contains(x) <==> (level_of(x) <= l + 1 && is_leaf(fine, s, x)) by {
        if becomes_leaf(s, l, fresh, points, x) {
            assert(level_of(x) == l + 1);
        }
        if level_of(x) == l + 1 && is_leaf(fine, s, x) {
            assert(becomes_leaf(s, l, fresh, points, x));
        }
    }
    assert forall|x: u64| #[trigger] b.leaf_source_indices@.contains_key(x) <==> (b.leaves@.contains(x)
        && points_of_cell(fine, s, x).len() > 0) by {
        if becomes_leaf(s, l, fresh, points, x) {
            assert(level_of(x) == l + 1);
            assert(points_count(points, x) == cell_points(fine, s, l + 1, x).len());
        }
    }
    assert forall|x: u64| #[trigger] b.leaf_source_indices@.contains_key(x) implies b.leaf_source_indices@[x]@
        == points_of_cell(fine, s, x) by {
        if becomes_leaf(s, l, fresh, points, x) && points.contains_key(x) {
            assert(level_of(x) == l + 1);
            if b0.leaf_source_indices@.contains_key(x) {
                assert(b0.leaves@.contains(x));
            }
        }
    }
    assert forall|x: u64, y: u64| b.children@.contains_key(x) implies (#[trigger] b.children@[x]@.contains(y)
        <==> (level_of(x) < l + 1 && is_split(fine, s, x) && children_of_cell(fine, s, x).contains(y))) by {
        if current.contains(x) {
            let k = choose|k: int| 0 <= k < current.len() && #[trigger] current[k] == x;
            assert(children1.contains_key(x));
            assert(b.children@[x]@ == lists[k]@);
            assert(procs.contains(x));
            assert(level_of(x) == l);
        } else if b0.children@.contains_key(x) {
            assert(children1.contains_key(x));
            assert(b.children@[x] == b0.children@[x]);
            assert(b0.tree@.contains(x));
            if level_of(x) == l {
                assert(!split_cells(fine, s, l).contains(x));
            }
        } else {
            assert(fresh.contains(x));
            assert(level_of(x) == l + 1);
            assert(b.children@[x]@.len() == 0);
        }
    }
    assert forall|x: u64| #[trigger] b.children@.contains_key(x) implies if level_of(x) < l + 1 && is_split(
        fine,
        s,
        x,
    ) {
        s.store_empty_leaves ==> b.children@[x]@ == child_keys(x, s.dimensions)
    } else {
        b.children@[x]@.len() == 0
    } by {
        if current.contains(x) {
            let k = choose|k: int| 0 <= k < current.len() && #[trigger] current[k] == x;
            assert(children1.contains_key(x));
            assert(b.children@[x]@ == lists[k]@);
            assert(procs.contains(x));
            assert(level_of(x) == l);
        } else if b0.children@.contains_key(x) {
            assert(children1.contains_key(x));
            assert(b.children@[x] == b0.children@[x]);
            assert(b0.tree@.contains(x));
        } else {
            assert(fresh.contains(x));
            assert(level_of(x) == l + 1);
        }
    }
    if !s.store_empty_leaves {
        assert forall|x: u64| #[trigger] b.children@.contains_key(x) implies b.children@[x]@.no_duplicates() by {
            if current.contains(x) {
                let k = choose|k: int| 0 <= k < current.len() && #[trigger] current[k] == x;
                assert(children1.contains_key(x));
                assert(b.children@[x]@ == lists[k]@);
            } else if b0.children@.contains_key(x) {
                assert(children1.contains_key(x));
                assert(b.children@[x] == b0.children@[x]);
            } else {
                assert(fresh.contains(x));
            }
        }
    }
    assert forall|j: u64| #[trigger] b.level_cells_map@.contains_key(j) implies j <= l + 1
        && b.level_cells_map@[j]@.len() > 0 by {
        if b0.level_cells_map@.contains_key(j) {
        }
    }
    assert forall|j: u64, y: u64| b.level_cells_map@.contains_key(j) implies (
    #[trigger] b.level_cells_map@[j]@.contains(y) <==> tree_cells(fine, s, j as int).contains(y)) by {
        if b0.level_cells_map@.contains_key(j) {
            assert(b.level_cells_map@[j] == b0.level_cells_map@[j]);
        } else {
            assert(j == l + 1);
            assert(b.level_cells_map@[j]@ == created);
            if tree_cells(fine, s, j as int).contains(y) {
                assert(fresh.contains(y));
            }
        }
    }
    assert forall|y: u64| #[trigger] b.tree@.contains(y) implies b.level_cells_map@.contains_key(level_of(y)) by {
        if b0.tree@.contains(y) {
            assert(b0.level_cells_map@.contains_key(level_of(y)));
        } else {
            assert(created.contains(y));
            assert(created.len() > 0);
            assert(level_of(y) == l + 1);
        }
    }
    assert forall|x: u64| #[trigger] next.contains(x) <==> split_cells(fine, s, l + 1).contains(x) by {
    }
}

/// The U-, V-, X- and W-lists of an adaptive tree, each cell with a nonempty list mapped
/// to it.
pub open spec fn adaptive_lists_hold<F: Fn(u64, u64) -> bool>(
    u: Map<u64, HashSet<u64>>,
    v: Map<u64, HashSet<u64>>,
    x: Map<u64, HashSet<u64>>,
    w: Map<u64, HashSet<u64>>,
    adjacent: F,
    tree: Set<u64>,
    leaves: Set<u64>,
    dimensions: Dimensions,
) -> bool {
    &&& forall|k: u64|
        #[trigger] u.contains_key(k) <==> tree.contains(k) && !u_list(adjacent, tree, leaves, dimensions, k).is_empty()
    &&& forall|k: u64| #[trigger] u.contains_key(k) ==> u[k]@ == u_list(adjacent, tree, leaves, dimensions, k)
    &&& forall|k: u64|
        #[trigger] v.contains_key(k) <==> tree.contains(k) && !v_list(adjacent, tree, dimensions, k).is_empty()
    &&& forall|k: u64| #[trigger] v.contains_key(k) ==> v[k]@ == v_list(adjacent, tree, dimensions, k)
    &&& forall|c: u64|
        #[trigger] x.contains_key(c) <==> !x_list(adjacent, tree, leaves, dimensions, c).is_empty()
    &&& forall|c: u64| #[trigger] x.contains_key(c) ==> x[c]@ == x_list(adjacent, tree, leaves, dimensions, c)
    &&& forall|k: u64|
        #[trigger] w.contains_key(k) <==> tree.contains(k) && !w_list(adjacent, tree, leaves, dimensions, k).is_empty()
    &&& forall|k: u64| #[trigger] w.contains_key(k) ==> w[k]@ == w_list(adjacent, tree, leaves, dimensions, k)
}

/// The U-lists of the leaves and the V-lists of all cells of a regular tree.
pub open spec fn regular_lists_hold<F: Fn(u64, u64) -> bool>(
    u: Map<u64, HashSet<u64>>,
    v: Map<u64, HashSet<u64>>,
    adjacent: F,
    tree: Set<u64>,
    leaves: Set<u64>,
    children: Map<u64, Vec<u64>>,
    occupied: Set<u64>,
    dimensions: Dimensions,
) -> bool {
    &&& forall|k: u64| #[trigger] u.contains_key(k) <==> tree.contains(k) && leaves.contains(k)
    &&& forall|k: u64|
        #[trigger] u.contains_key(k) ==> u[k]@ == regular_u_list(
            adjacent,
            tree,
            leaves,
            children,
            occupied,
            dimensions,
            k,
        )
    &&& forall|k: u64| #[trigger] v.contains_key(k) <==> tree.contains(k)
    &&& forall|k: u64|
        #[trigger] v.contains_key(k) ==> v[k]@ == regular_v_list(adjacent, tree, children, occupied, dimensions, k)
}

/// A linear tree: its structure and the interaction lists of its cells.
pub struct TreeLists {
    /// All cells of the tree (leaves and split cells).
    pub tree: HashSet<u64>,
    /// The leaves.
    pub leaves: HashSet<u64>,
    /// The children of each cell.
    pub children: HashMap<u64, Vec<u64>>,
    /// Cells adjacent to each leaf (particle to particle).
    pub u_lists: HashMap<u64, HashSet<u64>>,
    /// Children of the parent's colleagues not adjacent to the cell (multipole to local).
    pub v_lists: HashMap<u64, HashSet<u64>>,
    /// Cells that have the cell on their W-list (adaptive tree only).
    pub x_lists: Option<HashMap<u64, HashSet<u64>>>,
    /// Descendants of a leaf's colleagues not adjacent to it whose parents are (adaptive
    /// tree only).
    pub w_lists: Option<HashMap<u64, HashSet<u64>>>,
    /// The cells of each level.
    pub level_cells_map: HashMap<u64, Vec<u64>>,
    /// A distinct index for each cell.
    pub key_to_index_map: HashMap<u64, usize>,
    /// The source points of each leaf.
    pub leaf_source_indices: HashMap<u64, Vec<usize>>,
    /// The target points of each leaf (filled once targets are known).
    pub leaf_target_indices: HashMap<u64, Vec<usize>>,
}

/// Builds a linear tree over points given by their keys at the deepest level (see
/// `build_tree_structure`), sets `depth` to one more than the deepest level with a split
/// cell, and computes the interaction lists: U-, V-, X- and W-lists for an adaptive tree,
/// U- and V-lists for a regular one. Adjacency of two cells is decided by `adjacent`.
pub fn build_tree<F: Fn(u64, u64) -> bool>(
    point_keys: &[u64],
    settings: &TreeSettings,
    depth: &mut u64,
    adjacent: &F,
) -> (lists: TreeLists)
    requires
        valid_fine_keys(point_keys@, *settings),
        adjacency_test(*adjacent),
    ensures
        1 <= *final(depth) <= settings.max_level,
        forall|j: int| 0 <= j < *final(depth) ==> level_is_split(point_keys@, *settings, j),
        split_cells(point_keys@, *settings, *final(depth) as int) == Set::<u64>::empty(),
        recorded(
            TreeStructure {
                tree: lists.tree,
                leaves: lists.leaves,
                children: lists.children,
                level_cells_map: lists.level_cells_map,
                key_to_index_map: lists.key_to_index_map,
                leaf_source_indices: lists.leaf_source_indices,
            },
            point_keys@,
            *settings,
            *final(depth) as int,
        ),
        tree_law(
            TreeStructure {
                tree: lists.tree,
                leaves: lists.leaves,
                children: lists.children,
                level_cells_map: lists.level_cells_map,
                key_to_index_map: lists.key_to_index_map,
                leaf_source_indices: lists.leaf_source_indices,
            },
            point_keys@,
            *settings,
            *final(depth) as int,
        ),
        lists.key_to_index_map@.contains_key(0) && lists.key_to_index_map@[0] == 0,
        lists.leaf_target_indices@ == Map::<u64, Vec<usize>>::empty(),
        settings.adaptive_tree ==> lists.x_lists is Some && lists.w_lists is Some && adaptive_lists_hold(
            lists.u_lists@,
            lists.v_lists@,
            lists.x_lists.unwrap()@,
            lists.w_lists.unwrap()@,
            *adjacent,
            lists.tree@,
            lists.leaves@,
            settings.dimensions,
        ),
        !settings.adaptive_tree ==> lists.x_lists is None && lists.w_lists is None && exists|occupied: Map<
            u64,
            Vec<usize>,
        >|
            occupied_recorded(occupied, point_keys@, *settings, *final(depth) as int) && regular_lists_hold(
                lists.u_lists@,
                lists.v_lists@,
                *adjacent,
                lists.tree@,
                lists.leaves@,
                lists.children@,
                occupied.dom(),
                settings.dimensions,
            ),
{
    let n_points = point_keys.len();
    let (b, levels, occupied) = build_tree_structure(point_keys, settings);
    *depth = levels;
    proof {
        assert(point_keys@.len() == n_points);
        lemma_tree_structure_law(point_keys@, *settings, b, levels as int);
    }
    proof {
        assert forall|c: u64| #[trigger] b.tree@.contains(c) implies level_of(c) < 64 by {}
    }
    if settings.adaptive_tree {
        let (u_lists, v_lists, x_lists, w_lists) = get_interaction_lists_adaptive(
            &b.tree,
            &b.leaves,
            &settings.dimensions,
            adjacent,
        );
        TreeLists {
            tree: b.tree,
            leaves: b.leaves,
            children: b.children,
            u_lists,
            v_lists,
            x_lists: Some(x_lists),
            w_lists: Some(w_lists),
            level_cells_map: b.level_cells_map,
            key_to_index_map: b.key_to_index_map,
            leaf_source_indices: b.leaf_source_indices,
            leaf_target_indices: HashMap::new(),
        }
    } else {
        let (u_lists, v_lists) = get_interaction_lists_regular(
            &b.tree,
            &b.leaves,
            &occupied,
            &b.children,
            &settings.dimensions,
            adjacent,
        );
        let ghost occ = occupied@;
        TreeLists {
            tree: b.tree,
            leaves: b.leaves,
            children: b.children,
            u_lists,
            v_lists,
            x_lists: None,
            w_lists: None,
            level_cells_map: b.level_cells_map,
            key_to_index_map: b.key_to_index_map,
            leaf_source_indices: b.leaf_source_indices,
            leaf_target_indices: HashMap::new(),
        }
    }
}

/// Every key below the root is one of the children of its parent.
pub proof fn lemma_key_is_child_of_parent(x: u64, dimensions: Dimensions)
    requires
        0 < level_of(x) < 0x7fff,
    ensures
        child_keys(parent_of(x, dimensions), dimensions).contains(x),
{
    let d = dimensions.spec_count();
    let m = (num_children(dimensions) - 1) as u64;
    let s = child_index_of(x, dimensions);
    assert({
        let l = x & 0x7fff;
        let p = (((x >> 15u64) >> d) << 15u64) | ((l - 1) as u64);
        let pl = p & 0x7fff;
        let fc = (((p >> 15u64) << d) << 15u64) | ((pl + 1) as u64);
        let fl = fc & 0x7fff;
        let sib = (((((fc >> 15u64) >> d) << d) | ((x >> 15u64) & m)) << 15u64) | fl;
        &&& sib == x
        &&& (x >> 15u64) & m <= m
    }) by (bit_vector)
        requires
            (d == 1 && m == 1) || (d == 2 && m == 3) || (d == 3 && m == 7),
            x & 0x7fff > 0,
            x & 0x7fff < 0x7fff,
    ;
    let ch = child_keys(parent_of(x, dimensions), dimensions);
    assert(s < num_children(dimensions));
    assert(ch[s as int] == x);
}

/// Point `i` is among the reached points of `x` exactly when its cell at level `l + 1` is
/// `x` and its cell at level `l` is split.
proof fn lemma_reached_points_contains(
    fine: Seq<u64>,
    s: TreeSettings,
    procs: Set<u64>,
    l: int,
    x: u64,
    n: nat,
    i: int,
)
    requires
        n <= fine.len(),
        n <= usize::MAX,
        0 <= i < n,
    ensures
        reached_points(fine, s, procs, l, x, n).contains(i as usize) <==> (point_key_at(fine, s, i, l + 1)
            == x && procs.contains(point_key_at(fine, s, i, l))),
    decreases n,
{
    let prev = reached_points(fine, s, procs, l, x, (n - 1) as nat);
    lemma_reached_points_facts(fine, s, procs, l, x, (n - 1) as nat);
    if i < n - 1 {
        lemma_reached_points_contains(fine, s, procs, l, x, (n - 1) as nat, i);
    }
    let last = n - 1;
    if point_key_at(fine, s, last, l + 1) == x && procs.contains(point_key_at(fine, s, last, l)) {
        assert(reached_points(fine, s, procs, l, x, n) == prev.push(last as usize));
        lemma_push_contains(prev, last as usize, i as usize);
    }
    if i == n - 1 {
        if prev.contains(i as usize) {
            let w = choose|w: int| 0 <= w < prev.len() && #[trigger] prev[w] == i as usize;
        }
    }
}

/// In an adaptive tree the parent of a split cell below the root is split.
proof fn lemma_split_parent(fine: Seq<u64>, s: TreeSettings, l: int, c: u64)
    requires
        valid_fine_keys(fine, s),
        fine.len() <= usize::MAX,
        s.adaptive_tree,
        l >= 1,
        split_cells(fine, s, l).contains(c),
    ensures
        split_cells(fine, s, l - 1).contains(parent_of(c, s.dimensions)),
{
    let procs = split_cells(fine, s, l - 1);
    if l - 1 >= s.max_level {
        lemma_no_split_beyond(fine, s, l);
    }
    assert(reached_points(fine, s, procs, l - 1, c, fine.len()).len() > 0);
    lemma_reached_cell(fine, s, procs, l - 1, c);
}

/// A point whose cell at level `l` is split has split cells at every level above.
proof fn lemma_split_chain(fine: Seq<u64>, s: TreeSettings, i: int, l: int, j: int)
    requires
        valid_fine_keys(fine, s),
        fine.len() <= usize::MAX,
        s.adaptive_tree,
        0 <= i < fine.len(),
        0 <= j <= l,
        split_cells(fine, s, l).contains(point_key_at(fine, s, i, l)),
    ensures
        split_cells(fine, s, j).contains(point_key_at(fine, s, i, j)),
    decreases l - j,
{
    if j < l {
        if l > s.max_level {
            lemma_no_split_beyond(fine, s, l);
        }
        lemma_split_parent(fine, s, l, point_key_at(fine, s, i, l));
        lemma_point_key_parent(fine, s, i, l - 1);
        lemma_split_chain(fine, s, i, l - 1, j);
    }
}

/// Starting from a level whose cell of point `i` is split, the point lies in a leaf below.
proof fn lemma_point_reaches_leaf(fine: Seq<u64>, s: TreeSettings, i: int, j: int) -> (x: u64)
    requires
        valid_fine_keys(fine, s),
        fine.len() <= usize::MAX,
        0 <= i < fine.len(),
        0 <= j,
        split_cells(fine, s, j).contains(point_key_at(fine, s, i, j)),
    ensures
        is_leaf(fine, s, x),
        points_of_cell(fine, s, x).contains(i as usize),
    decreases s.max_level - j,
{
    if j >= s.max_level {
        if j >= 1 {
            lemma_no_split_beyond(fine, s, j);
        } else {
            assert(false);
        }
    }
    let procs = split_cells(fine, s, j);
    let x = point_key_at(fine, s, i, j + 1);
    lemma_point_key_parent(fine, s, i, j);
    lemma_reached_points_contains(fine, s, procs, j, x, fine.len(), i);
    assert(reached_points(fine, s, procs, j, x, fine.len()).contains(i as usize));
    assert(reached_points(fine, s, procs, j, x, fine.len()).len() > 0);
    assert(created_from(fine, s, procs, j).contains(x)) by {
        if s.store_empty_leaves {
            assert(level_of(x) == j + 1);
            lemma_key_is_child_of_parent(x, s.dimensions);
            assert(procs.contains(parent_of(x, s.dimensions)));
        }
    }
    assert(level_of(x) == j + 1);
    assert(cell_points(fine, s, j + 1, x).contains(i as usize));
    if split_cells(fine, s, j + 1).contains(x) {
        lemma_point_reaches_leaf(fine, s, i, j + 1)
    } else {
        x
    }
}

/// The leaves partition the points: every point lies in exactly one leaf.
pub proof fn lemma_leaves_partition_points(fine: Seq<u64>, s: TreeSettings, i: int)
    requires
        valid_fine_keys(fine, s),
        fine.len() <= usize::MAX,
        0 <= i < fine.len(),
    ensures
        exists|x: u64| #[trigger] is_leaf(fine, s, x) && points_of_cell(fine, s, x).contains(i as usize),
        forall|x: u64, y: u64|
            #![trigger is_leaf(fine, s, x), is_leaf(fine, s, y)]
            is_leaf(fine, s, x) && is_leaf(fine, s, y) && points_of_cell(fine, s, x).contains(i as usize)
                && points_of_cell(fine, s, y).contains(i as usize) ==> x == y,
{
    lemma_root_level();
    assert(level_of(fine[i]) == s.max_level);
    assert(point_key_at(fine, s, i, 0) == 0);
    assert(split_cells(fine, s, 0).contains(0));
    let x = lemma_point_reaches_leaf(fine, s, i, 0);
    assert forall|x: u64, y: u64|
        #![trigger is_leaf(fine, s, x), is_leaf(fine, s, y)]
        is_leaf(fine, s, x) && is_leaf(fine, s, y) && points_of_cell(fine, s, x).contains(i as usize)
            && points_of_cell(fine, s, y).contains(i as usize) implies x == y by {
        lemma_leaf_of_point(fine, s, i, x);
        lemma_leaf_of_point(fine, s, i, y);
        let lx = level_of(x) as int;
        let ly = level_of(y) as int;
        if lx < ly {
            lemma_deeper_cell_split(fine, s, i, lx, ly);
        } else if ly < lx {
            lemma_deeper_cell_split(fine, s, i, ly, lx);
        }
    }
}

/// A leaf holding point `i` is the point's cell at the leaf's level, and the point's
/// cell one level up is split.
proof fn lemma_leaf_of_point(fine: Seq<u64>, s: TreeSettings, i: int, x: u64)
    requires
        valid_fine_keys(fine, s),
        fine.len() <= usize::MAX,
        0 <= i < fine.len(),
        is_leaf(fine, s, x),
        points_of_cell(fine, s, x).contains(i as usize),
    ensures
        x == point_key_at(fine, s, i, level_of(x) as int),
        1 <= level_of(x),
        split_cells(fine, s, level_of(x) - 1).contains(point_key_at(fine, s, i, level_of(x) - 1)),
        !split_cells(fine, s, level_of(x) as int).contains(x),
{
    let l = level_of(x) as int;
    lemma_reached_points_contains(fine, s, split_cells(fine, s, l - 1), l - 1, x, fine.len(), i);
}

/// A point whose cell at a deeper level is reached has its cell split at every level
/// from the first one down: it cannot stop in a leaf above.
proof fn lemma_deeper_cell_split(fine: Seq<u64>, s: TreeSettings, i: int, la: int, lb: int)
    requires
        valid_fine_keys(fine, s),
        fine.len() <= usize::MAX,
        0 <= i < fine.len(),
        1 <= la < lb,
        tree_cells(fine, s, la).contains(point_key_at(fine, s, i, la)),
        split_cells(fine, s, lb - 1).contains(point_key_at(fine, s, i, lb - 1)),
    ensures
        split_cells(fine, s, la).contains(point_key_at(fine, s, i, la)),
{
    if s.adaptive_tree {
        lemma_split_chain(fine, s, i, lb - 1, la);
    } else {
        let c = point_key_at(fine, s, i, la);
        if !split_cells(fine, s, la).contains(c) {
            // A regular tree splits all cells of a level or none.
            assert(split_cells(fine, s, la) =~= Set::<u64>::empty());
            lemma_no_split_after(fine, s, la, lb - 1);
            assert(!split_cells(fine, s, lb - 1).contains(point_key_at(fine, s, i, lb - 1)));
        }
    }
}

/// No cell is split below a level without split cells.
proof fn lemma_no_split_after(fine: Seq<u64>, s: TreeSettings, la: int, lb: int)
    requires
        0 <= la <= lb,
        split_cells(fine, s, la) == Set::<u64>::empty(),
    ensures
        split_cells(fine, s, lb) == Set::<u64>::empty(),
    decreases lb - la,
{
    if la < lb {
        lemma_no_cells_below_unsplit(fine, s, la);
        lemma_no_split_after(fine, s, la + 1, lb);
    }
}

/// Whether the points' keys can build a tree: the deepest level lies between `1` and
/// `63`, and every key is a key of that level lying below the root cell `0`.
pub fn fine_keys_valid(point_keys: &[u64], settings: &TreeSettings) -> (ok: bool)
    ensures
        ok == valid_fine_keys(point_keys@, *settings),
{
    if settings.max_level < 1 || settings.max_level >= 64 {
        return false;
    }
    let mut i: usize = 0;
    while i < point_keys.len()
        invariant
            1 <= settings.max_level < 64,
            i <= point_keys@.len(),
            forall|k: int|
                0 <= k < i ==> level_of(#[trigger] point_keys@[k]) == settings.max_level && ancestor_of(
                    point_keys@[k],
                    settings.dimensions,
                    settings.max_level as nat,
                ) == 0,
        decreases point_keys.len() - i,
    {
        let key = point_keys[i];
        let level = crate::morton::get_level(&key);
        if level != settings.max_level {
            return false;
        }
        let root = ancestor_exec(key, &settings.dimensions, settings.max_level);
        if root != 0 {
            return false;
        }
        i = i + 1;
    }
    true
}

/// Every cell of the tree below the root is either a leaf or split, never both.
pub proof fn lemma_cell_leaf_or_split(fine: Seq<u64>, s: TreeSettings, x: u64)
    requires
        valid_fine_keys(fine, s),
        fine.len() <= usize::MAX,
        level_of(x) >= 1,
        in_tree(fine, s, x),
    ensures
        is_leaf(fine, s, x) != is_split(fine, s, x),
{
    let l = level_of(x) as int;
    if !s.store_empty_leaves {
        assert(reached_points(fine, s, split_cells(fine, s, l - 1), l - 1, x, fine.len()).len() > 0);
    }
}

/// The coordinate bits of a key fit the grid of its level: `2^(d l)` cells.
pub open spec fn body_fits(key: u64, dimensions: Dimensions, l: int) -> bool {
    (key >> 15u64) < (1u64 << ((dimensions.spec_count() * l) as u64))
}

/// The children of a cell whose coordinate bits fit its level fit the next level.
proof fn lemma_child_body_fits(c: u64, dimensions: Dimensions, l: int, k: u64)
    requires
        0 <= l,
        dimensions.spec_count() * (l + 1) <= 48,
        k < num_children(dimensions),
        body_fits(c, dimensions, l),
        level_of(c) < 0x7fff,
    ensures
        body_fits(sibling_of(first_child_of(c, dimensions), dimensions, k), dimensions, l + 1),
{
    let d = dimensions.spec_count();
    let e = (d * l) as u64;
    let m = (num_children(dimensions) - 1) as u64;
    assert(d * (l + 1) == d * l + d) by (nonlinear_arith);
    assert({
        let lv = c & 0x7fff;
        let fc = (((c >> 15u64) << d) << 15u64) | ((lv + 1) as u64);
        let fl = fc & 0x7fff;
        let child = (((((fc >> 15u64) >> d) << d) | k) << 15u64) | fl;
        (child >> 15u64) < (1u64 << ((e + d) as u64))
    }) by (bit_vector)
        requires
            (d == 1 && m == 1) || (d == 2 && m == 3) || (d == 3 && m == 7),
            k <= m,
            e + d <= 48,
            (c >> 15u64) < (1u64 << e),
            c & 0x7fff < 0x7fff,
    ;
}

/// A key whose parent's coordinate bits fit the parent's level fits its own level.
proof fn lemma_parent_body_fits(x: u64, dimensions: Dimensions, l: int)
    requires
        0 <= l,
        dimensions.spec_count() * (l + 1) <= 48,
        level_of(x) > 0,
        body_fits(parent_of(x, dimensions), dimensions, l),
    ensures
        body_fits(x, dimensions, l + 1),
{
    let d = dimensions.spec_count();
    let e = (d * l) as u64;
    assert(d * (l + 1) == d * l + d) by (nonlinear_arith);
    assert({
        let lv = x & 0x7fff;
        let p = (((x >> 15u64) >> d) << 15u64) | ((lv - 1) as u64);
        (p >> 15u64) < (1u64 << e) ==> (x >> 15u64) < (1u64 << ((e + d) as u64))
    }) by (bit_vector)
        requires
            1 <= d <= 3,
            e + d <= 48,
            x & 0x7fff > 0,
    ;
}

/// Cells of the tree fit the grid of their level, while the grid fits a key.
proof fn lemma_tree_cells_fit(fine: Seq<u64>, s: TreeSettings, l: int, x: u64)
    requires
        valid_fine_keys(fine, s),
        fine.len() <= usize::MAX,
        0 <= l,
        s.dimensions.spec_count() * l <= 48,
        tree_cells(fine, s, l).contains(x),
    ensures
        body_fits(x, s.dimensions, l),
    decreases l,
{
    let d = s.dimensions.spec_count();
    if l == 0 {
        assert(x == 0);
        lemma_root_level();
        assert(d * 0 == 0);
    } else {
        let procs = split_cells(fine, s, l - 1);
        assert(d * (l - 1) <= d * l) by (nonlinear_arith)
            requires
                l >= 1,
                d >= 1,
        ;
        if l - 1 >= s.max_level {
            lemma_no_split_beyond(fine, s, l - 1);
            lemma_no_cells_below_unsplit(fine, s, l - 1);
        } else if s.store_empty_leaves {
            let c = choose|c: u64| procs.contains(c) && #[trigger] child_keys(c, s.dimensions).contains(x);
            let k = choose|k: int|
                0 <= k < child_keys(c, s.dimensions).len() && #[trigger] child_keys(c, s.dimensions)[k] == x;
            lemma_split_in_tree(fine, s, l - 1, c);
            lemma_tree_cells_level(fine, s, l - 1, c);
            lemma_tree_cells_fit(fine, s, l - 1, c);
            lemma_child_body_fits(c, s.dimensions, l - 1, k as u64);
        } else {
            lemma_reached_cell(fine, s, procs, l - 1, x);
            let p = parent_of(x, s.dimensions);
            lemma_split_in_tree(fine, s, l - 1, p);
            lemma_tree_cells_fit(fine, s, l - 1, p);
            lemma_parent_body_fits(x, s.dimensions, l - 1);
        }
    }
}

/// A key whose coordinate bits fit `2^e` cells with `e <= 45` leaves room for children.
proof fn lemma_small_body(x: u64, e: u64)
    requires
        e <= 45,
        (x >> 15u64) < (1u64 << e),
    ensures
        (x >> 15u64) < 0x200000000000u64,
{
    assert((x >> 15u64) < (1u64 << e) ==> (x >> 15u64) < 0x200000000000u64) by (bit_vector)
        requires
            e <= 45,
    ;
}

/// The tree is closed under parents: the parent of each cell below the root is a split
/// cell of the level above, and the cell is among its children. (A key holds 49
/// coordinate bits; a split cell's children must still fit, which limits the deepest
/// level to `45 / d + 1`.)
pub proof fn lemma_tree_parent_split(fine: Seq<u64>, s: TreeSettings, x: u64)
    requires
        valid_fine_keys(fine, s),
        fine.len() <= usize::MAX,
        s.dimensions.spec_count() * (s.max_level - 1) <= 45,
        in_tree(fine, s, x),
        level_of(x) >= 1,
    ensures
        level_of(parent_of(x, s.dimensions)) == level_of(x) - 1,
        is_split(fine, s, parent_of(x, s.dimensions)),
        children_of_cell(fine, s, parent_of(x, s.dimensions)).contains(x),
{
    let l = level_of(x) as int;
    let d = s.dimensions.spec_count();
    let procs = split_cells(fine, s, l - 1);
    lemma_parent_level(x, s.dimensions);
    if l - 1 >= s.max_level {
        lemma_no_split_beyond(fine, s, l - 1);
        lemma_no_cells_below_unsplit(fine, s, l - 1);
    }
    if s.store_empty_leaves {
        let c = choose|c: u64| procs.contains(c) && #[trigger] child_keys(c, s.dimensions).contains(x);
        let k = choose|k: int|
            0 <= k < child_keys(c, s.dimensions).len() && #[trigger] child_keys(c, s.dimensions)[k] == x;
        lemma_split_in_tree(fine, s, l - 1, c);
        lemma_tree_cells_level(fine, s, l - 1, c);
        assert(d * (l - 1) <= 45) by (nonlinear_arith)
            requires
                d * (s.max_level - 1) <= 45,
                l - 1 < s.max_level,
                1 <= d <= 3,
        ;
        lemma_tree_cells_fit(fine, s, l - 1, c);
        lemma_small_body(c, (d * (l - 1)) as u64);
        lemma_child_parent(c, s.dimensions, k as u64);
    } else {
        lemma_reached_cell(fine, s, procs, l - 1, x);
    }
}

/// The children of a split cell are cells of the tree one level down whose parent is the
/// cell. (As for parents, the deepest level is limited to `45 / d + 1`.)
pub proof fn lemma_children_below(fine: Seq<u64>, s: TreeSettings, x: u64, y: u64)
    requires
        valid_fine_keys(fine, s),
        fine.len() <= usize::MAX,
        s.dimensions.spec_count() * (s.max_level - 1) <= 45,
        is_split(fine, s, x),
        children_of_cell(fine, s, x).contains(y),
    ensures
        in_tree(fine, s, y),
        level_of(y) == level_of(x) + 1,
        parent_of(y, s.dimensions) == x,
{
    let l = level_of(x) as int;
    let d = s.dimensions.spec_count();
    let procs = split_cells(fine, s, l);
    lemma_split_in_tree(fine, s, l, x);
    if l >= s.max_level {
        if l >= 1 {
            lemma_no_split_beyond(fine, s, l);
        } else {
            assert(false);
        }
    }
    assert forall|c: u64| #[trigger] procs.contains(c) implies level_of(c) == l by {
        lemma_split_in_tree(fine, s, l, c);
        lemma_tree_cells_level(fine, s, l, c);
    }
    if s.store_empty_leaves {
        let k = choose|k: int| 0 <= k < child_keys(x, s.dimensions).len() && #[trigger] child_keys(x, s.dimensions)[k] == y;
        assert(created_from(fine, s, procs, l).contains(y));
        assert(d * l <= 45) by (nonlinear_arith)
            requires
                d * (s.max_level - 1) <= 45,
                l < s.max_level,
                1 <= d <= 3,
        ;
        lemma_tree_cells_fit(fine, s, l, x);
        lemma_small_body(x, (d * l) as u64);
        lemma_tree_cells_level(fine, s, l, x);
        lemma_child_parent(x, s.dimensions, k as u64);
    } else {
        assert(created_from(fine, s, procs, l).contains(y));
        lemma_reached_cell(fine, s, procs, l, y);
    }
    lemma_created_level(fine, s, procs, l, y);
}

/// The points reached in a cell are listed in strictly increasing order, each below `n`.
proof fn lemma_reached_points_increasing(
    fine: Seq<u64>,
    s: TreeSettings,
    procs: Set<u64>,
    l: int,
    x: u64,
    n: nat,
)
    requires
        n <= fine.len(),
        n <= usize::MAX,
    ensures
        forall|a: int, b: int|
            0 <= a < b < reached_points(fine, s, procs, l, x, n).len() ==> reached_points(
                fine,
                s,
                procs,
                l,
                x,
                n,
            )[a] < reached_points(fine, s, procs, l, x, n)[b],
    decreases n,
{
    if n > 0 {
        lemma_reached_points_increasing(fine, s, procs, l, x, (n - 1) as nat);
        lemma_reached_points_facts(fine, s, procs, l, x, (n - 1) as nat);
        let prev = reached_points(fine, s, procs, l, x, (n - 1) as nat);
        let last = n - 1;
        if point_key_at(fine, s, last, l + 1) == x && procs.contains(point_key_at(fine, s, last, l)) {
            let cur = prev.push(last as usize);
            assert(reached_points(fine, s, procs, l, x, n) == cur);
            assert forall|a: int, b: int| 0 <= a < b < cur.len() implies cur[a] < cur[b] by {
                if b == cur.len() - 1 {
                    assert(prev[a] < last);
                    assert((last as usize) as int == last);
                } else {
                    assert(cur[a] == prev[a] && cur[b] == prev[b]);
                }
            }
        }
    }
}

/// No cell lies below the depth of a finished tree: the depth's level has no split cell.
proof fn lemma_no_cells_below_depth(fine: Seq<u64>, s: TreeSettings, depth: int, l: int)
    requires
        0 <= depth < l,
        split_cells(fine, s, depth) == Set::<u64>::empty(),
    ensures
        tree_cells(fine, s, l) == Set::<u64>::empty(),
{
    lemma_no_split_after(fine, s, depth, l - 1);
    lemma_no_cells_below_unsplit(fine, s, l - 1);
}

/// The laws of a tree built over `fine.len()` points to depth `depth`: its leaves are
/// cells of it; the leaves' point lists are strictly increasing, below the number of
/// points, pairwise disjoint and together hold every point; in an adaptive tree a leaf
/// holding more than `max_points_per_cell` points lies at `max_level`; every cell lies at
/// or above `depth`, and some cell lies at `depth` when there are points.
pub open spec fn tree_law(b: TreeStructure, fine: Seq<u64>, s: TreeSettings, depth: int) -> bool {
    &&& forall|x: u64| #[trigger] b.leaves@.contains(x) ==> b.tree@.contains(x)
    &&& forall|x: u64, a: int, c: int|
        #![trigger b.leaf_source_indices@[x]@[a], b.leaf_source_indices@[x]@[c]]
        b.leaf_source_indices@.contains_key(x) && 0 <= a < c < b.leaf_source_indices@[x]@.len()
            ==> b.leaf_source_indices@[x]@[a] < b.leaf_source_indices@[x]@[c]
    &&& forall|x: u64, a: int|
        #![trigger b.leaf_source_indices@[x]@[a]]
        b.leaf_source_indices@.contains_key(x) && 0 <= a < b.leaf_source_indices@[x]@.len()
            ==> b.leaf_source_indices@[x]@[a] < fine.len()
    &&& forall|i: usize| i < fine.len() ==> #[trigger] listed_in_a_leaf(b, i)
    &&& forall|x: u64, y: u64, i: usize|
        #![trigger b.leaf_source_indices@[x]@.contains(i), b.leaf_source_indices@[y]@.contains(i)]
        b.leaf_source_indices@.contains_key(x) && b.leaf_source_indices@.contains_key(y)
            && b.leaf_source_indices@[x]@.contains(i) && b.leaf_source_indices@[y]@.contains(i)
            ==> x == y
    &&& s.adaptive_tree ==> forall|x: u64|
        #[trigger] b.leaf_source_indices@.contains_key(x) && b.leaf_source_indices@[x]@.len()
            > s.max_points_per_cell ==> level_of(x) == s.max_level
    &&& forall|x: u64| #[trigger] b.tree@.contains(x) ==> level_of(x) <= depth
    &&& fine.len() > 0 ==> exists|x: u64| #[trigger] b.tree@.contains(x) && level_of(x) == depth
}

/// The tree that a build records up to its depth is a tree over all the points:
/// - its leaves are cells of the tree;
/// - the point lists of its leaves hold each point `0..n` exactly once: each list is
///   strictly increasing and below `n`, no point is in two lists, every point is in one;
/// - in an adaptive tree a leaf holding more than `max_points_per_cell` points lies at the
///   deepest level `max_level`;
/// - the depth is the deepest level of its cells: every cell lies at or above it and, when
///   there are points, some cell lies at it.
pub proof fn lemma_tree_structure_law(fine: Seq<u64>, s: TreeSettings, b: TreeStructure, depth: int)
    requires
        valid_fine_keys(fine, s),
        fine.len() <= usize::MAX,
        recorded(b, fine, s, depth),
        1 <= depth <= s.max_level,
        forall|j: int| 0 <= j < depth ==> level_is_split(fine, s, j),
        split_cells(fine, s, depth) == Set::<u64>::empty(),
    ensures
        tree_law(b, fine, s, depth),
{
    let n = fine.len();
    // Leaves are cells of the tree.
    assert forall|x: u64| #[trigger] b.leaves@.contains(x) implies b.tree@.contains(x) by {
    }
    // Each leaf list is the points of its cell: increasing and below n.
    assert forall|x: u64, a: int, c: int|
        b.leaf_source_indices@.contains_key(x) && 0 <= a < c < b.leaf_source_indices@[x]@.len()
            implies #[trigger] b.leaf_source_indices@[x]@[a] < #[trigger] b.leaf_source_indices@[x]@[c] by {
        let l = level_of(x) as int;
        lemma_reached_points_increasing(fine, s, split_cells(fine, s, l - 1), l - 1, x, n);
    }
    assert forall|x: u64, a: int|
        b.leaf_source_indices@.contains_key(x) && 0 <= a < b.leaf_source_indices@[x]@.len()
            implies #[trigger] b.leaf_source_indices@[x]@[a] < fine.len() by {
        let l = level_of(x) as int;
        lemma_reached_points_facts(fine, s, split_cells(fine, s, l - 1), l - 1, x, n);
    }
    // Every point lies in exactly one leaf list.
    assert forall|x: u64, y: u64, i: usize|
        b.leaf_source_indices@.contains_key(x) && b.leaf_source_indices@.contains_key(y)
            && #[trigger] b.leaf_source_indices@[x]@.contains(i) && #[trigger] b.leaf_source_indices@[y]@.contains(i)
            implies x == y by {
        let lx = level_of(x) as int;
        let w = choose|w: int| 0 <= w < b.leaf_source_indices@[x]@.len() && b.leaf_source_indices@[x]@[w] == i;
        lemma_reached_points_facts(fine, s, split_cells(fine, s, lx - 1), lx - 1, x, n);
        lemma_leaves_partition_points(fine, s, i as int);
        assert(is_leaf(fine, s, x) && is_leaf(fine, s, y));
    }
    // An oversized leaf of an adaptive tree lies at the deepest level.
    if s.adaptive_tree {
        assert forall|x: u64|
            #[trigger] b.leaf_source_indices@.contains_key(x) && b.leaf_source_indices@[x]@.len()
                > s.max_points_per_cell implies level_of(x) == s.max_level by {
            let l = level_of(x) as int;
            assert(b.leaves@.contains(x));
            assert(is_leaf(fine, s, x));
            assert(tree_cells(fine, s, l).contains(x));
            assert(!split_cells(fine, s, l).contains(x));
            if l - 1 >= s.max_level {
                lemma_no_split_beyond(fine, s, l - 1);
                lemma_no_cells_below_unsplit(fine, s, l - 1);
            }
            assert(!splits_cell(s, l - 1, cell_points(fine, s, l, x).len()));
        }
    }
    // The depth is the deepest level of the cells.
    assert forall|x: u64| #[trigger] b.tree@.contains(x) implies level_of(x) <= depth by {
    }
    if n > 0 {
        let l = depth - 1;
        assert(level_is_split(fine, s, l));
        let c = choose|c: u64| #[trigger] split_cells(fine, s, l).contains(c);
        let procs = split_cells(fine, s, l);
        assert forall|q: u64| #[trigger] procs.contains(q) implies level_of(q) == l by {
            lemma_split_in_tree(fine, s, l, q);
            lemma_tree_cells_level(fine, s, l, q);
        }
        let y: u64 = if s.store_empty_leaves {
            let ch = child_keys(c, s.dimensions);
            assert(ch.len() > 0);
            assert(ch.contains(ch[0]));
            assert(created_from(fine, s, procs, l).contains(ch[0]));
            ch[0]
        } else {
            let i = lemma_split_cell_has_point(fine, s, l, c);
            let y = point_key_at(fine, s, i, l + 1);
            lemma_point_key_parent(fine, s, i, l);
            lemma_reached_points_contains(fine, s, procs, l, y, n, i);
            assert(reached_points(fine, s, procs, l, y, n).contains(i as usize));
            assert(created_from(fine, s, procs, l).contains(y));
            y
        };
        assert(tree_cells(fine, s, depth).contains(y));
        lemma_created_level(fine, s, procs, l, y);
        assert(in_tree(fine, s, y));
        assert(b.tree@.contains(y));
    }
    assert forall|i: usize| i < fine.len() implies #[trigger] listed_in_a_leaf(b, i) by {
        let x = lemma_point_in_leaf_list(fine, s, b, depth, i as int);
    }
}

/// Point `i` is in the point list of some leaf of `b`.
pub open spec fn listed_in_a_leaf(b: TreeStructure, i: usize) -> bool {
    exists|x: u64|
        #[trigger] b.leaf_source_indices@.contains_key(x) && b.leaf_source_indices@[x]@.contains(i)
}

/// A point lies in the point list of a recorded leaf.
proof fn lemma_point_in_leaf_list(fine: Seq<u64>, s: TreeSettings, b: TreeStructure, depth: int, i: int) -> (x: u64)
    requires
        valid_fine_keys(fine, s),
        fine.len() <= usize::MAX,
        recorded(b, fine, s, depth),
        1 <= depth,
        split_cells(fine, s, depth) == Set::<u64>::empty(),
        0 <= i < fine.len(),
    ensures
        b.leaf_source_indices@.contains_key(x),
        b.leaf_source_indices@[x]@.contains(i as usize),
{
    lemma_leaves_partition_points(fine, s, i);
    let x = choose|x: u64| #[trigger] is_leaf(fine, s, x) && points_of_cell(fine, s, x).contains(i as usize);
    let lx = level_of(x) as int;
    if lx > depth {
        lemma_no_cells_below_depth(fine, s, depth, lx);
    }
    assert(b.leaves@.contains(x));
    assert(points_of_cell(fine, s, x).len() > 0);
    assert(b.leaf_source_indices@.contains_key(x));
    x
}

/// Without stored empty leaves, a split cell holds a point, whose cell at its level it is.
proof fn lemma_split_cell_has_point(fine: Seq<u64>, s: TreeSettings, l: int, c: u64) -> (i: int)
    requires
        valid_fine_keys(fine, s),
        fine.len() <= usize::MAX,
        fine.len() > 0,
        !s.store_empty_leaves,
        0 <= l,
        split_cells(fine, s, l).contains(c),
    ensures
        0 <= i < fine.len(),
        point_key_at(fine, s, i, l) == c,
{
    let n = fine.len();
    if l == 0 {
        assert(c == 0);
        assert(level_of(fine[0]) == s.max_level);
        0
    } else {
        let procs = split_cells(fine, s, l - 1);
        if l - 1 >= s.max_level {
            lemma_no_split_beyond(fine, s, l);
        }
        assert(created_from(fine, s, procs, l - 1).contains(c));
        assert(reached_points(fine, s, procs, l - 1, c, n).len() > 0);
        lemma_reached_points_facts(fine, s, procs, l - 1, c, n);
        reached_points(fine, s, procs, l - 1, c, n)[0] as int
    }
}

} // verus!
