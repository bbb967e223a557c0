//! Morton (Z-order) keys for linear binary trees, quadtrees and octrees.
//!
//! A key holds the cell level in its low 15 bits and, above them, the interleaved
//! bits of the cell's integer anchor: bit `i` of coordinate `c` sits at body bit
//! `d * i + c`, where `d` is the number of dimensions. Each anchor coordinate may use
//! up to 16 bits and the level up to 15 bits.
use vstd::prelude::*;
use std::collections::HashSet;

verus! {

broadcast use vstd::std_specs::hash::group_hash_axioms;

/// Number of low bits of a key that hold the level of the cell.
pub const LEVEL_DISPLACEMENT: u64 = 15;

/// Mask selecting the level bits of a key.
pub const LEVEL_MASK: u64 = 0x7fff;

/// Supported spatial dimensions of a tree: binary tree, quadtree or octree.
#[derive(Debug, Clone, Copy, PartialEq, Eq, Structural)]
pub enum Dimensions {
    One,
    Two,
    Three,
}

impl Dimensions {
    /// The number of spatial dimensions.
    pub open spec fn spec_count(&self) -> u64 {
        match self {
            Dimensions::One => 1,
            Dimensions::Two => 2,
            Dimensions::Three => 3,
        }
    }

    /// The number of spatial dimensions.
    #[verifier::when_used_as_spec(spec_count)]
    pub fn count(&self) -> (n: u64)
        ensures
            n == self.spec_count(),
    {
        match self {
            Dimensions::One => 1,
            Dimensions::Two => 2,
            Dimensions::Three => 3,
        }
    }
}

/// Bit `i` of `v`.
pub open spec fn bit(v: u64, i: u64) -> bool {
    (v >> i) & 1 == 1
}

/// Spreads the low 16 bits of `x` to the even bit positions.
pub open spec fn spread2(x: u64) -> u64 {
    let x = x & 0xffff;
    let x = (x | (x << 8u64)) & 0x00ff00ffu64;
    let x = (x | (x << 4u64)) & 0x0f0f0f0fu64;
    let x = (x | (x << 2u64)) & 0x33333333u64;
    (x | (x << 1u64)) & 0x55555555u64
}

/// Gathers the even bit positions of `x` into a contiguous value.
pub open spec fn compact2(x: u64) -> u64 {
    let x = x & 0x5555555555555555u64;
    let x = (x | (x >> 1u64)) & 0x3333333333333333u64;
    let x = (x | (x >> 2u64)) & 0x0f0f0f0f0f0f0f0fu64;
    let x = (x | (x >> 4u64)) & 0x00ff00ff00ff00ffu64;
    let x = (x | (x >> 8u64)) & 0x0000ffff0000ffffu64;
    (x | (x >> 16u64)) & 0x00000000ffffffffu64
}

/// Spreads the low 16 bits of `x` to every third bit position.
pub open spec fn spread3(x: u64) -> u64 {
    let x = x & 0xffff;
    let x = (x | (x << 32u64)) & 0x1f00000000ffffu64;
    let x = (x | (x << 16u64)) & 0x1f0000ff0000ffu64;
    let x = (x | (x << 8u64)) & 0x100f00f00f00f00fu64;
    let x = (x | (x << 4u64)) & 0x10c30c30c30c30c3u64;
    (x | (x << 2u64)) & 0x1249249249249249u64
}

/// Gathers every third bit position of `x` (starting at bit 0) into a contiguous value.
pub open spec fn compact3(x: u64) -> u64 {
    let x = x & 0x1249249249249249u64;
    let x = (x ^ (x >> 2u64)) & 0x10c30c30c30c30c3u64;
    let x = (x ^ (x >> 4u64)) & 0x100f00f00f00f00fu64;
    let x = (x ^ (x >> 8u64)) & 0x1f0000ff0000ffu64;
    let x = (x ^ (x >> 16u64)) & 0x1f00000000ffffu64;
    (x ^ (x >> 32u64)) & 0x1fffffu64
}

/// The interleaved coordinate bits of an anchor (without the level).
pub open spec fn interleave(anchor: Seq<u64>, dimensions: Dimensions) -> u64 {
    match dimensions {
        Dimensions::One => anchor[0] & 0xffff,
        Dimensions::Two => spread2(anchor[0]) | (spread2(anchor[1]) << 1u64),
        Dimensions::Three => spread3(anchor[0]) | (spread3(anchor[1]) << 1u64) | (spread3(
            anchor[2],
        ) << 2u64),
    }
}

/// The Morton key of an anchor `[x, (y, (z,)) level]`.
pub open spec fn morton_key(anchor: Seq<u64>, dimensions: Dimensions) -> u64 {
    (interleave(anchor, dimensions) << 15u64) | anchor[dimensions.spec_count() as int]
}

/// The level held by a key.
pub open spec fn level_of(key: u64) -> u64 {
    key & 0x7fff
}

/// The anchor (coordinates followed by the level) encoded by a key.
pub open spec fn anchor_of(key: u64, dimensions: Dimensions) -> Seq<u64> {
    let body = key >> 15u64;
    match dimensions {
        Dimensions::One => seq![body & 0xffff, level_of(key)],
        Dimensions::Two => seq![compact2(body), compact2(body >> 1u64), level_of(key)],
        Dimensions::Three => seq![
            compact3(body),
            compact3(body >> 1u64),
            compact3(body >> 2u64),
            level_of(key),
        ],
    }
}

/// The key of the parent cell of a key whose level is positive.
pub open spec fn parent_of(key: u64, dimensions: Dimensions) -> u64 {
    (((key >> 15u64) >> dimensions.spec_count()) << 15u64) | ((level_of(key) - 1) as u64)
}

/// The key of the `index`-th cell sharing the parent of `key`, at the level of `key`.
pub open spec fn sibling_of(key: u64, dimensions: Dimensions, index: u64) -> u64 {
    let d = dimensions.spec_count();
    (((((key >> 15u64) >> d) << d) | index) << 15u64) | level_of(key)
}

/// The key of the first child of `key` (child index zero), before its siblings are formed.
pub open spec fn first_child_of(key: u64, dimensions: Dimensions) -> u64 {
    (((key >> 15u64) << dimensions.spec_count()) << 15u64) | ((level_of(key) + 1) as u64)
}

/// The number of children of a cell: `2^d`.
pub open spec fn num_children(dimensions: Dimensions) -> u64 {
    match dimensions {
        Dimensions::One => 2,
        Dimensions::Two => 4,
        Dimensions::Three => 8,
    }
}

/// The ancestor `k` generations above `key` (`k == 0` is the key itself).
pub open spec fn ancestor_of(key: u64, dimensions: Dimensions, k: nat) -> u64
    decreases k,
{
    if k == 0 {
        key
    } else {
        parent_of(ancestor_of(key, dimensions, (k - 1) as nat), dimensions)
    }
}

fn spread2_exec(x: u64) -> (r: u64)
    ensures
        r == spread2(x),
{
    let x = x & 0xffff;
    let x = (x | (x << 8u64)) & 0x00ff00ffu64;
    let x = (x | (x << 4u64)) & 0x0f0f0f0fu64;
    let x = (x | (x << 2u64)) & 0x33333333u64;
    (x | (x << 1u64)) & 0x55555555u64
}

fn compact2_exec(x: u64) -> (r: u64)
    ensures
        r == compact2(x),
{
    let x = x & 0x5555555555555555u64;
    let x = (x | (x >> 1u64)) & 0x3333333333333333u64;
    let x = (x | (x >> 2u64)) & 0x0f0f0f0f0f0f0f0fu64;
    let x = (x | (x >> 4u64)) & 0x00ff00ff00ff00ffu64;
    let x = (x | (x >> 8u64)) & 0x0000ffff0000ffffu64;
    (x | (x >> 16u64)) & 0x00000000ffffffffu64
}

fn spread3_exec(x: u64) -> (r: u64)
    ensures
        r == spread3(x),
{
    let x = x & 0xffff;
    let x = (x | (x << 32u64)) & 0x1f00000000ffffu64;
    let x = (x | (x << 16u64)) & 0x1f0000ff0000ffu64;
    let x = (x | (x << 8u64)) & 0x100f00f00f00f00fu64;
    let x = (x | (x << 4u64)) & 0x10c30c30c30c30c3u64;
    (x | (x << 2u64)) & 0x1249249249249249u64
}

fn compact3_exec(x: u64) -> (r: u64)
    ensures
        r == compact3(x),
{
    let x = x & 0x1249249249249249u64;
    let x = (x ^ (x >> 2u64)) & 0x10c30c30c30c30c3u64;
    let x = (x ^ (x >> 4u64)) & 0x100f00f00f00f00fu64;
    let x = (x ^ (x >> 8u64)) & 0x1f0000ff0000ffu64;
    let x = (x ^ (x >> 16u64)) & 0x1f00000000ffffu64;
    (x ^ (x >> 32u64)) & 0x1fffffu64
}

/// Gets the last 15 bits of a key, corresponding to a level.
pub fn get_level(key: &u64) -> (level: u64)
    ensures
        level == level_of(*key),
        level == *key % 0x8000,
{
    let r = *key & LEVEL_MASK;
    assert(*key & 0x7fff == *key % 0x8000) by (bit_vector);
    r
}

/// Morton encodes a set of anchor coordinates and their level, `[x, (y, (z,)) level]`.
///
/// The low 16 bits of each coordinate are interleaved (bit `i` of coordinate `c` goes to
/// body bit `d * i + c`) and the level is placed in the low 15 bits.
pub fn encode_morton_point(anchor: Vec<u64>, dimensions: &Dimensions) -> (key: u64)
    requires
        anchor.len() > dimensions.spec_count(),
    ensures
        key == morton_key(anchor@, *dimensions),
{
    let level = anchor[dimensions.count() as usize];
    let body = match dimensions {
        Dimensions::One => anchor[0] & 0xffff,
        Dimensions::Two => spread2_exec(anchor[0]) | (spread2_exec(anchor[1]) << 1u64),
        Dimensions::Three => spread3_exec(anchor[0]) | (spread3_exec(anchor[1]) << 1u64) | (
        spread3_exec(anchor[2]) << 2u64),
    };
    (body << 15u64) | level
}

/// Decodes a Morton key into its anchor `[x, (y, (z,)) level]`.
pub fn decode_key(key: &u64, dimensions: &Dimensions) -> (anchor: Vec<u64>)
    ensures
        anchor@ == anchor_of(*key, *dimensions),
        anchor.len() == dimensions.spec_count() + 1,
{
    let level = get_level(key);
    let body = *key >> 15u64;
    let mut anchor: Vec<u64> = Vec::new();
    match dimensions {
        Dimensions::One => {
            anchor.push(body & 0xffff);
        },
        Dimensions::Two => {
            anchor.push(compact2_exec(body));
            anchor.push(compact2_exec(body >> 1u64));
        },
        Dimensions::Three => {
            anchor.push(compact3_exec(body));
            anchor.push(compact3_exec(body >> 1u64));
            anchor.push(compact3_exec(body >> 2u64));
        },
    }
    anchor.push(level);
    proof {
        assert(*key & 0x7fff == level_of(*key));
    }
    assert(anchor@ =~= anchor_of(*key, *dimensions));
    anchor
}

/// Gets the Morton key of the parent of the current key; `None` at level zero.
pub fn get_parent(key: &u64, dimensions: &Dimensions) -> (parent: Option<u64>)
    ensures
        level_of(*key) == 0 ==> parent is None,
        level_of(*key) > 0 ==> parent == Some(parent_of(*key, *dimensions)),
{
    let level = get_level(key);
    if level == 0 {
        return None;
    }
    let key_no_level = *key >> LEVEL_DISPLACEMENT;
    let parent_level = level - 1;
    let mut parent = key_no_level >> dimensions.count();
    parent = parent << LEVEL_DISPLACEMENT;
    parent = parent | parent_level;
    Some(parent)
}

/// The level of the parent of a key is one less than the key's level.
pub proof fn lemma_parent_level(key: u64, dimensions: Dimensions)
    requires
        level_of(key) > 0,
    ensures
        level_of(parent_of(key, dimensions)) == level_of(key) - 1,
{
    let d = dimensions.spec_count();
    let l = key & 0x7fff;
    assert(l > 0 ==> (((((key >> 15u64) >> d) << 15u64) | ((l - 1) as u64)) & 0x7fff) == l - 1)
        by (bit_vector)
        requires
            l == key & 0x7fff,
    ;
}

/// Gets the Morton keys of all ancestors, including the key itself.
pub fn get_ancestors(key: &u64, dimensions: &Dimensions) -> (ancestors: HashSet<u64>)
    ensures
        forall|a: u64|
            ancestors@.contains(a) <==> exists|k: nat|
                k <= level_of(*key) && a == #[trigger] ancestor_of(*key, *dimensions, k),
{
    let mut current_key = *key;
    let current_level = get_level(key);
    let mut ancestors: HashSet<u64> = HashSet::new();
    ancestors.insert(current_key);
    assert(ancestor_of(*key, *dimensions, 0) == *key);
    let mut i: u64 = 0;
    while i < current_level
        invariant
            i <= current_level,
            current_level == level_of(*key),
            current_key == ancestor_of(*key, *dimensions, i as nat),
            level_of(current_key) == current_level - i,
            forall|a: u64|
                ancestors@.contains(a) <==> exists|k: nat|
                    k <= i && a == #[trigger] ancestor_of(*key, *dimensions, k),
        decreases current_level - i,
    {
        let p = get_parent(&current_key, dimensions);
        match p {
            Some(ancestor) => {
                proof {
                    lemma_parent_level(current_key, *dimensions);
                }
                let ghost old_set = ancestors@;
                ancestors.insert(ancestor);
                current_key = ancestor;
                i = i + 1;
                assert(ancestor_of(*key, *dimensions, i as nat) == ancestor);
                assert forall|a: u64|
                    ancestors@.contains(a) <==> exists|k: nat|
                        k <= i && a == #[trigger] ancestor_of(*key, *dimensions, k) by {
                    if ancestors@.contains(a) {
                        if a != ancestor {
                            assert(old_set.contains(a));
                        }
                    }
                    if exists|k: nat| k <= i && a == #[trigger] ancestor_of(*key, *dimensions, k) {
                        let k = choose|k: nat|
                            k <= i && a == #[trigger] ancestor_of(*key, *dimensions, k);
                        if k < i {
                            assert(old_set.contains(a));
                        }
                    }
                }
            },
            None => {
                assert(false);
            },
        }
    }
    ancestors
}

/// One more than the largest coordinate body an encoding can hold: `2^(16 d)`.
pub open spec fn body_capacity(dimensions: Dimensions) -> u64 {
    match dimensions {
        Dimensions::One => 0x10000,
        Dimensions::Two => 0x1_0000_0000,
        Dimensions::Three => 0x1_0000_0000_0000,
    }
}

/// The child index of a key among its siblings: its lowest `d` body bits.
pub open spec fn child_index_of(key: u64, dimensions: Dimensions) -> u64 {
    (key >> 15u64) & ((num_children(dimensions) - 1) as u64)
}

/// Gets the keys of all cells sharing the parent of `key`, in child-index order.
pub fn get_siblings(key: &u64, dimensions: &Dimensions) -> (siblings: Vec<u64>)
    ensures
        siblings.len() == num_children(*dimensions),
        forall|s: int|
            0 <= s < siblings.len() ==> siblings[s] == sibling_of(*key, *dimensions, s as u64),
{
    let d = dimensions.count();
    let num_siblings: u64 = match dimensions {
        Dimensions::One => 2,
        Dimensions::Two => 4,
        Dimensions::Three => 8,
    };
    let level = get_level(key);
    let key_no_level = *key >> LEVEL_DISPLACEMENT;
    let root = (key_no_level >> d) << d;
    let mut siblings: Vec<u64> = Vec::new();
    let mut suffix: u64 = 0;
    while suffix < num_siblings
        invariant
            suffix <= num_siblings,
            num_siblings == num_children(*dimensions),
            d == dimensions.spec_count(),
            level == level_of(*key),
            root == ((*key >> 15u64) >> d) << d,
            siblings.len() == suffix,
            forall|s: int|
                0 <= s < siblings.len() ==> siblings[s] == sibling_of(*key, *dimensions, s as u64),
        decreases num_siblings - suffix,
    {
        siblings.push(((root | suffix) << LEVEL_DISPLACEMENT) | level);
        suffix = suffix + 1;
    }
    siblings
}

/// Gets the keys of all children of `key`, in child-index order.
pub fn get_children(key: &u64, dimensions: &Dimensions) -> (children: Vec<u64>)
    ensures
        children.len() == num_children(*dimensions),
        forall|s: int|
            0 <= s < children.len() ==> children[s] == sibling_of(
                first_child_of(*key, *dimensions),
                *dimensions,
                s as u64,
            ),
{
    let level = get_level(key);
    let key_no_level = *key >> LEVEL_DISPLACEMENT;
    let mut child = key_no_level << dimensions.count();
    child = child << LEVEL_DISPLACEMENT;
    child = child | (level + 1);
    get_siblings(&child, dimensions)
}

/// Gets the index of a key among its siblings.
pub fn get_child_index(child: &u64, dimensions: &Dimensions) -> (index: usize)
    ensures
        index == child_index_of(*child, *dimensions),
        index < num_children(*dimensions),
{
    let key_no_level = *child >> LEVEL_DISPLACEMENT;
    let sibling_mask: u64 = match dimensions {
        Dimensions::One => 1,
        Dimensions::Two => 3,
        Dimensions::Three => 7,
    };
    let child_index = key_no_level & sibling_mask;
    assert(key_no_level & sibling_mask <= sibling_mask) by (bit_vector);
    child_index as usize
}

/// Encoding then decoding gives back the anchor: each coordinate below `2^16`, level
/// below `2^15`.
pub proof fn lemma_decode_encode(anchor: Seq<u64>, dimensions: Dimensions)
    requires
        anchor.len() == dimensions.spec_count() + 1,
        forall|c: int| 0 <= c < dimensions.spec_count() ==> anchor[c] < 0x10000,
        anchor[dimensions.spec_count() as int] < 0x8000,
    ensures
        anchor_of(morton_key(anchor, dimensions), dimensions) == anchor,
{
    let key = morton_key(anchor, dimensions);
    match dimensions {
        Dimensions::One => {
            let x = anchor[0];
            let l = anchor[1];
            assert(((((x & 0xffff) << 15u64) | l) >> 15u64) & 0xffff == x && (((x & 0xffff)
                << 15u64) | l) & 0x7fff == l) by (bit_vector)
                requires
                    x < 0x10000,
                    l < 0x8000,
            ;
        },
        Dimensions::Two => {
            let x = anchor[0];
            let y = anchor[1];
            let l = anchor[2];
            assert({
                let k = ((spread2(x) | (spread2(y) << 1u64)) << 15u64) | l;
                &&& compact2(k >> 15u64) == x
                &&& compact2((k >> 15u64) >> 1u64) == y
                &&& k & 0x7fff == l
            }) by (bit_vector)
                requires
                    x < 0x10000,
                    y < 0x10000,
                    l < 0x8000,
            ;
        },
        Dimensions::Three => {
            let x = anchor[0];
            let y = anchor[1];
            let z = anchor[2];
            let l = anchor[3];
            assert({
                let k = ((spread3(x) | (spread3(y) << 1u64) | (spread3(z) << 2u64)) << 15u64) | l;
                &&& compact3(k >> 15u64) == x
                &&& compact3((k >> 15u64) >> 1u64) == y
                &&& compact3((k >> 15u64) >> 2u64) == z
                &&& k & 0x7fff == l
            }) by (bit_vector)
                requires
                    x < 0x10000,
                    y < 0x10000,
                    z < 0x10000,
                    l < 0x8000,
            ;
        },
    }
    assert(anchor_of(key, dimensions) =~= anchor);
}

/// Decoding then encoding gives back the key whenever its coordinate bits fit the
/// 16 bits per coordinate that an encoding holds.
pub proof fn lemma_encode_decode(key: u64, dimensions: Dimensions)
    requires
        (key >> 15u64) < body_capacity(dimensions),
    ensures
        morton_key(anchor_of(key, dimensions), dimensions) == key,
{
    match dimensions {
        Dimensions::One => {
            assert(((((key >> 15u64) & 0xffff) & 0xffff) << 15u64) | (key & 0x7fff) == key)
                by (bit_vector)
                requires
                    (key >> 15u64) < 0x10000u64,
            ;
        },
        Dimensions::Two => {
            assert(((spread2(compact2(key >> 15u64)) | (spread2(compact2((key >> 15u64) >> 1u64))
                << 1u64)) << 15u64) | (key & 0x7fff) == key) by (bit_vector)
                requires
                    (key >> 15u64) < 0x100000000u64,
            ;
        },
        Dimensions::Three => {
            assert(((spread3(compact3(key >> 15u64)) | (spread3(compact3((key >> 15u64) >> 1u64))
                << 1u64) | (spread3(compact3((key >> 15u64) >> 2u64)) << 2u64)) << 15u64) | (key
                & 0x7fff) == key) by (bit_vector)
                requires
                    (key >> 15u64) < 0x1000000000000u64,
            ;
        },
    }
}

/// Every child of a cell has the cell as its parent, sits one level deeper, and has its
/// position among the children as its child index. The cell must not be at the deepest
/// level (`2^15 - 1`) and its coordinate bits must leave room for one more level.
pub proof fn lemma_child_parent(key: u64, dimensions: Dimensions, s: u64)
    requires
        s < num_children(dimensions),
        level_of(key) < 0x7fff,
        (key >> 15u64) < 0x200000000000u64,
    ensures
        ({
            let child = sibling_of(first_child_of(key, dimensions), dimensions, s);
            &&& level_of(child) == level_of(key) + 1
            &&& child_index_of(child, dimensions) == s
            &&& parent_of(child, dimensions) == key
        }),
{
    let d = dimensions.spec_count();
    let m = (num_children(dimensions) - 1) as u64;
    assert({
        let l = key & 0x7fff;
        let fc = (((key >> 15u64) << d) << 15u64) | ((l + 1) as u64);
        let lc = fc & 0x7fff;
        let child = (((((fc >> 15u64) >> d) << d) | s) << 15u64) | lc;
        &&& child & 0x7fff == l + 1
        &&& (child >> 15u64) & m == s
        &&& (((child >> 15u64) >> d) << 15u64) | (((child & 0x7fff) - 1) as u64) == key
    }) by (bit_vector)
        requires
            (d == 1 && m == 1) || (d == 2 && m == 3) || (d == 3 && m == 7),
            s <= m,
            key & 0x7fff < 0x7fff,
            (key >> 15u64) < 0x200000000000u64,
    ;
}

/// All siblings of a cell share its parent, and the cell is the sibling at its own child
/// index.
pub proof fn lemma_siblings_share_parent(key: u64, dimensions: Dimensions, s: u64)
    requires
        s < num_children(dimensions),
        level_of(key) > 0,
    ensures
        parent_of(sibling_of(key, dimensions, s), dimensions) == parent_of(key, dimensions),
        sibling_of(key, dimensions, child_index_of(key, dimensions)) == key,
{
    let d = dimensions.spec_count();
    let m = (num_children(dimensions) - 1) as u64;
    assert({
        let l = key & 0x7fff;
        let sib = (((((key >> 15u64) >> d) << d) | s) << 15u64) | l;
        &&& (((sib >> 15u64) >> d) << 15u64) | (((sib & 0x7fff) - 1) as u64) == (((key
            >> 15u64) >> d) << 15u64) | ((l - 1) as u64)
        &&& (((((key >> 15u64) >> d) << d) | ((key >> 15u64) & m)) << 15u64) | l == key
    }) by (bit_vector)
        requires
            (d == 1 && m == 1) || (d == 2 && m == 3) || (d == 3 && m == 7),
            s <= m,
            key & 0x7fff > 0,
    ;
}

/// The parent cell's anchor halves each coordinate of the child's anchor and its level
/// is one less (for keys whose coordinate bits fit an encoding).
pub proof fn lemma_parent_anchor(key: u64, dimensions: Dimensions)
    requires
        level_of(key) > 0,
        (key >> 15u64) < body_capacity(dimensions),
    ensures
        forall|c: int|
            0 <= c < dimensions.spec_count() ==> #[trigger] anchor_of(
                parent_of(key, dimensions),
                dimensions,
            )[c] == anchor_of(key, dimensions)[c] >> 1u64,
        anchor_of(parent_of(key, dimensions), dimensions)[dimensions.spec_count() as int]
            == level_of(key) - 1,
{
    lemma_parent_level(key, dimensions);
    let p = parent_of(key, dimensions);
    let l = key & 0x7fff;
    match dimensions {
        Dimensions::One => {
            assert((((((key >> 15u64) >> 1u64) << 15u64) | ((l - 1) as u64)) >> 15u64) & 0xffff
                == ((key >> 15u64) & 0xffff) >> 1u64) by (bit_vector)
                requires
                    l == key & 0x7fff,
                    l > 0,
                    (key >> 15u64) < 0x10000u64,
            ;
        },
        Dimensions::Two => {
            assert({
                let pk = (((key >> 15u64) >> 2u64) << 15u64) | ((l - 1) as u64);
                &&& compact2(pk >> 15u64) == compact2(key >> 15u64) >> 1u64
                &&& compact2((pk >> 15u64) >> 1u64) == compact2((key >> 15u64) >> 1u64) >> 1u64
            }) by (bit_vector)
                requires
                    l == key & 0x7fff,
                    l > 0,
            ;
        },
        Dimensions::Three => {
            assert({
                let pk = (((key >> 15u64) >> 3u64) << 15u64) | ((l - 1) as u64);
                &&& compact3(pk >> 15u64) == compact3(key >> 15u64) >> 1u64
                &&& compact3((pk >> 15u64) >> 1u64) == compact3((key >> 15u64) >> 1u64) >> 1u64
                &&& compact3((pk >> 15u64) >> 2u64) == compact3((key >> 15u64) >> 2u64) >> 1u64
            }) by (bit_vector)
                requires
                    l == key & 0x7fff,
                    l > 0,
            ;
        },
    }
}

/// Bit `i` of coordinate `c` of an anchor is stored at key bit `15 + d * i + c`, and the
/// level occupies the low 15 bits.
pub proof fn lemma_encode_bits(anchor: Seq<u64>, dimensions: Dimensions, c: u64, i: u64)
    requires
        anchor.len() == dimensions.spec_count() + 1,
        anchor[dimensions.spec_count() as int] < 0x8000,
        c < dimensions.spec_count(),
        i < 16,
    ensures
        bit(morton_key(anchor, dimensions), (15 + dimensions.spec_count() * i + c) as u64) == bit(
            anchor[c as int],
            i,
        ),
        level_of(morton_key(anchor, dimensions)) == anchor[dimensions.spec_count() as int],
{
    let pos = (15 + dimensions.spec_count() * i + c) as u64;
    match dimensions {
        Dimensions::One => {
            let x = anchor[0];
            let l = anchor[1];
            assert(((((((x & 0xffff) << 15u64) | l) >> pos) & 1) == ((x >> i) & 1)) && ((((x
                & 0xffff) << 15u64) | l) & 0x7fff) == l) by (bit_vector)
                requires
                    l < 0x8000,
                    i < 16,
                    pos == 15 + i,
            ;
        },
        Dimensions::Two => {
            let x = anchor[0];
            let y = anchor[1];
            let l = anchor[2];
            let v = anchor[c as int];
            assert({
                let k = ((spread2(x) | (spread2(y) << 1u64)) << 15u64) | l;
                &&& ((k >> pos) & 1) == ((v >> i) & 1)
                &&& k & 0x7fff == l
            }) by (bit_vector)
                requires
                    l < 0x8000,
                    i < 16,
                    c < 2,
                    pos == 15 + 2 * i + c,
                    c == 0 ==> v == x,
                    c == 1 ==> v == y,
            ;
        },
        Dimensions::Three => {
            let x = anchor[0];
            let y = anchor[1];
            let z = anchor[2];
            let l = anchor[3];
            let v = anchor[c as int];
            assert({
                let k = ((spread3(x) | (spread3(y) << 1u64) | (spread3(z) << 2u64)) << 15u64) | l;
                &&& ((k >> pos) & 1) == ((v >> i) & 1)
                &&& k & 0x7fff == l
            }) by (bit_vector)
                requires
                    l < 0x8000,
                    i < 16,
                    c < 3,
                    pos == 15 + 3 * i + c,
                    c == 0 ==> v == x,
                    c == 1 ==> v == y,
                    c == 2 ==> v == z,
            ;
        },
    }
}

/// `3^n` for `n <= 3`.
pub open spec fn pow3(n: u64) -> u64 {
    if n == 0 {
        1
    } else if n == 1 {
        3
    } else if n == 2 {
        9
    } else {
        27
    }
}

/// The number of direction vectors in `{-1, 0, 1}^d`, the zero vector included.
pub open spec fn num_directions(dimensions: Dimensions) -> u64 {
    pow3(dimensions.spec_count())
}

/// The index of the zero direction among the `3^d` directions.
pub open spec fn zero_direction(dimensions: Dimensions) -> u64 {
    ((num_directions(dimensions) - 1) / 2) as u64
}

/// Component `c` of direction `j`: direction `j` lists the base-3 digits of `j`, the
/// first coordinate most significant, each shifted down by one. Directions therefore run
/// in lexicographic order from `(-1, .., -1)` to `(1, .., 1)`.
pub open spec fn direction_offset(dimensions: Dimensions, j: u64, c: u64) -> int {
    ((j / pow3((dimensions.spec_count() - 1 - c) as u64)) % 3) as int - 1
}

/// The number of cells along each axis at a level, as compared by neighbour search.
pub open spec fn boxes_per_axis(level: u64) -> int {
    if level < 63 {
        (1u64 << level) as int
    } else {
        0
    }
}

/// Whether the cell at direction `j` from `key` lies inside the level's grid.
pub open spec fn neighbour_in_bounds(key: u64, dimensions: Dimensions, j: u64) -> bool {
    forall|c: u64|
        c < dimensions.spec_count() ==> 0 <= anchor_of(key, dimensions)[c as int]
            + #[trigger] direction_offset(dimensions, j, c) < boxes_per_axis(level_of(key))
}

/// The anchor of the cell at direction `j` from `key`.
pub open spec fn neighbour_anchor(key: u64, dimensions: Dimensions, j: u64) -> Seq<u64> {
    let d = dimensions.spec_count();
    Seq::new(
        (d + 1) as nat,
        |c: int|
            if c < d {
                (anchor_of(key, dimensions)[c] + direction_offset(dimensions, j, c as u64)) as u64
            } else {
                level_of(key)
            },
    )
}

/// The keys of the in-grid neighbours among the first `n` directions, in direction order.
pub open spec fn neighbour_keys(key: u64, dimensions: Dimensions, n: nat) -> Seq<u64>
    decreases n,
{
    if n == 0 {
        Seq::empty()
    } else {
        let prev = neighbour_keys(key, dimensions, (n - 1) as nat);
        let j = (n - 1) as u64;
        if j != zero_direction(dimensions) && neighbour_in_bounds(key, dimensions, j) {
            prev.push(morton_key(neighbour_anchor(key, dimensions, j), dimensions))
        } else {
            prev
        }
    }
}

fn direction_offset_exec(dimensions: &Dimensions, j: u64, c: u64) -> (o: i64)
    requires
        c < dimensions.spec_count(),
        j < num_directions(*dimensions),
    ensures
        o == direction_offset(*dimensions, j, c),
{
    let e = dimensions.count() - 1 - c;
    let p: u64 = if e == 0 {
        1
    } else if e == 1 {
        3
    } else {
        9
    };
    assert(p == pow3(e));
    ((j / p) % 3) as i64 - 1
}

/// Gets the Morton keys of all cells at the same level that touch the cell of `key`
/// (faces, edges and corners), in direction order. Cells outside the level's grid are
/// skipped; cells absent from a particular tree are not.
pub fn get_neighbours(key: u64, dimensions: &Dimensions) -> (neighbours: Vec<u64>)
    requires
        level_of(key) < 64,
    ensures
        neighbours@ == neighbour_keys(key, *dimensions, num_directions(*dimensions) as nat),
{
    let level = get_level(&key);
    let max_num_boxes: i64 = if level < 63 {
        assert((1u64 << level) < 0x8000_0000_0000_0000u64) by (bit_vector)
            requires
                level < 63,
        ;
        (1u64 << level) as i64
    } else {
        0
    };
    let anchor = decode_key(&key, dimensions);
    let d = dimensions.count();
    let num_dirs: u64 = match dimensions {
        Dimensions::One => 3,
        Dimensions::Two => 9,
        Dimensions::Three => 27,
    };
    let center = (num_dirs - 1) / 2;
    proof {
        assert forall|c: int| 0 <= c < d implies anchor@[c] < 0x1_0000_0000 by {
            let body = key >> 15u64;
            assert(body & 0xffff < 0x1_0000_0000 && compact2(body) < 0x1_0000_0000 && compact2(
                body >> 1u64,
            ) < 0x1_0000_0000 && compact3(body) < 0x1_0000_0000 && compact3(body >> 1u64)
                < 0x1_0000_0000 && compact3(body >> 2u64) < 0x1_0000_0000) by (bit_vector);
        }
    }
    let mut neighbours: Vec<u64> = Vec::new();
    let mut j: u64 = 0;
    while j < num_dirs
        invariant
            j <= num_dirs,
            num_dirs == num_directions(*dimensions),
            center == zero_direction(*dimensions),
            d == dimensions.spec_count(),
            level == level_of(key),
            max_num_boxes == boxes_per_axis(level),
            anchor@ == anchor_of(key, *dimensions),
            forall|c: int| 0 <= c < d ==> anchor@[c] < 0x1_0000_0000,
            neighbours@ == neighbour_keys(key, *dimensions, j as nat),
        decreases num_dirs - j,
    {
        if j != center {
            let mut candidate: Vec<u64> = Vec::new();
            let mut inside = true;
            let mut c: u64 = 0;
            while c < d
                invariant
                    c <= d,
                    j < num_dirs,
                    num_dirs == num_directions(*dimensions),
                    d == dimensions.spec_count(),
                    level == level_of(key),
                    max_num_boxes == boxes_per_axis(level),
                    anchor@ == anchor_of(key, *dimensions),
                    forall|c: int| 0 <= c < d ==> anchor@[c] < 0x1_0000_0000,
                    candidate.len() == c,
                    forall|k: int|
                        0 <= k < c ==> candidate[k] == neighbour_anchor(key, *dimensions, j)[k],
                    inside <==> forall|k: u64|
                        k < c ==> 0 <= anchor_of(key, *dimensions)[k as int] + #[trigger] direction_offset(
                            *dimensions,
                            j,
                            k,
                        ) < boxes_per_axis(level),
                decreases d - c,
            {
                let off = direction_offset_exec(dimensions, j, c);
                let x_d: i64 = anchor[c as usize] as i64 + off;
                if !(x_d >= 0 && x_d < max_num_boxes) {
                    inside = false;
                }
                candidate.push(#[verifier::truncate] (x_d as u64));
                c = c + 1;
            }
            candidate.push(level);
            if inside {
                assert(candidate@ =~= neighbour_anchor(key, *dimensions, j));
                neighbours.push(encode_morton_point(candidate, dimensions));
            }
        }
        j = j + 1;
    }
    neighbours
}

/// Every neighbour lies at the level of the cell it neighbours.
pub proof fn lemma_neighbour_level(key: u64, dimensions: Dimensions, j: u64)
    ensures
        level_of(morton_key(neighbour_anchor(key, dimensions, j), dimensions)) == level_of(key),
{
    let a = neighbour_anchor(key, dimensions, j);
    assert(level_of(key) < 0x8000) by (bit_vector);
    lemma_encode_bits(a, dimensions, 0, 0);
}

} // verus!
