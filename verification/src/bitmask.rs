//! 16-bit masks viewed as sets of bit positions.
use vstd::prelude::*;

verus! {

/// Whether bit `e` of `m` is set.
pub open spec fn is_set(m: u16, e: u16) -> bool {
    (m >> e) & 1 == 1
}

/// The set of positions of the set bits of `m`.
pub open spec fn bits(m: u16) -> Set<u16> {
    Set::new(|e: u16| e < 16 && is_set(m, e))
}

/// The lowest set bit position of a nonzero mask.
pub open spec fn lowest(m: u16) -> u16 {
    choose|e: u16| e < 16 && is_set(m, e) && forall|k: u16| k < e ==> !is_set(m, k)
}

/// Bitwise facts about two masks at one position.
pub proof fn lemma_bit_ops(a: u16, b: u16, e: u16)
    requires
        e < 16,
    ensures
        is_set(a | b, e) == (is_set(a, e) || is_set(b, e)),
        is_set(a & b, e) == (is_set(a, e) && is_set(b, e)),
        is_set(a ^ b, e) == (is_set(a, e) != is_set(b, e)),
        is_set(!a, e) == !is_set(a, e),
        !is_set(0u16, e),
        is_set(0x3fffu16, e) == (e < 14),
        is_set(1u16 << e, e),
{
    assert({
        &&& ((a | b) >> e) & 1 == 1 <==> ((a >> e) & 1 == 1 || (b >> e) & 1 == 1)
        &&& ((a & b) >> e) & 1 == 1 <==> ((a >> e) & 1 == 1 && (b >> e) & 1 == 1)
        &&& ((a ^ b) >> e) & 1 == 1 <==> ((a >> e) & 1 == 1) != ((b >> e) & 1 == 1)
        &&& ((!a) >> e) & 1 == 1 <==> !((a >> e) & 1 == 1)
        &&& !((0u16 >> e) & 1 == 1)
        &&& ((0x3fffu16 >> e) & 1 == 1) <==> e < 14
        &&& ((1u16 << e) >> e) & 1 == 1
    }) by (bit_vector)
        requires
            e < 16,
    ;
}

/// A single-bit mask has exactly one set position.
pub proof fn lemma_single_bit(e: u16, k: u16)
    requires
        e < 16,
        k < 16,
    ensures
        is_set(1u16 << e, k) == (k == e),
{
    assert((((1u16 << e) >> k) & 1 == 1) <==> k == e) by (bit_vector)
        requires
            e < 16,
            k < 16,
    ;
}

/// Set-level forms of the bitwise operators.
pub proof fn lemma_bits_ops(a: u16, b: u16)
    ensures
        bits(a | b) == bits(a).union(bits(b)),
        bits(a & b) == bits(a).intersect(bits(b)),
        bits(a & !b) == bits(a).difference(bits(b)),
        bits(0u16) == Set::<u16>::empty(),
{
    assert forall|e: u16| #[trigger] bits(a | b).contains(e) == bits(a).union(bits(b)).contains(e)
        by {
        if e < 16 {
            lemma_bit_ops(a, b, e);
        }
    }
    assert forall|e: u16| #[trigger] bits(a & b).contains(e) == bits(a).intersect(
        bits(b),
    ).contains(e) by {
        if e < 16 {
            lemma_bit_ops(a, b, e);
        }
    }
    assert forall|e: u16| #[trigger] bits(a & !b).contains(e) == bits(a).difference(
        bits(b),
    ).contains(e) by {
        if e < 16 {
            lemma_bit_ops(a, !b, e);
            lemma_bit_ops(b, b, e);
        }
    }
    assert forall|e: u16| !(#[trigger] bits(0u16).contains(e)) by {
        if e < 16 {
            lemma_bit_ops(a, b, e);
        }
    }
    assert(bits(a | b) =~= bits(a).union(bits(b)));
    assert(bits(a & b) =~= bits(a).intersect(bits(b)));
    assert(bits(a & !b) =~= bits(a).difference(bits(b)));
    assert(bits(0u16) =~= Set::<u16>::empty());
}

/// A mask is zero exactly when it has no set bit.
pub proof fn lemma_zero_iff_empty(m: u16)
    ensures
        (m == 0) == (bits(m) == Set::<u16>::empty()),
{
    if m != 0 {
        assert(exists|e: u16| e < 16 && is_set(m, e)) by {
            lemma_some_bit(m);
        }
        let e = choose|e: u16| e < 16 && is_set(m, e);
        assert(bits(m).contains(e));
    } else {
        lemma_bits_ops(0, 0);
    }
}

/// A nonzero mask has a set bit.
pub proof fn lemma_some_bit(m: u16)
    requires
        m != 0,
    ensures
        exists|e: u16| e < 16 && is_set(m, e),
{
    let t = lowest_bit_index(m, 0);
    assert(is_set(m, t));
}

/// The lowest set position of a nonzero mask at or above `t`, all lower positions unset.
proof fn lowest_bit_index(m: u16, t: u16) -> (r: u16)
    requires
        m != 0,
        t <= 16,
        forall|k: u16| k < t ==> !is_set(m, k),
    ensures
        r < 16,
        is_set(m, r),
        forall|k: u16| k < r ==> !is_set(m, k),
    decreases 16 - t,
{
    if t == 16 {
        assert(!is_set(m, 0) && !is_set(m, 1) && !is_set(m, 2) && !is_set(m, 3) && !is_set(m, 4)
            && !is_set(m, 5) && !is_set(m, 6) && !is_set(m, 7) && !is_set(m, 8) && !is_set(m, 9)
            && !is_set(m, 10) && !is_set(m, 11) && !is_set(m, 12) && !is_set(m, 13) && !is_set(
            m,
            14,
        ) && !is_set(m, 15));
        assert(m == 0) by (bit_vector)
            requires
                (m >> 0u16) & 1 != 1,
                (m >> 1u16) & 1 != 1,
                (m >> 2u16) & 1 != 1,
                (m >> 3u16) & 1 != 1,
                (m >> 4u16) & 1 != 1,
                (m >> 5u16) & 1 != 1,
                (m >> 6u16) & 1 != 1,
                (m >> 7u16) & 1 != 1,
                (m >> 8u16) & 1 != 1,
                (m >> 9u16) & 1 != 1,
                (m >> 10u16) & 1 != 1,
                (m >> 11u16) & 1 != 1,
                (m >> 12u16) & 1 != 1,
                (m >> 13u16) & 1 != 1,
                (m >> 14u16) & 1 != 1,
                (m >> 15u16) & 1 != 1,
        ;
        0
    } else if is_set(m, t) {
        t
    } else {
        lowest_bit_index(m, (t + 1) as u16)
    }
}

/// `lowest` names the lowest set position of a nonzero mask.
pub proof fn lemma_lowest(m: u16)
    requires
        m != 0,
    ensures
        lowest(m) < 16,
        is_set(m, lowest(m)),
        forall|k: u16| k < lowest(m) ==> !is_set(m, k),
{
    let t = lowest_bit_index(m, 0);
    assert(t < 16 && is_set(m, t) && forall|k: u16| k < t ==> !is_set(m, k));
}

/// A position that is set with no lower set position is the lowest one.
pub proof fn lemma_lowest_unique(m: u16, t: u16)
    requires
        t < 16,
        is_set(m, t),
        forall|k: u16| k < t ==> !is_set(m, k),
    ensures
        lowest(m) == t,
{
    assert(m != 0) by {
        lemma_bit_ops(m, m, t);
        if m == 0 {
            assert(!is_set(0u16, t));
        }
    }
    lemma_lowest(m);
    let l = lowest(m);
    if l < t {
        assert(!is_set(m, l));
    }
    if t < l {
        assert(!is_set(m, t));
    }
}

/// The set of a single-bit mask.
pub proof fn lemma_bits_single(e: u16)
    requires
        e < 16,
    ensures
        bits(1u16 << e) == set![e],
{
    assert forall|k: u16| #[trigger] bits(1u16 << e).contains(k) == set![e].contains(k) by {
        if k < 16 {
            lemma_single_bit(e, k);
        }
    }
    assert(bits(1u16 << e) =~= set![e]);
}

/// Removing a sub-mask with `^` removes its positions and does not increase the value.
pub proof fn lemma_bits_xor_subset(a: u16, b: u16)
    requires
        bits(b).subset_of(bits(a)),
    ensures
        bits(a ^ b) == bits(a).difference(bits(b)),
        a ^ b <= a,
        b != 0 ==> a ^ b < a,
{
    assert forall|e: u16| #[trigger] bits(a ^ b).contains(e) == bits(a).difference(
        bits(b),
    ).contains(e) by {
        if e < 16 {
            lemma_bit_ops(a, b, e);
        }
    }
    assert(bits(a ^ b) =~= bits(a).difference(bits(b)));
    assert forall|e: u16| e < 16 implies !is_set(b & !a, e) by {
        lemma_bit_ops(b, !a, e);
        lemma_bit_ops(a, a, e);
        if is_set(b, e) {
            assert(bits(b).contains(e));
        }
    }
    assert(!is_set(b & !a, 0) && !is_set(b & !a, 1) && !is_set(b & !a, 2) && !is_set(b & !a, 3)
        && !is_set(b & !a, 4) && !is_set(b & !a, 5) && !is_set(b & !a, 6) && !is_set(b & !a, 7)
        && !is_set(b & !a, 8) && !is_set(b & !a, 9) && !is_set(b & !a, 10) && !is_set(b & !a, 11)
        && !is_set(b & !a, 12) && !is_set(b & !a, 13) && !is_set(b & !a, 14) && !is_set(
        b & !a,
        15,
    ));
    let c = b & !a;
    assert(c == 0) by (bit_vector)
        requires
            (c >> 0u16) & 1 != 1,
            (c >> 1u16) & 1 != 1,
            (c >> 2u16) & 1 != 1,
            (c >> 3u16) & 1 != 1,
            (c >> 4u16) & 1 != 1,
            (c >> 5u16) & 1 != 1,
            (c >> 6u16) & 1 != 1,
            (c >> 7u16) & 1 != 1,
            (c >> 8u16) & 1 != 1,
            (c >> 9u16) & 1 != 1,
            (c >> 10u16) & 1 != 1,
            (c >> 11u16) & 1 != 1,
            (c >> 12u16) & 1 != 1,
            (c >> 13u16) & 1 != 1,
            (c >> 14u16) & 1 != 1,
            (c >> 15u16) & 1 != 1,
    ;
    assert((b & !a) == 0 ==> a ^ b <= a && (b != 0 ==> a ^ b < a)) by (bit_vector);
}

/// A mask whose positions are among those of another is no larger than it.
pub proof fn lemma_subset_le(a: u16, b: u16)
    requires
        bits(a).subset_of(bits(b)),
    ensures
        a <= b,
{
    assert forall|e: u16| e < 16 implies !is_set(a & !b, e) by {
        lemma_bit_ops(a, !b, e);
        lemma_bit_ops(b, b, e);
        if is_set(a, e) {
            assert(bits(a).contains(e));
        }
    }
    assert(!is_set(a & !b, 0) && !is_set(a & !b, 1) && !is_set(a & !b, 2) && !is_set(a & !b, 3)
        && !is_set(a & !b, 4) && !is_set(a & !b, 5) && !is_set(a & !b, 6) && !is_set(a & !b, 7)
        && !is_set(a & !b, 8) && !is_set(a & !b, 9) && !is_set(a & !b, 10) && !is_set(a & !b, 11)
        && !is_set(a & !b, 12) && !is_set(a & !b, 13) && !is_set(a & !b, 14) && !is_set(
        a & !b,
        15,
    ));
    let c = a & !b;
    assert(c == 0) by (bit_vector)
        requires
            (c >> 0u16) & 1 != 1,
            (c >> 1u16) & 1 != 1,
            (c >> 2u16) & 1 != 1,
            (c >> 3u16) & 1 != 1,
            (c >> 4u16) & 1 != 1,
            (c >> 5u16) & 1 != 1,
            (c >> 6u16) & 1 != 1,
            (c >> 7u16) & 1 != 1,
            (c >> 8u16) & 1 != 1,
            (c >> 9u16) & 1 != 1,
            (c >> 10u16) & 1 != 1,
            (c >> 11u16) & 1 != 1,
            (c >> 12u16) & 1 != 1,
            (c >> 13u16) & 1 != 1,
            (c >> 14u16) & 1 != 1,
            (c >> 15u16) & 1 != 1,
    ;
    assert((a & !b) == 0 ==> a <= b) by (bit_vector);
}

} // verus!
