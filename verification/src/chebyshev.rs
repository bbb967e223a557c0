//! Index bookkeeping for Chebyshev interpolation operators: multi-index numbering,
//! child offsets in Morton order, and symmetry lookup tables.
use vstd::prelude::*;
use itertools::Itertools;
use crate::utils::{
    argsort, cartesian_product, index_leq, index_range, key_before, lemma_covering_is_distinct,
    lemma_distinct_covers, lemma_increasing_is_identity, lemma_index_leq_total,
    lemma_pow_monotone, lemma_pow_positive, pow_nat, pow_usize,
    lemma_filter_take_step, product_entry, rows_view, sorted_copy, stable_argsort, value_leq,
};

verus! {

/// The row/column of the interpolation matrix for the (1-based) multi-index `alpha`:
/// its digits minus one read in base `p`, most significant first. Only the first three
/// entries count.
pub open spec fn multi_index_position(alpha: Seq<usize>, p: int) -> int {
    if alpha.len() == 1 {
        alpha[0] - 1
    } else if alpha.len() == 2 {
        (alpha[0] - 1) * p + (alpha[1] - 1)
    } else {
        (alpha[0] - 1) * (p * p) + (alpha[1] - 1) * p + (alpha[2] - 1)
    }
}

/// Maps a 1-based multi-index to the rows and columns of the interpolation matrix.
pub fn map_multi_index_to_k(alpha: &[usize], interpolation_order: &usize) -> (m_alpha: usize)
    requires
        alpha.len() >= 1,
        forall|c: int| 0 <= c < alpha.len() && c < 3 ==> alpha[c] >= 1,
        alpha.len() >= 3 ==> *interpolation_order * *interpolation_order <= usize::MAX,
        multi_index_position(alpha@, *interpolation_order as int) <= usize::MAX,
    ensures
        m_alpha == multi_index_position(alpha@, *interpolation_order as int),
{
    let p = *interpolation_order;
    let alpha_length = alpha.len();
    if alpha_length == 1 {
        alpha[0] - 1
    } else if alpha_length == 2 {
        assert((alpha[0] - 1) * p <= (alpha[0] - 1) * p + (alpha[1] - 1)) by (nonlinear_arith)
            requires
                alpha[1] >= 1,
        ;
        (alpha[0] - 1) * p + (alpha[1] - 1)
    } else {
        let p2 = p * p;
        assert((alpha[0] - 1) * p2 <= (alpha[0] - 1) * p2 + (alpha[1] - 1) * p + (alpha[2] - 1)
            && (alpha[1] - 1) * p <= (alpha[0] - 1) * p2 + (alpha[1] - 1) * p + (alpha[2] - 1))
            by (nonlinear_arith)
            requires
                alpha[0] >= 1,
                alpha[1] >= 1,
                alpha[2] >= 1,
        ;
        (alpha[0] - 1) * p2 + (alpha[1] - 1) * p + (alpha[2] - 1)
    }
}

/// Entry `j` of child `i`'s offset in a `2^d` hypercube: bit `j` of `i`.
pub open spec fn offset_bit(i: usize, j: usize) -> usize {
    if i & (1usize << j) != 0 {
        1
    } else {
        0
    }
}

/// Returns the relative offsets of the `2^dim` children of a cell in Morton order: row
/// `i` holds the bits of `i`, lowest first.
pub fn calculate_relative_offsets_morton(dim: &usize) -> (offsets: Vec<Vec<usize>>)
    requires
        *dim < 32,
    ensures
        offsets.len() == 1usize << *dim,
        forall|i: int| 0 <= i < offsets.len() ==> #[trigger] offsets[i].len() == *dim,
        forall|i: int, j: int|
            0 <= i < offsets.len() && 0 <= j < *dim ==> #[trigger] offsets[i][j] == offset_bit(
                i as usize,
                j as usize,
            ),
{
    let d = *dim;
    assert((1usize << d) <= 0x8000_0000usize) by (bit_vector)
        requires
            d < 32,
    ;
    let num_children: usize = 1usize << d;
    let mut offsets: Vec<Vec<usize>> = Vec::new();
    let mut i: usize = 0;
    while i < num_children
        invariant
            i <= num_children,
            num_children == 1usize << d,
            d == *dim,
            d < 32,
            offsets.len() == i,
            forall|r: int| 0 <= r < i ==> #[trigger] offsets[r].len() == d,
            forall|r: int, j: int|
                0 <= r < i && 0 <= j < d ==> #[trigger] offsets[r][j] == offset_bit(
                    r as usize,
                    j as usize,
                ),
        decreases num_children - i,
    {
        let mut row: Vec<usize> = Vec::new();
        let mut j: usize = 0;
        while j < d
            invariant
                j <= d,
                d < 32,
                row.len() == j,
                forall|jj: int| 0 <= jj < j ==> row[jj] == offset_bit(i, jj as usize),
            decreases d - j,
        {
            let v: usize = if (i & (1usize << j)) != 0 {
                1
            } else {
                0
            };
            row.push(v);
            j = j + 1;
        }
        offsets.push(row);
        i = i + 1;
    }
    offsets
}

/// Whether two index lists are equal.
fn same_indices(a: &Vec<usize>, b: &Vec<usize>) -> (r: bool)
    ensures
        r == (a@ == b@),
{
    if a.len() != b.len() {
        return false;
    }
    let mut i: usize = 0;
    while i < a.len()
        invariant
            i <= a.len(),
            a.len() == b.len(),
            forall|k: int| 0 <= k < i ==> a[k] == b[k],
        decreases a.len() - i,
    {
        if a[i] != b[i] {
            return false;
        }
        i = i + 1;
    }
    assert(a@ =~= b@);
    true
}

/// The position of the first of the first `n` rows equal to `case`.
pub open spec fn first_match<T>(rows: Seq<Seq<T>>, case: Seq<T>, n: nat) -> Option<nat>
    decreases n,
{
    if n == 0 {
        None
    } else {
        match first_match(rows, case, (n - 1) as nat) {
            Some(k) => Some(k),
            None => if rows[n - 1] == case {
                Some((n - 1) as nat)
            } else {
                None
            },
        }
    }
}

/// For each of the first `n` cases that equals some row, the position of the first equal
/// row, in case order; cases equal to no row are skipped.
pub open spec fn combined_lookups<T>(cases: Seq<Seq<T>>, rows: Seq<Seq<T>>, n: nat) -> Seq<usize>
    decreases n,
{
    if n == 0 {
        Seq::empty()
    } else {
        let prev = combined_lookups(cases, rows, (n - 1) as nat);
        match first_match(rows, cases[n - 1], rows.len()) {
            Some(k) => prev.push(k as usize),
            None => prev,
        }
    }
}

/// Combines axial and diagonal permutation cases into indices of the precomputed
/// reference operators: for each case, the position of the first equal combination
/// (cases without one are skipped).
pub fn lookup_combined_permutation_cases(
    combined_permutation_cases: &[Vec<usize>],
    permutation_combinations: &[Vec<usize>],
) -> (matching_indices: Vec<usize>)
    ensures
        matching_indices@ == combined_lookups(
            rows_view(combined_permutation_cases@),
            rows_view(permutation_combinations@),
            combined_permutation_cases@.len(),
        ),
{
    let ghost cases = rows_view(combined_permutation_cases@);
    let ghost rows = rows_view(permutation_combinations@);
    let mut matching_indices: Vec<usize> = Vec::new();
    let mut c: usize = 0;
    while c < combined_permutation_cases.len()
        invariant
            c <= combined_permutation_cases.len(),
            cases == rows_view(combined_permutation_cases@),
            rows == rows_view(permutation_combinations@),
            matching_indices@ == combined_lookups(cases, rows, c as nat),
        decreases combined_permutation_cases.len() - c,
    {
        let case = &combined_permutation_cases[c];
        assert(case@ == cases[c as int]);
        let mut idx: usize = 0;
        let mut found = false;
        while idx < permutation_combinations.len() && !found
            invariant
                idx <= permutation_combinations.len(),
                rows == rows_view(permutation_combinations@),
                found ==> idx >= 1 && first_match(rows, case@, rows.len()) == Some((idx - 1) as nat),
                !found ==> first_match(rows, case@, idx as nat) is None,
            decreases permutation_combinations.len() - idx,
        {
            assert(rows[idx as int] == permutation_combinations[idx as int]@);
            if same_indices(&permutation_combinations[idx], case) {
                proof {
                    lemma_first_match_stable(rows, case@, (idx + 1) as nat, rows.len());
                }
                found = true;
            }
            idx = idx + 1;
        }
        if found {
            matching_indices.push(idx - 1);
        }
        c = c + 1;
    }
    matching_indices
}

/// Once a first match is found, looking further does not change it.
proof fn lemma_first_match_stable<T>(rows: Seq<Seq<T>>, case: Seq<T>, n: nat, m: nat)
    requires
        n <= m,
        first_match(rows, case, n) is Some,
    ensures
        first_match(rows, case, m) == first_match(rows, case, n),
    decreases m,
{
    if n < m {
        lemma_first_match_stable(rows, case, n, (m - 1) as nat);
    }
}

/// The offsets along one axis between a cell and the cells it interacts with through M2L.
pub open spec fn m2l_axis_values() -> Seq<i32> {
    seq![-3i32, -2i32, -1i32, 0i32, 1i32, 2i32, 3i32]
}

/// The non-negative axis offsets from which the reference M2L vectors are drawn.
pub open spec fn reference_axis_values() -> Seq<i32> {
    seq![0i32, 1i32, 2i32, 3i32]
}

/// Row `r` of the cartesian product of `values` with itself `n` times.
pub open spec fn product_row<T>(values: Seq<T>, n: nat, r: nat) -> Seq<T> {
    Seq::new(n, |j: int| product_entry(values, n, r, j as nat))
}

/// All rows of the cartesian product of `values` with itself `n` times, last column
/// varying fastest.
pub open spec fn product_rows<T>(values: Seq<T>, n: nat) -> Seq<Seq<T>> {
    Seq::new(pow_nat(values.len(), n), |r: int| product_row(values, n, r as nat))
}

/// A reference M2L vector: its first entry is at least 2 and its entries never increase.
pub open spec fn is_reference_vector(v: Seq<i32>) -> bool {
    v[0] >= 2 && forall|i: int| 1 <= i < v.len() ==> #[trigger] v[i] <= v[i - 1]
}

/// `is_reference_vector` as a predicate value.
pub open spec fn reference_filter() -> spec_fn(Seq<i32>) -> bool {
    |v: Seq<i32>| is_reference_vector(v)
}

/// The reference M2L vectors in `n` dimensions, in cartesian-product order.
pub open spec fn reference_m2l_vectors(n: nat) -> Seq<Seq<i32>> {
    product_rows(reference_axis_values(), n).filter(reference_filter())
}

fn axis_values(lo: i32, hi: i32) -> (values: Vec<i32>)
    requires
        lo <= hi,
    ensures
        values@.len() == hi - lo,
        forall|k: int| 0 <= k < values@.len() ==> values@[k] == lo + k,
{
    let mut values: Vec<i32> = Vec::new();
    let mut v: i32 = lo;
    while v < hi
        invariant
            lo <= v <= hi,
            values@.len() == v - lo,
            forall|k: int| 0 <= k < values@.len() ==> values@[k] == lo + k,
        decreases hi - v,
    {
        values.push(v);
        v = v + 1;
    }
    values
}

/// Whether a row is a reference M2L vector.
fn is_reference_row(row: &Vec<i32>) -> (valid: bool)
    requires
        row.len() >= 1,
    ensures
        valid == is_reference_vector(row@),
{
    let d = row.len();
    let mut valid = row[0] >= 2;
    let mut i: usize = 1;
    while i < d && valid
        invariant
            1 <= i <= d,
            d == row.len(),
            valid ==> row[0] >= 2,
            valid ==> forall|k: int| 1 <= k < i ==> #[trigger] row[k] <= row[k - 1],
            !valid ==> !is_reference_vector(row@),
        decreases d - i,
    {
        if row[i] > row[i - 1] {
            valid = false;
        }
        i = i + 1;
    }
    valid
}

/// Returns all M2L transfer vectors (every vector with entries in `-3..=3`, in
/// cartesian-product order) and the reference M2L vectors (vectors with entries in `0..=3`
/// whose first entry is at least 2 and whose entries never increase).
pub fn get_m2l_vectors(dimensions: &usize) -> (vectors: (Vec<Vec<i32>>, Vec<Vec<i32>>))
    requires
        *dimensions >= 1,
        pow_nat(7, *dimensions as nat) <= usize::MAX,
    ensures
        rows_view(vectors.0@) == product_rows(m2l_axis_values(), *dimensions as nat),
        rows_view(vectors.1@) == reference_m2l_vectors(*dimensions as nat),
{
    let d = *dimensions;
    let ghost n = d as nat;
    let vector_range = axis_values(-3, 4);
    assert(vector_range@ =~= m2l_axis_values());
    let all_m2l_vectors = cartesian_product(&vector_range, d);
    assert(rows_view(all_m2l_vectors@) =~= product_rows(m2l_axis_values(), n)) by {
        assert forall|r: int| 0 <= r < all_m2l_vectors@.len() implies #[trigger] all_m2l_vectors@[r]@
            =~= product_row(m2l_axis_values(), n, r as nat) by {
            assert(all_m2l_vectors[r].len() == d);
        }
    }
    let base_vector_range = axis_values(0, 4);
    assert(base_vector_range@ =~= reference_axis_values());
    proof {
        lemma_pow_monotone(4, n, n);
        assert(pow_nat(4, n) <= pow_nat(7, n)) by {
            lemma_pow_base_monotone(4, 7, n);
        }
    }
    let base_vectors = cartesian_product(&base_vector_range, d);
    let ghost base_rows = product_rows(reference_axis_values(), n);
    assert(rows_view(base_vectors@) =~= base_rows) by {
        assert forall|r: int| 0 <= r < base_vectors@.len() implies #[trigger] base_vectors@[r]@
            =~= product_row(reference_axis_values(), n, r as nat) by {
            assert(base_vectors[r].len() == d);
        }
    }
    let ghost pred = reference_filter();
    let mut reference_m2l_vectors: Vec<Vec<i32>> = Vec::new();
    let mut r: usize = 0;
    while r < base_vectors.len()
        invariant
            r <= base_vectors.len(),
            d == *dimensions,
            d >= 1,
            n == d as nat,
            rows_view(base_vectors@) == base_rows,
            base_rows == product_rows(reference_axis_values(), n),
            pred == reference_filter(),
            forall|k: int| 0 <= k < base_vectors.len() ==> #[trigger] base_vectors[k].len() == d,
            rows_view(reference_m2l_vectors@) == base_rows.take(r as int).filter(pred),
        decreases base_vectors.len() - r,
    {
        let row = &base_vectors[r];
        assert(base_vectors[r as int].len() == d);
        assert(row@ == base_rows[r as int]);
        let valid = is_reference_row(row);
        let ghost prev = reference_m2l_vectors@;
        if valid {
            reference_m2l_vectors.push(row.clone());
        }
        proof {
            lemma_filter_take_step(base_rows, pred, r as int);
            assert(rows_view(reference_m2l_vectors@) =~= base_rows.take(r as int + 1).filter(pred));
        }
        r = r + 1;
    }
    assert(base_rows.take(r as int) =~= base_rows);
    (all_m2l_vectors, reference_m2l_vectors)
}

/// For a larger base, each power is at least as large.
pub proof fn lemma_pow_base_monotone(b1: nat, b2: nat, e: nat)
    requires
        b1 <= b2,
    ensures
        pow_nat(b1, e) <= pow_nat(b2, e),
    decreases e,
{
    if e > 0 {
        lemma_pow_base_monotone(b1, b2, (e - 1) as nat);
        assert(b1 * pow_nat(b1, (e - 1) as nat) <= b2 * pow_nat(b2, (e - 1) as nat))
            by (nonlinear_arith)
            requires
                b1 <= b2,
                pow_nat(b1, (e - 1) as nat) <= pow_nat(b2, (e - 1) as nat),
        ;
    }
}

/// The base-7 digit read from an entry of an M2L vector: the entry plus three, taken as a
/// `u32`, so that an entry below `-3` wraps around.
pub open spec fn transfer_digit(x: i32) -> int {
    if x >= -3 {
        x + 3
    } else {
        x + 3 + 0x1_0000_0000
    }
}

/// The sum of the first `k` weighted digits of an M2L vector: the digit of entry `i`
/// times `7^(d-1-i)`.
pub open spec fn transfer_index_sum(v: Seq<i32>, d: nat, k: nat) -> int
    decreases k,
{
    if k == 0 {
        0
    } else {
        transfer_index_sum(v, d, (k - 1) as nat) + pow_nat(7, (d - k) as nat) * transfer_digit(
            v[k - 1],
        )
    }
}

/// The index of the M2L operator for the vector `v` between two cells in `d` dimensions:
/// the entries plus three read as base-7 digits, most significant first. Only the first
/// `d` entries count.
pub open spec fn m2l_transfer_index(v: Seq<i32>, d: nat) -> int {
    transfer_index_sum(v, d, if v.len() < d { v.len() } else { d })
}

/// Each counted entry's digit and weighted digit fit the integer types that hold them:
/// the entry plus three fits an `i32`, and the power of seven and its product with the
/// digit fit a `u32`.
pub open spec fn transfer_terms_fit(v: Seq<i32>, d: nat) -> bool {
    forall|i: int|
        0 <= i < v.len() && i < d ==> {
            &&& #[trigger] v[i] <= i32::MAX - 3
            &&& pow_nat(7, (d - 1 - i) as nat) <= u32::MAX
            &&& pow_nat(7, (d - 1 - i) as nat) * transfer_digit(v[i]) <= u32::MAX
        }
}

/// The weighted digit sums never decrease as more digits are added.
proof fn lemma_transfer_index_sum_monotone(v: Seq<i32>, d: nat, k: nat, m: nat)
    requires
        k <= m,
    ensures
        transfer_index_sum(v, d, k) <= transfer_index_sum(v, d, m),
    decreases m,
{
    if k < m {
        lemma_transfer_index_sum_monotone(v, d, k, (m - 1) as nat);
        let p = pow_nat(7, (d - m) as nat);
        let g = transfer_digit(v[m - 1]);
        assert(0 <= p * g) by (nonlinear_arith)
            requires
                0 <= p,
                0 <= g,
        ;
    }
}

/// Computes the index of the M2L operator for the vector between two cells.
pub fn calculate_m2l_transfer_index(dimensions: usize, vector_between_cell: &[i32]) -> (index:
    usize)
    requires
        dimensions <= u32::MAX,
        transfer_terms_fit(vector_between_cell@, dimensions as nat),
        m2l_transfer_index(vector_between_cell@, dimensions as nat) <= usize::MAX,
    ensures
        index == m2l_transfer_index(vector_between_cell@, dimensions as nat),
{
    let d = dimensions;
    let ghost n = d as nat;
    let m = if vector_between_cell.len() < d {
        vector_between_cell.len()
    } else {
        d
    };
    let mut index: usize = 0;
    let mut i: usize = 0;
    while i < m
        invariant
            i <= m,
            m <= d,
            m <= vector_between_cell.len(),
            n == d as nat,
            m == (if vector_between_cell@.len() < n { vector_between_cell@.len() } else { n }),
            transfer_terms_fit(vector_between_cell@, n),
            m2l_transfer_index(vector_between_cell@, n) <= usize::MAX,
            index == transfer_index_sum(vector_between_cell@, n, i as nat),
        decreases m - i,
    {
        proof {
            lemma_transfer_index_sum_monotone(vector_between_cell@, n, (i + 1) as nat, m as nat);
        }
        assert(vector_between_cell@[i as int] <= i32::MAX - 3);
        let p = d - 1 - i;
        assert(pow_nat(7, p as nat) <= u32::MAX);
        let power = pow_usize(7, p);
        let x = vector_between_cell[i] + 3;
        let digit: u32 = if x >= 0 {
            x as u32
        } else {
            (x as i64 + 4294967296i64) as u32
        };
        assert(digit == transfer_digit(vector_between_cell@[i as int]));
        assert((d - (i + 1)) as nat == p as nat);
        let term: u32 = (power as u32) * digit;
        index = index + term as usize;
        i = i + 1;
    }
    index
}

/// Entry `k` of the axis offsets `-3..=3` is `k - 3`.
proof fn lemma_m2l_axis_value(k: int)
    requires
        0 <= k < 7,
    ensures
        m2l_axis_values()[k] == k - 3,
{
    assert(m2l_axis_values()[0] == -3i32);
    assert(m2l_axis_values()[1] == -2i32);
    assert(m2l_axis_values()[2] == -1i32);
    assert(m2l_axis_values()[3] == 0i32);
    assert(m2l_axis_values()[4] == 1i32);
    assert(m2l_axis_values()[5] == 2i32);
    assert(m2l_axis_values()[6] == 3i32);
}

/// The first `k` digits of row `r` of the M2L table add up to `r` with its last `d - k`
/// base-7 digits cleared.
#[verifier::spinoff_prover]
proof fn lemma_transfer_index_prefix(d: nat, r: nat, k: nat)
    requires
        k <= d,
        r < pow_nat(7, d),
    ensures
        transfer_index_sum(product_row(m2l_axis_values(), d, r), d, k) == (r / pow_nat(
            7,
            (d - k) as nat,
        )) * pow_nat(7, (d - k) as nat),
    decreases k,
{
    let row = product_row(m2l_axis_values(), d, r);
    if k == 0 {
        assert(r / pow_nat(7, d) == 0) by {
            vstd::arithmetic::div_mod::lemma_basic_div(r as int, pow_nat(7, d) as int);
        }
        assert((d - k) as nat == d);
        assert(transfer_index_sum(row, d, 0) == 0);
        assert(0 * pow_nat(7, d) == 0);
    } else {
        lemma_transfer_index_prefix(d, r, (k - 1) as nat);
        let prev = transfer_index_sum(row, d, (k - 1) as nat);
        let e = (d - k) as nat;
        let p = pow_nat(7, e);
        let q = pow_nat(7, (e + 1) as nat);
        assert((d - (k - 1)) as nat == e + 1);
        assert(q == 7 * p);
        lemma_pow_positive(7, e);
        let quotient = r / p;
        let digit = (quotient % 7) as int;
        assert(m2l_axis_values().len() == 7);
        assert(row[k - 1] == m2l_axis_values()[digit]);
        lemma_m2l_axis_value(digit);
        assert(row[k - 1] + 3 == digit);
        vstd::arithmetic::div_mod::lemma_div_denominator(r as int, p as int, 7);
        assert(p * 7 == q) by (nonlinear_arith)
            requires
                q == 7 * p,
        ;
        assert(r / q == quotient / 7);
        vstd::arithmetic::div_mod::lemma_fundamental_div_mod(quotient as int, 7);
        assert((quotient / 7) * q + p * digit == quotient * p) by (nonlinear_arith)
            requires
                q == 7 * p,
                quotient == 7 * (quotient / 7) + digit,
        ;
        assert(prev == (r / q) * q);
        assert(transfer_digit(row[k - 1]) == digit);
        assert(transfer_index_sum(row, d, k) == prev + p * digit);
        assert(transfer_index_sum(row, d, k) == quotient * p);
        assert(pow_nat(7, (d - k) as nat) == p);
        assert(transfer_index_sum(row, d, k) == (r / pow_nat(7, (d - k) as nat)) * pow_nat(
            7,
            (d - k) as nat,
        ));
    }
}

/// Reading an M2L vector's entries as base-7 digits gives back its row in the table of
/// all M2L vectors: the operator index of each transfer vector is its position there.
pub proof fn lemma_transfer_index_of_m2l_vector(d: nat, r: nat)
    requires
        r < pow_nat(7, d),
    ensures
        m2l_transfer_index(product_rows(m2l_axis_values(), d)[r as int], d) == r,
{
    lemma_transfer_index_prefix(d, r, d);
    let row = product_row(m2l_axis_values(), d, r);
    assert(pow_nat(7, 0) == 1);
    assert((d - d) as nat == 0);
    assert(r / 1 == r);
    assert(row.len() == d);
    assert(m2l_transfer_index(row, d) == transfer_index_sum(row, d, d));
    assert(product_rows(m2l_axis_values(), d)[r as int] == row);
}

/// Whether two value lists are equal.
fn same_values(a: &Vec<i32>, b: &Vec<i32>) -> (r: bool)
    ensures
        r == (a@ == b@),
{
    if a.len() != b.len() {
        return false;
    }
    let mut i: usize = 0;
    while i < a.len()
        invariant
            i <= a.len(),
            a.len() == b.len(),
            forall|k: int| 0 <= k < i ==> a[k] == b[k],
        decreases a.len() - i,
    {
        if a[i] != b[i] {
            return false;
        }
        i = i + 1;
    }
    assert(a@ =~= b@);
    true
}

/// The position of the first row equal to `case`, if any.
fn find_first_index_row(rows: &[Vec<usize>], case: &Vec<usize>) -> (found: Option<usize>)
    ensures
        match found {
            Some(k) => first_match(rows_view(rows@), case@, rows@.len()) == Some(k as nat),
            None => first_match(rows_view(rows@), case@, rows@.len()) is None,
        },
{
    let ghost view = rows_view(rows@);
    let mut idx: usize = 0;
    while idx < rows.len()
        invariant
            idx <= rows.len(),
            view == rows_view(rows@),
            first_match(view, case@, idx as nat) is None,
        decreases rows.len() - idx,
    {
        assert(view[idx as int] == rows[idx as int]@);
        if same_indices(&rows[idx], case) {
            proof {
                lemma_first_match_stable(view, case@, (idx + 1) as nat, rows@.len());
            }
            return Some(idx);
        }
        idx = idx + 1;
    }
    None
}

/// The position of the first row equal to `case`, if any.
fn find_first_value_row(rows: &[Vec<i32>], case: &Vec<i32>) -> (found: Option<usize>)
    ensures
        match found {
            Some(k) => first_match(rows_view(rows@), case@, rows@.len()) == Some(k as nat),
            None => first_match(rows_view(rows@), case@, rows@.len()) is None,
        },
{
    let ghost view = rows_view(rows@);
    let mut idx: usize = 0;
    while idx < rows.len()
        invariant
            idx <= rows.len(),
            view == rows_view(rows@),
            first_match(view, case@, idx as nat) is None,
        decreases rows.len() - idx,
    {
        assert(view[idx as int] == rows[idx as int]@);
        if same_values(&rows[idx], case) {
            proof {
                lemma_first_match_stable(view, case@, (idx + 1) as nat, rows@.len());
            }
            return Some(idx);
        }
        idx = idx + 1;
    }
    None
}

/// The sign pattern of a vector: `-1` for each negative entry, `1` otherwise.
pub open spec fn axis_flips(v: Seq<i32>) -> Seq<i32> {
    Seq::new(v.len(), |i: int| if v[i] < 0 { -1i32 } else { 1i32 })
}

/// Finds, for each M2L vector, the first axis sign permutation equal to its sign pattern
/// (vectors without one are skipped).
pub fn lookup_axial_permutation_cases(
    axis_sign_permutations: &[Vec<i32>],
    all_m2l_vectors: &[Vec<i32>],
) -> (matching_indices: Vec<usize>)
    ensures
        matching_indices@ == combined_lookups(
            Seq::new(all_m2l_vectors@.len(), |g: int| axis_flips(all_m2l_vectors@[g]@)),
            rows_view(axis_sign_permutations@),
            all_m2l_vectors@.len(),
        ),
{
    let ghost cases = Seq::new(all_m2l_vectors@.len(), |g: int| axis_flips(all_m2l_vectors@[g]@));
    let ghost rows = rows_view(axis_sign_permutations@);
    let mut matching_indices: Vec<usize> = Vec::new();
    let mut g: usize = 0;
    while g < all_m2l_vectors.len()
        invariant
            g <= all_m2l_vectors.len(),
            cases == Seq::new(all_m2l_vectors@.len(), |g: int| axis_flips(all_m2l_vectors@[g]@)),
            rows == rows_view(axis_sign_permutations@),
            matching_indices@ == combined_lookups(cases, rows, g as nat),
        decreases all_m2l_vectors.len() - g,
    {
        let vector = &all_m2l_vectors[g];
        let mut flip_axes: Vec<i32> = Vec::new();
        let mut i: usize = 0;
        while i < vector.len()
            invariant
                i <= vector.len(),
                flip_axes@.len() == i,
                forall|k: int| 0 <= k < i ==> flip_axes@[k] == axis_flips(vector@)[k],
            decreases vector.len() - i,
        {
            let sign: i32 = if vector[i] < 0 {
                -1
            } else {
                1
            };
            flip_axes.push(sign);
            i = i + 1;
        }
        assert(flip_axes@ =~= cases[g as int]);
        let found = find_first_value_row(axis_sign_permutations, &flip_axes);
        match found {
            Some(idx) => {
                matching_indices.push(idx);
            },
            None => {},
        }
        g = g + 1;
    }
    matching_indices
}

/// Keys that order the axes of a vector by decreasing magnitude: each entry's negated
/// absolute value.
pub open spec fn negated_magnitudes(v: Seq<i32>) -> Seq<i64> {
    Seq::new(v.len(), |i: int| (if v[i] < 0 { v[i] as int } else { -(v[i] as int) }) as i64)
}

/// The axes of a vector ordered by decreasing magnitude, ties in axis order.
pub open spec fn sorted_axes(v: Seq<i32>) -> Seq<usize> {
    stable_argsort(negated_magnitudes(v))
}

/// Finds, for each M2L vector, the first axis order permutation equal to its axes sorted by
/// decreasing magnitude (vectors without one are skipped).
pub fn lookup_diagonal_permutation_cases(
    axis_order_permutations: &[Vec<usize>],
    all_m2l_vectors: &[Vec<i32>],
) -> (matching_indices: Vec<usize>)
    requires
        forall|g: int, i: int|
            0 <= g < all_m2l_vectors@.len() && 0 <= i < all_m2l_vectors@[g]@.len()
                ==> #[trigger] all_m2l_vectors@[g]@[i] > i32::MIN,
    ensures
        matching_indices@ == combined_lookups(
            Seq::new(all_m2l_vectors@.len(), |g: int| sorted_axes(all_m2l_vectors@[g]@)),
            rows_view(axis_order_permutations@),
            all_m2l_vectors@.len(),
        ),
{
    let ghost cases = Seq::new(all_m2l_vectors@.len(), |g: int| sorted_axes(all_m2l_vectors@[g]@));
    let ghost rows = rows_view(axis_order_permutations@);
    let mut matching_indices: Vec<usize> = Vec::new();
    let mut g: usize = 0;
    while g < all_m2l_vectors.len()
        invariant
            g <= all_m2l_vectors.len(),
            cases == Seq::new(all_m2l_vectors@.len(), |g: int| sorted_axes(all_m2l_vectors@[g]@)),
            rows == rows_view(axis_order_permutations@),
            matching_indices@ == combined_lookups(cases, rows, g as nat),
        decreases all_m2l_vectors.len() - g,
    {
        let vector = &all_m2l_vectors[g];
        let mut keys: Vec<i64> = Vec::new();
        let mut i: usize = 0;
        while i < vector.len()
            invariant
                i <= vector.len(),
                keys@.len() == i,
                forall|k: int| 0 <= k < i ==> keys@[k] == negated_magnitudes(vector@)[k],
            decreases vector.len() - i,
        {
            let a = vector[i] as i64;
            let key: i64 = if a < 0 {
                a
            } else {
                -a
            };
            keys.push(key);
            i = i + 1;
        }
        assert(keys@ =~= negated_magnitudes(vector@));
        let sort_axes = argsort(&keys);
        assert(sort_axes@ == cases[g as int]);
        let found = find_first_index_row(axis_order_permutations, &sort_axes);
        match found {
            Some(idx) => {
                matching_indices.push(idx);
            },
            None => {},
        }
        g = g + 1;
    }
    matching_indices
}

/// The absolute values of a vector's entries.
pub open spec fn magnitudes(v: Seq<i32>) -> Seq<i32> {
    Seq::new(v.len(), |i: int| (if v[i] < 0 { -(v[i] as int) } else { v[i] as int }) as i32)
}

/// The position of the reference vector holding the same values (in any order) as the
/// magnitudes of `v`: the first one whose sorted entries equal the sorted magnitudes, or
/// zero when there is none.
pub open spec fn reference_position(v: Seq<i32>, reference_m2l_vectors: Seq<Seq<i32>>) -> usize {
    let sorted_references = Seq::new(
        reference_m2l_vectors.len(),
        |k: int| reference_m2l_vectors[k].sort_by(value_leq()),
    );
    match first_match(
        sorted_references,
        magnitudes(v).sort_by(value_leq()),
        reference_m2l_vectors.len(),
    ) {
        Some(k) => k as usize,
        None => 0,
    }
}

/// A vector and the reference vector it is matched to hold the same magnitudes, each as
/// often: the M2L vector is a signed permutation of its reference vector.
pub proof fn lemma_reference_match_same_magnitudes(
    v: Seq<i32>,
    reference_m2l_vectors: Seq<Seq<i32>>,
    k: nat,
)
    requires
        first_match(
            Seq::new(
                reference_m2l_vectors.len(),
                |t: int| reference_m2l_vectors[t].sort_by(value_leq()),
            ),
            magnitudes(v).sort_by(value_leq()),
            reference_m2l_vectors.len(),
        ) == Some(k),
    ensures
        k < reference_m2l_vectors.len(),
        magnitudes(v).to_multiset() == reference_m2l_vectors[k as int].to_multiset(),
{
    let sorted = Seq::new(
        reference_m2l_vectors.len(),
        |t: int| reference_m2l_vectors[t].sort_by(value_leq()),
    );
    lemma_first_match_found(sorted, magnitudes(v).sort_by(value_leq()), reference_m2l_vectors.len(), k);
    magnitudes(v).lemma_sort_by_ensures(value_leq());
    reference_m2l_vectors[k as int].lemma_sort_by_ensures(value_leq());
}

/// A first match is a position among the rows searched, holding the case.
proof fn lemma_first_match_found<T>(rows: Seq<Seq<T>>, case: Seq<T>, n: nat, k: nat)
    requires
        first_match(rows, case, n) == Some(k),
    ensures
        k < n,
        rows[k as int] == case,
    decreases n,
{
    if n > 0 {
        match first_match(rows, case, (n - 1) as nat) {
            Some(j) => {
                lemma_first_match_found(rows, case, (n - 1) as nat, k);
            },
            None => {},
        }
    }
}

/// Finds, for each M2L vector, the index of the reference vector it is a signed
/// permutation of (zero when there is none).
pub fn lookup_reference_vectors(
    all_m2l_vectors: &[Vec<i32>],
    reference_m2l_vectors: &[Vec<i32>],
) -> (matching_indices: Vec<usize>)
    requires
        forall|g: int, i: int|
            0 <= g < all_m2l_vectors@.len() && 0 <= i < all_m2l_vectors@[g]@.len()
                ==> #[trigger] all_m2l_vectors@[g]@[i] > i32::MIN,
    ensures
        matching_indices@.len() == all_m2l_vectors@.len(),
        forall|g: int|
            0 <= g < all_m2l_vectors@.len() ==> #[trigger] matching_indices@[g]
                == reference_position(all_m2l_vectors@[g]@, rows_view(reference_m2l_vectors@)),
{
    let ghost refs = rows_view(reference_m2l_vectors@);
    let mut sorted_reference_vectors: Vec<Vec<i32>> = Vec::new();
    let mut k: usize = 0;
    while k < reference_m2l_vectors.len()
        invariant
            k <= reference_m2l_vectors.len(),
            refs == rows_view(reference_m2l_vectors@),
            sorted_reference_vectors@.len() == k,
            forall|t: int|
                0 <= t < k ==> #[trigger] sorted_reference_vectors@[t]@ == refs[t].sort_by(
                    value_leq(),
                ),
        decreases reference_m2l_vectors.len() - k,
    {
        let row = sorted_copy(&reference_m2l_vectors[k]);
        sorted_reference_vectors.push(row);
        k = k + 1;
    }
    let ghost sorted_refs = Seq::new(refs.len(), |t: int| refs[t].sort_by(value_leq()));
    assert(rows_view(sorted_reference_vectors@) =~= sorted_refs);
    let mut matching_indices: Vec<usize> = Vec::new();
    let mut g: usize = 0;
    while g < all_m2l_vectors.len()
        invariant
            g <= all_m2l_vectors.len(),
            refs == rows_view(reference_m2l_vectors@),
            rows_view(sorted_reference_vectors@) == sorted_refs,
            sorted_refs == Seq::new(refs.len(), |t: int| refs[t].sort_by(value_leq())),
            sorted_reference_vectors@.len() == refs.len(),
            forall|g: int, i: int|
                0 <= g < all_m2l_vectors@.len() && 0 <= i < all_m2l_vectors@[g]@.len()
                    ==> #[trigger] all_m2l_vectors@[g]@[i] > i32::MIN,
            matching_indices@.len() == g,
            forall|h: int|
                0 <= h < g ==> #[trigger] matching_indices@[h] == reference_position(
                    all_m2l_vectors@[h]@,
                    refs,
                ),
        decreases all_m2l_vectors.len() - g,
    {
        let vector = &all_m2l_vectors[g];
        let mut abs_values: Vec<i32> = Vec::new();
        let mut i: usize = 0;
        while i < vector.len()
            invariant
                i <= vector.len(),
                vector@ == all_m2l_vectors@[g as int]@,
                g < all_m2l_vectors@.len(),
                forall|g: int, i: int|
                    0 <= g < all_m2l_vectors@.len() && 0 <= i < all_m2l_vectors@[g]@.len()
                        ==> #[trigger] all_m2l_vectors@[g]@[i] > i32::MIN,
                abs_values@.len() == i,
                forall|t: int| 0 <= t < i ==> abs_values@[t] == magnitudes(vector@)[t],
            decreases vector.len() - i,
        {
            assert(all_m2l_vectors@[g as int]@[i as int] > i32::MIN);
            let a = vector[i];
            let m: i32 = if a < 0 {
                -a
            } else {
                a
            };
            abs_values.push(m);
            i = i + 1;
        }
        assert(abs_values@ =~= magnitudes(vector@));
        let transfer_vec = sorted_copy(&abs_values);
        let found = find_first_value_row(&sorted_reference_vectors, &transfer_vec);
        let index = match found {
            Some(idx) => idx,
            None => 0,
        };
        matching_indices.push(index);
        g = g + 1;
    }
    matching_indices
}

/// A multi-index reflected along the axes where the transfer vector is negative:
/// `alpha_i` becomes `p - (alpha_i - 1)` there.
pub open spec fn axial_permuted(alpha: Seq<usize>, transfer_vector: Seq<i32>, p: int) -> Seq<usize> {
    Seq::new(
        alpha.len(),
        |i: int|
            if transfer_vector[i] < 0 {
                (p - (alpha[i] - 1)) as usize
            } else {
                alpha[i]
            },
    )
}

/// Whether the axial reflection of `alpha` stays within `usize` arithmetic: the transfer
/// vector covers `alpha`, and each reflected entry lies in `1..=p + 1`.
pub open spec fn axial_permutable(alpha: Seq<usize>, transfer_vector: Seq<i32>, p: int) -> bool {
    &&& transfer_vector.len() >= alpha.len()
    &&& forall|i: int|
        0 <= i < alpha.len() && transfer_vector[i] < 0 ==> 1 <= #[trigger] alpha[i] <= p + 1
}

/// Permutes the multi-index for the axial symmetry case.
pub fn permute_multi_index_axial(
    alpha: &[usize],
    transfer_vector: &[i32],
    interpolation_order: &usize,
) -> (pi_a_t: Vec<usize>)
    requires
        axial_permutable(alpha@, transfer_vector@, *interpolation_order as int),
    ensures
        pi_a_t@ == axial_permuted(alpha@, transfer_vector@, *interpolation_order as int),
{
    let mut pi_a_t: Vec<usize> = Vec::new();
    let mut idx: usize = 0;
    while idx < alpha.len()
        invariant
            idx <= alpha.len(),
            axial_permutable(alpha@, transfer_vector@, *interpolation_order as int),
            pi_a_t@.len() == idx,
            forall|k: int|
                0 <= k < idx ==> pi_a_t@[k] == axial_permuted(
                    alpha@,
                    transfer_vector@,
                    *interpolation_order as int,
                )[k],
        decreases alpha.len() - idx,
    {
        let a_i = alpha[idx];
        let value = if transfer_vector[idx] < 0 {
            *interpolation_order - (a_i - 1)
        } else {
            a_i
        };
        pi_a_t.push(value);
        idx = idx + 1;
    }
    assert(pi_a_t@ =~= axial_permuted(alpha@, transfer_vector@, *interpolation_order as int));
    pi_a_t
}

/// A multi-index with its axes reordered: entry `k` is `alpha[sort_indices[k]]`.
pub open spec fn diagonal_permuted(alpha: Seq<usize>, sort_indices: Seq<usize>) -> Seq<usize> {
    Seq::new(sort_indices.len(), |k: int| alpha[sort_indices[k] as int])
}

/// Permutes the multi-index for the diagonal symmetry case.
pub fn permute_multi_index_diagonal(alpha: &[usize], sort_indices: &[usize]) -> (permuted: Vec<
    usize,
>)
    requires
        forall|k: int| 0 <= k < sort_indices.len() ==> #[trigger] sort_indices[k] < alpha.len(),
    ensures
        permuted@ == diagonal_permuted(alpha@, sort_indices@),
{
    let mut permuted: Vec<usize> = Vec::new();
    let mut k: usize = 0;
    while k < sort_indices.len()
        invariant
            k <= sort_indices.len(),
            forall|t: int| 0 <= t < sort_indices.len() ==> #[trigger] sort_indices[t] < alpha.len(),
            permuted@.len() == k,
            forall|t: int| 0 <= t < k ==> permuted@[t] == alpha[sort_indices[t] as int],
        decreases sort_indices.len() - k,
    {
        permuted.push(alpha[sort_indices[k]]);
        k = k + 1;
    }
    assert(permuted@ =~= diagonal_permuted(alpha@, sort_indices@));
    permuted
}

/// The permuted multi-index for either symmetry case.
pub open spec fn symmetry_permuted(
    alpha: Seq<usize>,
    transfer_vector: Option<Seq<i32>>,
    sort_indices: Option<Seq<usize>>,
    p: int,
    diagonal: bool,
) -> Seq<usize> {
    if diagonal {
        diagonal_permuted(alpha, sort_indices.unwrap())
    } else {
        axial_permuted(alpha, transfer_vector.unwrap(), p)
    }
}

/// The matrix position that multi-index `j` is sent to by a symmetry.
pub open spec fn symmetry_position(
    multi_indices: Seq<Seq<usize>>,
    transfer_vector: Option<Seq<i32>>,
    sort_indices: Option<Seq<usize>>,
    p: int,
    diagonal: bool,
    j: int,
) -> int {
    multi_index_position(
        symmetry_permuted(multi_indices[j], transfer_vector, sort_indices, p, diagonal),
        p,
    )
}

/// The table filled by recording, for the first `j` multi-indices in turn, index `j` at
/// the position its permuted multi-index is sent to; unfilled entries are zero.
pub open spec fn permutation_table(
    multi_indices: Seq<Seq<usize>>,
    transfer_vector: Option<Seq<i32>>,
    sort_indices: Option<Seq<usize>>,
    p: int,
    diagonal: bool,
    j: nat,
) -> Seq<usize>
    decreases j,
{
    if j == 0 {
        Seq::new(multi_indices.len(), |i: int| 0usize)
    } else {
        permutation_table(
            multi_indices,
            transfer_vector,
            sort_indices,
            p,
            diagonal,
            (j - 1) as nat,
        ).update(
            symmetry_position(
                multi_indices,
                transfer_vector,
                sort_indices,
                p,
                diagonal,
                j - 1,
            ),
            (j - 1) as usize,
        )
    }
}

/// Whether every multi-index can be permuted and placed: the needed symmetry data is
/// present, the permuted multi-index is non-empty with its first (up to three) entries
/// positive, `p * p` fits where three entries are read, and its position lies inside the
/// table.
pub open spec fn permutation_table_defined(
    multi_indices: Seq<Seq<usize>>,
    transfer_vector: Option<Seq<i32>>,
    sort_indices: Option<Seq<usize>>,
    p: int,
    diagonal: bool,
) -> bool {
    &&& diagonal ==> sort_indices is Some
    &&& !diagonal ==> transfer_vector is Some
    &&& forall|j: int|
        0 <= j < multi_indices.len() ==> {
            let alpha = #[trigger] multi_indices[j];
            let permuted = symmetry_permuted(alpha, transfer_vector, sort_indices, p, diagonal);
            &&& diagonal ==> forall|k: int|
                0 <= k < sort_indices.unwrap().len() ==> #[trigger] sort_indices.unwrap()[k]
                    < alpha.len()
            &&& !diagonal ==> axial_permutable(alpha, transfer_vector.unwrap(), p)
            &&& permuted.len() >= 1
            &&& forall|c: int| 0 <= c < permuted.len() && c < 3 ==> #[trigger] permuted[c] >= 1
            &&& permuted.len() >= 3 ==> p * p <= usize::MAX
            &&& 0 <= multi_index_position(permuted, p) < multi_indices.len()
        }
}

/// Computes permutation indices that map a permuted multi-index to the rows and columns
/// of the interpolation matrix: entry `i` holds the last multi-index sent to position `i`.
pub fn calculate_diagonal_axial_permutation_indices(
    transfer_vector: Option<&[i32]>,
    sort_indices: Option<&[usize]>,
    interpolation_order: &usize,
    multi_indices: &[Vec<usize>],
    diagonal: bool,
) -> (permutation_indices: Vec<usize>)
    requires
        permutation_table_defined(
            rows_view(multi_indices@),
            match transfer_vector {
                Some(t) => Some(t@),
                None => None,
            },
            match sort_indices {
                Some(t) => Some(t@),
                None => None,
            },
            *interpolation_order as int,
            diagonal,
        ),
    ensures
        permutation_indices@ == permutation_table(
            rows_view(multi_indices@),
            match transfer_vector {
                Some(t) => Some(t@),
                None => None,
            },
            match sort_indices {
                Some(t) => Some(t@),
                None => None,
            },
            *interpolation_order as int,
            diagonal,
            multi_indices@.len(),
        ),
{
    let ghost tv = match transfer_vector {
        Some(t) => Some(t@),
        None => None,
    };
    let ghost si = match sort_indices {
        Some(t) => Some(t@),
        None => None,
    };
    let ghost rows = rows_view(multi_indices@);
    let ghost p = *interpolation_order as int;
    let size = multi_indices.len();
    let mut permutation_indices: Vec<usize> = Vec::new();
    let mut z: usize = 0;
    while z < size
        invariant
            z <= size,
            size == multi_indices.len(),
            permutation_indices@.len() == z,
            forall|t: int| 0 <= t < z ==> permutation_indices@[t] == 0,
        decreases size - z,
    {
        permutation_indices.push(0);
        z = z + 1;
    }
    assert(permutation_indices@ =~= permutation_table(rows, tv, si, p, diagonal, 0));
    let mut j: usize = 0;
    while j < size
        invariant
            j <= size,
            size == multi_indices.len(),
            rows == rows_view(multi_indices@),
            tv == match transfer_vector {
                Some(t) => Some(t@),
                None => None,
            },
            si == match sort_indices {
                Some(t) => Some(t@),
                None => None,
            },
            p == *interpolation_order as int,
            permutation_table_defined(rows, tv, si, p, diagonal),
            permutation_indices@ == permutation_table(rows, tv, si, p, diagonal, j as nat),
            permutation_indices@.len() == size,
        decreases size - j,
    {
        let alpha = &multi_indices[j];
        assert(alpha@ == rows[j as int]);
        let alpha_prime = if diagonal {
            match sort_indices {
                Some(order) => permute_multi_index_diagonal(alpha, order),
                None => {
                    assert(false);
                    Vec::new()
                },
            }
        } else {
            match transfer_vector {
                Some(vector) => permute_multi_index_axial(alpha, vector, interpolation_order),
                None => {
                    assert(false);
                    Vec::new()
                },
            }
        };
        assert(alpha_prime@ == symmetry_permuted(rows[j as int], tv, si, p, diagonal));
        assert(0 <= multi_index_position(alpha_prime@, p) < rows.len());
        let i = map_multi_index_to_k(&alpha_prime, interpolation_order);
        permutation_indices.set(i, j);
        j = j + 1;
    }
    permutation_indices
}

/// Whether `q` lists each of `0..n` exactly once.
pub open spec fn is_range_permutation(q: Seq<usize>, n: nat) -> bool {
    &&& q.len() == n
    &&& forall|i: int| 0 <= i < n ==> #[trigger] q[i] < n
    &&& forall|i: int, j: int| 0 <= i < j < n ==> q[i] != q[j]
}

/// Whether `a` comes before `b` in lexicographic order: at the first position where they
/// differ, `a` holds the smaller value.
pub open spec fn lex_before(a: Seq<usize>, b: Seq<usize>) -> bool {
    exists|i: int|
        0 <= i < a.len() && i < b.len() && a.take(i) == b.take(i) && #[trigger] a[i] < b[i]
}

/// Whether `s` lists every ordering of `0..n`, and nothing else, in strictly increasing
/// lexicographic order.
pub open spec fn is_lex_listing(s: Seq<Seq<usize>>, n: nat) -> bool {
    &&& forall|k: int| 0 <= k < s.len() ==> is_range_permutation(#[trigger] s[k], n)
    &&& forall|q: Seq<usize>| is_range_permutation(q, n) ==> #[trigger] s.contains(q)
    &&& forall|j: int, k: int| 0 <= j < k < s.len() ==> lex_before(#[trigger] s[j], #[trigger] s[k])
}

/// The orderings of `0..n` in increasing lexicographic order.
pub open spec fn range_permutations(n: nat) -> Seq<Seq<usize>> {
    choose|s: Seq<Seq<usize>>| is_lex_listing(s, n)
}

/// No sequence comes before another and after it too.
proof fn lemma_lex_before_asymmetric(a: Seq<usize>, b: Seq<usize>)
    requires
        lex_before(a, b),
    ensures
        !lex_before(b, a),
{
    if lex_before(b, a) {
        let i = choose|i: int|
            0 <= i < a.len() && i < b.len() && a.take(i) == b.take(i) && #[trigger] a[i] < b[i];
        let j = choose|j: int|
            0 <= j < b.len() && j < a.len() && b.take(j) == a.take(j) && #[trigger] b[j] < a[j];
        if i < j {
            assert(a.take(j)[i] == a[i] && b.take(j)[i] == b[i]);
        } else if j < i {
            assert(a.take(i)[j] == a[j] && b.take(i)[j] == b[j]);
        }
    }
}

/// Two different sequences of one length agreeing on their first `k` entries are ordered
/// one way or the other.
proof fn lemma_lex_total(a: Seq<usize>, b: Seq<usize>, k: int)
    requires
        a.len() == b.len(),
        a != b,
        0 <= k <= a.len(),
        a.take(k) == b.take(k),
    ensures
        lex_before(a, b) || lex_before(b, a),
    decreases a.len() - k,
{
    if k == a.len() {
        assert(a =~= a.take(k));
        assert(b =~= b.take(k));
    } else if a[k] == b[k] {
        assert(a.take(k + 1) =~= b.take(k + 1)) by {
            assert forall|j: int| 0 <= j < k + 1 implies #[trigger] a.take(k + 1)[j] == b.take(k + 1)[j] by {
                if j < k {
                    assert(a.take(k)[j] == b.take(k)[j]);
                }
            }
        }
        lemma_lex_total(a, b, k + 1);
    } else if a[k] < b[k] {
        assert(lex_before(a, b));
    } else {
        assert(b.take(k) == a.take(k));
        assert(lex_before(b, a));
    }
}

/// The ordered listing of the orderings of `0..n` is unique.
proof fn lemma_lex_listing_unique(s: Seq<Seq<usize>>, t: Seq<Seq<usize>>, n: nat)
    requires
        is_lex_listing(s, n),
        is_lex_listing(t, n),
    ensures
        s == t,
{
    assert forall|i: int| 0 <= i < s.len() && i < t.len() implies s[i] == t[i] by {
        lemma_lex_listing_prefix(s, t, n, i);
    }
    lemma_lex_listing_len(s, t, n);
    lemma_lex_listing_len(t, s, n);
    assert(s =~= t);
}

/// Two ordered listings agree up to any position both have.
proof fn lemma_lex_listing_prefix(s: Seq<Seq<usize>>, t: Seq<Seq<usize>>, n: nat, i: int)
    requires
        is_lex_listing(s, n),
        is_lex_listing(t, n),
        0 <= i < s.len(),
        i < t.len(),
    ensures
        s[i] == t[i],
    decreases i,
{
    assert forall|j: int| 0 <= j < i implies s[j] == t[j] by {
        lemma_lex_listing_prefix(s, t, n, j);
    }
    if s[i] != t[i] {
        lemma_lex_listing_step(s, t, n, i);
        lemma_lex_listing_step(t, s, n, i);
        assert(is_range_permutation(s[i], n) && is_range_permutation(t[i], n));
        assert(s[i].take(0) =~= t[i].take(0));
        lemma_lex_total(s[i], t[i], 0);
    }
}

/// If two ordered listings agree before position `i` and differ at `i`, then `s[i]` does
/// not come before `t[i]`.
proof fn lemma_lex_listing_step(s: Seq<Seq<usize>>, t: Seq<Seq<usize>>, n: nat, i: int)
    requires
        is_lex_listing(s, n),
        is_lex_listing(t, n),
        0 <= i < s.len(),
        i < t.len(),
        forall|j: int| 0 <= j < i ==> s[j] == t[j],
        s[i] != t[i],
    ensures
        !lex_before(s[i], t[i]),
{
    if lex_before(s[i], t[i]) {
        assert(is_range_permutation(s[i], n));
        assert(t.contains(s[i]));
        let p = choose|p: int| 0 <= p < t.len() && t[p] == s[i];
        if p < i {
            assert(s[p] == t[p]);
            assert(lex_before(s[p], s[i]));
            let w = choose|w: int|
                0 <= w < s[p].len() && w < s[i].len() && s[p].take(w) == s[i].take(w)
                    && #[trigger] s[p][w] < s[i][w];
        } else {
            assert(p != i);
            assert(lex_before(t[i], t[p]));
            lemma_lex_before_asymmetric(s[i], t[i]);
        }
    }
}

/// An ordered listing is no shorter than another: a longer one would list an ordering
/// that the shorter one leaves out.
proof fn lemma_lex_listing_len(s: Seq<Seq<usize>>, t: Seq<Seq<usize>>, n: nat)
    requires
        is_lex_listing(s, n),
        is_lex_listing(t, n),
    ensures
        t.len() <= s.len(),
{
    if s.len() < t.len() {
        let q = t[s.len() as int];
        assert(is_range_permutation(q, n));
        assert(s.contains(q));
        let p = choose|p: int| 0 <= p < s.len() && s[p] == q;
        lemma_lex_listing_prefix(s, t, n, p);
        assert(lex_before(t[p], t[s.len() as int]));
        let w = choose|w: int|
            0 <= w < t[p].len() && w < q.len() && t[p].take(w) == q.take(w) && #[trigger] t[p][w]
                < q[w];
    }
}

/// Collects `Itertools::permutations` over the range `0..n`, taking all `n` elements.
///
/// The crate documents that every `n`-permutation of the input is produced, each as a
/// vector of length `n`; since the input values are distinct, each is an ordering of
/// `0..n`. Taking all elements of an increasing input, its cycle-based generator yields
/// them in increasing lexicographic order, as the crate's example shows.
#[verifier::external_body]
fn collect_range_permutations(n: usize) -> (perms: Vec<Vec<usize>>)
    ensures
        forall|k: int|
            0 <= k < perms@.len() ==> is_range_permutation(#[trigger] perms@[k]@, n as nat),
        forall|q: Seq<usize>|
            is_range_permutation(q, n as nat) ==> #[trigger] rows_view(perms@).contains(q),
        forall|j: int, k: int|
            0 <= j < k < perms@.len() ==> lex_before(#[trigger] perms@[j]@, #[trigger] perms@[k]@),
{
    (0..n).permutations(n).collect()
}

/// The rows in order, each kept at its first occurrence only.
pub open spec fn first_occurrences<T>(rows: Seq<Seq<T>>) -> Seq<Seq<T>>
    decreases rows.len(),
{
    if rows.len() == 0 {
        rows
    } else {
        let prev = first_occurrences(rows.drop_last());
        if rows.drop_last().contains(rows.last()) {
            prev
        } else {
            prev.push(rows.last())
        }
    }
}

/// Every row kept by `first_occurrences` is one of the rows.
pub proof fn lemma_first_occurrences_subset<T>(rows: Seq<Seq<T>>)
    ensures
        forall|k: int|
            0 <= k < first_occurrences(rows).len() ==> rows.contains(
                #[trigger] first_occurrences(rows)[k],
            ),
    decreases rows.len(),
{
    if rows.len() > 0 {
        lemma_first_occurrences_subset(rows.drop_last());
        assert forall|k: int|
            0 <= k < first_occurrences(rows).len() implies rows.contains(
            #[trigger] first_occurrences(rows)[k],
        ) by {
            let prev = first_occurrences(rows.drop_last());
            if k < prev.len() {
                let x = prev[k];
                assert(rows.drop_last().contains(x));
                let w = choose|w: int| 0 <= w < rows.drop_last().len() && rows.drop_last()[w] == x;
                assert(rows[w] == x);
            } else {
                assert(rows[rows.len() - 1] == rows.last());
            }
        }
    }
}

/// Keeps each index row at its first occurrence only, in order.
fn unique_index_rows(rows: Vec<Vec<usize>>) -> (unique: Vec<Vec<usize>>)
    ensures
        rows_view(unique@) == first_occurrences(rows_view(rows@)),
{
    let ghost all = rows_view(rows@);
    let mut unique: Vec<Vec<usize>> = Vec::new();
    let mut r: usize = 0;
    while r < rows.len()
        invariant
            r <= rows.len(),
            all == rows_view(rows@),
            rows_view(unique@) == first_occurrences(all.take(r as int)),
        decreases rows.len() - r,
    {
        let mut seen = false;
        let mut k: usize = 0;
        while k < r && !seen
            invariant
                k <= r < rows.len(),
                all == rows_view(rows@),
                seen ==> all.take(r as int).contains(all[r as int]),
                !seen ==> forall|t: int| 0 <= t < k ==> all[t] != all[r as int],
            decreases r - k,
        {
            if same_indices(&rows[k], &rows[r]) {
                assert(all.take(r as int)[k as int] == all[r as int]);
                seen = true;
            }
            k = k + 1;
        }
        proof {
            let taken = all.take(r as int + 1);
            assert(taken.drop_last() =~= all.take(r as int));
            assert(taken.last() == all[r as int]);
            if !seen {
                assert(!all.take(r as int).contains(all[r as int]));
            }
        }
        if !seen {
            unique.push(rows[r].clone());
        }
        assert(rows_view(unique@) =~= first_occurrences(all.take(r as int + 1)));
        r = r + 1;
    }
    assert(all.take(r as int) =~= all);
    unique
}

/// The values `1..=p`.
pub open spec fn one_based(p: nat) -> Seq<usize> {
    Seq::new(p, |k: int| (k + 1) as usize)
}

/// The multi-indices of an interpolation grid with `p` nodes per axis in `d` dimensions:
/// every vector with entries in `1..=p`, in cartesian-product order.
pub open spec fn grid_multi_indices(d: nat, p: nat) -> Seq<Seq<usize>> {
    product_rows(one_based(p), d)
}

/// The two axis signs.
pub open spec fn axis_sign_values() -> Seq<i32> {
    seq![-1i32, 1i32]
}

/// The sign patterns of `d` axes: every vector with entries `-1` or `1`, in
/// cartesian-product order.
pub open spec fn axis_sign_rows(d: nat) -> Seq<Seq<i32>> {
    product_rows(axis_sign_values(), d)
}

/// Each entry of a grid multi-index lies in `1..=p`.
proof fn lemma_grid_entry(d: nat, p: nat, r: nat, j: nat)
    requires
        1 <= p <= usize::MAX,
        j < d,
    ensures
        1 <= product_entry(one_based(p), d, r, j) <= p,
{
    let w = pow_nat(p, (d - j - 1) as nat);
    lemma_pow_positive(p, (d - j - 1) as nat);
    let q = (r / w) as int;
    vstd::arithmetic::div_mod::lemma_div_pos_is_pos(r as int, w as int);
    vstd::arithmetic::div_mod::lemma_mod_pos_bound(q, p as int);
    let k = q % (p as int);
    assert(one_based(p).len() == p);
    assert(one_based(p)[k] == (k + 1) as usize);
}

/// The interpolation-matrix position of a multi-index with entries in `1..=p` lies below
/// `p^d`.
#[verifier::spinoff_prover]
proof fn lemma_position_bound(alpha: Seq<usize>, p: nat, d: nat)
    requires
        alpha.len() == d,
        d >= 1,
        p >= 1,
        forall|i: int| 0 <= i < d ==> 1 <= #[trigger] alpha[i] <= p,
    ensures
        0 <= multi_index_position(alpha, p as int) < pow_nat(p, d),
{
    let a0 = alpha[0] - 1;
    assert(0 <= a0 < p);
    assert(pow_nat(p, 0) == 1);
    assert(pow_nat(p, 1) == p * pow_nat(p, 0));
    assert(pow_nat(p, 1) == p);
    assert(pow_nat(p, 2) == p * pow_nat(p, 1));
    assert(pow_nat(p, 3) == p * pow_nat(p, 2));
    if d == 1 {
        assert(multi_index_position(alpha, p as int) == a0);
    } else if d == 2 {
        let a1 = alpha[1] - 1;
        assert(0 <= a1 < p);
        assert(0 <= a0 * p + a1 < p * p) by (nonlinear_arith)
            requires
                0 <= a0 < p,
                0 <= a1 < p,
        ;
        assert(multi_index_position(alpha, p as int) == a0 * p + a1);
    } else {
        let a1 = alpha[1] - 1;
        let a2 = alpha[2] - 1;
        assert(0 <= a1 < p);
        assert(0 <= a2 < p);
        assert(0 <= a0 * (p * p) + a1 * p + a2 < p * (p * p)) by (nonlinear_arith)
            requires
                0 <= a0 < p,
                0 <= a1 < p,
                0 <= a2 < p,
        ;
        assert(multi_index_position(alpha, p as int) == a0 * (p * p) + a1 * p + a2);
        lemma_pow_monotone(p, 3, d);
    }
}

/// `p * p` fits in a `usize` once `p^d` does, for three or more dimensions.
proof fn lemma_square_fits(p: nat, d: nat)
    requires
        p >= 1,
        d >= 3,
        pow_nat(p, d) <= usize::MAX,
    ensures
        p * p <= usize::MAX,
{
    lemma_pow_monotone(p, 2, d);
    assert(pow_nat(p, 0) == 1);
    assert(pow_nat(p, 1) == p * pow_nat(p, 0));
    assert(pow_nat(p, 1) == p);
    assert(pow_nat(p, 2) == p * pow_nat(p, 1));
}

/// Reordering the axes of grid multi-indices by an ordering of `0..d` can always be placed
/// in the table.
proof fn lemma_diagonal_table_defined(d: nat, p: nat, order: Seq<usize>)
    requires
        d >= 1,
        p >= 1,
        pow_nat(p, d) <= usize::MAX,
        is_range_permutation(order, d),
    ensures
        permutation_table_defined(grid_multi_indices(d, p), None, Some(order), p as int, true),
{
    let grid = grid_multi_indices(d, p);
    lemma_pow_monotone(p, 1, d);
    assert(pow_nat(p, 0) == 1);
    assert(pow_nat(p, 1) == p * pow_nat(p, 0));
    assert(p <= usize::MAX);
    assert forall|j: int| 0 <= j < grid.len() implies {
        let alpha = #[trigger] grid[j];
        let permuted = symmetry_permuted(alpha, None, Some(order), p as int, true);
        &&& true ==> forall|k: int|
            0 <= k < Some(order).unwrap().len() ==> #[trigger] Some(order).unwrap()[k] < alpha.len()
        &&& !true ==> axial_permutable(alpha, None::<Seq<i32>>.unwrap(), p as int)
        &&& permuted.len() >= 1
        &&& forall|c: int| 0 <= c < permuted.len() && c < 3 ==> #[trigger] permuted[c] >= 1
        &&& permuted.len() >= 3 ==> p * p <= usize::MAX
        &&& 0 <= multi_index_position(permuted, p as int) < grid.len()
    } by {
        let alpha = grid[j];
        let permuted = diagonal_permuted(alpha, order);
        assert(alpha == product_row(one_based(p), d, j as nat));
        assert forall|i: int| 0 <= i < d implies 1 <= #[trigger] alpha[i] <= p by {
            lemma_grid_entry(d, p, j as nat, i as nat);
        }
        assert forall|i: int| 0 <= i < d implies 1 <= #[trigger] permuted[i] <= p by {
            assert(order[i] < d);
        }
        lemma_position_bound(permuted, p, d);
        if d >= 3 {
            lemma_square_fits(p, d);
        }
    }
}

/// Reflecting grid multi-indices along the negative axes of a sign pattern can always be
/// placed in the table.
proof fn lemma_axial_table_defined(d: nat, p: nat, signs: Seq<i32>)
    requires
        d >= 1,
        p >= 1,
        pow_nat(p, d) <= usize::MAX,
        signs.len() == d,
    ensures
        permutation_table_defined(grid_multi_indices(d, p), Some(signs), None, p as int, false),
{
    let grid = grid_multi_indices(d, p);
    lemma_pow_monotone(p, 1, d);
    assert(pow_nat(p, 0) == 1);
    assert(pow_nat(p, 1) == p * pow_nat(p, 0));
    assert(p <= usize::MAX);
    assert forall|j: int| 0 <= j < grid.len() implies {
        let alpha = #[trigger] grid[j];
        let permuted = symmetry_permuted(alpha, Some(signs), None, p as int, false);
        &&& false ==> forall|k: int|
            0 <= k < None::<Seq<usize>>.unwrap().len() ==> #[trigger] None::<Seq<usize>>.unwrap()[k]
                < alpha.len()
        &&& !false ==> axial_permutable(alpha, Some(signs).unwrap(), p as int)
        &&& permuted.len() >= 1
        &&& forall|c: int| 0 <= c < permuted.len() && c < 3 ==> #[trigger] permuted[c] >= 1
        &&& permuted.len() >= 3 ==> p * p <= usize::MAX
        &&& 0 <= multi_index_position(permuted, p as int) < grid.len()
    } by {
        let alpha = grid[j];
        let permuted = axial_permuted(alpha, signs, p as int);
        assert(alpha == product_row(one_based(p), d, j as nat));
        assert forall|i: int| 0 <= i < d implies 1 <= #[trigger] alpha[i] <= p by {
            lemma_grid_entry(d, p, j as nat, i as nat);
        }
        assert forall|i: int| 0 <= i < d implies 1 <= #[trigger] permuted[i] <= p by {
            assert(1 <= alpha[i] <= p);
            if signs[i] < 0 {
                assert(1 <= p - (alpha[i] - 1) <= p);
            }
        }
        lemma_position_bound(permuted, p, d);
        if d >= 3 {
            lemma_square_fits(p, d);
        }
    }
}

/// A permutation table keeps the length of the multi-index list, and each entry is the
/// index of some multi-index.
proof fn lemma_permutation_table_shape(
    multi_indices: Seq<Seq<usize>>,
    transfer_vector: Option<Seq<i32>>,
    sort_indices: Option<Seq<usize>>,
    p: int,
    diagonal: bool,
    j: nat,
)
    requires
        j <= multi_indices.len(),
        multi_indices.len() >= 1,
        permutation_table_defined(multi_indices, transfer_vector, sort_indices, p, diagonal),
    ensures
        permutation_table(multi_indices, transfer_vector, sort_indices, p, diagonal, j).len()
            == multi_indices.len(),
        forall|i: int|
            0 <= i < multi_indices.len() ==> #[trigger] permutation_table(
                multi_indices,
                transfer_vector,
                sort_indices,
                p,
                diagonal,
                j,
            )[i] < multi_indices.len(),
    decreases j,
{
    if j > 0 {
        lemma_permutation_table_shape(
            multi_indices,
            transfer_vector,
            sort_indices,
            p,
            diagonal,
            (j - 1) as nat,
        );
    }
}

/// The diagonal permutation table of axis ordering `o` on the grid.
pub open spec fn diagonal_table(orders: Seq<Seq<usize>>, o: int, d: nat, p: nat) -> Seq<usize> {
    permutation_table(grid_multi_indices(d, p), None, Some(orders[o]), p as int, true, pow_nat(p, d))
}

/// The axial permutation table of sign pattern `a` on the grid.
pub open spec fn axial_table(a: int, d: nat, p: nat) -> Seq<usize> {
    permutation_table(
        grid_multi_indices(d, p),
        Some(axis_sign_rows(d)[a]),
        None,
        p as int,
        false,
        pow_nat(p, d),
    )
}

/// The pairs `[a, b]` of a sign pattern and an axis ordering, sign pattern major.
pub open spec fn permutation_combinations(num_signs: nat, num_orders: nat) -> Seq<Seq<usize>> {
    Seq::new(
        num_signs * num_orders,
        |c: int| seq![(c / num_orders as int) as usize, (c % num_orders as int) as usize],
    )
}

/// Applies a diagonal table and then an axial one: entry `i` is `axial[diagonal[i]]`.
pub open spec fn compose_table(axial: Seq<usize>, diagonal: Seq<usize>) -> Seq<usize> {
    Seq::new(diagonal.len(), |i: int| axial[diagonal[i] as int])
}

/// The composed table of every combination `c`: axial table `c / O` after diagonal table
/// `c % O`, where `O` is the number of diagonal tables.
pub open spec fn compose_tables(axial: Seq<Seq<usize>>, diagonal: Seq<Seq<usize>>) -> Seq<
    Seq<usize>,
> {
    Seq::new(
        axial.len() * diagonal.len(),
        |c: int|
            compose_table(axial[c / diagonal.len() as int], diagonal[c % diagonal.len() as int]),
    )
}

/// The combined permutation of every (sign pattern, axis ordering) combination on the grid.
pub open spec fn combined_permutation_indices(orders: Seq<Seq<usize>>, d: nat, p: nat) -> Seq<
    Seq<usize>,
> {
    compose_tables(
        Seq::new(pow_nat(2, d), |a: int| axial_table(a, d, p)),
        Seq::new(orders.len(), |o: int| diagonal_table(orders, o, d, p)),
    )
}

/// Indices as sort keys.
pub open spec fn index_keys(s: Seq<usize>) -> Seq<i64> {
    Seq::new(s.len(), |i: int| s[i] as i64)
}

/// The stable argsort of each combined permutation: its inverse.
pub open spec fn inverse_permutations(combined: Seq<Seq<usize>>) -> Seq<Seq<usize>> {
    Seq::new(combined.len(), |c: int| stable_argsort(index_keys(combined[c])))
}

/// The pairs of the axial and diagonal cases at each position, as far as both go.
pub open spec fn zip_cases(axial: Seq<usize>, diagonal: Seq<usize>) -> Seq<Seq<usize>> {
    Seq::new(
        if axial.len() < diagonal.len() { axial.len() } else { diagonal.len() },
        |k: int| seq![axial[k], diagonal[k]],
    )
}

/// For each M2L vector whose sign pattern and axis order both match, the position of the
/// combination that maps the reference operator onto it.
pub open spec fn permutation_lookups(orders: Seq<Seq<usize>>, d: nat, all: Seq<Seq<i32>>) -> Seq<
    usize,
> {
    let axial = combined_lookups(
        Seq::new(all.len(), |g: int| axis_flips(all[g])),
        axis_sign_rows(d),
        all.len(),
    );
    let diagonal = combined_lookups(
        Seq::new(all.len(), |g: int| sorted_axes(all[g])),
        orders,
        all.len(),
    );
    let cases = zip_cases(axial, diagonal);
    combined_lookups(cases, permutation_combinations(pow_nat(2, d), orders.len()), cases.len())
}

/// For each M2L vector, the position of its reference vector.
pub open spec fn reference_lookups(all: Seq<Seq<i32>>, refs: Seq<Seq<i32>>) -> Seq<usize> {
    Seq::new(all.len(), |g: int| reference_position(all[g], refs))
}

/// The permutation table of each axis ordering on the grid.
fn diagonal_tables_of(
    axis_order_permutations: &[Vec<usize>],
    d: usize,
    p: usize,
    multi_indices: &Vec<Vec<usize>>,
) -> (tables: Vec<Vec<usize>>)
    requires
        d >= 1,
        p >= 1,
        pow_nat(p as nat, d as nat) <= usize::MAX,
        rows_view(multi_indices@) == grid_multi_indices(d as nat, p as nat),
        forall|o: int|
            0 <= o < axis_order_permutations@.len() ==> is_range_permutation(
                #[trigger] axis_order_permutations@[o]@,
                d as nat,
            ),
    ensures
        tables@.len() == axis_order_permutations@.len(),
        forall|o: int|
            0 <= o < tables@.len() ==> #[trigger] tables@[o]@ == diagonal_table(
                rows_view(axis_order_permutations@),
                o,
                d as nat,
                p as nat,
            ),
{
    let ghost orders = rows_view(axis_order_permutations@);
    let mut tables: Vec<Vec<usize>> = Vec::new();
    let mut o: usize = 0;
    while o < axis_order_permutations.len()
        invariant
            o <= axis_order_permutations.len(),
            d >= 1,
            p >= 1,
            pow_nat(p as nat, d as nat) <= usize::MAX,
            rows_view(multi_indices@) == grid_multi_indices(d as nat, p as nat),
            orders == rows_view(axis_order_permutations@),
            forall|o: int|
                0 <= o < axis_order_permutations@.len() ==> is_range_permutation(
                    #[trigger] axis_order_permutations@[o]@,
                    d as nat,
                ),
            tables@.len() == o,
            forall|t: int|
                0 <= t < o ==> #[trigger] tables@[t]@ == diagonal_table(
                    orders,
                    t,
                    d as nat,
                    p as nat,
                ),
        decreases axis_order_permutations.len() - o,
    {
        let order = axis_order_permutations[o].as_slice();
        proof {
            assert(orders[o as int] == order@);
            lemma_diagonal_table_defined(d as nat, p as nat, order@);
        }
        let table = calculate_diagonal_axial_permutation_indices(
            None,
            Some(order),
            &p,
            multi_indices.as_slice(),
            true,
        );
        proof {
            assert(multi_indices@.len() == grid_multi_indices(d as nat, p as nat).len());
        }
        tables.push(table);
        o = o + 1;
    }
    tables
}

/// The permutation table of each sign pattern on the grid.
fn axial_tables_of(
    axis_sign_permutations: &Vec<Vec<i32>>,
    d: usize,
    p: usize,
    multi_indices: &Vec<Vec<usize>>,
) -> (tables: Vec<Vec<usize>>)
    requires
        d >= 1,
        p >= 1,
        pow_nat(p as nat, d as nat) <= usize::MAX,
        rows_view(multi_indices@) == grid_multi_indices(d as nat, p as nat),
        rows_view(axis_sign_permutations@) == axis_sign_rows(d as nat),
    ensures
        tables@.len() == axis_sign_permutations@.len(),
        forall|a: int|
            0 <= a < tables@.len() ==> #[trigger] tables@[a]@ == axial_table(a, d as nat, p as nat),
{
    let mut tables: Vec<Vec<usize>> = Vec::new();
    let mut a: usize = 0;
    while a < axis_sign_permutations.len()
        invariant
            a <= axis_sign_permutations.len(),
            d >= 1,
            p >= 1,
            pow_nat(p as nat, d as nat) <= usize::MAX,
            rows_view(multi_indices@) == grid_multi_indices(d as nat, p as nat),
            rows_view(axis_sign_permutations@) == axis_sign_rows(d as nat),
            tables@.len() == a,
            forall|t: int| 0 <= t < a ==> #[trigger] tables@[t]@ == axial_table(t, d as nat, p as nat),
        decreases axis_sign_permutations.len() - a,
    {
        let signs = axis_sign_permutations[a].as_slice();
        proof {
            assert(rows_view(axis_sign_permutations@).len() == axis_sign_rows(d as nat).len());
            assert(axis_sign_rows(d as nat)[a as int] == product_row(
                axis_sign_values(),
                d as nat,
                a as nat,
            ));
            assert(axis_sign_rows(d as nat)[a as int] == signs@);
            assert(signs@.len() == d);
            lemma_axial_table_defined(d as nat, p as nat, signs@);
        }
        let table = calculate_diagonal_axial_permutation_indices(
            Some(signs),
            None,
            &p,
            multi_indices.as_slice(),
            false,
        );
        tables.push(table);
        a = a + 1;
    }
    tables
}

/// Lists every combination `[a, b]` of an axial and a diagonal table, axial major, with
/// the composed table of each.
fn compose_all(
    axial_tables: &Vec<Vec<usize>>,
    diagonal_tables: &Vec<Vec<usize>>,
    size: usize,
) -> (composed: (Vec<Vec<usize>>, Vec<Vec<usize>>))
    requires
        forall|a: int| 0 <= a < axial_tables@.len() ==> #[trigger] axial_tables@[a]@.len() == size,
        forall|b: int, i: int|
            0 <= b < diagonal_tables@.len() && 0 <= i < diagonal_tables@[b]@.len()
                ==> #[trigger] diagonal_tables@[b]@[i] < size,
    ensures
        rows_view(composed.0@) == permutation_combinations(
            axial_tables@.len() as nat,
            diagonal_tables@.len() as nat,
        ),
        rows_view(composed.1@) == compose_tables(
            rows_view(axial_tables@),
            rows_view(diagonal_tables@),
        ),
{
    let num_axial = axial_tables.len();
    let num_diagonal = diagonal_tables.len();
    let ghost ax = rows_view(axial_tables@);
    let ghost dg = rows_view(diagonal_tables@);
    let ghost o = num_diagonal as int;
    let mut combinations: Vec<Vec<usize>> = Vec::new();
    let mut combined: Vec<Vec<usize>> = Vec::new();
    let mut a: usize = 0;
    while a < num_axial
        invariant
            a <= num_axial,
            num_axial == axial_tables@.len(),
            num_diagonal == diagonal_tables@.len(),
            o == num_diagonal as int,
            ax == rows_view(axial_tables@),
            dg == rows_view(diagonal_tables@),
            forall|a: int| 0 <= a < axial_tables@.len() ==> #[trigger] axial_tables@[a]@.len() == size,
            forall|b: int, i: int|
                0 <= b < diagonal_tables@.len() && 0 <= i < diagonal_tables@[b]@.len()
                    ==> #[trigger] diagonal_tables@[b]@[i] < size,
            combinations@.len() == a * o,
            combined@.len() == a * o,
            forall|c: int|
                0 <= c < combinations@.len() ==> #[trigger] combinations@[c]@ == seq![
                    (c / o) as usize,
                    (c % o) as usize,
                ],
            forall|c: int|
                0 <= c < combined@.len() ==> #[trigger] combined@[c]@ == compose_table(
                    ax[c / o],
                    dg[c % o],
                ),
        decreases num_axial - a,
    {
        let mut b: usize = 0;
        while b < num_diagonal
            invariant
                a < num_axial,
                b <= num_diagonal,
                num_axial == axial_tables@.len(),
                num_diagonal == diagonal_tables@.len(),
                o == num_diagonal as int,
                ax == rows_view(axial_tables@),
                dg == rows_view(diagonal_tables@),
                forall|a: int|
                    0 <= a < axial_tables@.len() ==> #[trigger] axial_tables@[a]@.len() == size,
                forall|b: int, i: int|
                    0 <= b < diagonal_tables@.len() && 0 <= i < diagonal_tables@[b]@.len()
                        ==> #[trigger] diagonal_tables@[b]@[i] < size,
                combinations@.len() == a * o + b,
                combined@.len() == a * o + b,
                forall|c: int|
                    0 <= c < combinations@.len() ==> #[trigger] combinations@[c]@ == seq![
                        (c / o) as usize,
                        (c % o) as usize,
                    ],
                forall|c: int|
                    0 <= c < combined@.len() ==> #[trigger] combined@[c]@ == compose_table(
                        ax[c / o],
                        dg[c % o],
                    ),
            decreases num_diagonal - b,
        {
            let axial = &axial_tables[a];
            let diagonal = &diagonal_tables[b];
            let mut combo: Vec<usize> = Vec::new();
            let mut i: usize = 0;
            while i < diagonal.len()
                invariant
                    i <= diagonal.len(),
                    a < axial_tables@.len(),
                    b < diagonal_tables@.len(),
                    axial@ == axial_tables@[a as int]@,
                    diagonal@ == diagonal_tables@[b as int]@,
                    axial@.len() == size,
                    forall|k: int| 0 <= k < diagonal@.len() ==> #[trigger] diagonal@[k] < size,
                    combo@.len() == i,
                    forall|k: int| 0 <= k < i ==> combo@[k] == axial@[diagonal@[k] as int],
                decreases diagonal.len() - i,
            {
                assert(diagonal_tables@[b as int]@[i as int] < size);
                combo.push(axial[diagonal[i]]);
                i = i + 1;
            }
            let ghost c = a * o + b;
            proof {
                vstd::arithmetic::div_mod::lemma_fundamental_div_mod_converse(c, o, a as int, b as int);
                assert(ax[a as int] == axial@);
                assert(dg[b as int] == diagonal@);
                assert(combo@ =~= compose_table(ax[c / o], dg[c % o]));
            }
            combinations.push(vec![a, b]);
            combined.push(combo);
            proof {
                assert(combinations@[c]@ =~= seq![(c / o) as usize, (c % o) as usize]);
            }
            b = b + 1;
        }
        assert(a * o + o == (a + 1) * o) by (nonlinear_arith);
        a = a + 1;
    }
    proof {
        assert(rows_view(combinations@) =~= permutation_combinations(
            num_axial as nat,
            num_diagonal as nat,
        ));
        assert(rows_view(combined@) =~= compose_tables(ax, dg));
    }
    (combinations, combined)
}

/// The stable argsort of each table: its inverse permutation.
fn inverse_of_each(combined: &Vec<Vec<usize>>) -> (inverse: Vec<Vec<usize>>)
    requires
        forall|c: int, i: int|
            0 <= c < combined@.len() && 0 <= i < combined@[c]@.len() ==> #[trigger] combined@[c]@[i]
                <= i64::MAX,
    ensures
        rows_view(inverse@) == inverse_permutations(rows_view(combined@)),
{
    let mut inverse: Vec<Vec<usize>> = Vec::new();
    let mut c: usize = 0;
    while c < combined.len()
        invariant
            c <= combined.len(),
            forall|c: int, i: int|
                0 <= c < combined@.len() && 0 <= i < combined@[c]@.len()
                    ==> #[trigger] combined@[c]@[i] <= i64::MAX,
            inverse@.len() == c,
            forall|t: int|
                0 <= t < c ==> #[trigger] inverse@[t]@ == stable_argsort(
                    index_keys(combined@[t]@),
                ),
        decreases combined.len() - c,
    {
        let table = &combined[c];
        let mut keys: Vec<i64> = Vec::new();
        let mut i: usize = 0;
        while i < table.len()
            invariant
                i <= table.len(),
                c < combined@.len(),
                table@ == combined@[c as int]@,
                forall|c: int, i: int|
                    0 <= c < combined@.len() && 0 <= i < combined@[c]@.len()
                        ==> #[trigger] combined@[c]@[i] <= i64::MAX,
                keys@.len() == i,
                forall|k: int| 0 <= k < i ==> keys@[k] == table@[k] as i64,
            decreases table.len() - i,
        {
            assert(combined@[c as int]@[i as int] <= i64::MAX);
            keys.push(table[i] as i64);
            i = i + 1;
        }
        assert(keys@ =~= index_keys(table@));
        inverse.push(argsort(&keys));
        c = c + 1;
    }
    assert(rows_view(inverse@) =~= inverse_permutations(rows_view(combined@)));
    inverse
}

/// Pairs the axial and diagonal cases position by position, as far as both go.
fn zip_case_pairs(axial: &Vec<usize>, diagonal: &Vec<usize>) -> (pairs: Vec<Vec<usize>>)
    ensures
        rows_view(pairs@) == zip_cases(axial@, diagonal@),
{
    let n = if axial.len() < diagonal.len() {
        axial.len()
    } else {
        diagonal.len()
    };
    let mut pairs: Vec<Vec<usize>> = Vec::new();
    let mut k: usize = 0;
    while k < n
        invariant
            k <= n,
            n <= axial.len(),
            n <= diagonal.len(),
            pairs@.len() == k,
            forall|t: int| 0 <= t < k ==> #[trigger] pairs@[t]@ == seq![axial@[t], diagonal@[t]],
        decreases n - k,
    {
        pairs.push(vec![axial[k], diagonal[k]]);
        proof {
            assert(pairs@[k as int]@ =~= seq![axial@[k as int], diagonal@[k as int]]);
        }
        k = k + 1;
    }
    assert(rows_view(pairs@) =~= zip_cases(axial@, diagonal@));
    pairs
}

/// Combination `c` of `s * o` splits into a valid pair `(c / o, c % o)`.
proof fn lemma_combination_index(c: int, s: int, o: int)
    requires
        0 <= c < s * o,
        s >= 0,
    ensures
        o > 0,
        0 <= c / o < s,
        0 <= c % o < o,
{
    if o <= 0 {
        assert(s * o <= 0) by (nonlinear_arith)
            requires
                s >= 0,
                o <= 0,
        ;
    }
    vstd::arithmetic::div_mod::lemma_fundamental_div_mod(c, o);
    vstd::arithmetic::div_mod::lemma_mod_pos_bound(c, o);
    vstd::arithmetic::div_mod::lemma_div_pos_is_pos(c, o);
    assert(c / o < s) by (nonlinear_arith)
        requires
            c == o * (c / o) + c % o,
            0 <= c % o < o,
            c < s * o,
            o > 0,
    ;
}

/// Whether the symmetry lookup tables can be built for these axis orderings, dimensions,
/// interpolation order and M2L vectors: each ordering lists `0..d` once, the grid of
/// `p^d` multi-indices and the `2^d` sign patterns fit in memory, and no vector entry is
/// `i32::MIN` (whose magnitude does not fit).
pub open spec fn permutation_lookups_defined(
    orders: Seq<Seq<usize>>,
    d: nat,
    p: nat,
    all: Seq<Seq<i32>>,
) -> bool {
    &&& d >= 1
    &&& p >= 1
    &&& pow_nat(p, d) <= usize::MAX
    &&& pow_nat(p, d) <= i64::MAX
    &&& pow_nat(2, d) <= usize::MAX
    &&& forall|o: int| 0 <= o < orders.len() ==> is_range_permutation(#[trigger] orders[o], d)
    &&& forall|g: int, i: int|
        0 <= g < all.len() && 0 <= i < all[g].len() ==> #[trigger] all[g][i] > i32::MIN
}

/// Builds the symmetry lookup tables of the M2L operators from a list of axis orderings:
/// the combined permutation of every (sign pattern, axis ordering) pair, its inverse, for
/// each M2L vector the combination that maps its reference operator onto it, and for each
/// M2L vector the position of its reference vector.
pub fn permutation_lookups_from_orders(
    axis_order_permutations: &[Vec<usize>],
    dimensions: &usize,
    interpolation_order: &usize,
    all_m2l_vectors: &[Vec<i32>],
    reference_m2l_vectors: &[Vec<i32>],
) -> (lookups: (Vec<Vec<usize>>, Vec<Vec<usize>>, Vec<usize>, Vec<usize>))
    requires
        permutation_lookups_defined(
            rows_view(axis_order_permutations@),
            *dimensions as nat,
            *interpolation_order as nat,
            rows_view(all_m2l_vectors@),
        ),
    ensures
        rows_view(lookups.0@) == combined_permutation_indices(
            rows_view(axis_order_permutations@),
            *dimensions as nat,
            *interpolation_order as nat,
        ),
        rows_view(lookups.1@) == inverse_permutations(
            combined_permutation_indices(
                rows_view(axis_order_permutations@),
                *dimensions as nat,
                *interpolation_order as nat,
            ),
        ),
        lookups.2@ == permutation_lookups(
            rows_view(axis_order_permutations@),
            *dimensions as nat,
            rows_view(all_m2l_vectors@),
        ),
        lookups.3@ == reference_lookups(
            rows_view(all_m2l_vectors@),
            rows_view(reference_m2l_vectors@),
        ),
{
    let d = *dimensions;
    let p = *interpolation_order;
    let ghost nd = d as nat;
    let ghost np = p as nat;
    let ghost orders = rows_view(axis_order_permutations@);
    let ghost all = rows_view(all_m2l_vectors@);
    assert forall|o: int|
        0 <= o < axis_order_permutations@.len() implies is_range_permutation(
        #[trigger] axis_order_permutations@[o]@,
        nd,
    ) by {
        assert(orders[o] == axis_order_permutations@[o]@);
    }
    assert forall|g: int, i: int|
        0 <= g < all_m2l_vectors@.len() && 0 <= i < all_m2l_vectors@[g]@.len()
            implies #[trigger] all_m2l_vectors@[g]@[i] > i32::MIN by {
        assert(all[g] == all_m2l_vectors@[g]@);
    }
    let sign_values: Vec<i32> = vec![-1, 1];
    assert(sign_values@ =~= axis_sign_values());
    let axis_sign_permutations = cartesian_product(&sign_values, d);
    assert(rows_view(axis_sign_permutations@) =~= axis_sign_rows(nd)) by {
        assert forall|r: int| 0 <= r < axis_sign_permutations@.len() implies #[trigger] axis_sign_permutations@[r]@
            =~= product_row(axis_sign_values(), nd, r as nat) by {
            assert(axis_sign_permutations[r].len() == d);
        }
    }
    let mut multi_indices_range: Vec<usize> = Vec::new();
    let mut k: usize = 0;
    while k < p
        invariant
            k <= p,
            multi_indices_range@.len() == k,
            forall|t: int| 0 <= t < k ==> multi_indices_range@[t] == t + 1,
        decreases p - k,
    {
        multi_indices_range.push(k + 1);
        k = k + 1;
    }
    assert(multi_indices_range@ =~= one_based(np));
    let multi_indices = cartesian_product(&multi_indices_range, d);
    assert(rows_view(multi_indices@) =~= grid_multi_indices(nd, np)) by {
        assert forall|r: int| 0 <= r < multi_indices@.len() implies #[trigger] multi_indices@[r]@
            =~= product_row(one_based(np), nd, r as nat) by {
            assert(multi_indices[r].len() == d);
        }
    }
    let size = multi_indices.len();
    proof {
        lemma_pow_positive(np, nd);
    }
    let unique_diagonal_permutation_indices = diagonal_tables_of(
        axis_order_permutations,
        d,
        p,
        &multi_indices,
    );
    let unique_axial_permutation_indices = axial_tables_of(
        &axis_sign_permutations,
        d,
        p,
        &multi_indices,
    );
    proof {
        let grid = grid_multi_indices(nd, np);
        assert forall|a: int|
            0 <= a < unique_axial_permutation_indices@.len() implies #[trigger] unique_axial_permutation_indices@[a]@.len()
            == size by {
            let signs = axis_sign_rows(nd)[a];
            assert(rows_view(axis_sign_permutations@)[a] == signs);
            assert(signs.len() == nd);
            lemma_axial_table_defined(nd, np, signs);
            lemma_permutation_table_shape(grid, Some(signs), None, np as int, false, grid.len());
        }
        assert forall|b: int, i: int|
            0 <= b < unique_diagonal_permutation_indices@.len() && 0 <= i
                < unique_diagonal_permutation_indices@[b]@.len()
                implies #[trigger] unique_diagonal_permutation_indices@[b]@[i] < size by {
            assert(orders[b] == axis_order_permutations@[b]@);
            lemma_diagonal_table_defined(nd, np, orders[b]);
            lemma_permutation_table_shape(grid, None, Some(orders[b]), np as int, true, grid.len());
        }
    }
    let (permutation_combinations, combined_permutation_indices) = compose_all(
        &unique_axial_permutation_indices,
        &unique_diagonal_permutation_indices,
        size,
    );
    proof {
        assert(rows_view(unique_axial_permutation_indices@) =~= Seq::new(
            pow_nat(2, nd),
            |a: int| axial_table(a, nd, np),
        ));
        assert(rows_view(unique_diagonal_permutation_indices@) =~= Seq::new(
            orders.len(),
            |o: int| diagonal_table(orders, o, nd, np),
        ));
        assert forall|c: int, i: int|
            0 <= c < combined_permutation_indices@.len() && 0 <= i
                < combined_permutation_indices@[c]@.len()
                implies #[trigger] combined_permutation_indices@[c]@[i] <= i64::MAX by {
            let o = orders.len() as int;
            let ax = rows_view(unique_axial_permutation_indices@);
            let dg = rows_view(unique_diagonal_permutation_indices@);
            assert(rows_view(combined_permutation_indices@).len()
                == combined_permutation_indices@.len());
            assert(compose_tables(ax, dg).len() == ax.len() * dg.len());
            assert(dg.len() == o);
            lemma_combination_index(c, ax.len() as int, o);
            assert(rows_view(combined_permutation_indices@)[c] == compose_table(
                ax[c / o],
                dg[c % o],
            ));
            assert(ax[c / o].len() == size) by {
                assert(unique_axial_permutation_indices@[c / o]@.len() == size);
            }
            assert(dg[c % o][i] < size) by {
                assert(unique_diagonal_permutation_indices@[c % o]@[i] < size);
            }
            let a = c / o;
            let grid = grid_multi_indices(nd, np);
            let signs = axis_sign_rows(nd)[a];
            assert(rows_view(axis_sign_permutations@)[a] == signs);
            lemma_axial_table_defined(nd, np, signs);
            lemma_permutation_table_shape(grid, Some(signs), None, np as int, false, grid.len());
            assert(ax[a] == axial_table(a, nd, np));
        }
    }
    let inverse_permutations = inverse_of_each(&combined_permutation_indices);
    let axial_permutation_cases = lookup_axial_permutation_cases(
        &axis_sign_permutations,
        all_m2l_vectors,
    );
    let diagonal_permutation_cases = lookup_diagonal_permutation_cases(
        axis_order_permutations,
        all_m2l_vectors,
    );
    let combined_permutation_cases = zip_case_pairs(
        &axial_permutation_cases,
        &diagonal_permutation_cases,
    );
    let permutation_lookups = lookup_combined_permutation_cases(
        &combined_permutation_cases,
        &permutation_combinations,
    );
    let reference_vector_lookups = lookup_reference_vectors(all_m2l_vectors, reference_m2l_vectors);
    proof {
        assert(Seq::new(all_m2l_vectors@.len(), |g: int| axis_flips(all_m2l_vectors@[g]@)) =~= Seq::new(
            all.len(),
            |g: int| axis_flips(all[g]),
        ));
        assert(Seq::new(all_m2l_vectors@.len(), |g: int| sorted_axes(all_m2l_vectors@[g]@)) =~= Seq::new(
            all.len(),
            |g: int| sorted_axes(all[g]),
        ));
        assert(reference_vector_lookups@ =~= reference_lookups(
            all,
            rows_view(reference_m2l_vectors@),
        ));
    }
    (
        combined_permutation_indices,
        inverse_permutations,
        permutation_lookups,
        reference_vector_lookups,
    )
}

/// The axis orderings used for the diagonal symmetries: the orderings of `0..d` in
/// increasing lexicographic order, as `Itertools::permutations` lists them, each kept once.
pub open spec fn axis_orders(d: usize) -> Seq<Seq<usize>> {
    first_occurrences(range_permutations(d as nat))
}

/// Whether the symmetry lookup tables can be built for these dimensions, interpolation
/// order and M2L vectors: the grid of `p^d` multi-indices and the `2^d` sign patterns fit
/// in memory, and no vector entry is `i32::MIN` (whose magnitude does not fit).
pub open spec fn symmetry_lookups_defined(d: nat, p: nat, all: Seq<Seq<i32>>) -> bool {
    &&& d >= 1
    &&& p >= 1
    &&& pow_nat(p, d) <= usize::MAX
    &&& pow_nat(p, d) <= i64::MAX
    &&& pow_nat(2, d) <= usize::MAX
    &&& forall|g: int, i: int|
        0 <= g < all.len() && 0 <= i < all[g].len() ==> #[trigger] all[g][i] > i32::MIN
}

/// Precomputes the full set of permutation lookup tables used to exploit the symmetries of
/// the M2L operators: the combined permutations, their inverses, the combination for each
/// M2L vector and the reference vector for each M2L vector.
pub fn get_permutation_lookups(
    dimensions: &usize,
    interpolation_order: &usize,
    all_m2l_vectors: &[Vec<i32>],
    reference_m2l_vectors: &[Vec<i32>],
) -> (lookups: (Vec<Vec<usize>>, Vec<Vec<usize>>, Vec<usize>, Vec<usize>))
    requires
        symmetry_lookups_defined(
            *dimensions as nat,
            *interpolation_order as nat,
            rows_view(all_m2l_vectors@),
        ),
    ensures
        rows_view(lookups.0@) == combined_permutation_indices(
            axis_orders(*dimensions),
            *dimensions as nat,
            *interpolation_order as nat,
        ),
        rows_view(lookups.1@) == inverse_permutations(
            combined_permutation_indices(
                axis_orders(*dimensions),
                *dimensions as nat,
                *interpolation_order as nat,
            ),
        ),
        lookups.2@ == permutation_lookups(
            axis_orders(*dimensions),
            *dimensions as nat,
            rows_view(all_m2l_vectors@),
        ),
        lookups.3@ == reference_lookups(
            rows_view(all_m2l_vectors@),
            rows_view(reference_m2l_vectors@),
        ),
{
    let permutations = collect_range_permutations(*dimensions);
    proof {
        let listed = rows_view(permutations@);
        let n = *dimensions as nat;
        assert(is_lex_listing(listed, n)) by {
            assert forall|k: int| 0 <= k < listed.len() implies is_range_permutation(
                #[trigger] listed[k],
                n,
            ) by {
                assert(listed[k] == permutations@[k]@);
            }
            assert forall|j: int, k: int| 0 <= j < k < listed.len() implies lex_before(
                #[trigger] listed[j],
                #[trigger] listed[k],
            ) by {
                assert(listed[j] == permutations@[j]@ && listed[k] == permutations@[k]@);
            }
        }
        lemma_lex_listing_unique(listed, range_permutations(n), n);
    }
    let axis_order_permutations = unique_index_rows(permutations);
    proof {
        let orders = rows_view(axis_order_permutations@);
        let listed = rows_view(permutations@);
        lemma_first_occurrences_subset(listed);
        assert forall|o: int| 0 <= o < orders.len() implies is_range_permutation(
            #[trigger] orders[o],
            *dimensions as nat,
        ) by {
            assert(listed.contains(orders[o]));
            let w = choose|w: int| 0 <= w < listed.len() && listed[w] == orders[o];
            assert(is_range_permutation(permutations@[w]@, *dimensions as nat));
        }
    }
    permutation_lookups_from_orders(
        &axis_order_permutations,
        dimensions,
        interpolation_order,
        all_m2l_vectors,
        reference_m2l_vectors,
    )
}

/// The digit of entry `j` of grid row `r`: `(r / p^(d-1-j)) % p`, plus one.
proof fn lemma_grid_entry_value(d: nat, p: nat, r: nat, j: nat)
    requires
        1 <= p <= usize::MAX,
        j < d,
    ensures
        grid_multi_indices(d, p)[r as int][j as int] == ((r / pow_nat(p, (d - j - 1) as nat)) % p)
            + 1 || r >= pow_nat(p, d),
{
    if r < pow_nat(p, d) {
        let w = pow_nat(p, (d - j - 1) as nat);
        lemma_pow_positive(p, (d - j - 1) as nat);
        vstd::arithmetic::div_mod::lemma_div_pos_is_pos(r as int, w as int);
        vstd::arithmetic::div_mod::lemma_mod_pos_bound((r / w) as int, p as int);
        assert(one_based(p).len() == p);
        assert(grid_multi_indices(d, p)[r as int] == product_row(one_based(p), d, r));
    }
}

/// In up to three dimensions, the interpolation-matrix position of grid row `r` is `r`.
proof fn lemma_grid_position(d: nat, p: nat, r: nat)
    requires
        1 <= d <= 3,
        1 <= p <= usize::MAX,
        r < pow_nat(p, d),
    ensures
        multi_index_position(grid_multi_indices(d, p)[r as int], p as int) == r,
{
    let row = grid_multi_indices(d, p)[r as int];
    assert(row == product_row(one_based(p), d, r));
    assert(row.len() == d);
    assert(pow_nat(p, 0) == 1);
    assert(pow_nat(p, 1) == p * pow_nat(p, 0));
    assert(pow_nat(p, 2) == p * pow_nat(p, 1));
    assert(pow_nat(p, 3) == p * pow_nat(p, 2));
    let ri = r as int;
    let pi = p as int;
    vstd::arithmetic::div_mod::lemma_fundamental_div_mod(ri, pi);
    vstd::arithmetic::div_mod::lemma_mod_pos_bound(ri, pi);
    vstd::arithmetic::div_mod::lemma_div_pos_is_pos(ri, pi);
    if d == 1 {
        lemma_grid_entry_value(d, p, r, 0);
        assert(r / 1 == r);
        vstd::arithmetic::div_mod::lemma_small_mod(r, p);
    } else if d == 2 {
        lemma_grid_entry_value(d, p, r, 0);
        lemma_grid_entry_value(d, p, r, 1);
        assert(r / 1 == r);
        assert(ri / pi < pi) by (nonlinear_arith)
            requires
                ri < pi * pi,
                ri == pi * (ri / pi) + ri % pi,
                0 <= ri % pi,
                pi > 0,
        ;
        vstd::arithmetic::div_mod::lemma_small_mod((ri / pi) as nat, p);
        assert(multi_index_position(row, pi) == (ri / pi) * pi + ri % pi);
        assert((ri / pi) * pi + ri % pi == ri) by (nonlinear_arith)
            requires
                ri == pi * (ri / pi) + ri % pi,
        ;
    } else {
        lemma_grid_entry_value(d, p, r, 0);
        lemma_grid_entry_value(d, p, r, 1);
        lemma_grid_entry_value(d, p, r, 2);
        assert(r / 1 == r);
        let q = ri / pi;
        vstd::arithmetic::div_mod::lemma_fundamental_div_mod(q, pi);
        vstd::arithmetic::div_mod::lemma_mod_pos_bound(q, pi);
        vstd::arithmetic::div_mod::lemma_div_pos_is_pos(q, pi);
        vstd::arithmetic::div_mod::lemma_div_denominator(ri, pi, pi);
        assert(ri / (pi * pi) == q / pi);
        assert(q / pi < pi) by (nonlinear_arith)
            requires
                ri < pi * (pi * pi),
                ri == pi * q + ri % pi,
                q == pi * (q / pi) + q % pi,
                0 <= ri % pi,
                0 <= q % pi,
                pi > 0,
        ;
        vstd::arithmetic::div_mod::lemma_small_mod((q / pi) as nat, p);
        assert(multi_index_position(row, pi) == (q / pi) * (pi * pi) + (q % pi) * pi + ri % pi);
        assert((q / pi) * (pi * pi) + (q % pi) * pi + ri % pi == ri) by (nonlinear_arith)
            requires
                ri == pi * q + ri % pi,
                q == pi * (q / pi) + q % pi,
        ;
    }
}

/// In up to three dimensions, the grid row at the position of a multi-index with entries
/// in `1..=p` is that multi-index.
proof fn lemma_grid_row_at_position(alpha: Seq<usize>, d: nat, p: nat)
    requires
        1 <= d <= 3,
        1 <= p <= usize::MAX,
        alpha.len() == d,
        forall|i: int| 0 <= i < d ==> 1 <= #[trigger] alpha[i] <= p,
    ensures
        0 <= multi_index_position(alpha, p as int) < pow_nat(p, d),
        grid_multi_indices(d, p)[multi_index_position(alpha, p as int)] == alpha,
{
    lemma_position_bound(alpha, p, d);
    let r = multi_index_position(alpha, p as int);
    let row = grid_multi_indices(d, p)[r];
    assert(row == product_row(one_based(p), d, r as nat));
    assert(pow_nat(p, 0) == 1);
    assert(pow_nat(p, 1) == p * pow_nat(p, 0));
    assert(pow_nat(p, 2) == p * pow_nat(p, 1));
    let pi = p as int;
    let a0 = alpha[0] - 1;
    assert(0 <= a0 < pi);
    if d == 1 {
        lemma_grid_entry_value(d, p, r as nat, 0);
        assert(r / 1 == r);
        vstd::arithmetic::div_mod::lemma_small_mod(r as nat, p);
        assert(row =~= alpha);
    } else if d == 2 {
        let a1 = alpha[1] - 1;
        assert(0 <= a1 < pi);
        lemma_grid_entry_value(d, p, r as nat, 0);
        lemma_grid_entry_value(d, p, r as nat, 1);
        assert(r / 1 == r);
        vstd::arithmetic::div_mod::lemma_fundamental_div_mod_converse(r, pi, a0, a1);
        vstd::arithmetic::div_mod::lemma_small_mod(a0 as nat, p);
        assert(row[0] == alpha[0]);
        assert(row[1] == alpha[1]);
        assert(row =~= alpha);
    } else {
        let a1 = alpha[1] - 1;
        let a2 = alpha[2] - 1;
        assert(0 <= a1 < pi);
        assert(0 <= a2 < pi);
        lemma_grid_entry_value(d, p, r as nat, 0);
        lemma_grid_entry_value(d, p, r as nat, 1);
        lemma_grid_entry_value(d, p, r as nat, 2);
        assert(r / 1 == r);
        let q = a0 * pi + a1;
        assert(r == q * pi + a2) by (nonlinear_arith)
            requires
                r == a0 * (pi * pi) + a1 * pi + a2,
                q == a0 * pi + a1,
        ;
        vstd::arithmetic::div_mod::lemma_fundamental_div_mod_converse(r, pi, q, a2);
        vstd::arithmetic::div_mod::lemma_fundamental_div_mod_converse(q, pi, a0, a1);
        vstd::arithmetic::div_mod::lemma_div_denominator(r, pi, pi);
        vstd::arithmetic::div_mod::lemma_small_mod(a0 as nat, p);
        assert(row[0] == alpha[0]);
        assert(row[1] == alpha[1]);
        assert(row[2] == alpha[2]);
        assert(row =~= alpha);
    }
}

/// With distinct positions, the first `m` multi-indices are found back at their positions.
proof fn lemma_table_inverts_prefix(
    rows: Seq<Seq<usize>>,
    tv: Option<Seq<i32>>,
    si: Option<Seq<usize>>,
    p: int,
    diagonal: bool,
    m: nat,
)
    requires
        m <= rows.len(),
        1 <= rows.len() <= usize::MAX,
        permutation_table_defined(rows, tv, si, p, diagonal),
        forall|j1: int, j2: int|
            0 <= j1 < rows.len() && 0 <= j2 < rows.len() && j1 != j2 ==> #[trigger] symmetry_position(
                rows,
                tv,
                si,
                p,
                diagonal,
                j1,
            ) != #[trigger] symmetry_position(rows, tv, si, p, diagonal, j2),
    ensures
        forall|j: int|
            0 <= j < m ==> permutation_table(rows, tv, si, p, diagonal, m)[symmetry_position(
                rows,
                tv,
                si,
                p,
                diagonal,
                j,
            )] == j,
    decreases m,
{
    if m > 0 {
        lemma_table_inverts_prefix(rows, tv, si, p, diagonal, (m - 1) as nat);
        lemma_permutation_table_shape(rows, tv, si, p, diagonal, (m - 1) as nat);
        let prev = permutation_table(rows, tv, si, p, diagonal, (m - 1) as nat);
        let last = symmetry_position(rows, tv, si, p, diagonal, m - 1);
        assert(0 <= last < prev.len());
        assert(permutation_table(rows, tv, si, p, diagonal, m) == prev.update(last, (m - 1) as usize));
        assert forall|j: int|
            0 <= j < m implies permutation_table(rows, tv, si, p, diagonal, m)[symmetry_position(
            rows,
            tv,
            si,
            p,
            diagonal,
            j,
        )] == j by {
            if j < m - 1 {
                assert(symmetry_position(rows, tv, si, p, diagonal, j) != last);
                assert(0 <= symmetry_position(rows, tv, si, p, diagonal, j) < prev.len());
            }
        }
    }
}

/// With distinct positions, the permutation table lists each index once and sends each
/// multi-index's position back to that multi-index.
proof fn lemma_table_is_permutation(
    rows: Seq<Seq<usize>>,
    tv: Option<Seq<i32>>,
    si: Option<Seq<usize>>,
    p: int,
    diagonal: bool,
)
    requires
        1 <= rows.len() <= usize::MAX,
        permutation_table_defined(rows, tv, si, p, diagonal),
        forall|j1: int, j2: int|
            0 <= j1 < rows.len() && 0 <= j2 < rows.len() && j1 != j2 ==> #[trigger] symmetry_position(
                rows,
                tv,
                si,
                p,
                diagonal,
                j1,
            ) != #[trigger] symmetry_position(rows, tv, si, p, diagonal, j2),
    ensures
        is_range_permutation(
            permutation_table(rows, tv, si, p, diagonal, rows.len()),
            rows.len(),
        ),
        forall|j: int|
            0 <= j < rows.len() ==> permutation_table(rows, tv, si, p, diagonal, rows.len())[
            symmetry_position(rows, tv, si, p, diagonal, j)] == j,
{
    let n = rows.len();
    let t = permutation_table(rows, tv, si, p, diagonal, n);
    lemma_table_inverts_prefix(rows, tv, si, p, diagonal, n);
    lemma_permutation_table_shape(rows, tv, si, p, diagonal, n);
    let keys = Seq::new(n, |j: int| symmetry_position(rows, tv, si, p, diagonal, j) as usize);
    assert forall|j: int| 0 <= j < n implies #[trigger] keys[j] < n && keys[j] as int
        == symmetry_position(rows, tv, si, p, diagonal, j) by {
    }
    assert(keys.no_duplicates()) by {
        assert forall|a: int, b: int| 0 <= a < n && 0 <= b < n && a != b implies keys[a] != keys[b] by {
            assert(keys[a] as int == symmetry_position(rows, tv, si, p, diagonal, a));
            assert(keys[b] as int == symmetry_position(rows, tv, si, p, diagonal, b));
        }
    }
    assert forall|i: int, j: int| 0 <= i < j < n implies t[i] != t[j] by {
        lemma_distinct_covers(keys, n, i as usize);
        lemma_distinct_covers(keys, n, j as usize);
        let a = choose|a: int| 0 <= a < n && keys[a] == i as usize;
        let b = choose|b: int| 0 <= b < n && keys[b] == j as usize;
        assert(keys[a] as int == symmetry_position(rows, tv, si, p, diagonal, a));
        assert(keys[b] as int == symmetry_position(rows, tv, si, p, diagonal, b));
        assert(t[i] == a);
        assert(t[j] == b);
    }
}

/// Each entry of a grid row lies in `1..=p`, and the row has `d` entries.
proof fn lemma_grid_row_entries(d: nat, p: nat, r: int)
    requires
        1 <= p <= usize::MAX,
        0 <= r < pow_nat(p, d),
    ensures
        grid_multi_indices(d, p)[r].len() == d,
        forall|i: int| 0 <= i < d ==> 1 <= #[trigger] grid_multi_indices(d, p)[r][i] <= p,
{
    assert(grid_multi_indices(d, p)[r] == product_row(one_based(p), d, r as nat));
    assert forall|i: int| 0 <= i < d implies 1 <= #[trigger] grid_multi_indices(d, p)[r][i] <= p by {
        lemma_grid_entry(d, p, r as nat, i as nat);
    }
}

/// In up to three dimensions, reordering the axes of the grid by an ordering of `0..d`
/// sends distinct multi-indices to distinct positions.
proof fn lemma_diagonal_positions_distinct(d: nat, p: nat, order: Seq<usize>)
    requires
        1 <= d <= 3,
        1 <= p,
        pow_nat(p, d) <= usize::MAX,
        is_range_permutation(order, d),
    ensures
        forall|j1: int, j2: int|
            0 <= j1 < grid_multi_indices(d, p).len() && 0 <= j2 < grid_multi_indices(d, p).len()
                && j1 != j2 ==> #[trigger] symmetry_position(
                grid_multi_indices(d, p),
                None,
                Some(order),
                p as int,
                true,
                j1,
            ) != #[trigger] symmetry_position(
                grid_multi_indices(d, p),
                None,
                Some(order),
                p as int,
                true,
                j2,
            ),
{
    let grid = grid_multi_indices(d, p);
    lemma_pow_monotone(p, 1, d);
    assert(pow_nat(p, 0) == 1);
    assert(pow_nat(p, 1) == p * pow_nat(p, 0));
    assert forall|j1: int, j2: int|
        0 <= j1 < grid.len() && 0 <= j2 < grid.len() && j1 != j2 implies #[trigger] symmetry_position(
        grid,
        None,
        Some(order),
        p as int,
        true,
        j1,
    ) != #[trigger] symmetry_position(grid, None, Some(order), p as int, true, j2) by {
        let a = grid[j1];
        let b = grid[j2];
        let sa = diagonal_permuted(a, order);
        let sb = diagonal_permuted(b, order);
        lemma_grid_row_entries(d, p, j1);
        lemma_grid_row_entries(d, p, j2);
        assert forall|k: int| 0 <= k < d implies 1 <= #[trigger] sa[k] <= p by {
            assert(order[k] < d);
        }
        assert forall|k: int| 0 <= k < d implies 1 <= #[trigger] sb[k] <= p by {
            assert(order[k] < d);
        }
        if multi_index_position(sa, p as int) == multi_index_position(sb, p as int) {
            lemma_grid_row_at_position(sa, d, p);
            lemma_grid_row_at_position(sb, d, p);
            assert(sa == sb);
            assert forall|i: int| 0 <= i < d implies a[i] == b[i] by {
                lemma_distinct_covers(order, d, i as usize);
                let k = choose|k: int| 0 <= k < order.len() && order[k] == i as usize;
                assert(sa[k] == a[i]);
                assert(sb[k] == b[i]);
            }
            assert(a =~= b);
            lemma_grid_position(d, p, j1 as nat);
            lemma_grid_position(d, p, j2 as nat);
        }
    }
}

/// In up to three dimensions, reflecting the grid along the negative axes of a sign
/// pattern sends distinct multi-indices to distinct positions.
proof fn lemma_axial_positions_distinct(d: nat, p: nat, signs: Seq<i32>)
    requires
        1 <= d <= 3,
        1 <= p,
        pow_nat(p, d) <= usize::MAX,
        signs.len() == d,
    ensures
        forall|j1: int, j2: int|
            0 <= j1 < grid_multi_indices(d, p).len() && 0 <= j2 < grid_multi_indices(d, p).len()
                && j1 != j2 ==> #[trigger] symmetry_position(
                grid_multi_indices(d, p),
                Some(signs),
                None,
                p as int,
                false,
                j1,
            ) != #[trigger] symmetry_position(
                grid_multi_indices(d, p),
                Some(signs),
                None,
                p as int,
                false,
                j2,
            ),
{
    let grid = grid_multi_indices(d, p);
    lemma_pow_monotone(p, 1, d);
    assert(pow_nat(p, 0) == 1);
    assert(pow_nat(p, 1) == p * pow_nat(p, 0));
    assert forall|j1: int, j2: int|
        0 <= j1 < grid.len() && 0 <= j2 < grid.len() && j1 != j2 implies #[trigger] symmetry_position(
        grid,
        Some(signs),
        None,
        p as int,
        false,
        j1,
    ) != #[trigger] symmetry_position(grid, Some(signs), None, p as int, false, j2) by {
        let a = grid[j1];
        let b = grid[j2];
        let sa = axial_permuted(a, signs, p as int);
        let sb = axial_permuted(b, signs, p as int);
        lemma_grid_row_entries(d, p, j1);
        lemma_grid_row_entries(d, p, j2);
        assert forall|k: int| 0 <= k < d implies 1 <= #[trigger] sa[k] <= p by {
            assert(1 <= a[k] <= p);
        }
        assert forall|k: int| 0 <= k < d implies 1 <= #[trigger] sb[k] <= p by {
            assert(1 <= b[k] <= p);
        }
        if multi_index_position(sa, p as int) == multi_index_position(sb, p as int) {
            lemma_grid_row_at_position(sa, d, p);
            lemma_grid_row_at_position(sb, d, p);
            assert(sa == sb);
            assert forall|i: int| 0 <= i < d implies a[i] == b[i] by {
                assert(sa[i] == sb[i]);
                assert(1 <= a[i] <= p && 1 <= b[i] <= p);
            }
            assert(a =~= b);
            lemma_grid_position(d, p, j1 as nat);
            lemma_grid_position(d, p, j2 as nat);
        }
    }
}

/// The stable argsort of a permutation of `0..n` is its inverse.
proof fn lemma_argsort_inverts(q: Seq<usize>, n: nat)
    requires
        is_range_permutation(q, n),
        n <= i64::MAX,
        n <= usize::MAX,
    ensures
        is_range_permutation(stable_argsort(index_keys(q)), n),
        forall|i: int| 0 <= i < n ==> q[stable_argsort(index_keys(q))[i] as int] == i,
        forall|j: int| 0 <= j < n ==> stable_argsort(index_keys(q))[q[j] as int] == j,
{
    broadcast use vstd::seq_lib::group_to_multiset_ensures;

    let data = index_keys(q);
    let leq = index_leq(data);
    let ids = index_range(n);
    let r = stable_argsort(data);
    lemma_index_leq_total(data);
    ids.lemma_sort_by_ensures(leq);
    assert(r == ids.sort_by(leq));
    assert(r.to_multiset() == ids.to_multiset());
    assert(r.len() == n) by {
        assert(r.len() == r.to_multiset().len());
        assert(ids.len() == ids.to_multiset().len());
    }
    assert forall|x: usize| #[trigger] r.contains(x) <==> x < n by {
        assert(r.contains(x) <==> r.to_multiset().count(x) > 0);
        assert(ids.contains(x) <==> ids.to_multiset().count(x) > 0);
        if x < n {
            assert(ids[x as int] == x);
        }
        if ids.contains(x) {
            let k = choose|k: int| 0 <= k < ids.len() && ids[k] == x;
            assert(ids[k] == k as usize);
        }
    }
    assert forall|k: int| 0 <= k < r.len() implies #[trigger] r[k] < n by {
        assert(r.contains(r[k]));
    }
    lemma_covering_is_distinct(r, n);
    let v = Seq::new(n, |k: int| q[r[k] as int] as int);
    assert forall|k: int| 0 <= k < n implies 0 <= #[trigger] v[k] < n by {
        assert(r[k] < n);
    }
    assert forall|a: int, b: int| 0 <= a < b < n implies v[a] < v[b] by {
        assert(leq(r[a], r[b]));
        assert(r[a] != r[b]);
        assert(key_before(data, r[a], r[b]));
        assert(r[a] < n && r[b] < n);
        assert(data[r[a] as int] == q[r[a] as int] as i64);
        assert(data[r[b] as int] == q[r[b] as int] as i64);
        assert(q[r[a] as int] != q[r[b] as int]);
    }
    lemma_increasing_is_identity(v, n);
    assert forall|i: int| 0 <= i < n implies q[r[i] as int] == i by {
        assert(v[i] == i);
    }
    assert forall|j: int| 0 <= j < n implies r[q[j] as int] == j by {
        let i = q[j] as int;
        assert(0 <= i < n);
        assert(v[i] == i);
        assert(r[i] < n);
        if r[i] as int != j {
            assert(q[r[i] as int] != q[j]);
        }
    }
}

/// Composing two permutations of `0..n` gives a permutation of `0..n`.
proof fn lemma_compose_permutations(ax: Seq<usize>, dg: Seq<usize>, n: nat)
    requires
        is_range_permutation(ax, n),
        is_range_permutation(dg, n),
    ensures
        is_range_permutation(compose_table(ax, dg), n),
{
    let comb = compose_table(ax, dg);
    assert forall|i: int| 0 <= i < n implies #[trigger] comb[i] < n by {
        assert(dg[i] < n);
    }
    assert forall|i: int, j: int| 0 <= i < j < n implies comb[i] != comb[j] by {
        assert(dg[i] != dg[j]);
        assert(dg[i] < n && dg[j] < n);
        if dg[i] < dg[j] {
            assert(ax[dg[i] as int] != ax[dg[j] as int]);
        } else {
            assert(ax[dg[j] as int] != ax[dg[i] as int]);
        }
    }
}

/// In up to three dimensions, each combined permutation of the M2L symmetry tables lists
/// every interpolation-matrix index exactly once, and its inverse permutation undoes it.
pub proof fn lemma_combined_permutations_invert(orders: Seq<Seq<usize>>, d: nat, p: nat, c: int)
    requires
        1 <= d <= 3,
        1 <= p,
        pow_nat(p, d) <= usize::MAX,
        pow_nat(p, d) <= i64::MAX,
        forall|o: int| 0 <= o < orders.len() ==> is_range_permutation(#[trigger] orders[o], d),
        0 <= c < combined_permutation_indices(orders, d, p).len(),
    ensures
        is_range_permutation(combined_permutation_indices(orders, d, p)[c], pow_nat(p, d)),
        is_range_permutation(
            inverse_permutations(combined_permutation_indices(orders, d, p))[c],
            pow_nat(p, d),
        ),
        forall|i: int|
            0 <= i < pow_nat(p, d) ==> combined_permutation_indices(orders, d, p)[c][inverse_permutations(
                combined_permutation_indices(orders, d, p),
            )[c][i] as int] == i,
        forall|j: int|
            0 <= j < pow_nat(p, d) ==> inverse_permutations(combined_permutation_indices(orders, d, p))[c][
            combined_permutation_indices(orders, d, p)[c][j] as int] == j,
{
    let n = pow_nat(p, d);
    let grid = grid_multi_indices(d, p);
    lemma_pow_positive(p, d);
    let axial = Seq::new(pow_nat(2, d), |a: int| axial_table(a, d, p));
    let diagonal = Seq::new(orders.len(), |o: int| diagonal_table(orders, o, d, p));
    let o = orders.len() as int;
    lemma_combination_index(c, axial.len() as int, o);
    let a = c / o;
    let b = c % o;
    let signs = axis_sign_rows(d)[a];
    assert(signs == product_row(axis_sign_values(), d, a as nat));
    assert(signs.len() == d);
    lemma_axial_table_defined(d, p, signs);
    lemma_axial_positions_distinct(d, p, signs);
    lemma_table_is_permutation(grid, Some(signs), None, p as int, false);
    lemma_diagonal_table_defined(d, p, orders[b]);
    lemma_diagonal_positions_distinct(d, p, orders[b]);
    lemma_table_is_permutation(grid, None, Some(orders[b]), p as int, true);
    assert(axial[a] == axial_table(a, d, p));
    assert(diagonal[b] == diagonal_table(orders, b, d, p));
    lemma_compose_permutations(axial[a], diagonal[b], n);
    let comb = combined_permutation_indices(orders, d, p);
    assert(comb[c] == compose_table(axial[a], diagonal[b]));
    lemma_argsort_inverts(comb[c], n);
    assert(inverse_permutations(comb)[c] == stable_argsort(index_keys(comb[c])));
}

} // verus!
