//! Index logic of packed symmetric storage: Rectangular Full Packed format (RFP) and
//! column-major packing of a lower triangle.
//!
//! A triangle of an `n`-by-`n` symmetric matrix holds `n (n + 1) / 2` entries. RFP
//! lays them out as a full rectangle of `rfp_rows(n)` rows and `rfp_cols(n)` columns
//! (Gustavson et al., Rectangular Full Packed Format for Cholesky's Algorithm, 2009),
//! so that every entry of the triangle has exactly one slot and every slot one entry.
use vstd::prelude::*;

verus! {

/// Which triangle of a symmetric matrix is stored.
#[derive(Debug, Clone, Copy, PartialEq, Eq, Structural)]
pub enum Side {
    Lower,
    Upper,
}

/// A dense matrix stored column by column: entry `(i, j)` is `data[i + j * nrows]`.
#[derive(Debug, Clone)]
pub struct ColMatrix<T> {
    pub nrows: usize,
    pub ncols: usize,
    pub data: Vec<T>,
}

impl<T> ColMatrix<T> {
    /// The data holds exactly `nrows * ncols` entries.
    pub open spec fn wf(&self) -> bool {
        self.data@.len() == self.nrows * self.ncols
    }

    /// Entry `(i, j)`.
    pub open spec fn at(&self, i: int, j: int) -> T {
        self.data@[i + j * self.nrows]
    }

    /// Number of rows and columns.
    pub fn shape(&self) -> (s: (usize, usize))
        ensures
            s == (self.nrows, self.ncols),
    {
        (self.nrows, self.ncols)
    }

    /// A reference to entry `(i, j)`.
    pub fn get(&self, i: usize, j: usize) -> (v: &T)
        requires
            self.wf(),
            i < self.nrows,
            j < self.ncols,
        ensures
            *v == self.at(i as int, j as int),
    {
        let len = self.data.len();
        proof {
            lemma_col_major_index(i as int, j as int, self.nrows as int, self.ncols as int);
            assert(0 <= j * self.nrows <= i + j * self.nrows);
        }
        &self.data[i + j * self.nrows]
    }
}

/// A column-major index of an entry inside the matrix lies inside its data.
pub proof fn lemma_col_major_index(i: int, j: int, rows: int, cols: int)
    requires
        0 <= i < rows,
        0 <= j < cols,
    ensures
        0 <= i + j * rows < rows * cols,
{
    assert(0 <= i + j * rows < rows * cols) by (nonlinear_arith)
        requires
            0 <= i < rows,
            0 <= j < cols,
    ;
}

/// Column-major indices of a later column come after every index of an earlier one.
proof fn lemma_col_major_order(i: int, j: int, i2: int, j2: int, rows: int)
    requires
        0 <= i < rows,
        0 <= i2 < rows,
        0 <= j < j2,
    ensures
        i + j * rows < i2 + j2 * rows,
{
    assert(i + j * rows < i2 + j2 * rows) by (nonlinear_arith)
        requires
            0 <= i < rows,
            0 <= i2 < rows,
            0 <= j < j2,
    ;
}

/// Number of columns of the RFP array of an `n`-by-`n` matrix.
pub open spec fn rfp_cols(n: int) -> int {
    (n + 1) / 2
}

/// Number of rows of the RFP array: `n + 1` for even `n`, `n` for odd `n`.
pub open spec fn rfp_rows(n: int) -> int {
    if n % 2 == 0 {
        n + 1
    } else {
        n
    }
}

/// Entry `(i, j)` belongs to the stored triangle.
pub open spec fn in_triangle(n: int, side: Side, i: int, j: int) -> bool {
    &&& 0 <= i < n
    &&& 0 <= j < n
    &&& match side {
        Side::Lower => j <= i,
        Side::Upper => i <= j,
    }
}

/// Slot `(r, c)` lies inside the RFP array.
pub open spec fn in_rfp(n: int, r: int, c: int) -> bool {
    0 <= r < rfp_rows(n) && 0 <= c < rfp_cols(n)
}

/// The entry of the matrix that RFP keeps at slot `(r, c)`.
///
/// Lower: the leading `n1`-by-`n1` triangle and the block below it sit one row down
/// (even `n`) or in place (odd `n`); the trailing triangle, transposed, fills the rest.
/// Upper: the trailing columns sit at the top; the leading triangle, transposed, sits
/// below them.
pub open spec fn rfp_source(n: int, side: Side, r: int, c: int) -> (int, int) {
    let n1 = rfp_cols(n);
    let n2 = n - n1;
    let even = n % 2 == 0;
    match side {
        Side::Lower => {
            let ro: int = if even { 1 } else { 0 };
            let co: int = if even { 0 } else { 1 };
            if r >= ro && c + ro <= r {
                (r - ro, c)
            } else {
                (n1 + c - co, n1 + r)
            }
        },
        Side::Upper => {
            if c + n2 >= r {
                (r, n2 + c)
            } else {
                (c, r - n2 - 1)
            }
        },
    }
}

/// The RFP slot that keeps entry `(i, j)` of the stored triangle.
pub open spec fn rfp_position(n: int, side: Side, i: int, j: int) -> (int, int) {
    let n1 = rfp_cols(n);
    let n2 = n - n1;
    let even = n % 2 == 0;
    match side {
        Side::Lower => {
            let ro: int = if even { 1 } else { 0 };
            let co: int = if even { 0 } else { 1 };
            if j >= n1 {
                (j - n1, i - n1 + co)
            } else {
                (i + ro, j)
            }
        },
        Side::Upper => {
            if j < n2 {
                (n2 + 1 + j, i)
            } else {
                (i, j - n2)
            }
        },
    }
}

/// RFP is a one-to-one correspondence between the stored triangle and the slots of
/// the array: each entry has a slot inside the array, each slot holds an entry of the
/// triangle, and the two maps undo each other.
pub proof fn lemma_rfp_bijection(n: int, side: Side)
    requires
        n >= 0,
    ensures
        forall|i: int, j: int|
            #![trigger rfp_position(n, side, i, j)]
            in_triangle(n, side, i, j) ==> {
                let (r, c) = rfp_position(n, side, i, j);
                &&& in_rfp(n, r, c)
                &&& rfp_source(n, side, r, c) == (i, j)
            },
        forall|r: int, c: int|
            #![trigger rfp_source(n, side, r, c)]
            in_rfp(n, r, c) ==> {
                let (i, j) = rfp_source(n, side, r, c);
                &&& in_triangle(n, side, i, j)
                &&& rfp_position(n, side, i, j) == (r, c)
            },
{
    let n1 = rfp_cols(n);
    assert(n % 2 == 0 ==> n == 2 * n1);
    assert(n % 2 != 0 ==> n == 2 * n1 - 1);
}

/// Computes `rfp_source` for a matrix of order `n`.
fn rfp_source_exec(n: usize, side: Side, r: usize, c: usize) -> (ij: (usize, usize))
    requires
        in_rfp(n as int, r as int, c as int),
    ensures
        ij.0 as int == rfp_source(n as int, side, r as int, c as int).0,
        ij.1 as int == rfp_source(n as int, side, r as int, c as int).1,
{
    proof {
        lemma_rfp_bijection(n as int, side);
        assert(in_rfp(n as int, r as int, c as int));
    }
    let n1: usize = n / 2 + n % 2;
    let n2: usize = n - n1;
    let even = n % 2 == 0;
    match side {
        Side::Lower => {
            let ro: usize = if even { 1 } else { 0 };
            let co: usize = if even { 0 } else { 1 };
            if r >= ro && c + ro <= r {
                (r - ro, c)
            } else {
                (n1 + c - co, n1 + r)
            }
        },
        Side::Upper => {
            if c + n2 >= r {
                (r, n2 + c)
            } else {
                (c, r - n2 - 1)
            }
        },
    }
}

/// Converts the stored triangle of a square matrix into Rectangular Full Packed
/// format: an array of `rfp_rows(n)` rows and `rfp_cols(n)` columns whose slot `(r, c)`
/// holds entry `rfp_source(n, side, r, c)`; every entry of the triangle is found at
/// `rfp_position(n, side, i, j)`.
pub fn to_rfp<T: Copy>(a: &ColMatrix<T>, side: &Side) -> (ar: ColMatrix<T>)
    requires
        a.wf(),
        a.nrows == a.ncols,
    ensures
        ar.wf(),
        ar.nrows == rfp_rows(a.nrows as int),
        ar.ncols == rfp_cols(a.nrows as int),
        forall|r: int, c: int|
            #![trigger ar.at(r, c)]
            in_rfp(a.nrows as int, r, c) ==> {
                let (i, j) = rfp_source(a.nrows as int, *side, r, c);
                ar.at(r, c) == a.at(i, j)
            },
        forall|i: int, j: int|
            #![trigger a.at(i, j)]
            in_triangle(a.nrows as int, *side, i, j) ==> {
                let (r, c) = rfp_position(a.nrows as int, *side, i, j);
                ar.at(r, c) == a.at(i, j)
            },
{
    let n = a.nrows;
    let len = a.data.len();
    let side = *side;
    proof {
        lemma_rfp_bijection(n as int, side);
        if n >= 2 {
            assert(n * n >= 2 * n) by (nonlinear_arith)
                requires
                    n >= 2,
            ;
        }
    }
    let ldar: usize = if n % 2 == 0 { n + 1 } else { n };
    let n1: usize = n / 2 + n % 2;
    let mut data: Vec<T> = Vec::new();
    let mut c: usize = 0;
    while c < n1
        invariant
            n == a.nrows,
            a.wf(),
            a.nrows == a.ncols,
            len == a.data@.len(),
            ldar == rfp_rows(n as int),
            n1 == rfp_cols(n as int),
            c <= n1,
            data@.len() == c * ldar,
            forall|r2: int, c2: int|
                0 <= r2 < ldar && 0 <= c2 < c ==> {
                    let (i, j) = rfp_source(n as int, side, r2, c2);
                    #[trigger] data@[r2 + c2 * ldar] == a.at(i, j)
                },
        decreases n1 - c,
    {
        let mut r: usize = 0;
        while r < ldar
            invariant
                n == a.nrows,
                a.wf(),
                a.nrows == a.ncols,
                len == a.data@.len(),
                ldar == rfp_rows(n as int),
                n1 == rfp_cols(n as int),
                c < n1,
                r <= ldar,
                data@.len() == c * ldar + r,
                forall|r2: int, c2: int|
                    0 <= r2 < ldar && 0 <= c2 < c ==> {
                        let (i, j) = rfp_source(n as int, side, r2, c2);
                        #[trigger] data@[r2 + c2 * ldar] == a.at(i, j)
                    },
                forall|r2: int|
                    0 <= r2 < r ==> {
                        let (i, j) = rfp_source(n as int, side, r2, c as int);
                        #[trigger] data@[r2 + c * ldar] == a.at(i, j)
                    },
            decreases ldar - r,
        {
            let (i, j) = rfp_source_exec(n, side, r, c);
            proof {
                lemma_rfp_bijection(n as int, side);
                assert(in_rfp(n as int, r as int, c as int));
                lemma_col_major_index(i as int, j as int, n as int, n as int);
                assert(0 <= j * n <= i + j * n);
            }
            let v = a.data[i + j * n];
            let ghost old_data = data@;
            data.push(v);
            proof {
                assert(r + c * ldar == c * ldar + r);
                assert forall|r2: int, c2: int|
                    0 <= r2 < ldar && 0 <= c2 < c implies {
                        let (i2, j2) = rfp_source(n as int, side, r2, c2);
                        #[trigger] data@[r2 + c2 * ldar] == a.at(i2, j2)
                    } by {
                    lemma_col_major_order(r2, c2, r as int, c as int, ldar as int);
                    assert(data@[r2 + c2 * ldar] == old_data[r2 + c2 * ldar]);
                }
                assert forall|r2: int|
                    0 <= r2 < r + 1 implies {
                        let (i2, j2) = rfp_source(n as int, side, r2, c as int);
                        #[trigger] data@[r2 + c * ldar] == a.at(i2, j2)
                    } by {
                    if r2 < r {
                        assert(data@[r2 + c * ldar] == old_data[r2 + c * ldar]);
                    }
                }
            }
            r = r + 1;
        }
        proof {
            assert((c + 1) * ldar == c * ldar + ldar) by (nonlinear_arith);
            assert forall|r2: int, c2: int|
                0 <= r2 < ldar && 0 <= c2 < c + 1 implies {
                    let (i, j) = rfp_source(n as int, side, r2, c2);
                    #[trigger] data@[r2 + c2 * ldar] == a.at(i, j)
                } by {
                if c2 == c {
                    let (i, j) = rfp_source(n as int, side, r2, c as int);
                    assert(data@[r2 + c * ldar] == a.at(i, j));
                }
            }
        }
        c = c + 1;
    }
    let ar = ColMatrix { nrows: ldar, ncols: n1, data };
    proof {
        assert(n1 * ldar == ldar * n1) by (nonlinear_arith);
        assert forall|r: int, c2: int| #![trigger ar.at(r, c2)] in_rfp(n as int, r, c2) implies {
            let (i, j) = rfp_source(n as int, side, r, c2);
            ar.at(r, c2) == a.at(i, j)
        } by {
            assert(ar.at(r, c2) == ar.data@[r + c2 * ldar]);
        }
        assert forall|i: int, j: int| #![trigger a.at(i, j)] in_triangle(n as int, side, i, j) implies {
            let (r, c2) = rfp_position(n as int, side, i, j);
            ar.at(r, c2) == a.at(i, j)
        } by {
            let (r, c2) = rfp_position(n as int, side, i, j);
            assert(in_rfp(n as int, r, c2));
            assert(ar.at(r, c2) == ar.data@[r + c2 * ldar]);
        }
    }
    ar
}

/// Order of the matrix whose RFP array has `ldar` rows and `n1` columns.
pub open spec fn rfp_order(ldar: int, n1: int) -> int {
    if ldar == 2 * n1 - 1 {
        ldar
    } else {
        ldar - 1
    }
}

/// From the shape of an RFP array, whether the matrix order is even and the size `n2`
/// of the trailing block (the order less `n1`).
pub fn get_dims_from_rfp(ldar: &usize, n1: &usize) -> (dims: (bool, usize))
    requires
        1 <= *n1,
        2 * *n1 <= usize::MAX,
        1 <= *ldar,
        rfp_order(*ldar as int, *n1 as int) >= *n1,
    ensures
        dims.0 == (rfp_order(*ldar as int, *n1 as int) % 2 == 0),
        dims.1 == rfp_order(*ldar as int, *n1 as int) - *n1,
{
    let order: usize = if *ldar == 2 * *n1 - 1 { *ldar } else { *ldar - 1 };
    let even = order % 2 == 0;
    let n2 = order - *n1;
    (even, n2)
}

/// Reading the shape of the RFP array of a matrix of order `n >= 1` gives back the
/// order's parity and the trailing block size `n - rfp_cols(n)`.
pub proof fn lemma_dims_from_rfp_shape(n: int)
    requires
        n >= 1,
    ensures
        1 <= rfp_cols(n),
        1 <= rfp_rows(n),
        rfp_order(rfp_rows(n), rfp_cols(n)) == n,
        n >= rfp_cols(n),
{
}

/// Origin row, origin column, rows and columns of the three blocks of a 2-by-2 block
/// matrix: the leading diagonal block, the off-diagonal block, the trailing diagonal
/// block.
#[derive(Debug, Clone, Copy)]
pub struct SubmatrixParams {
    pub a11: (usize, usize, usize, usize),
    pub a21_or_a12: (usize, usize, usize, usize),
    pub a22: (usize, usize, usize, usize),
}

/// Blocks of the RFP array for each side and parity.
pub open spec fn rfp_block_params(side: Side, even: bool, n1: usize, n2: usize) -> SubmatrixParams {
    let row_offset: usize = if even { 1 } else { 0 };
    let col_offset: usize = if even { 0 } else { 1 };
    match side {
        Side::Lower => SubmatrixParams {
            a11: (row_offset, 0, n1, n1),
            a21_or_a12: ((n1 + row_offset) as usize, 0, n2, n1),
            a22: (0, col_offset, n2, n2),
        },
        Side::Upper => SubmatrixParams {
            a11: ((n2 + 1) as usize, 0, n2, n2),
            a21_or_a12: (0, 0, n2, n1),
            a22: (n2, 0, n1, n1),
        },
    }
}

/// Blocks of the full matrix: the leading block is `n1` wide for the lower triangle and
/// `n2` wide for the upper one.
pub open spec fn a_block_params(side: Side, n1: usize, n2: usize) -> SubmatrixParams {
    match side {
        Side::Lower => SubmatrixParams {
            a11: (0, 0, n1, n1),
            a21_or_a12: (n1, 0, n2, n1),
            a22: (n1, n1, n2, n2),
        },
        Side::Upper => SubmatrixParams {
            a11: (0, 0, n2, n2),
            a21_or_a12: (0, n2, n2, n1),
            a22: (n2, n2, n1, n1),
        },
    }
}

/// The blocks of the RFP array for the side and parity.
pub fn get_rfp_block_submatrix_params(side: &Side, even: &bool, n1: &usize, n2: &usize) -> (p:
    SubmatrixParams)
    requires
        *n1 + 1 <= usize::MAX,
        *n2 + 1 <= usize::MAX,
    ensures
        p == rfp_block_params(*side, *even, *n1, *n2),
{
    let (row_offset, col_offset): (usize, usize) = if *even { (1, 0) } else { (0, 1) };
    match side {
        Side::Lower => SubmatrixParams {
            a11: (row_offset, 0, *n1, *n1),
            a21_or_a12: (*n1 + row_offset, 0, *n2, *n1),
            a22: (0, col_offset, *n2, *n2),
        },
        Side::Upper => SubmatrixParams {
            a11: (*n2 + 1, 0, *n2, *n2),
            a21_or_a12: (0, 0, *n2, *n1),
            a22: (*n2, 0, *n1, *n1),
        },
    }
}

/// The blocks of the full matrix for the side.
pub fn get_a_block_submatrix_params(side: &Side, n1: &usize, n2: &usize) -> (p: SubmatrixParams)
    ensures
        p == a_block_params(*side, *n1, *n2),
{
    match side {
        Side::Lower => SubmatrixParams {
            a11: (0, 0, *n1, *n1),
            a21_or_a12: (*n1, 0, *n2, *n1),
            a22: (*n1, *n1, *n2, *n2),
        },
        Side::Upper => SubmatrixParams {
            a11: (0, 0, *n2, *n2),
            a21_or_a12: (0, *n2, *n2, *n1),
            a22: (*n2, *n2, *n1, *n1),
        },
    }
}

/// The block description agrees with the RFP map: each block of the matrix lands at
/// the origin of its block in the RFP array, the diagonal block that the RFP array
/// holds the other way round (the trailing one for the lower triangle, the leading one
/// for the upper) transposed, the others as they are.
pub proof fn lemma_block_params_follow_rfp(n: int, side: Side)
    requires
        0 <= n,
        n + 2 <= usize::MAX,
    ensures
        ({
            let n1 = rfp_cols(n) as usize;
            let n2 = (n - rfp_cols(n)) as usize;
            let f = a_block_params(side, n1, n2);
            let t = rfp_block_params(side, n % 2 == 0, n1, n2);
            let lower = side == Side::Lower;
            &&& forall|i: int, j: int|
                0 <= i < f.a11.2 && 0 <= j < f.a11.3 && (if lower { j <= i } else { i <= j })
                    ==> #[trigger] rfp_position(n, side, f.a11.0 + i, f.a11.1 + j) == (if lower {
                    (t.a11.0 + i, t.a11.1 + j)
                } else {
                    (t.a11.0 + j, t.a11.1 + i)
                })
            &&& forall|i: int, j: int|
                0 <= i < f.a21_or_a12.2 && 0 <= j < f.a21_or_a12.3 ==> #[trigger] rfp_position(
                    n,
                    side,
                    f.a21_or_a12.0 + i,
                    f.a21_or_a12.1 + j,
                ) == (t.a21_or_a12.0 + i, t.a21_or_a12.1 + j)
            &&& forall|i: int, j: int|
                0 <= i < f.a22.2 && 0 <= j < f.a22.3 && (if lower { j <= i } else { i <= j })
                    ==> #[trigger] rfp_position(n, side, f.a22.0 + i, f.a22.1 + j) == (if lower {
                    (t.a22.0 + j, t.a22.1 + i)
                } else {
                    (t.a22.0 + i, t.a22.1 + j)
                })
        }),
{
    let n1 = rfp_cols(n);
    assert(n % 2 == 0 ==> n == 2 * n1);
    assert(n % 2 != 0 ==> n == 2 * n1 - 1);
}

/// Where column `j` of the lower triangle starts in the packed vector: the columns
/// before it hold `n`, `n - 1`, ... entries.
pub open spec fn tril_offset(n: int, j: int) -> int
    decreases j,
{
    if j <= 0 {
        0
    } else {
        tril_offset(n, j - 1) + (n - (j - 1))
    }
}

/// Rows `j..n` of column `j` of a column-major `n`-by-`n` matrix.
pub open spec fn tril_column<T>(s: Seq<T>, n: int, j: int) -> Seq<T> {
    s.subrange(j * n + j, j * n + n)
}

/// The lower-triangle parts of the first `k` columns, one after the other.
pub open spec fn tril_pack_cols<T>(s: Seq<T>, n: int, k: int) -> Seq<T>
    decreases k,
{
    if k <= 0 {
        Seq::empty()
    } else {
        tril_pack_cols(s, n, k - 1) + tril_column(s, n, k - 1)
    }
}

/// The lower triangle of a column-major `n`-by-`n` matrix packed column by column.
pub open spec fn tril_pack<T>(s: Seq<T>, n: int) -> Seq<T> {
    tril_pack_cols(s, n, n)
}

/// Entry `(i, j)` of the matrix unpacked from `p`: the packed entry on and below the
/// diagonal, `fill` above it.
pub open spec fn unpacked_entry<T>(p: Seq<T>, n: int, fill: T, i: int, j: int) -> T {
    if j <= i {
        p[tril_offset(n, j) + (i - j)]
    } else {
        fill
    }
}

/// Closed form of the column offsets: `2 * tril_offset(n, j) == j * (2n - j + 1)`;
/// in particular the whole triangle holds `n (n + 1) / 2` entries.
pub proof fn lemma_tril_offset_closed(n: int, j: int)
    requires
        0 <= j,
    ensures
        2 * tril_offset(n, j) == j * (2 * n - j + 1),
    decreases j,
{
    if j == 0 {
        assert(j * (2 * n - j + 1) == 0);
    } else {
        lemma_tril_offset_closed(n, j - 1);
        assert(tril_offset(n, j) == tril_offset(n, j - 1) + (n - (j - 1)));
        assert(2 * tril_offset(n, j) == j * (2 * n - j + 1)) by (nonlinear_arith)
            requires
                2 * tril_offset(n, j - 1) == (j - 1) * (2 * n - (j - 1) + 1),
                tril_offset(n, j) == tril_offset(n, j - 1) + (n - (j - 1)),
        ;
    }
}

/// Column offsets grow with the column, up to the last column.
proof fn lemma_tril_offset_monotone(n: int, j: int, k: int)
    requires
        0 <= j <= k <= n,
    ensures
        tril_offset(n, j) <= tril_offset(n, k),
    decreases k - j,
{
    if j < k {
        lemma_tril_offset_monotone(n, j, k - 1);
    }
}

/// The packed first `k` columns hold `tril_offset(n, k)` entries, and entry `i` of
/// column `j` (with `i >= j`) sits at `tril_offset(n, j) + (i - j)`.
proof fn lemma_tril_pack_cols_index<T>(s: Seq<T>, n: int, k: int)
    requires
        s.len() == n * n,
        0 <= k <= n,
    ensures
        tril_pack_cols(s, n, k).len() == tril_offset(n, k),
        forall|j: int, t: int|
            0 <= j < k && 0 <= t < n - j ==> #[trigger] tril_pack_cols(s, n, k)[tril_offset(n, j) + t]
                == s[(j + t) + j * n],
    decreases k,
{
    if k > 0 {
        lemma_tril_pack_cols_index(s, n, k - 1);
        let prev = tril_pack_cols(s, n, k - 1);
        let col = tril_column(s, n, k - 1);
        assert((k - 1) * n + n <= n * n) by (nonlinear_arith)
            requires
                0 < k <= n,
        ;
        assert(0 <= (k - 1) * n) by (nonlinear_arith)
            requires
                0 < k <= n,
        ;
        assert(col.len() == n - (k - 1));
        assert(tril_pack_cols(s, n, k) == prev + col);
        assert forall|j: int, t: int|
            0 <= j < k && 0 <= t < n - j implies #[trigger] tril_pack_cols(s, n, k)[tril_offset(
                n,
                j,
            ) + t] == s[(j + t) + j * n] by {
            lemma_col_major_index(j + t, j, n, n);
            lemma_tril_offset_monotone(n, 0, j);
            if j < k - 1 {
                lemma_tril_offset_monotone(n, j + 1, k - 1);
                assert(tril_offset(n, j + 1) == tril_offset(n, j) + (n - j));
                assert(tril_offset(n, j) + t < prev.len());
                assert((prev + col)[tril_offset(n, j) + t] == prev[tril_offset(n, j) + t]);
            } else {
                assert(j == k - 1);
                assert((prev + col)[tril_offset(n, j) + t] == col[t]);
                assert(col[t] == s[(k - 1) * n + (k - 1) + t]);
            }
        }
    }
}

/// Packs the lower triangle of a square matrix column by column into an
/// `n (n + 1) / 2`-by-one matrix.
pub fn pack_tril_colmajor<T: Copy>(a: &ColMatrix<T>) -> (out: ColMatrix<T>)
    requires
        a.wf(),
        a.nrows == a.ncols,
        a.nrows * (a.nrows + 1) <= usize::MAX,
    ensures
        out.wf(),
        out.nrows == a.nrows * (a.nrows + 1) / 2,
        out.ncols == 1,
        out.data@ == tril_pack(a.data@, a.nrows as int),
{
    let n = a.nrows;
    let len = a.data.len();
    proof {
        if n > 0 {
            assert(n + 1 <= n * (n + 1)) by (nonlinear_arith)
                requires
                    n > 0,
            ;
        }
    }
    let n_tp: usize = n * (n + 1) / 2;
    let mut data: Vec<T> = Vec::new();
    let mut j: usize = 0;
    while j < n
        invariant
            n == a.nrows,
            a.wf(),
            a.nrows == a.ncols,
            len == a.data@.len(),
            j <= n,
            data@ == tril_pack_cols(a.data@, n as int, j as int),
        decreases n - j,
    {
        let mut i: usize = j;
        proof {
            assert(j * n + n <= n * n) by (nonlinear_arith)
                requires
                    j < n,
            ;
            assert(0 <= j * n) by (nonlinear_arith)
                requires
                    j < n,
            ;
        }
        while i < n
            invariant
                n == a.nrows,
                a.wf(),
                a.nrows == a.ncols,
                len == a.data@.len(),
                j < n,
                j <= i <= n,
                j * n + n <= n * n,
                0 <= j * n,
                data@ == tril_pack_cols(a.data@, n as int, j as int) + a.data@.subrange(
                    j * n + j,
                    j * n + i,
                ),
            decreases n - i,
        {
            let v = a.data[i + j * n];
            data.push(v);
            proof {
                assert(a.data@.subrange(j * n + j, j * n + i + 1) =~= a.data@.subrange(
                    j * n + j,
                    j * n + i,
                ).push(a.data@[i + j * n]));
            }
            i = i + 1;
        }
        j = j + 1;
    }
    proof {
        lemma_tril_pack_cols_index(a.data@, n as int, n as int);
        lemma_tril_offset_closed(n as int, n as int);
    }
    ColMatrix { nrows: n_tp, ncols: 1, data }
}

/// Unpacks a column-by-column packed lower triangle into a square `n`-by-`n` matrix;
/// the entries above the diagonal are `fill`.
pub fn unpack_tril_colmajor<T: Copy>(p: &ColMatrix<T>, n: usize, fill: T) -> (out: ColMatrix<T>)
    requires
        p.wf(),
        p.ncols == 1,
        n * (n + 1) <= usize::MAX,
        n * (n + 1) / 2 == p.nrows,
    ensures
        out.wf(),
        out.nrows == n,
        out.ncols == n,
        forall|i: int, j: int|
            0 <= i < n && 0 <= j < n ==> #[trigger] out.at(i, j) == unpacked_entry(
                p.data@,
                n as int,
                fill,
                i,
                j,
            ),
{
    let ghost n_tp = p.nrows as int;
    let len = p.data.len();
    proof {
        lemma_tril_offset_closed(n as int, n as int);
        assert(n * n <= n * (n + 1)) by (nonlinear_arith);
    }
    let mut data: Vec<T> = Vec::new();
    let mut off: usize = 0;
    let mut j: usize = 0;
    while j < n
        invariant
            p.wf(),
            p.ncols == 1,
            len == p.data@.len(),
            len == n_tp,
            n_tp == tril_offset(n as int, n as int),
            n * n <= usize::MAX,
            j <= n,
            off == tril_offset(n as int, j as int),
            data@.len() == j * n,
            forall|i2: int, j2: int|
                0 <= i2 < n && 0 <= j2 < j ==> #[trigger] data@[i2 + j2 * n] == unpacked_entry(
                    p.data@,
                    n as int,
                    fill,
                    i2,
                    j2,
                ),
        decreases n - j,
    {
        proof {
            lemma_tril_offset_monotone(n as int, j as int + 1, n as int);
        }
        let mut i: usize = 0;
        while i < n
            invariant
                p.wf(),
                p.ncols == 1,
                len == p.data@.len(),
                len == n_tp,
                n_tp == tril_offset(n as int, n as int),
                j < n,
                i <= n,
                off == tril_offset(n as int, j as int),
                off + (n - j) <= n_tp,
                data@.len() == j * n + i,
                forall|i2: int, j2: int|
                    0 <= i2 < n && 0 <= j2 < j ==> #[trigger] data@[i2 + j2 * n] == unpacked_entry(
                        p.data@,
                        n as int,
                        fill,
                        i2,
                        j2,
                    ),
                forall|i2: int|
                    0 <= i2 < i ==> #[trigger] data@[i2 + j * n] == unpacked_entry(
                        p.data@,
                        n as int,
                        fill,
                        i2,
                        j as int,
                    ),
            decreases n - i,
        {
            let ghost old_data = data@;
            if i < j {
                data.push(fill);
            } else {
                data.push(p.data[off + (i - j)]);
            }
            proof {
                assert(i + j * n == j * n + i);
                assert forall|i2: int, j2: int|
                    0 <= i2 < n && 0 <= j2 < j implies #[trigger] data@[i2 + j2 * n]
                        == unpacked_entry(p.data@, n as int, fill, i2, j2) by {
                    lemma_col_major_order(i2, j2, i as int, j as int, n as int);
                    assert(data@[i2 + j2 * n] == old_data[i2 + j2 * n]);
                }
                assert forall|i2: int| 0 <= i2 < i + 1 implies #[trigger] data@[i2 + j * n]
                    == unpacked_entry(p.data@, n as int, fill, i2, j as int) by {
                    if i2 < i {
                        assert(data@[i2 + j * n] == old_data[i2 + j * n]);
                    }
                }
            }
            i = i + 1;
        }
        proof {
            assert((j + 1) * n == j * n + n) by (nonlinear_arith);
            assert forall|i2: int, j2: int|
                0 <= i2 < n && 0 <= j2 < j + 1 implies #[trigger] data@[i2 + j2 * n]
                    == unpacked_entry(p.data@, n as int, fill, i2, j2) by {
                if j2 == j {
                    assert(data@[i2 + j * n] == unpacked_entry(p.data@, n as int, fill, i2, j as int));
                }
            }
        }
        off = off + (n - j);
        j = j + 1;
    }
    let out = ColMatrix { nrows: n, ncols: n, data };
    proof {
        assert forall|i: int, j2: int| 0 <= i < n && 0 <= j2 < n implies #[trigger] out.at(i, j2)
            == unpacked_entry(p.data@, n as int, fill, i, j2) by {
            assert(out.at(i, j2) == data@[i + j2 * n]);
        }
    }
    out
}

/// Packing a matrix unpacked from `p` gives back `p`.
pub proof fn lemma_pack_of_unpacked<T>(p: Seq<T>, n: int, fill: T, s: Seq<T>)
    requires
        0 <= n,
        p.len() == n * (n + 1) / 2,
        s.len() == n * n,
        forall|i: int, j: int|
            0 <= i < n && 0 <= j < n ==> #[trigger] s[i + j * n] == unpacked_entry(p, n, fill, i, j),
    ensures
        tril_pack(s, n) == p,
{
    lemma_tril_pack_cols_index(s, n, n);
    lemma_tril_offset_closed(n, n);
    let q = tril_pack(s, n);
    assert(q.len() == p.len());
    assert forall|k: int| 0 <= k < q.len() implies q[k] == p[k] by {
        let j = column_of_offset(n, k, 0);
        lemma_column_of_offset(n, k, 0);
        let t = k - tril_offset(n, j);
        assert(q[tril_offset(n, j) + t] == s[(j + t) + j * n]);
        assert(s[(j + t) + j * n] == unpacked_entry(p, n, fill, j + t, j));
    }
    assert(q =~= p);
}

/// The column whose packed segment holds packed index `k`, searching from column `j`.
pub open spec fn column_of_offset(n: int, k: int, j: int) -> int
    decreases n - j,
{
    if j >= n - 1 || k < tril_offset(n, j + 1) {
        j
    } else {
        column_of_offset(n, k, j + 1)
    }
}

/// A packed index inside the triangle lies in the segment of `column_of_offset`.
proof fn lemma_column_of_offset(n: int, k: int, j: int)
    requires
        0 <= j < n,
        tril_offset(n, j) <= k < tril_offset(n, n),
    ensures
        j <= column_of_offset(n, k, j) < n,
        tril_offset(n, column_of_offset(n, k, j)) <= k,
        k - tril_offset(n, column_of_offset(n, k, j)) < n - column_of_offset(n, k, j),
    decreases n - j,
{
    if j >= n - 1 {
        assert(tril_offset(n, n) == tril_offset(n, n - 1) + 1);
    } else if k < tril_offset(n, j + 1) {
    } else {
        lemma_column_of_offset(n, k, j + 1);
    }
}

/// Unpacking the packed lower triangle of a matrix gives back its entries on and below
/// the diagonal, and `fill` above it.
pub proof fn lemma_unpack_of_packed<T>(s: Seq<T>, n: int, fill: T)
    requires
        0 <= n,
        s.len() == n * n,
    ensures
        forall|i: int, j: int|
            0 <= i < n && 0 <= j < n ==> #[trigger] unpacked_entry(tril_pack(s, n), n, fill, i, j)
                == if j <= i {
                s[i + j * n]
            } else {
                fill
            },
{
    lemma_tril_pack_cols_index(s, n, n);
    assert forall|i: int, j: int| 0 <= i < n && 0 <= j < n implies #[trigger] unpacked_entry(
        tril_pack(s, n),
        n,
        fill,
        i,
        j,
    ) == if j <= i {
        s[i + j * n]
    } else {
        fill
    } by {
        if j <= i {
            assert(tril_pack_cols(s, n, n)[tril_offset(n, j) + (i - j)] == s[(j + (i - j)) + j * n]);
        }
    }
}

} // verus!
