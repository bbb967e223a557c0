use ferreus::linalg::{
    get_a_block_submatrix_params, get_dims_from_rfp, get_rfp_block_submatrix_params,
    pack_tril_colmajor, to_rfp, unpack_tril_colmajor, ColMatrix, Side,
};

/// Deterministic SPD matrix: A = M M^T + alpha I, column-major.
fn make_spd(n: usize, alpha: f64) -> ColMatrix<f64> {
    let mut m = vec![0.0f64; n * n];
    for i in 0..n {
        for j in 0..n {
            let x = (i as f64 + 1.0) * (j as f64 + 2.0);
            m[i + j * n] = (x.sin() + 2.0 * x.cos()) / (1.0 + (i + j + 1) as f64);
        }
    }
    let mut a = vec![0.0f64; n * n];
    for i in 0..n {
        for j in 0..n {
            let mut acc = 0.0;
            for k in 0..n {
                acc += m[i + k * n] * m[j + k * n];
            }
            a[i + j * n] = acc;
        }
    }
    for i in 0..n {
        a[i + i * n] += alpha.max(1e-3);
    }
    ColMatrix { nrows: n, ncols: n, data: a }
}

/// The matrix with entry `(i, j)` equal to `10 i + j`.
fn indexed(n: usize) -> ColMatrix<i64> {
    let mut data = Vec::new();
    for j in 0..n {
        for i in 0..n {
            data.push(10 * i as i64 + j as i64);
        }
    }
    ColMatrix { nrows: n, ncols: n, data }
}

#[test]
fn to_rfp_shapes_even_and_odd_lower() {
    // even
    for n in [2usize, 4, 6, 8, 10, 12] {
        let a = make_spd(n, 1.0);
        let ar = to_rfp(&a, &Side::Lower);
        let (ldar, n1) = ar.shape();
        assert_eq!(n % 2, 0);
        assert_eq!(ldar, n + 1, "LDAR for even n should be N+1");
        assert_eq!(n1, (n + 1) / 2);
    }
    // odd
    for n in [1usize, 3, 5, 7, 9, 11] {
        let a = make_spd(n, 1.0);
        let ar = to_rfp(&a, &Side::Lower);
        let (ldar, n1) = ar.shape();
        assert_eq!(n % 2, 1);
        assert_eq!(ldar, n, "LDAR for odd n should be N");
        assert_eq!(n1, (n + 1) / 2);
    }
}

#[test]
fn get_dims_from_rfp_consistency() {
    // even n = 6 -> LDAR = 7, n1 = (n+1)/2 = 3
    let (even, n2) = get_dims_from_rfp(&7, &3);
    assert!(even);
    assert_eq!(n2, 3);

    // odd n = 7 -> LDAR = 7, n1 = 4
    let (even2, n2b) = get_dims_from_rfp(&7, &4);
    assert!(!even2);
    assert_eq!(n2b, 3);
}

#[test]
fn rfp_layout_lower_and_upper() {
    assert_eq!(to_rfp(&indexed(3), &Side::Lower).data, vec![0, 10, 20, 22, 11, 21]);
    assert_eq!(to_rfp(&indexed(3), &Side::Upper).data, vec![1, 11, 0, 2, 12, 22]);
    assert_eq!(
        to_rfp(&indexed(4), &Side::Lower).data,
        vec![22, 0, 10, 20, 30, 32, 33, 11, 21, 31]
    );
    assert_eq!(
        to_rfp(&indexed(4), &Side::Upper).data,
        vec![2, 12, 22, 0, 1, 3, 13, 23, 33, 11]
    );
}

#[test]
fn rfp_holds_each_triangle_entry_once() {
    for n in 0..9usize {
        for side in [Side::Lower, Side::Upper] {
            let ar = to_rfp(&indexed(n), &side);
            let mut seen = ar.data.clone();
            seen.sort();
            let mut expected = Vec::new();
            for i in 0..n {
                for j in 0..n {
                    let stored = match side {
                        Side::Lower => j <= i,
                        Side::Upper => i <= j,
                    };
                    if stored {
                        expected.push(10 * i as i64 + j as i64);
                    }
                }
            }
            expected.sort();
            assert_eq!(seen, expected);
        }
    }
}

#[test]
fn rfp_shape_read_back() {
    for n in 1..12usize {
        let ar = to_rfp(&indexed(n), &Side::Lower);
        let (even, n2) = get_dims_from_rfp(&ar.nrows, &ar.ncols);
        assert_eq!(even, n % 2 == 0);
        assert_eq!(n2, n - (n + 1) / 2);
    }
}

#[test]
fn block_params() {
    let p = get_rfp_block_submatrix_params(&Side::Lower, &true, &3, &3);
    assert_eq!((p.a11, p.a21_or_a12, p.a22), ((1, 0, 3, 3), (4, 0, 3, 3), (0, 0, 3, 3)));
    let p = get_rfp_block_submatrix_params(&Side::Lower, &false, &4, &3);
    assert_eq!((p.a11, p.a21_or_a12, p.a22), ((0, 0, 4, 4), (4, 0, 3, 4), (0, 1, 3, 3)));
    let p = get_rfp_block_submatrix_params(&Side::Upper, &false, &4, &3);
    assert_eq!((p.a11, p.a21_or_a12, p.a22), ((4, 0, 3, 3), (0, 0, 3, 4), (3, 0, 4, 4)));
    let q = get_a_block_submatrix_params(&Side::Lower, &4, &3);
    assert_eq!((q.a11, q.a21_or_a12, q.a22), ((0, 0, 4, 4), (4, 0, 3, 4), (4, 4, 3, 3)));
    let q = get_a_block_submatrix_params(&Side::Upper, &4, &3);
    assert_eq!((q.a11, q.a21_or_a12, q.a22), ((0, 0, 3, 3), (0, 3, 3, 4), (3, 3, 4, 4)));
}

#[test]
fn pack_and_unpack_lower_triangle() {
    let a = indexed(3);
    let p = pack_tril_colmajor(&a);
    assert_eq!(p.shape(), (6, 1));
    assert_eq!(p.data, vec![0, 10, 20, 11, 21, 22]);
    let u = unpack_tril_colmajor(&p, 3, -1);
    assert_eq!(u.shape(), (3, 3));
    assert_eq!(u.data, vec![0, 10, 20, -1, 11, 21, -1, -1, 22]);
    assert_eq!(*u.get(2, 1), 21);
    assert_eq!(*u.get(0, 2), -1);
    // Packing the unpacked matrix gives the packed vector back.
    assert_eq!(pack_tril_colmajor(&u).data, p.data);
    let empty = pack_tril_colmajor(&indexed(0));
    assert_eq!(empty.shape(), (0, 1));
}

/// Builds the RFP array block by block from the block descriptions.
fn rfp_by_blocks(a: &ColMatrix<i64>, side: Side) -> Vec<i64> {
    let n = a.nrows;
    let even = n % 2 == 0;
    let n1 = (n + 1) / 2;
    let n2 = n - n1;
    let ldar = if even { n + 1 } else { n };
    let f = get_a_block_submatrix_params(&side, &n1, &n2);
    let t = get_rfp_block_submatrix_params(&side, &even, &n1, &n2);
    let mut ar = vec![i64::MIN; ldar * n1];
    let at = |i: usize, j: usize| a.data[i + j * n];
    let lower = side == Side::Lower;
    // Leading diagonal block: kept as is (lower) or transposed (upper), lower part.
    for i in 0..t.a11.2 {
        for j in 0..=i.min(t.a11.3.saturating_sub(1)) {
            let v = if lower { at(f.a11.0 + i, f.a11.1 + j) } else { at(f.a11.0 + j, f.a11.1 + i) };
            ar[(t.a11.0 + i) + (t.a11.1 + j) * ldar] = v;
        }
    }
    // Off-diagonal block: copied.
    for i in 0..t.a21_or_a12.2 {
        for j in 0..t.a21_or_a12.3 {
            ar[(t.a21_or_a12.0 + i) + (t.a21_or_a12.1 + j) * ldar] =
                at(f.a21_or_a12.0 + i, f.a21_or_a12.1 + j);
        }
    }
    // Trailing diagonal block: transposed (lower) or kept as is (upper), upper part.
    for i in 0..t.a22.2 {
        for j in i..t.a22.3 {
            let v = if lower { at(f.a22.0 + j, f.a22.1 + i) } else { at(f.a22.0 + i, f.a22.1 + j) };
            ar[(t.a22.0 + i) + (t.a22.1 + j) * ldar] = v;
        }
    }
    ar
}

#[test]
fn block_params_reproduce_rfp() {
    for n in 1..10usize {
        for side in [Side::Lower, Side::Upper] {
            let a = indexed(n);
            assert_eq!(rfp_by_blocks(&a, side), to_rfp(&a, &side).data);
        }
    }
}
