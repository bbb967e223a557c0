use ferreus::chebyshev::{
    calculate_diagonal_axial_permutation_indices, calculate_m2l_transfer_index,
    get_m2l_vectors, get_permutation_lookups, lookup_axial_permutation_cases,
    lookup_diagonal_permutation_cases, lookup_reference_vectors, permute_multi_index_axial,
    permute_multi_index_diagonal, permutation_lookups_from_orders,
};
use ferreus::utils::sorted_copy;

#[test]
fn m2l_vectors_in_one_dimension() {
    let (all, reference) = get_m2l_vectors(&1);
    assert_eq!(all, vec![vec![-3], vec![-2], vec![-1], vec![0], vec![1], vec![2], vec![3]]);
    assert_eq!(reference, vec![vec![2], vec![3]]);
}

#[test]
fn m2l_vectors_in_two_dimensions() {
    let (all, reference) = get_m2l_vectors(&2);
    assert_eq!(all.len(), 49);
    assert_eq!(all[0], vec![-3, -3]);
    assert_eq!(all[1], vec![-3, -2]);
    assert_eq!(all[48], vec![3, 3]);
    assert_eq!(
        reference,
        vec![vec![2, 0], vec![2, 1], vec![2, 2], vec![3, 0], vec![3, 1], vec![3, 2], vec![3, 3]]
    );
}

#[test]
fn reference_vectors_in_three_dimensions() {
    let (all, reference) = get_m2l_vectors(&3);
    assert_eq!(all.len(), 343);
    assert_eq!(reference.len(), 16);
    assert_eq!(reference[0], vec![2, 0, 0]);
    assert_eq!(reference[15], vec![3, 3, 3]);
}

#[test]
fn transfer_index_reads_base_seven_digits() {
    assert_eq!(calculate_m2l_transfer_index(3, &[-3, -3, -3]), 0);
    assert_eq!(calculate_m2l_transfer_index(3, &[3, 3, 3]), 342);
    assert_eq!(calculate_m2l_transfer_index(2, &[1, -2]), 4 * 7 + 1);
    assert_eq!(calculate_m2l_transfer_index(1, &[0]), 3);
}

#[test]
fn transfer_index_is_row_of_m2l_vector() {
    for d in 1..4usize {
        let (all, _) = get_m2l_vectors(&d);
        for (row, vector) in all.iter().enumerate() {
            assert_eq!(calculate_m2l_transfer_index(d, vector), row);
        }
    }
}

#[test]
fn axial_permutation_reflects_negative_axes() {
    assert_eq!(permute_multi_index_axial(&[1, 2, 3], &[-1, 2, -3], &4), vec![4, 2, 2]);
    assert_eq!(permute_multi_index_axial(&[1, 4], &[0, 1], &4), vec![1, 4]);
}

#[test]
fn diagonal_permutation_reorders_axes() {
    assert_eq!(permute_multi_index_diagonal(&[5, 6, 7], &[2, 0, 1]), vec![7, 5, 6]);
}

#[test]
fn permutation_indices_for_reflection() {
    let multi_indices = vec![vec![1], vec![2], vec![3]];
    assert_eq!(
        calculate_diagonal_axial_permutation_indices(Some(&[-1]), None, &3, &multi_indices, false),
        vec![2, 1, 0]
    );
    assert_eq!(
        calculate_diagonal_axial_permutation_indices(Some(&[1]), None, &3, &multi_indices, false),
        vec![0, 1, 2]
    );
}

#[test]
fn permutation_indices_for_axis_swap() {
    let multi_indices = vec![vec![1, 1], vec![1, 2], vec![2, 1], vec![2, 2]];
    assert_eq!(
        calculate_diagonal_axial_permutation_indices(None, Some(&[1, 0]), &2, &multi_indices, true),
        vec![0, 2, 1, 3]
    );
}

#[test]
fn axial_cases_match_sign_patterns() {
    let signs = vec![vec![-1, -1], vec![-1, 1], vec![1, -1], vec![1, 1]];
    let vectors = vec![vec![-2, 3], vec![0, 0], vec![3, -1]];
    assert_eq!(lookup_axial_permutation_cases(&signs, &vectors), vec![1, 3, 2]);
    assert_eq!(lookup_axial_permutation_cases(&signs[..1], &vectors), Vec::<usize>::new());
}

#[test]
fn diagonal_cases_match_axis_orders() {
    let orders = vec![vec![0, 1], vec![1, 0]];
    let vectors = vec![vec![-2, 3], vec![3, 3], vec![3, -1]];
    assert_eq!(lookup_diagonal_permutation_cases(&orders, &vectors), vec![1, 0, 0]);
}

#[test]
fn reference_vectors_match_sorted_magnitudes() {
    let (all, reference) = get_m2l_vectors(&1);
    assert_eq!(lookup_reference_vectors(&all, &reference), vec![1, 0, 0, 0, 0, 0, 1]);
    let reference = vec![vec![2, 0], vec![3, 2]];
    let vectors = vec![vec![-2, 3], vec![0, -2], vec![1, 1]];
    assert_eq!(lookup_reference_vectors(&vectors, &reference), vec![1, 0, 0]);
}

#[test]
fn permutation_lookups_in_one_dimension() {
    let (all, reference) = get_m2l_vectors(&1);
    let (combined, inverse, lookups, references) =
        get_permutation_lookups(&1, &2, &all, &reference);
    assert_eq!(combined, vec![vec![1, 0], vec![0, 1]]);
    assert_eq!(inverse, vec![vec![1, 0], vec![0, 1]]);
    assert_eq!(lookups, vec![0, 0, 0, 1, 1, 1, 1]);
    assert_eq!(references, vec![1, 0, 0, 0, 0, 0, 1]);
}

#[test]
fn permutation_lookups_in_two_dimensions() {
    let (all, reference) = get_m2l_vectors(&2);
    let (combined, inverse, lookups, references) =
        get_permutation_lookups(&2, &2, &all, &reference);
    assert_eq!(
        combined,
        vec![
            vec![3, 2, 1, 0],
            vec![3, 1, 2, 0],
            vec![2, 3, 0, 1],
            vec![2, 0, 3, 1],
            vec![1, 0, 3, 2],
            vec![1, 3, 0, 2],
            vec![0, 1, 2, 3],
            vec![0, 2, 1, 3],
        ]
    );
    assert_eq!(
        inverse,
        vec![
            vec![3, 2, 1, 0],
            vec![3, 1, 2, 0],
            vec![2, 3, 0, 1],
            vec![1, 3, 0, 2],
            vec![1, 0, 3, 2],
            vec![2, 0, 3, 1],
            vec![0, 1, 2, 3],
            vec![0, 2, 1, 3],
        ]
    );
    assert_eq!(
        lookups,
        vec![
            0, 0, 0, 2, 2, 2, 2, 1, 0, 0, 2, 2, 2, 3, 1, 1, 0, 2, 2, 3, 3, 5, 5, 5, 6, 7, 7, 7, 5,
            5, 4, 6, 6, 7, 7, 5, 4, 4, 6, 6, 6, 7, 4, 4, 4, 6, 6, 6, 6
        ]
    );
    assert_eq!(
        references,
        vec![
            6, 5, 4, 3, 4, 5, 6, 5, 2, 1, 0, 1, 2, 5, 4, 1, 0, 0, 0, 1, 4, 3, 0, 0, 0, 0, 0, 3, 4,
            1, 0, 0, 0, 1, 4, 5, 2, 1, 0, 1, 2, 5, 6, 5, 4, 3, 4, 5, 6
        ]
    );
}

#[test]
fn lookups_from_given_orders() {
    let (all, reference) = get_m2l_vectors(&2);
    let orders = vec![vec![1, 0]];
    let (combined, _, lookups, _) =
        permutation_lookups_from_orders(&orders, &2, &2, &all, &reference);
    assert_eq!(combined.len(), 4);
    assert_eq!(combined[3], vec![0, 2, 1, 3]);
    assert_eq!(lookups, vec![0, 0, 0, 1, 1, 1, 1, 0, 0, 0, 1, 1, 1, 1, 0, 0, 0, 1]);
}

#[test]
fn sorted_copy_orders_values() {
    assert_eq!(sorted_copy(&[3, -1, 2, -1]), vec![-1, -1, 2, 3]);
    assert_eq!(sorted_copy(&[]), Vec::<i32>::new());
}

#[test]
fn combined_permutations_are_inverted() {
    for d in 1..4usize {
        let (all, reference) = get_m2l_vectors(&d);
        let (combined, inverse, lookups, references) =
            get_permutation_lookups(&d, &3, &all, &reference);
        let n = 3usize.pow(d as u32);
        let num_orders = [1, 2, 6][d - 1];
        assert_eq!(combined.len(), (1 << d) * num_orders);
        assert_eq!(lookups.len(), all.len());
        assert_eq!(references.len(), all.len());
        for (c, inv) in combined.iter().zip(inverse.iter()) {
            assert_eq!(c.len(), n);
            let mut seen = vec![false; n];
            for i in 0..n {
                assert_eq!(c[inv[i]], i);
                assert!(!seen[c[i]]);
                seen[c[i]] = true;
            }
        }
    }
}

#[test]
fn m2l_transfer_index_outside_the_usual_offsets() {
    assert_eq!(calculate_m2l_transfer_index(1, &[4]), 7);
    assert_eq!(calculate_m2l_transfer_index(2, &[5, 0]), 8 * 7 + 3);
    assert_eq!(calculate_m2l_transfer_index(1, &[-4]), u32::MAX as usize);
    assert_eq!(calculate_m2l_transfer_index(12, &[-3]), 0);
    assert_eq!(calculate_m2l_transfer_index(20, &[]), 0);
}
