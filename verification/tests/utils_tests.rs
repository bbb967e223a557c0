use ferreus::chebyshev::{
    calculate_relative_offsets_morton, lookup_combined_permutation_cases, map_multi_index_to_k,
};
use ferreus::utils::{argsort, cartesian_product};

#[test]
fn argsort_is_stable() {
    assert_eq!(argsort(&[3, 1, 2, 1]), vec![1, 3, 2, 0]);
    assert_eq!(argsort(&[]), Vec::<usize>::new());
    assert_eq!(argsort(&[-3, -1, -2]), vec![0, 2, 1]);
}

#[test]
fn cartesian_product_rows() {
    assert_eq!(
        cartesian_product(&[-1, 1], 2),
        vec![vec![-1, -1], vec![-1, 1], vec![1, -1], vec![1, 1]]
    );
    assert_eq!(cartesian_product(&[0u64, 1, 2], 1), vec![vec![0], vec![1], vec![2]]);
    assert_eq!(cartesian_product(&[5], 0), vec![Vec::<i32>::new()]);
}

#[test]
fn multi_index_positions() {
    assert_eq!(map_multi_index_to_k(&[3], &4), 2);
    assert_eq!(map_multi_index_to_k(&[2, 2], &5), 6);
    assert_eq!(map_multi_index_to_k(&[2, 3, 1], &4), 24);
}

#[test]
fn relative_offsets_follow_bits() {
    assert_eq!(
        calculate_relative_offsets_morton(&2),
        vec![vec![0, 0], vec![1, 0], vec![0, 1], vec![1, 1]]
    );
}

#[test]
fn combined_cases_find_first_match() {
    let cases = vec![vec![1, 0], vec![5, 5], vec![0, 1]];
    let combos = vec![vec![0, 0], vec![0, 1], vec![1, 0], vec![0, 1]];
    assert_eq!(lookup_combined_permutation_cases(&cases, &combos), vec![2, 1]);
}

#[test]
fn cartesian_product_of_no_values() {
    assert_eq!(cartesian_product::<i32>(&[], 0), vec![Vec::<i32>::new()]);
    assert_eq!(cartesian_product::<i32>(&[], 3), Vec::<Vec<i32>>::new());
}
