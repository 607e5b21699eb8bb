use si_geometric_demo::binomial::{binomial, checked_binomial};
use si_geometric_demo::permutation::{permutation_sign, permutation_sign_4, wedge_bivector_sign};
use si_geometric_demo::subsets::{basis_indices, bivector_index};

#[test]
fn test_binomial() {
    assert_eq!(binomial(4, 0), 1);
    assert_eq!(binomial(4, 1), 4);
    assert_eq!(binomial(4, 2), 6);
    assert_eq!(binomial(4, 3), 4);
    assert_eq!(binomial(4, 4), 1);
    assert_eq!(binomial(5, 2), 10);
}

#[test]
fn binomial_is_zero_above_n() {
    assert_eq!(binomial(3, 4), 0);
    assert_eq!(binomial(0, 1), 0);
    assert_eq!(binomial(0, 0), 1);
}

#[test]
fn binomial_is_symmetric() {
    for n in 0..20usize {
        for k in 0..=n {
            assert_eq!(binomial(n, k), binomial(n, n - k));
        }
    }
}

#[test]
fn binomial_large_values() {
    assert_eq!(checked_binomial(62, 31), Some(465428353255261088));
    assert_eq!(binomial(30, 15), 155117520);
}

#[test]
fn checked_binomial_reports_overflow() {
    assert_eq!(checked_binomial(64, 32), None);
    assert_eq!(checked_binomial(usize::MAX, 2), None);
    assert_eq!(checked_binomial(usize::MAX, 1), Some(usize::MAX));
    assert_eq!(checked_binomial(usize::MAX, usize::MAX), Some(1));
}

#[test]
fn basis_indices_of_bivectors_in_4d() {
    let b = basis_indices(4, 2);
    assert_eq!(
        b,
        vec![vec![0, 1], vec![0, 2], vec![0, 3], vec![1, 2], vec![1, 3], vec![2, 3]]
    );
}

#[test]
fn basis_indices_edge_cases() {
    assert_eq!(basis_indices(3, 0), vec![Vec::<usize>::new()]);
    assert_eq!(basis_indices(2, 3), Vec::<Vec<usize>>::new());
    assert_eq!(basis_indices(3, 3), vec![vec![0, 1, 2]]);
    assert_eq!(basis_indices(3, 1), vec![vec![0], vec![1], vec![2]]);
}

#[test]
fn basis_indices_count_is_binomial() {
    for n in 0..8usize {
        for k in 0..=(n + 1) {
            assert_eq!(basis_indices(n, k).len(), binomial(n, k));
        }
    }
}

#[test]
fn basis_indices_trivectors_in_4d() {
    assert_eq!(
        basis_indices(4, 3),
        vec![vec![0, 1, 2], vec![0, 1, 3], vec![0, 2, 3], vec![1, 2, 3]]
    );
}

#[test]
fn bivector_index_positions() {
    assert_eq!(bivector_index(0, 1, 4), Some(0));
    assert_eq!(bivector_index(1, 3, 4), Some(4));
    assert_eq!(bivector_index(2, 3, 4), Some(5));
    assert_eq!(bivector_index(3, 1, 4), None);
    assert_eq!(bivector_index(2, 2, 4), None);
    assert_eq!(bivector_index(0, 4, 4), None);
}

#[test]
fn bivector_index_agrees_with_basis_indices() {
    for n in 0..7usize {
        let pairs = basis_indices(n, 2);
        for i in 0..n {
            for j in (i + 1)..n {
                let idx = bivector_index(i, j, n).unwrap();
                assert_eq!(pairs[idx], vec![i, j]);
            }
        }
    }
}

#[test]
fn permutation_sign_values() {
    assert_eq!(permutation_sign(&[0], &[1, 2], 3), 1);
    assert_eq!(permutation_sign(&[1], &[0, 2], 3), -1);
    assert_eq!(permutation_sign(&[2], &[0, 1], 3), 1);
    assert_eq!(permutation_sign(&[], &[], 0), 1);
}

#[test]
fn permutation_sign_rejects_non_permutations() {
    // a repeated index
    assert_eq!(permutation_sign(&[0], &[0, 1], 3), 0);
    // an index out of range
    assert_eq!(permutation_sign(&[0, 1], &[3], 3), 0);
    // too few indices
    assert_eq!(permutation_sign(&[0], &[1], 3), 0);
}

#[test]
fn permutation_sign_block_exchange() {
    // (-1)^(|a| |b|)
    let a = [0usize, 2];
    let b = [1usize, 3];
    assert_eq!(permutation_sign(&a, &b, 4) * permutation_sign(&b, &a, 4), 1);
    let a = [1usize];
    let b = [0usize, 2];
    assert_eq!(permutation_sign(&a, &b, 3) * permutation_sign(&b, &a, 3), 1);
    let a = [2usize];
    let b = [0usize, 1, 3];
    assert_eq!(permutation_sign(&a, &b, 4) * permutation_sign(&b, &a, 4), -1);
}

#[test]
fn permutation_sign_4_values() {
    assert_eq!(permutation_sign_4(0, 1, 2, 3), 1);
    assert_eq!(permutation_sign_4(1, 0, 2, 3), -1);
    assert_eq!(permutation_sign_4(3, 2, 1, 0), 1);
    assert_eq!(permutation_sign_4(1, 2, 3, 0), -1);
}

#[test]
fn permutation_sign_4_repeated_indices() {
    // the parity of the exchanges that sort the indices
    assert_eq!(permutation_sign_4(0, 0, 1, 2), 1);
    assert_eq!(permutation_sign_4(2, 2, 1, 0), -1);
    assert_eq!(permutation_sign_4(1, 1, 1, 1), 1);
    // one exchange sorts (2, 2, 1, 3), though it has two inversions
    assert_eq!(permutation_sign_4(2, 2, 1, 3), -1);
    assert_eq!(wedge_bivector_sign(2, 2, 1, 3), -1);
}

#[test]
fn wedge_bivector_sign_values() {
    // e01 ^ e23 is already ordered
    assert_eq!(wedge_bivector_sign(0, 1, 2, 3), 1);
    // e02 ^ e13 needs one exchange
    assert_eq!(wedge_bivector_sign(0, 2, 1, 3), -1);
    // e03 ^ e12 needs two exchanges
    assert_eq!(wedge_bivector_sign(0, 3, 1, 2), 1);
}

#[test]
fn dual_twice_sign_is_grade_parity() {
    // For each basis blade and its complement, the two orders of concatenation
    // differ in sign by (-1)^(k (n - k)).
    for n in 0..6usize {
        for k in 0..=n {
            for blade in basis_indices(n, k) {
                let complement: Vec<usize> = (0..n).filter(|i| !blade.contains(i)).collect();
                let forward = permutation_sign(&blade, &complement, n);
                let backward = permutation_sign(&complement, &blade, n);
                let expected = if (k * (n - k)) % 2 == 0 { 1 } else { -1 };
                assert_eq!(forward * backward, expected);
            }
        }
    }
}
