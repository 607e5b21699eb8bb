use si_geometric_demo::clifford::{basis_product, grade_of_index, reverse_sign, Signature};

const METRIC: [Signature; 5] = [
    Signature::Positive,
    Signature::Positive,
    Signature::Positive,
    Signature::Positive,
    Signature::Negative,
];

#[test]
fn test_basis_product_e1_e1() {
    let (idx, sign) = basis_product(1, 1, &METRIC); // e1 * e1
    assert_eq!(idx, 0); // scalar
    assert!((sign as f64 - 1.0).abs() < 1e-10);
}

#[test]
fn test_basis_product_e1_e2() {
    let (idx, sign) = basis_product(1, 2, &METRIC); // e1 * e2
    assert_eq!(idx, 3); // e1e2
    assert!((sign as f64 - 1.0).abs() < 1e-10);
}

#[test]
fn basis_product_em_squares_to_minus_one() {
    assert_eq!(basis_product(16, 16, &METRIC), (0, -1));
}

#[test]
fn basis_product_null_vector_squares_to_zero() {
    let metric = [
        Signature::Positive,
        Signature::Positive,
        Signature::Positive,
        Signature::Null,
        Signature::Negative,
    ];
    assert_eq!(basis_product(8, 8, &metric), (0, 0));
    assert_eq!(basis_product(8, 1, &metric), (9, -1));
}

#[test]
fn basis_product_anticommutation() {
    assert_eq!(basis_product(2, 1, &METRIC), (3, -1));
    for s in 0..5 {
        for t in 0..5 {
            if s != t {
                let (i1, s1) = basis_product(1 << s, 1 << t, &METRIC);
                let (i2, s2) = basis_product(1 << t, 1 << s, &METRIC);
                assert_eq!(i1, i2);
                assert_eq!(s1, -s2);
            }
        }
    }
}

#[test]
fn basis_product_scalar_identity() {
    for x in 0..32usize {
        assert_eq!(basis_product(0, x, &METRIC), (x, 1));
        assert_eq!(basis_product(x, 0, &METRIC), (x, 1));
    }
}

#[test]
fn basis_product_shared_factors_and_reordering() {
    // e2 * e1e2: e2 crosses e1 once, then e2 e2 = 1
    assert_eq!(basis_product(2, 3, &METRIC), (1, -1));
    // e1e2 * e1e2 = -e1e1e2e2 = -1
    assert_eq!(basis_product(3, 3, &METRIC), (0, -1));
    // e1e2e3 * e1e2e3 = -1 as well
    assert_eq!(basis_product(7, 7, &METRIC), (0, -1));
    // e1em * e1em = -e1e1emem = -(1)(-1) = 1
    assert_eq!(basis_product(17, 17, &METRIC), (0, 1));
    // e3em * em: em squares to -1, e3 stands below em
    assert_eq!(basis_product(20, 16, &METRIC), (4, -1));
}

#[test]
fn basis_product_grade_adds_for_disjoint_blades() {
    for a in 0..32usize {
        for b in 0..32usize {
            let (idx, _) = basis_product(a, b, &METRIC);
            assert_eq!(
                grade_of_index(idx) + 2 * grade_of_index(a & b),
                grade_of_index(a) + grade_of_index(b)
            );
        }
    }
}

#[test]
fn grade_of_index_values() {
    assert_eq!(grade_of_index(0), 0);
    assert_eq!(grade_of_index(1), 1);
    assert_eq!(grade_of_index(3), 2);
    assert_eq!(grade_of_index(31), 5);
    assert_eq!(grade_of_index(usize::MAX), usize::BITS as usize);
}

#[test]
fn reverse_sign_by_grade() {
    assert_eq!(reverse_sign(0), 1);
    assert_eq!(reverse_sign(1), 1);
    assert_eq!(reverse_sign(2), -1);
    assert_eq!(reverse_sign(3), -1);
    assert_eq!(reverse_sign(4), 1);
    assert_eq!(reverse_sign(5), 1);
    // e1e2 (index 3) changes sign under reversal
    assert_eq!(reverse_sign(grade_of_index(3)), -1);
}

#[test]
fn reverse_sign_is_an_involution() {
    for g in 0..64usize {
        let s = reverse_sign(g);
        assert_eq!(s * s, 1);
    }
}

#[test]
fn basis_product_is_associative() {
    let metrics = [
        METRIC,
        [
            Signature::Positive,
            Signature::Null,
            Signature::Negative,
            Signature::Positive,
            Signature::Negative,
        ],
    ];
    for metric in &metrics {
        for a in 0..32usize {
            for b in 0..32usize {
                for c in 0..32usize {
                    let (ab, s_ab) = basis_product(a, b, metric);
                    let (abc, s_ab_c) = basis_product(ab, c, metric);
                    let (bc, s_bc) = basis_product(b, c, metric);
                    let (abc2, s_a_bc) = basis_product(a, bc, metric);
                    assert_eq!(abc, abc2);
                    assert_eq!(s_ab * s_ab_c, s_bc * s_a_bc);
                }
            }
        }
    }
}
