use experiments::bivariate::{build_bivariate_coeffs, check_newton_polygon, check_tn2 as bivariate_tn2, check_tn3};
use experiments::det::poly_det;
use experiments::minors::{check_lr, check_tn2, first_neg_minor, is_tn2};
use experiments::staircase::{compute_d, staircase_output, staircase_transform};

#[test]
fn determinants_of_polynomial_matrices() {
    let empty: Vec<Vec<Vec<i64>>> = Vec::new();
    assert_eq!(poly_det(&empty), vec![1]);
    assert_eq!(poly_det(&[vec![vec![1, 2]]]), vec![1, 2]);
    // [[1, 1], [1, t]] has determinant t - 1.
    assert_eq!(poly_det(&[vec![vec![1], vec![1]], vec![vec![1], vec![0, 1]]]), vec![-1, 1]);
    let m3 = vec![
        vec![vec![2], vec![0], vec![1]],
        vec![vec![1], vec![3], vec![2]],
        vec![vec![1], vec![1], vec![2]],
    ];
    assert_eq!(poly_det(&m3), vec![6]);
    // diag(t, t, t) has determinant t^3.
    let d3 = vec![
        vec![vec![0, 1], vec![0], vec![0]],
        vec![vec![0], vec![0, 1], vec![0]],
        vec![vec![0], vec![0], vec![0, 1]],
    ];
    assert_eq!(poly_det(&d3), vec![0, 0, 0, 1]);
    // a singular matrix gives the zero polynomial
    let s3 = vec![
        vec![vec![1], vec![2], vec![3]],
        vec![vec![2], vec![4], vec![6]],
        vec![vec![0], vec![1], vec![5]],
    ];
    assert_eq!(poly_det(&s3), vec![0]);
}

#[test]
fn two_by_two_minors() {
    assert!(is_tn2(&[vec![1, 1], vec![1, 2]]));
    assert!(!is_tn2(&[vec![1, 2], vec![1, 1]]));
    assert!(check_tn2(&[vec![1, 1], vec![1, 2]]));
    assert!(is_tn2(&[vec![5]]));
    assert_eq!(first_neg_minor(&[vec![1, 2], vec![1, 1]]), Some((0, 1, 0, 1, -1)));
    assert_eq!(first_neg_minor(&[vec![1, 1], vec![1, 2]]), None);
    // missing entries read as zero: [[1, 1], [0, 1]]
    assert!(is_tn2(&[vec![1, 1], vec![0, 1]]));
    assert!(!is_tn2(&[vec![0, 1], vec![1]]));
}

#[test]
fn consecutive_minors() {
    assert!(check_lr(&[1, 1], &[1, 2]));
    assert!(!check_lr(&[1, 2], &[1, 1]));
    assert!(check_lr(&[], &[]));
}

#[test]
fn bivariate_total_positivity() {
    assert!(bivariate_tn2(&[vec![1, 1], vec![1, 2]]));
    assert!(!bivariate_tn2(&[vec![1, 2], vec![1, 1]]));
    assert!(bivariate_tn2(&[vec![1]]));
    assert!(check_tn3(&[vec![1, 0, 0], vec![0, 1, 0], vec![0, 0, 1]]));
    assert!(!check_tn3(&[vec![0, 1, 0], vec![1, 0, 0], vec![0, 0, 1]]));
    assert!(check_tn3(&[vec![1, 2], vec![3, 4]]));
}

#[test]
fn newton_polygon_support() {
    // two points on a row with a gap: the exchange axiom fails
    let (support, convex) = check_newton_polygon(&[1, 2, 3], &[vec![1], vec![0], vec![1]]);
    assert_eq!(support, vec![(1, 0), (3, 0)]);
    assert!(!convex);
    // points off one anti-diagonal are never M-convex
    let (support, convex) = check_newton_polygon(&[1, 2], &[vec![1, 1, 0], vec![0, 1, 1]]);
    assert_eq!(support, vec![(1, 0), (1, 1), (2, 1), (2, 2)]);
    assert!(!convex);
    let (support, convex) = check_newton_polygon(&[1], &[vec![1, 0, 1]]);
    assert_eq!(support, vec![(1, 0), (1, 2)]);
    assert!(!convex);
    // a segment of the anti-diagonal p + k = 2 is
    let (support, convex) = check_newton_polygon(&[1, 2], &[vec![0, 1], vec![3]]);
    assert_eq!(support, vec![(1, 1), (2, 0)]);
    assert!(convex);
    let (support, convex) = check_newton_polygon(&[0, 1, 2], &[vec![0, 0, 1], vec![0, 2], vec![1]]);
    assert_eq!(support, vec![(0, 2), (1, 1), (2, 0)]);
    assert!(convex);
    // with a hole in the segment it is not
    let (_, convex) = check_newton_polygon(&[0, 2], &[vec![0, 0, 1], vec![1]]);
    assert!(!convex);
    assert!(check_newton_polygon(&[4], &[vec![0, 5]]).1);
    assert!(check_newton_polygon(&[], &[]).1);
}

#[test]
fn bivariate_coefficients_by_position_of_maximum() {
    let class = vec![vec![1u8, 2, 3], vec![1, 3, 2], vec![3, 1, 2]];
    let swaps = vec![0usize, 1, 2];
    let (used, rows) = build_bivariate_coeffs(&class, &swaps, &[1, 2, 3], 3);
    assert_eq!(used, vec![1, 2, 3]);
    assert_eq!(rows, vec![vec![0, 0, 1], vec![0, 1, 0], vec![1, 0, 0]]);
    let (used, rows) = build_bivariate_coeffs(&class, &swaps, &[2, 5], 3);
    assert_eq!(used, vec![2]);
    assert_eq!(rows, vec![vec![0, 1]]);
}

#[test]
fn staircase() {
    // g_0 = f_0 + f_1, g_1 = t f_0 + f_1
    let rows = staircase_transform(&[vec![1], vec![0, 1]]);
    assert_eq!(rows, vec![vec![1, 1], vec![0, 2]]);
    assert_eq!(compute_d(&[vec![1], vec![0, 1]], 0, 2, 1), 0);
    assert_eq!(compute_d(&[vec![1, 1]], 0, 1, 0), 1);
    // L^(3) = sum_q t^{eps2(3,q)} f_{3,q}: q = 1 is shifted, q = 2 is not
    assert_eq!(staircase_output(&[(1, vec![1]), (2, vec![1])], 3), vec![1, 1]);
}
