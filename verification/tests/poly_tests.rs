use experiments::poly::{
    build_poly, build_poly_from_vals, coeff, copy_poly, div_by_t_minus_1, is_zero_poly, poly_add, poly_deg,
    poly_degree, poly_gcd_degree, poly_is_zero, poly_mul, poly_mul_t, poly_scale, poly_shift, poly_sub,
    prefix_sums, suffix_sums, trim, trim_in_place,
};

#[test]
fn trim_drops_trailing_zeros_but_keeps_one() {
    assert_eq!(trim(&[1, 2, 0, 0]), vec![1, 2]);
    assert_eq!(trim(&[0, 0, 0]), vec![0]);
    assert_eq!(trim(&[]), Vec::<i64>::new());
    let mut v = vec![3, 0, 5, 0];
    trim_in_place(&mut v);
    assert_eq!(v, vec![3, 0, 5]);
}

#[test]
fn coeff_reads_zero_past_the_end() {
    assert_eq!(coeff(&[4, 5], 1), 5);
    assert_eq!(coeff(&[4, 5], 7), 0);
}

#[test]
fn zero_and_degree() {
    assert!(poly_is_zero(&[0, 0]));
    assert!(is_zero_poly(&[]));
    assert!(!poly_is_zero(&[0, 1]));
    assert_eq!(poly_degree(&[1, 0, 3, 0]), Some(2));
    assert_eq!(poly_degree(&[0, 0]), None);
    assert_eq!(poly_deg(&[5]), Some(0));
}

#[test]
fn add_and_sub_are_coefficientwise_and_trimmed() {
    assert_eq!(poly_add(&[1, 2, 3], &[1, -2, -3]), vec![2]);
    assert_eq!(poly_add(&[1], &[0, 0, 4]), vec![1, 0, 4]);
    assert_eq!(poly_sub(&[1, 2], &[1, 2]), vec![0]);
    assert_eq!(poly_sub(&[5, 1], &[2, 0, 3]), vec![3, 1, -3]);
}

#[test]
fn sub_undoes_add() {
    let f = vec![3, -1, 4, 1];
    let g = vec![2, 7];
    let s = poly_add(&f, &g);
    assert_eq!(poly_sub(&s, &g), f);
}

#[test]
fn multiplication_and_shifts() {
    assert_eq!(poly_mul(&[1, 1], &[1, 1]), vec![1, 2, 1]);
    assert_eq!(poly_mul(&[1, -1], &[1, 1]), vec![1, 0, -1]);
    assert_eq!(poly_mul(&[], &[1, 2]), vec![0]);
    assert_eq!(poly_mul(&[2, 0], &[3, 0]), vec![6]);
    assert_eq!(poly_mul_t(&[1, 2]), vec![0, 1, 2]);
    assert_eq!(poly_shift(&[1, 2], 2), vec![0, 0, 1, 2]);
    assert_eq!(poly_scale(&[1, -2, 0], 3), vec![3, -6]);
    assert_eq!(poly_scale(&[], 3), vec![0]);
}

#[test]
fn build_poly_counts_values() {
    assert_eq!(build_poly(&[]), vec![0]);
    assert_eq!(build_poly(&[0, 2, 2, 1, 2]), vec![1, 1, 3]);
    assert_eq!(build_poly_from_vals(&[3]), vec![0, 0, 0, 1]);
}

#[test]
fn division_by_t_minus_one() {
    // t^2 - 1 = (t - 1)(t + 1)
    assert_eq!(div_by_t_minus_1(&[-1, 0, 1]), Some(vec![1, 1]));
    // 1 + t is not divisible by t - 1
    assert_eq!(div_by_t_minus_1(&[1, 1]), None);
    assert_eq!(div_by_t_minus_1(&[0]), Some(vec![0]));
    assert_eq!(div_by_t_minus_1(&[5]), None);
}

#[test]
fn division_law_concrete() {
    let p = vec![2, -3, 0, 1]; // (t-1)^2 (t+2)
    let q = div_by_t_minus_1(&p).unwrap();
    assert_eq!(poly_mul(&q, &[-1, 1]), p);
}

#[test]
fn running_sums() {
    let polys = vec![vec![1], vec![0, 1], vec![1, 0, 1]];
    assert_eq!(prefix_sums(&polys), vec![vec![1], vec![1, 1], vec![2, 1, 1]]);
    assert_eq!(suffix_sums(&polys), vec![vec![2, 1, 1], vec![1, 1, 1], vec![1, 0, 1]]);
}

#[test]
fn gcd_degree_over_the_rationals() {
    assert_eq!(poly_gcd_degree(&[0, 0, 1], &[0, 1, 1]), 1);
    assert_eq!(poly_gcd_degree(&[0], &[0, 0, 3]), 2);
    assert_eq!(poly_gcd_degree(&[0], &[0]), 0);
    assert_eq!(poly_gcd_degree(&[4], &[0, 1]), 0);
    // common factors other than powers of t
    assert_eq!(poly_gcd_degree(&[1, 2, 1], &[1, 1]), 1);
    assert_eq!(poly_gcd_degree(&[1, 2, 1], &[1, 3, 3, 1]), 2);
    assert_eq!(poly_gcd_degree(&[2, 3, 1], &[6, 5, 1]), 1);
    assert_eq!(poly_gcd_degree(&[1, 1], &[1, 2]), 0);
    assert_eq!(poly_gcd_degree(&[2, 3, 1], &[1, 0, 1]), 0);
    assert_eq!(poly_gcd_degree(&[0, 2, 4], &[0, 0, 6, 12, 0]), 2);
    assert_eq!(poly_gcd_degree(&[3, 0, 0], &[1, 5, 7, 2]), 0);
    // large coefficients and degrees: the remainder sequence is carried exactly
    let a = [3000009, 1000002999999000000, 999999999999, 0, 0, 0, 0, 0, 0, 0, 1000003, 1];
    let b = [5000015, -7000020999999995, -7000000000, 0, 11000033, 11, 0, 0, 0, 1000003, 1];
    assert_eq!(poly_gcd_degree(&a, &b), 1);
    let a = [12, 4000000000008, 3999999999999, 999999999999, 0, 0, 0, 0, 0, 0, 4, 4, 1];
    let b = [4, 4, 1, 0, 0, 0, 0, 0, 0, 0, 0, 0, -39999996, -39999992, -9999995, 1];
    assert_eq!(poly_gcd_degree(&a, &b), 2);
    assert_eq!(poly_gcd_degree(&[i64::MIN, 1], &[i64::MIN, 1, 0]), 1);
    assert_eq!(poly_gcd_degree(&[i64::MAX, i64::MIN, i64::MAX], &[1, 1]), 0);
}

#[test]
fn copy_is_equal() {
    let v = vec![1, 2, 3];
    assert_eq!(copy_poly(&v), v);
}
