use experiments::compat::{check_chain_pair_compatible, check_pairwise_compatible, compat_candidates};
use experiments::endpoint::Bin;
use experiments::family::{
    family_bin_poly, family_bin_poly_with_endpoint_local_filters, family_bin_poly_with_endpoint_side_filters,
    family_total_poly,
};
use experiments::bigint::{big_from_i64, big_is_zero};
use experiments::minors::{minor_counts, ratio_counts};
use experiments::poly::{div_by_t_minus_1, poly_add, poly_mul};
use experiments::source::{build_rb, build_sa};
use experiments::zones::{dominates, minor_groups, minor_record, SignCount, SignTally};

#[test]
fn quotient_times_t_minus_1_gives_back_p() {
    let p = vec![2, -3, 1];
    let q = div_by_t_minus_1(&p).unwrap();
    assert_eq!(q, vec![-2, 1]);
    assert_eq!(poly_mul(&q, &[-1, 1]), p);
    let p = vec![-6, 11, -6, 1];
    let q = div_by_t_minus_1(&p).unwrap();
    assert_eq!(poly_mul(&q, &[-1, 1]), p);
    assert_eq!(div_by_t_minus_1(&[1, 1]), None);
}

#[test]
fn sa_and_rb_select_the_same_entries() {
    let dist: Vec<(usize, u8)> = vec![(0, 0), (1, 1), (1, 2), (2, 3), (3, 1), (4, 5)];
    for p in 0..7u8 {
        assert_eq!(build_sa(&dist, p), build_rb(&dist, p));
    }
    assert_eq!(build_sa(&dist, 3), vec![0, 1, 1, 0, 1]);
}

#[test]
fn compatibility_does_not_depend_on_the_order() {
    let f = vec![2, 3, 1];
    let g = vec![1, 1];
    let fg = compat_candidates(&f, &g, 13);
    let gf = compat_candidates(&g, &f, 13);
    // combination i of (f, g) is the mirrored combination of (g, f)
    assert_eq!(fg[0], gf[0]);
    assert_eq!(fg[1], gf[2]);
    assert_eq!(fg[12], gf[11]);
    let answer = |c: &Vec<i64>| c != &vec![5, 7, 2];
    let rr_fg: Vec<bool> = fg.iter().map(answer).collect();
    let rr_gf: Vec<bool> = gf.iter().map(answer).collect();
    assert!(rr_fg.iter().any(|&b| !b));
    assert_eq!(
        check_pairwise_compatible(&f, &g, true, true, &fg, &rr_fg),
        check_pairwise_compatible(&g, &f, true, true, &gf, &rr_gf)
    );
    assert!(!check_pairwise_compatible(&f, &g, true, true, &fg, &rr_fg));
    assert_eq!(
        check_chain_pair_compatible(&f, &g, true, true, &fg, &rr_fg),
        check_chain_pair_compatible(&g, &f, true, true, &gf, &rr_gf)
    );
    let all_rr = vec![true; 13];
    assert!(check_chain_pair_compatible(&f, &g, true, true, &fg, &all_rr));
    assert!(check_chain_pair_compatible(&g, &f, true, true, &gf, &all_rr));
}

fn family() -> (Vec<Vec<u8>>, Vec<usize>, Vec<bool>) {
    (
        vec![vec![1, 2, 3], vec![3, 1, 2], vec![1, 3, 2], vec![2, 3, 1], vec![3, 2, 1]],
        vec![0, 2, 1, 2, 3],
        vec![false, true, false, true, false],
    )
}

#[test]
fn bins_add_up_to_the_family() {
    let (perms, swaps, eps1) = family();
    for r in 0..4u8 {
        let mut sum = vec![0i64];
        for bin in Bin::all() {
            sum = poly_add(&sum, &family_bin_poly(&perms, &swaps, &eps1, 2, 3, r, bin, 4));
        }
        assert_eq!(sum, family_total_poly(&swaps, &eps1));
    }
}

#[test]
fn side_filters_add_up_to_the_local_filter() {
    let (perms, swaps, eps1) = family();
    for r in 0..4u8 {
        for bin in Bin::all() {
            for c in [false, true] {
                let left = family_bin_poly_with_endpoint_side_filters(&perms, &swaps, &eps1, 2, 3, r, bin, c, true, 4);
                let right = family_bin_poly_with_endpoint_side_filters(&perms, &swaps, &eps1, 2, 3, r, bin, c, false, 4);
                let local = family_bin_poly_with_endpoint_local_filters(&perms, &swaps, &eps1, 2, 3, r, bin, c, true, 4);
                assert_eq!(poly_add(&left, &right), local);
            }
        }
    }
}

#[test]
fn minors_with_their_zone_split() {
    // p_a = 2, p_b = 4: L^(2) = 1 + t, L^(4) = t + t^2
    let da: Vec<(usize, u8)> = vec![(0, 1), (1, 3)];
    let db: Vec<(usize, u8)> = vec![(0, 2), (2, 3)];
    let rec = minor_record(&da, &db, 2, 4, 0, 1).unwrap();
    assert_eq!(rec.minor, 1);
    assert_eq!(rec.diagonal, 1);
    assert_eq!(rec.contributions, vec![0, 0, 0, 0, 1, 0, 0, 0, 0]);
    let rec = minor_record(&da, &db, 2, 4, 0, 2).unwrap();
    assert_eq!(rec.minor, 1);
    assert_eq!(rec.contributions.iter().sum::<i64>(), rec.minor);
    // column 3 and 4 are zero in both polynomials
    assert_eq!(minor_record(&da, &db, 2, 4, 3, 4), None);
    // L^(2) vanishes at columns 2 and 3
    assert_eq!(minor_record(&da, &db, 2, 4, 2, 3), None);
    let g = minor_groups(&[1, 2, 3, 4, 5, 6, 7, 8, 9]);
    assert_eq!(g.column_m, 2 + 5 + 8);
    assert_eq!(g.row_m, 4 + 5 + 6);
    assert_eq!(g.staircase, 4 + 5 + 7 + 8);
    assert_eq!(g.same_shift, 1 + 2 + 6 + 9);
    assert_eq!(g.reverse_staircase, 3);
    assert_eq!(g.b_shifted + g.b_unshifted, 45);
    assert_eq!(g.a_unshifted + g.a_shifted, 45);
    assert!(dominates(5, 8));
    assert!(!dominates(3, 8));
    assert!(dominates(5, 0));
    assert!(!dominates(-1, 0));
}

#[test]
fn sign_counts() {
    let mut t = SignTally::new();
    t.record(&[1, 0, -2, 3, 0, 0, -1, 5, 7]);
    t.record(&[-4, 0, 1, 3, 0, 0, -3, 5, 7]);
    assert_eq!(t.positive, vec![1, 0, 1, 2, 0, 0, 0, 2, 2]);
    assert_eq!(t.zero, vec![0, 2, 0, 0, 2, 2, 0, 0, 0]);
    assert_eq!(t.negative, vec![1, 0, 1, 0, 0, 0, 2, 0, 0]);
    assert_eq!(t.worst, vec![-4, 0, -2, 0, 0, 0, -3, 0, 0]);
    let mut c = SignCount::new();
    c.add(3);
    c.add(0);
    c.add(-1);
    c.add(-7);
    assert_eq!((c.positive, c.zero, c.negative), (1, 1, 2));
}

#[test]
fn minors_counted_by_sign() {
    // rows 1 + t and t + t^2: minors (0,1)=1, (0,2)=1, (1,2)=1
    let c = minor_counts(&[vec![1, 1], vec![0, 1, 1]]);
    assert_eq!((c.total, c.negative, c.zero), (3, 0, 0));
    // rows t and 1: minor (0,1) = 0*0 - 1*1 = -1
    let c = minor_counts(&[vec![0, 1], vec![1]]);
    assert_eq!((c.total, c.negative, c.zero), (1, 1, 0));
    // three rows, three columns: 3 row pairs x 3 column pairs
    let c = minor_counts(&[vec![1, 2, 1], vec![1, 2, 1], vec![0, 0, 1]]);
    assert_eq!((c.total, c.negative, c.zero), (9, 0, 5));
    assert_eq!(minor_counts(&[vec![1, 2]]).total, 0);
    // consecutive columns with both next entries positive, and those passing
    assert_eq!(ratio_counts(&[vec![1, 1], vec![0, 1, 1]]), (1, 1));
    assert_eq!(ratio_counts(&[vec![1, 2, 1], vec![3, 1, 1]]), (2, 1));
    assert_eq!(ratio_counts(&[vec![1]]), (0, 0));
}

#[test]
fn big_integers_from_i64() {
    let b = big_from_i64(i64::MIN);
    assert!(b.neg);
    assert_eq!(b.mag, vec![0, 0x8000_0000]);
    assert!(!big_is_zero(&b));
    let z = big_from_i64(0);
    assert!(big_is_zero(&z));
    let p = big_from_i64(4294967297);
    assert!(!p.neg);
    assert_eq!(p.mag, vec![1, 1]);
}
