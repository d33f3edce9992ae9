use experiments::zones::zone_pair_contributions;
use experiments::render::{descent_set_str, descent_set_to_string, mask_to_string, poly_gcd_display, push_decimal};
use experiments::rng::{lcg_next, Rng};
use experiments::source::{
    build_full_source, build_n_poly, build_rb, build_sa, build_sb_mr, build_source_chain, build_source_dist,
    build_tb, build_zone_raw, classify_zone, collect_poly, zone_label, Selection, Zone,
};

fn table() -> (Vec<(u64, Vec<usize>)>, Vec<Vec<u8>>, Vec<usize>) {
    let perms = vec![vec![1, 2, 3], vec![2, 1, 3], vec![3, 1, 2], vec![1, 3, 2], vec![2, 3, 1], vec![3, 2, 1]];
    let swaps = vec![0, 1, 2, 1, 2, 3];
    let groups = vec![(0u64, vec![0usize]), (1, vec![1, 2]), (2, vec![3, 4]), (3, vec![5])];
    (groups, perms, swaps)
}

#[test]
fn source_distribution_of_two_in_s4() {
    let (groups, perms, swaps) = table();
    // S = {2}, p = 2: S' = {} and S'' = {1}.
    let dist = build_source_dist(0b10, 2, 4, &groups, &perms, &swaps);
    assert_eq!(dist, vec![(1, 3), (1, 3), (2, 1)]);
    assert_eq!(build_full_source(&dist), vec![0, 2, 1]);
    assert_eq!(collect_poly(&dist, Selection::All), vec![0, 2, 1]);
    assert_eq!(build_n_poly(&dist, 3), vec![0, 2]);
    assert_eq!(build_n_poly(&dist, 1), vec![0, 0, 1]);
    assert_eq!(build_n_poly(&dist, 2), vec![0]);
    assert_eq!(build_tb(&dist, 4), vec![0, 0, 1]);
    assert_eq!(build_rb(&dist, 4), vec![0, 2]);
    assert_eq!(build_sa(&dist, 2), vec![0, 2, 1]);
    assert_eq!(build_sa(&dist, 4), vec![0, 2]);
    assert_eq!(build_sb_mr(&dist, 4), vec![0, 2]);
    assert_eq!(build_zone_raw(&dist, 2, 4, Zone::L), vec![0]);
    assert_eq!(build_zone_raw(&dist, 2, 4, Zone::M), vec![0, 0, 1]);
    assert_eq!(build_zone_raw(&dist, 2, 4, Zone::R), vec![0, 2]);
}

#[test]
fn shifted_and_unshifted_parts_add_up() {
    let (groups, perms, swaps) = table();
    let dist = build_source_dist(0b10, 2, 4, &groups, &perms, &swaps);
    let tb = build_tb(&dist, 4);
    let rb = build_rb(&dist, 4);
    let full = build_full_source(&dist);
    assert_eq!(experiments::poly::poly_add(&tb, &rb), full);
}

#[test]
fn source_chain_by_previous_maximum() {
    let (groups, perms, swaps) = table();
    let (qs, polys) = build_source_chain(0b10, 2, 4, &groups, &perms, &swaps);
    assert_eq!(qs, vec![1, 3]);
    assert_eq!(polys, vec![vec![0, 0, 1], vec![0, 2]]);
}

#[test]
fn zones() {
    assert_eq!(classify_zone(1, 2, 4), Zone::M);
    assert_eq!(classify_zone(3, 2, 4), Zone::R);
    assert_eq!(classify_zone(1, 4, 6), Zone::L);
    assert_eq!(zone_label(Zone::M), "M");
}

#[test]
fn descent_set_strings() {
    assert_eq!(descent_set_to_string(0b101, 4), "{1,3}");
    assert_eq!(descent_set_to_string(0, 4), "{}");
    assert_eq!(mask_to_string(0b10, 3), "{2}");
    assert_eq!(descent_set_str(0, 4), "\u{2205}");
    assert_eq!(descent_set_str(0b1000_0000_0000, 14), "{12}");
    let mut out = vec!['x'];
    push_decimal(&mut out, 1203);
    assert_eq!(out, vec!['x', '1', '2', '0', '3']);
}

#[test]
fn gcd_display() {
    assert_eq!(poly_gcd_display(&[0, 0, 1], &[0, 1, 1]), "t");
    assert_eq!(poly_gcd_display(&[0, 0, 1], &[0, 0, 1, 1]), "t");
    assert_eq!(poly_gcd_display(&[1, 1], &[1, 2]), "1");
    assert_eq!(poly_gcd_display(&[1, 2, 1], &[1, 1]), "t");
}

#[test]
fn generator_steps() {
    assert_eq!(lcg_next(0), 1442695040888963407);
    let mut r = Rng::new(0);
    assert_eq!(r.next_u64(), 7806831264735756412);
    let mut a = Rng::new(41);
    let first = a.next_u64();
    assert_eq!(a.next_u64(), lcg_next(first));
    let mut w = Rng::new(u64::MAX);
    assert_eq!(w.next_u64(), 1442695040888963407);
}

#[test]
fn minor_split_by_zone_pairs() {
    // p_a = 2, p_b = 4: zone M is q in 1..=2, zone R is q >= 3.
    let da: Vec<(usize, u8)> = vec![(0, 1), (1, 3)];
    let db: Vec<(usize, u8)> = vec![(0, 2), (2, 3)];
    // L^(2) = 1 + t, L^(4) = t + t^2; minor at (0, 1) is 1, at (1, 2) is 1.
    let c = zone_pair_contributions(&da, &db, 2, 4, 0, 1);
    assert_eq!(c, vec![0, 0, 0, 0, 1, 0, 0, 0, 0]);
    let c = zone_pair_contributions(&da, &db, 2, 4, 1, 2);
    assert_eq!(c, vec![0, 0, 0, 0, 0, 0, 0, 0, 1]);
    assert_eq!(c.iter().sum::<i64>(), 1);
}
