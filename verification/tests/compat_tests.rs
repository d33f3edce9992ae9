use experiments::compat::{
    both_interlacings,
    chain_queries, check_chain, check_chain_interlacing, check_chain_pair_compatible, check_compatible_family,
    check_pairwise_compatible, compat_candidates, compat_weights, is_pairwise_interlacing_sequence,
    weakly_interlace, weighted_combo, InterlaceStep,
};

#[test]
fn weights_in_test_order() {
    assert_eq!(compat_weights(3), vec![(1, 1), (1, 2), (2, 1)]);
    assert_eq!(compat_weights(13).len(), 13);
    assert_eq!(compat_weights(13)[12], (5, 3));
    assert_eq!(compat_weights(0), Vec::<(i64, i64)>::new());
}

#[test]
fn weighted_combinations() {
    assert_eq!(weighted_combo(&[1, 1], &[1, 2], 2, 1), vec![3, 4]);
    assert_eq!(weighted_combo(&[1], &[-1], 1, 1), vec![0]);
    assert_eq!(weighted_combo(&[1, 0, 2], &[3], 1, 2), vec![7, 0, 2]);
    assert_eq!(compat_candidates(&[1, 1], &[0, 1], 2), vec![vec![1, 2], vec![1, 3]]);
}

#[test]
fn pairwise_compatibility_from_answers() {
    let f = vec![1, 1];
    let g = vec![1, 2];
    let cands = compat_candidates(&f, &g, 2);
    assert!(check_pairwise_compatible(&f, &g, true, true, &cands, &[true, true]));
    assert!(!check_pairwise_compatible(&f, &g, true, true, &cands, &[true, false]));
    assert!(!check_pairwise_compatible(&f, &g, false, true, &cands, &[true, true]));
    // two constants are trivially compatible
    assert!(check_pairwise_compatible(&[1], &[7], false, false, &[], &[]));
    // one constant member is tested through its combinations:
    // 1 + (t+1)(t+2) = t^2 + 3t + 3 has no real roots
    let quad = vec![2, 3, 1];
    let mixed = compat_candidates(&[1], &quad, 1);
    assert_eq!(mixed, vec![vec![3, 3, 1]]);
    assert!(!check_pairwise_compatible(&[1], &quad, true, true, &mixed, &[false]));
    assert!(check_pairwise_compatible(&[1], &quad, true, true, &mixed, &[true]));
    // in chains, a zero member is trivial and two constants are trivial
    assert!(check_chain_pair_compatible(&[0, 0], &[1, 2, 1], false, false, &[], &[]));
    assert!(check_chain_pair_compatible(&[3], &[4], false, false, &[], &[]));
    assert!(!check_chain_pair_compatible(&[3], &[1, 1], true, false, &[], &[]));
}

#[test]
fn non_constant_candidates_only_count() {
    // a combination that collapses to a constant is not consulted
    // f + g = 0 here, and f + 2g = -(1 + t)
    let cands = compat_candidates(&[1, 1], &[-1, -1], 2);
    assert_eq!(cands, vec![vec![0], vec![-1, -1]]);
    assert!(check_pairwise_compatible(&[1, 1], &[-1, -1], true, true, &cands, &[false, true]));
}

#[test]
fn families_and_chains() {
    let polys = vec![vec![1, 1], vec![1, 2], vec![5]];
    let table = vec![vec![true, false, false], vec![true, true, false], vec![true, true, true]];
    let (ok, failures) = check_compatible_family(&polys, &table);
    assert!(!ok);
    assert_eq!(failures, vec![(0, 1)]);
    let all = vec![vec![true; 3]; 3];
    assert_eq!(check_compatible_family(&polys, &all), (true, vec![]));
    assert!(check_chain_interlacing(&polys, &all));
    assert!(!check_chain_interlacing(&polys, &table));
    assert!(check_chain_interlacing(&polys[..1], &table));
    // only consecutive members are compared
    let consecutive = vec![vec![true, true, false], vec![true, true, true], vec![true, true, true]];
    assert!(check_chain_interlacing(&polys, &consecutive));
    assert!(is_pairwise_interlacing_sequence(&polys, &all));
    assert!(!is_pairwise_interlacing_sequence(&polys, &table));
}

#[test]
fn weak_interlacing_questions() {
    assert_eq!(weakly_interlace(&[1], &[1, 2]), InterlaceStep::Decided(true));
    assert_eq!(weakly_interlace(&[1, 1], &[1, 2, 1]), InterlaceStep::Ask(vec![1, 1], vec![1, 2, 1]));
    assert_eq!(weakly_interlace(&[1, 2, 1], &[1, 1]), InterlaceStep::Ask(vec![1, 1], vec![1, 2, 1]));
    let qs = chain_queries(&[vec![1, 1], vec![1], vec![1, 2], vec![1, 2, 1]]);
    assert_eq!(qs, vec![(vec![1, 2], vec![1, 2, 1])]);
    assert_eq!(chain_queries(&[vec![1, 2]]), Vec::<(Vec<i64>, Vec<i64>)>::new());
    assert!(check_chain(&[true, true]));
    assert!(!check_chain(&[true, false]));
    assert!(check_chain(&[]));
}

#[test]
fn chain_through_a_zero_member() {
    let polys = vec![vec![2, 3, 1], vec![0], vec![200, 30, 1]];
    let mut table = vec![vec![false; 3]; 3];
    for i in 0..2 {
        table[i][i + 1] = check_chain_pair_compatible(&polys[i], &polys[i + 1], true, true, &[], &[]);
    }
    assert!(table[0][1] && table[1][2]);
    // the outer pair is never consulted
    assert!(!table[0][2]);
    assert!(check_chain_interlacing(&polys, &table));
}

#[test]
fn both_directions_of_interlacing() {
    assert_eq!(both_interlacings(&[0, 0], &[1, 2, 1], false, false), (true, true));
    assert_eq!(both_interlacings(&[1, 1], &[0], false, true), (true, true));
    assert_eq!(both_interlacings(&[1, 1], &[1, 2, 1], true, false), (true, false));
    assert_eq!(both_interlacings(&[1, 1], &[1, 3, 2], false, false), (false, false));
}
