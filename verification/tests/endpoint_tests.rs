use experiments::compat::InterlaceStep;
use experiments::endpoint::{
    classify_endpoint_pair_pattern, classify_endpoint_relative_bin, endpoint_adjacent_pair_contains_previous_max,
    endpoint_adjacent_values_are_consecutive, endpoint_previous_max_is_on_left, interlaces_weak,
    permutations_of_families, poly_degree, poly_mul_t, trim, AuxKind, Bin, EndpointPairPattern, Family,
};
use experiments::family::{
    family_bin_poly, family_bin_poly_with_endpoint_consecutive_filter, family_bin_poly_with_endpoint_local_filters,
    family_bin_poly_with_endpoint_pattern_filter, family_bin_poly_with_endpoint_side_filters,
    family_bin_poly_with_epsilon1_filter, family_q_sequence, family_total_poly,
};

#[test]
fn labels_and_orders() {
    assert_eq!(Family::all(), [Family::LeftBase, Family::LeftAugmented, Family::RightBase, Family::RightAugmented]);
    assert_eq!(Family::RightAugmented.short_name(), "RA");
    assert_eq!(Bin::all()[2], Bin::GapWindow);
    assert_eq!(Bin::FarLeft.short_name(), "FL");
    assert_eq!(AuxKind::all(), [AuxKind::Prefix, AuxKind::SuffixLr]);
    assert_eq!(AuxKind::SuffixLr.short_name(), "S");
    assert_eq!(EndpointPairPattern::all().len(), 8);
    assert_eq!(EndpointPairPattern::NonconsecutiveDescending.short_name(), "far_down");
    assert_eq!(EndpointPairPattern::TopAdjacentAscending.short_name(), "top_up");
}

#[test]
fn trimming_variant_reads_empty_as_zero() {
    assert_eq!(trim(vec![]), vec![0]);
    assert_eq!(trim(vec![1, 0]), vec![1]);
    assert_eq!(poly_degree(&[1, 2, 0]), 1);
    assert_eq!(poly_degree(&[0]), 0);
    assert_eq!(poly_mul_t(&[1, 2, 0]), vec![0, 1, 2]);
    assert_eq!(poly_mul_t(&[0]), vec![0]);
}

#[test]
fn endpoint_bins() {
    assert_eq!(classify_endpoint_relative_bin(1, 3, 6, 4), Bin::FarLeft);
    assert_eq!(classify_endpoint_relative_bin(3, 3, 6, 4), Bin::RunWindow);
    assert_eq!(classify_endpoint_relative_bin(5, 3, 8, 4), Bin::GapWindow);
    assert_eq!(classify_endpoint_relative_bin(7, 3, 8, 4), Bin::FarRight);
}

#[test]
fn endpoint_pairs() {
    assert!(endpoint_adjacent_values_are_consecutive(&[3, 4, 1, 2], 1));
    assert!(!endpoint_adjacent_values_are_consecutive(&[3, 1, 2], 1));
    assert!(!endpoint_adjacent_values_are_consecutive(&[3, 4], 0));
    assert!(!endpoint_adjacent_values_are_consecutive(&[3, 4], 2));
    assert!(endpoint_adjacent_pair_contains_previous_max(&[3, 4, 1, 2], 1, 5));
    assert!(!endpoint_adjacent_pair_contains_previous_max(&[3, 4, 1, 2], 3, 5));
    assert_eq!(endpoint_previous_max_is_on_left(&[4, 3, 1, 2], 1, 5), Some(true));
    assert_eq!(endpoint_previous_max_is_on_left(&[3, 4, 1, 2], 1, 5), Some(false));
    assert_eq!(endpoint_previous_max_is_on_left(&[1, 2, 3, 4], 1, 5), None);
    assert_eq!(classify_endpoint_pair_pattern(&[3, 4, 1, 2], 1, 5), Some(EndpointPairPattern::TopAdjacentAscending));
    assert_eq!(classify_endpoint_pair_pattern(&[4, 3, 1, 2], 1, 5), Some(EndpointPairPattern::TopAdjacentDescending));
    assert_eq!(classify_endpoint_pair_pattern(&[4, 1, 3, 2], 1, 5), Some(EndpointPairPattern::PreviousMaxLeftFar));
    assert_eq!(classify_endpoint_pair_pattern(&[1, 4, 3, 2], 1, 5), Some(EndpointPairPattern::PreviousMaxRightFar));
    assert_eq!(classify_endpoint_pair_pattern(&[1, 2, 4, 3], 1, 5), Some(EndpointPairPattern::ConsecutiveAscending));
    assert_eq!(classify_endpoint_pair_pattern(&[2, 1, 4, 3], 1, 5), Some(EndpointPairPattern::ConsecutiveDescending));
    assert_eq!(classify_endpoint_pair_pattern(&[1, 3, 4, 2], 1, 5), Some(EndpointPairPattern::NonconsecutiveAscending));
    assert_eq!(classify_endpoint_pair_pattern(&[3, 1, 4, 2], 1, 5), Some(EndpointPairPattern::NonconsecutiveDescending));
    assert_eq!(classify_endpoint_pair_pattern(&[3, 1], 2, 5), None);
}

#[test]
fn family_orderings() {
    let orders = permutations_of_families();
    assert_eq!(orders.len(), 24);
    assert_eq!(orders[0], [Family::LeftBase, Family::LeftAugmented, Family::RightBase, Family::RightAugmented]);
    assert_eq!(orders[1], [Family::LeftBase, Family::LeftAugmented, Family::RightAugmented, Family::RightBase]);
    assert_eq!(orders[2], [Family::LeftBase, Family::RightBase, Family::LeftAugmented, Family::RightAugmented]);
    assert_eq!(orders[23], [Family::RightAugmented, Family::LeftBase, Family::LeftAugmented, Family::RightBase]);
    for i in 0..orders.len() {
        for j in (i + 1)..orders.len() {
            assert_ne!(orders[i], orders[j]);
        }
    }
}

#[test]
fn weak_interlacing_reduction() {
    assert_eq!(interlaces_weak(&[0], &[0, 0]), InterlaceStep::Decided(true));
    assert_eq!(interlaces_weak(&[], &[1, 1]), InterlaceStep::Ask(vec![], vec![1, 1]));
    assert_eq!(interlaces_weak(&[1, 1], &[0]), InterlaceStep::Decided(true));
    assert_eq!(interlaces_weak(&[1], &[1, 1]), InterlaceStep::Ask(vec![1], vec![1, 1]));
    assert_eq!(interlaces_weak(&[1, 1], &[2, 1, 0]), InterlaceStep::Ask(vec![2, 1], vec![0, 1, 1]));
    assert_eq!(interlaces_weak(&[1, 1, 1], &[1]), InterlaceStep::Decided(false));
}

fn sample_family() -> (Vec<Vec<u8>>, Vec<usize>, Vec<bool>) {
    (vec![vec![1, 2, 3], vec![3, 1, 2], vec![1, 3, 2]], vec![0, 2, 1], vec![false, true, false])
}

#[test]
fn family_polynomials() {
    let (perms, swaps, eps1) = sample_family();
    assert_eq!(family_total_poly(&swaps, &eps1), vec![1, 1, 0, 1]);
    assert_eq!(family_total_poly(&[], &[]), vec![0]);
    assert_eq!(
        family_q_sequence(&perms, &swaps, &eps1, 4),
        vec![(1, vec![0, 0, 0, 1]), (2, vec![0, 1]), (3, vec![1])]
    );
    assert_eq!(family_bin_poly(&perms, &swaps, &eps1, 2, 4, 2, Bin::RunWindow, 4), vec![0, 1, 0, 1]);
    assert_eq!(family_bin_poly(&perms, &swaps, &eps1, 2, 4, 2, Bin::FarRight, 4), vec![1]);
    assert_eq!(family_bin_poly(&perms, &swaps, &eps1, 2, 4, 2, Bin::FarLeft, 4), vec![0]);
    assert_eq!(
        family_bin_poly_with_epsilon1_filter(&perms, &swaps, &eps1, 2, 4, 2, Bin::RunWindow, true, 4),
        vec![0, 0, 0, 1]
    );
}

#[test]
fn family_endpoint_filters() {
    let (perms, swaps, eps1) = sample_family();
    // endpoint r = 1: pairs (1,2), (3,1), (1,3)
    assert_eq!(
        family_bin_poly_with_endpoint_consecutive_filter(&perms, &swaps, &eps1, 2, 4, 1, Bin::FarRight, true, 4),
        vec![1]
    );
    assert_eq!(
        family_bin_poly_with_endpoint_local_filters(&perms, &swaps, &eps1, 2, 4, 1, Bin::RunWindow, false, true, 4),
        vec![0, 0, 0, 1]
    );
    assert_eq!(
        family_bin_poly_with_endpoint_side_filters(&perms, &swaps, &eps1, 2, 4, 1, Bin::RunWindow, false, true, 4),
        vec![0, 0, 0, 1]
    );
    assert_eq!(
        family_bin_poly_with_endpoint_pattern_filter(
            &perms,
            &swaps,
            &eps1,
            2,
            4,
            1,
            Bin::GapWindow,
            EndpointPairPattern::PreviousMaxRightFar,
            4
        ),
        vec![0, 1]
    );
}
