use experiments::descent::{
    alternating_mask, bit_at, descent_set_elements, diff_positions, popcount, remove_element, source_asc,
    source_desc, source_descent_set, source_descent_set_2, valid_positions, valid_positions_alt,
};

#[test]
fn valid_positions_of_two_three_in_s5() {
    // S = {2, 3}: p = 2 starts the run, p = 5 since 4 is not in S.
    assert_eq!(valid_positions(0b0110, 5), vec![2, 5]);
    // S empty: only p = n.
    assert_eq!(valid_positions(0, 4), vec![4]);
    // S = {1,2,3} in S_4: only p = 1.
    assert_eq!(valid_positions(0b0111, 4), vec![1]);
}

#[test]
fn alternating_positions() {
    assert_eq!(alternating_mask(6), 0b1010);
    assert_eq!(valid_positions_alt(6), vec![2, 4, 6]);
    assert_eq!(valid_positions_alt(5), vec![2, 4]);
    assert_eq!(valid_positions_alt(1), Vec::<u8>::new());
}

#[test]
fn source_sets_for_two_three_in_s5() {
    assert_eq!(source_asc(0b0110, 2, 5), 0b0010);
    assert_eq!(source_descent_set(0b0110, 2, 5), 0b0010);
    assert_eq!(source_desc(0b0110, 2, 5), Some(0b0011));
    assert_eq!(source_descent_set_2(0b0110, 2, 5), Some(0b0011));
    assert_eq!(source_asc(0b0110, 5, 5), 0b0110);
    assert_eq!(source_desc(0b0110, 5, 5), None);
    assert_eq!(source_asc(0b0110, 1, 5), 0b0011);
    assert_eq!(source_desc(0b0110, 1, 5), None);
    assert_eq!(source_desc(0b0110, 0, 5), None);
    assert_eq!(source_desc(0b0110, 200, 5), None);
}

#[test]
fn small_n_sources_are_empty() {
    assert_eq!(source_asc(0b1, 1, 2), 0);
}

#[test]
fn set_operations() {
    assert_eq!(descent_set_elements(0b0110, 5), vec![2, 3]);
    assert_eq!(descent_set_elements(0b0110, 3), vec![2]);
    assert_eq!(remove_element(0b0110, 2), 0b0100);
    assert_eq!(popcount(0b0110), 2);
    assert_eq!(popcount(u64::MAX), 64);
    assert!(bit_at(0b0110, 1));
    assert!(!bit_at(0b0110, 0));
}

#[test]
fn differing_positions() {
    assert_eq!(diff_positions(0b0110, 0b0011, 5), vec![(1, false, true), (3, true, false)]);
    assert_eq!(diff_positions(5, 5, 5), Vec::<(u8, bool, bool)>::new());
}
