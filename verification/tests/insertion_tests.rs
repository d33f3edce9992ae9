use experiments::descent::{source_asc, source_desc, valid_positions};
use experiments::insertion::{adjacency_count, descent_set_bitmask, group_by_descent_set, eps2, epsilon1, epsilon2, insert, modified_swaps, pos_of, swap_values_at};

fn descent_mask(s: &[u8]) -> u64 {
    let mut m = 0u64;
    for i in 1..s.len() {
        if s[i - 1] > s[i] {
            m |= 1 << (i - 1);
        }
    }
    m
}

#[test]
fn insert_places_the_maximum() {
    assert_eq!(insert(&[2, 1, 3], 2), vec![2, 4, 1, 3]);
    assert_eq!(insert(&[2, 1, 3], 1), vec![4, 2, 1, 3]);
    assert_eq!(insert(&[2, 1, 3], 4), vec![2, 1, 3, 4]);
}

#[test]
fn insertion_at_valid_position_matches_source_sets() {
    // S = {2, 3} in S_4: valid positions are 2 (and 4 is not since 3 in S).
    let s = 0b0110u64;
    assert_eq!(valid_positions(s, 4), vec![2]);
    let sp = source_asc(s, 2, 4);
    let spp = source_desc(s, 2, 4).unwrap();
    // Every permutation of [3] whose descent set is S'_2 or S''_2 gives S.
    let perms: Vec<Vec<u8>> = vec![
        vec![1, 2, 3],
        vec![1, 3, 2],
        vec![2, 1, 3],
        vec![2, 3, 1],
        vec![3, 1, 2],
        vec![3, 2, 1],
    ];
    for pi in &perms {
        let d = descent_mask(pi);
        let sigma = insert(pi, 2);
        let gives_s = descent_mask(&sigma) == s;
        assert_eq!(gives_s, d == sp || d == spp, "pi = {:?}", pi);
    }
}

#[test]
fn epsilon_one_detects_broken_consecutive_pair() {
    assert!(epsilon1(&[1, 2, 3], 2));
    assert!(epsilon1(&[1, 2, 3], 3));
    assert!(!epsilon1(&[1, 2, 3], 1));
    assert!(!epsilon1(&[1, 2, 3], 4));
    assert!(!epsilon1(&[2, 1, 3], 2));
}

#[test]
fn epsilon_two() {
    assert_eq!(eps2(4, 1), 1);
    assert_eq!(eps2(4, 3), 0);
    assert_eq!(eps2(1, 0), 0);
    assert!(epsilon2(4, 1));
    assert!(!epsilon2(4, 3));
}

#[test]
fn positions_and_swaps() {
    assert_eq!(pos_of(&[3, 1, 2], 3), 1);
    assert_eq!(pos_of(&[1, 2, 3], 3), 3);
    assert_eq!(swap_values_at(&[1, 2, 3], 0, 2), vec![3, 2, 1]);
}

#[test]
fn modified_swaps_adds_both_corrections() {
    assert_eq!(modified_swaps(&vec![1, 2, 3], 2, 5), 6);
    assert_eq!(modified_swaps(&vec![3, 1, 2], 3, 2), 4);
    assert_eq!(modified_swaps(&vec![2, 1, 3], 4, 1), 1);
}

#[test]
fn descent_bitmasks() {
    assert_eq!(descent_set_bitmask(&[3, 1, 2]), 0b01);
    assert_eq!(descent_set_bitmask(&[1, 3, 2]), 0b10);
    assert_eq!(descent_set_bitmask(&[3, 2, 1]), 0b11);
    assert_eq!(descent_set_bitmask(&[]), 0);
    assert_eq!(descent_set_bitmask(&[2, 1, 4, 3]), 0b101);
}

#[test]
fn permutations_grouped_by_descent_set() {
    // S_3 in lexicographic order: 123, 132, 213, 231, 312, 321.
    let perms: Vec<Vec<u8>> = vec![
        vec![1, 2, 3],
        vec![1, 3, 2],
        vec![2, 1, 3],
        vec![2, 3, 1],
        vec![3, 1, 2],
        vec![3, 2, 1],
    ];
    let groups = group_by_descent_set(&perms);
    assert_eq!(
        groups,
        vec![(0u64, vec![0usize]), (1, vec![2, 4]), (2, vec![1, 3]), (3, vec![5])]
    );
    assert!(group_by_descent_set(&[]).is_empty());
}

#[test]
fn ascending_adjacencies() {
    assert_eq!(adjacency_count(&[1, 2, 3]), 2);
    assert_eq!(adjacency_count(&[3, 1, 2]), 1);
    assert_eq!(adjacency_count(&[2, 1, 3]), 0);
    assert_eq!(adjacency_count(&[5]), 0);
    assert_eq!(adjacency_count(&[]), 0);
}
