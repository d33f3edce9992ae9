use experiments::board::{
    board_to_perm, compose, gb, gen_boards, interlaces, interlaces_undecided, is_312_avoiding, lex_rank, pa, pdeg,
    peaks, pmt, pt, pz, total_depth,
};
use experiments::bruhat::bruhat_lower_ideal;
use experiments::compat::InterlaceStep;

#[test]
fn short_polynomial_helpers() {
    assert_eq!(pt(&[1, 0, 0]), vec![1]);
    assert_eq!(pt(&[]), Vec::<i64>::new());
    assert!(pz(&[0, 0]));
    assert_eq!(pa(&[1, 2], &[0, -2]), vec![1]);
    assert_eq!(pmt(&[1, 2, 0]), vec![0, 1, 2]);
    assert_eq!(pdeg(&[0, 3, 0]), Some(1));
    assert_eq!(pdeg(&[0]), None);
}

#[test]
fn boards_of_size_three() {
    let b = gen_boards(3);
    assert_eq!(
        b,
        vec![vec![1, 2, 3], vec![1, 3, 3], vec![2, 2, 3], vec![2, 3, 3], vec![3, 3, 3]]
    );
}

#[test]
fn board_counts_are_catalan() {
    assert_eq!(gen_boards(0), vec![Vec::<u8>::new()]);
    assert_eq!(gen_boards(1).len(), 1);
    assert_eq!(gen_boards(4).len(), 14);
    assert_eq!(gen_boards(5).len(), 42);
}

#[test]
fn board_recursion_restores_prefix() {
    let mut c = vec![2u8];
    let mut r: Vec<Vec<u8>> = Vec::new();
    gb(3, 3, 1, &mut c, &mut r);
    assert_eq!(c, vec![2]);
    assert_eq!(r, vec![vec![2, 2, 3], vec![2, 3, 3]]);
}

#[test]
fn boards_to_permutations() {
    assert_eq!(board_to_perm(&[1, 2, 3]), vec![1, 2, 3]);
    assert_eq!(board_to_perm(&[3, 3, 3]), vec![3, 2, 1]);
    assert_eq!(board_to_perm(&[2, 3, 3]), vec![2, 3, 1]);
}

#[test]
fn pattern_and_peaks() {
    assert!(!is_312_avoiding(&[2, 3, 1]));
    assert!(is_312_avoiding(&[3, 1, 2]));
    assert!(is_312_avoiding(&[1, 2, 3]));
    assert_eq!(peaks(&[1, 3, 2]), 1);
    assert_eq!(peaks(&[1, 2]), 0);
    assert_eq!(peaks(&[2, 1, 3, 1]), 1);
    assert_eq!(peaks(&[1, 3, 2, 4, 1]), 2);
}

#[test]
fn composition_and_rank() {
    assert_eq!(compose(&[2, 3, 1], &[3, 1, 2]), vec![1, 2, 3]);
    assert_eq!(lex_rank(&[1, 2, 3]), 0);
    assert_eq!(lex_rank(&[1, 3, 2]), 1);
    assert_eq!(lex_rank(&[2, 1, 3]), 2);
    assert_eq!(lex_rank(&[3, 2, 1]), 5);
    assert_eq!(total_depth(&[vec![1, 2, 3]], &[vec![3, 2, 1]]), 6);
    assert_eq!(total_depth(&[vec![1, 2], vec![2, 1]], &[vec![1, 2], vec![1, 2]]), 3);
}

#[test]
fn lower_bruhat_ideals() {
    assert_eq!(bruhat_lower_ideal(&[1, 2]), vec![vec![1, 2]]);
    assert_eq!(bruhat_lower_ideal(&[2, 1]), vec![vec![1, 2], vec![2, 1]]);
    assert_eq!(
        bruhat_lower_ideal(&[2, 3, 1]),
        vec![vec![1, 2, 3], vec![1, 3, 2], vec![2, 1, 3], vec![2, 3, 1]]
    );
    let top = bruhat_lower_ideal(&[3, 2, 1]);
    assert_eq!(top.len(), 6);
    assert_eq!(top[0], vec![1, 2, 3]);
    assert_eq!(top[5], vec![3, 2, 1]);
    assert_eq!(bruhat_lower_ideal(&[4, 3, 2, 1]).len(), 24);
    assert_eq!(bruhat_lower_ideal(&[]), vec![Vec::<u8>::new()]);
}

#[test]
fn interlacing_steps() {
    assert_eq!(interlaces(&[0, 0], &[1, 1]), InterlaceStep::Decided(true));
    assert_eq!(interlaces(&[1, 1], &[0]), InterlaceStep::Decided(false));
    assert_eq!(interlaces(&[1, 1, 0], &[1, 2]), InterlaceStep::Ask(vec![1, 1], vec![1, 2]));
    assert_eq!(interlaces_undecided(&[1, 1], &[1, 2]), InterlaceStep::Ask(vec![1, 2], vec![0, 1, 1]));
    assert_eq!(interlaces_undecided(&[1], &[1, 2]), InterlaceStep::Decided(false));
}

#[test]
fn peak_tables_of_an_ideal() {
    let ideal = bruhat_lower_ideal(&[2, 3, 1]);
    let (d, u) = experiments::board::peak_tables(&ideal, 2);
    assert_eq!(d.len(), 3);
    assert_eq!(u[1][2], vec![0, 1]);
    assert_eq!(u[2][1], vec![0, 1]);
    assert_eq!(d[1][2], vec![0]);
    assert_eq!(u[0][0], vec![0]);
    let (d, _) = experiments::board::peak_tables(&bruhat_lower_ideal(&[3, 2, 1]), 3);
    // [3,2,1] and [3,1,2] start with 3 and descend; [2,1,3] ends in 3
    assert_eq!(d[3][1], vec![1]);
    assert_eq!(d[3][2], vec![1]);
    assert_eq!(d[2][3], vec![1]);
}
