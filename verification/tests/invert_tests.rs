use experiments::invert::{invert_staircase, Inversion};
use experiments::staircase::staircase_transform;

#[test]
fn inversion_recovers_the_source_blocks() {
    // source (1, t, 2): targets F = 3 + t, 2 + 2t, 2 + t + t^2
    let targets = vec![vec![3, 1], vec![2, 2], vec![2, 1, 1]];
    match invert_staircase(&targets) {
        Inversion::Divided { partials, nonneg, source } => {
            assert_eq!(partials, vec![vec![0], vec![1], vec![1, 1]]);
            assert!(nonneg);
            let source = source.unwrap();
            assert_eq!(source, vec![vec![1], vec![0, 1], vec![2]]);
            // the staircase of the recovered source gives the targets back
            let back = staircase_transform(&source);
            assert_eq!(back, targets);
        }
        _ => panic!("expected a division"),
    }
}

#[test]
fn inversion_reports_the_first_undivisible_difference() {
    match invert_staircase(&[vec![1], vec![2], vec![5, 7]]) {
        Inversion::NotDivisible { at, diff } => {
            assert_eq!(at, 1);
            assert_eq!(diff, vec![1]);
        }
        _ => panic!("expected no division"),
    }
}

#[test]
fn inversion_with_a_negative_partial_sum_gives_no_source() {
    match invert_staircase(&[vec![0, 1], vec![1]]) {
        Inversion::Divided { partials, nonneg, source } => {
            assert_eq!(partials, vec![vec![0], vec![-1]]);
            assert!(!nonneg);
            assert!(source.is_none());
        }
        _ => panic!("expected a division"),
    }
    // a single target: nothing to divide, the whole target is the source
    match invert_staircase(&[vec![4, 1]]) {
        Inversion::Divided { partials, nonneg, source } => {
            assert_eq!(partials, vec![vec![0]]);
            assert!(nonneg);
            assert_eq!(source, Some(vec![vec![4, 1]]));
        }
        _ => panic!("expected a division"),
    }
}
