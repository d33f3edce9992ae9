use experiments::induct::{
    children_of, compat_families, first_incompatible_pair, part1_interlacing, part4_pairwise_compatibility,
    part5_degree_comparison, part6_small_cases, removal_pairs, removal_position, tally_interlacings, DegreeRow, PositionTally,
    RemovalPair, RemovalPosition,
};

fn table() -> Vec<(u64, Vec<i64>)> {
    vec![(0, vec![1]), (2, vec![0, 1, 2]), (4, vec![1, 1]), (6, vec![0, 0, 1])]
}

#[test]
fn pairs_of_sets_and_subsets() {
    let pairs = removal_pairs(4, &table());
    assert_eq!(
        pairs,
        vec![
            RemovalPair { s: 1, i: 2, sp: 0 },
            RemovalPair { s: 2, i: 3, sp: 0 },
            RemovalPair { s: 3, i: 2, sp: 2 },
            RemovalPair { s: 3, i: 3, sp: 1 },
        ]
    );
    // sets holding 1 are skipped, as are pairs whose smaller set is not listed
    let pairs = removal_pairs(4, &[(1, vec![1]), (3, vec![1]), (6, vec![1])]);
    assert_eq!(pairs, Vec::<RemovalPair>::new());
}

#[test]
fn degree_comparison_table() {
    let out = part5_degree_comparison(4, &table());
    assert!(out.always_geq);
    assert!(!out.always_leq);
    assert_eq!(out.rows.len(), 4);
    assert_eq!(
        out.rows[0],
        DegreeRow {
            s_mask: 2,
            i: 2,
            sp_mask: 0,
            s_deg: Some(2),
            sp_deg: Some(0),
            diff_nonneg: false,
            s_total: 3,
            sp_total: 1,
        }
    );
    assert!(out.rows[3].diff_nonneg == false);
    assert_eq!(out.rows[2].s_deg, Some(2));
    assert_eq!(out.rows[2].sp_deg, Some(1));
}

#[test]
fn zero_polynomials_have_no_degree() {
    let out = part5_degree_comparison(3, &[(0, vec![0]), (2, vec![0, 1])]);
    assert!(out.always_geq && out.always_leq);
    assert_eq!(out.rows[0].sp_deg, None);
    assert!(out.rows[0].diff_nonneg);
}

#[test]
fn removal_positions() {
    assert_eq!(removal_position(&[2, 3], 2), RemovalPosition::Min);
    assert_eq!(removal_position(&[2, 3], 3), RemovalPosition::Max);
    assert_eq!(removal_position(&[2], 2), RemovalPosition::Only);
    assert_eq!(removal_position(&[1, 2, 3], 2), RemovalPosition::Mid);
    assert_eq!(RemovalPosition::Mid.label(), "mid");
    assert_eq!(RemovalPosition::Only.label(), "only");
}

#[test]
fn tallies() {
    let t = tally_interlacings(&[(true, false), (true, true), (false, false)]);
    assert_eq!((t.total, t.sp_leq_s, t.s_leq_sp, t.both, t.neither), (3, 2, 1, 1, 1));
    let t = tally_interlacings(&[]);
    assert_eq!(t.total, 0);
}

#[test]
fn first_pair_without_interlacing() {
    let answers = vec![
        vec![(true, true), (true, false), (false, false)],
        vec![(true, true), (true, true), (false, false)],
        vec![(true, true), (true, true), (true, true)],
    ];
    assert_eq!(first_incompatible_pair(3, &answers), Some((0, 2)));
    assert_eq!(first_incompatible_pair(2, &answers), None);
}

#[test]
fn transfer_rows_remove_largest_then_smallest() {
    let rows = experiments::induct::part2_transfer(4, &table());
    assert_eq!(rows.len(), 2);
    assert_eq!(rows[0].pair, experiments::induct::TransferPair { s: 3, elem: 3, sp: 1, removed_max: true });
    assert_eq!(rows[0].diff, vec![0, -1, -1]);
    assert!(rows[0].div_t && !rows[0].nonneg && rows[0].nonpos);
    assert_eq!(rows[1].pair, experiments::induct::TransferPair { s: 3, elem: 2, sp: 2, removed_max: false });
    assert_eq!(rows[1].diff, vec![-1, -1, 1]);
    assert!(!rows[1].div_t && !rows[1].nonneg && !rows[1].nonpos);
}

#[test]
fn position_refined_steps() {
    let perms: Vec<Vec<u8>> = vec![vec![1, 2, 3], vec![1, 3, 2], vec![2, 1, 3], vec![2, 3, 1], vec![3, 1, 2], vec![3, 2, 1]];
    let swaps = vec![0, 1, 1, 2, 2, 3];
    let polys = vec![(0u64, vec![1]), (1, vec![1]), (2, vec![1]), (3, vec![1])];
    let steps = experiments::induct::part3_matrix_recurrence(3, &perms, &swaps, &polys);
    assert_eq!(steps.len(), 1);
    assert_eq!((steps[0].s, steps[0].i, steps[0].sp_mask), (2, 2, 0));
    let rows = &steps[0].rows;
    assert_eq!(rows.len(), 2);
    assert_eq!((rows[0].pos, rows[0].diff.clone(), rows[0].nonneg, rows[0].deg, rows[0].nonzero), (2, vec![0, 1, 1], true, Some(2), 2));
    assert_eq!((rows[1].pos, rows[1].diff.clone(), rows[1].nonneg, rows[1].deg, rows[1].nonzero), (3, vec![-1], false, Some(0), 1));
}

#[test]
fn interlacing_report_along_pairs() {
    let answers = [(true, false), (false, false), (false, false), (false, true)];
    let rep = part1_interlacing(4, &table(), &answers);
    let t = rep.tally;
    assert_eq!((t.total, t.sp_leq_s, t.s_leq_sp, t.both, t.neither), (4, 1, 1, 0, 2));
    assert_eq!(rep.only, PositionTally { total: 2, some: 1 });
    assert_eq!(rep.min, PositionTally { total: 1, some: 0 });
    assert_eq!(rep.max, PositionTally { total: 1, some: 1 });
    assert_eq!(rep.mid, PositionTally { total: 0, some: 0 });
    assert_eq!(rep.fails, vec![1, 2]);
    let none = [(false, false); 4];
    assert_eq!(part1_interlacing(4, &table(), &none).fails, vec![0, 1, 2]);
}

#[test]
fn children_and_compatibility_families() {
    let kids = children_of(4, &table(), 3);
    assert_eq!(kids, vec![RemovalPair { s: 3, i: 2, sp: 2 }, RemovalPair { s: 3, i: 3, sp: 1 }]);
    assert!(children_of(4, &table(), 0).is_empty());
    let fams = compat_families(4, &table());
    assert_eq!(fams, vec![(3usize, kids)]);
}

#[test]
fn pairwise_compatibility_report() {
    let bad = vec![vec![vec![(true, true), (false, false)], vec![(true, true), (true, true)]]];
    let rep = part4_pairwise_compatibility(4, &table(), &bad);
    assert_eq!((rep.total, rep.all_compat, rep.some_fail), (1, 0, 1));
    assert_eq!(rep.fails, vec![(3usize, 2u8, 3u8)]);
    let good = vec![vec![vec![(true, true), (false, true)], vec![(true, true), (true, true)]]];
    let rep = part4_pairwise_compatibility(4, &table(), &good);
    assert_eq!((rep.total, rep.all_compat, rep.some_fail), (1, 1, 0));
    assert!(rep.fails.is_empty());
}

#[test]
fn detailed_table_blocks() {
    let blocks = part6_small_cases(4, &table());
    assert_eq!(blocks.iter().map(|b| b.s).collect::<Vec<_>>(), vec![1, 2, 3]);
    assert_eq!(blocks[0].rows.len(), 1);
    assert_eq!(blocks[0].rows[0].pair, RemovalPair { s: 1, i: 2, sp: 0 });
    assert_eq!(blocks[0].rows[0].diff, vec![-1, 1, 2]);
    assert_eq!(blocks[2].rows.len(), 2);
    assert_eq!(blocks[2].rows[0].diff, vec![-1, -1, 1]);
    assert_eq!(blocks[2].rows[1].diff, vec![0, -1, -1]);
    // an eligible set none of whose subsets is listed still gets its block
    let blocks = part6_small_cases(4, &[(4, vec![1, 1])]);
    assert_eq!(blocks.len(), 1);
    assert!(blocks[0].rows.is_empty());
}
