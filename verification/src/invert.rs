//! Inverting the staircase: from the targets `L^{(p_0)}, ..., L^{(p_{m-1})}`
//! (with `p_0 = 2`, so `L^{(p_0)} = F` is the whole source), recover the
//! partial sums `S_i = (L^{(p_i)} - F) / (t - 1)` and the source blocks
//! `S_1 - S_0, ..., S_{m-1} - S_{m-2}, F - S_{m-1}`, whose staircase
//! transform gives the targets back.
use vstd::prelude::*;
use crate::poly::{coef, strip, seq_diff, diff_fits, div_fits, suffix_sum, quotient_by_t_minus_1, poly_sub, div_by_t_minus_1, sum_range};
use crate::staircase::stair;

verus! {

/// `L^{(p_i)} - L^{(p_0)}`, trimmed.
pub open spec fn target_diff(targets: Seq<Vec<i64>>, i: int) -> Seq<i64> {
    strip(seq_diff(targets[i]@, targets[0]@))
}

/// `t - 1` divides `p` (as [`div_by_t_minus_1`] decides it).
pub open spec fn divisible(p: Seq<i64>) -> bool {
    if p.len() >= 2 {
        suffix_sum(p, 0) == 0
    } else {
        p.len() == 0 || p[0] == 0
    }
}

/// `p / (t - 1)` for a divisible `p`.
pub open spec fn div_result(p: Seq<i64>) -> Seq<i64> {
    if p.len() >= 2 {
        strip(quotient_by_t_minus_1(p))
    } else {
        seq![0i64]
    }
}

/// The partial sum `S_i`: zero for `i = 0`, else `(L^{(p_i)} - L^{(p_0)}) / (t - 1)`.
pub open spec fn partial(targets: Seq<Vec<i64>>, i: int) -> Seq<i64> {
    if i == 0 {
        seq![0i64]
    } else {
        div_result(target_diff(targets, i))
    }
}

/// The differences `L^{(p_j)} - L^{(p_0)}`, `1 <= j < i`, are all divisible.
pub open spec fn divisible_below(targets: Seq<Vec<i64>>, i: int) -> bool {
    forall|j: int| 1 <= j < i ==> #[trigger] divisible(target_diff(targets, j))
}

/// Every partial sum `S_1, ..., S_{m-1}` has nonnegative coefficients.
pub open spec fn partials_nonneg(targets: Seq<Vec<i64>>) -> bool {
    forall|i: int, k: int| 1 <= i < targets.len() && 0 <= k < partial(targets, i).len() ==> #[trigger] partial(targets, i)[k] >= 0
}

/// The arithmetic of the inversion stays within `i64`: each difference that is
/// formed (up to the first one that does not divide) and its division, and,
/// when every partial sum is nonnegative, the tail `F - S_{m-1}`.
pub open spec fn inversion_fits(targets: Seq<Vec<i64>>) -> bool {
    &&& forall|i: int|
        1 <= i < targets.len() && divisible_below(targets, i) ==> diff_fits(targets[i]@, targets[0]@) && div_fits(
            #[trigger] target_diff(targets, i),
        )
    &&& divisible_below(targets, targets.len() as int) && partials_nonneg(targets) ==> diff_fits(
        targets[0]@,
        partial(targets, targets.len() - 1),
    )
}

/// Outcome of the inversion.
pub enum Inversion {
    /// `L^{(p_at)} - L^{(p_0)}` (given trimmed as `diff`) is not divisible by `t - 1`.
    NotDivisible { at: usize, diff: Vec<i64> },
    /// Every difference divides: the partial sums, whether they are all
    /// nonnegative, and then the source blocks.
    Divided { partials: Vec<Vec<i64>>, nonneg: bool, source: Option<Vec<Vec<i64>>> },
}

/// `source` is the block decomposition of the partial sums of `targets`.
pub open spec fn is_source(targets: Seq<Vec<i64>>, source: Seq<Vec<i64>>) -> bool {
    &&& source.len() == targets.len()
    &&& forall|j: int|
        0 <= j < targets.len() - 1 ==> (#[trigger] source[j])@ == strip(seq_diff(partial(targets, j + 1), partial(targets, j)))
    &&& source[targets.len() - 1]@ == strip(seq_diff(targets[0]@, partial(targets, targets.len() - 1)))
}

/// `sum_range(s, 0, i) = sum_range(s, 0, j) + sum_range(s, j, i)`.
proof fn lemma_sum_range_split(s: Seq<Vec<i64>>, j: int, i: int, k: int)
    requires
        0 <= j <= i,
    ensures
        sum_range(s, 0, i, k) == sum_range(s, 0, j, k) + sum_range(s, j, i, k),
    decreases i - j,
{
    if i > j {
        lemma_sum_range_split(s, j, i - 1, k);
    }
}

/// The blocks below `i` add up to `S_i`.
proof fn lemma_blocks_telescope(targets: Seq<Vec<i64>>, source: Seq<Vec<i64>>, i: int, k: int)
    requires
        targets.len() >= 1,
        is_source(targets, source),
        forall|j: int, k: int|
            0 <= j < targets.len() - 1 ==> #[trigger] coef(source[j]@, k) == coef(partial(targets, j + 1), k) - coef(
                partial(targets, j),
                k,
            ),
        0 <= i <= targets.len() - 1,
    ensures
        sum_range(source, 0, i, k) == coef(partial(targets, i), k),
    decreases i,
{
    if i > 0 {
        lemma_blocks_telescope(targets, source, i - 1, k);
        assert(coef(source[i - 1]@, k) == coef(partial(targets, i), k) - coef(partial(targets, i - 1), k));
    } else {
        assert(coef(seq![0i64], k) == 0);
    }
}

/// The staircase from the first target: partial sums by exact division,
/// then the source blocks when the partial sums are nonnegative. The staircase
/// transform of the source gives every target back.
pub fn invert_staircase(targets: &[Vec<i64>]) -> (r: Inversion)
    requires
        targets.len() >= 1,
        inversion_fits(targets@),
    ensures
        match r {
            Inversion::NotDivisible { at, diff } => {
                &&& 1 <= at < targets.len()
                &&& diff@ == target_diff(targets@, at as int)
                &&& !divisible(diff@)
                &&& divisible_below(targets@, at as int)
            },
            Inversion::Divided { partials, nonneg, source } => {
                &&& divisible_below(targets@, targets.len() as int)
                &&& partials.len() == targets.len()
                &&& forall|i: int| 0 <= i < targets.len() ==> (#[trigger] partials@[i])@ == partial(targets@, i)
                &&& nonneg == partials_nonneg(targets@)
                &&& nonneg == source.is_some()
                &&& source matches Some(s) ==> {
                    &&& is_source(targets@, s@)
                    &&& forall|i: int, k: int| 0 <= i < targets.len() ==> #[trigger] coef(targets@[i]@, k) == stair(s@, i, k)
                }
            },
        },
{
    let m = targets.len();
    let mut partials: Vec<Vec<i64>> = Vec::new();
    partials.push(vec![0i64]);
    let mut nonneg = true;
    let mut i: usize = 1;
    while i < m
        invariant
            1 <= i <= m,
            m == targets.len(),
            inversion_fits(targets@),
            divisible_below(targets@, i as int),
            partials.len() == i,
            forall|j: int| 0 <= j < i ==> (#[trigger] partials@[j])@ == partial(targets@, j),
            forall|j: int, k: int|
                1 <= j < i ==> coef(partials@[j]@, k - 1) - #[trigger] coef(partials@[j]@, k) == coef(targets@[j]@, k) - coef(
                    targets@[0]@,
                    k,
                ),
            nonneg == forall|j: int, k: int| 1 <= j < i && 0 <= k < partial(targets@, j).len() ==> #[trigger] partial(targets@, j)[k] >= 0,
        decreases m - i,
    {
        assert(divisible_below(targets@, i as int));
        assert(1 <= i < targets@.len());
        let ghost td = target_diff(targets@, i as int);
        assert(diff_fits(targets@[i as int]@, targets@[0]@));
        assert(div_fits(td));
        let diff = poly_sub(targets[i].as_slice(), targets[0].as_slice());
        match div_by_t_minus_1(diff.as_slice()) {
            None => {
                return Inversion::NotDivisible { at: i, diff };
            },
            Some(q) => {
                proof {
                    assert forall|k: int| coef(q@, k - 1) - #[trigger] coef(q@, k) == coef(targets@[i as int]@, k) - coef(
                        targets@[0]@,
                        k,
                    ) by {
                        assert(coef(diff@, k) == coef(targets@[i as int]@, k) - coef(targets@[0]@, k));
                        if diff.len() == 1 {
                            assert(coef(diff@, k) == 0);
                        }
                    }
                    assert(divisible(target_diff(targets@, i as int)));
                    assert forall|j: int| 1 <= j < i + 1 implies #[trigger] divisible(target_diff(targets@, j)) by {}
                }
                let mut k: usize = 0;
                let mut q_nonneg = true;
                while k < q.len()
                    invariant
                        k <= q.len(),
                        q_nonneg == forall|x: int| 0 <= x < k ==> q@[x] >= 0,
                    decreases q.len() - k,
                {
                    if q[k] < 0 {
                        q_nonneg = false;
                    }
                    k += 1;
                }
                let ghost before = nonneg;
                nonneg = nonneg && q_nonneg;
                partials.push(q);
                proof {
                    assert(partials@[i as int]@ == partial(targets@, i as int));
                    assert(nonneg == forall|j: int, k: int|
                        1 <= j < i + 1 && 0 <= k < partial(targets@, j).len() ==> #[trigger] partial(targets@, j)[k] >= 0) by {
                        if nonneg {
                            assert forall|j: int, k: int|
                                1 <= j < i + 1 && 0 <= k < partial(targets@, j).len() implies #[trigger] partial(targets@, j)[k]
                                >= 0 by {
                                if j == i {
                                    assert(partial(targets@, j) == partials@[i as int]@);
                                }
                            }
                        }
                        if !q_nonneg {
                            let x = choose|x: int| 0 <= x < q.len() && !(q@[x] >= 0);
                            assert(partial(targets@, i as int)[x] == q@[x]);
                        }
                    }
                }
            },
        }
        i += 1;
    }
    if !nonneg {
        return Inversion::Divided { partials, nonneg, source: None };
    }
    let mut source: Vec<Vec<i64>> = Vec::new();
    let mut j: usize = 0;
    while j + 1 < m
        invariant
            j + 1 <= m,
            m == targets.len(),
            partials.len() == m,
            forall|x: int| 0 <= x < m ==> (#[trigger] partials@[x])@ == partial(targets@, x),
            partials_nonneg(targets@),
            source.len() == j,
            forall|x: int|
                0 <= x < j ==> (#[trigger] source@[x])@ == strip(seq_diff(partial(targets@, x + 1), partial(targets@, x))),
            forall|x: int, k: int|
                0 <= x < j ==> #[trigger] coef(source@[x]@, k) == coef(partial(targets@, x + 1), k) - coef(partial(targets@, x), k),
        decreases m - j,
    {
        proof {
            assert forall|k: int| #[trigger] crate::poly::fits_i64(coef(partials@[j + 1]@, k) - coef(partials@[j as int]@, k)) by {
                if 0 <= k < partials@[j + 1]@.len() {
                    assert(partial(targets@, j + 1)[k] >= 0);
                }
                if j > 0 && 0 <= k < partials@[j as int]@.len() {
                    assert(partial(targets@, j as int)[k] >= 0);
                }
            }
        }
        let block = poly_sub(partials[j + 1].as_slice(), partials[j].as_slice());
        source.push(block);
        j += 1;
    }
    let tail = poly_sub(targets[0].as_slice(), partials[m - 1].as_slice());
    source.push(tail);
    proof {
        let s = source@;
        assert forall|x: int, k: int|
            0 <= x < targets.len() - 1 implies #[trigger] coef(s[x]@, k) == coef(partial(targets@, x + 1), k) - coef(
                partial(targets@, x),
                k,
            ) by {
            assert(s[x] == source@[x]);
        }
        assert forall|i: int, k: int| 0 <= i < targets.len() implies #[trigger] coef(targets@[i]@, k) == stair(s, i, k) by {
            lemma_blocks_telescope(targets@, s, i, k);
            lemma_blocks_telescope(targets@, s, i, k - 1);
            lemma_blocks_telescope(targets@, s, (m - 1) as int, k);
            lemma_sum_range_split(s, i, m as int, k);
            assert(sum_range(s, 0, m as int, k) == sum_range(s, 0, m - 1, k) + coef(s[m - 1]@, k));
            assert(coef(s[m - 1]@, k) == coef(targets@[0]@, k) - coef(partial(targets@, m - 1), k));
            if i == 0 {
                assert(coef(seq![0i64], k) == 0 && coef(seq![0i64], k - 1) == 0);
            } else {
                assert(coef(partials@[i]@, k - 1) - coef(partials@[i]@, k) == coef(targets@[i]@, k) - coef(targets@[0]@, k));
            }
        }
    }
    Inversion::Divided { partials, nonneg, source: Some(source) }
}

} // verus!
