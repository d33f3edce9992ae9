//! The staircase transform of a family of polynomials and the identities
//! that relate its 2x2 minors to the source coefficients.
use vstd::prelude::*;
use crate::poly::{coef, fits_i64, is_trimmed, strip, trim_in_place, lemma_strip, sum_range, lemma_sum_range_rev, sum_range_rev};
use crate::minors::minor2;

verus! {

/// Coefficient of `t^k` in `g_i = t * (f_0 + ... + f_{i-1}) + (f_i + ... + f_{m-1})`.
pub open spec fn stair(rows: Seq<Vec<i64>>, i: int, k: int) -> int {
    sum_range(rows, 0, i, k - 1) + sum_range(rows, i, rows.len() as int, k)
}

/// `D(k) = sum_{i1 <= j < i2} ([t^k] f_j - [t^(k-1)] f_j)`, with `[t^(-1)] f_j = 0`.
pub open spec fn d_sum(rows: Seq<Vec<i64>>, i1: int, j: int, k: int) -> int
    decreases j - i1,
{
    if j <= i1 {
        0
    } else {
        d_sum(rows, i1, j - 1, k) + (coef(rows[j - 1]@, k) - coef(rows[j - 1]@, k - 1))
    }
}

/// The running sums computed by the staircase transform fit in an `i64`.
pub open spec fn stair_fits(rows: Seq<Vec<i64>>) -> bool {
    &&& forall|j: int, k: int| 0 <= j <= rows.len() ==> #[trigger] fits_i64(sum_range(rows, 0, j, k))
    &&& forall|i: int, j: int, k: int|
        0 <= i <= j <= rows.len() ==> #[trigger] fits_i64(sum_range(rows, 0, i, k - 1) + sum_range(rows, i, j, k))
}

pub proof fn lemma_sum_range_split_front(ps: Seq<Vec<i64>>, lo: int, hi: int, k: int)
    requires
        lo < hi,
    ensures
        sum_range(ps, lo, hi, k) == coef(ps[lo]@, k) + sum_range(ps, lo + 1, hi, k),
{
    lemma_sum_range_rev(ps, lo, hi, k);
    lemma_sum_range_rev(ps, lo + 1, hi, k);
}

/// Consecutive outputs of the staircase differ by `(t - 1) f_i`:
/// `[t^k] g_{i+1} - [t^k] g_i = [t^(k-1)] f_i - [t^k] f_i`.
pub proof fn lemma_stair_step(rows: Seq<Vec<i64>>, i: int, k: int)
    requires
        0 <= i < rows.len(),
    ensures
        stair(rows, i + 1, k) - stair(rows, i, k) == coef(rows[i]@, k - 1) - coef(rows[i]@, k),
{
    lemma_sum_range_split_front(rows, i, rows.len() as int, k);
}

/// `[t^k] g_{i2} = [t^k] g_{i1} - D(k)` for `i1 <= i2`.
pub proof fn lemma_stair_difference(rows: Seq<Vec<i64>>, i1: int, i2: int, k: int)
    requires
        0 <= i1 <= i2 <= rows.len(),
    ensures
        stair(rows, i2, k) == stair(rows, i1, k) - d_sum(rows, i1, i2, k),
    decreases i2 - i1,
{
    if i2 > i1 {
        lemma_stair_difference(rows, i1, i2 - 1, k);
        lemma_stair_step(rows, i2 - 1, k);
    }
}

/// The identity checked by the staircase experiment: every 2x2 minor of the
/// staircase output on rows `i1 < i2` equals
/// `B_{i1,k2} * D(k1) - B_{i1,k1} * D(k2)`.
pub proof fn lemma_staircase_minor_identity(rows: Seq<Vec<i64>>, i1: int, i2: int, k1: int, k2: int)
    requires
        0 <= i1 <= i2 <= rows.len(),
    ensures
        stair(rows, i1, k1) * stair(rows, i2, k2) - stair(rows, i1, k2) * stair(rows, i2, k1) == stair(
            rows,
            i1,
            k2,
        ) * d_sum(rows, i1, i2, k1) - stair(rows, i1, k1) * d_sum(rows, i1, i2, k2),
{
    lemma_stair_difference(rows, i1, i2, k1);
    lemma_stair_difference(rows, i1, i2, k2);
    let x1 = stair(rows, i1, k1);
    let x2 = stair(rows, i1, k2);
    let d1 = d_sum(rows, i1, i2, k1);
    let d2 = d_sum(rows, i1, i2, k2);
    assert(x1 * (x2 - d2) - x2 * (x1 - d1) == x2 * d1 - x1 * d2) by (nonlinear_arith);
}

fn max_len_rows(rows: &[Vec<i64>]) -> (m: usize)
    ensures
        m == crate::minors::max_row_len(rows@),
        forall|j: int| 0 <= j < rows.len() ==> rows@[j].len() <= m,
{
    let mut m: usize = 0;
    let mut i: usize = 0;
    while i < rows.len()
        invariant
            i <= rows.len(),
            m == crate::minors::max_row_len(rows@.take(i as int)),
            forall|j: int| 0 <= j < i ==> rows@[j].len() <= m,
        decreases rows.len() - i,
    {
        assert(rows@.take(i + 1).drop_last() =~= rows@.take(i as int));
        if rows[i].len() >= m {
            m = rows[i].len();
        }
        i += 1;
    }
    assert(rows@.take(i as int) =~= rows@);
    m
}

/// Staircase transform: row `i` of the output is
/// `g_i(t) = t * (f_0 + ... + f_{i-1}) + (f_i + ... + f_{m-1})`, trimmed.
pub fn staircase_transform(a_rows: &[Vec<i64>]) -> (b_rows: Vec<Vec<i64>>)
    requires
        stair_fits(a_rows@),
        crate::minors::max_row_len(a_rows@) < usize::MAX,
    ensures
        b_rows.len() == a_rows.len(),
        forall|i: int| 0 <= i < b_rows.len() ==> is_trimmed(#[trigger] b_rows@[i]@) && b_rows@[i]@.len() >= 1,
        forall|i: int, k: int| 0 <= i < b_rows.len() ==> #[trigger] coef(b_rows@[i]@, k) == stair(a_rows@, i, k),
{
    let m = a_rows.len();
    let max_deg = max_len_rows(a_rows);
    let out_deg = max_deg + 1;
    let mut b_rows: Vec<Vec<i64>> = Vec::new();
    for i in 0..m
        invariant
            m == a_rows.len(),
            out_deg == max_deg + 1,
            forall|j: int| 0 <= j < a_rows.len() ==> a_rows@[j].len() <= max_deg,
            stair_fits(a_rows@),
            b_rows.len() == i,
            forall|j: int| 0 <= j < i ==> is_trimmed(#[trigger] b_rows@[j]@) && b_rows@[j]@.len() >= 1,
            forall|j: int, k: int| 0 <= j < i ==> #[trigger] coef(b_rows@[j]@, k) == stair(a_rows@, j, k),
    {
        let mut row: Vec<i64> = vec![0i64; out_deg];
        for k in 0..out_deg
            invariant
                m == a_rows.len(),
                i < m,
                out_deg == max_deg + 1,
                stair_fits(a_rows@),
                row.len() == out_deg,
                forall|kk: int| 0 <= kk < k ==> row@[kk] == stair(a_rows@, i as int, kk),
                forall|kk: int| k <= kk < out_deg ==> row@[kk] == 0,
        {
            if k >= 1 {
                for j in 0..i
                    invariant
                        i < m,
                        m == a_rows.len(),
                        1 <= k < out_deg,
                        row.len() == out_deg,
                        stair_fits(a_rows@),
                        row@[k as int] == sum_range(a_rows@, 0, j as int, k - 1),
                        forall|kk: int| 0 <= kk < k ==> row@[kk] == stair(a_rows@, i as int, kk),
                        forall|kk: int| k < kk < out_deg ==> row@[kk] == 0,
                {
                    assert(fits_i64(sum_range(a_rows@, 0, j + 1, k - 1)));
                    let v = row[k] + crate::poly::coeff(&a_rows[j], k - 1);
                    row.set(k, v);
                }
            }
            assert(row@[k as int] == sum_range(a_rows@, 0, i as int, k - 1)) by {
                if k == 0 {
                    lemma_sum_range_zero_below(a_rows@, 0, i as int, -1);
                }
            }
            for j in i..m
                invariant
                    i < m,
                    m == a_rows.len(),
                    i <= j <= m,
                    k < out_deg,
                    row.len() == out_deg,
                    stair_fits(a_rows@),
                    row@[k as int] == sum_range(a_rows@, 0, i as int, k - 1) + sum_range(a_rows@, i as int, j as int, k as int),
                    forall|kk: int| 0 <= kk < k ==> row@[kk] == stair(a_rows@, i as int, kk),
                    forall|kk: int| k < kk < out_deg ==> row@[kk] == 0,
            {
                assert(fits_i64(sum_range(a_rows@, 0, i as int, k - 1) + sum_range(a_rows@, i as int, j + 1, k as int)));
                let v = row[k] + crate::poly::coeff(&a_rows[j], k);
                row.set(k, v);
            }
        }
        let ghost full = row@;
        trim_in_place(&mut row);
        proof {
            lemma_strip(full);
            assert forall|k: int| #[trigger] coef(row@, k) == stair(a_rows@, i as int, k) by {
                assert(coef(row@, k) == coef(full, k));
                if k < 0 || k >= out_deg {
                    lemma_sum_range_zero_below(a_rows@, 0, i as int, k - 1);
                    lemma_sum_range_zero_below(a_rows@, i as int, m as int, k);
                }
            }
        }
        b_rows.push(row);
    }
    b_rows
}

/// Sums of coefficients of degree `k` vanish when every row is shorter than `k`
/// or `k` is negative.
pub proof fn lemma_sum_range_zero_below(ps: Seq<Vec<i64>>, lo: int, hi: int, k: int)
    requires
        0 <= lo,
        hi <= ps.len(),
        k < 0 || forall|j: int| lo <= j < hi ==> ps[j].len() <= k,
    ensures
        sum_range(ps, lo, hi, k) == 0,
    decreases hi - lo,
{
    if hi > lo {
        lemma_sum_range_zero_below(ps, lo, hi - 1, k);
    }
}

/// The partial sums accumulated by `compute_d` fit in an `i64`.
pub open spec fn d_fits(rows: Seq<Vec<i64>>, i1: int, i2: int, k: int) -> bool {
    forall|j: int|
        i1 <= j < i2 ==> #[trigger] fits_i64(coef(rows[j]@, k) - coef(rows[j]@, k - 1)) && fits_i64(
            d_sum(rows, i1, j + 1, k),
        )
}

/// `D(k) = sum_{i1 <= j < i2} ([t^k] f_j - [t^(k-1)] f_j)`.
pub fn compute_d(a_rows: &[Vec<i64>], i1: usize, i2: usize, k: usize) -> (d: i64)
    requires
        i2 <= a_rows.len(),
        d_fits(a_rows@, i1 as int, i2 as int, k as int),
    ensures
        d == d_sum(a_rows@, i1 as int, i2 as int, k as int),
{
    let mut d: i64 = 0;
    let mut j = i1;
    while j < i2
        invariant
            i2 <= a_rows.len(),
            i1 <= j,
            j <= i2 || i1 > i2,
            i1 > i2 ==> j == i1,
            d_fits(a_rows@, i1 as int, i2 as int, k as int),
            d == d_sum(a_rows@, i1 as int, j as int, k as int),
        decreases i2 - j,
    {
        let a_jk = crate::poly::coeff(&a_rows[j], k);
        let a_jk_minus1 = if k >= 1 {
            crate::poly::coeff(&a_rows[j], k - 1)
        } else {
            0
        };
        assert(fits_i64(coef(a_rows@[j as int]@, k as int) - coef(a_rows@[j as int]@, k - 1)));
        assert(fits_i64(d_sum(a_rows@, i1 as int, j + 1, k as int)));
        d += a_jk - a_jk_minus1;
        j += 1;
    }
    d
}

/// Shift applied to the source polynomial with previous maximum at `q` when
/// the maximum is inserted at `p`: one when `q <= p - 2` (saturating at zero).
pub open spec fn out_shift(p: u8, q: u8) -> int {
    if q <= (if p >= 2 {
        p - 2
    } else {
        0
    }) {
        1
    } else {
        0
    }
}

/// `sum_{i < upto} [t^(k - shift_i)] f_i` for the staircase output.
pub open spec fn out_sum(fs: Seq<(u8, Vec<i64>)>, p: u8, upto: int, k: int) -> int
    decreases upto,
{
    if upto <= 0 {
        0
    } else {
        out_sum(fs, p, upto - 1, k) + coef(fs[upto - 1].1@, k - out_shift(p, fs[upto - 1].0))
    }
}

/// Which sources the staircase shifts: with the maximum inserted at `p`, a source
/// whose previous maximum sits at a position `q >= 1` is multiplied by `t`
/// exactly when `q` is at least two places left of `p` (`epsilon_2(p, q) = 1`);
/// a `q` at `p - 1` or to its right is never shifted. (Position `0`, which no
/// permutation has, counts as shifted.)
pub proof fn lemma_out_shift(p: u8, q: u8)
    ensures
        out_shift(p, q) == 0 || out_shift(p, q) == 1,
        1 <= q ==> (out_shift(p, q) == 1 <==> (p >= 2 && q <= p - 2)),
        1 <= q ==> out_shift(p, q) == crate::source::eps2_spec(p as int, q as int),
        q >= p - 1 && q >= 1 ==> out_shift(p, q) == 0,
        q == 0 ==> out_shift(p, q) == 1,
{
}

/// The staircase output grows source by source: with no source it is zero, and
/// taking in the source `(q, f)` adds `t^e f`, where `e` is `1` exactly when
/// `q <= p - 2` (or `q = 0`) and `0` otherwise.
pub proof fn lemma_out_sum_step(fs: Seq<(u8, Vec<i64>)>, p: u8, m: int, k: int)
    requires
        0 <= m < fs.len(),
    ensures
        out_sum(fs, p, 0, k) == 0,
        out_sum(fs, p, m + 1, k) == out_sum(fs, p, m, k) + coef(
            fs[m].1@,
            k - (if (fs[m].0 as int) <= (p as int) - 2 || fs[m].0 == 0 {
                1int
            } else {
                0int
            }),
        ),
{
}

/// Staircase output `L^{(p)} = sum_q t^{eps2(p,q)} f_{p,q}`, trimmed.
pub fn staircase_output(f_polys: &[(u8, Vec<i64>)], p: u8) -> (result: Vec<i64>)
    requires
        forall|i: int, k: int| 0 <= i < f_polys.len() ==> #[trigger] fits_i64(out_sum(f_polys@, p, i + 1, k)),
        forall|i: int| 0 <= i < f_polys.len() ==> (#[trigger] f_polys@[i]).1.len() + 2 <= usize::MAX,
    ensures
        is_trimmed(result@),
        result.len() >= 1,
        forall|k: int| 0 <= k ==> #[trigger] coef(result@, k) == out_sum(f_polys@, p, f_polys.len() as int, k),
{
    let mut result: Vec<i64> = vec![0i64];
    for i in 0..f_polys.len()
        invariant
            forall|i: int, k: int| 0 <= i < f_polys.len() ==> #[trigger] fits_i64(out_sum(f_polys@, p, i + 1, k)),
            forall|i: int| 0 <= i < f_polys.len() ==> (#[trigger] f_polys@[i]).1.len() + 2 <= usize::MAX,
            result.len() >= 1,
            forall|k: int| 0 <= k ==> #[trigger] coef(result@, k) == out_sum(f_polys@, p, i as int, k),
    {
        let q = f_polys[i].0;
        let poly = &f_polys[i].1;
        let e: usize = if q <= p.saturating_sub(2) {
            1
        } else {
            0
        };
        assert(e == out_shift(p, q));
        assert(poly.len() + 2 <= usize::MAX);
        let ghost start = result@;
        let mut kk: usize = 0;
        while kk < poly.len()
            invariant
                kk <= poly.len(),
                poly.len() + 2 <= usize::MAX,
                e <= 1,
                e == out_shift(p, q),
                q == f_polys@[i as int].0,
                poly@ == f_polys@[i as int].1@,
                forall|i: int, k: int| 0 <= i < f_polys.len() ==> #[trigger] fits_i64(out_sum(f_polys@, p, i + 1, k)),
                i < f_polys.len(),
                result.len() >= 1,
                forall|k: int| 0 <= k ==> #[trigger] coef(start, k) == out_sum(f_polys@, p, i as int, k),
                forall|k: int|
                    0 <= k ==> #[trigger] coef(result@, k) == coef(start, k) + if e <= k < kk + e {
                        coef(poly@, k - e)
                    } else {
                        0
                    },
            decreases poly.len() - kk,
        {
            let idx = kk + e;
            let ghost before = result@;
            assert(coef(before, idx as int) == coef(start, idx as int) + if e <= idx < kk + e {
                coef(poly@, idx - e)
            } else {
                0
            });
            while result.len() <= idx
                invariant
                    idx < usize::MAX,
                    result.len() >= 1,
                    forall|k: int| 0 <= k ==> coef(result@, k) == coef(before, k),
                decreases idx + 1 - result.len(),
            {
                let ghost b2 = result@;
                result.push(0);
                assert forall|k: int| 0 <= k implies coef(result@, k) == coef(before, k) by {
                    assert(coef(result@, k) == coef(b2, k));
                }
            }
            proof {
                assert(coef(result@, idx as int) == coef(before, idx as int));
                assert(fits_i64(out_sum(f_polys@, p, i + 1, idx as int)));
            }
            let v = result[idx] + poly[kk];
            result.set(idx, v);
            proof {
                assert forall|k: int| 0 <= k implies #[trigger] coef(result@, k) == coef(start, k) + if e <= k < kk + 1 + e {
                    coef(poly@, k - e)
                } else {
                    0
                } by {
                    if k != idx {
                        assert(coef(result@, k) == coef(before, k));
                    }
                }
            }
            kk += 1;
        }
        proof {
            assert forall|k: int| 0 <= k implies #[trigger] coef(result@, k) == out_sum(f_polys@, p, i + 1, k) by {
                assert(coef(result@, k) == coef(start, k) + if e <= k < kk + e {
                    coef(poly@, k - e)
                } else {
                    0
                });
            }
        }
    }
    let ghost full = result@;
    trim_in_place(&mut result);
    proof {
        lemma_strip(full);
    }
    result
}

} // verus!
