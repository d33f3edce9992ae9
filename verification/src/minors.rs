//! Total positivity tests on coefficient matrices: row `i` holds the
//! coefficients of a polynomial `f_i(t)`, entry `(i, k)` is `[t^k] f_i`.
//! The 2x2 minors are computed in `i128`, where they cannot overflow.
use vstd::prelude::*;
use crate::poly::{coef, fits_i64};

verus! {

/// The 2x2 minor on rows `i1, i2` and columns `k1, k2`.
pub open spec fn minor2(rows: Seq<Vec<i64>>, i1: int, i2: int, k1: int, k2: int) -> int {
    coef(rows[i1]@, k1) * coef(rows[i2]@, k2) - coef(rows[i1]@, k2) * coef(rows[i2]@, k1)
}

/// Rows `i1 < i2` and columns `k1 < k2` below `cols`.
pub open spec fn minor_index(rows: Seq<Vec<i64>>, cols: int, i1: int, i2: int, k1: int, k2: int) -> bool {
    0 <= i1 < i2 < rows.len() && 0 <= k1 < k2 < cols
}

/// `(a1, a2, a3, a4)` comes before `(b1, b2, b3, b4)` lexicographically.
pub open spec fn lex_before(a1: int, a2: int, a3: int, a4: int, b1: int, b2: int, b3: int, b4: int) -> bool {
    ||| a1 < b1
    ||| (a1 == b1 && a2 < b2)
    ||| (a1 == b1 && a2 == b2 && a3 < b3)
    ||| (a1 == b1 && a2 == b2 && a3 == b3 && a4 < b4)
}

/// Every minor whose index comes before `(i1, i2, k1, k2)` is non-negative.
pub open spec fn nonneg_before(rows: Seq<Vec<i64>>, cols: int, i1: int, i2: int, k1: int, k2: int) -> bool {
    forall|a: int, b: int, c: int, d: int|
        minor_index(rows, cols, a, b, c, d) && lex_before(a, b, c, d, i1, i2, k1, k2) ==> #[trigger] minor2(
            rows,
            a,
            b,
            c,
            d,
        ) >= 0
}

/// Every 2x2 minor over the first `cols` columns is non-negative.
pub open spec fn all_minors_nonneg(rows: Seq<Vec<i64>>, cols: int) -> bool {
    forall|a: int, b: int, c: int, d: int|
        minor_index(rows, cols, a, b, c, d) ==> #[trigger] minor2(rows, a, b, c, d) >= 0
}

/// `(i1, i2, k1, k2)` indexes the first negative minor in lexicographic order.
pub open spec fn is_first_negative(rows: Seq<Vec<i64>>, cols: int, i1: int, i2: int, k1: int, k2: int) -> bool {
    minor_index(rows, cols, i1, i2, k1, k2) && minor2(rows, i1, i2, k1, k2) < 0 && nonneg_before(
        rows,
        cols,
        i1,
        i2,
        k1,
        k2,
    )
}

/// Length of the longest row.
pub open spec fn max_row_len(rows: Seq<Vec<i64>>) -> int
    decreases rows.len(),
{
    if rows.len() == 0 {
        0
    } else if rows.last().len() >= max_row_len(rows.drop_last()) {
        rows.last().len() as int
    } else {
        max_row_len(rows.drop_last())
    }
}

fn max_len_of_rows(rows: &[Vec<i64>]) -> (m: usize)
    ensures
        m == max_row_len(rows@),
{
    let mut m: usize = 0;
    let mut i: usize = 0;
    while i < rows.len()
        invariant
            i <= rows.len(),
            m == max_row_len(rows@.take(i as int)),
        decreases rows.len() - i,
    {
        assert(rows@.take(i + 1).drop_last() =~= rows@.take(i as int));
        if rows[i].len() >= m {
            m = rows[i].len();
        }
        i += 1;
    }
    assert(rows@.take(i as int) =~= rows@);
    m
}

fn coef_wide(p: &Vec<i64>, k: usize) -> (c: i128)
    ensures
        c == coef(p@, k as int),
{
    if k < p.len() {
        p[k] as i128
    } else {
        0
    }
}

fn minor_wide(rows: &[Vec<i64>], i1: usize, i2: usize, k1: usize, k2: usize) -> (m: i128)
    requires
        i1 < rows.len(),
        i2 < rows.len(),
    ensures
        m == minor2(rows@, i1 as int, i2 as int, k1 as int, k2 as int),
{
    let a = coef_wide(&rows[i1], k1);
    let b = coef_wide(&rows[i2], k2);
    let c = coef_wide(&rows[i1], k2);
    let d = coef_wide(&rows[i2], k1);
    assert(-0x8000_0000_0000_0000 <= a <= 0x7fff_ffff_ffff_ffff);
    assert(-0x8000_0000_0000_0000 <= b <= 0x7fff_ffff_ffff_ffff);
    assert(-0x8000_0000_0000_0000 <= c <= 0x7fff_ffff_ffff_ffff);
    assert(-0x8000_0000_0000_0000 <= d <= 0x7fff_ffff_ffff_ffff);
    proof {
        lemma_wide_product(a, b);
        lemma_wide_product(c, d);
    }
    a * b - c * d
}

/// Search the minors over the first `cols` columns in lexicographic order of
/// `(i1, i2, k1, k2)` and return the first negative one.
pub(crate) fn first_negative_wide(rows: &[Vec<i64>], cols: usize) -> (r: Option<(usize, usize, usize, usize, i128)>)
    ensures
        match r {
            Some((i1, i2, k1, k2, m)) => is_first_negative(rows@, cols as int, i1 as int, i2 as int, k1 as int, k2 as int)
                && m == minor2(rows@, i1 as int, i2 as int, k1 as int, k2 as int),
            None => all_minors_nonneg(rows@, cols as int),
        },
{
    let nrows = rows.len();
    let mut i1: usize = 0;
    while i1 < nrows
        invariant
            nrows == rows.len(),
            i1 <= nrows,
            nonneg_before(rows@, cols as int, i1 as int, 0, 0, 0),
        decreases nrows - i1,
    {
        let mut i2: usize = i1 + 1;
        while i2 < nrows
            invariant
                nrows == rows.len(),
                i1 < nrows,
                i1 + 1 <= i2 <= nrows,
                nonneg_before(rows@, cols as int, i1 as int, i2 as int, 0, 0),
            decreases nrows - i2,
        {
            let mut k1: usize = 0;
            while k1 < cols
                invariant
                    nrows == rows.len(),
                    i1 < i2 < nrows,
                    k1 <= cols,
                    nonneg_before(rows@, cols as int, i1 as int, i2 as int, k1 as int, 0),
                decreases cols - k1,
            {
                let mut k2: usize = k1 + 1;
                assert(nonneg_before(rows@, cols as int, i1 as int, i2 as int, k1 as int, k2 as int));
                while k2 < cols
                    invariant
                        nrows == rows.len(),
                        i1 < i2 < nrows,
                        k1 < cols,
                        k1 + 1 <= k2 <= cols,
                        nonneg_before(rows@, cols as int, i1 as int, i2 as int, k1 as int, k2 as int),
                    decreases cols - k2,
                {
                    let m = minor_wide(rows, i1, i2, k1, k2);
                    if m < 0 {
                        return Some((i1, i2, k1, k2, m));
                    }
                    k2 += 1;
                }
                assert(nonneg_before(rows@, cols as int, i1 as int, i2 as int, k1 + 1, 0)) by {
                    assert forall|a: int, b: int, c: int, d: int|
                        minor_index(rows@, cols as int, a, b, c, d) && lex_before(a, b, c, d, i1 as int, i2 as int, k1 + 1, 0)
                        implies #[trigger] minor2(rows@, a, b, c, d) >= 0 by {
                        assert(lex_before(a, b, c, d, i1 as int, i2 as int, k1 as int, k2 as int));
                    }
                }
                k1 += 1;
            }
            assert(nonneg_before(rows@, cols as int, i1 as int, i2 + 1, 0, 0)) by {
                assert forall|a: int, b: int, c: int, d: int|
                    minor_index(rows@, cols as int, a, b, c, d) && lex_before(a, b, c, d, i1 as int, i2 + 1, 0, 0)
                    implies #[trigger] minor2(rows@, a, b, c, d) >= 0 by {
                    assert(lex_before(a, b, c, d, i1 as int, i2 as int, k1 as int, 0));
                }
            }
            i2 += 1;
        }
        assert(nonneg_before(rows@, cols as int, i1 + 1, 0, 0, 0)) by {
            assert forall|a: int, b: int, c: int, d: int|
                minor_index(rows@, cols as int, a, b, c, d) && lex_before(a, b, c, d, i1 + 1, 0, 0, 0)
                implies #[trigger] minor2(rows@, a, b, c, d) >= 0 by {
                assert(lex_before(a, b, c, d, i1 as int, i2 as int, 0, 0));
            }
        }
        i1 += 1;
    }
    assert(all_minors_nonneg(rows@, cols as int)) by {
        assert forall|a: int, b: int, c: int, d: int|
            minor_index(rows@, cols as int, a, b, c, d) implies #[trigger] minor2(rows@, a, b, c, d) >= 0 by {
            assert(lex_before(a, b, c, d, i1 as int, 0, 0, 0));
        }
    }
    None
}

/// TN_2 test: every 2x2 minor of the coefficient matrix (columns up to the
/// longest row, missing entries read as zero) is non-negative.
pub fn is_tn2(rows: &[Vec<i64>]) -> (b: bool)
    ensures
        b == all_minors_nonneg(rows@, max_row_len(rows@)),
{
    let nrows = rows.len();
    if nrows < 2 {
        return true;
    }
    let max_deg = max_len_of_rows(rows);
    first_negative_wide(rows, max_deg).is_none()
}

/// TN_2 test on a matrix given as rows of polynomials (same test as [`is_tn2`]).
pub fn check_tn2(rows: &[Vec<i64>]) -> (b: bool)
    ensures
        b == all_minors_nonneg(rows@, max_row_len(rows@)),
{
    let max_deg = max_len_of_rows(rows);
    first_negative_wide(rows, max_deg).is_none()
}

/// The first negative 2x2 minor in the order rows `i1 < i2`, then columns
/// `k1 < k2`, with its value; `None` when the matrix is TN_2.
pub fn first_neg_minor(rows: &[Vec<i64>]) -> (r: Option<(usize, usize, usize, usize, i64)>)
    requires
        forall|i1: int, i2: int, k1: int, k2: int|
            #[trigger] is_first_negative(rows@, max_row_len(rows@), i1, i2, k1, k2) ==> fits_i64(
                minor2(rows@, i1, i2, k1, k2),
            ),
    ensures
        match r {
            Some((i1, i2, k1, k2, m)) => is_first_negative(
                rows@,
                max_row_len(rows@),
                i1 as int,
                i2 as int,
                k1 as int,
                k2 as int,
            ) && m == minor2(rows@, i1 as int, i2 as int, k1 as int, k2 as int),
            None => all_minors_nonneg(rows@, max_row_len(rows@)),
        },
{
    let nrows = rows.len();
    if nrows < 2 {
        return None;
    }
    let max_deg = max_len_of_rows(rows);
    match first_negative_wide(rows, max_deg) {
        Some((i1, i2, k1, k2, m)) => {
            assert(fits_i64(minor2(rows@, i1 as int, i2 as int, k1 as int, k2 as int)));
            Some((i1, i2, k1, k2, m as i64))
        },
        None => None,
    }
}

/// Consecutive 2x2 minors `[t^k] a * [t^(k+1)] b - [t^(k+1)] a * [t^k] b`
/// are non-negative for every `k` below the longer length (the "LR" order
/// of `a` before `b`).
pub fn check_lr(a: &[i64], b: &[i64]) -> (ok: bool)
    ensures
        ok == forall|k: int|
            0 <= k < crate::poly::max_len(a@, b@) ==> #[trigger] coef(a@, k) * coef(b@, k + 1) >= coef(a@, k + 1)
                * coef(b@, k),
{
    let max_deg = if a.len() >= b.len() {
        a.len()
    } else {
        b.len()
    };
    let mut k: usize = 0;
    while k < max_deg
        invariant
            k <= max_deg,
            max_deg == crate::poly::max_len(a@, b@),
            forall|j: int| 0 <= j < k ==> #[trigger] coef(a@, j) * coef(b@, j + 1) >= coef(a@, j + 1) * coef(b@, j),
        decreases max_deg - k,
    {
        let x = wide_coef(a, k);
        let y = wide_coef(b, k + 1);
        let z = wide_coef(a, k + 1);
        let w = wide_coef(b, k);
        proof {
            lemma_wide_product(x, y);
            lemma_wide_product(z, w);
        }
        if x * y < z * w {
            return false;
        }
        k += 1;
    }
    true
}

fn wide_coef(p: &[i64], k: usize) -> (c: i128)
    ensures
        c == coef(p@, k as int),
        -0x8000_0000_0000_0000 <= c <= 0x7fff_ffff_ffff_ffff,
{
    if k < p.len() {
        p[k] as i128
    } else {
        0
    }
}

proof fn lemma_wide_product(a: i128, b: i128) by (nonlinear_arith)
    requires
        -0x8000_0000_0000_0000 <= a <= 0x7fff_ffff_ffff_ffff,
        -0x8000_0000_0000_0000 <= b <= 0x7fff_ffff_ffff_ffff,
    ensures
        -0x3fff_ffff_ffff_ffff_8000_0000_0000_0000 <= a * b <= 0x4000_0000_0000_0000_0000_0000_0000_0000,
{
}

/// Which minors a count takes in.
#[derive(Debug, Clone, Copy, PartialEq, Eq, Structural)]
pub enum MinorKind {
    Any,
    Negative,
    Zero,
}

pub open spec fn kind_holds(kind: MinorKind, v: int) -> bool {
    match kind {
        MinorKind::Any => true,
        MinorKind::Negative => v < 0,
        MinorKind::Zero => v == 0,
    }
}

/// Minors of the given kind on rows `(i1, i2)`, column `k1` and columns `k1 < k2 < e`.
pub open spec fn count_k2(rows: Seq<Vec<i64>>, i1: int, i2: int, k1: int, e: int, kind: MinorKind) -> nat
    decreases e - k1,
{
    if e <= k1 + 1 {
        0
    } else {
        count_k2(rows, i1, i2, k1, e - 1, kind) + if kind_holds(kind, minor2(rows, i1, i2, k1, e - 1)) {
            1nat
        } else {
            0nat
        }
    }
}

/// Minors of the given kind on rows `(i1, i2)` with `k1 < e` and `k1 < k2 < cols`.
pub open spec fn count_k1(rows: Seq<Vec<i64>>, cols: int, i1: int, i2: int, e: int, kind: MinorKind) -> nat
    decreases e,
{
    if e <= 0 {
        0
    } else {
        count_k1(rows, cols, i1, i2, e - 1, kind) + count_k2(rows, i1, i2, e - 1, cols, kind)
    }
}

/// Minors of the given kind on rows `i1 < i2 < e`, over `cols` columns.
pub open spec fn count_i2(rows: Seq<Vec<i64>>, cols: int, i1: int, e: int, kind: MinorKind) -> nat
    decreases e - i1,
{
    if e <= i1 + 1 {
        0
    } else {
        count_i2(rows, cols, i1, e - 1, kind) + count_k1(rows, cols, i1, e - 1, cols, kind)
    }
}

/// Minors of the given kind on rows `i1 < e`, `i1 < i2`, over `cols` columns.
pub open spec fn count_i1(rows: Seq<Vec<i64>>, cols: int, e: int, kind: MinorKind) -> nat
    decreases e,
{
    if e <= 0 {
        0
    } else {
        count_i1(rows, cols, e - 1, kind) + count_i2(rows, cols, e - 1, rows.len() as int, kind)
    }
}

/// Number of 2x2 minors of the given kind (rows `i1 < i2`, columns `k1 < k2`
/// below the longest row).
pub open spec fn minor_count(rows: Seq<Vec<i64>>, kind: MinorKind) -> nat {
    count_i1(rows, max_row_len(rows), rows.len() as int, kind)
}

proof fn lemma_count_k2_le(rows: Seq<Vec<i64>>, i1: int, i2: int, k1: int, e: int, kind: MinorKind)
    requires
        0 <= e,
        0 <= k1,
    ensures
        count_k2(rows, i1, i2, k1, e, kind) <= e,
    decreases e - k1,
{
    if e > k1 + 1 {
        lemma_count_k2_le(rows, i1, i2, k1, e - 1, kind);
    }
}

proof fn lemma_count_k1_le(rows: Seq<Vec<i64>>, cols: int, i1: int, i2: int, e: int, kind: MinorKind)
    requires
        0 <= e,
        0 <= cols,
    ensures
        count_k1(rows, cols, i1, i2, e, kind) <= e * cols,
    decreases e,
{
    if e > 0 {
        lemma_count_k1_le(rows, cols, i1, i2, e - 1, kind);
        lemma_count_k2_le(rows, i1, i2, e - 1, cols, kind);
        assert((e - 1) * cols + cols == e * cols) by (nonlinear_arith);
    }
}

proof fn lemma_count_i2_le(rows: Seq<Vec<i64>>, cols: int, i1: int, e: int, kind: MinorKind)
    requires
        0 <= e,
        0 <= cols,
        0 <= i1,
    ensures
        count_i2(rows, cols, i1, e, kind) <= e * (cols * cols),
    decreases e - i1,
{
    assert(0 <= cols * cols) by (nonlinear_arith)
        requires
            0 <= cols,
    ;
    assert(0 <= e * (cols * cols)) by (nonlinear_arith)
        requires
            0 <= cols * cols,
            0 <= e,
    ;
    if e > i1 + 1 {
        lemma_count_i2_le(rows, cols, i1, e - 1, kind);
        lemma_count_k1_le(rows, cols, i1, e - 1, cols, kind);
        assert((e - 1) * (cols * cols) + cols * cols == e * (cols * cols)) by (nonlinear_arith);
    }
}

proof fn lemma_count_i1_le(rows: Seq<Vec<i64>>, cols: int, e: int, kind: MinorKind)
    requires
        0 <= e,
        0 <= cols,
    ensures
        count_i1(rows, cols, e, kind) <= e * (rows.len() * (cols * cols)),
    decreases e,
{
    assert(0 <= e * (rows.len() * (cols * cols))) by (nonlinear_arith)
        requires
            0 <= cols,
            0 <= e,
    ;
    if e > 0 {
        lemma_count_i1_le(rows, cols, e - 1, kind);
        lemma_count_i2_le(rows, cols, e - 1, rows.len() as int, kind);
        assert((e - 1) * (rows.len() * (cols * cols)) + rows.len() * (cols * cols) == e * (rows.len() * (cols * cols)))
            by (nonlinear_arith);
    }
}

/// Counts of the 2x2 minors of a coefficient matrix: all of them, the negative
/// ones and the zero ones.
#[derive(Debug, Clone, Copy, PartialEq, Eq)]
pub struct MinorCounts {
    pub total: u64,
    pub negative: u64,
    pub zero: u64,
}

/// Counts the 2x2 minors (rows `i1 < i2`, columns `k1 < k2` below the longest
/// row, missing entries read as zero) by sign.
pub fn minor_counts(rows: &[Vec<i64>]) -> (c: MinorCounts)
    requires
        rows.len() <= 0x8000,
        max_row_len(rows@) <= 0x8000,
    ensures
        c.total == minor_count(rows@, MinorKind::Any),
        c.negative == minor_count(rows@, MinorKind::Negative),
        c.zero == minor_count(rows@, MinorKind::Zero),
{
    let nrows = rows.len();
    let cols = max_len_of_rows(rows);
    let ghost n = nrows as int;
    let ghost cc = cols as int;
    let ghost bound = n * (n * (cc * cc));
    assert(bound <= 0x8000 * (0x8000 * (0x8000 * 0x8000))) by (nonlinear_arith)
        requires
            0 <= n <= 0x8000,
            0 <= cc <= 0x8000,
            bound == n * (n * (cc * cc)),
    ;
    let mut total: u64 = 0;
    let mut negative: u64 = 0;
    let mut zero: u64 = 0;
    let mut i1: usize = 0;
    while i1 < nrows
        invariant
            nrows == rows.len(),
            cols == max_row_len(rows@),
            n == nrows,
            cc == cols,
            bound <= 0x8000 * (0x8000 * (0x8000 * 0x8000)),
            bound == n * (n * (cc * cc)),
            i1 <= nrows,
            total == count_i1(rows@, cc, i1 as int, MinorKind::Any),
            negative == count_i1(rows@, cc, i1 as int, MinorKind::Negative),
            zero == count_i1(rows@, cc, i1 as int, MinorKind::Zero),
        decreases nrows - i1,
    {
        let ghost t0 = total as int;
        let ghost g0 = negative as int;
        let ghost z0 = zero as int;
        proof {
            lemma_count_i1_le(rows@, cc, i1 + 1, MinorKind::Any);
            lemma_count_i1_le(rows@, cc, i1 + 1, MinorKind::Negative);
            lemma_count_i1_le(rows@, cc, i1 + 1, MinorKind::Zero);
            assert((i1 + 1) * (n * (cc * cc)) <= bound) by (nonlinear_arith)
                requires
                    i1 + 1 <= n,
                    0 <= cc,
                    bound == n * (n * (cc * cc)),
            ;
        }
        let mut i2: usize = i1 + 1;
        while i2 < nrows
            invariant
                nrows == rows.len(),
                cols == max_row_len(rows@),
                n == nrows,
                cc == cols,
                i1 < nrows,
                i1 + 1 <= i2 <= nrows,
                count_i1(rows@, cc, i1 + 1, MinorKind::Any) <= bound,
                count_i1(rows@, cc, i1 + 1, MinorKind::Negative) <= bound,
                count_i1(rows@, cc, i1 + 1, MinorKind::Zero) <= bound,
                bound <= 0x8000 * (0x8000 * (0x8000 * 0x8000)),
                t0 == count_i1(rows@, cc, i1 as int, MinorKind::Any),
                g0 == count_i1(rows@, cc, i1 as int, MinorKind::Negative),
                z0 == count_i1(rows@, cc, i1 as int, MinorKind::Zero),
                total == t0 + count_i2(rows@, cc, i1 as int, i2 as int, MinorKind::Any),
                negative == g0 + count_i2(rows@, cc, i1 as int, i2 as int, MinorKind::Negative),
                zero == z0 + count_i2(rows@, cc, i1 as int, i2 as int, MinorKind::Zero),
            decreases nrows - i2,
        {
            let ghost t1 = total as int;
            let ghost g1 = negative as int;
            let ghost z1 = zero as int;
            let mut k1: usize = 0;
            while k1 < cols
                invariant
                    nrows == rows.len(),
                    cc == cols,
                    i1 < i2 < nrows,
                    k1 <= cols,
                    count_i1(rows@, cc, i1 + 1, MinorKind::Any) <= bound,
                    count_i1(rows@, cc, i1 + 1, MinorKind::Negative) <= bound,
                    count_i1(rows@, cc, i1 + 1, MinorKind::Zero) <= bound,
                    bound <= 0x8000 * (0x8000 * (0x8000 * 0x8000)),
                    t0 == count_i1(rows@, cc, i1 as int, MinorKind::Any),
                    g0 == count_i1(rows@, cc, i1 as int, MinorKind::Negative),
                    z0 == count_i1(rows@, cc, i1 as int, MinorKind::Zero),
                    t1 == t0 + count_i2(rows@, cc, i1 as int, i2 as int, MinorKind::Any),
                    g1 == g0 + count_i2(rows@, cc, i1 as int, i2 as int, MinorKind::Negative),
                    z1 == z0 + count_i2(rows@, cc, i1 as int, i2 as int, MinorKind::Zero),
                    total == t1 + count_k1(rows@, cc, i1 as int, i2 as int, k1 as int, MinorKind::Any),
                    negative == g1 + count_k1(rows@, cc, i1 as int, i2 as int, k1 as int, MinorKind::Negative),
                    zero == z1 + count_k1(rows@, cc, i1 as int, i2 as int, k1 as int, MinorKind::Zero),
                decreases cols - k1,
            {
                let mut k2: usize = k1 + 1;
                proof {
                    lemma_count_i2_mono(rows@, cc, i1 as int, i2 + 1, nrows as int, MinorKind::Any);
                    lemma_count_i2_mono(rows@, cc, i1 as int, i2 + 1, nrows as int, MinorKind::Negative);
                    lemma_count_i2_mono(rows@, cc, i1 as int, i2 + 1, nrows as int, MinorKind::Zero);
                    lemma_count_k1_mono(rows@, cc, i1 as int, i2 as int, k1 + 1, cc, MinorKind::Any);
                    lemma_count_k1_mono(rows@, cc, i1 as int, i2 as int, k1 + 1, cc, MinorKind::Negative);
                    lemma_count_k1_mono(rows@, cc, i1 as int, i2 as int, k1 + 1, cc, MinorKind::Zero);
                }
                while k2 < cols
                    invariant
                        nrows == rows.len(),
                        cc == cols,
                        i1 < i2 < nrows,
                        k1 < cols,
                        k1 + 1 <= k2 <= cols,
                        t1 + count_k1(rows@, cc, i1 as int, i2 as int, k1 + 1, MinorKind::Any) <= bound,
                        g1 + count_k1(rows@, cc, i1 as int, i2 as int, k1 + 1, MinorKind::Negative) <= bound,
                        z1 + count_k1(rows@, cc, i1 as int, i2 as int, k1 + 1, MinorKind::Zero) <= bound,
                        bound <= 0x8000 * (0x8000 * (0x8000 * 0x8000)),
                        total == t1 + count_k1(rows@, cc, i1 as int, i2 as int, k1 as int, MinorKind::Any) + count_k2(
                            rows@,
                            i1 as int,
                            i2 as int,
                            k1 as int,
                            k2 as int,
                            MinorKind::Any,
                        ),
                        negative == g1 + count_k1(rows@, cc, i1 as int, i2 as int, k1 as int, MinorKind::Negative)
                            + count_k2(rows@, i1 as int, i2 as int, k1 as int, k2 as int, MinorKind::Negative),
                        zero == z1 + count_k1(rows@, cc, i1 as int, i2 as int, k1 as int, MinorKind::Zero) + count_k2(
                            rows@,
                            i1 as int,
                            i2 as int,
                            k1 as int,
                            k2 as int,
                            MinorKind::Zero,
                        ),
                    decreases cols - k2,
                {
                    proof {
                        lemma_count_k2_mono(rows@, i1 as int, i2 as int, k1 as int, k2 + 1, cc, MinorKind::Any);
                        lemma_count_k2_mono(rows@, i1 as int, i2 as int, k1 as int, k2 + 1, cc, MinorKind::Negative);
                        lemma_count_k2_mono(rows@, i1 as int, i2 as int, k1 as int, k2 + 1, cc, MinorKind::Zero);
                    }
                    let m = minor_wide(rows, i1, i2, k1, k2);
                    total = total + 1;
                    if m < 0 {
                        negative = negative + 1;
                    }
                    if m == 0 {
                        zero = zero + 1;
                    }
                    k2 += 1;
                }
                k1 += 1;
            }
            i2 += 1;
        }
        i1 += 1;
    }
    MinorCounts { total, negative, zero }
}

proof fn lemma_count_k2_mono(rows: Seq<Vec<i64>>, i1: int, i2: int, k1: int, e: int, f: int, kind: MinorKind)
    requires
        e <= f,
    ensures
        count_k2(rows, i1, i2, k1, e, kind) <= count_k2(rows, i1, i2, k1, f, kind),
    decreases f - e,
{
    if e < f {
        lemma_count_k2_mono(rows, i1, i2, k1, e, f - 1, kind);
    }
}

proof fn lemma_count_k1_mono(rows: Seq<Vec<i64>>, cols: int, i1: int, i2: int, e: int, f: int, kind: MinorKind)
    requires
        e <= f,
    ensures
        count_k1(rows, cols, i1, i2, e, kind) <= count_k1(rows, cols, i1, i2, f, kind),
    decreases f - e,
{
    if e < f {
        lemma_count_k1_mono(rows, cols, i1, i2, e, f - 1, kind);
    }
}

proof fn lemma_count_i2_mono(rows: Seq<Vec<i64>>, cols: int, i1: int, e: int, f: int, kind: MinorKind)
    requires
        e <= f,
    ensures
        count_i2(rows, cols, i1, e, kind) <= count_i2(rows, cols, i1, f, kind),
    decreases f - e,
{
    if e < f {
        lemma_count_i2_mono(rows, cols, i1, e, f - 1, kind);
    }
}

/// Number of columns `k` with a consecutive pair `(k, k + 1)` for rows `i` and
/// `j`: one less than the longer row (none for empty rows).
pub open spec fn pair_span(rows: Seq<Vec<i64>>, i: int, j: int) -> int {
    let m = if rows[i].len() >= rows[j].len() {
        rows[i].len() as int
    } else {
        rows[j].len() as int
    };
    if m >= 1 {
        m - 1
    } else {
        0
    }
}

/// Column `k` of rows `(i, j)` is compared: both `[t^(k+1)]` entries are positive;
/// with `ok`, also the ratio test `A_k / A_(k+1) >= B_k / B_(k+1)` holds.
pub open spec fn ratio_holds(rows: Seq<Vec<i64>>, i: int, j: int, k: int, ok: bool) -> bool {
    coef(rows[i]@, k + 1) > 0 && coef(rows[j]@, k + 1) > 0 && (ok ==> minor2(rows, i, j, k, k + 1) >= 0)
}

pub open spec fn ratio_count_k(rows: Seq<Vec<i64>>, i: int, j: int, e: int, ok: bool) -> nat
    decreases e,
{
    if e <= 0 {
        0
    } else {
        ratio_count_k(rows, i, j, e - 1, ok) + if ratio_holds(rows, i, j, e - 1, ok) {
            1nat
        } else {
            0nat
        }
    }
}

pub open spec fn ratio_count_j(rows: Seq<Vec<i64>>, i: int, e: int, ok: bool) -> nat
    decreases e - i,
{
    if e <= i + 1 {
        0
    } else {
        ratio_count_j(rows, i, e - 1, ok) + ratio_count_k(rows, i, e - 1, pair_span(rows, i, e - 1), ok)
    }
}

pub open spec fn ratio_count_i(rows: Seq<Vec<i64>>, e: int, ok: bool) -> nat
    decreases e,
{
    if e <= 0 {
        0
    } else {
        ratio_count_i(rows, e - 1, ok) + ratio_count_j(rows, e - 1, rows.len() as int, ok)
    }
}

/// Over the row pairs `i < j` and their consecutive columns `(k, k + 1)`: how many
/// have both `[t^(k+1)]` entries positive (`ok == false`), and how many of those
/// pass the ratio test (`ok == true`).
pub open spec fn ratio_count(rows: Seq<Vec<i64>>, ok: bool) -> nat {
    ratio_count_i(rows, rows.len() as int, ok)
}

proof fn lemma_ratio_k_le(rows: Seq<Vec<i64>>, i: int, j: int, e: int, ok: bool)
    requires
        0 <= e,
    ensures
        ratio_count_k(rows, i, j, e, ok) <= e,
        ratio_count_k(rows, i, j, e, true) <= ratio_count_k(rows, i, j, e, false),
    decreases e,
{
    if e > 0 {
        lemma_ratio_k_le(rows, i, j, e - 1, ok);
    }
}

proof fn lemma_row_len_le_max(rows: Seq<Vec<i64>>, i: int)
    requires
        0 <= i < rows.len(),
    ensures
        rows[i].len() <= max_row_len(rows),
    decreases rows.len(),
{
    if i < rows.len() - 1 {
        lemma_row_len_le_max(rows.drop_last(), i);
    }
}

proof fn lemma_ratio_j_le(rows: Seq<Vec<i64>>, i: int, e: int, ok: bool)
    requires
        0 <= i,
        e <= rows.len(),
    ensures
        ratio_count_j(rows, i, e, ok) <= (if e > 0 { e } else { 0 }) * max_row_len(rows),
        ratio_count_j(rows, i, e, true) <= ratio_count_j(rows, i, e, false),
    decreases e - i,
{
    if e > i + 1 {
        lemma_ratio_j_le(rows, i, e - 1, ok);
        lemma_ratio_k_le(rows, i, e - 1, pair_span(rows, i, e - 1), ok);
        lemma_ratio_k_le(rows, i, e - 1, pair_span(rows, i, e - 1), true);
        lemma_row_len_le_max(rows, i);
        lemma_row_len_le_max(rows, e - 1);
        assert((e - 1) * max_row_len(rows) + max_row_len(rows) == e * max_row_len(rows)) by (nonlinear_arith);
    } else {
        assert(0 <= (if e > 0 { e } else { 0 }) * max_row_len(rows)) by (nonlinear_arith)
            requires
                0 <= max_row_len(rows),
        ;
    }
}

proof fn lemma_max_row_len_nonneg(rows: Seq<Vec<i64>>)
    ensures
        0 <= max_row_len(rows),
    decreases rows.len(),
{
    if rows.len() > 0 {
        lemma_max_row_len_nonneg(rows.drop_last());
    }
}

proof fn lemma_ratio_i_le(rows: Seq<Vec<i64>>, e: int, ok: bool)
    requires
        0 <= e <= rows.len(),
    ensures
        ratio_count_i(rows, e, ok) <= e * (rows.len() * max_row_len(rows)),
        ratio_count_i(rows, e, true) <= ratio_count_i(rows, e, false),
    decreases e,
{
    lemma_max_row_len_nonneg(rows);
    if e > 0 {
        lemma_ratio_i_le(rows, e - 1, ok);
        lemma_ratio_j_le(rows, e - 1, rows.len() as int, ok);
        lemma_ratio_j_le(rows, e - 1, rows.len() as int, true);
        assert((e - 1) * (rows.len() * max_row_len(rows)) + rows.len() * max_row_len(rows) == e * (rows.len()
            * max_row_len(rows))) by (nonlinear_arith);
    }
}

/// The ratio test on consecutive columns for every pair of rows: the number of
/// comparable columns and the number that pass (see [`ratio_count`]).
pub fn ratio_counts(rows: &[Vec<i64>]) -> (r: (u64, u64))
    requires
        rows.len() <= 0x8000,
        max_row_len(rows@) <= 0x8000,
    ensures
        r.0 == ratio_count(rows@, false),
        r.1 == ratio_count(rows@, true),
{
    let nrows = rows.len();
    let ghost cols = max_row_len(rows@);
    proof {
        lemma_max_row_len_nonneg(rows@);
        lemma_ratio_i_le(rows@, nrows as int, false);
        assert(nrows * (nrows * cols) <= 0x8000 * (0x8000 * 0x8000)) by (nonlinear_arith)
            requires
                0 <= nrows <= 0x8000,
                0 <= cols <= 0x8000,
        ;
    }
    let mut total: u64 = 0;
    let mut good: u64 = 0;
    let mut i: usize = 0;
    while i < nrows
        invariant
            nrows == rows.len(),
            i <= nrows,
            ratio_count_i(rows@, nrows as int, false) <= 0x8000 * (0x8000 * 0x8000),
            total == ratio_count_i(rows@, i as int, false),
            good == ratio_count_i(rows@, i as int, true),
        decreases nrows - i,
    {
        let ghost t0 = total as int;
        let ghost g0 = good as int;
        proof {
            lemma_ratio_i_mono(rows@, i + 1, nrows as int);
            lemma_ratio_i_le(rows@, i + 1, true);
        }
        let mut j: usize = i + 1;
        while j < nrows
            invariant
                nrows == rows.len(),
                i < nrows,
                i + 1 <= j <= nrows,
                ratio_count_i(rows@, i + 1, false) <= 0x8000 * (0x8000 * 0x8000),
                ratio_count_i(rows@, i + 1, true) <= ratio_count_i(rows@, i + 1, false),
                t0 == ratio_count_i(rows@, i as int, false),
                g0 == ratio_count_i(rows@, i as int, true),
                total == t0 + ratio_count_j(rows@, i as int, j as int, false),
                good == g0 + ratio_count_j(rows@, i as int, j as int, true),
            decreases nrows - j,
        {
            let ghost t1 = total as int;
            let ghost g1 = good as int;
            let la = rows[i].len();
            let lb = rows[j].len();
            let m = if la >= lb {
                la
            } else {
                lb
            };
            let span = if m >= 1 {
                m - 1
            } else {
                0
            };
            assert(span == pair_span(rows@, i as int, j as int));
            proof {
                lemma_ratio_j_mono(rows@, i as int, j + 1, nrows as int);
                lemma_ratio_j_le(rows@, i as int, j + 1, true);
            }
            let mut k: usize = 0;
            while k < span
                invariant
                    nrows == rows.len(),
                    i < j < nrows,
                    k <= span,
                    span == pair_span(rows@, i as int, j as int),
                    t1 + ratio_count_k(rows@, i as int, j as int, span as int, false) <= 0x8000 * (0x8000 * 0x8000),
                    g1 + ratio_count_k(rows@, i as int, j as int, span as int, true) <= 0x8000 * (0x8000 * 0x8000),
                    total == t1 + ratio_count_k(rows@, i as int, j as int, k as int, false),
                    good == g1 + ratio_count_k(rows@, i as int, j as int, k as int, true),
                decreases span - k,
            {
                proof {
                    lemma_ratio_k_mono(rows@, i as int, j as int, k + 1, span as int, false);
                    lemma_ratio_k_mono(rows@, i as int, j as int, k + 1, span as int, true);
                }
                let a1 = coef_wide(&rows[i], k + 1);
                let b1 = coef_wide(&rows[j], k + 1);
                if a1 > 0 && b1 > 0 {
                    total = total + 1;
                    let m = minor_wide(rows, i, j, k, k + 1);
                    if m >= 0 {
                        good = good + 1;
                    }
                }
                k += 1;
            }
            j += 1;
        }
        i += 1;
    }
    (total, good)
}

proof fn lemma_ratio_k_mono(rows: Seq<Vec<i64>>, i: int, j: int, e: int, f: int, ok: bool)
    requires
        e <= f,
    ensures
        ratio_count_k(rows, i, j, e, ok) <= ratio_count_k(rows, i, j, f, ok),
    decreases f - e,
{
    if e < f {
        lemma_ratio_k_mono(rows, i, j, e, f - 1, ok);
    }
}

proof fn lemma_ratio_j_mono(rows: Seq<Vec<i64>>, i: int, e: int, f: int)
    requires
        e <= f,
    ensures
        ratio_count_j(rows, i, e, false) <= ratio_count_j(rows, i, f, false),
        ratio_count_j(rows, i, e, true) <= ratio_count_j(rows, i, f, true),
    decreases f - e,
{
    if e < f {
        lemma_ratio_j_mono(rows, i, e, f - 1);
    }
}

proof fn lemma_ratio_i_mono(rows: Seq<Vec<i64>>, e: int, f: int)
    requires
        e <= f,
    ensures
        ratio_count_i(rows, e, false) <= ratio_count_i(rows, f, false),
        ratio_count_i(rows, e, true) <= ratio_count_i(rows, f, true),
    decreases f - e,
{
    if e < f {
        lemma_ratio_i_mono(rows, e, f - 1);
    }
}

} // verus!
