//! Determinants of square matrices whose entries are polynomials, by
//! cofactor expansion along the first row.
use vstd::prelude::*;
use crate::poly::{coef, fits_i64, is_trimmed, conv, conv_upto, mul_fits, poly_mul, poly_add, poly_sub, sum_fits, diff_fits, lemma_strip, seq_sum, seq_diff, lemma_conv_zero_outside};

verus! {

/// Matrix of polynomials as nested sequences of coefficient vectors.
pub open spec fn mat_view(m: Seq<Vec<Vec<i64>>>) -> Seq<Seq<Seq<i64>>> {
    Seq::new(m.len(), |r: int| Seq::new(m[r]@.len(), |c: int| m[r][c]@))
}

/// Delete the first row and column `j`; only the first `m.len()` columns take part.
pub open spec fn minor_of(m: Seq<Seq<Seq<i64>>>, j: int) -> Seq<Seq<Seq<i64>>> {
    Seq::new((m.len() - 1) as nat, |r: int| m[r + 1].subrange(0, m.len() as int).remove(j))
}

pub open spec fn sign(j: int) -> int {
    if j % 2 == 0 {
        1
    } else {
        -1
    }
}

/// Coefficient of `t^k` in the determinant (Laplace expansion along the first row).
pub open spec fn det_coef(m: Seq<Seq<Seq<i64>>>, k: int) -> int
    decreases m.len(), 2int, 0int,
{
    if m.len() == 0 {
        if k == 0 {
            1
        } else {
            0
        }
    } else if m.len() == 1 {
        coef(m[0][0], k)
    } else {
        cofactor_sum(m, m.len() as int, k)
    }
}

/// `sum_{j' < j} (-1)^j' [t^k] (m[0][j'] * det(minor j'))`.
pub open spec fn cofactor_sum(m: Seq<Seq<Seq<i64>>>, j: int, k: int) -> int
    decreases m.len(), 1int, j,
{
    if j <= 0 || m.len() == 0 {
        0
    } else {
        cofactor_sum(m, j - 1, k) + sign(j - 1) * conv_det(m[0][j - 1], minor_of(m, j - 1), k, m[0][j - 1].len() as int)
    }
}

/// `sum_{i' < i} a[i'] * [t^(k-i')] det(mn)`.
pub open spec fn conv_det(a: Seq<i64>, mn: Seq<Seq<Seq<i64>>>, k: int, i: int) -> int
    decreases mn.len(), 3int, i,
{
    if i <= 0 {
        0
    } else {
        conv_det(a, mn, k, i - 1) + coef(a, i - 1) * det_coef(mn, k - (i - 1))
    }
}

/// Every row has at least as many entries as there are rows.
pub open spec fn square(m: Seq<Seq<Seq<i64>>>) -> bool {
    forall|r: int| 0 <= r < m.len() ==> (#[trigger] m[r]).len() >= m.len()
}

/// The products and running sums formed while expanding the determinant fit in an `i64`.
pub open spec fn det_fits(m: Seq<Seq<Seq<i64>>>) -> bool
    decreases m.len(), 1int, 0int,
{
    if m.len() <= 1 {
        true
    } else if m.len() == 2 {
        &&& mul_fits(m[0][0], m[1][1])
        &&& mul_fits(m[0][1], m[1][0])
        &&& forall|k: int| #[trigger] fits_i64(conv(m[0][0], m[1][1], k) - conv(m[0][1], m[1][0], k))
    } else {
        &&& minors_fit(m, 0)
        &&& forall|j: int, i: int, k: int|
            0 <= j < m.len() && 0 <= i < m[0][j].len() ==> #[trigger] fits_i64(coef(m[0][j], i) * det_coef(minor_of(m, j), k))
                && fits_i64(conv_det(m[0][j], minor_of(m, j), i + k, i + 1))
        &&& forall|j: int, k: int| 0 <= j < m.len() ==> #[trigger] fits_i64(cofactor_sum(m, j + 1, k))
    }
}

/// `det_fits` holds of the minors of columns `j..`.
pub open spec fn minors_fit(m: Seq<Seq<Seq<i64>>>, j: int) -> bool
    decreases m.len(), 0int, m.len() - j,
{
    if j < 0 || j >= m.len() {
        true
    } else {
        det_fits(minor_of(m, j)) && minors_fit(m, j + 1)
    }
}

proof fn lemma_minors_fit(m: Seq<Seq<Seq<i64>>>, j0: int, j: int)
    requires
        minors_fit(m, j0),
        0 <= j0 <= j < m.len(),
    ensures
        det_fits(minor_of(m, j)),
    decreases j - j0,
{
    if j0 < j {
        lemma_minors_fit(m, j0 + 1, j);
    }
}

proof fn lemma_det_fits_minor(m: Seq<Seq<Seq<i64>>>, j: int)
    requires
        det_fits(m),
        m.len() >= 3,
        0 <= j < m.len(),
    ensures
        det_fits(minor_of(m, j)),
{
    lemma_minors_fit(m, 0, j);
}

pub proof fn lemma_det_coef_negative(m: Seq<Seq<Seq<i64>>>, k: int)
    requires
        k < 0,
    ensures
        det_coef(m, k) == 0,
    decreases m.len(), 2int, 0int,
{
    if m.len() >= 2 {
        lemma_cofactor_negative(m, m.len() as int, k);
    }
}

pub proof fn lemma_cofactor_negative(m: Seq<Seq<Seq<i64>>>, j: int, k: int)
    requires
        k < 0,
        m.len() >= 1,
    ensures
        cofactor_sum(m, j, k) == 0,
    decreases m.len(), 1int, j,
{
    if j > 0 {
        lemma_cofactor_negative(m, j - 1, k);
        lemma_conv_det_negative(m[0][j - 1], minor_of(m, j - 1), k, m[0][j - 1].len() as int);
    }
}

pub proof fn lemma_conv_det_negative(a: Seq<i64>, mn: Seq<Seq<Seq<i64>>>, k: int, i: int)
    requires
        k < 0,
    ensures
        conv_det(a, mn, k, i) == 0,
    decreases mn.len(), 3int, i,
{
    if i > 0 {
        lemma_conv_det_negative(a, mn, k, i - 1);
        lemma_det_coef_negative(mn, k - (i - 1));
    }
}

/// With `b` holding the coefficients of `det(mn)`, the running convolution sums agree.
pub proof fn lemma_conv_matches(a: Seq<i64>, b: Seq<i64>, mn: Seq<Seq<Seq<i64>>>, k: int, i: int)
    requires
        forall|x: int| #[trigger] coef(b, x) == det_coef(mn, x),
    ensures
        conv_upto(a, b, k, i) == conv_det(a, mn, k, i),
    decreases i,
{
    if i > 0 {
        lemma_conv_matches(a, b, mn, k, i - 1);
        assert(coef(b, k - (i - 1)) == det_coef(mn, k - (i - 1)));
    }
}

fn minor_matrix(m: &[Vec<Vec<i64>>], j: usize) -> (mn: Vec<Vec<Vec<i64>>>)
    requires
        m.len() >= 1,
        square(mat_view(m@)),
        j < m.len(),
    ensures
        mat_view(mn@) == minor_of(mat_view(m@), j as int),
        mn.len() == m.len() - 1,
{
    let n = m.len();
    let mut mn: Vec<Vec<Vec<i64>>> = Vec::new();
    for i in 1..n
        invariant
            n == m.len(),
            square(mat_view(m@)),
            j < n,
            mn.len() == i - 1,
            forall|r: int| 0 <= r < i - 1 ==> #[trigger] mat_view(mn@)[r] == mat_view(m@)[r + 1].subrange(0, n as int).remove(j as int),
    {
        assert(mat_view(m@)[i as int].len() >= n);
        let mut row: Vec<Vec<i64>> = Vec::new();
        for k in 0..n
            invariant
                n == m.len(),
                1 <= i < n,
                j < n,
                m@[i as int].len() >= n,
                row.len() == if k <= j { k as int } else { k - 1 },
                forall|c: int| 0 <= c < row.len() ==> #[trigger] row@[c]@ == if c < j { m@[i as int][c]@ } else { m@[i as int][c + 1]@ },
        {
            if k != j {
                row.push(crate::poly::copy_poly(&m[i][k]));
            }
        }
        let ghost rv = Seq::new(row@.len(), |c: int| row@[c]@);
        assert(rv =~= mat_view(m@)[i as int].subrange(0, n as int).remove(j as int));
        let ghost old_mn = mn@;
        mn.push(row);
        assert forall|r: int| 0 <= r < i implies #[trigger] mat_view(mn@)[r] == mat_view(m@)[r + 1].subrange(0, n as int).remove(j as int) by {
            if r == i - 1 {
                assert(mat_view(mn@)[r] =~= rv);
            } else {
                assert(mn@[r] == old_mn[r]);
                assert(mat_view(mn@)[r] =~= mat_view(old_mn)[r]);
            }
        }
    }
    assert(mat_view(mn@) =~= minor_of(mat_view(m@), j as int));
    mn
}

proof fn lemma_minor_square(m: Seq<Seq<Seq<i64>>>, j: int)
    requires
        square(m),
        m.len() >= 1,
        0 <= j < m.len(),
    ensures
        square(minor_of(m, j)),
{
    assert forall|r: int| 0 <= r < minor_of(m, j).len() implies (#[trigger] minor_of(m, j)[r]).len() >= minor_of(m, j).len() by {
        assert(m[r + 1].len() >= m.len());
    }
}

/// Every entry has at most `l` coefficients.
pub open spec fn entries_within(m: Seq<Vec<Vec<i64>>>, l: int) -> bool {
    forall|r: int, c: int| 0 <= r < m.len() && 0 <= c < m[r].len() ==> #[trigger] m[r][c].len() <= l
}

/// Determinant of a square matrix of polynomials, expanding along the first
/// row: `[1]` for the empty matrix, the single entry (as given) for a 1x1
/// matrix, and a trimmed polynomial otherwise.
pub fn poly_det(m: &[Vec<Vec<i64>>]) -> (r: Vec<i64>)
    requires
        square(mat_view(m@)),
        det_fits(mat_view(m@)),
        forall|r: int, c: int|
            0 <= r < m.len() && 0 <= c < m@[r].len() ==> (#[trigger] m@[r][c].len() + 1) * m.len() <= usize::MAX,
    ensures
        forall|k: int| #[trigger] coef(r@, k) == det_coef(mat_view(m@), k),
        m.len() == 1 ==> r@ == m@[0][0]@,
        m.len() != 1 ==> is_trimmed(r@) && r.len() >= 1,
{
    let mut l: usize = 0;
    for i in 0..m.len()
        invariant
            forall|r: int, c: int|
                0 <= r < m.len() && 0 <= c < m@[r].len() ==> (#[trigger] m@[r][c].len() + 1) * m.len() <= usize::MAX,
            l == 0 || exists|r: int, c: int| 0 <= r < m.len() && 0 <= c < m@[r].len() && #[trigger] m@[r][c].len() == l,
            forall|r: int, c: int| 0 <= r < i && 0 <= c < m@[r].len() ==> #[trigger] m@[r][c].len() <= l,
    {
        let row_len = m[i].len();
        for c in 0..row_len
            invariant
                i < m.len(),
                row_len == m@[i as int].len(),
                forall|r: int, c: int|
                    0 <= r < m.len() && 0 <= c < m@[r].len() ==> (#[trigger] m@[r][c].len() + 1) * m.len() <= usize::MAX,
                l == 0 || exists|r: int, c: int| 0 <= r < m.len() && 0 <= c < m@[r].len() && #[trigger] m@[r][c].len() == l,
                forall|r: int, c: int| 0 <= r < i && 0 <= c < m@[r].len() ==> #[trigger] m@[r][c].len() <= l,
                forall|cc: int| 0 <= cc < c ==> #[trigger] m@[i as int][cc].len() <= l,
        {
            if m[i][c].len() > l {
                l = m[i][c].len();
            }
        }
    }
    proof {
        if l > 0 {
            let (r0, c0) = choose|r: int, c: int| 0 <= r < m.len() && 0 <= c < m@[r].len() && #[trigger] m@[r][c].len() == l;
            assert((m@[r0][c0].len() + 1) * m.len() <= usize::MAX);
        }
        assert(m.len() * (l + 1) <= usize::MAX) by (nonlinear_arith)
            requires
                l == 0 ==> m.len() <= usize::MAX,
                l > 0 ==> (l + 1) * m.len() <= usize::MAX,
        ;
    }
    det_rec(m, Ghost(l as int))
}

fn det_rec(m: &[Vec<Vec<i64>>], Ghost(l): Ghost<int>) -> (r: Vec<i64>)
    requires
        square(mat_view(m@)),
        det_fits(mat_view(m@)),
        l >= 0,
        entries_within(m@, l),
        m.len() * (l + 1) <= usize::MAX,
    ensures
        forall|k: int| #[trigger] coef(r@, k) == det_coef(mat_view(m@), k),
        m.len() == 1 ==> r@ == m@[0][0]@,
        m.len() != 1 ==> is_trimmed(r@) && r.len() >= 1,
        r.len() <= m.len() * l + 1,
    decreases m.len(),
{
    let n = m.len();
    let ghost mv = mat_view(m@);
    if n == 0 {
        let r = vec![1i64];
        assert forall|k: int| #[trigger] coef(r@, k) == det_coef(mv, k) by {}
        return r;
    }
    assert(mv[0].len() >= n);
    if n == 1 {
        let r = crate::poly::copy_poly(&m[0][0]);
        assert(mv[0][0] == m@[0][0]@);
        assert(m@[0][0].len() <= l);
        assert(m.len() * l == l) by (nonlinear_arith)
            requires
                m.len() == 1,
        ;
        return r;
    }
    if n == 2 {
        assert(mv[1].len() >= 2);
        assert(mv[0][0] == m@[0][0]@ && mv[1][1] == m@[1][1]@ && mv[0][1] == m@[0][1]@ && mv[1][0] == m@[1][0]@);
        assert(m@[0][0].len() <= l && m@[1][1].len() <= l && m@[0][1].len() <= l && m@[1][0].len() <= l);
        assert(2 * l + 1 <= usize::MAX) by (nonlinear_arith)
            requires
                n == 2,
                n * (l + 1) <= usize::MAX,
        ;
        let p1 = poly_mul(&m[0][0], &m[1][1]);
        let p2 = poly_mul(&m[0][1], &m[1][0]);
        proof {
            assert forall|k: int| #[trigger] coef(p1@, k) == conv(mv[0][0], mv[1][1], k) by {
                if mv[0][0].len() == 0 || mv[1][1].len() == 0 {
                    lemma_conv_empty(mv[0][0], mv[1][1], k);
                }
            }
            assert forall|k: int| #[trigger] coef(p2@, k) == conv(mv[0][1], mv[1][0], k) by {
                if mv[0][1].len() == 0 || mv[1][0].len() == 0 {
                    lemma_conv_empty(mv[0][1], mv[1][0], k);
                }
            }
            assert forall|k: int| #[trigger] fits_i64(coef(p1@, k) - coef(p2@, k)) by {
                assert(fits_i64(conv(mv[0][0], mv[1][1], k) - conv(mv[0][1], mv[1][0], k)));
            }
        }
        let r = poly_sub(&p1, &p2);
        proof {
            lemma_strip(seq_diff(p1@, p2@));
            assert forall|k: int| #[trigger] coef(r@, k) == det_coef(mv, k) by {
                lemma_two_by_two(mv, k);
            }
        }
        return r;
    }
    let mut result: Vec<i64> = vec![0i64];
    for j in 0..n
        invariant
            n == m.len(),
            n >= 3,
            mv == mat_view(m@),
            square(mv),
            det_fits(mv),
            l >= 0,
            entries_within(m@, l),
            n * (l + 1) <= usize::MAX,
            result.len() >= 1,
            result.len() <= n * l + 1,
            is_trimmed(result@),
            forall|k: int| #[trigger] coef(result@, k) == cofactor_sum(mv, j as int, k),
    {
        let minor = minor_matrix(m, j);
        proof {
            lemma_minor_square(mv, j as int);
            lemma_det_fits_minor(mv, j as int);
            assert(entries_within(minor@, l)) by {
                assert forall|r: int, c: int| 0 <= r < minor@.len() && 0 <= c < minor@[r].len() implies #[trigger] minor@[r][c].len() <= l by {
                    assert(mat_view(minor@)[r][c] == minor@[r][c]@);
                    assert(mat_view(minor@)[r][c] == minor_of(mv, j as int)[r][c]);
                    assert(minor_of(mv, j as int)[r] == mv[r + 1].subrange(0, n as int).remove(j as int));
                    assert(mv[r + 1].len() >= n);
                    if c < j {
                        assert(mv[r + 1][c] == m@[r + 1][c]@);
                        assert(m@[r + 1][c].len() <= l);
                    } else {
                        assert(mv[r + 1][c + 1] == m@[r + 1][c + 1]@);
                        assert(m@[r + 1][c + 1].len() <= l);
                    }
                }
            }
            assert((n - 1) * (l + 1) <= usize::MAX) by (nonlinear_arith)
                requires
                    n * (l + 1) <= usize::MAX,
                    l >= 0,
            ;
        }
        let cofactor = det_rec(&minor, Ghost(l));
        let ghost mn = minor_of(mv, j as int);
        assert(mv[0][j as int] == m@[0][j as int]@);
        assert(m@[0][j as int].len() <= l);
        proof {
            assert forall|i: int, jj: int|
                0 <= i < m@[0][j as int]@.len() && 0 <= jj < cofactor@.len() implies fits_i64(
                #[trigger] coef(m@[0][j as int]@, i) * #[trigger] coef(cofactor@, jj),
            ) && fits_i64(conv_upto(m@[0][j as int]@, cofactor@, i + jj, i + 1)) by {
                assert(fits_i64(coef(mv[0][j as int], i) * det_coef(mn, jj)));
                assert(fits_i64(conv_det(mv[0][j as int], mn, i + jj, i + 1)));
                lemma_conv_matches(m@[0][j as int]@, cofactor@, mn, i + jj, i + 1);
            }
            assert(l + (n - 1) * l + 1 <= usize::MAX) by (nonlinear_arith)
                requires
                    n * (l + 1) <= usize::MAX,
                    l >= 0,
                    n >= 3,
            ;
        }
        let term = poly_mul(&m[0][j], &cofactor);
        proof {
            assert forall|k: int| #[trigger] coef(term@, k) == conv_det(mv[0][j as int], mn, k, mv[0][j as int].len() as int) by {
                if m@[0][j as int].len() == 0 {
                    lemma_conv_det_zero_len(mv[0][j as int], mn, k);
                } else {
                    lemma_conv_matches(m@[0][j as int]@, cofactor@, mn, k, m@[0][j as int].len() as int);
                }
            }
            assert(term.len() <= n * l + 1) by (nonlinear_arith)
                requires
                    term.len() <= 1 || term.len() <= m@[0][j as int].len() + cofactor.len() - 1,
                    m@[0][j as int].len() <= l,
                    cofactor.len() <= (n - 1) * l + 1,
                    l >= 0,
                    n >= 1,
            ;
        }
        let ghost old_result = result@;
        if j % 2 == 0 {
            proof {
                assert forall|k: int| #[trigger] fits_i64(coef(result@, k) + coef(term@, k)) by {
                    assert(fits_i64(cofactor_sum(mv, j + 1, k)));
                }
            }
            result = poly_add(&result, &term);
            proof {
                lemma_strip(seq_sum(old_result, term@));
                assert forall|k: int| #[trigger] coef(result@, k) == cofactor_sum(mv, j + 1, k) by {}
            }
        } else {
            proof {
                assert(sign(j as int) == -1);
                assert forall|k: int| #[trigger] fits_i64(coef(result@, k) - coef(term@, k)) by {
                    assert(cofactor_sum(mv, j + 1, k) == cofactor_sum(mv, j as int, k) + sign(j as int) * conv_det(
                        mv[0][j as int],
                        mn,
                        k,
                        mv[0][j as int].len() as int,
                    ));
                    assert(fits_i64(cofactor_sum(mv, j + 1, k)));
                }
            }
            result = poly_sub(&result, &term);
            proof {
                lemma_strip(seq_diff(old_result, term@));
                assert forall|k: int| #[trigger] coef(result@, k) == cofactor_sum(mv, j + 1, k) by {}
            }
        }
    }
    result
}

proof fn lemma_conv_det_zero_len(a: Seq<i64>, mn: Seq<Seq<Seq<i64>>>, k: int)
    requires
        a.len() == 0,
    ensures
        conv_det(a, mn, k, a.len() as int) == 0,
{
}

proof fn lemma_conv_empty(a: Seq<i64>, b: Seq<i64>, k: int)
    requires
        a.len() == 0 || b.len() == 0,
    ensures
        conv(a, b, k) == 0,
{
    if a.len() > 0 {
        lemma_conv_b_empty(a, b, k, a.len() as int);
    }
}

proof fn lemma_conv_b_empty(a: Seq<i64>, b: Seq<i64>, k: int, m: int)
    requires
        b.len() == 0,
    ensures
        conv_upto(a, b, k, m) == 0,
    decreases m,
{
    if m > 0 {
        lemma_conv_b_empty(a, b, k, m - 1);
    }
}

proof fn lemma_two_by_two(m: Seq<Seq<Seq<i64>>>, k: int)
    requires
        m.len() == 2,
        square(m),
    ensures
        det_coef(m, k) == conv(m[0][0], m[1][1], k) - conv(m[0][1], m[1][0], k),
{
    let m0 = minor_of(m, 0);
    let m1 = minor_of(m, 1);
    assert(m0.len() == 1 && m0[0][0] == m[1][1]) by {
        assert(m[1].len() >= 2);
    }
    assert(m1.len() == 1 && m1[0][0] == m[1][0]) by {
        assert(m[1].len() >= 2);
    }
    lemma_conv_det_single(m[0][0], m0, k, m[0][0].len() as int);
    lemma_conv_det_single(m[0][1], m1, k, m[0][1].len() as int);
    assert(cofactor_sum(m, 2, k) == cofactor_sum(m, 1, k) + sign(1) * conv_det(m[0][1], m1, k, m[0][1].len() as int));
    assert(cofactor_sum(m, 1, k) == cofactor_sum(m, 0, k) + sign(0) * conv_det(m[0][0], m0, k, m[0][0].len() as int));
}

proof fn lemma_conv_det_single(a: Seq<i64>, mn: Seq<Seq<Seq<i64>>>, k: int, i: int)
    requires
        mn.len() == 1,
    ensures
        conv_det(a, mn, k, i) == conv_upto(a, mn[0][0], k, i),
    decreases i,
{
    if i > 0 {
        lemma_conv_det_single(a, mn, k, i - 1);
        assert(det_coef(mn, k - (i - 1)) == coef(mn[0][0], k - (i - 1)));
    }
}

} // verus!
