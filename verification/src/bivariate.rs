//! The bivariate generating function `Phi_S(x, t) = sum_p x^p L^(p)(t)` as a
//! coefficient matrix (row per insertion position `p`, column per power of
//! `t`), and the total-positivity and support tests run on it.
use vstd::prelude::*;
use crate::poly::{coef, fits_i64, histogram, build_poly};
use crate::insertion::first_index;
use crate::minors::{all_minors_nonneg, first_negative_wide};

verus! {

/// TN_2 test on a coefficient matrix whose rows all have the length of the
/// first row: every 2x2 minor over those columns is non-negative.
pub fn check_tn2(coeffs: &[Vec<i64>]) -> (b: bool)
    ensures
        coeffs.len() < 2 ==> b,
        coeffs.len() >= 2 ==> b == all_minors_nonneg(coeffs@, coeffs@[0].len() as int),
{
    let nrows = coeffs.len();
    if nrows < 2 {
        return true;
    }
    let ncols = coeffs[0].len();
    if ncols < 2 {
        return true;
    }
    first_negative_wide(coeffs, ncols).is_none()
}

/// Determinant of the 3x3 matrix `[[a, b, c], [d, e, f], [g, h, k]]`,
/// expanded along the first row.
pub open spec fn det3(a: int, b: int, c: int, d: int, e: int, f: int, g: int, h: int, k: int) -> int {
    a * (e * k - f * h) - b * (d * k - f * g) + c * (d * h - e * g)
}

/// Every product, difference and partial sum formed while expanding
/// [`det3`] along the first row fits in an `i64`.
pub open spec fn det3_fits(a: int, b: int, c: int, d: int, e: int, f: int, g: int, h: int, k: int) -> bool {
    &&& fits_i64(e * k) && fits_i64(f * h) && fits_i64(e * k - f * h) && fits_i64(a * (e * k - f * h))
    &&& fits_i64(d * k) && fits_i64(f * g) && fits_i64(d * k - f * g) && fits_i64(b * (d * k - f * g))
    &&& fits_i64(d * h) && fits_i64(e * g) && fits_i64(d * h - e * g) && fits_i64(c * (d * h - e * g))
    &&& fits_i64(a * (e * k - f * h) - b * (d * k - f * g))
    &&& fits_i64(det3(a, b, c, d, e, f, g, h, k))
}

/// Entry `(i, j)` of the coefficient matrix, zero outside a row.
pub open spec fn entry(rows: Seq<Vec<i64>>, i: int, j: int) -> int {
    coef(rows[i]@, j)
}

/// The 3x3 minor on rows `i1, i2, i3` and columns `j1, j2, j3`.
pub open spec fn minor3(rows: Seq<Vec<i64>>, i1: int, i2: int, i3: int, j1: int, j2: int, j3: int) -> int {
    det3(
        entry(rows, i1, j1), entry(rows, i1, j2), entry(rows, i1, j3),
        entry(rows, i2, j1), entry(rows, i2, j2), entry(rows, i2, j3),
        entry(rows, i3, j1), entry(rows, i3, j2), entry(rows, i3, j3),
    )
}

/// The expansion of [`minor3`] stays within `i64`.
pub open spec fn minor3_fits(rows: Seq<Vec<i64>>, i1: int, i2: int, i3: int, j1: int, j2: int, j3: int) -> bool {
    det3_fits(
        entry(rows, i1, j1), entry(rows, i1, j2), entry(rows, i1, j3),
        entry(rows, i2, j1), entry(rows, i2, j2), entry(rows, i2, j3),
        entry(rows, i3, j1), entry(rows, i3, j2), entry(rows, i3, j3),
    )
}

/// Rows `i1 < i2 < i3` and columns `j1 < j2 < j3 < cols`.
pub open spec fn index3(rows: Seq<Vec<i64>>, cols: int, i1: int, i2: int, i3: int, j1: int, j2: int, j3: int) -> bool {
    0 <= i1 < i2 < i3 < rows.len() && 0 <= j1 < j2 < j3 < cols
}

/// Every 3x3 minor on the rows `i1, i2, i3` over the first `cols` columns is non-negative.
pub open spec fn rows3_nonneg(rows: Seq<Vec<i64>>, cols: int, i1: int, i2: int, i3: int) -> bool {
    forall|j1: int, j2: int, j3: int|
        0 <= j1 < j2 < j3 < cols ==> #[trigger] minor3(rows, i1, i2, i3, j1, j2, j3) >= 0
}

/// Every 3x3 minor over the first `cols` columns is non-negative.
pub open spec fn all_minors3_nonneg(rows: Seq<Vec<i64>>, cols: int) -> bool {
    forall|i1: int, i2: int, i3: int, j1: int, j2: int, j3: int|
        index3(rows, cols, i1, i2, i3, j1, j2, j3) ==> #[trigger] minor3(rows, i1, i2, i3, j1, j2, j3) >= 0
}

/// `(a, b, c)` comes before `(i1, i2, i3)` lexicographically.
pub open spec fn lex3(a: int, b: int, c: int, i1: int, i2: int, i3: int) -> bool {
    a < i1 || (a == i1 && (b < i2 || (b == i2 && c < i3)))
}

/// Every 3x3 minor that the test visits before the one on rows `i1, i2, i3`
/// and columns `j1, j2, j3` (rows first, then columns, lexicographically) is non-negative.
pub open spec fn minors_before_nonneg(
    rows: Seq<Vec<i64>>,
    cols: int,
    i1: int,
    i2: int,
    i3: int,
    j1: int,
    j2: int,
    j3: int,
) -> bool {
    forall|a: int, b: int, c: int, x: int, y: int, z: int|
        index3(rows, cols, a, b, c, x, y, z) && (lex3(a, b, c, i1, i2, i3) || (a == i1 && b == i2 && c == i3 && lex3(
            x,
            y,
            z,
            j1,
            j2,
            j3,
        ))) ==> #[trigger] minor3(rows, a, b, c, x, y, z) >= 0
}

/// Every minor the TN_3 test reaches (all earlier ones being non-negative)
/// can be expanded within `i64`.
pub open spec fn tn3_fits(rows: Seq<Vec<i64>>, cols: int) -> bool {
    forall|i1: int, i2: int, i3: int, j1: int, j2: int, j3: int|
        index3(rows, cols, i1, i2, i3, j1, j2, j3) && minors_before_nonneg(rows, cols, i1, i2, i3, j1, j2, j3)
            ==> #[trigger] minor3_fits(rows, i1, i2, i3, j1, j2, j3)
}

fn entry_at(rows: &[Vec<i64>], i: usize, j: usize) -> (v: i64)
    requires
        i < rows.len(),
    ensures
        v == entry(rows@, i as int, j as int),
{
    if j < rows[i].len() {
        rows[i][j]
    } else {
        0
    }
}

fn minor3_at(rows: &[Vec<i64>], i1: usize, i2: usize, i3: usize, j1: usize, j2: usize, j3: usize) -> (m: i64)
    requires
        i1 < rows.len(),
        i2 < rows.len(),
        i3 < rows.len(),
        minor3_fits(rows@, i1 as int, i2 as int, i3 as int, j1 as int, j2 as int, j3 as int),
    ensures
        m == minor3(rows@, i1 as int, i2 as int, i3 as int, j1 as int, j2 as int, j3 as int),
{
    let a = entry_at(rows, i1, j1);
    let b = entry_at(rows, i1, j2);
    let c = entry_at(rows, i1, j3);
    let d = entry_at(rows, i2, j1);
    let e = entry_at(rows, i2, j2);
    let f = entry_at(rows, i2, j3);
    let g = entry_at(rows, i3, j1);
    let h = entry_at(rows, i3, j2);
    let k = entry_at(rows, i3, j3);
    a * (e * k - f * h) - b * (d * k - f * g) + c * (d * h - e * g)
}

fn rows3_check(rows: &[Vec<i64>], cols: usize, i1: usize, i2: usize, i3: usize) -> (b: bool)
    requires
        i1 < i2 < i3 < rows.len(),
        tn3_fits(rows@, cols as int),
        forall|a: int, b: int, c: int, x: int, y: int, z: int|
            index3(rows@, cols as int, a, b, c, x, y, z) && lex3(a, b, c, i1 as int, i2 as int, i3 as int) ==> #[trigger] minor3(
                rows@,
                a,
                b,
                c,
                x,
                y,
                z,
            ) >= 0,
    ensures
        b == rows3_nonneg(rows@, cols as int, i1 as int, i2 as int, i3 as int),
{
    let mut j1: usize = 0;
    while j1 < cols
        invariant
            j1 <= cols,
            i1 < i2 < i3 < rows.len(),
            tn3_fits(rows@, cols as int),
            forall|a: int, b: int, c: int, x: int, y: int, z: int|
                index3(rows@, cols as int, a, b, c, x, y, z) && lex3(a, b, c, i1 as int, i2 as int, i3 as int) ==> #[trigger] minor3(
                    rows@,
                    a,
                    b,
                    c,
                    x,
                    y,
                    z,
                ) >= 0,
            forall|a: int, b: int, c: int|
                0 <= a < j1 && a < b < c < cols ==> #[trigger] minor3(rows@, i1 as int, i2 as int, i3 as int, a, b, c) >= 0,
        decreases cols - j1,
    {
        let mut j2: usize = j1 + 1;
        while j2 < cols
            invariant
                j1 < cols,
                j1 < j2 <= cols,
                i1 < i2 < i3 < rows.len(),
                tn3_fits(rows@, cols as int),
                forall|a: int, b: int, c: int, x: int, y: int, z: int|
                    index3(rows@, cols as int, a, b, c, x, y, z) && lex3(a, b, c, i1 as int, i2 as int, i3 as int) ==> #[trigger] minor3(
                        rows@,
                        a,
                        b,
                        c,
                        x,
                        y,
                        z,
                    ) >= 0,
                forall|a: int, b: int, c: int|
                    0 <= a < j1 && a < b < c < cols ==> #[trigger] minor3(rows@, i1 as int, i2 as int, i3 as int, a, b, c) >= 0,
                forall|b: int, c: int|
                    j1 < b < j2 && b < c < cols ==> #[trigger] minor3(rows@, i1 as int, i2 as int, i3 as int, j1 as int, b, c) >= 0,
            decreases cols - j2,
        {
            let mut j3: usize = j2 + 1;
            while j3 < cols
                invariant
                    j1 < j2 < cols,
                    j2 < j3 <= cols,
                    i1 < i2 < i3 < rows.len(),
                    tn3_fits(rows@, cols as int),
                    forall|a: int, b: int, c: int, x: int, y: int, z: int|
                        index3(rows@, cols as int, a, b, c, x, y, z) && lex3(a, b, c, i1 as int, i2 as int, i3 as int) ==> #[trigger] minor3(
                            rows@,
                            a,
                            b,
                            c,
                            x,
                            y,
                            z,
                        ) >= 0,
                    forall|a: int, b: int, c: int|
                        0 <= a < j1 && a < b < c < cols ==> #[trigger] minor3(rows@, i1 as int, i2 as int, i3 as int, a, b, c) >= 0,
                    forall|b: int, c: int|
                        j1 < b < j2 && b < c < cols ==> #[trigger] minor3(rows@, i1 as int, i2 as int, i3 as int, j1 as int, b, c) >= 0,
                    forall|c: int|
                        j2 < c < j3 ==> #[trigger] minor3(rows@, i1 as int, i2 as int, i3 as int, j1 as int, j2 as int, c) >= 0,
                decreases cols - j3,
            {
                proof {
                    assert(index3(rows@, cols as int, i1 as int, i2 as int, i3 as int, j1 as int, j2 as int, j3 as int));
                    assert forall|a: int, b: int, c: int, x: int, y: int, z: int|
                        index3(rows@, cols as int, a, b, c, x, y, z) && (lex3(a, b, c, i1 as int, i2 as int, i3 as int) || (a
                            == i1 && b == i2 && c == i3 && lex3(x, y, z, j1 as int, j2 as int, j3 as int))) implies #[trigger] minor3(
                        rows@,
                        a,
                        b,
                        c,
                        x,
                        y,
                        z,
                    ) >= 0 by {
                        if !lex3(a, b, c, i1 as int, i2 as int, i3 as int) {
                            if x < j1 {
                            } else if y < j2 {
                            } else {
                            }
                        }
                    }
                    assert(minors_before_nonneg(rows@, cols as int, i1 as int, i2 as int, i3 as int, j1 as int, j2 as int, j3 as int));
                }
                let m = minor3_at(rows, i1, i2, i3, j1, j2, j3);
                if m < 0 {
                    return false;
                }
                j3 += 1;
            }
            j2 += 1;
        }
        j1 += 1;
    }
    true
}

/// TN_3 test on a coefficient matrix whose rows all have the length of the
/// first row: every 3x3 minor over those columns is non-negative.
pub fn check_tn3(coeffs: &[Vec<i64>]) -> (b: bool)
    requires
        coeffs.len() >= 3 ==> tn3_fits(coeffs@, coeffs@[0].len() as int),
    ensures
        coeffs.len() < 3 ==> b,
        coeffs.len() >= 3 ==> b == all_minors3_nonneg(coeffs@, coeffs@[0].len() as int),
{
    let nrows = coeffs.len();
    if nrows < 3 {
        return true;
    }
    let ncols = coeffs[0].len();
    if ncols < 3 {
        return true;
    }
    let mut i1: usize = 0;
    while i1 < nrows
        invariant
            nrows == coeffs.len(),
            nrows >= 3,
            ncols == coeffs@[0].len(),
            i1 <= nrows,
            tn3_fits(coeffs@, ncols as int),
            forall|a: int, b: int, c: int| 0 <= a < i1 && a < b < c < nrows ==> #[trigger] rows3_nonneg(coeffs@, ncols as int, a, b, c),
        decreases nrows - i1,
    {
        let mut i2: usize = i1 + 1;
        while i2 < nrows
            invariant
                nrows == coeffs.len(),
                ncols == coeffs@[0].len(),
                i1 < nrows,
                i1 < i2 <= nrows,
                tn3_fits(coeffs@, ncols as int),
                forall|a: int, b: int, c: int| 0 <= a < i1 && a < b < c < nrows ==> #[trigger] rows3_nonneg(coeffs@, ncols as int, a, b, c),
                forall|b: int, c: int| i1 < b < i2 && b < c < nrows ==> #[trigger] rows3_nonneg(coeffs@, ncols as int, i1 as int, b, c),
            decreases nrows - i2,
        {
            let mut i3: usize = i2 + 1;
            while i3 < nrows
                invariant
                    nrows == coeffs.len(),
                    ncols == coeffs@[0].len(),
                    i1 < i2 < nrows,
                    i2 < i3 <= nrows,
                    tn3_fits(coeffs@, ncols as int),
                    forall|a: int, b: int, c: int| 0 <= a < i1 && a < b < c < nrows ==> #[trigger] rows3_nonneg(coeffs@, ncols as int, a, b, c),
                    forall|b: int, c: int| i1 < b < i2 && b < c < nrows ==> #[trigger] rows3_nonneg(coeffs@, ncols as int, i1 as int, b, c),
                    forall|c: int| i2 < c < i3 ==> #[trigger] rows3_nonneg(coeffs@, ncols as int, i1 as int, i2 as int, c),
                decreases nrows - i3,
            {
                proof {
                    assert forall|a: int, b: int, c: int, x: int, y: int, z: int|
                        index3(coeffs@, ncols as int, a, b, c, x, y, z) && lex3(a, b, c, i1 as int, i2 as int, i3 as int) implies #[trigger] minor3(
                        coeffs@,
                        a,
                        b,
                        c,
                        x,
                        y,
                        z,
                    ) >= 0 by {
                        if a < i1 {
                            assert(rows3_nonneg(coeffs@, ncols as int, a, b, c));
                        } else if b < i2 {
                            assert(rows3_nonneg(coeffs@, ncols as int, i1 as int, b, c));
                        } else {
                            assert(rows3_nonneg(coeffs@, ncols as int, i1 as int, i2 as int, c));
                        }
                    }
                }
                if !rows3_check(coeffs, ncols, i1, i2, i3) {
                    proof {
                        let (a, b, c) = choose|a: int, b: int, c: int|
                            0 <= a < b < c < ncols && !(#[trigger] minor3(coeffs@, i1 as int, i2 as int, i3 as int, a, b, c) >= 0);
                        assert(index3(coeffs@, ncols as int, i1 as int, i2 as int, i3 as int, a, b, c));
                    }
                    return false;
                }
                i3 += 1;
            }
            i2 += 1;
        }
        i1 += 1;
    }
    proof {
        assert forall|i1: int, i2: int, i3: int, j1: int, j2: int, j3: int|
            index3(coeffs@, ncols as int, i1, i2, i3, j1, j2, j3) implies #[trigger] minor3(coeffs@, i1, i2, i3, j1, j2, j3) >= 0 by {
            assert(rows3_nonneg(coeffs@, ncols as int, i1, i2, i3));
        }
    }
    true
}


/// Index of the first occurrence of `v` in `pi`.
pub open spec fn index_of(pi: Seq<u8>, v: u8) -> int {
    choose|i: int| first_index(pi, v, i)
}

proof fn lemma_first_index_unique(pi: Seq<u8>, v: u8, i: int, j: int)
    requires
        first_index(pi, v, i),
        first_index(pi, v, j),
    ensures
        i == j,
{
}

/// `n` sits at (1-indexed, as a byte) position `p` of `pi`.
pub open spec fn lands_at(pi: Seq<u8>, n: u8, p: u8) -> bool {
    ((index_of(pi, n) + 1) as u8) == p
}

/// Swap counts of the first `m` permutations of the class whose maximum `n` sits at position `p`.
pub open spec fn vals_upto(class: Seq<Vec<u8>>, swaps: Seq<usize>, n: u8, p: u8, m: int) -> Seq<usize>
    decreases m,
{
    if m <= 0 {
        Seq::empty()
    } else if lands_at(class[m - 1]@, n, p) {
        vals_upto(class, swaps, n, p, m - 1).push(swaps[m - 1])
    } else {
        vals_upto(class, swaps, n, p, m - 1)
    }
}

/// Swap counts of the permutations of the class whose maximum sits at position `p`.
pub open spec fn vals_at(class: Seq<Vec<u8>>, swaps: Seq<usize>, n: u8, p: u8) -> Seq<usize> {
    vals_upto(class, swaps, n, p, class.len() as int)
}

/// For each position of `positions` (in order) reached by some permutation of
/// the class, the position and the swap polynomial `L^(p)` of those permutations.
pub open spec fn position_polys(class: Seq<Vec<u8>>, swaps: Seq<usize>, n: u8, positions: Seq<u8>) -> Seq<(u8, Seq<i64>)>
    decreases positions.len(),
{
    if positions.len() == 0 {
        Seq::empty()
    } else {
        let prev = position_polys(class, swaps, n, positions.drop_last());
        let p = positions.last();
        let v = vals_at(class, swaps, n, p);
        if v.len() == 0 {
            prev
        } else {
            prev.push((p, histogram(v)))
        }
    }
}

/// Longest second component.
pub open spec fn max_poly_len(pp: Seq<(u8, Seq<i64>)>) -> int
    decreases pp.len(),
{
    if pp.len() == 0 {
        0
    } else if pp.last().1.len() >= max_poly_len(pp.drop_last()) {
        pp.last().1.len() as int
    } else {
        max_poly_len(pp.drop_last())
    }
}

/// `s` padded with zeros to length `m`.
pub open spec fn pad(s: Seq<i64>, m: int) -> Seq<i64> {
    Seq::new(m as nat, |k: int| if k < s.len() { s[k] } else { 0i64 })
}

proof fn lemma_max_poly_len(pp: Seq<(u8, Seq<i64>)>, i: int)
    requires
        0 <= i < pp.len(),
    ensures
        pp[i].1.len() <= max_poly_len(pp),
        max_poly_len(pp) >= 0,
    decreases pp.len(),
{
    if i < pp.len() - 1 {
        lemma_max_poly_len(pp.drop_last(), i);
        assert(pp.drop_last()[i] == pp[i]);
    }
}

/// `v` occurs in `pi`.
pub open spec fn has_value(pi: Seq<u8>, v: u8) -> bool {
    exists|j: int| 0 <= j < pi.len() && pi[j] == v
}

pub(crate) fn first_index_of(pi: &Vec<u8>, v: u8) -> (i: usize)
    requires
        has_value(pi@, v),
    ensures
        first_index(pi@, v, i as int),
        i as int == index_of(pi@, v),
{
    let mut i: usize = 0;
    while i < pi.len()
        invariant
            i <= pi.len(),
            forall|j: int| 0 <= j < i ==> pi@[j] != v,
            exists|j: int| 0 <= j < pi.len() && pi@[j] == v,
        decreases pi.len() - i,
    {
        if pi[i] == v {
            proof {
                assert(first_index(pi@, v, i as int));
                let k = choose|k: int| first_index(pi@, v, k);
                lemma_first_index_unique(pi@, v, i as int, k);
            }
            return i;
        }
        i += 1;
    }
    proof {
        let j = choose|j: int| 0 <= j < pi.len() && pi@[j] == v;
        assert(pi@[j] != v);
    }
    0
}

fn vals_for_position(class: &[Vec<u8>], swaps: &[usize], n: u8, p: u8) -> (vals: Vec<usize>)
    requires
        swaps.len() == class.len(),
        forall|k: int| 0 <= k < class.len() ==> has_value(#[trigger] class@[k]@, n),
    ensures
        vals@ == vals_at(class@, swaps@, n, p),
{
    let mut vals: Vec<usize> = Vec::new();
    let mut k: usize = 0;
    while k < class.len()
        invariant
            k <= class.len(),
            swaps.len() == class.len(),
            forall|k: int| 0 <= k < class.len() ==> has_value(#[trigger] class@[k]@, n),
            vals@ == vals_upto(class@, swaps@, n, p, k as int),
        decreases class.len() - k,
    {
        assert(has_value(class@[k as int]@, n));
        let idx = first_index_of(&class[k], n);
        let len = class[k].len();
        assert(idx < len);
        if (#[verifier::truncate] ((idx + 1) as u8)) == p {
            vals.push(swaps[k]);
        }
        k += 1;
    }
    vals
}

/// Coefficient matrix of `Phi_S(x, t) = sum_p x^p L^(p)(t)` for a class of
/// permutations of `[n]` with their swap counts (`swaps[i]` belongs to
/// `class[i]`): for each position of `positions` reached by the maximum, the
/// position, and the coefficients of `L^(p)` padded with zeros to a common length.
pub fn build_bivariate_coeffs(class: &[Vec<u8>], swaps: &[usize], positions: &[u8], n: u8) -> (r: (
    Vec<u8>,
    Vec<Vec<i64>>,
))
    requires
        swaps.len() == class.len(),
        class.len() <= i64::MAX,
        forall|k: int| 0 <= k < swaps.len() ==> #[trigger] swaps@[k] < usize::MAX,
        forall|k: int| 0 <= k < class.len() ==> has_value(#[trigger] class@[k]@, n),
    ensures
        r.0.len() == position_polys(class@, swaps@, n, positions@).len(),
        r.1.len() == r.0.len(),
        forall|i: int| 0 <= i < r.0.len() ==> #[trigger] r.0@[i] == position_polys(class@, swaps@, n, positions@)[i].0,
        forall|i: int|
            0 <= i < r.1.len() ==> #[trigger] r.1@[i]@ == pad(
                position_polys(class@, swaps@, n, positions@)[i].1,
                max_poly_len(position_polys(class@, swaps@, n, positions@)),
            ),
{
    let mut pos_polys: Vec<(u8, Vec<i64>)> = Vec::new();
    let mut i: usize = 0;
    while i < positions.len()
        invariant
            i <= positions.len(),
            swaps.len() == class.len(),
            class.len() <= i64::MAX,
            forall|k: int| 0 <= k < swaps.len() ==> #[trigger] swaps@[k] < usize::MAX,
            forall|k: int| 0 <= k < class.len() ==> has_value(#[trigger] class@[k]@, n),
            pos_polys.len() == position_polys(class@, swaps@, n, positions@.take(i as int)).len(),
            forall|j: int|
                0 <= j < pos_polys.len() ==> (#[trigger] pos_polys@[j]).0 == position_polys(class@, swaps@, n, positions@.take(i as int))[j].0
                    && pos_polys@[j].1@ == position_polys(class@, swaps@, n, positions@.take(i as int))[j].1,
        decreases positions.len() - i,
    {
        let p = positions[i];
        let vals = vals_for_position(class, swaps, n, p);
        let ghost prev = position_polys(class@, swaps@, n, positions@.take(i as int));
        assert(positions@.take(i + 1).drop_last() =~= positions@.take(i as int));
        assert(positions@.take(i + 1).last() == p);
        proof {
            lemma_vals_bounds(class@, swaps@, n, p, class.len() as int);
        }
        if vals.len() > 0 {
            let poly = build_poly(&vals);
            pos_polys.push((p, poly));
        }
        i += 1;
    }
    assert(positions@.take(positions.len() as int) =~= positions@);
    let ghost pp = position_polys(class@, swaps@, n, positions@);
    let mut used: Vec<u8> = Vec::new();
    let mut max_deg: usize = 0;
    let mut j: usize = 0;
    while j < pos_polys.len()
        invariant
            j <= pos_polys.len(),
            pos_polys.len() == pp.len(),
            forall|j: int| 0 <= j < pos_polys.len() ==> (#[trigger] pos_polys@[j]).0 == pp[j].0 && pos_polys@[j].1@ == pp[j].1,
            used.len() == j,
            forall|k: int| 0 <= k < j ==> #[trigger] used@[k] == pp[k].0,
            max_deg == max_poly_len(pp.take(j as int)),
        decreases pos_polys.len() - j,
    {
        assert(pp.take(j + 1).drop_last() =~= pp.take(j as int));
        used.push(pos_polys[j].0);
        if pos_polys[j].1.len() >= max_deg {
            max_deg = pos_polys[j].1.len();
        }
        j += 1;
    }
    assert(pp.take(j as int) =~= pp);
    let mut coeffs: Vec<Vec<i64>> = Vec::new();
    let mut j: usize = 0;
    while j < pos_polys.len()
        invariant
            j <= pos_polys.len(),
            pos_polys.len() == pp.len(),
            forall|j: int| 0 <= j < pos_polys.len() ==> (#[trigger] pos_polys@[j]).0 == pp[j].0 && pos_polys@[j].1@ == pp[j].1,
            max_deg == max_poly_len(pp),
            coeffs.len() == j,
            forall|k: int| 0 <= k < j ==> #[trigger] coeffs@[k]@ == pad(pp[k].1, max_deg as int),
        decreases pos_polys.len() - j,
    {
        proof {
            lemma_max_poly_len(pp, j as int);
        }
        let src = &pos_polys[j].1;
        let mut row: Vec<i64> = Vec::new();
        let mut k: usize = 0;
        while k < max_deg
            invariant
                k <= max_deg,
                row.len() == k,
                forall|c: int| 0 <= c < k ==> #[trigger] row@[c] == coef(src@, c),
            decreases max_deg - k,
        {
            if k < src.len() {
                row.push(src[k]);
            } else {
                row.push(0);
            }
            k += 1;
        }
        assert(row@ =~= pad(pp[j as int].1, max_deg as int));
        coeffs.push(row);
        j += 1;
    }
    (used, coeffs)
}

proof fn lemma_vals_bounds(class: Seq<Vec<u8>>, swaps: Seq<usize>, n: u8, p: u8, m: int)
    requires
        0 <= m <= class.len(),
        swaps.len() == class.len(),
        forall|k: int| 0 <= k < swaps.len() ==> #[trigger] swaps[k] < usize::MAX,
    ensures
        vals_upto(class, swaps, n, p, m).len() <= m,
        forall|k: int| 0 <= k < vals_upto(class, swaps, n, p, m).len() ==> #[trigger] vals_upto(class, swaps, n, p, m)[k] < usize::MAX,
    decreases m,
{
    if m > 0 {
        lemma_vals_bounds(class, swaps, n, p, m - 1);
    }
}


/// Support points `(p, k)` of row `row` (at position `p`) among its first `m` entries: `row[k] > 0`.
pub open spec fn row_support(p: u8, row: Seq<i64>, m: int) -> Seq<(u8, usize)>
    decreases m,
{
    if m <= 0 {
        Seq::empty()
    } else if row[m - 1] > 0 {
        row_support(p, row, m - 1).push((p, (m - 1) as usize))
    } else {
        row_support(p, row, m - 1)
    }
}

/// Support of `sum_i x^positions[i] sum_k coeffs[i][k] t^k` over the first `i` rows, row by row.
pub open spec fn support_rows(positions: Seq<u8>, coeffs: Seq<Vec<i64>>, i: int) -> Seq<(u8, usize)>
    decreases i,
{
    if i <= 0 {
        Seq::empty()
    } else {
        support_rows(positions, coeffs, i - 1) + row_support(positions[i - 1], coeffs[i - 1]@, coeffs[i - 1]@.len() as int)
    }
}

/// `(p, k)` is a point of the support.
pub open spec fn in_support(sup: Seq<(u8, usize)>, p: int, k: int) -> bool {
    exists|i: int| 0 <= i < sup.len() && sup[i].0 as int == p && sup[i].1 as int == k
}

/// The exchange axiom for the points `x` and `y` of the plane: where `x` exceeds
/// `y` in one coordinate, it falls short of `y` in the other, and moving one unit
/// from the first coordinate to the second in `x` (and back in `y`) stays in the support.
pub open spec fn exchange_holds(sup: Seq<(u8, usize)>, x: (u8, usize), y: (u8, usize)) -> bool {
    &&& x.0 > y.0 ==> x.1 < y.1 && in_support(sup, x.0 - 1, x.1 + 1) && in_support(sup, y.0 + 1, y.1 - 1)
    &&& x.1 > y.1 ==> x.0 < y.0 && in_support(sup, x.0 + 1, x.1 - 1) && in_support(sup, y.0 - 1, y.1 + 1)
}

/// The support is M-convex: the exchange axiom holds for every ordered pair of its points.
pub open spec fn m_convex(sup: Seq<(u8, usize)>) -> bool {
    forall|a: int, b: int| 0 <= a < sup.len() && 0 <= b < sup.len() ==> #[trigger] exchange_holds(sup, sup[a], sup[b])
}

fn has_point(sup: &Vec<(u8, usize)>, p: u8, k: usize) -> (r: bool)
    ensures
        r == in_support(sup@, p as int, k as int),
{
    let mut i: usize = 0;
    while i < sup.len()
        invariant
            i <= sup.len(),
            forall|j: int| 0 <= j < i ==> !(sup@[j].0 == p && sup@[j].1 == k),
        decreases sup.len() - i,
    {
        if sup[i].0 == p && sup[i].1 == k {
            return true;
        }
        i += 1;
    }
    false
}

fn exchange_at(sup: &Vec<(u8, usize)>, x: (u8, usize), y: (u8, usize)) -> (r: bool)
    ensures
        r == exchange_holds(sup@, x, y),
{
    if x.0 > y.0 {
        if !(x.1 < y.1) {
            return false;
        }
        if !has_point(sup, x.0 - 1, x.1 + 1) || !has_point(sup, y.0 + 1, y.1 - 1) {
            return false;
        }
    }
    if x.1 > y.1 {
        if !(x.0 < y.0) {
            return false;
        }
        if !has_point(sup, x.0 + 1, x.1 - 1) || !has_point(sup, y.0 - 1, y.1 + 1) {
            return false;
        }
    }
    true
}

/// Support of `Phi_S` (the pairs `(p, k)` with a positive coefficient of
/// `x^p t^k`, row by row) and whether it is M-convex (the exchange axiom).
pub fn check_newton_polygon(positions: &[u8], coeffs: &[Vec<i64>]) -> (r: (Vec<(u8, usize)>, bool))
    requires
        positions.len() <= coeffs.len(),
    ensures
        r.0@ == support_rows(positions@, coeffs@, positions.len() as int),
        r.1 == m_convex(r.0@),
{
    let mut support: Vec<(u8, usize)> = Vec::new();
    let mut i: usize = 0;
    while i < positions.len()
        invariant
            i <= positions.len(),
            positions.len() <= coeffs.len(),
            support@ == support_rows(positions@, coeffs@, i as int),
        decreases positions.len() - i,
    {
        let p = positions[i];
        let row = &coeffs[i];
        let ghost before = support@;
        let mut k: usize = 0;
        while k < row.len()
            invariant
                k <= row.len(),
                support@ == before + row_support(p, row@, k as int),
            decreases row.len() - k,
        {
            if row[k] > 0 {
                support.push((p, k));
            }
            k += 1;
        }
        i += 1;
    }
    let mut a: usize = 0;
    while a < support.len()
        invariant
            a <= support.len(),
            support@ == support_rows(positions@, coeffs@, positions.len() as int),
            forall|x: int, y: int| 0 <= x < a && 0 <= y < support.len() ==> #[trigger] exchange_holds(support@, support@[x], support@[y]),
        decreases support.len() - a,
    {
        let mut b: usize = 0;
        while b < support.len()
            invariant
                a < support.len(),
                b <= support.len(),
                support@ == support_rows(positions@, coeffs@, positions.len() as int),
                forall|x: int, y: int| 0 <= x < a && 0 <= y < support.len() ==> #[trigger] exchange_holds(support@, support@[x], support@[y]),
                forall|y: int| 0 <= y < b ==> #[trigger] exchange_holds(support@, support@[a as int], support@[y]),
            decreases support.len() - b,
        {
            if !exchange_at(&support, support[a], support[b]) {
                return (support, false);
            }
            b += 1;
        }
        a += 1;
    }
    (support, true)
}

} // verus!
