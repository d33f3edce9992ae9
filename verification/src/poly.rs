//! Polynomials in one variable `t` with `i64` coefficients, stored as
//! coefficient vectors (index `k` holds the coefficient of `t^k`).
//!
//! A vector is *trimmed* when it has no trailing zero beyond the constant
//! term; the zero polynomial is then `[0]`.
use vstd::prelude::*;

verus! {

/// Coefficient of `t^k` in the vector `p`, zero beyond its length.
pub open spec fn coef(p: Seq<i64>, k: int) -> int {
    if 0 <= k < p.len() {
        p[k] as int
    } else {
        0
    }
}

/// Two coefficient vectors denote the same polynomial.
pub open spec fn same_poly(a: Seq<i64>, b: Seq<i64>) -> bool {
    forall|k: int| #[trigger] coef(a, k) == coef(b, k)
}

/// No trailing zero coefficient except possibly a lone constant term.
pub open spec fn is_trimmed(p: Seq<i64>) -> bool {
    p.len() <= 1 || p.last() != 0
}

/// All stored coefficients are zero.
pub open spec fn all_zero(p: Seq<i64>) -> bool {
    forall|i: int| 0 <= i < p.len() ==> p[i] == 0
}

/// Remove trailing zeros while more than one coefficient remains.
pub open spec fn strip(p: Seq<i64>) -> Seq<i64>
    decreases p.len(),
{
    if p.len() > 1 && p.last() == 0 {
        strip(p.drop_last())
    } else {
        p
    }
}

/// The value of an integer fits in an `i64`.
pub open spec fn fits_i64(x: int) -> bool {
    i64::MIN <= x <= i64::MAX
}

pub open spec fn max_len(a: Seq<i64>, b: Seq<i64>) -> nat {
    if a.len() >= b.len() {
        a.len()
    } else {
        b.len()
    }
}

/// Coefficientwise sum `a + b`, as long as the longer operand.
pub open spec fn seq_sum(a: Seq<i64>, b: Seq<i64>) -> Seq<i64> {
    Seq::new(max_len(a, b), |i: int| (coef(a, i) + coef(b, i)) as i64)
}

/// Coefficientwise difference `a - b`, as long as the longer operand.
pub open spec fn seq_diff(a: Seq<i64>, b: Seq<i64>) -> Seq<i64> {
    Seq::new(max_len(a, b), |i: int| (coef(a, i) - coef(b, i)) as i64)
}

/// Every coefficient of `a + b` fits in an `i64`.
pub open spec fn sum_fits(a: Seq<i64>, b: Seq<i64>) -> bool {
    forall|k: int| #[trigger] fits_i64(coef(a, k) + coef(b, k))
}

/// Every coefficient of `a - b` fits in an `i64`.
pub open spec fn diff_fits(a: Seq<i64>, b: Seq<i64>) -> bool {
    forall|k: int| #[trigger] fits_i64(coef(a, k) - coef(b, k))
}

/// `t^k * p` as a coefficient vector of length `p.len() + k`.
pub open spec fn seq_shift(p: Seq<i64>, k: nat) -> Seq<i64> {
    Seq::new(p.len() + k, |i: int| coef(p, i - k) as i64)
}

/// Number of occurrences of `v` in `s`.
pub open spec fn count_of(s: Seq<usize>, v: int) -> nat
    decreases s.len(),
{
    if s.len() == 0 {
        0
    } else {
        count_of(s.drop_last(), v) + if s.last() as int == v {
            1nat
        } else {
            0nat
        }
    }
}

/// Largest entry of a non-empty sequence.
pub open spec fn seq_max(s: Seq<usize>) -> int
    decreases s.len(),
{
    if s.len() <= 1 {
        if s.len() == 1 {
            s[0] as int
        } else {
            0
        }
    } else if s.last() as int >= seq_max(s.drop_last()) {
        s.last() as int
    } else {
        seq_max(s.drop_last())
    }
}

/// `p[i] + p[i+1] + ... + p[len-1]`; at `i = 0` this is the value at `t = 1`.
pub open spec fn suffix_sum(p: Seq<i64>, i: int) -> int
    decreases p.len() - i,
{
    if i < 0 || i >= p.len() {
        0
    } else {
        p[i] + suffix_sum(p, i + 1)
    }
}

/// `sum_{i < m} a[i] * b[k - i]`: the part of the coefficient of `t^k` in
/// `a * b` contributed by the first `m` coefficients of `a`.
pub open spec fn conv_upto(a: Seq<i64>, b: Seq<i64>, k: int, m: int) -> int
    decreases m,
{
    if m <= 0 {
        0
    } else {
        conv_upto(a, b, k, m - 1) + coef(a, m - 1) * coef(b, k - (m - 1))
    }
}

/// Coefficient of `t^k` in the product `a * b`.
pub open spec fn conv(a: Seq<i64>, b: Seq<i64>, k: int) -> int {
    conv_upto(a, b, k, a.len() as int)
}

/// Every product `a[i] * b[j]` and every running sum formed while
/// accumulating the coefficient of `t^(i+j)`, row by row of `a`, fits in an `i64`.
pub open spec fn mul_fits(a: Seq<i64>, b: Seq<i64>) -> bool {
    forall|i: int, j: int|
        0 <= i < a.len() && 0 <= j < b.len() ==> fits_i64(#[trigger] coef(a, i) * #[trigger] coef(b, j))
            && fits_i64(conv_upto(a, b, i + j, i + 1))
}

/// Histogram of `vals`: entry `k` counts the occurrences of `k`, up to the largest value.
pub open spec fn histogram(vals: Seq<usize>) -> Seq<i64> {
    Seq::new((seq_max(vals) + 1) as nat, |k: int| count_of(vals, k) as i64)
}

/// `d` is the degree of `p`: the last index holding a nonzero coefficient,
/// or `None` when every coefficient is zero.
pub open spec fn is_degree(p: Seq<i64>, d: Option<usize>) -> bool {
    match d {
        Some(k) => k < p.len() && p[k as int] != 0 && forall|j: int| k < j < p.len() ==> p[j] == 0,
        None => all_zero(p),
    }
}

pub proof fn lemma_strip(p: Seq<i64>)
    ensures
        is_trimmed(strip(p)),
        strip(p).len() <= p.len(),
        p.len() >= 1 ==> strip(p).len() >= 1,
        p.len() == 0 ==> strip(p) == p,
        same_poly(strip(p), p),
        strip(p) =~= p.subrange(0, strip(p).len() as int),
        forall|j: int| strip(p).len() <= j < p.len() ==> p[j] == 0,
    decreases p.len(),
{
    if p.len() > 1 && p.last() == 0 {
        lemma_strip(p.drop_last());
        assert forall|k: int| #[trigger] coef(strip(p), k) == coef(p, k) by {
            assert(coef(strip(p.drop_last()), k) == coef(p.drop_last(), k));
        }
        assert forall|j: int| strip(p).len() <= j < p.len() implies p[j] == 0 by {
            if j < p.len() - 1 {
                assert(p.drop_last()[j] == p[j]);
            }
        }
    }
}

/// A trimmed vector is its own strip.
pub proof fn lemma_strip_trimmed(p: Seq<i64>)
    requires
        is_trimmed(p),
    ensures
        strip(p) == p,
{
}

pub proof fn lemma_seq_sum_coef(a: Seq<i64>, b: Seq<i64>)
    requires
        sum_fits(a, b),
    ensures
        forall|k: int| #[trigger] coef(seq_sum(a, b), k) == coef(a, k) + coef(b, k),
{
    assert forall|k: int| #[trigger] coef(seq_sum(a, b), k) == coef(a, k) + coef(b, k) by {
        assert(fits_i64(coef(a, k) + coef(b, k)));
    }
}

pub proof fn lemma_seq_diff_coef(a: Seq<i64>, b: Seq<i64>)
    requires
        diff_fits(a, b),
    ensures
        forall|k: int| #[trigger] coef(seq_diff(a, b), k) == coef(a, k) - coef(b, k),
{
    assert forall|k: int| #[trigger] coef(seq_diff(a, b), k) == coef(a, k) - coef(b, k) by {
        assert(fits_i64(coef(a, k) - coef(b, k)));
    }
}

/// Remove trailing zeros in place, keeping at least one entry.
pub fn trim_in_place(v: &mut Vec<i64>)
    ensures
        final(v)@ == strip(old(v)@),
{
    while v.len() > 1 && v[v.len() - 1] == 0
        invariant
            strip(v@) == strip(old(v)@),
        decreases v.len(),
    {
        let ghost before = v@;
        v.pop();
        assert(v@ == before.drop_last());
    }
}

/// Copy of `p` with trailing zeros removed; the empty vector stays empty.
pub fn trim(p: &[i64]) -> (r: Vec<i64>)
    ensures
        r@ == strip(p@),
{
    let mut v = vstd::slice::slice_to_vec(p);
    trim_in_place(&mut v);
    v
}

/// Coefficient of `t^k`, zero beyond the stored length.
pub fn coeff(poly: &[i64], k: usize) -> (c: i64)
    ensures
        c == coef(poly@, k as int),
{
    if k < poly.len() {
        poly[k]
    } else {
        0
    }
}

/// Whether every stored coefficient is zero.
pub fn poly_is_zero(a: &[i64]) -> (z: bool)
    ensures
        z == all_zero(a@),
{
    let mut i: usize = 0;
    while i < a.len()
        invariant
            i <= a.len(),
            forall|j: int| 0 <= j < i ==> a@[j] == 0,
        decreases a.len() - i,
    {
        if a[i] != 0 {
            return false;
        }
        i += 1;
    }
    true
}

/// Same test as [`poly_is_zero`], under the name used by the chain experiments.
pub fn is_zero_poly(f: &[i64]) -> (z: bool)
    ensures
        z == all_zero(f@),
{
    poly_is_zero(f)
}

/// Index of the last nonzero coefficient, or `None` for the zero polynomial.
pub fn poly_degree(a: &[i64]) -> (d: Option<usize>)
    ensures
        is_degree(a@, d),
{
    let mut i = a.len();
    while i > 0
        invariant
            i <= a.len(),
            forall|j: int| i <= j < a.len() ==> a@[j] == 0,
        decreases i,
    {
        if a[i - 1] != 0 {
            let d = i - 1;
            return Some(d);
        }
        i -= 1;
    }
    None
}

/// Degree, under the name used by the induction experiment.
pub fn poly_deg(f: &[i64]) -> (d: Option<usize>)
    ensures
        is_degree(f@, d),
{
    poly_degree(f)
}

/// `a + b`, trimmed.
pub fn poly_add(a: &[i64], b: &[i64]) -> (r: Vec<i64>)
    requires
        sum_fits(a@, b@),
    ensures
        r@ == strip(seq_sum(a@, b@)),
        forall|k: int| #[trigger] coef(r@, k) == coef(a@, k) + coef(b@, k),
        is_trimmed(r@),
{
    let len = if a.len() >= b.len() {
        a.len()
    } else {
        b.len()
    };
    let mut r: Vec<i64> = vec![0i64; len];
    for i in 0..a.len()
        invariant
            len == max_len(a@, b@),
            r.len() == len,
            forall|j: int| 0 <= j < len ==> r@[j] == if j < i { coef(a@, j) } else { 0 },
    {
        r.set(i, a[i]);
    }
    for i in 0..b.len()
        invariant
            len == max_len(a@, b@),
            r.len() == len,
            sum_fits(a@, b@),
            forall|j: int|
                0 <= j < len ==> r@[j] == coef(a@, j) + if j < i { coef(b@, j) } else { 0 },
    {
        assert(fits_i64(coef(a@, i as int) + coef(b@, i as int)));
        let v = r[i] + b[i];
        r.set(i, v);
    }
    assert(r@ =~= seq_sum(a@, b@));
    trim_in_place(&mut r);
    proof {
        lemma_strip(seq_sum(a@, b@));
        lemma_seq_sum_coef(a@, b@);
    }
    r
}

/// `a - b`, trimmed.
pub fn poly_sub(a: &[i64], b: &[i64]) -> (r: Vec<i64>)
    requires
        diff_fits(a@, b@),
    ensures
        r@ == strip(seq_diff(a@, b@)),
        forall|k: int| #[trigger] coef(r@, k) == coef(a@, k) - coef(b@, k),
        is_trimmed(r@),
{
    let len = if a.len() >= b.len() {
        a.len()
    } else {
        b.len()
    };
    let mut r: Vec<i64> = vec![0i64; len];
    for i in 0..a.len()
        invariant
            len == max_len(a@, b@),
            r.len() == len,
            forall|j: int| 0 <= j < len ==> r@[j] == if j < i { coef(a@, j) } else { 0 },
    {
        r.set(i, a[i]);
    }
    for i in 0..b.len()
        invariant
            len == max_len(a@, b@),
            r.len() == len,
            diff_fits(a@, b@),
            forall|j: int|
                0 <= j < len ==> r@[j] == coef(a@, j) - if j < i { coef(b@, j) } else { 0 },
    {
        assert(fits_i64(coef(a@, i as int) - coef(b@, i as int)));
        let v = r[i] - b[i];
        r.set(i, v);
    }
    assert(r@ =~= seq_diff(a@, b@));
    trim_in_place(&mut r);
    proof {
        lemma_strip(seq_diff(a@, b@));
        lemma_seq_diff_coef(a@, b@);
    }
    r
}

/// `t * p`, untrimmed: the result is one entry longer than `p`.
pub fn poly_mul_t(p: &[i64]) -> (r: Vec<i64>)
    requires
        p.len() < usize::MAX,
    ensures
        r@ == seq_shift(p@, 1),
        forall|k: int| #[trigger] coef(r@, k) == coef(p@, k - 1),
{
    let mut r: Vec<i64> = vec![0i64; p.len() + 1];
    for i in 0..p.len()
        invariant
            r.len() == p.len() + 1,
            forall|j: int|
                0 <= j < r.len() ==> r@[j] == if 1 <= j <= i { p@[j - 1] } else { 0 },
    {
        r.set(i + 1, p[i]);
    }
    assert(r@ =~= seq_shift(p@, 1));
    r
}

/// `t^k * a`, trimmed.
pub fn poly_shift(a: &[i64], k: usize) -> (r: Vec<i64>)
    requires
        a.len() + k <= usize::MAX,
    ensures
        r@ == strip(seq_shift(a@, k as nat)),
        forall|j: int| #[trigger] coef(r@, j) == coef(a@, j - k),
{
    let mut r: Vec<i64> = vec![0i64; a.len() + k];
    for i in 0..a.len()
        invariant
            r.len() == a.len() + k,
            forall|j: int|
                0 <= j < r.len() ==> r@[j] == if k <= j < i + k { a@[j - k] } else { 0 },
    {
        r.set(i + k, a[i]);
    }
    assert(r@ =~= seq_shift(a@, k as nat));
    trim_in_place(&mut r);
    proof {
        lemma_strip(seq_shift(a@, k as nat));
        assert forall|j: int| #[trigger] coef(r@, j) == coef(a@, j - k) by {
            assert(coef(r@, j) == coef(seq_shift(a@, k as nat), j));
        }
    }
    r
}

/// `s * a`, trimmed; the empty input gives `[0]`.
pub fn poly_scale(a: &[i64], s: i64) -> (r: Vec<i64>)
    requires
        forall|i: int| 0 <= i < a.len() ==> #[trigger] fits_i64(a@[i] * s),
    ensures
        a.len() == 0 ==> r@ == seq![0i64],
        a.len() > 0 ==> r@ == strip(Seq::new(a.len() as nat, |i: int| (a@[i] * s) as i64)),
        forall|k: int| #[trigger] coef(r@, k) == coef(a@, k) * s,
{
    let mut r: Vec<i64> = Vec::new();
    for i in 0..a.len()
        invariant
            r.len() == i,
            forall|i: int| 0 <= i < a.len() ==> #[trigger] fits_i64(a@[i] * s),
            forall|j: int| 0 <= j < i ==> r@[j] == a@[j] * s,
    {
        assert(fits_i64(a@[i as int] * s));
        r.push(a[i] * s);
    }
    let ghost full = r@;
    assert(full =~= Seq::new(a.len() as nat, |i: int| (a@[i] * s) as i64));
    trim_in_place(&mut r);
    if r.len() == 0 {
        r.push(0);
        assert(r@ =~= seq![0i64]);
    }
    proof {
        lemma_strip(full);
        assert forall|k: int| #[trigger] coef(r@, k) == coef(a@, k) * s by {
            if a.len() > 0 {
                assert(coef(r@, k) == coef(full, k));
            }
        }
    }
    r
}

pub proof fn lemma_conv_zero_outside(a: Seq<i64>, b: Seq<i64>, k: int, m: int)
    requires
        k < 0 || k >= a.len() + b.len() - 1,
        m <= a.len(),
    ensures
        conv_upto(a, b, k, m) == 0,
    decreases m,
{
    if m > 0 {
        lemma_conv_zero_outside(a, b, k, m - 1);
        assert(coef(a, m - 1) == 0 || coef(b, k - (m - 1)) == 0);
        assert(coef(a, m - 1) * coef(b, k - (m - 1)) == 0) by (nonlinear_arith)
            requires
                coef(a, m - 1) == 0 || coef(b, k - (m - 1)) == 0,
        ;
    }
}

/// Product `a * b`, trimmed; an empty operand gives `[0]`.
pub fn poly_mul(a: &[i64], b: &[i64]) -> (r: Vec<i64>)
    requires
        mul_fits(a@, b@),
        a.len() + b.len() <= usize::MAX,
    ensures
        a.len() == 0 || b.len() == 0 ==> r@ == seq![0i64],
        a.len() > 0 && b.len() > 0 ==> r@ == strip(
            Seq::new((a.len() + b.len() - 1) as nat, |k: int| conv(a@, b@, k) as i64),
        ),
        a.len() > 0 && b.len() > 0 ==> forall|k: int| #[trigger] coef(r@, k) == conv(a@, b@, k),
        is_trimmed(r@),
        r.len() >= 1,
        r.len() <= if a.len() == 0 || b.len() == 0 {
            1
        } else {
            a.len() + b.len() - 1
        },
{
    if a.len() == 0 || b.len() == 0 {
        return vec![0i64];
    }
    let len = a.len() + b.len() - 1;
    let mut r: Vec<i64> = vec![0i64; len];
    for i in 0..a.len()
        invariant
            len == a.len() + b.len() - 1,
            r.len() == len,
            mul_fits(a@, b@),
            forall|k: int| 0 <= k < len ==> r@[k] == conv_upto(a@, b@, k, i as int),
    {
        for j in 0..b.len()
            invariant
                0 <= i < a.len(),
                len == a.len() + b.len() - 1,
                r.len() == len,
                mul_fits(a@, b@),
                forall|k: int|
                    0 <= k < len ==> r@[k] == if i <= k < i + j {
                        conv_upto(a@, b@, k, i + 1)
                    } else {
                        conv_upto(a@, b@, k, i as int)
                    },
        {
            assert(fits_i64(coef(a@, i as int) * coef(b@, j as int)));
            assert(fits_i64(conv_upto(a@, b@, i + j, i + 1)));
            let prod = a[i] * b[j];
            let v = r[i + j] + prod;
            r.set(i + j, v);
        }
        assert forall|k: int| 0 <= k < len implies r@[k] == conv_upto(a@, b@, k, i + 1) by {
            if !(i <= k < i + b.len()) {
                assert(coef(b@, k - i) == 0);
            }
        }
    }
    let ghost full = r@;
    assert(full =~= Seq::new((a.len() + b.len() - 1) as nat, |k: int| conv(a@, b@, k) as i64));
    trim_in_place(&mut r);
    proof {
        lemma_strip(full);
        assert forall|k: int| #[trigger] coef(r@, k) == conv(a@, b@, k) by {
            assert(coef(r@, k) == coef(full, k));
            if k < 0 || k >= len {
                lemma_conv_zero_outside(a@, b@, k, a.len() as int);
            }
        }
    }
    r
}

pub proof fn lemma_count_le(s: Seq<usize>, v: int)
    ensures
        count_of(s, v) <= s.len(),
    decreases s.len(),
{
    if s.len() > 0 {
        lemma_count_le(s.drop_last(), v);
    }
}

pub proof fn lemma_seq_max(s: Seq<usize>)
    requires
        s.len() >= 1,
    ensures
        forall|i: int| 0 <= i < s.len() ==> s[i] <= seq_max(s),
        count_of(s, seq_max(s)) >= 1,
    decreases s.len(),
{
    if s.len() > 1 {
        lemma_seq_max(s.drop_last());
        assert forall|i: int| 0 <= i < s.len() implies s[i] <= seq_max(s) by {
            if i < s.len() - 1 {
                assert(s.drop_last()[i] == s[i]);
            }
        }
        if (s.last() as int) < seq_max(s.drop_last()) {
            assert(count_of(s.drop_last(), seq_max(s.drop_last())) >= 1);
        }
    } else {
        assert(s.drop_last().len() == 0);
    }
}

/// Largest entry of a non-empty slice of values.
fn max_value(vals: &[usize]) -> (m: usize)
    requires
        vals.len() >= 1,
    ensures
        m == seq_max(vals@),
{
    let mut m = vals[0];
    let mut i: usize = 1;
    while i < vals.len()
        invariant
            1 <= i <= vals.len(),
            m == seq_max(vals@.take(i as int)),
        decreases vals.len() - i,
    {
        assert(vals@.take(i as int + 1).drop_last() =~= vals@.take(i as int));
        if vals[i] > m {
            m = vals[i];
        }
        i += 1;
    }
    assert(vals@.take(i as int) =~= vals@);
    m
}

/// Generating polynomial of a list of statistic values: the coefficient of
/// `t^k` is the number of entries equal to `k`. The empty list gives `[0]`.
pub fn build_poly(vals: &[usize]) -> (r: Vec<i64>)
    requires
        vals.len() <= i64::MAX,
        forall|i: int| 0 <= i < vals.len() ==> vals@[i] < usize::MAX,
    ensures
        vals.len() == 0 ==> r@ == seq![0i64],
        vals.len() > 0 ==> r@ == histogram(vals@),
        forall|k: int| 0 <= k ==> #[trigger] coef(r@, k) == count_of(vals@, k),
        is_trimmed(r@),
        r.len() >= 1,
{
    if vals.len() == 0 {
        proof {
            assert forall|k: int| 0 <= k implies #[trigger] coef(seq![0i64], k) == count_of(vals@, k) by {}
        }
        return vec![0i64];
    }
    let max_s = max_value(vals);
    proof {
        lemma_seq_max(vals@);
        lemma_count_pos(vals@, seq_max(vals@));
    }
    let mut coeffs: Vec<i64> = vec![0i64; max_s + 1];
    for idx in 0..vals.len()
        invariant
            coeffs.len() == max_s + 1,
            max_s == seq_max(vals@),
            vals.len() <= i64::MAX,
            forall|i: int| 0 <= i < vals.len() ==> vals@[i] <= seq_max(vals@),
            forall|k: int| 0 <= k <= max_s ==> coeffs@[k] == count_of(vals@.take(idx as int), k),
    {
        let v = vals[idx];
        assert(vals@.take(idx as int + 1).drop_last() =~= vals@.take(idx as int));
        proof {
            lemma_count_le(vals@.take(idx as int), v as int);
        }
        let c = coeffs[v] + 1;
        coeffs.set(v, c);
    }
    assert(vals@.take(vals.len() as int) =~= vals@);
    assert(coeffs@ =~= histogram(vals@));
    proof {
        assert(is_trimmed(coeffs@));
        lemma_strip_trimmed(coeffs@);
        assert forall|k: int| 0 <= k implies #[trigger] coef(coeffs@, k) == count_of(vals@, k) by {
            if k > max_s {
                if count_of(vals@, k) > 0 {
                    lemma_count_pos(vals@, k);
                }
            }
        }
    }
    trim_in_place(&mut coeffs);
    coeffs
}

/// The histogram holds the number of occurrences of every value.
pub proof fn lemma_histogram_coef(vals: Seq<usize>, k: int)
    requires
        vals.len() >= 1,
        vals.len() <= i64::MAX,
        0 <= k,
    ensures
        coef(histogram(vals), k) == count_of(vals, k),
{
    lemma_seq_max(vals);
    lemma_count_le(vals, k);
    if k > seq_max(vals) && count_of(vals, k) > 0 {
        lemma_count_pos(vals, k);
        let i = choose|i: int| 0 <= i < vals.len() && vals[i] == k;
        assert(vals[i] <= seq_max(vals));
    }
}

/// Appending `v` adds one occurrence of `v`.
pub proof fn lemma_count_push(s: Seq<usize>, v: usize, k: int)
    ensures
        count_of(s.push(v), k) == count_of(s, k) + if v as int == k {
            1int
        } else {
            0int
        },
{
    assert(s.push(v).drop_last() =~= s);
}

pub proof fn lemma_count_pos(s: Seq<usize>, v: int)
    requires
        count_of(s, v) > 0,
    ensures
        exists|i: int| 0 <= i < s.len() && s[i] == v,
    decreases s.len(),
{
    if s.last() as int == v {
        assert(s[s.len() - 1] == v);
    } else {
        lemma_count_pos(s.drop_last(), v);
        let i = choose|i: int| 0 <= i < s.drop_last().len() && s.drop_last()[i] == v;
        assert(s[i] == v);
    }
}

/// Generating polynomial of the statistic values (same as [`build_poly`]).
pub fn build_poly_from_vals(vals: &[usize]) -> (r: Vec<i64>)
    requires
        vals.len() <= i64::MAX,
        forall|i: int| 0 <= i < vals.len() ==> vals@[i] < usize::MAX,
    ensures
        vals.len() == 0 ==> r@ == seq![0i64],
        vals.len() > 0 ==> r@ == histogram(vals@),
{
    build_poly(vals)
}

/// Running suffix sums of `p` fit in `i64` and the division step never negates `i64::MIN`.
pub open spec fn div_fits(p: Seq<i64>) -> bool {
    &&& forall|i: int| 0 <= i < p.len() ==> #[trigger] fits_i64(suffix_sum(p, i))
    &&& forall|i: int| 1 <= i < p.len() ==> #[trigger] suffix_sum(p, i) != i64::MIN
}

/// Quotient of `p` by `t - 1` when the division is exact: coefficient `i`
/// of the quotient is `p[i+1] + ... + p[len-1]`.
pub open spec fn quotient_by_t_minus_1(p: Seq<i64>) -> Seq<i64> {
    Seq::new((p.len() - 1) as nat, |i: int| suffix_sum(p, i + 1) as i64)
}

pub proof fn lemma_suffix_step(p: Seq<i64>, i: int)
    requires
        0 <= i < p.len(),
    ensures
        suffix_sum(p, i) == p[i] + suffix_sum(p, i + 1),
{
}

/// Exact division by `t - 1`. Returns `None` when `t - 1` does not divide `p`,
/// which happens exactly when `p` has degree at least one in storage and its
/// coefficients do not sum to zero, or when `p` is a nonzero constant.
pub fn div_by_t_minus_1(p: &[i64]) -> (r: Option<Vec<i64>>)
    requires
        div_fits(p@),
    ensures
        (p.len() == 0 || (p.len() == 1 && p@[0] == 0)) ==> r.is_some() && r.unwrap()@ == seq![0i64],
        p.len() == 1 && p@[0] != 0 ==> r.is_none(),
        p.len() >= 2 ==> (r.is_some() <==> suffix_sum(p@, 0) == 0),
        p.len() >= 2 && r.is_some() ==> r.unwrap()@ == strip(quotient_by_t_minus_1(p@)),
        p.len() >= 2 && r.is_some() ==> forall|k: int|
            #[trigger] coef(p@, k) == coef(r.unwrap()@, k - 1) - coef(r.unwrap()@, k),
{
    if p.len() == 0 || (p.len() == 1 && p[0] == 0) {
        return Some(vec![0i64]);
    }
    let n = p.len();
    if n < 2 {
        return None;
    }
    let mut rem = vstd::slice::slice_to_vec(p);
    let mut quotient: Vec<i64> = vec![0i64; n - 1];
    let mut i = n - 1;
    assert(suffix_sum(p@, n as int) == 0);
    assert(suffix_sum(p@, i as int) == p@[i as int] + suffix_sum(p@, n as int));
    while i >= 1
        invariant
            0 <= i < n,
            n == p.len(),
            rem.len() == n,
            quotient.len() == n - 1,
            div_fits(p@),
            forall|j: int| 0 <= j < i ==> rem@[j] == p@[j],
            rem@[i as int] == suffix_sum(p@, i as int),
            forall|j: int| i < j < n ==> rem@[j] == 0,
            forall|j: int|
                0 <= j < n - 1 ==> quotient@[j] == if j >= i { suffix_sum(p@, j + 1) } else { 0 },
        decreases i,
    {
        let q = rem[i];
        assert(q == suffix_sum(p@, i as int));
        assert(rem@[i - 1] == p@[i - 1]);
        quotient.set(i - 1, q);
        rem.set(i, rem[i] - q * 1);
        proof {
            lemma_suffix_step(p@, i - 1);
            assert(fits_i64(suffix_sum(p@, i - 1)));
            assert(suffix_sum(p@, i as int) != i64::MIN);
        }
        let neg = q * (-1);
        rem.set(i - 1, rem[i - 1] - neg);
        i -= 1;
    }
    if rem[0] != 0 {
        return None;
    }
    let ghost full = quotient@;
    assert(full =~= quotient_by_t_minus_1(p@));
    trim_in_place(&mut quotient);
    proof {
        lemma_strip(full);
        assert forall|k: int| #[trigger] coef(p@, k) == coef(quotient@, k - 1) - coef(quotient@, k) by {
            assert(coef(quotient@, k - 1) == coef(full, k - 1));
            assert(coef(quotient@, k) == coef(full, k));
            if 0 <= k < n {
                lemma_suffix_step(p@, k);
            }
        }
    }
    Some(quotient)
}

/// The polynomial `t - 1`.
pub open spec fn t_minus_1() -> Seq<i64> {
    seq![-1i64, 1i64]
}

proof fn lemma_conv_t_minus_1(q: Seq<i64>, k: int, m: int)
    requires
        0 <= m <= q.len(),
    ensures
        conv_upto(q, t_minus_1(), k, m) == (if 0 <= k - 1 < m {
            q[k - 1] as int
        } else {
            0
        }) - (if 0 <= k < m {
            q[k] as int
        } else {
            0
        }),
    decreases m,
{
    if m > 0 {
        lemma_conv_t_minus_1(q, k, m - 1);
        let b = t_minus_1();
        let i = m - 1;
        if k - i == 0 {
            assert(coef(b, k - i) == -1);
            assert(coef(q, i) * coef(b, k - i) == -(q[i] as int)) by (nonlinear_arith)
                requires
                    coef(q, i) == q[i] as int,
                    coef(b, k - i) == -1,
            ;
        } else if k - i == 1 {
            assert(coef(b, k - i) == 1);
            assert(coef(q, i) * coef(b, k - i) == q[i] as int) by (nonlinear_arith)
                requires
                    coef(q, i) == q[i] as int,
                    coef(b, k - i) == 1,
            ;
        } else {
            assert(coef(b, k - i) == 0);
            assert(coef(q, i) * coef(b, k - i) == 0) by (nonlinear_arith)
                requires
                    coef(b, k - i) == 0,
            ;
        }
    }
}

/// Exact division by `t - 1` is undone by multiplication: when the coefficients
/// of `p` sum to zero, the quotient `q` returned by [`div_by_t_minus_1`] satisfies
/// `q * (t - 1) = p`, coefficient by coefficient (as computed by [`poly_mul`]).
pub proof fn lemma_div_by_t_minus_1_product(p: Seq<i64>)
    requires
        div_fits(p),
        p.len() >= 2,
        suffix_sum(p, 0) == 0,
    ensures
        forall|k: int| #[trigger] conv(strip(quotient_by_t_minus_1(p)), t_minus_1(), k) == coef(p, k),
{
    let full = quotient_by_t_minus_1(p);
    let q = strip(full);
    lemma_strip(full);
    assert forall|k: int| #[trigger] conv(q, t_minus_1(), k) == coef(p, k) by {
        lemma_conv_t_minus_1(q, k, q.len() as int);
        assert(coef(q, k - 1) == coef(full, k - 1));
        assert(coef(q, k) == coef(full, k));
        if 0 <= k < p.len() {
            lemma_suffix_step(p, k);
            if k + 1 < p.len() {
                assert(fits_i64(suffix_sum(p, k + 1)));
            }
            if k >= 1 {
                assert(fits_i64(suffix_sum(p, k)));
            }
        }
    }
}

/// `sum_{lo <= j < hi} [t^k] ps[j]`.
pub open spec fn sum_range(ps: Seq<Vec<i64>>, lo: int, hi: int, k: int) -> int
    decreases hi - lo,
{
    if hi <= lo {
        0
    } else {
        sum_range(ps, lo, hi - 1, k) + coef(ps[hi - 1]@, k)
    }
}

/// `sum_{lo <= j < hi} [t^k] ps[j]`, accumulated from the top index down.
pub open spec fn sum_range_rev(ps: Seq<Vec<i64>>, lo: int, hi: int, k: int) -> int
    decreases hi - lo,
{
    if hi <= lo {
        0
    } else {
        coef(ps[lo]@, k) + sum_range_rev(ps, lo + 1, hi, k)
    }
}

pub proof fn lemma_sum_range_rev(ps: Seq<Vec<i64>>, lo: int, hi: int, k: int)
    ensures
        sum_range_rev(ps, lo, hi, k) == sum_range(ps, lo, hi, k),
    decreases hi - lo,
{
    if hi > lo {
        lemma_sum_range_rev(ps, lo + 1, hi, k);
        if hi > lo + 1 {
            lemma_sum_range_rev(ps, lo, hi - 1, k);
            lemma_sum_range_rev(ps, lo + 1, hi - 1, k);
            assert(sum_range_rev(ps, lo, hi - 1, k) == coef(ps[lo]@, k) + sum_range_rev(ps, lo + 1, hi - 1, k));
            assert(sum_range(ps, lo + 1, hi, k) == sum_range(ps, lo + 1, hi - 1, k) + coef(ps[hi - 1]@, k));
        } else {
            assert(sum_range(ps, lo, hi - 1, k) == 0);
            assert(sum_range_rev(ps, lo + 1, hi, k) == 0);
        }
    }
}

/// Copy of a coefficient vector.
pub fn copy_poly(p: &Vec<i64>) -> (r: Vec<i64>)
    ensures
        r@ == p@,
{
    vstd::slice::slice_to_vec(p.as_slice())
}

/// Running sums `f_0`, `f_0 + f_1`, ..., each trimmed.
pub fn prefix_sums(polys: &[Vec<i64>]) -> (out: Vec<Vec<i64>>)
    requires
        forall|i: int, k: int|
            0 <= i < polys.len() ==> #[trigger] fits_i64(sum_range(polys@, 0, i + 1, k)),
    ensures
        out.len() == polys.len(),
        forall|i: int|
            0 <= i < out.len() ==> is_trimmed(#[trigger] out@[i]@) && out@[i]@.len() >= 1,
        forall|i: int, k: int|
            0 <= i < out.len() ==> #[trigger] coef(out@[i]@, k) == sum_range(polys@, 0, i + 1, k),
{
    let mut out: Vec<Vec<i64>> = Vec::new();
    let mut running: Vec<i64> = vec![0i64];
    for i in 0..polys.len()
        invariant
            out.len() == i,
            running.len() >= 1,
            forall|k: int| #[trigger] coef(running@, k) == sum_range(polys@, 0, i as int, k),
            forall|i: int, k: int|
                0 <= i < polys.len() ==> #[trigger] fits_i64(sum_range(polys@, 0, i + 1, k)),
            forall|j: int|
                0 <= j < i ==> is_trimmed(#[trigger] out@[j]@) && out@[j]@.len() >= 1,
            forall|j: int, k: int|
                0 <= j < i ==> #[trigger] coef(out@[j]@, k) == sum_range(polys@, 0, j + 1, k),
    {
        proof {
            assert forall|k: int| #[trigger] fits_i64(coef(running@, k) + coef(polys@[i as int]@, k)) by {
                assert(fits_i64(sum_range(polys@, 0, i + 1, k)));
            }
        }
        let ghost old_running = running@;
        running = poly_add(&running, &polys[i]);
        proof {
            lemma_strip(seq_sum(old_running, polys@[i as int]@));
        }
        out.push(copy_poly(&running));
    }
    out
}

/// Tail sums `f_i + f_{i+1} + ... + f_{m-1}` for each `i`, each trimmed.
pub fn suffix_sums(polys: &[Vec<i64>]) -> (out: Vec<Vec<i64>>)
    requires
        forall|i: int, k: int|
            0 <= i < polys.len() ==> #[trigger] fits_i64(sum_range(polys@, i, polys.len() as int, k)),
    ensures
        out.len() == polys.len(),
        forall|i: int|
            0 <= i < out.len() ==> is_trimmed(#[trigger] out@[i]@) && out@[i]@.len() >= 1,
        forall|i: int, k: int|
            0 <= i < out.len() ==> #[trigger] coef(out@[i]@, k) == sum_range(
                polys@,
                i,
                polys.len() as int,
                k,
            ),
{
    let m = polys.len();
    let mut out_rev: Vec<Vec<i64>> = Vec::new();
    let mut running: Vec<i64> = vec![0i64];
    let mut idx = m;
    while idx > 0
        invariant
            idx <= m,
            m == polys.len(),
            out_rev.len() == m - idx,
            running.len() >= 1,
            forall|k: int| #[trigger] coef(running@, k) == sum_range(polys@, idx as int, m as int, k),
            forall|i: int, k: int|
                0 <= i < polys.len() ==> #[trigger] fits_i64(sum_range(polys@, i, polys.len() as int, k)),
            forall|j: int|
                0 <= j < m - idx ==> is_trimmed(#[trigger] out_rev@[j]@) && out_rev@[j]@.len() >= 1,
            forall|j: int, k: int|
                0 <= j < m - idx ==> #[trigger] coef(out_rev@[j]@, k) == sum_range(
                    polys@,
                    m - 1 - j,
                    m as int,
                    k,
                ),
        decreases idx,
    {
        let i = idx - 1;
        proof {
            assert forall|k: int| #[trigger] fits_i64(coef(running@, k) + coef(polys@[i as int]@, k)) by {
                lemma_sum_range_rev(polys@, i as int, m as int, k);
                lemma_sum_range_rev(polys@, i + 1, m as int, k);
                assert(fits_i64(sum_range(polys@, i as int, m as int, k)));
            }
        }
        let ghost old_running = running@;
        running = poly_add(&running, &polys[i]);
        proof {
            lemma_strip(seq_sum(old_running, polys@[i as int]@));
            assert forall|k: int| #[trigger] coef(running@, k) == sum_range(polys@, i as int, m as int, k) by {
                lemma_sum_range_rev(polys@, i as int, m as int, k);
                lemma_sum_range_rev(polys@, i + 1, m as int, k);
            }
        }
        out_rev.push(copy_poly(&running));
        idx = i;
    }
    let mut out: Vec<Vec<i64>> = Vec::new();
    let mut j = m;
    while j > 0
        invariant
            j <= m,
            m == polys.len(),
            out_rev.len() == m,
            out.len() == m - j,
            forall|t: int| 0 <= t < m - j ==> #[trigger] out@[t]@ == out_rev@[m - 1 - t]@,
        decreases j,
    {
        j -= 1;
        out.push(copy_poly(&out_rev[j]));
    }
    proof {
        assert forall|i: int, k: int|
            0 <= i < out.len() implies #[trigger] coef(out@[i]@, k) == sum_range(polys@, i, polys.len() as int, k) by {
            assert(out@[i]@ == out_rev@[m - 1 - i]@);
        }
        assert forall|i: int| 0 <= i < out.len() implies is_trimmed(#[trigger] out@[i]@) && out@[i]@.len() >= 1 by {
            assert(out@[i]@ == out_rev@[m - 1 - i]@);
        }
    }
    out
}

proof fn lemma_zero_views(a: Seq<i64>)
    ensures
        all_zero(a) == crate::gcd::all_zero_int(crate::gcd::lv(a)),
{
    let v = crate::gcd::lv(a);
    if all_zero(a) {
        assert forall|k: int| 0 <= k < v.len() implies v[k] == 0 by {}
    }
    if crate::gcd::all_zero_int(v) {
        assert forall|k: int| 0 <= k < a.len() implies a[k] == 0 by {
            assert(v[k] == a[k] as int);
        }
    }
}

/// `g` is the degree of the greatest common divisor of `a` and `b` over the
/// rationals; two zero polynomials get `0`.
pub open spec fn gcd_degree_spec(a: Seq<i64>, b: Seq<i64>, g: usize) -> bool {
    if all_zero(a) && all_zero(b) {
        g == 0
    } else {
        crate::gcd::gcd_degree(crate::gcd::lv(a), crate::gcd::lv(b), g as int)
    }
}

/// Degree of the greatest common divisor of `a` and `b` over the rationals:
/// `0` when they are coprime, the degree of the other when one of them is zero,
/// `0` when both are.
pub fn poly_gcd_degree(a: &[i64], b: &[i64]) -> (g: usize)
    ensures
        gcd_degree_spec(a@, b@, g),
{
    let r = crate::gcd::exact_gcd_degree(a, b);
    proof {
        lemma_zero_views(a@);
        lemma_zero_views(b@);
    }
    r
}

} // verus!
