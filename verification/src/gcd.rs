//! Degree of the greatest common divisor of two integer polynomials over the
//! rationals. A polynomial `h` divides `p` when `q h = c p` for some integer
//! polynomial `q` and nonzero integer `c`; the degree of the gcd is the largest
//! degree of a nonzero common divisor. It is computed by the pseudo-remainder
//! sequence: each step replaces `r0` by `lc(r1) r0 - lc(r0) t^j r1`, which keeps
//! the common divisors of the pair.
use vstd::prelude::*;
use crate::bigint::{BigVal, big_val, big_from_i64, big_is_zero, big_mul, big_sub};

verus! {

/// Coefficient `k` of an integer polynomial, zero outside its storage.
pub open spec fn ic(p: Seq<int>, k: int) -> int {
    if 0 <= k < p.len() {
        p[k]
    } else {
        0
    }
}

/// `sum_{i < m} q[i] h[k - i]`.
pub open spec fn iconv_upto(q: Seq<int>, h: Seq<int>, k: int, m: int) -> int
    decreases m,
{
    if m <= 0 {
        0
    } else {
        iconv_upto(q, h, k, m - 1) + ic(q, m - 1) * ic(h, k - (m - 1))
    }
}

/// Coefficient `k` of the product `q h`.
pub open spec fn iconv(q: Seq<int>, h: Seq<int>, k: int) -> int {
    iconv_upto(q, h, k, q.len() as int)
}

/// `h` divides `p` over the rationals: `q h = c p` for an integer polynomial `q`
/// and a nonzero integer `c`.
pub open spec fn divides(h: Seq<int>, p: Seq<int>) -> bool {
    exists|q: Seq<int>, c: int| #[trigger] divides_with(q, c, h, p)
}

/// `q h = c p` with `c` nonzero.
pub open spec fn divides_with(q: Seq<int>, c: int, h: Seq<int>, p: Seq<int>) -> bool {
    c != 0 && forall|k: int| #[trigger] iconv(q, h, k) == c * ic(p, k)
}

/// `d` is the degree of `p`: its last nonzero coefficient.
pub open spec fn is_deg(p: Seq<int>, d: int) -> bool {
    &&& 0 <= d < p.len()
    &&& p[d] != 0
    &&& forall|k: int| d < k < p.len() ==> p[k] == 0
}

pub open spec fn nonzero(p: Seq<int>) -> bool {
    exists|k: int| 0 <= k < p.len() && p[k] != 0
}

/// `h` is a nonzero common divisor of `a` and `b`.
pub open spec fn common_divisor(h: Seq<int>, a: Seq<int>, b: Seq<int>) -> bool {
    nonzero(h) && divides(h, a) && divides(h, b)
}

/// `d` is the degree of the gcd of `a` and `b`: some nonzero common divisor has
/// degree `d`, and none has a larger degree.
pub open spec fn gcd_degree(a: Seq<int>, b: Seq<int>, d: int) -> bool {
    &&& exists|h: Seq<int>| common_divisor(h, a, b) && is_deg(h, d)
    &&& forall|h: Seq<int>, e: int| common_divisor(h, a, b) && is_deg(h, e) ==> e <= d
}

/// The pairs `(a, b)` and `(c, d)` have the same common divisors.
pub open spec fn same_divisors(a: Seq<int>, b: Seq<int>, c: Seq<int>, d: Seq<int>) -> bool {
    forall|h: Seq<int>| (divides(h, a) && divides(h, b)) == (divides(h, c) && divides(h, d))
}

proof fn lemma_iconv_extend(q: Seq<int>, h: Seq<int>, k: int, m: int)
    requires
        q.len() <= m,
    ensures
        iconv_upto(q, h, k, m) == iconv(q, h, k),
    decreases m,
{
    if m > q.len() {
        lemma_iconv_extend(q, h, k, m - 1);
    }
}

/// `w = x u + y v` termwise gives `w h = x (u h) + y (v h)` on the first `m` terms.
proof fn lemma_iconv_linear(w: Seq<int>, u: Seq<int>, v: Seq<int>, x: int, y: int, h: Seq<int>, k: int, m: int)
    requires
        forall|i: int| 0 <= i < m ==> ic(w, i) == x * ic(u, i) + y * ic(v, i),
    ensures
        iconv_upto(w, h, k, m) == x * iconv_upto(u, h, k, m) + y * iconv_upto(v, h, k, m),
    decreases m,
{
    if m > 0 {
        lemma_iconv_linear(w, u, v, x, y, h, k, m - 1);
        let i = m - 1;
        let hh = ic(h, k - i);
        assert(ic(w, i) * hh == x * (ic(u, i) * hh) + y * (ic(v, i) * hh)) by (nonlinear_arith)
            requires
                ic(w, i) == x * ic(u, i) + y * ic(v, i),
        ;
        assert(x * iconv_upto(u, h, k, m - 1) + y * iconv_upto(v, h, k, m - 1) + x * (ic(u, i) * hh) + y * (ic(v, i)
            * hh) == x * (iconv_upto(u, h, k, m - 1) + ic(u, i) * hh) + y * (iconv_upto(v, h, k, m - 1) + ic(v, i) * hh))
            by (nonlinear_arith);
    }
}

/// Shifting `v` by `t^j` shifts its product with `h`.
proof fn lemma_iconv_shift(s: Seq<int>, v: Seq<int>, j: int, h: Seq<int>, k: int, m: int)
    requires
        0 <= j <= m,
        forall|i: int| 0 <= i < m ==> ic(s, i) == ic(v, i - j),
    ensures
        iconv_upto(s, h, k, m) == iconv_upto(v, h, k - j, m - j),
    decreases m,
{
    if m > j {
        lemma_iconv_shift(s, v, j, h, k, m - 1);
    } else if m > 0 {
        lemma_iconv_zero_prefix(s, h, k, m);
    }
}

proof fn lemma_iconv_zero_prefix(s: Seq<int>, h: Seq<int>, k: int, m: int)
    requires
        forall|i: int| 0 <= i < m ==> ic(s, i) == 0,
    ensures
        iconv_upto(s, h, k, m) == 0,
    decreases m,
{
    if m > 0 {
        lemma_iconv_zero_prefix(s, h, k, m - 1);
        assert(ic(s, m - 1) * ic(h, k - (m - 1)) == 0) by (nonlinear_arith)
            requires
                ic(s, m - 1) == 0,
        ;
    }
}

/// Common divisors pass to combinations: if `h` divides `p1` and `p2`, it
/// divides every `p3` with `p3 = x p1 + y t^j p2` (coefficientwise).
pub proof fn lemma_divides_combination(h: Seq<int>, p1: Seq<int>, p2: Seq<int>, p3: Seq<int>, x: int, y: int, j: int)
    requires
        0 <= j,
        divides(h, p1),
        divides(h, p2),
        forall|k: int| #[trigger] ic(p3, k) == x * ic(p1, k) + y * ic(p2, k - j),
    ensures
        divides(h, p3),
{
    let (q1, c1) = choose|q: Seq<int>, c: int| #[trigger] divides_with(q, c, h, p1);
    let (q2, c2) = choose|q: Seq<int>, c: int| #[trigger] divides_with(q, c, h, p2);
    let len: int = if q1.len() >= q2.len() + j {
        q1.len() as int
    } else {
        q2.len() + j
    };
    let s = Seq::new(len as nat, |i: int| ic(q2, i - j));
    let q3 = Seq::new(len as nat, |i: int| (x * c2) * ic(q1, i) + (y * c1) * ic(s, i));
    let c3 = c1 * c2;
    assert(c3 != 0) by (nonlinear_arith)
        requires
            c1 != 0,
            c2 != 0,
            c3 == c1 * c2,
    ;
    assert forall|k: int| #[trigger] iconv(q3, h, k) == c3 * ic(p3, k) by {
        lemma_iconv_linear(q3, q1, s, x * c2, y * c1, h, k, len);
        lemma_iconv_extend(q1, h, k, len);
        lemma_iconv_shift(s, q2, j, h, k, len);
        lemma_iconv_extend(q2, h, k - j, len - j);
        assert(iconv(q1, h, k) == c1 * ic(p1, k));
        assert(iconv(q2, h, k - j) == c2 * ic(p2, k - j));
        lemma_regroup(x, y, c1, c2, ic(p1, k), ic(p2, k - j));
    }
    assert(divides_with(q3, c3, h, p3));
}

proof fn lemma_regroup(x: int, y: int, c1: int, c2: int, a: int, b: int)
    ensures
        (x * c2) * (c1 * a) + (y * c1) * (c2 * b) == (c1 * c2) * (x * a + y * b),
{
    assert((x * c2) * (c1 * a) == (c1 * c2) * (x * a)) by (nonlinear_arith);
    assert((y * c1) * (c2 * b) == (c1 * c2) * (y * b)) by (nonlinear_arith);
    assert((c1 * c2) * (x * a) + (c1 * c2) * (y * b) == (c1 * c2) * (x * a + y * b)) by (nonlinear_arith);
}

/// Every polynomial divides zero.
pub proof fn lemma_divides_zero(h: Seq<int>, z: Seq<int>)
    requires
        forall|k: int| 0 <= k < z.len() ==> z[k] == 0,
    ensures
        divides(h, z),
{
    let q = Seq::<int>::empty();
    assert forall|k: int| #[trigger] iconv(q, h, k) == 1 * ic(z, k) by {}
    assert(divides_with(q, 1, h, z));
}

/// Every polynomial divides itself.
pub proof fn lemma_divides_self(p: Seq<int>)
    ensures
        divides(p, p),
{
    let q = seq![1int];
    assert forall|k: int| #[trigger] iconv(q, p, k) == 1 * ic(p, k) by {
        assert(iconv_upto(q, p, k, 0) == 0);
    }
    assert(divides_with(q, 1, p, p));
}

/// Coefficient `dq + e` of `q h`, when `q` has degree `dq` and `h` degree `e`.
proof fn lemma_iconv_top(q: Seq<int>, h: Seq<int>, dq: int, e: int, m: int)
    requires
        is_deg(q, dq),
        is_deg(h, e),
        0 <= m <= q.len(),
    ensures
        iconv_upto(q, h, dq + e, m) == if m > dq {
            q[dq] * h[e]
        } else {
            0
        },
    decreases m,
{
    if m > 0 {
        lemma_iconv_top(q, h, dq, e, m - 1);
        let i = m - 1;
        if i < dq {
            assert(ic(h, dq + e - i) == 0);
        } else if i > dq {
            assert(ic(q, i) == 0);
        }
        assert(ic(q, i) * ic(h, dq + e - i) == if i == dq {
            q[dq] * h[e]
        } else {
            0
        }) by (nonlinear_arith)
            requires
                i == dq ==> ic(q, i) == q[dq] && ic(h, dq + e - i) == h[e],
                i != dq ==> ic(q, i) == 0 || ic(h, dq + e - i) == 0,
        ;
    }
}

proof fn lemma_has_degree(p: Seq<int>, m: int) -> (d: int)
    requires
        0 <= m <= p.len(),
        exists|k: int| 0 <= k < m && p[k] != 0,
        forall|k: int| m <= k < p.len() ==> p[k] == 0,
    ensures
        is_deg(p, d),
    decreases m,
{
    if p[m - 1] != 0 {
        m - 1
    } else {
        lemma_has_degree(p, m - 1)
    }
}

/// A nonzero divisor of a nonzero polynomial has at most its degree.
pub proof fn lemma_divisor_degree(h: Seq<int>, e: int, p: Seq<int>, d: int)
    requires
        is_deg(h, e),
        is_deg(p, d),
        divides(h, p),
    ensures
        e <= d,
{
    let (q, c) = choose|q: Seq<int>, c: int| #[trigger] divides_with(q, c, h, p);
    if e > d {
        if exists|k: int| 0 <= k < q.len() && q[k] != 0 {
            let dq = lemma_has_degree(q, q.len() as int);
            lemma_iconv_top(q, h, dq, e, q.len() as int);
            assert(iconv(q, h, dq + e) == c * ic(p, dq + e));
            assert(ic(p, dq + e) == 0);
            assert(q[dq] * h[e] != 0) by (nonlinear_arith)
                requires
                    q[dq] != 0,
                    h[e] != 0,
            ;
        } else {
            lemma_iconv_zero_prefix(q, h, d, q.len() as int);
            assert(iconv(q, h, d) == c * ic(p, d));
            assert(c * ic(p, d) != 0) by (nonlinear_arith)
                requires
                    c != 0,
                    ic(p, d) != 0,
            ;
        }
    }
}

/// Multiplying by a nonzero constant keeps the divisors.
proof fn lemma_divides_unscale(h: Seq<int>, p: Seq<int>, r: Seq<int>, alpha: int)
    requires
        alpha != 0,
        divides(h, p),
        forall|k: int| #[trigger] ic(p, k) == alpha * ic(r, k),
    ensures
        divides(h, r),
{
    let (q, c) = choose|q: Seq<int>, c: int| #[trigger] divides_with(q, c, h, p);
    assert(c * alpha != 0) by (nonlinear_arith)
        requires
            c != 0,
            alpha != 0,
    ;
    assert forall|k: int| #[trigger] iconv(q, h, k) == (c * alpha) * ic(r, k) by {
        assert(c * (alpha * ic(r, k)) == (c * alpha) * ic(r, k)) by (nonlinear_arith);
    }
    assert(divides_with(q, c * alpha, h, r));
}

/// A pseudo-division step `r0' = alpha r0 - beta t^j r1` (with `alpha != 0`)
/// keeps the common divisors of the pair.
pub proof fn lemma_step_keeps_divisors(r0: Seq<int>, r1: Seq<int>, r0n: Seq<int>, alpha: int, beta: int, j: int)
    requires
        alpha != 0,
        0 <= j,
        forall|k: int| #[trigger] ic(r0n, k) == alpha * ic(r0, k) - beta * ic(r1, k - j),
    ensures
        same_divisors(r0, r1, r0n, r1),
{
    assert forall|h: Seq<int>| (divides(h, r0) && divides(h, r1)) == (divides(h, r0n) && divides(h, r1)) by {
        if divides(h, r0) && divides(h, r1) {
            assert forall|k: int| #[trigger] ic(r0n, k) == alpha * ic(r0, k) + (-beta) * ic(r1, k - j) by {
                assert((-beta) * ic(r1, k - j) == -(beta * ic(r1, k - j))) by (nonlinear_arith);
            }
            lemma_divides_combination(h, r0, r1, r0n, alpha, -beta, j);
        }
        if divides(h, r0n) && divides(h, r1) {
            let p = Seq::new(r0.len(), |k: int| alpha * ic(r0, k));
            assert forall|k: int| #[trigger] ic(p, k) == 1 * ic(r0n, k) + beta * ic(r1, k - j) by {
                if !(0 <= k < r0.len()) {
                    assert(ic(r0, k) == 0);
                }
            }
            lemma_divides_combination(h, r0n, r1, p, 1, beta, j);
            assert forall|k: int| #[trigger] ic(p, k) == alpha * ic(r0, k) by {}
            lemma_divides_unscale(h, p, r0, alpha);
        }
    }
}

/// When the second member is zero, the gcd degree is the degree of the first.
pub proof fn lemma_gcd_of_remainder(a: Seq<int>, b: Seq<int>, g: Seq<int>, z: Seq<int>, d: int)
    requires
        same_divisors(a, b, g, z),
        is_deg(g, d),
        forall|k: int| 0 <= k < z.len() ==> z[k] == 0,
    ensures
        gcd_degree(a, b, d),
{
    lemma_divides_self(g);
    lemma_divides_zero(g, z);
    assert(divides(g, a) && divides(g, b));
    assert(nonzero(g));
    assert(common_divisor(g, a, b) && is_deg(g, d));
    assert forall|h: Seq<int>, e: int| common_divisor(h, a, b) && is_deg(h, e) implies e <= d by {
        assert(divides(h, g) && divides(h, z));
        lemma_divisor_degree(h, e, g, d);
    }
}

proof fn lemma_iconv_one(p: Seq<int>, k: int, m: int)
    requires
        0 <= m,
    ensures
        iconv_upto(p, seq![1int], k, m) == if 0 <= k < m {
            ic(p, k)
        } else {
            0
        },
    decreases m,
{
    if m > 0 {
        lemma_iconv_one(p, k, m - 1);
        let one = seq![1int];
        if k == m - 1 {
            assert(ic(one, k - (m - 1)) == 1);
        } else {
            assert(ic(one, k - (m - 1)) == 0);
        }
        assert(ic(p, m - 1) * ic(one, k - (m - 1)) == if k == m - 1 {
            ic(p, k)
        } else {
            0
        }) by (nonlinear_arith)
            requires
                k == m - 1 ==> ic(one, k - (m - 1)) == 1,
                k != m - 1 ==> ic(one, k - (m - 1)) == 0,
        ;
    }
}

/// The constant `1` divides every polynomial.
pub proof fn lemma_one_divides(p: Seq<int>)
    ensures
        divides(seq![1int], p),
{
    assert forall|k: int| #[trigger] iconv(p, seq![1int], k) == 1 * ic(p, k) by {
        lemma_iconv_one(p, k, p.len() as int);
    }
    assert(divides_with(p, 1, seq![1int], p));
}

/// When the second member is a nonzero constant, the pair is coprime.
pub proof fn lemma_gcd_with_constant(a: Seq<int>, b: Seq<int>, g: Seq<int>, c: Seq<int>)
    requires
        same_divisors(a, b, g, c),
        is_deg(c, 0),
    ensures
        gcd_degree(a, b, 0),
{
    let one = seq![1int];
    lemma_one_divides(g);
    lemma_one_divides(c);
    assert(divides(one, a) && divides(one, b));
    assert(is_deg(one, 0));
    assert(one[0] != 0);
    assert(common_divisor(one, a, b));
    assert forall|h: Seq<int>, e: int| common_divisor(h, a, b) && is_deg(h, e) implies e <= 0 by {
        assert(divides(h, g) && divides(h, c));
        lemma_divisor_degree(h, e, c, 0);
    }
}

/// Integer view of a vector of big integers.
pub open spec fn iv(v: Seq<BigVal>) -> Seq<int> {
    Seq::new(v.len(), |i: int| big_val(v[i]))
}

/// Integer view of a vector of `i64`.
pub open spec fn lv(v: Seq<i64>) -> Seq<int> {
    Seq::new(v.len(), |i: int| v[i] as int)
}

/// No trailing zero (the zero polynomial is empty).
pub open spec fn tight(v: Seq<BigVal>) -> bool {
    v.len() == 0 || big_val(v.last()) != 0
}

fn widen(a: &[i64]) -> (v: Vec<BigVal>)
    ensures
        iv(v@) == lv(a@),
{
    let mut v: Vec<BigVal> = Vec::new();
    let mut i: usize = 0;
    while i < a.len()
        invariant
            i <= a.len(),
            v.len() == i,
            forall|k: int| 0 <= k < i ==> big_val(v@[k]) == a@[k] as int,
        decreases a.len() - i,
    {
        v.push(big_from_i64(a[i]));
        i += 1;
    }
    assert(iv(v@) =~= lv(a@));
    v
}

/// Drops trailing zeros; the coefficients are unchanged.
fn tighten(v: &mut Vec<BigVal>)
    ensures
        tight(final(v)@),
        forall|k: int| #[trigger] ic(iv(final(v)@), k) == ic(iv(old(v)@), k),
        final(v).len() <= old(v).len(),
{
    while v.len() > 0 && big_is_zero(&v[v.len() - 1])
        invariant
            v.len() <= old(v).len(),
            forall|k: int| 0 <= k < v.len() ==> v@[k] == old(v)@[k],
            forall|k: int| v.len() <= k < old(v).len() ==> big_val(old(v)@[k]) == 0,
        decreases v.len(),
    {
        v.pop();
    }
}

/// `lc(r1) r0 - lc(r0) t^(d0 - d1) r1` for `r0`, `r1` of degrees `d0 >= d1`,
/// with the cancelled top coefficient dropped.
fn reduce_step(r0: &Vec<BigVal>, r1: &Vec<BigVal>) -> (v: Vec<BigVal>)
    requires
        r0.len() >= r1.len() >= 1,
        tight(r0@),
        tight(r1@),
    ensures
        v.len() == r0.len() - 1,
        forall|k: int| #[trigger] ic(iv(v@), k)
            == big_val(r1@[r1.len() - 1]) * ic(iv(r0@), k) - big_val(r0@[r0.len() - 1]) * ic(iv(r1@), k - (r0.len() - r1.len())),
{
    let d0 = r0.len() - 1;
    let d1 = r1.len() - 1;
    let j = d0 - d1;
    let ghost a0 = big_val(r0@[d0 as int]);
    let ghost b1 = big_val(r1@[d1 as int]);
    let mut v: Vec<BigVal> = Vec::new();
    let mut k: usize = 0;
    while k < d0
        invariant
            d0 == r0.len() - 1,
            d1 == r1.len() - 1,
            j == d0 - d1,
            a0 == big_val(r0@[d0 as int]),
            b1 == big_val(r1@[d1 as int]),
            k <= d0,
            v.len() == k,
            forall|i: int| 0 <= i < k ==> #[trigger] big_val(v@[i]) == b1 * ic(iv(r0@), i) - a0 * ic(iv(r1@), i - j),
        decreases d0 - k,
    {
        let x = big_mul(&r1[d1], &r0[k]);
        proof {
            assert(ic(iv(r0@), k as int) == big_val(r0@[k as int]));
        }
        if k >= j {
            let y = big_mul(&r0[d0], &r1[k - j]);
            proof {
                assert(ic(iv(r1@), k - j) == big_val(r1@[k - j]));
            }
            v.push(big_sub(&x, &y));
        } else {
            proof {
                assert(ic(iv(r1@), k - j) == 0);
                assert(a0 * ic(iv(r1@), k - j) == 0) by (nonlinear_arith)
                    requires
                        ic(iv(r1@), k - j) == 0,
                ;
            }
            v.push(x);
        }
        k += 1;
    }
    proof {
        assert forall|i: int| #[trigger] ic(iv(v@), i) == b1 * ic(iv(r0@), i) - a0 * ic(iv(r1@), i - j) by {
            if 0 <= i < d0 {
                assert(ic(iv(v@), i) == big_val(v@[i]));
            } else if i == d0 {
                assert(ic(iv(r0@), i) == a0);
                assert(ic(iv(r1@), i - j) == b1);
                assert(b1 * a0 - a0 * b1 == 0) by (nonlinear_arith);
            } else {
                assert(ic(iv(r0@), i) == 0);
                assert(ic(iv(r1@), i - j) == 0);
                assert(b1 * 0 - a0 * 0 == 0) by (nonlinear_arith);
            }
        }
    }
    v
}

/// Degree of the gcd of `a` and `b` over the rationals (`0` when both are
/// zero), by the pseudo-remainder sequence, computed exactly.
pub fn exact_gcd_degree(a: &[i64], b: &[i64]) -> (d: usize)
    ensures
        if all_zero_int(lv(a@)) && all_zero_int(lv(b@)) {
            d == 0
        } else {
            gcd_degree(lv(a@), lv(b@), d as int)
        },
{
    let mut r0 = widen(a);
    let mut r1 = widen(b);
    let ghost va = lv(a@);
    let ghost vb = lv(b@);
    tighten(&mut r0);
    tighten(&mut r1);
    proof {
        lemma_same_view_divisors(va, vb, iv(r0@), iv(r1@));
    }
    if r0.len() == 0 && r1.len() == 0 {
        proof {
            assert forall|k: int| 0 <= k < va.len() implies va[k] == 0 by {
                assert(ic(va, k) == ic(iv(r0@), k));
            }
            assert forall|k: int| 0 <= k < vb.len() implies vb[k] == 0 by {
                assert(ic(vb, k) == ic(iv(r1@), k));
            }
        }
        return 0;
    }
    proof {
        if all_zero_int(va) && all_zero_int(vb) {
            if r0.len() > 0 {
                assert(ic(iv(r0@), r0.len() - 1) == ic(va, r0.len() - 1));
            } else {
                assert(ic(iv(r1@), r1.len() - 1) == ic(vb, r1.len() - 1));
            }
        }
    }
    while r1.len() > 0
        invariant
            va == lv(a@),
            vb == lv(b@),
            tight(r0@),
            tight(r1@),
            r0.len() > 0 || r1.len() > 0,
            same_divisors(va, vb, iv(r0@), iv(r1@)),
            !(all_zero_int(va) && all_zero_int(vb)),
        decreases r1.len(),
    {
        let d1 = r1.len() - 1;
        if d1 == 0 {
            proof {
                assert(is_deg(iv(r1@), 0));
                lemma_gcd_with_constant(va, vb, iv(r0@), iv(r1@));
            }
            return 0;
        }
        while r0.len() > d1
            invariant
                r1.len() == d1 + 1,
                d1 >= 1,
                tight(r0@),
                tight(r1@),
                same_divisors(va, vb, iv(r0@), iv(r1@)),
            decreases r0.len(),
        {
            let ghost old0 = iv(r0@);
            let ghost j = r0.len() - r1.len();
            let ghost alpha = big_val(r1@[r1.len() - 1]);
            let ghost beta = big_val(r0@[r0.len() - 1]);
            let mut v = reduce_step(&r0, &r1);
            let ghost vv = iv(v@);
            tighten(&mut v);
            proof {
                assert forall|k: int| #[trigger] ic(iv(v@), k) == alpha * ic(old0, k) - beta * ic(iv(r1@), k - j) by {
                    assert(ic(iv(v@), k) == ic(vv, k));
                }
                lemma_step_keeps_divisors(old0, iv(r1@), iv(v@), alpha, beta, j);
            }
            r0 = v;
        }
        let t = r0;
        r0 = r1;
        r1 = t;
        proof {
            lemma_same_divisors_swap(va, vb, iv(r1@), iv(r0@));
        }
    }
    proof {
        let d = r0.len() - 1;
        assert(is_deg(iv(r0@), d as int));
        lemma_gcd_of_remainder(va, vb, iv(r0@), iv(r1@), d as int);
    }
    r0.len() - 1
}

/// All coefficients are zero.
pub open spec fn all_zero_int(p: Seq<int>) -> bool {
    forall|k: int| 0 <= k < p.len() ==> p[k] == 0
}

proof fn lemma_same_divisors_swap(a: Seq<int>, b: Seq<int>, c: Seq<int>, d: Seq<int>)
    requires
        same_divisors(a, b, d, c),
    ensures
        same_divisors(a, b, c, d),
{
}

/// Divisibility depends on the coefficients only.
proof fn lemma_divides_same_coefs(h: Seq<int>, p: Seq<int>, r: Seq<int>)
    requires
        forall|k: int| #[trigger] ic(p, k) == ic(r, k),
        divides(h, p),
    ensures
        divides(h, r),
{
    assert forall|k: int| #[trigger] ic(p, k) == 1 * ic(r, k) by {}
    lemma_divides_unscale(h, p, r, 1);
}

proof fn lemma_same_view_divisors(a: Seq<int>, b: Seq<int>, c: Seq<int>, d: Seq<int>)
    requires
        forall|k: int| #[trigger] ic(c, k) == ic(a, k),
        forall|k: int| #[trigger] ic(d, k) == ic(b, k),
    ensures
        same_divisors(a, b, c, d),
{
    assert forall|h: Seq<int>| (divides(h, a) && divides(h, b)) == (divides(h, c) && divides(h, d)) by {
        if divides(h, a) && divides(h, b) {
            lemma_divides_same_coefs(h, a, c);
            lemma_divides_same_coefs(h, b, d);
        }
        if divides(h, c) && divides(h, d) {
            lemma_divides_same_coefs(h, c, a);
            lemma_divides_same_coefs(h, d, b);
        }
    }
}

} // verus!
