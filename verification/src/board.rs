//! Boards, 312-avoiding permutations and peak polynomials used by the
//! cross-group interlacing experiments, with the short polynomial helpers
//! (`pt`, `pz`, `pa`, `pmt`, `pdeg`) those experiments are written with.
use vstd::prelude::*;
use crate::poly::{coef, is_trimmed, strip, all_zero, is_degree, seq_sum, sum_fits, seq_shift, lemma_strip};
use crate::compat::InterlaceStep;

verus! {

/// Trailing zeros removed (the empty vector stays empty).
pub fn pt(p: &[i64]) -> (r: Vec<i64>)
    ensures
        r@ == strip(p@),
{
    crate::poly::trim(p)
}

/// Every coefficient is zero.
pub fn pz(p: &[i64]) -> (z: bool)
    ensures
        z == all_zero(p@),
{
    crate::poly::poly_is_zero(p)
}

/// `a + b`, trimmed.
pub fn pa(a: &[i64], b: &[i64]) -> (r: Vec<i64>)
    requires
        sum_fits(a@, b@),
    ensures
        r@ == strip(seq_sum(a@, b@)),
        forall|k: int| #[trigger] coef(r@, k) == coef(a@, k) + coef(b@, k),
{
    crate::poly::poly_add(a, b)
}

/// `t * p`, trimmed.
pub fn pmt(p: &[i64]) -> (r: Vec<i64>)
    requires
        p.len() < usize::MAX,
    ensures
        r@ == strip(seq_shift(p@, 1)),
        forall|k: int| #[trigger] coef(r@, k) == coef(p@, k - 1),
{
    let r = crate::poly::poly_mul_t(p);
    proof {
        lemma_strip(r@);
    }
    pt(&r)
}

/// Degree of `p` after trimming; `None` for the zero polynomial.
pub fn pdeg(p: &[i64]) -> (d: Option<usize>)
    ensures
        is_degree(p@, d),
{
    let v = pt(p);
    proof {
        lemma_strip(p@);
    }
    if pz(&v) {
        assert forall|i: int| 0 <= i < p.len() implies p@[i] == 0 by {
            if i < v.len() {
                assert(v@[i] == p@[i]);
            }
        }
        None
    } else {
        let d = v.len() - 1;
        proof {
            let j = choose|j: int| 0 <= j < v.len() && v@[j] != 0;
            assert(v@[j] == p@[j]);
            if d > 0 {
                assert(v@[d as int] != 0);
            } else {
                assert(j == 0);
            }
            assert(v@[d as int] == p@[d as int]);
        }
        Some(d)
    }
}

/// Values already placed in `p[0..i]`.
pub open spec fn used_values(p: Seq<u8>, i: int) -> Set<int> {
    Set::new(|c: int| exists|j: int| 0 <= j < i && p[j] as int == c)
}

/// Largest `c` in `[1, top]` not in `used`, or `0` if there is none.
pub open spec fn largest_unused(top: int, used: Set<int>) -> int
    decreases top,
{
    if top <= 0 {
        0
    } else if !used.contains(top) {
        top
    } else {
        largest_unused(top - 1, used)
    }
}

/// The permutation read off a board: row by row, the largest value not yet
/// used that is at most `min(b[i], n)`, or `0` when none is left.
pub open spec fn board_perm(b: Seq<u8>, i: int) -> Seq<u8>
    decreases i,
{
    if i <= 0 {
        Seq::empty()
    } else {
        let prev = board_perm(b, i - 1);
        let top = if (b[i - 1] as int) <= b.len() {
            b[i - 1] as int
        } else {
            b.len() as int
        };
        prev.push(largest_unused(top, used_values(prev, i - 1)) as u8)
    }
}

pub proof fn lemma_board_perm_len(b: Seq<u8>, i: int)
    requires
        0 <= i,
    ensures
        board_perm(b, i).len() == i,
    decreases i,
{
    if i > 0 {
        lemma_board_perm_len(b, i - 1);
    }
}

/// Some entry before index `i` holds `c`.
pub open spec fn held_before(p: Seq<u8>, i: int, c: int) -> bool {
    exists|j: int| 0 <= j < i && p[j] as int == c
}

proof fn lemma_largest_unused(top: int, used: Set<int>)
    ensures
        largest_unused(top, used) == 0 ==> forall|c: int| 1 <= c <= top ==> used.contains(c),
        largest_unused(top, used) != 0 ==> 1 <= largest_unused(top, used) <= top && !used.contains(
            largest_unused(top, used),
        ) && forall|c: int| largest_unused(top, used) < c <= top ==> used.contains(c),
    decreases top,
{
    if top > 0 && used.contains(top) {
        lemma_largest_unused(top - 1, used);
    }
}

proof fn lemma_board_perm_prefix(b: Seq<u8>, i: int, m: int, j: int)
    requires
        0 <= j < i <= m,
    ensures
        board_perm(b, m)[j] == board_perm(b, i)[j],
    decreases m - i,
{
    if m > i {
        lemma_board_perm_prefix(b, i, m - 1, j);
        lemma_board_perm_len(b, m - 1);
    }
}

/// The permutation read off a board of size `n <= 255` is greedy row by row:
/// entry `i` is the largest `c` with `1 <= c <= min(b[i], n)` that no earlier
/// entry holds, and `0` when every such value is taken. The bound of row `i`
/// depends only on `b[i]` and `n`.
pub proof fn lemma_board_perm_greedy(b: Seq<u8>, i: int)
    requires
        b.len() <= 255,
        0 <= i < b.len(),
    ensures
        ({
            let p = board_perm(b, b.len() as int);
            let top = if (b[i] as int) <= b.len() {
                b[i] as int
            } else {
                b.len() as int
            };
            &&& p.len() == b.len()
            &&& p[i] == 0 ==> forall|c: int| 1 <= c <= top ==> #[trigger] held_before(p, i, c)
            &&& p[i] != 0 ==> {
                &&& 1 <= p[i] <= top
                &&& forall|j: int| 0 <= j < i ==> p[j] != p[i]
                &&& forall|c: int| p[i] < c <= top ==> #[trigger] held_before(p, i, c)
            }
        }),
{
    let p = board_perm(b, b.len() as int);
    lemma_board_perm_len(b, b.len() as int);
    lemma_board_perm_len(b, i);
    lemma_board_perm_len(b, i + 1);
    let prev = board_perm(b, i);
    let top = if (b[i] as int) <= b.len() {
        b[i] as int
    } else {
        b.len() as int
    };
    let used = used_values(prev, i);
    lemma_largest_unused(top, used);
    let r = largest_unused(top, used);
    assert(0 <= r <= 255);
    assert(board_perm(b, i + 1) == prev.push(r as u8));
    if i + 1 < b.len() {
        lemma_board_perm_prefix(b, i + 1, b.len() as int, i);
    }
    assert(p[i] as int == r);
    assert forall|j: int| 0 <= j < i implies p[j] == prev[j] by {
        lemma_board_perm_prefix(b, i, b.len() as int, j);
    }
    assert forall|c: int| used.contains(c) <==> #[trigger] held_before(p, i, c) by {
        if used.contains(c) {
            let j = choose|j: int| 0 <= j < i && prev[j] as int == c;
            assert(p[j] == prev[j]);
        }
        if held_before(p, i, c) {
            let j = choose|j: int| 0 <= j < i && p[j] as int == c;
            assert(p[j] == prev[j]);
        }
    }
    if r != 0 {
        assert forall|j: int| 0 <= j < i implies p[j] != p[i] by {
            if p[j] == p[i] {
                assert(used.contains(r));
            }
        }
    }
}

/// Greedy permutation of a board: entry `i` is the largest value not yet used
/// that is at most `min(b[i], n)` (or `0` when every such value is used).
pub fn board_to_perm(b: &[u8]) -> (p: Vec<u8>)
    requires
        b.len() < usize::MAX,
    ensures
        p@ == board_perm(b@, b.len() as int),
{
    let n = b.len();
    let mut p: Vec<u8> = vec![0u8; n];
    let mut u: Vec<bool> = vec![false; n + 1];
    for i in 0..n
        invariant
            n == b.len(),
            p.len() == n,
            u.len() == n + 1,
            p@.take(i as int) == board_perm(b@, i as int),
            forall|j: int| i <= j < n ==> p@[j] == 0,
            forall|c: int| 1 <= c <= n ==> (u@[c] <==> used_values(p@, i as int).contains(c)),
    {
        proof {
            lemma_board_perm_len(b@, i as int);
        }
        let ghost prev = board_perm(b@, i as int);
        let ghost used = used_values(prev, i as int);
        assert(used =~= used_values(p@, i as int)) by {
            assert forall|c: int| used.contains(c) <==> used_values(p@, i as int).contains(c) by {
                if used.contains(c) {
                    let j = choose|j: int| 0 <= j < i && prev[j] as int == c;
                    assert(p@.take(i as int)[j] == p@[j]);
                }
                if used_values(p@, i as int).contains(c) {
                    let j = choose|j: int| 0 <= j < i && p@[j] as int == c;
                    assert(p@.take(i as int)[j] == p@[j]);
                }
            }
        }
        let top: usize = if (b[i] as usize) <= n {
            b[i] as usize
        } else {
            n
        };
        assert(top <= 255);
        let mut c = top;
        let mut picked: usize = 0;
        let mut done = false;
        while c >= 1 && !done
            invariant
                c <= top <= n,
                top <= 255,
                n == b.len(),
                u.len() == n + 1,
                forall|c: int| 1 <= c <= n ==> (u@[c] <==> used.contains(c)),
                done ==> picked == largest_unused(top as int, used) && 1 <= picked <= top,
                !done ==> picked == 0 && largest_unused(top as int, used) == largest_unused(c as int, used),
            decreases c + if done { 0int } else { 1int },
        {
            if !u[c] {
                picked = c;
                done = true;
            } else {
                c -= 1;
            }
        }
        assert(picked == largest_unused(top as int, used));
        let ghost before = p@;
        p.set(i, picked as u8);
        if picked >= 1 {
            u.set(picked, true);
        }
        proof {
            assert(p@.take(i + 1) =~= prev.push(picked as u8));
            assert forall|c: int| 1 <= c <= n implies (u@[c] <==> used_values(p@, i + 1).contains(c)) by {
                if used_values(p@, i + 1).contains(c) {
                    let j = choose|j: int| 0 <= j < i + 1 && p@[j] as int == c;
                    if j < i {
                        assert(used.contains(c)) by {
                            assert(prev[j] == p@[j]);
                        }
                    } else {
                        assert(picked as int == c || (picked as u8) as int == c);
                    }
                }
                if u@[c] {
                    if c == picked {
                        assert(p@[i as int] as int == c);
                    } else {
                        let j = choose|j: int| 0 <= j < i && prev[j] as int == c;
                        assert(p@[j] == prev[j]);
                    }
                }
            }
        }
    }
    assert(p@.take(n as int) =~= p@);
    p
}

/// `perm` contains no occurrence of the pattern 312: no `i < j < k` with
/// `perm[k] < perm[i] < perm[j]`.
pub open spec fn avoids_312(perm: Seq<u8>) -> bool {
    forall|i: int, j: int, k: int|
        0 <= i < j < k < perm.len() ==> !(perm[k] < perm[i] && perm[i] < perm[j])
}

/// Whether the permutation avoids the pattern 312.
pub fn is_312_avoiding(perm: &[u8]) -> (b: bool)
    ensures
        b == avoids_312(perm@),
{
    let n = perm.len();
    for i in 0..n
        invariant
            n == perm.len(),
            forall|a: int, b: int, c: int|
                0 <= a < i && a < b < c < n ==> !(perm@[c] < perm@[a] && perm@[a] < perm@[b]),
    {
        for j in i + 1..n
            invariant
                n == perm.len(),
                i < n,
                forall|a: int, b: int, c: int|
                    0 <= a < i && a < b < c < n ==> !(perm@[c] < perm@[a] && perm@[a] < perm@[b]),
                forall|b: int, c: int| i < b < j && b < c < n ==> !(perm@[c] < perm@[i as int] && perm@[i as int] < perm@[b]),
        {
            for k in j + 1..n
                invariant
                    n == perm.len(),
                    i < j < n,
                    forall|a: int, b: int, c: int|
                        0 <= a < i && a < b < c < n ==> !(perm@[c] < perm@[a] && perm@[a] < perm@[b]),
                    forall|b: int, c: int|
                        i < b < j && b < c < n ==> !(perm@[c] < perm@[i as int] && perm@[i as int] < perm@[b]),
                    forall|c: int| j < c < k ==> !(perm@[c] < perm@[i as int] && perm@[i as int] < perm@[j as int]),
            {
                if perm[k] < perm[i] && perm[i] < perm[j] {
                    return false;
                }
            }
        }
    }
    true
}

/// Number of peaks `i` (with `1 <= i < len-1`, `w[i-1] < w[i] > w[i+1]`) among `i < m`.
pub open spec fn peaks_below(w: Seq<u8>, m: int) -> nat
    decreases m,
{
    if m <= 1 {
        0
    } else {
        peaks_below(w, m - 1) + if m - 1 < w.len() - 1 && w[m - 2] < w[m - 1] && w[m - 1] > w[m] {
            1nat
        } else {
            0nat
        }
    }
}

/// Number of peaks of `w`.
pub fn peaks(w: &[u8]) -> (c: usize)
    ensures
        c == peaks_below(w@, w.len() - 1),
        w.len() < 3 ==> c == 0,
{
    if w.len() < 3 {
        proof {
            assert(peaks_below(w@, w.len() - 1) == 0) by {
                if w.len() == 2 {
                    assert(peaks_below(w@, 0) == 0);
                }
            }
        }
        return 0;
    }
    let mut c: usize = 0;
    let mut i: usize = 1;
    while i < w.len() - 1
        invariant
            w.len() >= 3,
            1 <= i <= w.len() - 1,
            c == peaks_below(w@, i as int),
            c <= i,
        decreases w.len() - 1 - i,
    {
        if w[i - 1] < w[i] && w[i] > w[i + 1] {
            c += 1;
        }
        i += 1;
    }
    c
}

/// `a o b`: the sequence `a[b[j] - 1]` for each entry `b[j]`.
pub fn compose(a: &[u8], b: &[u8]) -> (r: Vec<u8>)
    requires
        forall|j: int| 0 <= j < b.len() ==> 1 <= #[trigger] b@[j] <= a.len(),
    ensures
        r@ == Seq::new(b.len() as nat, |j: int| a@[b@[j] - 1]),
{
    let mut r: Vec<u8> = Vec::new();
    for j in 0..b.len()
        invariant
            forall|j: int| 0 <= j < b.len() ==> 1 <= #[trigger] b@[j] <= a.len(),
            r@ == Seq::new(j as nat, |t: int| a@[b@[t] - 1]),
    {
        let bi = b[j];
        assert(1 <= b@[j as int] <= a.len());
        r.push(a[(bi - 1) as usize]);
        assert(r@ =~= Seq::new((j + 1) as nat, |t: int| a@[b@[t] - 1]));
    }
    r
}

/// `1 * 2 * ... * k`.
pub open spec fn fact(k: int) -> int
    decreases k,
{
    if k <= 0 {
        1
    } else {
        k * fact(k - 1)
    }
}

/// Number of values `v` in `[1, val)` that do not occur in `perm[0..i]`.
pub open spec fn smaller_unused(perm: Seq<u8>, i: int, val: int) -> int
    decreases val,
{
    if val <= 1 {
        0
    } else {
        smaller_unused(perm, i, val - 1) + if (forall|j: int| 0 <= j < i ==> perm[j] as int != val - 1) {
            1int
        } else {
            0int
        }
    }
}

/// `sum_{j < i} smaller_unused(perm, j, perm[j]) * (n-1-j)!`.
pub open spec fn rank_upto(perm: Seq<u8>, i: int) -> int
    decreases i,
{
    if i <= 0 {
        0
    } else {
        rank_upto(perm, i - 1) + smaller_unused(perm, i - 1, perm[i - 1] as int) * fact(perm.len() - 1 - (i - 1))
    }
}

/// The running rank and factorials fit in a `u64`.
pub open spec fn rank_fits(perm: Seq<u8>) -> bool {
    &&& fact(perm.len() as int) <= u64::MAX
    &&& forall|i: int| 0 <= i <= perm.len() ==> #[trigger] rank_upto(perm, i) <= u64::MAX
}

pub proof fn lemma_fact_pos(k: int)
    ensures
        fact(k) >= 1,
    decreases k,
{
    if k > 0 {
        lemma_fact_pos(k - 1);
        assert(k * fact(k - 1) >= 1) by (nonlinear_arith)
            requires
                k >= 1,
                fact(k - 1) >= 1,
        ;
    }
}

pub proof fn lemma_fact_mono(a: int, b: int)
    requires
        a <= b,
    ensures
        fact(a) <= fact(b),
    decreases b - a,
{
    if a < b {
        lemma_fact_mono(a, b - 1);
        if b > 0 {
            lemma_fact_pos(b - 1);
            assert(fact(b - 1) <= b * fact(b - 1)) by (nonlinear_arith)
                requires
                    b >= 1,
                    fact(b - 1) >= 1,
            ;
        }
    }
}

/// Lexicographic rank of a permutation of `[n]`: the sum over positions of
/// (number of smaller values still available) times `(n-1-i)!`.
pub fn lex_rank(perm: &[u8]) -> (rank: u64)
    requires
        perm.len() < usize::MAX,
        forall|i: int| 0 <= i < perm.len() ==> #[trigger] perm@[i] <= perm.len(),
        rank_fits(perm@),
    ensures
        rank == rank_upto(perm@, perm.len() as int),
{
    let n = perm.len();
    let mut rank: u64 = 0;
    let mut available: Vec<bool> = vec![true; n + 1];
    for i in 0..n
        invariant
            n == perm.len(),
            available.len() == n + 1,
            forall|i: int| 0 <= i < perm.len() ==> #[trigger] perm@[i] <= perm.len(),
            rank_fits(perm@),
            rank == rank_upto(perm@, i as int),
            forall|v: int| 0 <= v <= n ==> (available@[v] <==> forall|j: int| 0 <= j < i ==> perm@[j] as int != v),
    {
        let val = perm[i] as usize;
        let mut smaller: u64 = 0;
        let mut v: usize = 1;
        while v < val
            invariant
                1 <= v,
                v <= val || val == 0,
                val == 0 ==> v == 1,
                val <= n,
                i < n,
                n == perm.len(),
                available.len() == n + 1,
                val == perm@[i as int],
                smaller == smaller_unused(perm@, i as int, v as int),
                smaller <= v,
                forall|v: int| 0 <= v <= n ==> (available@[v] <==> forall|j: int| 0 <= j < i ==> perm@[j] as int != v),
            decreases val - v,
        {
            assert(smaller_unused(perm@, i as int, v + 1) == smaller_unused(perm@, i as int, v as int) + if (forall|j: int| 0 <= j < i ==> perm@[j] as int != v) {
                1int
            } else {
                0int
            });
            if available[v] {
                smaller += 1;
            }
            v += 1;
        }
        proof {
            if val == 0 {
                assert(smaller_unused(perm@, i as int, 0) == 0);
                assert(smaller_unused(perm@, i as int, 1) == 0);
                assert(smaller == 0);
            } else {
                assert(v == val);
                assert(smaller == smaller_unused(perm@, i as int, v as int));
            }
        }
        assert(smaller == smaller_unused(perm@, i as int, val as int));
        let m = n - 1 - i;
        let mut factorial: u64 = 1;
        let mut t: u64 = 1;
        proof {
            lemma_fact_mono((n - 1 - i) as int, n as int);
        }
        while t <= m as u64
            invariant
                1 <= t <= m + 1,
                m < n,
                factorial == fact(t - 1),
                fact(m as int) <= u64::MAX,
                fact(n as int) <= u64::MAX,
            decreases m + 1 - t,
        {
            proof {
                lemma_fact_mono(t as int, m as int);
                assert(fact(t as int) == t * fact(t - 1));
            }
            factorial = factorial * t;
            t += 1;
        }
        proof {
            assert(rank_upto(perm@, i + 1) <= u64::MAX);
            lemma_fact_pos(m as int);
            assert(smaller * factorial >= 0) by (nonlinear_arith)
                requires
                    smaller >= 0,
                    factorial >= 1,
            ;
        }
        rank += smaller * factorial;
        if val <= n {
            available.set(val, false);
        }
        proof {
            assert forall|w: int| 0 <= w <= n implies (available@[w] <==> forall|j: int| 0 <= j < i + 1 ==> perm@[j] as int != w) by {
                if w != val {
                    if !(forall|j: int| 0 <= j < i + 1 ==> perm@[j] as int != w) {
                        let j = choose|j: int| 0 <= j < i + 1 && perm@[j] as int == w;
                        assert(j < i);
                    }
                }
            }
        }
    }
    rank
}


/// Contents of a vector of vectors, as sequences.
pub open spec fn views(r: Seq<Vec<u8>>) -> Seq<Seq<u8>> {
    Seq::new(r.len(), |i: int| r[i]@)
}

/// Smallest value allowed next after the prefix `c`: at least `|c| + 1`
/// and at least the previous entry.
pub open spec fn next_lo(c: Seq<u8>) -> int {
    let d = c.len() as int;
    let prev: int = if d > 0 {
        c[d - 1] as int
    } else {
        1
    };
    if d + 1 >= prev {
        d + 1
    } else {
        prev
    }
}

/// All boards of length `n` with entries at most `mx` extending the prefix
/// `c`, in lexicographic order: each next entry runs from [`next_lo`] up to `mx`.
pub open spec fn boards_from(n: nat, mx: nat, c: Seq<u8>) -> Seq<Seq<u8>>
    decreases n - c.len(), mx + 2, 0int,
{
    if c.len() >= n {
        seq![c]
    } else {
        boards_range(n, mx, c, next_lo(c))
    }
}

/// The boards extending `c` whose next entry is at least `v`.
pub open spec fn boards_range(n: nat, mx: nat, c: Seq<u8>, v: int) -> Seq<Seq<u8>>
    decreases n - c.len(), if v <= mx + 1 { mx + 1 - v } else { 0 }, 1int,
{
    if v > mx || v < 1 || c.len() >= n {
        Seq::empty()
    } else {
        boards_from(n, mx, c.push(v as u8)) + boards_range(n, mx, c, v + 1)
    }
}

/// Append to `r` every completion of the prefix `c` (of length `d`) to a board
/// of length `n` with entries at most `mx`, in lexicographic order; `c` is restored.
pub fn gb(n: usize, mx: usize, d: usize, c: &mut Vec<u8>, r: &mut Vec<Vec<u8>>)
    requires
        old(c).len() == d,
        d <= n,
    ensures
        final(c)@ == old(c)@,
        views(final(r)@) == views(old(r)@) + boards_from(n as nat, mx as nat, old(c)@),
    decreases n - d,
{
    let ghost c0 = c@;
    let ghost r0 = r@;
    if d == n {
        let cc = c.clone();
        assert(cc@ =~= c@);
        r.push(cc);
        assert(views(r@) =~= views(r0) + seq![c0]);
        return;
    }
    let prev: usize = if d > 0 {
        c[d - 1] as usize
    } else {
        1
    };
    let lo: usize = if d + 1 >= prev {
        d + 1
    } else {
        prev
    };
    assert(lo == next_lo(c0));
    let count: usize = if lo <= mx {
        mx - lo + 1
    } else {
        0
    };
    let mut k: usize = 0;
    while k < count
        invariant
            c@ == c0,
            c0.len() == d,
            d < n,
            1 <= lo,
            count == if lo <= mx { mx - lo + 1 } else { 0 },
            k <= count,
            views(r@) + boards_range(n as nat, mx as nat, c0, lo + k) == views(r0) + boards_from(n as nat, mx as nat, c0),
        decreases count - k,
    {
        let v = lo + k;
        let ghost before = views(r@);
        c.push(v as u8);
        gb(n, mx, d + 1, c, r);
        c.pop();
        assert(c@ =~= c0);
        proof {
            assert(boards_range(n as nat, mx as nat, c0, v as int) == boards_from(n as nat, mx as nat, c0.push(v as u8))
                + boards_range(n as nat, mx as nat, c0, v + 1));
            vstd::seq_lib::lemma_concat_associative(
                before,
                boards_from(n as nat, mx as nat, c0.push(v as u8)),
                boards_range(n as nat, mx as nat, c0, v + 1),
            );
        }
        k += 1;
    }
    assert(boards_range(n as nat, mx as nat, c0, lo + k) =~= Seq::<Seq<u8>>::empty());
    assert(views(r@) =~= views(r@) + Seq::<Seq<u8>>::empty());
}

/// All boards of length `n` (weakly increasing, `i + 1 <= b[i] <= n`) in lexicographic order.
pub fn gen_boards(n: usize) -> (r: Vec<Vec<u8>>)
    ensures
        views(r@) == boards_from(n as nat, n as nat, Seq::empty()),
{
    let mut r: Vec<Vec<u8>> = Vec::new();
    let mut c: Vec<u8> = Vec::new();
    gb(n, n, 0, &mut c, &mut r);
    assert(views(Seq::<Vec<u8>>::empty()) =~= Seq::<Seq<u8>>::empty());
    assert(Seq::<Seq<u8>>::empty() + boards_from(n as nat, n as nat, c@) =~= boards_from(n as nat, n as nat, c@));
    r
}


/// `c` can start a board with entries at most `mx`: `i + 1 <= c[i] <= mx`, weakly increasing.
pub open spec fn board_prefix(c: Seq<u8>, mx: int) -> bool {
    &&& forall|i: int| 0 <= i < c.len() ==> i + 1 <= #[trigger] c[i] <= mx
    &&& forall|i: int, j: int| 0 <= i <= j < c.len() ==> c[i] <= c[j]
}

/// A board of size `n` with entries at most `mx`.
pub open spec fn is_board(b: Seq<u8>, n: int, mx: int) -> bool {
    b.len() == n && board_prefix(b, mx)
}

proof fn lemma_push_prefix(c: Seq<u8>, mx: int, v: int)
    requires
        board_prefix(c, mx),
        next_lo(c) <= v <= mx,
        mx <= 255,
    ensures
        board_prefix(c.push(v as u8), mx),
{
    let c2 = c.push(v as u8);
    assert forall|i: int, j: int| 0 <= i <= j < c2.len() implies c2[i] <= c2[j] by {
        if j == c.len() && i < j {
            assert(c[i] <= c[c.len() - 1]);
        }
    }
}

proof fn lemma_boards_from_sound(n: nat, mx: nat, c: Seq<u8>)
    requires
        board_prefix(c, mx as int),
        c.len() <= n,
        mx <= 255,
    ensures
        forall|i: int|
            0 <= i < boards_from(n, mx, c).len() ==> is_board(#[trigger] boards_from(n, mx, c)[i], n as int, mx as int)
                && boards_from(n, mx, c)[i].subrange(0, c.len() as int) == c,
    decreases n - c.len(), mx + 2, 0int,
{
    if c.len() < n {
        lemma_boards_range_sound(n, mx, c, next_lo(c));
        assert(boards_from(n, mx, c) == boards_range(n, mx, c, next_lo(c)));
    } else {
        assert(c.subrange(0, c.len() as int) =~= c);
        assert(boards_from(n, mx, c) == seq![c]);
        assert(boards_from(n, mx, c)[0] == c);
    }
}

proof fn lemma_boards_range_sound(n: nat, mx: nat, c: Seq<u8>, v: int)
    requires
        board_prefix(c, mx as int),
        c.len() < n,
        v >= next_lo(c),
        mx <= 255,
    ensures
        forall|i: int|
            0 <= i < boards_range(n, mx, c, v).len() ==> is_board(#[trigger] boards_range(n, mx, c, v)[i], n as int, mx as int)
                && boards_range(n, mx, c, v)[i].subrange(0, c.len() as int) == c,
    decreases n - c.len(), if v <= mx + 1 { mx + 1 - v } else { 0 }, 1int,
{
    if !(v > mx || v < 1) {
        let c2 = c.push(v as u8);
        lemma_push_prefix(c, mx as int, v);
        lemma_boards_from_sound(n, mx, c2);
        lemma_boards_range_sound(n, mx, c, v + 1);
        let a = boards_from(n, mx, c2);
        let b = boards_range(n, mx, c, v + 1);
        assert forall|i: int| 0 <= i < (a + b).len() implies is_board(#[trigger] (a + b)[i], n as int, mx as int)
            && (a + b)[i].subrange(0, c.len() as int) == c by {
            if i < a.len() {
                assert((a + b)[i] == a[i]);
                assert(a[i].subrange(0, c2.len() as int) == c2);
                assert(a[i].subrange(0, c.len() as int) =~= a[i].subrange(0, c2.len() as int).subrange(0, c.len() as int));
                assert(c2.subrange(0, c.len() as int) =~= c);
            } else {
                assert((a + b)[i] == b[i - a.len()]);
            }
        }
    }
}

proof fn lemma_boards_from_complete(n: nat, mx: nat, b: Seq<u8>, k: int)
    requires
        is_board(b, n as int, mx as int),
        0 <= k <= n,
    ensures
        boards_from(n, mx, b.subrange(0, k)).contains(b),
    decreases n - k, mx + 2, 0int,
{
    let c = b.subrange(0, k);
    if k == n {
        assert(c =~= b);
        assert(boards_from(n, mx, c)[0] == b);
    } else {
        let v = b[k] as int;
        assert(next_lo(c) <= v) by {
            if k > 0 {
                assert(b[k - 1] <= b[k]);
            }
        }
        lemma_boards_range_complete(n, mx, b, k, next_lo(c));
    }
}

proof fn lemma_boards_range_complete(n: nat, mx: nat, b: Seq<u8>, k: int, lo: int)
    requires
        is_board(b, n as int, mx as int),
        0 <= k < n,
        1 <= lo <= b[k],
    ensures
        boards_range(n, mx, b.subrange(0, k), lo).contains(b),
    decreases n - k, if lo <= mx + 1 { mx + 1 - lo } else { 0 }, 1int,
{
    let c = b.subrange(0, k);
    let v = b[k] as int;
    assert(v <= mx);
    let a = boards_from(n, mx, c.push(lo as u8));
    let rest = boards_range(n, mx, c, lo + 1);
    assert(boards_range(n, mx, c, lo) == a + rest);
    if lo == v {
        assert(c.push(lo as u8) =~= b.subrange(0, k + 1));
        lemma_boards_from_complete(n, mx, b, k + 1);
        let i = choose|i: int| 0 <= i < a.len() && a[i] == b;
        assert((a + rest)[i] == b);
    } else {
        lemma_boards_range_complete(n, mx, b, k, lo + 1);
        let i = choose|i: int| 0 <= i < rest.len() && rest[i] == b;
        assert((a + rest)[i + a.len()] == b);
    }
}

/// [`gen_boards`] lists exactly the boards of size `n`: every entry is a board
/// (`i + 1 <= b[i] <= n`, weakly increasing) and every board occurs.
pub proof fn lemma_gen_boards_exact(n: nat, b: Seq<u8>)
    requires
        n <= 255,
    ensures
        forall|i: int|
            0 <= i < boards_from(n, n, Seq::empty()).len() ==> is_board(
                #[trigger] boards_from(n, n, Seq::empty())[i],
                n as int,
                n as int,
            ),
        is_board(b, n as int, n as int) ==> boards_from(n, n, Seq::empty()).contains(b),
{
    lemma_boards_from_sound(n, n, Seq::empty());
    if is_board(b, n as int, n as int) {
        lemma_boards_from_complete(n, n, b, 0);
        assert(b.subrange(0, 0) =~= Seq::<u8>::empty());
    }
}


/// First step of `f << g` for the board experiments. After trimming, a zero
/// `f` interlaces everything and a zero `g` is interlaced by nothing else;
/// otherwise the question is `(f, g)`: a definite answer settles it, and an
/// undecided one is passed to [`interlaces_undecided`].
pub fn interlaces(f: &[i64], g: &[i64]) -> (s: InterlaceStep)
    ensures
        all_zero(f@) ==> s == InterlaceStep::Decided(true),
        !all_zero(f@) && all_zero(g@) ==> s == InterlaceStep::Decided(false),
        !all_zero(f@) && !all_zero(g@) ==> (s matches InterlaceStep::Ask(a, b) && a@ == strip(f@) && b@ == strip(g@)),
{
    let tf = pt(f);
    let tg = pt(g);
    proof {
        lemma_strip(f@);
        lemma_strip(g@);
        lemma_all_zero_strip(f@);
        lemma_all_zero_strip(g@);
    }
    if pz(&tf) {
        return InterlaceStep::Decided(true);
    }
    if pz(&tg) {
        return InterlaceStep::Decided(false);
    }
    InterlaceStep::Ask(tf, tg)
}

/// `p` is zero exactly when its trimmed form is.
proof fn lemma_all_zero_strip(p: Seq<i64>)
    ensures
        all_zero(p) == all_zero(strip(p)),
    decreases p.len(),
{
    if p.len() > 1 && p.last() == 0 {
        lemma_all_zero_strip(p.drop_last());
        assert(strip(p) == strip(p.drop_last()));
        if all_zero(p.drop_last()) {
            assert forall|i: int| 0 <= i < p.len() implies p[i] == 0 by {
                if i < p.len() - 1 {
                    assert(p.drop_last()[i] == p[i]);
                }
            }
        }
        if all_zero(p) {
            assert forall|i: int| 0 <= i < p.drop_last().len() implies p.drop_last()[i] == 0 by {
                assert(p.drop_last()[i] == p[i]);
            }
        }
    }
}

/// Second step of `f << g` (both nonzero) after the question `(f, g)` was left
/// undecided: if `f` and `g` have the same degree the question becomes
/// `(g, t f)`, whose undecided outcome counts as `false`; otherwise it fails.
pub fn interlaces_undecided(f: &[i64], g: &[i64]) -> (s: InterlaceStep)
    requires
        f.len() < usize::MAX - 1,
    ensures
        forall|df: usize, dg: usize|
            is_degree(f@, Some(df)) && is_degree(g@, Some(dg)) ==> if df == dg {
                s matches InterlaceStep::Ask(a, b) && a@ == strip(g@) && b@ == strip(seq_shift(strip(f@), 1))
            } else {
                s == InterlaceStep::Decided(false)
            },
        is_degree(f@, None) || is_degree(g@, None) ==> s == InterlaceStep::Decided(false),
{
    let tf = pt(f);
    let tg = pt(g);
    let df = pdeg(&tf);
    let dg = pdeg(&tg);
    proof {
        lemma_degree_strip(f@, df);
        lemma_degree_strip(g@, dg);
    }
    match (df, dg) {
        (Some(a), Some(b)) => {
            if a == b {
                proof {
                    lemma_strip(f@);
                }
                let shifted = pmt(&tf);
                InterlaceStep::Ask(tg, shifted)
            } else {
                InterlaceStep::Decided(false)
            }
        },
        _ => InterlaceStep::Decided(false),
    }
}

/// Trimming keeps the degree.
proof fn lemma_degree_strip(p: Seq<i64>, d: Option<usize>)
    requires
        is_degree(strip(p), d),
    ensures
        is_degree(p, d),
        forall|e: Option<usize>| #[trigger] is_degree(p, e) ==> e == d,
    decreases p.len(),
{
    lemma_strip(p);
    lemma_all_zero_strip(p);
    if p.len() > 1 && p.last() == 0 {
        assert(strip(p) == strip(p.drop_last()));
        lemma_degree_strip(p.drop_last(), d);
        assert forall|i: int| 0 <= i < p.len() - 1 implies p.drop_last()[i] == p[i] by {}
        match d {
            Some(k) => {
                assert(p[k as int] == p.drop_last()[k as int]);
            },
            None => {},
        }
        assert forall|e: Option<usize>| #[trigger] is_degree(p, e) implies e == d by {
            match e {
                Some(k) => {
                    if k as int == p.len() - 1 {
                        assert(p[k as int] == 0);
                    }
                    assert(is_degree(p.drop_last(), e));
                },
                None => {
                    assert(is_degree(p.drop_last(), e));
                },
            }
        }
    } else {
        assert(strip(p) == p);
        assert forall|e: Option<usize>| #[trigger] is_degree(p, e) implies e == d by {
            match (e, d) {
                (Some(k), Some(l)) => {
                    if k < l {
                        assert(p[l as int] == 0);
                    }
                    if l < k {
                        assert(p[k as int] == 0);
                    }
                },
                (Some(k), None) => {
                    assert(p[k as int] == 0);
                },
                (None, Some(l)) => {
                    assert(p[l as int] == 0);
                },
                (None, None) => {},
            }
        }
    }
}


/// `a o b` as a sequence: `a[b[j] - 1]` for each entry of `b`.
pub open spec fn composed(a: Seq<u8>, b: Seq<u8>) -> Seq<u8> {
    Seq::new(b.len(), |j: int| a[b[j] - 1])
}

/// Sum over the first `m` permutations `pi` of `lex_rank(sigma o pi) + 1`,
/// `sigma` the image given for `pi`.
pub open spec fn depth_sum(pi_set: Seq<Vec<u8>>, sigmas: Seq<Vec<u8>>, m: int) -> int
    decreases m,
{
    if m <= 0 {
        0
    } else {
        let c = composed(sigmas[m - 1]@, pi_set[m - 1]@);
        depth_sum(pi_set, sigmas, m - 1) + rank_upto(c, c.len() as int) + 1
    }
}

/// What [`compose`] and [`lex_rank`] need of a permutation and its image.
pub open spec fn depth_inputs_ok(pi: Seq<u8>, sigma: Seq<u8>) -> bool {
    &&& forall|j: int| 0 <= j < pi.len() ==> 1 <= #[trigger] pi[j] <= sigma.len()
    &&& pi.len() < usize::MAX
    &&& forall|j: int| 0 <= j < pi.len() ==> #[trigger] composed(sigma, pi)[j] <= pi.len()
    &&& rank_fits(composed(sigma, pi))
}

proof fn lemma_rank_nonneg(perm: Seq<u8>, i: int)
    ensures
        rank_upto(perm, i) >= 0,
    decreases i,
{
    if i > 0 {
        lemma_rank_nonneg(perm, i - 1);
        lemma_fact_pos(perm.len() - 1 - (i - 1));
        lemma_smaller_nonneg(perm, i - 1, perm[i - 1] as int);
        let a = smaller_unused(perm, i - 1, perm[i - 1] as int);
        let b = fact(perm.len() - 1 - (i - 1));
        assert(a * b >= 0) by (nonlinear_arith)
            requires
                a >= 0,
                b >= 1,
        ;
    }
}

proof fn lemma_smaller_nonneg(perm: Seq<u8>, i: int, val: int)
    ensures
        smaller_unused(perm, i, val) >= 0,
    decreases val,
{
    if val > 1 {
        lemma_smaller_nonneg(perm, i, val - 1);
    }
}

proof fn lemma_depth_sum_mono(pi_set: Seq<Vec<u8>>, sigmas: Seq<Vec<u8>>, a: int, b: int)
    requires
        0 <= a <= b,
    ensures
        depth_sum(pi_set, sigmas, a) <= depth_sum(pi_set, sigmas, b),
    decreases b - a,
{
    if a < b {
        lemma_depth_sum_mono(pi_set, sigmas, a, b - 1);
        let c = composed(sigmas[b - 1]@, pi_set[b - 1]@);
        lemma_rank_nonneg(c, c.len() as int);
    }
}

/// Total depth of a set of permutations: the sum over `pi` of
/// `lex_rank(sigma o pi) + 1`, where `sigmas[k]` is the image assigned to `pi_set[k]`.
pub fn total_depth(pi_set: &[Vec<u8>], sigmas: &[Vec<u8>]) -> (total: u64)
    requires
        sigmas.len() == pi_set.len(),
        forall|k: int| 0 <= k < pi_set.len() ==> depth_inputs_ok(#[trigger] pi_set@[k]@, sigmas@[k]@),
        depth_sum(pi_set@, sigmas@, pi_set.len() as int) <= u64::MAX,
    ensures
        total == depth_sum(pi_set@, sigmas@, pi_set.len() as int),
{
    let mut total: u64 = 0;
    let mut k: usize = 0;
    while k < pi_set.len()
        invariant
            k <= pi_set.len(),
            sigmas.len() == pi_set.len(),
            forall|k: int| 0 <= k < pi_set.len() ==> depth_inputs_ok(#[trigger] pi_set@[k]@, sigmas@[k]@),
            depth_sum(pi_set@, sigmas@, pi_set.len() as int) <= u64::MAX,
            total == depth_sum(pi_set@, sigmas@, k as int),
        decreases pi_set.len() - k,
    {
        assert(depth_inputs_ok(pi_set@[k as int]@, sigmas@[k as int]@));
        let sigma_pi = compose(&sigmas[k], &pi_set[k]);
        assert(sigma_pi@ =~= composed(sigmas@[k as int]@, pi_set@[k as int]@));
        let rank = lex_rank(&sigma_pi);
        proof {
            lemma_depth_sum_mono(pi_set@, sigmas@, k + 1, pi_set.len() as int);
        }
        total = total + rank + 1;
        k += 1;
    }
    total
}


/// The permutation starts with a descent.
pub open spec fn starts_descending(w: Seq<u8>) -> bool {
    w.len() >= 2 && w[0] > w[1]
}

/// Peak counts of the first `m` members of the ideal that start with `j`,
/// end with `l` and start with a descent exactly when `desc`.
pub open spec fn peak_vals(ideal: Seq<Vec<u8>>, j: int, l: int, desc: bool, m: int) -> Seq<usize>
    decreases m,
{
    if m <= 0 {
        Seq::empty()
    } else {
        let w = ideal[m - 1]@;
        if w[0] as int == j && w[w.len() - 1] as int == l && starts_descending(w) == desc {
            peak_vals(ideal, j, l, desc, m - 1).push(peaks_below(w, w.len() - 1) as usize)
        } else {
            peak_vals(ideal, j, l, desc, m - 1)
        }
    }
}

/// The peak polynomial of a cell: `[0]` when empty, else the counts of each peak number.
pub open spec fn cell_poly(vals: Seq<usize>) -> Seq<i64> {
    if vals.len() == 0 {
        seq![0i64]
    } else {
        crate::poly::histogram(vals)
    }
}

proof fn lemma_peak_vals_bounds(ideal: Seq<Vec<u8>>, j: int, l: int, desc: bool, m: int)
    requires
        0 <= m <= ideal.len(),
        forall|k: int| 0 <= k < ideal.len() ==> (#[trigger] ideal[k]).len() >= 1,
    ensures
        peak_vals(ideal, j, l, desc, m).len() <= m,
        forall|k: int| 0 <= k < peak_vals(ideal, j, l, desc, m).len() ==> #[trigger] peak_vals(ideal, j, l, desc, m)[k] < usize::MAX,
    decreases m,
{
    if m > 0 {
        lemma_peak_vals_bounds(ideal, j, l, desc, m - 1);
        let w = ideal[m - 1]@;
        lemma_peaks_below_le(w, w.len() - 1);
    }
}

proof fn lemma_peaks_below_le(w: Seq<u8>, m: int)
    ensures
        peaks_below(w, m) <= if m < 0 { 0 } else { m },
    decreases m,
{
    if m > 1 {
        lemma_peaks_below_le(w, m - 1);
    }
}

fn cell_values(ideal: &[Vec<u8>], j: usize, l: usize, desc: bool) -> (vals: Vec<usize>)
    requires
        forall|k: int| 0 <= k < ideal.len() ==> (#[trigger] ideal@[k]).len() >= 1,
    ensures
        vals@ == peak_vals(ideal@, j as int, l as int, desc, ideal.len() as int),
{
    let mut vals: Vec<usize> = Vec::new();
    let mut k: usize = 0;
    while k < ideal.len()
        invariant
            k <= ideal.len(),
            forall|k: int| 0 <= k < ideal.len() ==> (#[trigger] ideal@[k]).len() >= 1,
            vals@ == peak_vals(ideal@, j as int, l as int, desc, k as int),
        decreases ideal.len() - k,
    {
        let w = &ideal[k];
        assert(ideal@[k as int].len() >= 1);
        let first = w[0] as usize;
        let last = w[w.len() - 1] as usize;
        let d = w.len() >= 2 && w[0] > w[1];
        if first == j && last == l && d == desc {
            vals.push(peaks(w.as_slice()));
        }
        k += 1;
    }
    vals
}

/// Peak tables of a Bruhat ideal: entry `(j, l)` of the first table (`D`)
/// counts, by number of peaks, the members starting with a descent whose
/// first entry is `j` and last entry is `l`; the second (`U`) those starting
/// with an ascent (or of length one). Indices run over `0..=m`.
pub fn peak_tables(ideal: &[Vec<u8>], m: usize) -> (r: (Vec<Vec<Vec<i64>>>, Vec<Vec<Vec<i64>>>))
    requires
        m < usize::MAX,
        ideal.len() <= i64::MAX,
        forall|k: int| 0 <= k < ideal.len() ==> (#[trigger] ideal@[k]).len() >= 1,
    ensures
        r.0.len() == m + 1 && r.1.len() == m + 1,
        forall|j: int| 0 <= j <= m ==> (#[trigger] r.0@[j]).len() == m + 1 && r.1@[j].len() == m + 1,
        forall|j: int, l: int|
            0 <= j <= m && 0 <= l <= m ==> (#[trigger] r.0@[j]@[l])@ == cell_poly(peak_vals(ideal@, j, l, true, ideal.len() as int))
                && r.1@[j]@[l]@ == cell_poly(peak_vals(ideal@, j, l, false, ideal.len() as int)),
{
    let mut dt: Vec<Vec<Vec<i64>>> = Vec::new();
    let mut ut: Vec<Vec<Vec<i64>>> = Vec::new();
    let mut j: usize = 0;
    while j <= m
        invariant
            j <= m + 1,
            m < usize::MAX,
            ideal.len() <= i64::MAX,
            forall|k: int| 0 <= k < ideal.len() ==> (#[trigger] ideal@[k]).len() >= 1,
            dt.len() == j && ut.len() == j,
            forall|a: int| 0 <= a < j ==> (#[trigger] dt@[a]).len() == m + 1 && ut@[a].len() == m + 1,
            forall|a: int, b: int|
                0 <= a < j && 0 <= b <= m ==> (#[trigger] dt@[a]@[b])@ == cell_poly(peak_vals(ideal@, a, b, true, ideal.len() as int))
                    && ut@[a]@[b]@ == cell_poly(peak_vals(ideal@, a, b, false, ideal.len() as int)),
        decreases m + 1 - j,
    {
        let mut drow: Vec<Vec<i64>> = Vec::new();
        let mut urow: Vec<Vec<i64>> = Vec::new();
        let mut l: usize = 0;
        while l <= m
            invariant
                l <= m + 1,
                j <= m,
                m < usize::MAX,
                ideal.len() <= i64::MAX,
                forall|k: int| 0 <= k < ideal.len() ==> (#[trigger] ideal@[k]).len() >= 1,
                drow.len() == l && urow.len() == l,
                forall|b: int|
                    0 <= b < l ==> (#[trigger] drow@[b])@ == cell_poly(peak_vals(ideal@, j as int, b, true, ideal.len() as int))
                        && urow@[b]@ == cell_poly(peak_vals(ideal@, j as int, b, false, ideal.len() as int)),
            decreases m + 1 - l,
        {
            let dv = cell_values(ideal, j, l, true);
            let uv = cell_values(ideal, j, l, false);
            proof {
                lemma_peak_vals_bounds(ideal@, j as int, l as int, true, ideal.len() as int);
                lemma_peak_vals_bounds(ideal@, j as int, l as int, false, ideal.len() as int);
            }
            drow.push(crate::poly::build_poly(&dv));
            urow.push(crate::poly::build_poly(&uv));
            l += 1;
        }
        dt.push(drow);
        ut.push(urow);
        j += 1;
    }
    (dt, ut)
}

} // verus!
