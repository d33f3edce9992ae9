//! Compatibility of polynomial families: two real-rooted polynomials are
//! compatible when their nonnegative combinations stay real-rooted; the
//! test samples the combinations `a f + b g` for a fixed list of weights.
//! Whether a polynomial is real-rooted, or whether one weakly interlaces
//! another, is decided elsewhere; the functions here choose what to ask and
//! combine the answers.
use vstd::prelude::*;
use crate::poly::{coef, fits_i64, strip, max_len, all_zero, poly_is_zero};

verus! {

/// The weights `(a, b)` of the sampled combinations `a f + b g`, in the order they are tried.
pub open spec fn standard_weights() -> Seq<(i64, i64)> {
    seq![(1, 1), (1, 2), (2, 1), (1, 3), (3, 1), (1, 5), (5, 1), (2, 3), (3, 2), (1, 7), (7, 1), (3, 5), (5, 3)]
}

/// The first `count` standard weights.
pub fn compat_weights(count: usize) -> (w: Vec<(i64, i64)>)
    requires
        count <= 13,
    ensures
        w@ == standard_weights().take(count as int),
{
    let all: Vec<(i64, i64)> = vec![(1, 1), (1, 2), (2, 1), (1, 3), (3, 1), (1, 5), (5, 1), (2, 3), (3, 2), (1, 7), (7, 1), (3, 5), (5, 3)];
    assert(all@ =~= standard_weights());
    let mut w: Vec<(i64, i64)> = Vec::new();
    let mut i: usize = 0;
    while i < count
        invariant
            i <= count <= 13,
            all@ == standard_weights(),
            w@ == standard_weights().take(i as int),
        decreases count - i,
    {
        w.push(all[i]);
        assert(standard_weights().take(i + 1) =~= standard_weights().take(i as int).push(standard_weights()[i as int]));
        i += 1;
    }
    w
}

/// Coefficient `i` of `a f + b g`.
pub open spec fn combo_coef(f: Seq<i64>, g: Seq<i64>, a: int, b: int, i: int) -> int {
    a * coef(f, i) + b * coef(g, i)
}

/// Forming `a f + b g` coefficient by coefficient stays within `i64`.
pub open spec fn combo_fits(f: Seq<i64>, g: Seq<i64>, a: int, b: int) -> bool {
    forall|i: int|
        0 <= i < max_len(f, g) ==> fits_i64(#[trigger] (a * coef(f, i))) && fits_i64(b * coef(g, i)) && fits_i64(
            combo_coef(f, g, a, b, i),
        )
}

/// `a f + b g`, as long as the longer operand, before trimming.
pub open spec fn combo(f: Seq<i64>, g: Seq<i64>, a: int, b: int) -> Seq<i64> {
    Seq::new(max_len(f, g), |i: int| combo_coef(f, g, a, b, i) as i64)
}

/// `a f + b g`, trimmed.
pub fn weighted_combo(f: &[i64], g: &[i64], a: i64, b: i64) -> (r: Vec<i64>)
    requires
        combo_fits(f@, g@, a as int, b as int),
    ensures
        r@ == strip(combo(f@, g@, a as int, b as int)),
{
    let maxlen = if f.len() >= g.len() {
        f.len()
    } else {
        g.len()
    };
    let mut c: Vec<i64> = Vec::new();
    let mut i: usize = 0;
    while i < maxlen
        invariant
            i <= maxlen,
            maxlen == max_len(f@, g@),
            combo_fits(f@, g@, a as int, b as int),
            c.len() == i,
            forall|k: int| 0 <= k < i ==> #[trigger] c@[k] == combo_coef(f@, g@, a as int, b as int, k),
        decreases maxlen - i,
    {
        assert(fits_i64(a * coef(f@, i as int)));
        let x: i64 = if i < f.len() {
            a * f[i]
        } else {
            0
        };
        let y: i64 = if i < g.len() {
            b * g[i]
        } else {
            0
        };
        assert(x == a * coef(f@, i as int)) by (nonlinear_arith)
            requires
                i < f.len() ==> x == a * f@[i as int] && coef(f@, i as int) == f@[i as int],
                i >= f.len() ==> x == 0 && coef(f@, i as int) == 0,
        ;
        assert(y == b * coef(g@, i as int)) by (nonlinear_arith)
            requires
                i < g.len() ==> y == b * g@[i as int] && coef(g@, i as int) == g@[i as int],
                i >= g.len() ==> y == 0 && coef(g@, i as int) == 0,
        ;
        c.push(x + y);
        i += 1;
    }
    assert(c@ =~= combo(f@, g@, a as int, b as int));
    crate::poly::trim_in_place(&mut c);
    c
}

/// Every sampled combination with the first `count` weights can be formed in `i64`.
pub open spec fn combos_fit(f: Seq<i64>, g: Seq<i64>, count: int) -> bool {
    forall|i: int| 0 <= i < count ==> #[trigger] combo_fits(f, g, standard_weights()[i].0 as int, standard_weights()[i].1 as int)
}

/// The sampled combination with weight number `i`, trimmed.
pub open spec fn candidate(f: Seq<i64>, g: Seq<i64>, i: int) -> Seq<i64> {
    strip(combo(f, g, standard_weights()[i].0 as int, standard_weights()[i].1 as int))
}

/// The combinations `a f + b g` for the first `count` standard weights, trimmed,
/// in the order they are tested.
pub fn compat_candidates(f: &[i64], g: &[i64], count: usize) -> (c: Vec<Vec<i64>>)
    requires
        count <= 13,
        combos_fit(f@, g@, count as int),
    ensures
        c.len() == count,
        forall|i: int| 0 <= i < count ==> #[trigger] c@[i]@ == candidate(f@, g@, i),
{
    let weights = compat_weights(count);
    let mut c: Vec<Vec<i64>> = Vec::new();
    let mut i: usize = 0;
    while i < count
        invariant
            i <= count <= 13,
            weights@ == standard_weights().take(count as int),
            combos_fit(f@, g@, count as int),
            c.len() == i,
            forall|k: int| 0 <= k < i ==> #[trigger] c@[k]@ == candidate(f@, g@, k),
        decreases count - i,
    {
        let (a, b) = weights[i];
        assert(combo_fits(f@, g@, standard_weights()[i as int].0 as int, standard_weights()[i as int].1 as int));
        c.push(weighted_combo(f, g, a, b));
        i += 1;
    }
    c
}

/// A pair of constants (or empty polynomials) is compatible without testing: every
/// combination of two constants is a constant. A pair with one constant member is
/// tested like any other, through its combinations.
pub open spec fn trivially_compatible(f: Seq<i64>, g: Seq<i64>) -> bool {
    f.len() <= 1 && g.len() <= 1
}

/// Given whether `f` and `g` are real-rooted and, for each sampled combination
/// `candidates[i]`, whether it is: `f` and `g` are compatible when the pair is
/// trivial, or both are real-rooted and so is every non-constant combination.
pub open spec fn compat_verdict(f_rr: bool, g_rr: bool, candidates: Seq<Vec<i64>>, candidates_rr: Seq<bool>) -> bool {
    f_rr && g_rr && forall|i: int| 0 <= i < candidates.len() && candidates[i].len() > 1 ==> #[trigger] candidates_rr[i]
}

fn verdict_from(f_rr: bool, g_rr: bool, candidates: &[Vec<i64>], candidates_rr: &[bool]) -> (r: bool)
    requires
        candidates_rr.len() == candidates.len(),
    ensures
        r == compat_verdict(f_rr, g_rr, candidates@, candidates_rr@),
{
    if !f_rr || !g_rr {
        return false;
    }
    let mut i: usize = 0;
    while i < candidates.len()
        invariant
            i <= candidates.len(),
            candidates_rr.len() == candidates.len(),
            forall|k: int| 0 <= k < i && candidates@[k].len() > 1 ==> #[trigger] candidates_rr@[k],
        decreases candidates.len() - i,
    {
        if candidates[i].len() > 1 && !candidates_rr[i] {
            return false;
        }
        i += 1;
    }
    true
}

/// The first `candidates.len()` sampled combinations of `f` and `g`, as
/// [`compat_candidates`] builds them.
pub open spec fn own_candidates(f: Seq<i64>, g: Seq<i64>, candidates: Seq<Vec<i64>>) -> bool {
    candidates.len() <= 13 && forall|i: int| 0 <= i < candidates.len() ==> (#[trigger] candidates[i])@ == candidate(f, g, i)
}

/// Compatibility of `f` and `g` from the answers of the real-rootedness test:
/// `f_rr` for `f`, `g_rr` for `g`, `candidates_rr[i]` for `candidates[i]`
/// (the combinations of [`compat_candidates`]).
pub fn check_pairwise_compatible(
    f: &[i64],
    g: &[i64],
    f_rr: bool,
    g_rr: bool,
    candidates: &[Vec<i64>],
    candidates_rr: &[bool],
) -> (r: bool)
    requires
        candidates_rr.len() == candidates.len(),
        own_candidates(f@, g@, candidates@),
    ensures
        r == (trivially_compatible(f@, g@) || compat_verdict(f_rr, g_rr, candidates@, candidates_rr@)),
{
    if f.len() <= 1 && g.len() <= 1 {
        return true;
    }
    verdict_from(f_rr, g_rr, candidates, candidates_rr)
}

/// Index of the weight `(b, a)` when weight number `i` is `(a, b)`.
pub open spec fn mirror_weight(i: int) -> int {
    if i == 0 {
        0
    } else if i % 2 == 1 {
        i + 1
    } else {
        i - 1
    }
}

proof fn lemma_mirror_weight(i: int)
    requires
        0 <= i < 13,
    ensures
        0 <= mirror_weight(i) < 13,
        mirror_weight(mirror_weight(i)) == i,
        standard_weights()[mirror_weight(i)] == (standard_weights()[i].1, standard_weights()[i].0),
{
    assert(standard_weights().len() == 13);
    if i == 0 {} else if i == 1 {} else if i == 2 {} else if i == 3 {} else if i == 4 {} else if i == 5 {}
    else if i == 6 {} else if i == 7 {} else if i == 8 {} else if i == 9 {} else if i == 10 {} else if i == 11 {}
    else {}
}

/// The sampled combinations of `(g, f)` are those of `(f, g)` with each weight
/// swapped: combination `i` of `(f, g)` is combination `mirror_weight(i)` of `(g, f)`.
pub proof fn lemma_candidates_symmetric(f: Seq<i64>, g: Seq<i64>, i: int)
    requires
        0 <= i < 13,
    ensures
        0 <= mirror_weight(i) < 13,
        candidate(g, f, mirror_weight(i)) == candidate(f, g, i),
{
    lemma_mirror_weight(i);
    let (a, b) = standard_weights()[i];
    assert(combo(g, f, b as int, a as int) =~= combo(f, g, a as int, b as int));
}

/// Compatibility does not depend on the order of the pair: with the combinations
/// of [`compat_candidates`] for `(f, g)` and for `(g, f)` (a count that takes each
/// weight with its swap), and one answer of the real-rootedness test per
/// polynomial (the same polynomial gets the same answer), [`check_pairwise_compatible`]
/// gives the same verdict both ways.
pub proof fn lemma_compatibility_symmetric(
    f: Seq<i64>,
    g: Seq<i64>,
    f_rr: bool,
    g_rr: bool,
    count: int,
    c_fg: Seq<Vec<i64>>,
    c_gf: Seq<Vec<i64>>,
    rr_fg: Seq<bool>,
    rr_gf: Seq<bool>,
)
    requires
        0 <= count <= 13,
        count % 2 == 1,
        c_fg.len() == count && c_gf.len() == count && rr_fg.len() == count && rr_gf.len() == count,
        forall|i: int| 0 <= i < count ==> (#[trigger] c_fg[i])@ == candidate(f, g, i),
        forall|i: int| 0 <= i < count ==> (#[trigger] c_gf[i])@ == candidate(g, f, i),
        forall|i: int, j: int| 0 <= i < count && 0 <= j < count && c_fg[i]@ == c_gf[j]@ ==> #[trigger] rr_fg[i] == #[trigger] rr_gf[j],
    ensures
        (trivially_compatible(f, g) || compat_verdict(f_rr, g_rr, c_fg, rr_fg))
            == (trivially_compatible(g, f) || compat_verdict(g_rr, f_rr, c_gf, rr_gf)),
{
    assert forall|i: int| 0 <= i < count implies 0 <= #[trigger] mirror_weight(i) < count && c_gf[mirror_weight(i)]@
        == c_fg[i]@ by {
        lemma_candidates_symmetric(f, g, i);
        lemma_mirror_weight(i);
    }
    assert forall|j: int| 0 <= j < count implies 0 <= #[trigger] mirror_weight(j) < count && c_fg[mirror_weight(j)]@
        == c_gf[j]@ by {
        lemma_candidates_symmetric(g, f, j);
        lemma_mirror_weight(j);
    }
    if compat_verdict(f_rr, g_rr, c_fg, rr_fg) {
        assert forall|j: int| 0 <= j < c_gf.len() && c_gf[j].len() > 1 implies #[trigger] rr_gf[j] by {
            let i = mirror_weight(j);
            assert(c_fg[i]@ == c_gf[j]@);
            assert(rr_fg[i] == rr_gf[j]);
        }
    }
    if compat_verdict(g_rr, f_rr, c_gf, rr_gf) {
        assert forall|i: int| 0 <= i < c_fg.len() && c_fg[i].len() > 1 implies #[trigger] rr_fg[i] by {
            let j = mirror_weight(i);
            assert(c_gf[j]@ == c_fg[i]@);
            assert(rr_fg[i] == rr_gf[j]);
        }
    }
}

/// In a chain a pair is trivially compatible when one member is zero or both are constant.
pub open spec fn trivially_compatible_in_chain(f: Seq<i64>, g: Seq<i64>) -> bool {
    all_zero(f) || all_zero(g) || (f.len() <= 1 && g.len() <= 1)
}

/// The chain rule does not depend on the order of the pair either: under the
/// conditions of [`lemma_compatibility_symmetric`], [`check_chain_pair_compatible`]
/// gives the same verdict for `(f, g)` and for `(g, f)`.
pub proof fn lemma_chain_compatibility_symmetric(
    f: Seq<i64>,
    g: Seq<i64>,
    f_rr: bool,
    g_rr: bool,
    count: int,
    c_fg: Seq<Vec<i64>>,
    c_gf: Seq<Vec<i64>>,
    rr_fg: Seq<bool>,
    rr_gf: Seq<bool>,
)
    requires
        0 <= count <= 13,
        count % 2 == 1,
        c_fg.len() == count && c_gf.len() == count && rr_fg.len() == count && rr_gf.len() == count,
        forall|i: int| 0 <= i < count ==> (#[trigger] c_fg[i])@ == candidate(f, g, i),
        forall|i: int| 0 <= i < count ==> (#[trigger] c_gf[i])@ == candidate(g, f, i),
        forall|i: int, j: int| 0 <= i < count && 0 <= j < count && c_fg[i]@ == c_gf[j]@ ==> #[trigger] rr_fg[i] == #[trigger] rr_gf[j],
    ensures
        (trivially_compatible_in_chain(f, g) || compat_verdict(f_rr, g_rr, c_fg, rr_fg))
            == (trivially_compatible_in_chain(g, f) || compat_verdict(g_rr, f_rr, c_gf, rr_gf)),
{
    lemma_compatibility_symmetric(f, g, f_rr, g_rr, count, c_fg, c_gf, rr_fg, rr_gf);
    if trivially_compatible(f, g) {
        assert forall|i: int| 0 <= i < count implies (#[trigger] c_fg[i]).len() <= 1 by {
            let (a, b) = standard_weights()[i];
            crate::poly::lemma_strip(combo(f, g, a as int, b as int));
        }
        assert forall|i: int| 0 <= i < count implies (#[trigger] c_gf[i]).len() <= 1 by {
            let (a, b) = standard_weights()[i];
            crate::poly::lemma_strip(combo(g, f, a as int, b as int));
        }
    }
}

/// [`check_pairwise_compatible`] with the triviality rule used along chains.
pub fn check_chain_pair_compatible(
    f: &[i64],
    g: &[i64],
    f_rr: bool,
    g_rr: bool,
    candidates: &[Vec<i64>],
    candidates_rr: &[bool],
) -> (r: bool)
    requires
        candidates_rr.len() == candidates.len(),
        own_candidates(f@, g@, candidates@),
    ensures
        r == (trivially_compatible_in_chain(f@, g@) || compat_verdict(f_rr, g_rr, candidates@, candidates_rr@)),
{
    if poly_is_zero(f) || poly_is_zero(g) {
        return true;
    }
    if f.len() <= 1 && g.len() <= 1 {
        return true;
    }
    verdict_from(f_rr, g_rr, candidates, candidates_rr)
}

/// `m` has an entry for every pair `i < j < n`.
pub open spec fn pair_table(m: Seq<Vec<bool>>, n: int) -> bool {
    forall|i: int| 0 <= i < n ==> #[trigger] m[i].len() >= n
}

/// `(i, j)` comes before `(k, l)` lexicographically.
pub open spec fn pair_before(p: (usize, usize), q: (usize, usize)) -> bool {
    p.0 < q.0 || (p.0 == q.0 && p.1 < q.1)
}

/// A pair of the family that is tested and found incompatible.
pub open spec fn failing_pair(polys: Seq<Vec<i64>>, compatible: Seq<Vec<bool>>, i: int, j: int) -> bool {
    0 <= i < j < polys.len() && polys[i].len() > 1 && polys[j].len() > 1 && !compatible[i][j]
}

/// Whether a family is compatible, with its failing pairs: pairs `i < j` of
/// non-constant members with `compatible[i][j]` false (the answer of
/// [`check_pairwise_compatible`] for `polys[i], polys[j]`), in lexicographic order.
pub fn check_compatible_family(polys: &[Vec<i64>], compatible: &[Vec<bool>]) -> (r: (bool, Vec<(usize, usize)>))
    requires
        compatible.len() >= polys.len(),
        pair_table(compatible@, polys.len() as int),
    ensures
        forall|k: int, l: int| 0 <= k < l < r.1.len() ==> pair_before(r.1@[k], r.1@[l]),
        forall|k: int|
            0 <= k < r.1.len() ==> failing_pair(polys@, compatible@, (#[trigger] r.1@[k]).0 as int, r.1@[k].1 as int),
        forall|i: int, j: int| #[trigger] failing_pair(polys@, compatible@, i, j) ==> r.1@.contains((i as usize, j as usize)),
        r.0 == (r.1.len() == 0),
{
    let n = polys.len();
    let mut failures: Vec<(usize, usize)> = Vec::new();
    let mut i: usize = 0;
    while i < n
        invariant
            n == polys.len(),
            i <= n,
            compatible.len() >= n,
            pair_table(compatible@, n as int),
            forall|k: int, l: int| 0 <= k < l < failures.len() ==> pair_before(failures@[k], failures@[l]),
            forall|k: int| 0 <= k < failures.len() ==> (#[trigger] failures@[k]).0 < i,
            forall|k: int|
                0 <= k < failures.len() ==> failing_pair(polys@, compatible@, (#[trigger] failures@[k]).0 as int, failures@[k].1 as int),
            forall|a: int, b: int| #[trigger] failing_pair(polys@, compatible@, a, b) && a < i ==> failures@.contains((a as usize, b as usize)),
        decreases n - i,
    {
        let ghost start = failures.len();
        let mut j: usize = i + 1;
        while j < n
            invariant
                n == polys.len(),
                i < n,
                i + 1 <= j <= n,
                compatible.len() >= n,
                pair_table(compatible@, n as int),
                start <= failures.len(),
                forall|k: int, l: int| 0 <= k < l < failures.len() ==> pair_before(failures@[k], failures@[l]),
                forall|k: int| 0 <= k < start ==> (#[trigger] failures@[k]).0 < i,
                forall|k: int| start <= k < failures.len() ==> (#[trigger] failures@[k]).0 == i && failures@[k].1 < j,
                forall|k: int|
                    0 <= k < failures.len() ==> failing_pair(polys@, compatible@, (#[trigger] failures@[k]).0 as int, failures@[k].1 as int),
                forall|a: int, b: int|
                    #[trigger] failing_pair(polys@, compatible@, a, b) && (a < i || (a == i && b < j)) ==> failures@.contains(
                        (a as usize, b as usize),
                    ),
            decreases n - j,
        {
            assert(compatible@[i as int].len() >= n);
            if polys[i].len() > 1 && polys[j].len() > 1 && !compatible[i][j] {
                let ghost before = failures@;
                failures.push((i, j));
                proof {
                    assert forall|a: int, b: int|
                        #[trigger] failing_pair(polys@, compatible@, a, b) && (a < i || (a == i && b < j + 1)) implies failures@.contains(
                        (a as usize, b as usize),
                    ) by {
                        if a == i && b == j {
                            assert(failures@[failures.len() - 1] == (i, j));
                        } else {
                            assert(before.contains((a as usize, b as usize)));
                            let k = choose|k: int| 0 <= k < before.len() && before[k] == (a as usize, b as usize);
                            assert(failures@[k] == before[k]);
                        }
                    }
                }
            }
            j += 1;
        }
        i += 1;
    }
    proof {
        assert forall|a: int, b: int| #[trigger] failing_pair(polys@, compatible@, a, b) implies failures@.contains(
            (a as usize, b as usize),
        ) by {
            assert(a < i);
        }
    }
    (failures.len() == 0, failures)
}

/// Each consecutive pair of the chain is compatible (`compatible[i][i + 1]`, the
/// answer of [`check_chain_pair_compatible`] for `polys[i], polys[i + 1]`); chains
/// of fewer than two are.
pub fn check_chain_interlacing(polys: &[Vec<i64>], compatible: &[Vec<bool>]) -> (r: bool)
    requires
        compatible.len() >= polys.len(),
        pair_table(compatible@, polys.len() as int),
    ensures
        r == (polys.len() < 2 || forall|i: int| 0 <= i && i + 1 < polys.len() ==> #[trigger] compatible@[i][i + 1]),
{
    let n = polys.len();
    if n < 2 {
        return true;
    }
    let mut i: usize = 0;
    while i + 1 < n
        invariant
            i + 1 <= n,
            n == polys.len(),
            compatible.len() >= n,
            pair_table(compatible@, n as int),
            forall|a: int| 0 <= a < i ==> #[trigger] compatible@[a][a + 1],
        decreases n - i,
    {
        assert(compatible@[i as int].len() >= n);
        if !compatible[i][i + 1] {
            return false;
        }
        i += 1;
    }
    true
}

fn all_pairs_hold(n: usize, table: &[Vec<bool>]) -> (r: bool)
    requires
        table.len() >= n,
        pair_table(table@, n as int),
    ensures
        r == forall|i: int, j: int| 0 <= i < j < n ==> #[trigger] table@[i][j],
{
    let mut i: usize = 0;
    while i < n
        invariant
            i <= n,
            table.len() >= n,
            pair_table(table@, n as int),
            forall|a: int, b: int| 0 <= a < i && a < b < n ==> #[trigger] table@[a][b],
        decreases n - i,
    {
        let mut j: usize = i + 1;
        while j < n
            invariant
                i < n,
                i + 1 <= j <= n,
                table.len() >= n,
                pair_table(table@, n as int),
                forall|a: int, b: int| 0 <= a < i && a < b < n ==> #[trigger] table@[a][b],
                forall|b: int| i < b < j ==> #[trigger] table@[i as int][b],
            decreases n - j,
        {
            assert(table@[i as int].len() >= n);
            if !table[i][j] {
                return false;
            }
            j += 1;
        }
        i += 1;
    }
    true
}

/// Every earlier member weakly interlaces every later one (`interlaces[i][j]`
/// for `i < j`, the outcome of the weak-interlacing test for `polys[i], polys[j]`).
pub fn is_pairwise_interlacing_sequence(polys: &[Vec<i64>], interlaces: &[Vec<bool>]) -> (r: bool)
    requires
        interlaces.len() >= polys.len(),
        pair_table(interlaces@, polys.len() as int),
    ensures
        r == forall|i: int, j: int| 0 <= i < j < polys.len() ==> #[trigger] interlaces@[i][j],
{
    all_pairs_hold(polys.len(), interlaces)
}

/// Both weak-interlacing directions `(f << g, g << f)`, given the answers of the
/// weak-interlacing test for `(f, g)` (`f_g`) and for `(g, f)` (`g_f`): a zero
/// member makes both hold whatever the answers.
pub fn both_interlacings(f: &[i64], g: &[i64], f_g: bool, g_f: bool) -> (r: (bool, bool))
    ensures
        r == (if all_zero(f@) || all_zero(g@) {
            (true, true)
        } else {
            (f_g, g_f)
        }),
{
    if poly_is_zero(f) || poly_is_zero(g) {
        (true, true)
    } else {
        (f_g, g_f)
    }
}

/// One step of a weak-interlacing decision: settled, or a question
/// "does the first polynomial weakly interlace the second?" whose definite
/// `yes` settles it as `true` and any other outcome as `false`.
#[derive(Debug, PartialEq, Eq)]
pub enum InterlaceStep {
    Decided(bool),
    Ask(Vec<i64>, Vec<i64>),
}


/// Weak interlacing of two polynomials in whichever order puts the shorter
/// first: constant (or empty) members settle it as `true`; otherwise the
/// question is `(shorter, longer)` (`f` first on equal lengths).
pub fn weakly_interlace(f: &[i64], g: &[i64]) -> (s: InterlaceStep)
    ensures
        f.len() <= 1 || g.len() <= 1 ==> s == InterlaceStep::Decided(true),
        f.len() > 1 && g.len() > 1 && f.len() <= g.len() ==> (s matches InterlaceStep::Ask(a, b) && a@ == f@ && b@ == g@),
        f.len() > 1 && g.len() > 1 && f.len() > g.len() ==> (s matches InterlaceStep::Ask(a, b) && a@ == g@ && b@ == f@),
{
    if f.len() <= 1 || g.len() <= 1 {
        return InterlaceStep::Decided(true);
    }
    if f.len() <= g.len() {
        InterlaceStep::Ask(vstd::slice::slice_to_vec(f), vstd::slice::slice_to_vec(g))
    } else {
        InterlaceStep::Ask(vstd::slice::slice_to_vec(g), vstd::slice::slice_to_vec(f))
    }
}

/// Indices `i` of the consecutive pairs `(polys[i], polys[i+1])` among the first `m - 1`
/// in which both members are non-constant.
pub open spec fn chain_links(polys: Seq<Vec<i64>>, m: int) -> Seq<int>
    decreases m,
{
    if m <= 0 {
        Seq::empty()
    } else if polys[m - 1].len() > 1 && polys[m].len() > 1 {
        chain_links(polys, m - 1).push(m - 1)
    } else {
        chain_links(polys, m - 1)
    }
}

/// The questions a chain is decided by: for each consecutive pair with both
/// members non-constant, `(shorter, longer)` (the first on equal lengths), in order.
/// The chain holds when every answer is a definite yes.
pub fn chain_queries(polys: &[Vec<i64>]) -> (qs: Vec<(Vec<i64>, Vec<i64>)>)
    requires
        polys.len() >= 1,
    ensures
        qs.len() == chain_links(polys@, polys.len() - 1).len(),
        forall|t: int|
            0 <= t < qs.len() ==> {
                let i = chain_links(polys@, polys.len() - 1)[t];
                let f = polys@[i]@;
                let g = polys@[i + 1]@;
                &&& (#[trigger] qs@[t]).0@ == (if f.len() <= g.len() { f } else { g })
                &&& qs@[t].1@ == (if f.len() <= g.len() { g } else { f })
            },
{
    let mut qs: Vec<(Vec<i64>, Vec<i64>)> = Vec::new();
    let mut i: usize = 0;
    while i < polys.len() - 1
        invariant
            polys.len() >= 1,
            i <= polys.len() - 1,
            qs.len() == chain_links(polys@, i as int).len(),
            forall|t: int|
                0 <= t < qs.len() ==> {
                    let i = chain_links(polys@, i as int)[t];
                    let f = polys@[i]@;
                    let g = polys@[i + 1]@;
                    &&& (#[trigger] qs@[t]).0@ == (if f.len() <= g.len() { f } else { g })
                    &&& qs@[t].1@ == (if f.len() <= g.len() { g } else { f })
                },
        decreases polys.len() - 1 - i,
    {
        let f = &polys[i];
        let g = &polys[i + 1];
        if f.len() > 1 && g.len() > 1 {
            let ghost before = qs@;
            if f.len() <= g.len() {
                qs.push((vstd::slice::slice_to_vec(f.as_slice()), vstd::slice::slice_to_vec(g.as_slice())));
            } else {
                qs.push((vstd::slice::slice_to_vec(g.as_slice()), vstd::slice::slice_to_vec(f.as_slice())));
            }
            proof {
                assert forall|t: int| 0 <= t < qs.len() implies {
                    let i = chain_links(polys@, i + 1)[t];
                    let f = polys@[i]@;
                    let g = polys@[i + 1]@;
                    &&& (#[trigger] qs@[t]).0@ == (if f.len() <= g.len() { f } else { g })
                    &&& qs@[t].1@ == (if f.len() <= g.len() { g } else { f })
                } by {
                    if t < before.len() {
                        assert(qs@[t] == before[t]);
                        assert(chain_links(polys@, i + 1)[t] == chain_links(polys@, i as int)[t]);
                    }
                }
            }
        }
        i += 1;
    }
    qs
}

/// A chain holds when every question of [`chain_queries`] got a definite yes.
pub fn check_chain(answers: &[bool]) -> (ok: bool)
    ensures
        ok == forall|t: int| 0 <= t < answers.len() ==> #[trigger] answers@[t],
{
    let mut t: usize = 0;
    while t < answers.len()
        invariant
            t <= answers.len(),
            forall|u: int| 0 <= u < t ==> #[trigger] answers@[u],
        decreases answers.len() - t,
    {
        if !answers[t] {
            return false;
        }
        t += 1;
    }
    true
}

} // verus!
