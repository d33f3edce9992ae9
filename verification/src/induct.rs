//! Induction on the size of the descent set: pairs `(S, S \ {i})` for
//! `i in S`, over descent sets `S` of `S_n` with `1 notin S`, and the
//! comparisons made along them. The swap polynomials `L_{n,S}` come as a
//! list of `(S, L_{n,S})` with strictly increasing masks.
use vstd::prelude::*;
use crate::poly::{coef, is_degree, max_len, strip, seq_diff, diff_fits, poly_sub};
use crate::descent::{in_set, elements_below, descent_set_elements, remove_element};
use crate::poly::{build_poly, count_of, histogram, fits_i64};
use crate::insertion::{descent_mask_upto, descent_set_bitmask};
use crate::bivariate::{index_of, has_value, first_index_of};
use crate::family::poly_of;

verus! {

/// Masks strictly increasing along the list.
pub open spec fn keys_sorted(polys: Seq<(u64, Vec<i64>)>) -> bool {
    forall|a: int, b: int| 0 <= a < b < polys.len() ==> polys[a].0 < polys[b].0
}

/// `S \ {i}` as a mask.
pub open spec fn without(mask: u64, i: u8) -> u64 {
    mask & !(1u64 << ((i - 1) as u64))
}

/// The list holds `key`.
pub open spec fn has_key(polys: Seq<(u64, Vec<i64>)>, key: u64) -> bool {
    exists|t: int| 0 <= t < polys.len() && polys[t].0 == key
}

/// Index of `key` in the list.
pub open spec fn key_index(polys: Seq<(u64, Vec<i64>)>, key: u64) -> int {
    choose|t: int| 0 <= t < polys.len() && polys[t].0 == key
}

/// A pair `(S, S \ {i})`: `s` and `sp` index the list, `i` is the removed element.
#[derive(Clone, Copy, Debug, PartialEq, Eq, Structural)]
pub struct RemovalPair {
    pub s: usize,
    pub i: u8,
    pub sp: usize,
}

/// `S` takes part: it is nonempty below `n` and does not hold `1`.
pub open spec fn eligible(mask: u64, n: u8) -> bool {
    elements_below(mask, n as int).len() > 0 && !in_set(mask, 1)
}

/// The pairs from list entry `s` for the first `m` elements of `S`, whose `S \ {i}` is listed.
pub open spec fn pairs_from(polys: Seq<(u64, Vec<i64>)>, n: u8, s: int, m: int) -> Seq<RemovalPair>
    decreases m,
{
    if m <= 0 {
        Seq::empty()
    } else {
        let prev = pairs_from(polys, n, s, m - 1);
        let i = elements_below(polys[s].0, n as int)[m - 1];
        let sp = without(polys[s].0, i);
        if has_key(polys, sp) {
            prev.push(RemovalPair { s: s as usize, i, sp: key_index(polys, sp) as usize })
        } else {
            prev
        }
    }
}

/// All pairs from the first `k` list entries, entry by entry, elements increasing.
pub open spec fn removal_pairs_upto(polys: Seq<(u64, Vec<i64>)>, n: u8, k: int) -> Seq<RemovalPair>
    decreases k,
{
    if k <= 0 {
        Seq::empty()
    } else {
        let prev = removal_pairs_upto(polys, n, k - 1);
        if eligible(polys[k - 1].0, n) {
            prev + pairs_from(polys, n, k - 1, elements_below(polys[k - 1].0, n as int).len() as int)
        } else {
            prev
        }
    }
}

/// All pairs of the list.
pub open spec fn removal_pairs_spec(polys: Seq<(u64, Vec<i64>)>, n: u8) -> Seq<RemovalPair> {
    removal_pairs_upto(polys, n, polys.len() as int)
}

proof fn lemma_low_bit(mask: u64)
    ensures
        (mask & 1u64 != 0u64) == in_set(mask, 1),
{
    assert((mask & 1u64 != 0u64) == ((mask >> 0u64) & 1u64 == 1u64)) by (bit_vector);
}

fn find_key(polys: &[(u64, Vec<i64>)], key: u64) -> (r: Option<usize>)
    requires
        keys_sorted(polys@),
    ensures
        r.is_some() == has_key(polys@, key),
        r.is_some() ==> r.unwrap() == key_index(polys@, key),
{
    let mut t: usize = 0;
    while t < polys.len()
        invariant
            t <= polys.len(),
            keys_sorted(polys@),
            forall|u: int| 0 <= u < t ==> polys@[u].0 != key,
        decreases polys.len() - t,
    {
        if polys[t].0 == key {
            proof {
                let u = choose|u: int| 0 <= u < polys.len() && polys@[u].0 == key;
                if u != t {
                    if u < t {
                    } else {
                        assert(polys@[t as int].0 < polys@[u].0);
                    }
                }
            }
            return Some(t);
        }
        t += 1;
    }
    None
}

/// The pairs `(S, S \ {i})` of list entry `s`, one per element `i` of `S`
/// below `n` (increasing) whose `S \ {i}` is listed.
pub fn children_of(n: u8, polys: &[(u64, Vec<i64>)], s: usize) -> (pairs: Vec<RemovalPair>)
    requires
        n <= 65,
        keys_sorted(polys@),
        s < polys.len(),
    ensures
        pairs@ == pairs_from(polys@, n, s as int, elements_below(polys@[s as int].0, n as int).len() as int),
{
    let mask = polys[s].0;
    let elems = descent_set_elements(mask, n);
    let mut pairs: Vec<RemovalPair> = Vec::new();
    let mut k: usize = 0;
    while k < elems.len()
        invariant
            k <= elems.len(),
            s < polys.len(),
            n <= 65,
            keys_sorted(polys@),
            mask == polys@[s as int].0,
            elems@ == elements_below(mask, n as int),
            forall|j: int| 0 <= j < elems.len() ==> 1 <= #[trigger] elems@[j] < n,
            pairs@ == pairs_from(polys@, n, s as int, k as int),
        decreases elems.len() - k,
    {
        let i = elems[k];
        assert(1 <= elems@[k as int] < n);
        let sp = remove_element(mask, i);
        match find_key(polys, sp) {
            Some(t) => {
                pairs.push(RemovalPair { s, i, sp: t });
            },
            None => {},
        }
        k += 1;
    }
    pairs
}

/// The pairs `(S, S \ {i})` of the list: for each listed `S` (in order)
/// with `1 notin S` and some element below `n`, and each element `i` of `S`
/// (increasing) such that `S \ {i}` is listed too.
pub fn removal_pairs(n: u8, polys: &[(u64, Vec<i64>)]) -> (pairs: Vec<RemovalPair>)
    requires
        n <= 65,
        keys_sorted(polys@),
    ensures
        pairs@ == removal_pairs_spec(polys@, n),
{
    let mut pairs: Vec<RemovalPair> = Vec::new();
    let mut s: usize = 0;
    while s < polys.len()
        invariant
            s <= polys.len(),
            n <= 65,
            keys_sorted(polys@),
            pairs@ == removal_pairs_upto(polys@, n, s as int),
        decreases polys.len() - s,
    {
        let mask = polys[s].0;
        let elems = descent_set_elements(mask, n);
        proof {
            lemma_low_bit(mask);
        }
        if elems.len() > 0 && mask & 1 == 0 {
            let mut extra = children_of(n, polys, s);
            pairs.append(&mut extra);
        }
        s += 1;
    }
    pairs
}


/// Index of the last nonzero coefficient among the first `m`, or `-1`.
pub open spec fn last_nonzero(p: Seq<i64>, m: int) -> int
    decreases m,
{
    if m <= 0 {
        -1
    } else if p[m - 1] != 0 {
        m - 1
    } else {
        last_nonzero(p, m - 1)
    }
}

/// Degree of `p`, `-1` for the zero polynomial.
pub open spec fn degree(p: Seq<i64>) -> int {
    last_nonzero(p, p.len() as int)
}

/// Degree as an optional index.
pub open spec fn degree_opt(p: Seq<i64>) -> Option<usize> {
    if degree(p) < 0 {
        None
    } else {
        Some(degree(p) as usize)
    }
}

proof fn lemma_last_nonzero(p: Seq<i64>, m: int)
    requires
        0 <= m <= p.len(),
    ensures
        -1 <= last_nonzero(p, m) < m,
        last_nonzero(p, m) >= 0 ==> p[last_nonzero(p, m)] != 0,
        forall|j: int| last_nonzero(p, m) < j < m ==> p[j] == 0,
    decreases m,
{
    if m > 0 {
        lemma_last_nonzero(p, m - 1);
    }
}

proof fn lemma_degree_matches(p: Seq<i64>, d: Option<usize>)
    requires
        is_degree(p, d),
    ensures
        d == degree_opt(p),
{
    lemma_last_nonzero(p, p.len() as int);
    let k = degree(p);
    match d {
        Some(e) => {
            if k < e {
                assert(p[e as int] == 0);
            }
            if k > e {
                assert(p[k] == 0);
            }
        },
        None => {
            if k >= 0 {
                assert(p[k] == 0);
            }
        },
    }
}

/// Sum of the coefficients.
pub open spec fn total(p: Seq<i64>) -> int
    decreases p.len(),
{
    if p.len() == 0 {
        0
    } else {
        total(p.drop_last()) + p.last()
    }
}

/// One line of the degree table for a pair `(S, S \ {i})`.
#[derive(Clone, Copy, Debug, PartialEq, Eq, Structural)]
pub struct DegreeRow {
    pub s_mask: u64,
    pub i: u8,
    pub sp_mask: u64,
    pub s_deg: Option<usize>,
    pub sp_deg: Option<usize>,
    /// `L_{n,S} - L_{n,S'}` has no negative coefficient.
    pub diff_nonneg: bool,
    /// `|D(n,S)|`, the coefficient sum of `L_{n,S}`.
    pub s_total: i128,
    /// `|D(n,S')|`.
    pub sp_total: i128,
}

/// The table line of a pair.
pub open spec fn row_spec(polys: Seq<(u64, Vec<i64>)>, pair: RemovalPair) -> DegreeRow {
    let f = polys[pair.s as int].1@;
    let g = polys[pair.sp as int].1@;
    DegreeRow {
        s_mask: polys[pair.s as int].0,
        i: pair.i,
        sp_mask: polys[pair.sp as int].0,
        s_deg: degree_opt(f),
        sp_deg: degree_opt(g),
        diff_nonneg: forall|k: int| 0 <= k < max_len(f, g) ==> coef(f, k) >= coef(g, k),
        s_total: total(f) as i128,
        sp_total: total(g) as i128,
    }
}

/// Outcome of the degree comparison along the pairs.
pub struct DegreeComparison {
    /// `deg L_{n,S} >= deg L_{n,S \ {i}}` for every pair where both are nonzero.
    pub always_geq: bool,
    /// `deg L_{n,S} <= deg L_{n,S \ {i}}` for every pair where both are nonzero.
    pub always_leq: bool,
    /// Table lines of the first eight pairs.
    pub rows: Vec<DegreeRow>,
}

/// Both degrees exist and the first is smaller (`lt`) or larger (`!lt`).
pub open spec fn degree_order(polys: Seq<(u64, Vec<i64>)>, pair: RemovalPair, lt: bool) -> bool {
    let a = degree(polys[pair.s as int].1@);
    let b = degree(polys[pair.sp as int].1@);
    a >= 0 && b >= 0 && (if lt {
        a < b
    } else {
        a > b
    })
}

fn total_wide(p: &Vec<i64>) -> (t: i128)
    ensures
        t == total(p@),
{
    let mut acc: i128 = 0;
    let mut k: usize = 0;
    while k < p.len()
        invariant
            k <= p.len(),
            acc == total(p@.take(k as int)),
            -(k as int) * 0x8000_0000_0000_0000 <= acc <= (k as int) * 0x8000_0000_0000_0000,
        decreases p.len() - k,
    {
        assert(p@.take(k + 1).drop_last() =~= p@.take(k as int));
        assert(k < 0x1_0000_0000_0000_0000);
        acc = acc + p[k] as i128;
        k += 1;
    }
    assert(p@.take(k as int) =~= p@);
    acc
}

fn dominates(f: &Vec<i64>, g: &Vec<i64>) -> (b: bool)
    ensures
        b == forall|k: int| 0 <= k < max_len(f@, g@) ==> coef(f@, k) >= coef(g@, k),
{
    let len = if f.len() >= g.len() {
        f.len()
    } else {
        g.len()
    };
    let mut k: usize = 0;
    while k < len
        invariant
            k <= len,
            len == max_len(f@, g@),
            forall|j: int| 0 <= j < k ==> coef(f@, j) >= coef(g@, j),
        decreases len - k,
    {
        let a: i64 = if k < f.len() {
            f[k]
        } else {
            0
        };
        let b: i64 = if k < g.len() {
            g[k]
        } else {
            0
        };
        if a < b {
            assert(!(coef(f@, k as int) >= coef(g@, k as int)));
            return false;
        }
        k += 1;
    }
    true
}

/// Compare the degrees of `L_{n,S}` and `L_{n,S \ {i}}` along every pair of
/// [`removal_pairs`], with the table lines of the first eight pairs.
pub fn part5_degree_comparison(n: u8, polys: &[(u64, Vec<i64>)]) -> (out: DegreeComparison)
    requires
        n <= 65,
        keys_sorted(polys@),
    ensures
        out.always_geq == !exists|j: int|
            0 <= j < removal_pairs_spec(polys@, n).len() && #[trigger] degree_order(
                polys@,
                removal_pairs_spec(polys@, n)[j],
                true,
            ),
        out.always_leq == !exists|j: int|
            0 <= j < removal_pairs_spec(polys@, n).len() && #[trigger] degree_order(
                polys@,
                removal_pairs_spec(polys@, n)[j],
                false,
            ),
        out.rows.len() == if removal_pairs_spec(polys@, n).len() < 8 {
            removal_pairs_spec(polys@, n).len() as int
        } else {
            8
        },
        forall|j: int| 0 <= j < out.rows.len() ==> #[trigger] out.rows@[j] == row_spec(polys@, removal_pairs_spec(polys@, n)[j]),
{
    let pairs = removal_pairs(n, polys);
    proof {
        lemma_pairs_in_range(polys@, n, polys.len() as int);
    }
    let mut always_geq = true;
    let mut always_leq = true;
    let mut rows: Vec<DegreeRow> = Vec::new();
    let mut j: usize = 0;
    while j < pairs.len()
        invariant
            j <= pairs.len(),
            pairs@ == removal_pairs_spec(polys@, n),
            forall|t: int| 0 <= t < pairs.len() ==> (#[trigger] pairs@[t]).s < polys.len() && pairs@[t].sp < polys.len(),
            always_geq == !exists|t: int| 0 <= t < j && #[trigger] degree_order(polys@, pairs@[t], true),
            always_leq == !exists|t: int| 0 <= t < j && #[trigger] degree_order(polys@, pairs@[t], false),
            rows.len() == if j < 8 {
                j as int
            } else {
                8
            },
            forall|t: int| 0 <= t < rows.len() ==> #[trigger] rows@[t] == row_spec(polys@, pairs@[t]),
        decreases pairs.len() - j,
    {
        let pair = pairs[j];
        let f = &polys[pair.s].1;
        let g = &polys[pair.sp].1;
        let d1 = crate::poly::poly_deg(f);
        let d2 = crate::poly::poly_deg(g);
        proof {
            lemma_degree_matches(f@, d1);
            lemma_degree_matches(g@, d2);
        }
        match (d1, d2) {
            (Some(a), Some(b)) => {
                if a < b {
                    always_geq = false;
                }
                if a > b {
                    always_leq = false;
                }
            },
            _ => {},
        }
        proof {
            let pr = pairs@[j as int];
            assert(pr == pair);
            lemma_last_nonzero(f@, f.len() as int);
            lemma_last_nonzero(g@, g.len() as int);
            assert(degree_order(polys@, pr, true) == (d1.is_some() && d2.is_some() && d1.unwrap() < d2.unwrap()));
            assert(degree_order(polys@, pr, false) == (d1.is_some() && d2.is_some() && d1.unwrap() > d2.unwrap()));
            if degree_order(polys@, pr, true) {
                assert(exists|t: int| 0 <= t < j + 1 && #[trigger] degree_order(polys@, pairs@[t], true));
            }
            if degree_order(polys@, pr, false) {
                assert(exists|t: int| 0 <= t < j + 1 && #[trigger] degree_order(polys@, pairs@[t], false));
            }
        }
        if rows.len() < 8 {
            let diff_nonneg = dominates(f, g);
            let s_total = total_wide(f);
            let sp_total = total_wide(g);
            rows.push(
                DegreeRow {
                    s_mask: polys[pair.s].0,
                    i: pair.i,
                    sp_mask: polys[pair.sp].0,
                    s_deg: d1,
                    sp_deg: d2,
                    diff_nonneg,
                    s_total,
                    sp_total,
                },
            );
        }
        j += 1;
    }
    DegreeComparison { always_geq, always_leq, rows }
}

proof fn lemma_pairs_from_in_range(polys: Seq<(u64, Vec<i64>)>, n: u8, s: int, m: int)
    requires
        0 <= s < polys.len(),
        polys.len() <= usize::MAX,
    ensures
        forall|t: int| 0 <= t < pairs_from(polys, n, s, m).len() ==> (#[trigger] pairs_from(polys, n, s, m)[t]).s < polys.len()
            && pairs_from(polys, n, s, m)[t].sp < polys.len(),
    decreases m,
{
    if m > 0 {
        lemma_pairs_from_in_range(polys, n, s, m - 1);
        let prev = pairs_from(polys, n, s, m - 1);
        let i = elements_below(polys[s].0, n as int)[m - 1];
        let sp = without(polys[s].0, i);
        if has_key(polys, sp) {
            let t0 = key_index(polys, sp);
            assert(0 <= t0 < polys.len());
            let x = RemovalPair { s: s as usize, i, sp: t0 as usize };
            assert(pairs_from(polys, n, s, m) == prev.push(x));
            assert forall|t: int| 0 <= t < prev.push(x).len() implies (#[trigger] prev.push(x)[t]).s < polys.len()
                && prev.push(x)[t].sp < polys.len() by {
                if t < prev.len() {
                    assert(prev.push(x)[t] == prev[t]);
                }
            }
        }
    }
}

proof fn lemma_pairs_in_range(polys: Seq<(u64, Vec<i64>)>, n: u8, k: int)
    requires
        0 <= k <= polys.len(),
        polys.len() <= usize::MAX,
    ensures
        forall|t: int|
            0 <= t < removal_pairs_upto(polys, n, k).len() ==> (#[trigger] removal_pairs_upto(polys, n, k)[t]).s < polys.len()
                && removal_pairs_upto(polys, n, k)[t].sp < polys.len(),
    decreases k,
{
    if k > 0 {
        lemma_pairs_in_range(polys, n, k - 1);
        let prev = removal_pairs_upto(polys, n, k - 1);
        if eligible(polys[k - 1].0, n) {
            let m = elements_below(polys[k - 1].0, n as int).len() as int;
            lemma_pairs_from_in_range(polys, n, k - 1, m);
            let extra = pairs_from(polys, n, k - 1, m);
            assert forall|t: int| 0 <= t < (prev + extra).len() implies (#[trigger] (prev + extra)[t]).s < polys.len()
                && (prev + extra)[t].sp < polys.len() by {
                if t < prev.len() {
                    assert((prev + extra)[t] == prev[t]);
                } else {
                    assert((prev + extra)[t] == extra[t - prev.len()]);
                }
            }
        }
    }
}


/// Where the removed element sits in `S`.
#[derive(Clone, Copy, Debug, PartialEq, Eq, Structural)]
pub enum RemovalPosition {
    Min,
    Max,
    Only,
    Mid,
}

impl RemovalPosition {
    /// Label used in the reports.
    pub fn label(self) -> (s: &'static str)
        ensures
            self == RemovalPosition::Min ==> s@ == "min"@,
            self == RemovalPosition::Max ==> s@ == "max"@,
            self == RemovalPosition::Only ==> s@ == "only"@,
            self == RemovalPosition::Mid ==> s@ == "mid"@,
    {
        match self {
            RemovalPosition::Min => "min",
            RemovalPosition::Max => "max",
            RemovalPosition::Only => "only",
            RemovalPosition::Mid => "mid",
        }
    }
}

/// Position of `i` among the elements `elems` of `S` (increasing): the
/// smallest or largest of several, the only one, or in between.
pub fn removal_position(elems: &[u8], i: u8) -> (r: RemovalPosition)
    requires
        elems.len() >= 1,
    ensures
        r == position_of(elems@, i),
{
    if i == elems[0] && elems.len() > 1 {
        RemovalPosition::Min
    } else if i == elems[elems.len() - 1] && elems.len() > 1 {
        RemovalPosition::Max
    } else if elems.len() <= 1 {
        RemovalPosition::Only
    } else {
        RemovalPosition::Mid
    }
}

/// Number of answers `(fwd, bwd)` among the first `m` satisfying `pred`.
pub open spec fn count_answers(answers: Seq<(bool, bool)>, m: int, pred: spec_fn((bool, bool)) -> bool) -> int
    decreases m,
{
    if m <= 0 {
        0
    } else {
        count_answers(answers, m - 1, pred) + if pred(answers[m - 1]) {
            1int
        } else {
            0int
        }
    }
}

/// Counts over the pairs of the interlacing answers `(S' << S, S << S')`.
#[derive(Clone, Copy, Debug, PartialEq, Eq, Structural)]
pub struct InterlacingTally {
    pub total: u32,
    pub sp_leq_s: u32,
    pub s_leq_sp: u32,
    pub both: u32,
    pub neither: u32,
}

proof fn lemma_count_le(answers: Seq<(bool, bool)>, m: int, pred: spec_fn((bool, bool)) -> bool)
    requires
        m >= 0,
    ensures
        0 <= count_answers(answers, m, pred) <= m,
    decreases m,
{
    if m > 0 {
        lemma_count_le(answers, m - 1, pred);
    }
}

/// Tally of the answers `(fwd, bwd)`, one per pair: all pairs, forward,
/// backward, both directions, neither direction.
pub fn tally_interlacings(answers: &[(bool, bool)]) -> (t: InterlacingTally)
    requires
        answers.len() <= u32::MAX,
    ensures
        t.total == answers.len(),
        t.sp_leq_s == count_answers(answers@, answers.len() as int, |a: (bool, bool)| a.0),
        t.s_leq_sp == count_answers(answers@, answers.len() as int, |a: (bool, bool)| a.1),
        t.both == count_answers(answers@, answers.len() as int, |a: (bool, bool)| a.0 && a.1),
        t.neither == count_answers(answers@, answers.len() as int, |a: (bool, bool)| !a.0 && !a.1),
{
    let mut t = InterlacingTally { total: 0, sp_leq_s: 0, s_leq_sp: 0, both: 0, neither: 0 };
    let mut k: usize = 0;
    while k < answers.len()
        invariant
            k <= answers.len() <= u32::MAX,
            t.total == k,
            t.sp_leq_s == count_answers(answers@, k as int, |a: (bool, bool)| a.0),
            t.s_leq_sp == count_answers(answers@, k as int, |a: (bool, bool)| a.1),
            t.both == count_answers(answers@, k as int, |a: (bool, bool)| a.0 && a.1),
            t.neither == count_answers(answers@, k as int, |a: (bool, bool)| !a.0 && !a.1),
        decreases answers.len() - k,
    {
        proof {
            lemma_count_le(answers@, k as int, |a: (bool, bool)| a.0);
            lemma_count_le(answers@, k as int, |a: (bool, bool)| a.1);
            lemma_count_le(answers@, k as int, |a: (bool, bool)| a.0 && a.1);
            lemma_count_le(answers@, k as int, |a: (bool, bool)| !a.0 && !a.1);
        }
        let (f, b) = answers[k];
        t.total = t.total + 1;
        if f {
            t.sp_leq_s = t.sp_leq_s + 1;
        }
        if b {
            t.s_leq_sp = t.s_leq_sp + 1;
        }
        if f && b {
            t.both = t.both + 1;
        }
        if !f && !b {
            t.neither = t.neither + 1;
        }
        k += 1;
    }
    t
}

/// First pair `a < b` (lexicographically) of `count` members with neither
/// `answers[a][b].0` nor `answers[a][b].1` (no interlacing in either direction).
pub fn first_incompatible_pair(count: usize, answers: &[Vec<(bool, bool)>]) -> (r: Option<(usize, usize)>)
    requires
        answers.len() >= count,
        forall|a: int| 0 <= a < count ==> #[trigger] answers@[a].len() >= count,
    ensures
        match r {
            Some((a, b)) => {
                &&& a < b < count
                &&& !answers@[a as int]@[b as int].0 && !answers@[a as int]@[b as int].1
                &&& forall|x: int, y: int|
                    0 <= x < y < count && (x < a || (x == a && y < b)) ==> #[trigger] answers@[x]@[y].0 || answers@[x]@[y].1
            },
            None => forall|x: int, y: int| 0 <= x < y < count ==> #[trigger] answers@[x]@[y].0 || answers@[x]@[y].1,
        },
{
    let mut a: usize = 0;
    while a < count
        invariant
            a <= count,
            answers.len() >= count,
            forall|a: int| 0 <= a < count ==> #[trigger] answers@[a].len() >= count,
            forall|x: int, y: int| 0 <= x < y < count && x < a ==> #[trigger] answers@[x]@[y].0 || answers@[x]@[y].1,
        decreases count - a,
    {
        let mut b: usize = a + 1;
        while b < count
            invariant
                a < count,
                a + 1 <= b <= count,
                answers.len() >= count,
                forall|a: int| 0 <= a < count ==> #[trigger] answers@[a].len() >= count,
                forall|x: int, y: int| 0 <= x < y < count && (x < a || (x == a && y < b)) ==> #[trigger] answers@[x]@[y].0 || answers@[x]@[y].1,
            decreases count - b,
        {
            assert(answers@[a as int].len() >= count);
            let (f, g) = answers[a][b];
            if !f && !g {
                return Some((a, b));
            }
            b += 1;
        }
        a += 1;
    }
    None
}


/// Where `i` sits among the increasing elements `elems` of `S`.
pub open spec fn position_of(elems: Seq<u8>, i: u8) -> RemovalPosition {
    if i == elems[0] && elems.len() > 1 {
        RemovalPosition::Min
    } else if i == elems[elems.len() - 1] && elems.len() > 1 {
        RemovalPosition::Max
    } else if elems.len() <= 1 {
        RemovalPosition::Only
    } else {
        RemovalPosition::Mid
    }
}

/// Position of the removed element of a pair within its `S`.
pub open spec fn pair_label(polys: Seq<(u64, Vec<i64>)>, n: u8, p: RemovalPair) -> RemovalPosition {
    position_of(elements_below(polys[p.s as int].0, n as int), p.i)
}

/// Among the first `m` pairs, the number with removal position `label`
/// (and, when `some`, with an interlacing in at least one direction).
pub open spec fn label_count(
    polys: Seq<(u64, Vec<i64>)>,
    n: u8,
    answers: Seq<(bool, bool)>,
    m: int,
    label: RemovalPosition,
    some: bool,
) -> int
    decreases m,
{
    if m <= 0 {
        0
    } else {
        label_count(polys, n, answers, m - 1, label, some) + if pair_label(
            polys,
            n,
            removal_pairs_spec(polys, n)[m - 1],
        ) == label && (!some || answers[m - 1].0 || answers[m - 1].1) {
            1int
        } else {
            0int
        }
    }
}

/// Indices below `m` of the answers with no interlacing either way, increasing.
pub open spec fn neither_upto(answers: Seq<(bool, bool)>, m: int) -> Seq<usize>
    decreases m,
{
    if m <= 0 {
        Seq::empty()
    } else if !answers[m - 1].0 && !answers[m - 1].1 {
        neither_upto(answers, m - 1).push((m - 1) as usize)
    } else {
        neither_upto(answers, m - 1)
    }
}

/// Pairs with a given removal position, and how many of them interlace one way or the other.
#[derive(Clone, Copy, Debug, PartialEq, Eq, Structural)]
pub struct PositionTally {
    pub total: u32,
    pub some: u32,
}

/// Summary of the interlacing answers along the pairs of [`removal_pairs`].
pub struct InterlacingReport {
    pub tally: InterlacingTally,
    pub min: PositionTally,
    pub max: PositionTally,
    pub only: PositionTally,
    pub mid: PositionTally,
    /// Indices of the first three pairs (at most) with no interlacing either way.
    pub fails: Vec<usize>,
}

/// `count` is the tally of `label` among the first `m` pairs.
pub open spec fn position_tally_ok(
    polys: Seq<(u64, Vec<i64>)>,
    n: u8,
    answers: Seq<(bool, bool)>,
    m: int,
    label: RemovalPosition,
    count: PositionTally,
) -> bool {
    &&& count.total == label_count(polys, n, answers, m, label, false)
    &&& count.some == label_count(polys, n, answers, m, label, true)
}

proof fn lemma_label_count_le(
    polys: Seq<(u64, Vec<i64>)>,
    n: u8,
    answers: Seq<(bool, bool)>,
    m: int,
    label: RemovalPosition,
    some: bool,
)
    requires
        m >= 0,
    ensures
        0 <= label_count(polys, n, answers, m, label, some) <= m,
    decreases m,
{
    if m > 0 {
        lemma_label_count_le(polys, n, answers, m - 1, label, some);
    }
}

proof fn lemma_neither_upto(answers: Seq<(bool, bool)>, m: int)
    requires
        m >= 0,
    ensures
        neither_upto(answers, m).len() <= m,
    decreases m,
{
    if m > 0 {
        lemma_neither_upto(answers, m - 1);
    }
}

proof fn lemma_pairs_from_entry(polys: Seq<(u64, Vec<i64>)>, n: u8, s: int, m: int)
    requires
        0 <= s <= usize::MAX,
    ensures
        forall|j: int| 0 <= j < pairs_from(polys, n, s, m).len() ==> (#[trigger] pairs_from(polys, n, s, m)[j]).s == s,
    decreases m,
{
    if m > 0 {
        lemma_pairs_from_entry(polys, n, s, m - 1);
        let prev = pairs_from(polys, n, s, m - 1);
        let cur = pairs_from(polys, n, s, m);
        assert forall|j: int| 0 <= j < cur.len() implies (#[trigger] cur[j]).s == s by {
            if j < prev.len() {
                assert(cur[j] == prev[j]);
            }
        }
    }
}

/// Every pair comes from an eligible list entry.
proof fn lemma_pairs_eligible(polys: Seq<(u64, Vec<i64>)>, n: u8, k: int)
    requires
        0 <= k <= polys.len(),
        polys.len() <= usize::MAX,
    ensures
        forall|j: int|
            0 <= j < removal_pairs_upto(polys, n, k).len() ==> (#[trigger] removal_pairs_upto(polys, n, k)[j]).s < k
                && eligible(polys[removal_pairs_upto(polys, n, k)[j].s as int].0, n),
    decreases k,
{
    if k > 0 {
        lemma_pairs_eligible(polys, n, k - 1);
        let prev = removal_pairs_upto(polys, n, k - 1);
        if eligible(polys[k - 1].0, n) {
            let m = elements_below(polys[k - 1].0, n as int).len() as int;
            lemma_pairs_from_entry(polys, n, k - 1, m);
            let extra = pairs_from(polys, n, k - 1, m);
            assert forall|j: int| 0 <= j < (prev + extra).len() implies (#[trigger] (prev + extra)[j]).s < k
                && eligible(polys[(prev + extra)[j].s as int].0, n) by {
                if j < prev.len() {
                    assert((prev + extra)[j] == prev[j]);
                } else {
                    assert((prev + extra)[j] == extra[j - prev.len()]);
                }
            }
        }
    }
}

/// The interlacing answers `(S' << S, S << S')` along the pairs of
/// [`removal_pairs`] (one per pair, in order), summed up: the overall tally,
/// the tally per removal position, and the first three pairs without any interlacing.
pub fn part1_interlacing(n: u8, polys: &[(u64, Vec<i64>)], answers: &[(bool, bool)]) -> (r: InterlacingReport)
    requires
        n <= 65,
        keys_sorted(polys@),
        answers.len() == removal_pairs_spec(polys@, n).len(),
        answers.len() <= u32::MAX,
    ensures
        r.tally.total == answers.len(),
        r.tally.sp_leq_s == count_answers(answers@, answers.len() as int, |a: (bool, bool)| a.0),
        r.tally.s_leq_sp == count_answers(answers@, answers.len() as int, |a: (bool, bool)| a.1),
        r.tally.both == count_answers(answers@, answers.len() as int, |a: (bool, bool)| a.0 && a.1),
        r.tally.neither == count_answers(answers@, answers.len() as int, |a: (bool, bool)| !a.0 && !a.1),
        position_tally_ok(polys@, n, answers@, answers.len() as int, RemovalPosition::Min, r.min),
        position_tally_ok(polys@, n, answers@, answers.len() as int, RemovalPosition::Max, r.max),
        position_tally_ok(polys@, n, answers@, answers.len() as int, RemovalPosition::Only, r.only),
        position_tally_ok(polys@, n, answers@, answers.len() as int, RemovalPosition::Mid, r.mid),
        r.fails.len() == (if neither_upto(answers@, answers.len() as int).len() < 3 {
            neither_upto(answers@, answers.len() as int).len()
        } else {
            3
        }),
        forall|k: int| 0 <= k < r.fails.len() ==> r.fails@[k] == neither_upto(answers@, answers.len() as int)[k],
{
    let pairs = removal_pairs(n, polys);
    let tally = tally_interlacings(answers);
    let ghost all = removal_pairs_spec(polys@, n);
    proof {
        lemma_pairs_eligible(polys@, n, polys.len() as int);
    }
    let mut min = PositionTally { total: 0, some: 0 };
    let mut max = PositionTally { total: 0, some: 0 };
    let mut only = PositionTally { total: 0, some: 0 };
    let mut mid = PositionTally { total: 0, some: 0 };
    let mut fails: Vec<usize> = Vec::new();
    let mut j: usize = 0;
    while j < pairs.len()
        invariant
            j <= pairs.len(),
            pairs@ == all,
            all == removal_pairs_spec(polys@, n),
            answers.len() == all.len(),
            answers.len() <= u32::MAX,
            n <= 65,
            forall|x: int| 0 <= x < all.len() ==> (#[trigger] all[x]).s < polys.len() && eligible(polys@[all[x].s as int].0, n),
            position_tally_ok(polys@, n, answers@, j as int, RemovalPosition::Min, min),
            position_tally_ok(polys@, n, answers@, j as int, RemovalPosition::Max, max),
            position_tally_ok(polys@, n, answers@, j as int, RemovalPosition::Only, only),
            position_tally_ok(polys@, n, answers@, j as int, RemovalPosition::Mid, mid),
            fails.len() == (if neither_upto(answers@, j as int).len() < 3 {
                neither_upto(answers@, j as int).len()
            } else {
                3
            }),
            forall|k: int| 0 <= k < fails.len() ==> fails@[k] == neither_upto(answers@, j as int)[k],
        decreases pairs.len() - j,
    {
        proof {
            lemma_label_count_le(polys@, n, answers@, j as int, RemovalPosition::Min, false);
            lemma_label_count_le(polys@, n, answers@, j as int, RemovalPosition::Max, false);
            lemma_label_count_le(polys@, n, answers@, j as int, RemovalPosition::Only, false);
            lemma_label_count_le(polys@, n, answers@, j as int, RemovalPosition::Mid, false);
            lemma_label_count_le(polys@, n, answers@, j as int, RemovalPosition::Min, true);
            lemma_label_count_le(polys@, n, answers@, j as int, RemovalPosition::Max, true);
            lemma_label_count_le(polys@, n, answers@, j as int, RemovalPosition::Only, true);
            lemma_label_count_le(polys@, n, answers@, j as int, RemovalPosition::Mid, true);
        }
        let p = pairs[j];
        assert(p == all[j as int]);
        let elems = descent_set_elements(polys[p.s].0, n);
        let label = removal_position(elems.as_slice(), p.i);
        assert(label == pair_label(polys@, n, all[j as int]));
        let (f, b) = answers[j];
        let hit = f || b;
        match label {
            RemovalPosition::Min => {
                min.total = min.total + 1;
                if hit {
                    min.some = min.some + 1;
                }
            },
            RemovalPosition::Max => {
                max.total = max.total + 1;
                if hit {
                    max.some = max.some + 1;
                }
            },
            RemovalPosition::Only => {
                only.total = only.total + 1;
                if hit {
                    only.some = only.some + 1;
                }
            },
            RemovalPosition::Mid => {
                mid.total = mid.total + 1;
                if hit {
                    mid.some = mid.some + 1;
                }
            },
        }
        if !f && !b && fails.len() < 3 {
            fails.push(j);
        }
        j += 1;
    }
    InterlacingReport { tally, min, max, only, mid, fails }
}

/// `S` takes part in the compatibility check: at least two elements below `n`, `1 notin S`.
pub open spec fn compat_eligible(mask: u64, n: u8) -> bool {
    elements_below(mask, n as int).len() >= 2 && !in_set(mask, 1)
}

/// The pairs `(S, S \ {i})` of list entry `s`.
pub open spec fn children(polys: Seq<(u64, Vec<i64>)>, n: u8, s: int) -> Seq<RemovalPair> {
    pairs_from(polys, n, s, elements_below(polys[s].0, n as int).len() as int)
}

/// The entries among the first `k` that take part in the compatibility
/// check, each with its pairs `(S, S \ {i})`.
pub open spec fn families_upto(polys: Seq<(u64, Vec<i64>)>, n: u8, k: int) -> Seq<(usize, Seq<RemovalPair>)>
    decreases k,
{
    if k <= 0 {
        Seq::empty()
    } else if compat_eligible(polys[k - 1].0, n) {
        families_upto(polys, n, k - 1).push(((k - 1) as usize, children(polys, n, k - 1)))
    } else {
        families_upto(polys, n, k - 1)
    }
}

/// The entries of the whole list that take part in the compatibility check.
pub open spec fn families(polys: Seq<(u64, Vec<i64>)>, n: u8) -> Seq<(usize, Seq<RemovalPair>)> {
    families_upto(polys, n, polys.len() as int)
}

/// The families `{L_{n,S \ {i}} : i in S}` of the compatibility check, in
/// list order: each listed `S` with `|S| >= 2` below `n` and `1 notin S`,
/// with its pairs `(S, S \ {i})` whose `S \ {i}` is listed.
pub fn compat_families(n: u8, polys: &[(u64, Vec<i64>)]) -> (fams: Vec<(usize, Vec<RemovalPair>)>)
    requires
        n <= 65,
        keys_sorted(polys@),
    ensures
        fams.len() == families(polys@, n).len(),
        forall|k: int|
            0 <= k < fams.len() ==> (#[trigger] fams@[k]).0 == families(polys@, n)[k].0 && fams@[k].1@
                == families(polys@, n)[k].1,
{
    let mut fams: Vec<(usize, Vec<RemovalPair>)> = Vec::new();
    let mut s: usize = 0;
    while s < polys.len()
        invariant
            s <= polys.len(),
            n <= 65,
            keys_sorted(polys@),
            fams.len() == families_upto(polys@, n, s as int).len(),
            forall|k: int|
                0 <= k < fams.len() ==> (#[trigger] fams@[k]).0 == families_upto(polys@, n, s as int)[k].0 && fams@[k].1@
                    == families_upto(polys@, n, s as int)[k].1,
        decreases polys.len() - s,
    {
        let mask = polys[s].0;
        let elems = descent_set_elements(mask, n);
        proof {
            lemma_low_bit(mask);
        }
        if elems.len() >= 2 && mask & 1 == 0 {
            let kids = children_of(n, polys, s);
            fams.push((s, kids));
        }
        s += 1;
    }
    fams
}

/// Every pair `(a, b)`, `a < b < cnt`, interlaces in at least one direction.
pub open spec fn compatible(ans: Seq<Vec<(bool, bool)>>, cnt: int) -> bool {
    forall|x: int, y: int| 0 <= x < y < cnt ==> #[trigger] ans[x]@[y].0 || ans[x]@[y].1
}

/// `(a, b)` is the first pair (lexicographically) with no interlacing either way.
pub open spec fn first_bad(ans: Seq<Vec<(bool, bool)>>, cnt: int, a: int, b: int) -> bool {
    &&& 0 <= a < b < cnt
    &&& !ans[a]@[b].0 && !ans[a]@[b].1
    &&& forall|x: int, y: int| 0 <= x < y < cnt && (x < a || (x == a && y < b)) ==> #[trigger] ans[x]@[y].0 || ans[x]@[y].1
}

/// `answers[k][a][b]` is there for every family `k` and members `a, b`.
pub open spec fn answers_fit(fams: Seq<(usize, Seq<RemovalPair>)>, answers: Seq<Vec<Vec<(bool, bool)>>>) -> bool {
    &&& answers.len() == fams.len()
    &&& forall|k: int|
        0 <= k < fams.len() ==> (#[trigger] answers[k]).len() >= fams[k].1.len() && forall|a: int|
            0 <= a < fams[k].1.len() ==> (#[trigger] answers[k]@[a]).len() >= fams[k].1.len()
}

/// Among the first `m` families, the number found compatible.
pub open spec fn compatible_count(fams: Seq<(usize, Seq<RemovalPair>)>, answers: Seq<Vec<Vec<(bool, bool)>>>, m: int) -> int
    decreases m,
{
    if m <= 0 {
        0
    } else {
        compatible_count(fams, answers, m - 1) + if compatible(answers[m - 1]@, fams[m - 1].1.len() as int) {
            1int
        } else {
            0int
        }
    }
}

/// Indices below `m` of the families not found compatible, increasing.
pub open spec fn incompatible_upto(fams: Seq<(usize, Seq<RemovalPair>)>, answers: Seq<Vec<Vec<(bool, bool)>>>, m: int) -> Seq<int>
    decreases m,
{
    if m <= 0 {
        Seq::empty()
    } else if !compatible(answers[m - 1]@, fams[m - 1].1.len() as int) {
        incompatible_upto(fams, answers, m - 1).push(m - 1)
    } else {
        incompatible_upto(fams, answers, m - 1)
    }
}

/// Outcome of the compatibility check: families checked, found compatible,
/// not compatible, and for the first three failures the entry of `S` and
/// the elements `i1, i2` of its first incompatible pair.
pub struct CompatibilityReport {
    pub total: u32,
    pub all_compat: u32,
    pub some_fail: u32,
    pub fails: Vec<(usize, u8, u8)>,
}

/// `f` reports family `k`: its entry and the removed elements of its first bad pair.
pub open spec fn fail_ok(
    fams: Seq<(usize, Seq<RemovalPair>)>,
    answers: Seq<Vec<Vec<(bool, bool)>>>,
    k: int,
    f: (usize, u8, u8),
) -> bool {
    &&& f.0 == fams[k].0
    &&& exists|a: int, b: int|
        #[trigger] first_bad(answers[k]@, fams[k].1.len() as int, a, b) && f.1 == fams[k].1[a].i && f.2 == fams[k].1[b].i
}

proof fn lemma_compatible_count(fams: Seq<(usize, Seq<RemovalPair>)>, answers: Seq<Vec<Vec<(bool, bool)>>>, m: int)
    requires
        m >= 0,
    ensures
        0 <= compatible_count(fams, answers, m) <= m,
        compatible_count(fams, answers, m) + incompatible_upto(fams, answers, m).len() == m,
    decreases m,
{
    if m > 0 {
        lemma_compatible_count(fams, answers, m - 1);
    }
}

/// Pairwise compatibility of the families `{L_{n,S \ {i}} : i in S}` of
/// [`compat_families`], from the answers `answers[k][a][b] = (f_a << f_b,
/// f_b << f_a)` for family `k` and its members `a < b`.
pub fn part4_pairwise_compatibility(n: u8, polys: &[(u64, Vec<i64>)], answers: &[Vec<Vec<(bool, bool)>>]) -> (r:
    CompatibilityReport)
    requires
        n <= 65,
        keys_sorted(polys@),
        answers_fit(families(polys@, n), answers@),
        answers.len() <= u32::MAX,
    ensures
        r.total == families(polys@, n).len(),
        r.all_compat == compatible_count(families(polys@, n), answers@, answers.len() as int),
        r.some_fail == incompatible_upto(families(polys@, n), answers@, answers.len() as int).len(),
        r.fails.len() == (if incompatible_upto(families(polys@, n), answers@, answers.len() as int).len() < 3 {
            incompatible_upto(families(polys@, n), answers@, answers.len() as int).len()
        } else {
            3
        }),
        forall|q: int|
            0 <= q < r.fails.len() ==> fail_ok(
                families(polys@, n),
                answers@,
                incompatible_upto(families(polys@, n), answers@, answers.len() as int)[q],
                #[trigger] r.fails@[q],
            ),
{
    let fams = compat_families(n, polys);
    let ghost fs = families(polys@, n);
    let mut all_compat: u32 = 0;
    let mut some_fail: u32 = 0;
    let mut fails: Vec<(usize, u8, u8)> = Vec::new();
    let mut k: usize = 0;
    while k < fams.len()
        invariant
            k <= fams.len(),
            fams.len() == fs.len(),
            fs == families(polys@, n),
            forall|x: int| 0 <= x < fams.len() ==> (#[trigger] fams@[x]).0 == fs[x].0 && fams@[x].1@ == fs[x].1,
            answers_fit(fs, answers@),
            answers.len() <= u32::MAX,
            all_compat == compatible_count(fs, answers@, k as int),
            some_fail == incompatible_upto(fs, answers@, k as int).len(),
            fails.len() == (if incompatible_upto(fs, answers@, k as int).len() < 3 {
                incompatible_upto(fs, answers@, k as int).len()
            } else {
                3
            }),
            forall|q: int|
                0 <= q < fails.len() ==> fail_ok(fs, answers@, incompatible_upto(fs, answers@, k as int)[q], #[trigger] fails@[q]),
        decreases fams.len() - k,
    {
        proof {
            lemma_compatible_count(fs, answers@, k as int);
        }
        let cnt = fams[k].1.len();
        assert(fams@[k as int].1@ == fs[k as int].1);
        let ans = answers[k].as_slice();
        assert(ans@ == answers@[k as int]@);
        match first_incompatible_pair(cnt, ans) {
            None => {
                all_compat = all_compat + 1;
            },
            Some((a, b)) => {
                assert(!compatible(answers@[k as int]@, cnt as int)) by {
                    assert(!(answers@[k as int]@[a as int]@[b as int].0 || answers@[k as int]@[a as int]@[b as int].1));
                }
                some_fail = some_fail + 1;
                if fails.len() < 3 {
                    let i1 = fams[k].1[a].i;
                    let i2 = fams[k].1[b].i;
                    let ghost before = fails@;
                    fails.push((fams[k].0, i1, i2));
                    proof {
                        let inc = incompatible_upto(fs, answers@, k + 1);
                        assert(inc == incompatible_upto(fs, answers@, k as int).push(k as int));
                        assert(first_bad(answers@[k as int]@, fs[k as int].1.len() as int, a as int, b as int));
                        assert forall|q: int| 0 <= q < fails.len() implies fail_ok(fs, answers@, inc[q], #[trigger] fails@[q]) by {
                            if q < before.len() {
                                assert(fails@[q] == before[q]);
                            }
                        }
                    }
                }
            },
        }
        k += 1;
    }
    CompatibilityReport { total: fams.len() as u32, all_compat, some_fail, fails }
}

/// Every difference `L_{n,S} - L_{n,S \ {i}}` along the pairs of each eligible entry fits in `i64`.
pub open spec fn details_fit(polys: Seq<(u64, Vec<i64>)>, n: u8) -> bool {
    forall|s: int, j: int|
        0 <= s < polys.len() && eligible(polys[s].0, n) && 0 <= j < children(polys, n, s).len() ==> diff_fits(
            polys[s].1@,
            polys[#[trigger] children(polys, n, s)[j].sp as int].1@,
        )
}

/// Indices of the eligible entries among the first `k`.
pub open spec fn eligible_upto(polys: Seq<(u64, Vec<i64>)>, n: u8, k: int) -> Seq<usize>
    decreases k,
{
    if k <= 0 {
        Seq::empty()
    } else if eligible(polys[k - 1].0, n) {
        eligible_upto(polys, n, k - 1).push((k - 1) as usize)
    } else {
        eligible_upto(polys, n, k - 1)
    }
}

/// A pair `(S, S \ {i})` with `D = L_{n,S} - L_{n,S \ {i}}`, trimmed.
pub struct DetailRow {
    pub pair: RemovalPair,
    pub diff: Vec<i64>,
}

/// An eligible entry `S` with the rows of its pairs.
pub struct DetailBlock {
    pub s: usize,
    pub rows: Vec<DetailRow>,
}

/// `block` details entry `s`: one row per pair of [`children_of`], in order, with its difference.
pub open spec fn block_ok(polys: Seq<(u64, Vec<i64>)>, n: u8, s: usize, block: DetailBlock) -> bool {
    &&& block.s == s
    &&& block.rows.len() == children(polys, n, s as int).len()
    &&& forall|j: int|
        0 <= j < block.rows.len() ==> (#[trigger] block.rows@[j]).pair == children(polys, n, s as int)[j]
            && block.rows@[j].diff@ == strip(
            seq_diff(polys[s as int].1@, polys[children(polys, n, s as int)[j].sp as int].1@),
        )
}

/// The detailed table: for each listed `S` with `1 notin S` and some element
/// below `n` (in list order), each pair `(S, S \ {i})` of [`children_of`]
/// with the difference `L_{n,S} - L_{n,S \ {i}}`.
pub fn part6_small_cases(n: u8, polys: &[(u64, Vec<i64>)]) -> (blocks: Vec<DetailBlock>)
    requires
        n <= 65,
        keys_sorted(polys@),
        details_fit(polys@, n),
    ensures
        blocks.len() == eligible_upto(polys@, n, polys.len() as int).len(),
        forall|k: int|
            0 <= k < blocks.len() ==> block_ok(polys@, n, eligible_upto(polys@, n, polys.len() as int)[k], #[trigger] blocks@[k]),
{
    let mut blocks: Vec<DetailBlock> = Vec::new();
    let mut s: usize = 0;
    while s < polys.len()
        invariant
            s <= polys.len(),
            n <= 65,
            keys_sorted(polys@),
            details_fit(polys@, n),
            blocks.len() == eligible_upto(polys@, n, s as int).len(),
            forall|k: int| 0 <= k < blocks.len() ==> block_ok(polys@, n, eligible_upto(polys@, n, s as int)[k], #[trigger] blocks@[k]),
        decreases polys.len() - s,
    {
        let mask = polys[s].0;
        let elems = descent_set_elements(mask, n);
        proof {
            lemma_low_bit(mask);
        }
        if elems.len() > 0 && mask & 1 == 0 {
            let kids = children_of(n, polys, s);
            proof {
                lemma_pairs_from_in_range(polys@, n, s as int, elements_below(mask, n as int).len() as int);
            }
            let mut rows: Vec<DetailRow> = Vec::new();
            let mut j: usize = 0;
            while j < kids.len()
                invariant
                    j <= kids.len(),
                    s < polys.len(),
                    eligible(polys@[s as int].0, n),
                    details_fit(polys@, n),
                    kids@ == children(polys@, n, s as int),
                    forall|t: int| 0 <= t < kids.len() ==> (#[trigger] kids@[t]).sp < polys.len(),
                    rows.len() == j,
                    forall|t: int|
                        0 <= t < j ==> (#[trigger] rows@[t]).pair == kids@[t] && rows@[t].diff@ == strip(
                            seq_diff(polys@[s as int].1@, polys@[kids@[t].sp as int].1@),
                        ),
                decreases kids.len() - j,
            {
                let p = kids[j];
                assert(diff_fits(polys@[s as int].1@, polys@[children(polys@, n, s as int)[j as int].sp as int].1@));
                let diff = poly_sub(polys[s].1.as_slice(), polys[p.sp].1.as_slice());
                rows.push(DetailRow { pair: p, diff });
                j += 1;
            }
            let ghost before = blocks@;
            blocks.push(DetailBlock { s, rows });
            proof {
                assert forall|k: int| 0 <= k < blocks.len() implies block_ok(
                    polys@,
                    n,
                    eligible_upto(polys@, n, s + 1)[k],
                    #[trigger] blocks@[k],
                ) by {
                    if k < before.len() {
                        assert(blocks@[k] == before[k]);
                    }
                }
            }
        }
        s += 1;
    }
    blocks
}

/// A pair `(S, S \ {e})` with `e` the largest (`removed_max`) or smallest element of `S`.
#[derive(Clone, Copy, Debug, PartialEq, Eq, Structural)]
pub struct TransferPair {
    pub s: usize,
    pub elem: u8,
    pub sp: usize,
    pub removed_max: bool,
}

/// For list entry `s` (with at least two elements below `n`): the pair removing
/// the largest element, then the pair removing the smallest, each when listed.
pub open spec fn transfer_pairs_at(polys: Seq<(u64, Vec<i64>)>, n: u8, s: int) -> Seq<TransferPair> {
    let e = elements_below(polys[s].0, n as int);
    let mx = e[e.len() - 1];
    let mn = e[0];
    let a = if has_key(polys, without(polys[s].0, mx)) {
        seq![TransferPair { s: s as usize, elem: mx, sp: key_index(polys, without(polys[s].0, mx)) as usize, removed_max: true }]
    } else {
        Seq::empty()
    };
    let b = if has_key(polys, without(polys[s].0, mn)) {
        seq![TransferPair { s: s as usize, elem: mn, sp: key_index(polys, without(polys[s].0, mn)) as usize, removed_max: false }]
    } else {
        Seq::empty()
    };
    a + b
}

/// Transfer pairs of the first `k` entries, for the sets `S` with `1 notin S` and at least two elements.
pub open spec fn transfer_pairs_upto(polys: Seq<(u64, Vec<i64>)>, n: u8, k: int) -> Seq<TransferPair>
    decreases k,
{
    if k <= 0 {
        Seq::empty()
    } else if eligible(polys[k - 1].0, n) && elements_below(polys[k - 1].0, n as int).len() >= 2 {
        transfer_pairs_upto(polys, n, k - 1) + transfer_pairs_at(polys, n, k - 1)
    } else {
        transfer_pairs_upto(polys, n, k - 1)
    }
}

/// Every pair of the transfer step can form `L_{n,S} - L_{n,S'}` in `i64`.
pub open spec fn transfer_fits(polys: Seq<(u64, Vec<i64>)>, n: u8) -> bool {
    forall|j: int|
        0 <= j < transfer_pairs_upto(polys, n, polys.len() as int).len() ==> {
            let t = #[trigger] transfer_pairs_upto(polys, n, polys.len() as int)[j];
            diff_fits(polys[t.s as int].1@, polys[t.sp as int].1@)
        }
}

/// The difference `D = L_{n,S} - L_{n,S'}` of a transfer pair and its sign pattern.
pub struct TransferRow {
    pub pair: TransferPair,
    /// `D`, trimmed.
    pub diff: Vec<i64>,
    /// `D` is a nonzero multiple of `t` (more than one coefficient, constant term zero).
    pub div_t: bool,
    pub nonneg: bool,
    pub nonpos: bool,
}

/// The row of a transfer pair.
pub open spec fn transfer_row_ok(polys: Seq<(u64, Vec<i64>)>, pair: TransferPair, row: TransferRow) -> bool {
    let d = strip(seq_diff(polys[pair.s as int].1@, polys[pair.sp as int].1@));
    &&& row.pair == pair
    &&& row.diff@ == d
    &&& row.div_t == (d.len() > 1 && d[0] == 0)
    &&& row.nonneg == forall|k: int| 0 <= k < d.len() ==> d[k] >= 0
    &&& row.nonpos == forall|k: int| 0 <= k < d.len() ==> d[k] <= 0
}

fn signs(d: &Vec<i64>) -> (r: (bool, bool))
    ensures
        r.0 == forall|k: int| 0 <= k < d.len() ==> d@[k] >= 0,
        r.1 == forall|k: int| 0 <= k < d.len() ==> d@[k] <= 0,
{
    let mut nonneg = true;
    let mut nonpos = true;
    let mut k: usize = 0;
    while k < d.len()
        invariant
            k <= d.len(),
            nonneg == forall|j: int| 0 <= j < k ==> d@[j] >= 0,
            nonpos == forall|j: int| 0 <= j < k ==> d@[j] <= 0,
        decreases d.len() - k,
    {
        if d[k] < 0 {
            nonneg = false;
        }
        if d[k] > 0 {
            nonpos = false;
        }
        k += 1;
    }
    (nonneg, nonpos)
}

proof fn lemma_transfer_in_range(polys: Seq<(u64, Vec<i64>)>, n: u8, k: int)
    requires
        0 <= k <= polys.len(),
        polys.len() <= usize::MAX,
    ensures
        forall|j: int|
            0 <= j < transfer_pairs_upto(polys, n, k).len() ==> (#[trigger] transfer_pairs_upto(polys, n, k)[j]).s < polys.len()
                && transfer_pairs_upto(polys, n, k)[j].sp < polys.len(),
    decreases k,
{
    if k > 0 {
        lemma_transfer_in_range(polys, n, k - 1);
        let prev = transfer_pairs_upto(polys, n, k - 1);
        if eligible(polys[k - 1].0, n) && elements_below(polys[k - 1].0, n as int).len() >= 2 {
            let extra = transfer_pairs_at(polys, n, k - 1);
            let e = elements_below(polys[k - 1].0, n as int);
            if has_key(polys, without(polys[k - 1].0, e[e.len() - 1])) {
                assert(0 <= key_index(polys, without(polys[k - 1].0, e[e.len() - 1])) < polys.len());
            }
            if has_key(polys, without(polys[k - 1].0, e[0])) {
                assert(0 <= key_index(polys, without(polys[k - 1].0, e[0])) < polys.len());
            }
            assert forall|j: int| 0 <= j < (prev + extra).len() implies (#[trigger] (prev + extra)[j]).s < polys.len()
                && (prev + extra)[j].sp < polys.len() by {
                if j < prev.len() {
                    assert((prev + extra)[j] == prev[j]);
                } else {
                    assert((prev + extra)[j] == extra[j - prev.len()]);
                }
            }
        }
    }
}

/// Rows of the transfer step, comparing `L_{n,S}` with `L_{n,S \ {max S}}` and
/// `L_{n,S \ {min S}}` for the listed sets `S` with `1 notin S` and `|S| >= 2`
/// (below `n`), in list order, the larger removal first.
pub fn part2_transfer(n: u8, polys: &[(u64, Vec<i64>)]) -> (rows: Vec<TransferRow>)
    requires
        n <= 65,
        keys_sorted(polys@),
        transfer_fits(polys@, n),
    ensures
        rows.len() == transfer_pairs_upto(polys@, n, polys.len() as int).len(),
        forall|j: int|
            0 <= j < rows.len() ==> transfer_row_ok(polys@, transfer_pairs_upto(polys@, n, polys.len() as int)[j], #[trigger] rows@[j]),
{
    let ghost all = transfer_pairs_upto(polys@, n, polys.len() as int);
    proof {
        lemma_transfer_in_range(polys@, n, polys.len() as int);
    }
    let mut pairs: Vec<TransferPair> = Vec::new();
    let mut s: usize = 0;
    while s < polys.len()
        invariant
            s <= polys.len(),
            n <= 65,
            keys_sorted(polys@),
            pairs@ == transfer_pairs_upto(polys@, n, s as int),
        decreases polys.len() - s,
    {
        let mask = polys[s].0;
        let elems = descent_set_elements(mask, n);
        proof {
            lemma_low_bit(mask);
        }
        if elems.len() >= 2 && mask & 1 == 0 {
            let ghost before = pairs@;
            let mx = elems[elems.len() - 1];
            let mn = elems[0];
            assert(1 <= elems@[elems.len() - 1] < n && 1 <= elems@[0] < n);
            let sp_max = remove_element(mask, mx);
            let ghost mid = pairs@;
            match find_key(polys, sp_max) {
                Some(t) => {
                    pairs.push(TransferPair { s, elem: mx, sp: t, removed_max: true });
                },
                None => {},
            }
            let sp_min = remove_element(mask, mn);
            match find_key(polys, sp_min) {
                Some(t) => {
                    pairs.push(TransferPair { s, elem: mn, sp: t, removed_max: false });
                },
                None => {},
            }
            proof {
                assert(pairs@ =~= before + transfer_pairs_at(polys@, n, s as int));
            }
        }
        s += 1;
    }
    let mut rows: Vec<TransferRow> = Vec::new();
    let mut j: usize = 0;
    while j < pairs.len()
        invariant
            j <= pairs.len(),
            pairs@ == all,
            all == transfer_pairs_upto(polys@, n, polys.len() as int),
            transfer_fits(polys@, n),
            forall|t: int| 0 <= t < all.len() ==> (#[trigger] all[t]).s < polys.len() && all[t].sp < polys.len(),
            rows.len() == j,
            forall|t: int| 0 <= t < j ==> transfer_row_ok(polys@, all[t], #[trigger] rows@[t]),
        decreases pairs.len() - j,
    {
        let pr = pairs[j];
        assert(diff_fits(polys@[pr.s as int].1@, polys@[pr.sp as int].1@)) by {
            assert(all[j as int] == pr);
        }
        let d = poly_sub(&polys[pr.s].1, &polys[pr.sp].1);
        let div_t = d.len() > 1 && d[0] == 0;
        let (nonneg, nonpos) = signs(&d);
        rows.push(TransferRow { pair: pr, diff: d, div_t, nonneg, nonpos });
        j += 1;
    }
    rows
}


/// Descent masks of the permutations.
pub open spec fn perm_masks(perms: Seq<Vec<u8>>) -> Seq<u64> {
    Seq::new(perms.len(), |k: int| descent_mask_upto(perms[k]@, perms[k]@.len() as int))
}

/// Positions (1-indexed) of the maximum `n` in the permutations.
pub open spec fn perm_npos(perms: Seq<Vec<u8>>, n: u8) -> Seq<usize> {
    Seq::new(perms.len(), |k: int| (index_of(perms[k]@, n) + 1) as usize)
}

/// Swap counts of the first `m` permutations with descent mask `mask` and `n` at `pos`.
pub open spec fn pos_vals(mks: Seq<u64>, pns: Seq<usize>, swaps: Seq<usize>, mask: u64, pos: int, m: int) -> Seq<usize>
    decreases m,
{
    if m <= 0 {
        Seq::empty()
    } else if mks[m - 1] == mask && pns[m - 1] as int == pos {
        pos_vals(mks, pns, swaps, mask, pos, m - 1).push(swaps[m - 1])
    } else {
        pos_vals(mks, pns, swaps, mask, pos, m - 1)
    }
}

/// `L_{n,S}^{(pos)}`: swap polynomial of the permutations with descent set `mask`
/// and `n` at position `pos` (`[0]` when there are none).
pub open spec fn refined_poly(perms: Seq<Vec<u8>>, swaps: Seq<usize>, n: u8, mask: u64, pos: int) -> Seq<i64> {
    poly_of(pos_vals(perm_masks(perms), perm_npos(perms, n), swaps, mask, pos, perms.len() as int))
}

/// Some permutation with descent set `mask` has `n` at `pos`.
pub open spec fn occupied(perms: Seq<Vec<u8>>, swaps: Seq<usize>, n: u8, mask: u64, pos: int) -> bool {
    pos_vals(perm_masks(perms), perm_npos(perms, n), swaps, mask, pos, perms.len() as int).len() > 0
}

/// Positions `1 <= pos < end` occupied for `S` or for `S'`, increasing.
pub open spec fn diff_positions_upto(perms: Seq<Vec<u8>>, swaps: Seq<usize>, n: u8, s: u64, sp: u64, end: int) -> Seq<int>
    decreases end,
{
    if end <= 1 {
        Seq::empty()
    } else if occupied(perms, swaps, n, s, end - 1) || occupied(perms, swaps, n, sp, end - 1) {
        diff_positions_upto(perms, swaps, n, s, sp, end - 1).push(end - 1)
    } else {
        diff_positions_upto(perms, swaps, n, s, sp, end - 1)
    }
}

/// Number of nonzero coefficients.
pub open spec fn nonzero_count(d: Seq<i64>) -> int
    decreases d.len(),
{
    if d.len() == 0 {
        0
    } else {
        nonzero_count(d.drop_last()) + if d.last() != 0 {
            1int
        } else {
            0int
        }
    }
}

/// `L_{n,S}^{(pos)} - L_{n,S'}^{(pos)}` at one position, with its sign, degree and support size.
pub struct PositionDiff {
    pub pos: usize,
    pub diff: Vec<i64>,
    pub nonneg: bool,
    pub deg: Option<usize>,
    pub nonzero: usize,
}

/// `row` describes the difference at `pos` for the sets `s` and `sp`.
pub open spec fn position_diff_ok(
    perms: Seq<Vec<u8>>,
    swaps: Seq<usize>,
    n: u8,
    s: u64,
    sp: u64,
    pos: int,
    row: PositionDiff,
) -> bool {
    let d = strip(seq_diff(refined_poly(perms, swaps, n, s, pos), refined_poly(perms, swaps, n, sp, pos)));
    &&& row.pos == pos
    &&& row.diff@ == d
    &&& row.nonneg == forall|k: int| 0 <= k < d.len() ==> d[k] >= 0
    &&& row.deg == degree_opt(d)
    &&& row.nonzero == nonzero_count(d)
}

/// One step `S -> S \ {i}` of the matrix recurrence, refined by the position of `n`.
pub struct MatrixStep {
    pub s: usize,
    pub i: u8,
    pub sp_mask: u64,
    pub rows: Vec<PositionDiff>,
}

/// The steps `(s, i)` from list entry `s` for its first `m` elements.
pub open spec fn steps_from(polys: Seq<(u64, Vec<i64>)>, n: u8, s: int, m: int) -> Seq<(int, u8)>
    decreases m,
{
    if m <= 0 {
        Seq::empty()
    } else {
        steps_from(polys, n, s, m - 1).push((s, elements_below(polys[s].0, n as int)[m - 1]))
    }
}

/// The steps of the first `k` list entries whose set is eligible.
pub open spec fn steps_upto(polys: Seq<(u64, Vec<i64>)>, n: u8, k: int) -> Seq<(int, u8)>
    decreases k,
{
    if k <= 0 {
        Seq::empty()
    } else if eligible(polys[k - 1].0, n) {
        steps_upto(polys, n, k - 1) + steps_from(polys, n, k - 1, elements_below(polys[k - 1].0, n as int).len() as int)
    } else {
        steps_upto(polys, n, k - 1)
    }
}

/// What the refined comparison needs of the permutations of `[n]`.
pub open spec fn perms_ok(perms: Seq<Vec<u8>>, swaps: Seq<usize>, n: u8) -> bool {
    &&& swaps.len() == perms.len()
    &&& perms.len() <= i64::MAX
    &&& forall|k: int| 0 <= k < perms.len() ==> (#[trigger] perms[k]).len() <= 65 && has_value(perms[k]@, n)
    &&& forall|k: int| 0 <= k < swaps.len() ==> #[trigger] swaps[k] < usize::MAX
}

proof fn lemma_pos_vals_bounds(mks: Seq<u64>, pns: Seq<usize>, swaps: Seq<usize>, mask: u64, pos: int, m: int)
    requires
        0 <= m <= swaps.len(),
        forall|k: int| 0 <= k < swaps.len() ==> #[trigger] swaps[k] < usize::MAX,
    ensures
        pos_vals(mks, pns, swaps, mask, pos, m).len() <= m,
        forall|k: int| 0 <= k < pos_vals(mks, pns, swaps, mask, pos, m).len() ==> #[trigger] pos_vals(mks, pns, swaps, mask, pos, m)[k] < usize::MAX,
    decreases m,
{
    if m > 0 {
        lemma_pos_vals_bounds(mks, pns, swaps, mask, pos, m - 1);
    }
}

/// Coefficients of a refined polynomial are counts, at most the number of permutations.
proof fn lemma_refined_bounds(vals: Seq<usize>, bound: int, k: int)
    requires
        vals.len() <= bound <= i64::MAX,
    ensures
        0 <= crate::poly::coef(poly_of(vals), k) <= bound,
{
    if vals.len() > 0 {
        if 0 <= k < poly_of(vals).len() {
            crate::poly::lemma_count_le(vals, k);
        }
    }
}

fn vals_for(masks: &Vec<u64>, npos: &Vec<usize>, swaps: &[usize], mask: u64, pos: usize) -> (v: Vec<usize>)
    requires
        masks.len() == swaps.len(),
        npos.len() == swaps.len(),
    ensures
        v@ == pos_vals(masks@, npos@, swaps@, mask, pos as int, swaps.len() as int),
{
    let mut v: Vec<usize> = Vec::new();
    let mut k: usize = 0;
    while k < swaps.len()
        invariant
            k <= swaps.len(),
            masks.len() == swaps.len(),
            npos.len() == swaps.len(),
            v@ == pos_vals(masks@, npos@, swaps@, mask, pos as int, k as int),
        decreases swaps.len() - k,
    {
        if masks[k] == mask && npos[k] == pos {
            v.push(swaps[k]);
        }
        k += 1;
    }
    v
}

fn count_nonzero(d: &Vec<i64>) -> (c: usize)
    ensures
        c == nonzero_count(d@),
{
    let mut c: usize = 0;
    let mut k: usize = 0;
    while k < d.len()
        invariant
            k <= d.len(),
            c == nonzero_count(d@.take(k as int)),
            c <= k,
        decreases d.len() - k,
    {
        assert(d@.take(k + 1).drop_last() =~= d@.take(k as int));
        if d[k] != 0 {
            c += 1;
        }
        k += 1;
    }
    assert(d@.take(k as int) =~= d@);
    c
}

/// The steps `S -> S \ {i}` of the matrix recurrence for the listed sets `S`
/// with `1 notin S` (every element `i` of `S` below `n`, whether or not `S \ {i}`
/// is listed), each with the position-refined differences
/// `L_{n,S}^{(pos)} - L_{n,S \ {i}}^{(pos)}` over the positions of `n` that occur on either side.
/// `perms` are the permutations of `[n]`, `swaps[k]` the swap count of `perms[k]`.
pub fn part3_matrix_recurrence(n: u8, perms: &[Vec<u8>], swaps: &[usize], polys: &[(u64, Vec<i64>)]) -> (steps: Vec<
    MatrixStep,
>)
    requires
        n <= 65,
        keys_sorted(polys@),
        perms_ok(perms@, swaps@, n),
    ensures
        steps.len() == steps_upto(polys@, n, polys.len() as int).len(),
        forall|j: int|
            0 <= j < steps.len() ==> step_ok(perms@, swaps@, n, polys@, steps_upto(polys@, n, polys.len() as int)[j], #[trigger] steps@[j]),
{
    let mut masks: Vec<u64> = Vec::new();
    let mut npos: Vec<usize> = Vec::new();
    let mut k: usize = 0;
    while k < perms.len()
        invariant
            k <= perms.len(),
            perms_ok(perms@, swaps@, n),
            masks@ == perm_masks(perms@).take(k as int),
            npos@ == perm_npos(perms@, n).take(k as int),
        decreases perms.len() - k,
    {
        assert(perms@[k as int].len() <= 65 && has_value(perms@[k as int]@, n));
        let m = descent_set_bitmask(perms[k].as_slice());
        let idx = first_index_of(&perms[k], n);
        let len = perms[k].len();
        assert(idx < len);
        masks.push(m);
        npos.push(idx + 1);
        assert(masks@ =~= perm_masks(perms@).take(k + 1));
        assert(npos@ =~= perm_npos(perms@, n).take(k + 1));
        k += 1;
    }
    assert(masks@ =~= perm_masks(perms@));
    assert(npos@ =~= perm_npos(perms@, n));
    let mut steps: Vec<MatrixStep> = Vec::new();
    let mut s: usize = 0;
    while s < polys.len()
        invariant
            s <= polys.len(),
            n <= 65,
            keys_sorted(polys@),
            perms_ok(perms@, swaps@, n),
            masks@ == perm_masks(perms@),
            npos@ == perm_npos(perms@, n),
            steps.len() == steps_upto(polys@, n, s as int).len(),
            forall|j: int| 0 <= j < steps.len() ==> step_ok(perms@, swaps@, n, polys@, steps_upto(polys@, n, s as int)[j], #[trigger] steps@[j]),
        decreases polys.len() - s,
    {
        let mask = polys[s].0;
        let elems = descent_set_elements(mask, n);
        proof {
            lemma_low_bit(mask);
        }
        let ghost before = steps_upto(polys@, n, s as int);
        if elems.len() > 0 && mask & 1 == 0 {
            let ghost mut acc = before;
            let mut e: usize = 0;
            while e < elems.len()
                invariant
                    e <= elems.len(),
                    s < polys.len(),
                    n <= 65,
                    keys_sorted(polys@),
                    perms_ok(perms@, swaps@, n),
                    masks@ == perm_masks(perms@),
                    npos@ == perm_npos(perms@, n),
                    mask == polys@[s as int].0,
                    elems@ == elements_below(mask, n as int),
                    forall|j: int| 0 <= j < elems.len() ==> 1 <= #[trigger] elems@[j] < n,
                    acc == before + steps_from(polys@, n, s as int, e as int),
                    steps.len() == acc.len(),
                    forall|j: int| 0 <= j < steps.len() ==> step_ok(perms@, swaps@, n, polys@, acc[j], #[trigger] steps@[j]),
                decreases elems.len() - e,
            {
                let i = elems[e];
                assert(1 <= elems@[e as int] < n);
                let sp = remove_element(mask, i);
                let rows = refined_rows(n, perms, swaps, &masks, &npos, mask, sp);
                let ghost old_steps = steps@;
                let ghost old_acc = acc;
                steps.push(MatrixStep { s, i, sp_mask: sp, rows });
                proof {
                    acc = acc.push((s as int, i));
                    assert(acc =~= before + steps_from(polys@, n, s as int, e + 1));
                    assert forall|j: int| 0 <= j < steps.len() implies step_ok(perms@, swaps@, n, polys@, acc[j], #[trigger] steps@[j]) by {
                        if j < old_steps.len() {
                            assert(steps@[j] == old_steps[j]);
                            assert(acc[j] == old_acc[j]);
                        }
                    }
                }
                e += 1;
            }
            proof {
                assert(steps_upto(polys@, n, s + 1) == before + steps_from(polys@, n, s as int, elems.len() as int));
            }
        } else {
            assert(steps_upto(polys@, n, s + 1) == before);
        }
        s += 1;
    }
    steps
}

/// `st` records the step `(s, i)` of the list `polys`.
pub open spec fn step_ok(
    perms: Seq<Vec<u8>>,
    swaps: Seq<usize>,
    n: u8,
    polys: Seq<(u64, Vec<i64>)>,
    step: (int, u8),
    st: MatrixStep,
) -> bool {
    let (s, i) = step;
    let sp = without(polys[s].0, i);
    &&& st.s == s && st.i == i && st.sp_mask == sp
    &&& st.rows.len() == diff_positions_upto(perms, swaps, n, polys[s].0, sp, n + 1).len()
    &&& forall|r: int|
        0 <= r < st.rows.len() ==> position_diff_ok(
            perms,
            swaps,
            n,
            polys[s].0,
            sp,
            diff_positions_upto(perms, swaps, n, polys[s].0, sp, n + 1)[r],
            #[trigger] st.rows@[r],
        )
}

/// Position-refined differences for `S = s` and `S' = sp` over the occupied positions `1..=n`.
fn refined_rows(n: u8, perms: &[Vec<u8>], swaps: &[usize], masks: &Vec<u64>, npos: &Vec<usize>, s: u64, sp: u64) -> (rows: Vec<
    PositionDiff,
>)
    requires
        perms_ok(perms@, swaps@, n),
        masks@ == perm_masks(perms@),
        npos@ == perm_npos(perms@, n),
    ensures
        rows.len() == diff_positions_upto(perms@, swaps@, n, s, sp, n + 1).len(),
        forall|r: int|
            0 <= r < rows.len() ==> position_diff_ok(
                perms@,
                swaps@,
                n,
                s,
                sp,
                diff_positions_upto(perms@, swaps@, n, s, sp, n + 1)[r],
                #[trigger] rows@[r],
            ),
{
    let mut rows: Vec<PositionDiff> = Vec::new();
    assert(npos.len() == swaps.len() && masks.len() == swaps.len());
    let mut pos: usize = 1;
    while pos <= n as usize
        invariant
            1 <= pos <= n + 1,
            perms_ok(perms@, swaps@, n),
            masks@ == perm_masks(perms@),
            npos@ == perm_npos(perms@, n),
            masks.len() == swaps.len(),
            npos.len() == swaps.len(),
            rows.len() == diff_positions_upto(perms@, swaps@, n, s, sp, pos as int).len(),
            forall|r: int|
                0 <= r < rows.len() ==> position_diff_ok(
                    perms@,
                    swaps@,
                    n,
                    s,
                    sp,
                    diff_positions_upto(perms@, swaps@, n, s, sp, pos as int)[r],
                    #[trigger] rows@[r],
                ),
        decreases n + 1 - pos,
    {
        let vs = vals_for(masks, npos, swaps, s, pos);
        let vsp = vals_for(masks, npos, swaps, sp, pos);
        let ghost prev = diff_positions_upto(perms@, swaps@, n, s, sp, pos as int);
        if vs.len() > 0 || vsp.len() > 0 {
            proof {
                lemma_pos_vals_bounds(masks@, npos@, swaps@, s, pos as int, swaps.len() as int);
                lemma_pos_vals_bounds(masks@, npos@, swaps@, sp, pos as int, swaps.len() as int);
            }
            let a = build_poly(&vs);
            let b = build_poly(&vsp);
            proof {
                assert(a@ == poly_of(vs@));
                assert(b@ == poly_of(vsp@));
                assert forall|k: int| #[trigger] fits_i64(crate::poly::coef(a@, k) - crate::poly::coef(b@, k)) by {
                    lemma_refined_bounds(vs@, i64::MAX as int, k);
                    lemma_refined_bounds(vsp@, i64::MAX as int, k);
                }
            }
            let d = poly_sub(&a, &b);
            let (nonneg, _) = signs(&d);
            let deg = crate::poly::poly_deg(&d);
            proof {
                lemma_degree_matches(d@, deg);
            }
            let nonzero = count_nonzero(&d);
            let ghost old_rows = rows@;
            rows.push(PositionDiff { pos, diff: d, nonneg, deg, nonzero });
            proof {
                assert(diff_positions_upto(perms@, swaps@, n, s, sp, pos + 1) == prev.push(pos as int));
                assert forall|r: int| 0 <= r < rows.len() implies position_diff_ok(
                    perms@,
                    swaps@,
                    n,
                    s,
                    sp,
                    diff_positions_upto(perms@, swaps@, n, s, sp, pos + 1)[r],
                    #[trigger] rows@[r],
                ) by {
                    if r < old_rows.len() {
                        assert(rows@[r] == old_rows[r]);
                    }
                }
            }
        } else {
            assert(diff_positions_upto(perms@, swaps@, n, s, sp, pos + 1) == prev);
        }
        pos += 1;
    }
    rows
}

} // verus!
