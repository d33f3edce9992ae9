//! Source distributions: for a target descent set `S`, an insertion position
//! `p` and the source permutations of `[n-1]`, the list of pairs
//! `(modified swaps, q)` where `q` is the position of `n-1` in the source.
//! The polynomials below collect these pairs by zone of `q`.
use vstd::prelude::*;
use crate::poly::{coef, is_trimmed, strip, trim_in_place, lemma_strip};
use crate::insertion::{breaks_consecutive_pair, first_index, epsilon1, eps2};
use crate::descent::{in_set, asc_source_has, desc_source_has, source_asc, source_desc};

verus! {

/// Zone of the previous-maximum position `q` relative to consecutive valid
/// positions `p_a < p_b`: `L` when `q <= p_a - 2`, `M` when
/// `p_a - 1 <= q <= p_b - 2`, `R` when `q >= p_b - 1`.
#[derive(Debug, Clone, Copy, PartialEq, Eq, Structural)]
pub enum Zone {
    L,
    M,
    R,
}

pub open spec fn zone_of(q: int, p_a: int, p_b: int) -> Zone {
    if p_a >= 2 && q <= p_a - 2 {
        Zone::L
    } else if p_b >= 2 && q <= p_b - 2 {
        Zone::M
    } else {
        Zone::R
    }
}

/// `epsilon_2(p, q)` as an integer.
pub open spec fn eps2_spec(p: int, q: int) -> int {
    if p >= 2 && q <= p - 2 {
        1
    } else {
        0
    }
}

/// Zone of `q` relative to `(p_a, p_b)`.
pub fn classify_zone(q: u8, p_a: u8, p_b: u8) -> (z: Zone)
    ensures
        z == zone_of(q as int, p_a as int, p_b as int),
{
    if p_a >= 2 && q <= p_a - 2 {
        Zone::L
    } else if p_b >= 2 && q <= p_b - 2 {
        Zone::M
    } else {
        Zone::R
    }
}

/// One-letter label of a zone.
pub fn zone_label(z: Zone) -> (s: &'static str)
    ensures
        z == Zone::L ==> s@ == "L"@,
        z == Zone::M ==> s@ == "M"@,
        z == Zone::R ==> s@ == "R"@,
{
    match z {
        Zone::L => "L",
        Zone::M => "M",
        Zone::R => "R",
    }
}

/// Which entries of a distribution a polynomial collects.
#[derive(Debug, Clone, Copy, PartialEq, Eq, Structural)]
pub enum Selection {
    /// Every entry.
    All,
    /// Entries with `q >= p_a - 1` (zones M and R).
    AtLeast(u8),
    /// Entries with `epsilon_2(p_b, q) = 1` (shifted part).
    Shifted(u8),
    /// Entries with `epsilon_2(p_b, q) = 0` (unshifted part).
    Unshifted(u8),
    /// Entries whose `q` lies in the given zone of `(p_a, p_b)`.
    InZone(u8, u8, Zone),
    /// Entries with exactly this `q`.
    AtQ(u8),
}

pub open spec fn selects(sel: Selection, q: u8) -> bool {
    match sel {
        Selection::All => true,
        Selection::AtLeast(p_a) => q + 1 >= p_a,
        Selection::Shifted(p_b) => eps2_spec(p_b as int, q as int) == 1,
        Selection::Unshifted(p_b) => eps2_spec(p_b as int, q as int) == 0,
        Selection::InZone(p_a, p_b, z) => zone_of(q as int, p_a as int, p_b as int) == z,
        Selection::AtQ(q0) => q == q0,
    }
}

/// Number of entries `(s, q)` of `d` with the given `s` and a selected `q`.
pub open spec fn count_where(d: Seq<(usize, u8)>, s: int, sel: Selection) -> nat
    decreases d.len(),
{
    if d.len() == 0 {
        0
    } else {
        count_where(d.drop_last(), s, sel) + if d.last().0 as int == s && selects(sel, d.last().1) {
            1nat
        } else {
            0nat
        }
    }
}

/// A distribution that the polynomial builders accept: counts fit in an `i64`
/// and every statistic value can be incremented.
pub open spec fn dist_ok(d: Seq<(usize, u8)>) -> bool {
    &&& d.len() <= i64::MAX
    &&& forall|i: int| 0 <= i < d.len() ==> (#[trigger] d[i]).0 < usize::MAX
}

/// Every `q` of the distribution is below 255, so that `q + 1` fits in a byte.
pub open spec fn q_small(d: Seq<(usize, u8)>) -> bool {
    forall|i: int| 0 <= i < d.len() ==> (#[trigger] d[i]).1 < 255
}

pub proof fn lemma_count_where_le(d: Seq<(usize, u8)>, s: int, sel: Selection)
    ensures
        count_where(d, s, sel) <= d.len(),
    decreases d.len(),
{
    if d.len() > 0 {
        lemma_count_where_le(d.drop_last(), s, sel);
    }
}

pub proof fn lemma_count_where_none(d: Seq<(usize, u8)>, s: int, sel: Selection)
    requires
        forall|i: int| 0 <= i < d.len() ==> (#[trigger] d[i]).0 as int != s,
    ensures
        count_where(d, s, sel) == 0,
    decreases d.len(),
{
    if d.len() > 0 {
        lemma_count_where_none(d.drop_last(), s, sel);
    }
}

fn selected(sel: Selection, q: u8) -> (b: bool)
    requires
        sel is AtLeast ==> q < 255,
    ensures
        b == selects(sel, q),
{
    match sel {
        Selection::All => true,
        Selection::AtLeast(p_a) => q + 1 >= p_a,
        Selection::Shifted(p_b) => eps2(p_b, q) == 1,
        Selection::Unshifted(p_b) => eps2(p_b, q) == 0,
        Selection::InZone(p_a, p_b, z) => classify_zone(q, p_a, p_b) == z,
        Selection::AtQ(q0) => q == q0,
    }
}

/// Polynomial whose coefficient of `t^s` counts the selected entries with
/// statistic value `s`; trimmed, and `[0]` when nothing is selected.
pub fn collect_poly(dist: &[(usize, u8)], sel: Selection) -> (poly: Vec<i64>)
    requires
        dist_ok(dist@),
        sel is AtLeast ==> q_small(dist@),
    ensures
        is_trimmed(poly@),
        poly.len() >= 1,
        forall|k: int| 0 <= k ==> #[trigger] coef(poly@, k) == count_where(dist@, k, sel),
{
    let mut poly: Vec<i64> = vec![0i64];
    let mut i: usize = 0;
    while i < dist.len()
        invariant
            i <= dist.len(),
            dist_ok(dist@),
            sel is AtLeast ==> q_small(dist@),
            poly.len() >= 1,
            forall|k: int| 0 <= k < poly.len() ==> poly@[k] == count_where(dist@.take(i as int), k, sel),
            forall|k: int| k >= poly.len() ==> count_where(dist@.take(i as int), k, sel) == 0,
        decreases dist.len() - i,
    {
        let (s, q) = dist[i];
        let ghost prev = dist@.take(i as int);
        let ghost next = dist@.take(i + 1);
        assert(next.drop_last() =~= prev);
        assert(next.last() == dist@[i as int]);
        assert(dist@[i as int].0 < usize::MAX);
        assert(sel is AtLeast ==> dist@[i as int].1 < 255);
        if selected(sel, q) {
            while poly.len() <= s
                invariant
                    s < usize::MAX,
                    poly.len() >= 1,
                    forall|k: int| 0 <= k < poly.len() ==> poly@[k] == count_where(prev, k, sel),
                    forall|k: int| k >= poly.len() ==> count_where(prev, k, sel) == 0,
                decreases s + 1 - poly.len(),
            {
                poly.push(0);
            }
            proof {
                lemma_count_where_le(prev, s as int, sel);
            }
            let c = poly[s] + 1;
            poly.set(s, c);
        }
        proof {
            assert forall|k: int| 0 <= k < poly.len() implies poly@[k] == count_where(next, k, sel) by {}
            assert forall|k: int| k >= poly.len() implies count_where(next, k, sel) == 0 by {
                assert(count_where(next, k, sel) == count_where(prev, k, sel) + if next.last().0 as int == k
                    && selects(sel, next.last().1) {
                    1nat
                } else {
                    0nat
                });
                if selects(sel, q) {
                    assert(s < poly.len());
                }
            }
        }
        i += 1;
    }
    assert(dist@.take(dist.len() as int) =~= dist@);
    let ghost full = poly@;
    trim_in_place(&mut poly);
    proof {
        lemma_strip(full);
        assert forall|k: int| 0 <= k implies #[trigger] coef(poly@, k) == count_where(dist@, k, sel) by {
            assert(coef(poly@, k) == coef(full, k));
            if k >= full.len() {
                assert(count_where(dist@, k, sel) == 0);
            }
        }
    }
    poly
}

/// `Sa(t)`: the entries with `q >= p_a - 1` (zones M and R relative to `(p_a, p_b)`).
pub fn build_sa(dist: &[(usize, u8)], p_a: u8) -> (poly: Vec<i64>)
    requires
        dist_ok(dist@),
        q_small(dist@),
    ensures
        is_trimmed(poly@),
        poly.len() >= 1,
        forall|k: int| 0 <= k ==> #[trigger] coef(poly@, k) == count_where(dist@, k, Selection::AtLeast(p_a)),
{
    collect_poly(dist, Selection::AtLeast(p_a))
}

/// `Sa` and `Rb` taken at the same position select the same entries: `q >= p - 1`
/// exactly when `q` is not shifted at `p` (`epsilon_2(p, q) = 0`), so
/// [`build_sa`] and [`build_rb`] agree coefficient by coefficient.
pub proof fn lemma_sa_equals_rb(d: Seq<(usize, u8)>, p: u8)
    ensures
        forall|k: int| #[trigger] count_where(d, k, Selection::AtLeast(p)) == count_where(d, k, Selection::Unshifted(p)),
{
    assert forall|k: int| #[trigger] count_where(d, k, Selection::AtLeast(p)) == count_where(d, k, Selection::Unshifted(p)) by {
        lemma_count_split_eq(d, k, Selection::AtLeast(p), Selection::Unshifted(p));
    }
}

/// `Sb(t)`: zones M and R of the source for `p_b`, taken relative to `p_a`.
pub fn build_sb_mr(dist: &[(usize, u8)], p_a: u8) -> (poly: Vec<i64>)
    requires
        dist_ok(dist@),
        q_small(dist@),
    ensures
        is_trimmed(poly@),
        poly.len() >= 1,
        forall|k: int| 0 <= k ==> #[trigger] coef(poly@, k) == count_where(dist@, k, Selection::AtLeast(p_a)),
{
    build_sa(dist, p_a)
}

/// Full source polynomial: every entry.
pub fn build_full_source(dist: &[(usize, u8)]) -> (poly: Vec<i64>)
    requires
        dist_ok(dist@),
    ensures
        is_trimmed(poly@),
        poly.len() >= 1,
        forall|k: int| 0 <= k ==> #[trigger] coef(poly@, k) == count_where(dist@, k, Selection::All),
{
    collect_poly(dist, Selection::All)
}

/// `Tb(t)`: the entries shifted by `t` at position `p_b` (`epsilon_2(p_b, q) = 1`).
pub fn build_tb(dist: &[(usize, u8)], p_b: u8) -> (poly: Vec<i64>)
    requires
        dist_ok(dist@),
    ensures
        is_trimmed(poly@),
        poly.len() >= 1,
        forall|k: int| 0 <= k ==> #[trigger] coef(poly@, k) == count_where(dist@, k, Selection::Shifted(p_b)),
{
    collect_poly(dist, Selection::Shifted(p_b))
}

/// `Rb(t)`: the entries not shifted at position `p_b` (`epsilon_2(p_b, q) = 0`).
pub fn build_rb(dist: &[(usize, u8)], p_b: u8) -> (poly: Vec<i64>)
    requires
        dist_ok(dist@),
    ensures
        is_trimmed(poly@),
        poly.len() >= 1,
        forall|k: int| 0 <= k ==> #[trigger] coef(poly@, k) == count_where(dist@, k, Selection::Unshifted(p_b)),
{
    collect_poly(dist, Selection::Unshifted(p_b))
}

/// Raw zone polynomial: the entries whose `q` lies in `zone` of `(p_a, p_b)`.
pub fn build_zone_raw(dist: &[(usize, u8)], p_a: u8, p_b: u8, zone: Zone) -> (poly: Vec<i64>)
    requires
        dist_ok(dist@),
    ensures
        is_trimmed(poly@),
        poly.len() >= 1,
        forall|k: int| 0 <= k ==> #[trigger] coef(poly@, k) == count_where(dist@, k, Selection::InZone(p_a, p_b, zone)),
{
    collect_poly(dist, Selection::InZone(p_a, p_b, zone))
}

/// `N_p(*, q)`: the entries with the given `q`.
pub fn build_n_poly(dist: &[(usize, u8)], q: u8) -> (poly: Vec<i64>)
    requires
        dist_ok(dist@),
    ensures
        is_trimmed(poly@),
        poly.len() >= 1,
        forall|k: int| 0 <= k ==> #[trigger] coef(poly@, k) == count_where(dist@, k, Selection::AtQ(q)),
{
    collect_poly(dist, Selection::AtQ(q))
}

/// Splitting the selected entries by a second predicate.
pub proof fn lemma_count_split(d: Seq<(usize, u8)>, s: int, a: Selection, b: Selection, c: Selection)
    requires
        forall|q: u8| selects(a, q) <==> (selects(b, q) || selects(c, q)),
        forall|q: u8| !(selects(b, q) && selects(c, q)),
    ensures
        count_where(d, s, a) == count_where(d, s, b) + count_where(d, s, c),
    decreases d.len(),
{
    if d.len() > 0 {
        lemma_count_split(d.drop_last(), s, a, b, c);
    }
}

/// The full source splits into its shifted and unshifted parts at any position:
/// `F = T + R`, coefficientwise.
pub proof fn lemma_full_is_shifted_plus_unshifted(d: Seq<(usize, u8)>, p_b: u8, s: int)
    ensures
        count_where(d, s, Selection::All) == count_where(d, s, Selection::Shifted(p_b)) + count_where(
            d,
            s,
            Selection::Unshifted(p_b),
        ),
{
    lemma_count_split(d, s, Selection::All, Selection::Shifted(p_b), Selection::Unshifted(p_b));
}

/// For positions `p_a < p_b`, the zones partition the source: `F = L + M + R`,
/// `Tb = L + M`, `Rb = R` and `Sa = M + R`, coefficientwise.
pub proof fn lemma_zone_decomposition(d: Seq<(usize, u8)>, p_a: u8, p_b: u8, s: int)
    requires
        p_a < p_b,
    ensures
        count_where(d, s, Selection::All) == count_where(d, s, Selection::InZone(p_a, p_b, Zone::L))
            + count_where(d, s, Selection::InZone(p_a, p_b, Zone::M)) + count_where(
            d,
            s,
            Selection::InZone(p_a, p_b, Zone::R),
        ),
        count_where(d, s, Selection::Shifted(p_b)) == count_where(d, s, Selection::InZone(p_a, p_b, Zone::L))
            + count_where(d, s, Selection::InZone(p_a, p_b, Zone::M)),
        count_where(d, s, Selection::Unshifted(p_b)) == count_where(d, s, Selection::InZone(p_a, p_b, Zone::R)),
        count_where(d, s, Selection::AtLeast(p_a)) == count_where(d, s, Selection::InZone(p_a, p_b, Zone::M))
            + count_where(d, s, Selection::InZone(p_a, p_b, Zone::R)),
{
    let l = Selection::InZone(p_a, p_b, Zone::L);
    let m = Selection::InZone(p_a, p_b, Zone::M);
    let r = Selection::InZone(p_a, p_b, Zone::R);
    lemma_count_split(d, s, Selection::All, Selection::Shifted(p_b), Selection::Unshifted(p_b));
    lemma_count_split(d, s, Selection::Shifted(p_b), l, m);
    lemma_count_split_eq(d, s, Selection::Unshifted(p_b), r);
    lemma_count_split(d, s, Selection::AtLeast(p_a), m, r);
}

/// Coefficient of `t^s` in the swap polynomial after inserting the maximum at
/// `p_b`: unshifted entries keep their value, shifted ones gain one.
pub open spec fn inserted_count(d: Seq<(usize, u8)>, p_b: u8, s: int) -> int {
    (count_where(d, s, Selection::Unshifted(p_b)) + count_where(d, s - 1, Selection::Shifted(p_b))) as int
}

/// `L^(p_b) = Fb + (t - 1) Tb`: the polynomial after insertion at `p_b` is the
/// full source polynomial plus `(t - 1)` times its shifted part, coefficientwise.
pub proof fn lemma_insertion_is_full_plus_shifted_step(d: Seq<(usize, u8)>, p_b: u8, s: int)
    ensures
        inserted_count(d, p_b, s) == count_where(d, s, Selection::All) + count_where(d, s - 1, Selection::Shifted(p_b))
            - count_where(d, s, Selection::Shifted(p_b)),
{
    lemma_full_is_shifted_plus_unshifted(d, p_b, s);
}

pub proof fn lemma_count_split_eq(d: Seq<(usize, u8)>, s: int, a: Selection, b: Selection)
    requires
        forall|q: u8| selects(a, q) <==> selects(b, q),
    ensures
        count_where(d, s, a) == count_where(d, s, b),
    decreases d.len(),
{
    if d.len() > 0 {
        lemma_count_split_eq(d.drop_last(), s, a, b);
    }
}

/// Indices listed under `key` in a table of (descent set, indices) groups;
/// the first group with that key counts, and a missing key gives no indices.
pub open spec fn group_entries(groups: Seq<(u64, Vec<usize>)>, key: u64) -> Seq<usize>
    decreases groups.len(),
{
    if groups.len() == 0 {
        Seq::empty()
    } else if groups[0].0 == key {
        groups[0].1@
    } else {
        group_entries(groups.drop_first(), key)
    }
}

/// Entry contributed by one source permutation: its swaps value, plus one
/// when the maximum is inserted after an ascent that breaks a consecutive
/// pair, and the (1-indexed, byte-sized) position `q` of `n - 1`.
pub open spec fn source_entry(perm: Seq<u8>, sw: usize, p: u8, n: u8, ascent: bool) -> (usize, u8) {
    let i = choose|i: int| #[trigger] first_index(perm, (n - 1) as u8, i);
    (
        (sw + if ascent && breaks_consecutive_pair(perm, p as int) {
            1int
        } else {
            0int
        }) as usize,
        ((i % 256) + 1) as u8,
    )
}

/// What each entry of a source distribution records. The entry of the source
/// `pi = perms[idx[k]]` (a permutation of `[n - 1]`, holding `n - 1` first at
/// index `j`) is `(swaps + e, j + 1)`, where `e` is `1` exactly for a source of
/// `S'_p` (`ascent`) when the maximum goes strictly inside (`1 < p < n`, `p = n - 1`
/// included) between an ascending pair of consecutive values `pi(p-1), pi(p-1) + 1`,
/// and `0` otherwise; a source of `S''_p` keeps its swaps value.
pub proof fn lemma_source_entries(
    idx: Seq<usize>,
    perms: Seq<Vec<u8>>,
    swaps: Seq<usize>,
    p: u8,
    n: u8,
    ascent: bool,
    k: int,
    j: int,
)
    requires
        0 <= k < idx.len(),
        idx[k] < perms.len(),
        idx[k] < swaps.len(),
        perms[idx[k] as int].len() + 1 == n,
        swaps[idx[k] as int] < usize::MAX,
        0 <= j < perms[idx[k] as int].len(),
        perms[idx[k] as int]@[j] == n - 1,
        forall|l: int| 0 <= l < j ==> perms[idx[k] as int]@[l] != n - 1,
    ensures
        entries_of(idx, perms, swaps, p, n, ascent)[k].0 == swaps[idx[k] as int] + (if ascent && 1 < p && p < n
            && perms[idx[k] as int]@[p - 2] as int + 1 == perms[idx[k] as int]@[p - 1] as int {
            1int
        } else {
            0int
        }),
        entries_of(idx, perms, swaps, p, n, ascent)[k].1 == j + 1,
{
    let pi = perms[idx[k] as int]@;
    assert(first_index(pi, (n - 1) as u8, j));
    let c = choose|c: int| #[trigger] first_index(pi, (n - 1) as u8, c);
    assert(first_index(pi, (n - 1) as u8, c));
    lemma_first_index_unique(pi, (n - 1) as u8, c, j);
}

pub open spec fn entries_of(
    idx: Seq<usize>,
    perms: Seq<Vec<u8>>,
    swaps: Seq<usize>,
    p: u8,
    n: u8,
    ascent: bool,
) -> Seq<(usize, u8)> {
    Seq::new(idx.len(), |k: int| source_entry(perms[idx[k] as int]@, swaps[idx[k] as int], p, n, ascent))
}

/// A source permutation the distribution builder can process at position `p`:
/// it contains `n - 1` at a byte-sized position, its swaps value can be
/// incremented, and the consecutive-pair test is defined on it.
pub open spec fn source_ok(perm: Seq<u8>, sw: usize, p: u8, n: u8) -> bool {
    &&& n >= 1
    &&& exists|i: int| 0 <= i < perm.len() && perm[i] == (n - 1) as u8
    &&& forall|i: int| #[trigger] first_index(perm, (n - 1) as u8, i) ==> i % 256 != 255
    &&& sw < usize::MAX
    &&& perm.len() % 256 != 255
    &&& 1 < p < (perm.len() % 256) + 1 ==> perm[p - 2] < 255
}

/// Every index listed in the table names a permutation and a swaps value that
/// the builder can process.
pub open spec fn table_ok(
    groups: Seq<(u64, Vec<usize>)>,
    perms: Seq<Vec<u8>>,
    swaps: Seq<usize>,
    p: u8,
    n: u8,
) -> bool {
    forall|g: int, k: int|
        0 <= g < groups.len() && 0 <= k < groups[g].1.len() ==> {
            let idx = #[trigger] groups[g].1@[k];
            &&& idx < perms.len()
            &&& idx < swaps.len()
            &&& source_ok(perms[idx as int]@, swaps[idx as int], p, n)
        }
}

/// `ma` and `md` are the source descent sets `S'_p` and `S''_p` of `(s, p)` in `S_n`.
pub open spec fn are_source_sets(s: u64, p: u8, n: u8, ma: u64, md: Option<u64>) -> bool {
    &&& forall|pos: int| 1 <= pos <= 64 ==> (in_set(ma, pos) <==> asc_source_has(s, p as int, n as int, pos))
    &&& (p <= 1 || p >= n) <==> md.is_none()
    &&& md.is_some() ==> forall|pos: int|
        1 <= pos <= 64 ==> (in_set(md.unwrap(), pos) <==> desc_source_has(s, p as int, n as int, pos))
}

pub proof fn lemma_group_entries_member(groups: Seq<(u64, Vec<usize>)>, key: u64)
    ensures
        group_entries(groups, key).len() > 0 ==> exists|g: int|
            0 <= g < groups.len() && groups[g].1@ == group_entries(groups, key),
    decreases groups.len(),
{
    if groups.len() > 0 && groups[0].0 != key {
        lemma_group_entries_member(groups.drop_first(), key);
        if group_entries(groups, key).len() > 0 {
            let g = choose|g: int|
                0 <= g < groups.drop_first().len() && groups.drop_first()[g].1@ == group_entries(
                    groups.drop_first(),
                    key,
                );
            assert(groups[g + 1] == groups.drop_first()[g]);
        }
    }
}

fn find_group(groups: &[(u64, Vec<usize>)], key: u64) -> (r: Option<usize>)
    ensures
        match r {
            Some(g) => g < groups.len() && groups@[g as int].1@ == group_entries(groups@, key),
            None => group_entries(groups@, key) == Seq::<usize>::empty(),
        },
{
    let mut g: usize = 0;
    assert(groups@.skip(0) =~= groups@);
    while g < groups.len()
        invariant
            g <= groups.len(),
            group_entries(groups@, key) == group_entries(groups@.skip(g as int), key),
        decreases groups.len() - g,
    {
        assert(groups@.skip(g as int).drop_first() =~= groups@.skip(g + 1));
        if groups[g].0 == key {
            assert(groups@.skip(g as int)[0] == groups@[g as int]);
            return Some(g);
        }
        g += 1;
    }
    assert(groups@.skip(g as int).len() == 0);
    None
}

proof fn lemma_first_index_unique(s: Seq<u8>, v: u8, i: int, j: int)
    requires
        first_index(s, v, i),
        first_index(s, v, j),
    ensures
        i == j,
{
    if i < j {
        assert(s[i] != v);
    }
    if j < i {
        assert(s[j] != v);
    }
}

fn push_entries(
    dist: &mut Vec<(usize, u8)>,
    idx: &Vec<usize>,
    perms: &[Vec<u8>],
    swaps: &[usize],
    p: u8,
    n: u8,
    ascent: bool,
)
    requires
        forall|k: int|
            0 <= k < idx.len() ==> {
                let i = #[trigger] idx@[k];
                &&& i < perms.len()
                &&& i < swaps.len()
                &&& source_ok(perms@[i as int]@, swaps@[i as int], p, n)
            },
    ensures
        final(dist)@ == old(dist)@ + entries_of(idx@, perms@, swaps@, p, n, ascent),
{
    let ghost start = dist@;
    for k in 0..idx.len()
        invariant
            forall|k: int|
                0 <= k < idx.len() ==> {
                    let i = #[trigger] idx@[k];
                    &&& i < perms.len()
                    &&& i < swaps.len()
                    &&& source_ok(perms@[i as int]@, swaps@[i as int], p, n)
                },
            dist@ == start + entries_of(idx@, perms@, swaps@, p, n, ascent).take(k as int),
    {
        let i = idx[k];
        assert(source_ok(perms@[i as int]@, swaps@[i as int], p, n));
        let pi = &perms[i];
        let q = crate::insertion::pos_of(pi.as_slice(), n - 1);
        let extra: usize = if ascent && epsilon1(pi.as_slice(), p) {
            1
        } else {
            0
        };
        let sw = swaps[i] + extra;
        proof {
            let e = source_entry(perms@[i as int]@, swaps@[i as int], p, n, ascent);
            let c = choose|c: int| #[trigger] first_index(perms@[i as int]@, (n - 1) as u8, c);
            let w = choose|w: int| #[trigger] first_index(pi@, (n - 1) as u8, w) && q == (w % 256) + 1;
            let v = choose|v: int| 0 <= v < pi@.len() && pi@[v] == (n - 1) as u8;
            assert(exists|c: int| #[trigger] first_index(perms@[i as int]@, (n - 1) as u8, c)) by {
                assert(first_index(pi@, (n - 1) as u8, w));
            }
            lemma_first_index_unique(pi@, (n - 1) as u8, c, w);
            assert(e == (sw, q));
            assert(entries_of(idx@, perms@, swaps@, p, n, ascent).take(k + 1) =~= entries_of(
                idx@,
                perms@,
                swaps@,
                p,
                n,
                ascent,
            ).take(k as int).push(e));
        }
        dist.push((sw, q));
    }
    assert(entries_of(idx@, perms@, swaps@, p, n, ascent).take(idx.len() as int) =~= entries_of(
        idx@,
        perms@,
        swaps@,
        p,
        n,
        ascent,
    ));
}

/// `d` is the source distribution of `(s, p)` in `S_n` for the given table.
pub open spec fn is_source_dist(
    s: u64,
    p: u8,
    n: u8,
    groups: Seq<(u64, Vec<usize>)>,
    perms: Seq<Vec<u8>>,
    swaps: Seq<usize>,
    d: Seq<(usize, u8)>,
) -> bool {
    exists|ma: u64, md: Option<u64>|
        are_source_sets(s, p, n, ma, md) && d == entries_of(group_entries(groups, ma), perms, swaps, p, n, true)
            + match md {
            Some(m) => entries_of(group_entries(groups, m), perms, swaps, p, n, false),
            None => Seq::empty(),
        }
}

/// Source distribution for target set `s_mask`, insertion position `p` in
/// `S_n`: one `(modified swaps, q)` pair per source permutation, first those
/// of `S'_p` (with the consecutive-pair correction), then those of `S''_p`.
/// `groups` lists the permutations of `[n-1]` by descent set, as indices into
/// `perms`, and `swaps[i]` is the swaps value of `perms[i]`.
pub fn build_source_dist(
    s_mask: u64,
    p: u8,
    n: u8,
    groups: &[(u64, Vec<usize>)],
    perms: &[Vec<u8>],
    swaps: &[usize],
) -> (dist: Vec<(usize, u8)>)
    requires
        n <= 2 || (1 <= p <= 66 && n <= 65),
        table_ok(groups@, perms@, swaps@, p, n),
    ensures
        is_source_dist(s_mask, p, n, groups@, perms@, swaps@, dist@),
{
    let sp_asc = source_asc(s_mask, p, n);
    let sp_desc = source_desc(s_mask, p, n);
    let mut dist: Vec<(usize, u8)> = Vec::new();
    match find_group(groups, sp_asc) {
        Some(g) => {
            proof {
                assert forall|k: int| 0 <= k < groups@[g as int].1.len() implies {
                    let i = #[trigger] groups@[g as int].1@[k];
                    &&& i < perms.len()
                    &&& i < swaps.len()
                    &&& source_ok(perms@[i as int]@, swaps@[i as int], p, n)
                } by {
                    let i = groups@[g as int].1@[k];
                }
            }
            push_entries(&mut dist, &groups[g].1, perms, swaps, p, n, true);
        },
        None => {
            assert(dist@ =~= entries_of(group_entries(groups@, sp_asc), perms@, swaps@, p, n, true));
        },
    }
    let ghost first = dist@;
    match sp_desc {
        Some(sp) => {
            match find_group(groups, sp) {
                Some(g) => {
                    push_entries(&mut dist, &groups[g].1, perms, swaps, p, n, false);
                },
                None => {
                    assert(dist@ =~= first + entries_of(group_entries(groups@, sp), perms@, swaps@, p, n, false));
                },
            }
        },
        None => {
            assert(dist@ =~= first + Seq::empty());
        },
    }
    assert(are_source_sets(s_mask, p, n, sp_asc, sp_desc));
    dist
}

/// The listed groups are small enough for counts to fit in an `i64`, and every
/// swaps value leaves room for the consecutive-pair correction and one more.
pub open spec fn table_small(groups: Seq<(u64, Vec<usize>)>, swaps: Seq<usize>) -> bool {
    &&& forall|g: int| 0 <= g < groups.len() ==> (#[trigger] groups[g]).1.len() <= 0x1000_0000_0000_0000
    &&& forall|g: int, k: int|
        0 <= g < groups.len() && 0 <= k < groups[g].1.len() && #[trigger] groups[g].1@[k] < swaps.len()
            ==> swaps[groups[g].1@[k] as int] < usize::MAX - 1
}

proof fn lemma_group_entries_bounds(
    groups: Seq<(u64, Vec<usize>)>,
    perms: Seq<Vec<u8>>,
    swaps: Seq<usize>,
    p: u8,
    n: u8,
    key: u64,
)
    requires
        table_ok(groups, perms, swaps, p, n),
        table_small(groups, swaps),
    ensures
        group_entries(groups, key).len() <= 0x1000_0000_0000_0000,
        forall|k: int|
            0 <= k < group_entries(groups, key).len() ==> swaps[#[trigger] group_entries(groups, key)[k] as int]
                < usize::MAX - 1,
{
    lemma_group_entries_member(groups, key);
    if group_entries(groups, key).len() > 0 {
        let g = choose|g: int| 0 <= g < groups.len() && groups[g].1@ == group_entries(groups, key);
        assert forall|k: int| 0 <= k < group_entries(groups, key).len() implies swaps[#[trigger] group_entries(groups, key)[k] as int]
            < usize::MAX - 1 by {
            assert(groups[g].1@[k] == group_entries(groups, key)[k]);
        }
    }
}

/// Source chain of `(s, p)`: the distinct positions `q` of `n - 1` among the
/// sources, in increasing order, and for each the generating polynomial of
/// the modified swaps values of the sources with that `q`.
pub fn build_source_chain(
    s_mask: u64,
    p: u8,
    n: u8,
    groups: &[(u64, Vec<usize>)],
    perms: &[Vec<u8>],
    swaps: &[usize],
) -> (r: (Vec<u8>, Vec<Vec<i64>>))
    requires
        n <= 2 || (1 <= p <= 66 && n <= 65),
        table_ok(groups@, perms@, swaps@, p, n),
        table_small(groups@, swaps@),
    ensures
        exists|d: Seq<(usize, u8)>|
            is_source_dist(s_mask, p, n, groups@, perms@, swaps@, d) && {
                let (qs, polys) = r;
                &&& qs.len() == polys.len()
                &&& forall|i: int, j: int| 0 <= i < j < qs.len() ==> qs@[i] < qs@[j]
                &&& forall|q: u8| qs@.contains(q) <==> exists|i: int| 0 <= i < d.len() && (#[trigger] d[i]).1 == q
                &&& forall|i: int|
                    0 <= i < polys.len() ==> is_trimmed(#[trigger] polys@[i]@) && polys@[i]@.len() >= 1
                &&& forall|i: int, k: int|
                    0 <= i < polys.len() && 0 <= k ==> #[trigger] coef(polys@[i]@, k) == count_where(
                        d,
                        k,
                        Selection::AtQ(qs@[i]),
                    )
            },
{
    let dist = build_source_dist(s_mask, p, n, groups, perms, swaps);
    proof {
        let (ma, md) = choose|ma: u64, md: Option<u64>|
            are_source_sets(s_mask, p, n, ma, md) && dist@ == entries_of(group_entries(groups@, ma), perms@, swaps@, p, n, true)
                + match md {
                Some(m) => entries_of(group_entries(groups@, m), perms@, swaps@, p, n, false),
                None => Seq::empty(),
            };
        lemma_group_entries_bounds(groups@, perms@, swaps@, p, n, ma);
        let ea = entries_of(group_entries(groups@, ma), perms@, swaps@, p, n, true);
        let ga = group_entries(groups@, ma);
        assert forall|k: int| 0 <= k < ea.len() implies (#[trigger] ea[k]).0 < usize::MAX by {
            assert(swaps@[ga[k] as int] < usize::MAX - 1);
        }
        match md {
            Some(m) => {
                lemma_group_entries_bounds(groups@, perms@, swaps@, p, n, m);
                let gd = group_entries(groups@, m);
                let ed = entries_of(gd, perms@, swaps@, p, n, false);
                assert forall|k: int| 0 <= k < ed.len() implies (#[trigger] ed[k]).0 < usize::MAX by {
                    assert(swaps@[gd[k] as int] < usize::MAX - 1);
                }
                assert forall|i: int| 0 <= i < dist.len() implies (#[trigger] dist@[i]).0 < usize::MAX by {
                    if i < ea.len() {
                        assert(dist@[i] == ea[i]);
                    } else {
                        assert(dist@[i] == ed[i - ea.len()]);
                    }
                }
            },
            None => {
                assert forall|i: int| 0 <= i < dist.len() implies (#[trigger] dist@[i]).0 < usize::MAX by {
                    assert(dist@[i] == ea[i]);
                }
            },
        }
        assert(dist_ok(dist@));
    }
    let mut qs: Vec<u8> = Vec::new();
    let mut polys: Vec<Vec<i64>> = Vec::new();
    let mut q: u16 = 0;
    while q < 256
        invariant
            q <= 256,
            dist_ok(dist@),
            qs.len() == polys.len(),
            forall|i: int| 0 <= i < qs.len() ==> (#[trigger] qs@[i]) < q,
            forall|i: int, j: int| 0 <= i < j < qs.len() ==> qs@[i] < qs@[j],
            forall|v: u8| (v < q) ==> (qs@.contains(v) <==> exists|i: int| 0 <= i < dist.len() && (#[trigger] dist@[i]).1 == v),
            forall|v: u8| (v >= q) ==> !qs@.contains(v),
            forall|i: int|
                0 <= i < polys.len() ==> is_trimmed(#[trigger] polys@[i]@) && polys@[i]@.len() >= 1,
            forall|i: int, k: int|
                0 <= i < polys.len() && 0 <= k ==> #[trigger] coef(polys@[i]@, k) == count_where(
                    dist@,
                    k,
                    Selection::AtQ(qs@[i]),
                ),
        decreases 256 - q,
    {
        let qb = q as u8;
        let mut found = false;
        let mut i: usize = 0;
        while i < dist.len()
            invariant
                i <= dist.len(),
                found <==> exists|j: int| 0 <= j < i && (#[trigger] dist@[j]).1 == qb,
            decreases dist.len() - i,
        {
            if dist[i].1 == qb {
                found = true;
            }
            i += 1;
        }
        if found {
            let poly = collect_poly(&dist, Selection::AtQ(qb));
            let ghost before = qs@;
            qs.push(qb);
            polys.push(poly);
            proof {
                assert forall|v: u8| (v < q + 1) implies (qs@.contains(v) <==> exists|i: int| 0 <= i < dist.len() && (#[trigger] dist@[i]).1 == v) by {
                    if v < q {
                        if before.contains(v) {
                            let k = choose|k: int| 0 <= k < before.len() && before[k] == v;
                            assert(qs@[k] == v);
                        }
                        if qs@.contains(v) {
                            let k = choose|k: int| 0 <= k < qs.len() && qs@[k] == v;
                            if k < before.len() {
                                assert(before[k] == v);
                            }
                        }
                    } else {
                        assert(qs@[qs.len() - 1] == v);
                    }
                }
                assert forall|v: u8| (v >= q + 1) implies !qs@.contains(v) by {
                    if qs@.contains(v) {
                        let k = choose|k: int| 0 <= k < qs.len() && qs@[k] == v;
                        if k < before.len() {
                            assert(before.contains(v));
                        }
                    }
                }
            }
        } else {
            proof {
                assert forall|v: u8| (v < q + 1) implies (qs@.contains(v) <==> exists|i: int| 0 <= i < dist.len() && (#[trigger] dist@[i]).1 == v) by {
                    if v == q {
                        assert(!qs@.contains(v));
                    }
                }
            }
        }
        q += 1;
    }
    (qs, polys)
}

} // verus!
