//! The 2x2 minors of consecutive position polynomials split by zone pairs.
//! For consecutive valid positions `p_a < p_b` with source distributions `d_a`
//! and `d_b`, the minor
//! `Delta(k1, k2) = [t^k1] L^(p_a) [t^k2] L^(p_b) - [t^k2] L^(p_a) [t^k1] L^(p_b)`
//! is the sum over the nine zone pairs `(Z_a, Z_b)` of
//! `A_Z_a(k1 - e_a) B_Z_b(k2 - e_b) - A_Z_a(k2 - e_a) B_Z_b(k1 - e_b)`,
//! where `A_Z`, `B_Z` count the source entries of `d_a`, `d_b` in zone `Z`
//! and the shifts are `e_a = 1` on zone `L` only and `e_b = 1` off zone `R`.
use vstd::prelude::*;
use crate::poly::coef;
use crate::source::{
    Zone, Selection, count_where, inserted_count, dist_ok, build_zone_raw, build_tb, build_rb, lemma_count_where_le,
    lemma_count_split, lemma_count_split_eq, lemma_zone_decomposition,
};

verus! {

/// Entries of `d` with statistic `s` whose `q` lies in zone `z` of `(p_a, p_b)`.
pub open spec fn zone_count(d: Seq<(usize, u8)>, p_a: u8, p_b: u8, z: Zone, s: int) -> int {
    count_where(d, s, Selection::InZone(p_a, p_b, z)) as int
}

/// `epsilon_2(p_a, q)` on zone `z`: one on `L` only.
pub open spec fn shift_a(z: Zone) -> int {
    if z == Zone::L {
        1
    } else {
        0
    }
}

/// `epsilon_2(p_b, q)` on zone `z`: one on `L` and `M`.
pub open spec fn shift_b(z: Zone) -> int {
    if z == Zone::R {
        0
    } else {
        1
    }
}

/// Contribution of the zone pair `(za, zb)` to the minor at columns `(k1, k2)`.
pub open spec fn zone_pair_term(
    da: Seq<(usize, u8)>,
    db: Seq<(usize, u8)>,
    p_a: u8,
    p_b: u8,
    za: Zone,
    zb: Zone,
    k1: int,
    k2: int,
) -> int {
    zone_count(da, p_a, p_b, za, k1 - shift_a(za)) * zone_count(db, p_a, p_b, zb, k2 - shift_b(zb)) - zone_count(
        da,
        p_a,
        p_b,
        za,
        k2 - shift_a(za),
    ) * zone_count(db, p_a, p_b, zb, k1 - shift_b(zb))
}

/// The zones in the order `L, M, R`.
pub open spec fn zone_at(i: int) -> Zone {
    if i == 0 {
        Zone::L
    } else if i == 1 {
        Zone::M
    } else {
        Zone::R
    }
}

/// The 2x2 minor of `L^(p_a)` (from `da`) and `L^(p_b)` (from `db`) at columns `(k1, k2)`.
pub open spec fn position_minor(da: Seq<(usize, u8)>, db: Seq<(usize, u8)>, p_a: u8, p_b: u8, k1: int, k2: int) -> int {
    inserted_count(da, p_a, k1) * inserted_count(db, p_b, k2) - inserted_count(da, p_a, k2) * inserted_count(db, p_b, k1)
}

/// Coefficient of `t^s` of `L^(p_a)` by zones: `A_L(s - 1) + A_M(s) + A_R(s)`.
proof fn lemma_inserted_a(d: Seq<(usize, u8)>, p_a: u8, p_b: u8, s: int)
    requires
        p_a < p_b,
    ensures
        inserted_count(d, p_a, s) == zone_count(d, p_a, p_b, Zone::L, s - 1) + zone_count(d, p_a, p_b, Zone::M, s)
            + zone_count(d, p_a, p_b, Zone::R, s),
{
    let l = Selection::InZone(p_a, p_b, Zone::L);
    let m = Selection::InZone(p_a, p_b, Zone::M);
    let r = Selection::InZone(p_a, p_b, Zone::R);
    lemma_count_split_eq(d, s - 1, Selection::Shifted(p_a), l);
    lemma_count_split(d, s, Selection::Unshifted(p_a), m, r);
}

/// Coefficient of `t^s` of `L^(p_b)` by zones: `B_L(s - 1) + B_M(s - 1) + B_R(s)`.
proof fn lemma_inserted_b(d: Seq<(usize, u8)>, p_a: u8, p_b: u8, s: int)
    requires
        p_a < p_b,
    ensures
        inserted_count(d, p_b, s) == zone_count(d, p_a, p_b, Zone::L, s - 1) + zone_count(d, p_a, p_b, Zone::M, s - 1)
            + zone_count(d, p_a, p_b, Zone::R, s),
{
    lemma_zone_decomposition(d, p_a, p_b, s);
    lemma_zone_decomposition(d, p_a, p_b, s - 1);
}

proof fn lemma_bilinear(
    a1: int, a2: int, a3: int, c1: int, c2: int, c3: int,
    b1: int, b2: int, b3: int, d1: int, d2: int, d3: int,
)
    ensures
        (a1 + a2 + a3) * (b1 + b2 + b3) - (c1 + c2 + c3) * (d1 + d2 + d3)
            == (a1 * b1 - c1 * d1) + (a1 * b2 - c1 * d2) + (a1 * b3 - c1 * d3)
            + (a2 * b1 - c2 * d1) + (a2 * b2 - c2 * d2) + (a2 * b3 - c2 * d3)
            + (a3 * b1 - c3 * d1) + (a3 * b2 - c3 * d2) + (a3 * b3 - c3 * d3),
{
    assert((a1 + a2 + a3) * (b1 + b2 + b3) == a1 * b1 + a1 * b2 + a1 * b3 + a2 * b1 + a2 * b2 + a2 * b3 + a3 * b1 + a3
        * b2 + a3 * b3) by (nonlinear_arith);
    assert((c1 + c2 + c3) * (d1 + d2 + d3) == c1 * d1 + c1 * d2 + c1 * d3 + c2 * d1 + c2 * d2 + c2 * d3 + c3 * d1 + c3
        * d2 + c3 * d3) by (nonlinear_arith);
}

/// The minor of consecutive position polynomials is the sum of its nine
/// zone-pair contributions: for `p_a < p_b` and all columns `k1, k2`,
/// `Delta(k1, k2) = sum_{Z_a, Z_b in {L, M, R}} term(Z_a, Z_b)`.
pub proof fn lemma_minor_splits_into_zone_pairs(
    da: Seq<(usize, u8)>,
    db: Seq<(usize, u8)>,
    p_a: u8,
    p_b: u8,
    k1: int,
    k2: int,
)
    requires
        p_a < p_b,
    ensures
        position_minor(da, db, p_a, p_b, k1, k2) == zone_pair_term(da, db, p_a, p_b, Zone::L, Zone::L, k1, k2)
            + zone_pair_term(da, db, p_a, p_b, Zone::L, Zone::M, k1, k2) + zone_pair_term(da, db, p_a, p_b, Zone::L, Zone::R, k1, k2)
            + zone_pair_term(da, db, p_a, p_b, Zone::M, Zone::L, k1, k2) + zone_pair_term(da, db, p_a, p_b, Zone::M, Zone::M, k1, k2)
            + zone_pair_term(da, db, p_a, p_b, Zone::M, Zone::R, k1, k2) + zone_pair_term(da, db, p_a, p_b, Zone::R, Zone::L, k1, k2)
            + zone_pair_term(da, db, p_a, p_b, Zone::R, Zone::M, k1, k2) + zone_pair_term(da, db, p_a, p_b, Zone::R, Zone::R, k1, k2),
{
    lemma_inserted_a(da, p_a, p_b, k1);
    lemma_inserted_a(da, p_a, p_b, k2);
    lemma_inserted_b(db, p_a, p_b, k1);
    lemma_inserted_b(db, p_a, p_b, k2);
    lemma_bilinear(
        zone_count(da, p_a, p_b, Zone::L, k1 - 1),
        zone_count(da, p_a, p_b, Zone::M, k1),
        zone_count(da, p_a, p_b, Zone::R, k1),
        zone_count(da, p_a, p_b, Zone::L, k2 - 1),
        zone_count(da, p_a, p_b, Zone::M, k2),
        zone_count(da, p_a, p_b, Zone::R, k2),
        zone_count(db, p_a, p_b, Zone::L, k2 - 1),
        zone_count(db, p_a, p_b, Zone::M, k2 - 1),
        zone_count(db, p_a, p_b, Zone::R, k2),
        zone_count(db, p_a, p_b, Zone::L, k1 - 1),
        zone_count(db, p_a, p_b, Zone::M, k1 - 1),
        zone_count(db, p_a, p_b, Zone::R, k1),
    );
}

/// The column `q_b in M` of the zone pairs is a staircase minor of `L^(p_a)`
/// against the zone-`M` part of the second source:
/// `term(L,M) + term(M,M) + term(R,M) = A_k1 Mb(k2 - 1) - A_k2 Mb(k1 - 1)`,
/// with `A_k = [t^k] L^(p_a)` and `Mb(s)` the zone-`M` count of `db`.
pub proof fn lemma_column_m_is_staircase_minor(
    da: Seq<(usize, u8)>,
    db: Seq<(usize, u8)>,
    p_a: u8,
    p_b: u8,
    k1: int,
    k2: int,
)
    requires
        p_a < p_b,
    ensures
        zone_pair_term(da, db, p_a, p_b, Zone::L, Zone::M, k1, k2) + zone_pair_term(da, db, p_a, p_b, Zone::M, Zone::M, k1, k2)
            + zone_pair_term(da, db, p_a, p_b, Zone::R, Zone::M, k1, k2) == inserted_count(da, p_a, k1) * zone_count(
            db,
            p_a,
            p_b,
            Zone::M,
            k2 - 1,
        ) - inserted_count(da, p_a, k2) * zone_count(db, p_a, p_b, Zone::M, k1 - 1),
{
    lemma_inserted_a(da, p_a, p_b, k1);
    lemma_inserted_a(da, p_a, p_b, k2);
    let (x1, y1, z1) = (
        zone_count(da, p_a, p_b, Zone::L, k1 - 1),
        zone_count(da, p_a, p_b, Zone::M, k1),
        zone_count(da, p_a, p_b, Zone::R, k1),
    );
    let (x2, y2, z2) = (
        zone_count(da, p_a, p_b, Zone::L, k2 - 1),
        zone_count(da, p_a, p_b, Zone::M, k2),
        zone_count(da, p_a, p_b, Zone::R, k2),
    );
    let (m1, m2) = (zone_count(db, p_a, p_b, Zone::M, k1 - 1), zone_count(db, p_a, p_b, Zone::M, k2 - 1));
    assert((x1 + y1 + z1) * m2 - (x2 + y2 + z2) * m1 == (x1 * m2 - x2 * m1) + (y1 * m2 - y2 * m1) + (z1 * m2 - z2
        * m1)) by (nonlinear_arith);
}

/// The row `q_a in M` of the zone pairs is a 2x2 minor of the zone-`M` part of
/// the first source against `L^(p_b)`:
/// `term(M,L) + term(M,M) + term(M,R) = Ma(k1) B_k2 - Ma(k2) B_k1`,
/// with `B_k = [t^k] L^(p_b)` and `Ma(s)` the zone-`M` count of `da`.
pub proof fn lemma_row_m_is_minor(
    da: Seq<(usize, u8)>,
    db: Seq<(usize, u8)>,
    p_a: u8,
    p_b: u8,
    k1: int,
    k2: int,
)
    requires
        p_a < p_b,
    ensures
        zone_pair_term(da, db, p_a, p_b, Zone::M, Zone::L, k1, k2) + zone_pair_term(da, db, p_a, p_b, Zone::M, Zone::M, k1, k2)
            + zone_pair_term(da, db, p_a, p_b, Zone::M, Zone::R, k1, k2) == zone_count(da, p_a, p_b, Zone::M, k1)
            * inserted_count(db, p_b, k2) - zone_count(da, p_a, p_b, Zone::M, k2) * inserted_count(db, p_b, k1),
{
    lemma_inserted_b(db, p_a, p_b, k1);
    lemma_inserted_b(db, p_a, p_b, k2);
    let (x1, y1, z1) = (
        zone_count(db, p_a, p_b, Zone::L, k1 - 1),
        zone_count(db, p_a, p_b, Zone::M, k1 - 1),
        zone_count(db, p_a, p_b, Zone::R, k1),
    );
    let (x2, y2, z2) = (
        zone_count(db, p_a, p_b, Zone::L, k2 - 1),
        zone_count(db, p_a, p_b, Zone::M, k2 - 1),
        zone_count(db, p_a, p_b, Zone::R, k2),
    );
    let (m1, m2) = (zone_count(da, p_a, p_b, Zone::M, k1), zone_count(da, p_a, p_b, Zone::M, k2));
    assert(m1 * (x2 + y2 + z2) - m2 * (x1 + y1 + z1) == (m1 * x2 - m2 * x1) + (m1 * y2 - m2 * y1) + (m1 * z2 - m2
        * z1)) by (nonlinear_arith);
}

/// The two two-term splittings of the minor, for any positions `p_a`, `p_b`:
/// `Delta = [A_k1 Tb(k2-1) - A_k2 Tb(k1-1)] + [A_k1 Rb(k2) - A_k2 Rb(k1)]`
/// (staircase of `A` against the shifted part `Tb` of the second source, plus
/// standard minor against its unshifted part `Rb`), and
/// `Delta = [Sa(k1) B_k2 - Sa(k2) B_k1] + [La(k1-1) B_k2 - La(k2-1) B_k1]`
/// (the unshifted part `Sa` and the shifted part `La` of the first source against `B`).
pub proof fn lemma_minor_two_term_splittings(
    da: Seq<(usize, u8)>,
    db: Seq<(usize, u8)>,
    p_a: u8,
    p_b: u8,
    k1: int,
    k2: int,
)
    ensures
        position_minor(da, db, p_a, p_b, k1, k2) == (inserted_count(da, p_a, k1) * count_where(db, k2 - 1, Selection::Shifted(p_b))
            - inserted_count(da, p_a, k2) * count_where(db, k1 - 1, Selection::Shifted(p_b))) + (inserted_count(da, p_a, k1)
            * count_where(db, k2, Selection::Unshifted(p_b)) - inserted_count(da, p_a, k2) * count_where(
            db,
            k1,
            Selection::Unshifted(p_b),
        )),
        position_minor(da, db, p_a, p_b, k1, k2) == (count_where(da, k1, Selection::Unshifted(p_a)) * inserted_count(db, p_b, k2)
            - count_where(da, k2, Selection::Unshifted(p_a)) * inserted_count(db, p_b, k1)) + (count_where(
            da,
            k1 - 1,
            Selection::Shifted(p_a),
        ) * inserted_count(db, p_b, k2) - count_where(da, k2 - 1, Selection::Shifted(p_a)) * inserted_count(db, p_b, k1)),
{
    let a1 = inserted_count(da, p_a, k1);
    let a2 = inserted_count(da, p_a, k2);
    let b1 = inserted_count(db, p_b, k1);
    let b2 = inserted_count(db, p_b, k2);
    let (tb1, tb2) = (count_where(db, k1 - 1, Selection::Shifted(p_b)) as int, count_where(db, k2 - 1, Selection::Shifted(p_b)) as int);
    let (rb1, rb2) = (count_where(db, k1, Selection::Unshifted(p_b)) as int, count_where(db, k2, Selection::Unshifted(p_b)) as int);
    let (sa1, sa2) = (count_where(da, k1, Selection::Unshifted(p_a)) as int, count_where(da, k2, Selection::Unshifted(p_a)) as int);
    let (la1, la2) = (count_where(da, k1 - 1, Selection::Shifted(p_a)) as int, count_where(da, k2 - 1, Selection::Shifted(p_a)) as int);
    assert(b1 == rb1 + tb1 && b2 == rb2 + tb2);
    assert(a1 == sa1 + la1 && a2 == sa2 + la2);
    assert(a1 * (tb2 + rb2) - a2 * (tb1 + rb1) == (a1 * tb2 - a2 * tb1) + (a1 * rb2 - a2 * rb1)) by (nonlinear_arith);
    assert((sa1 + la1) * b2 - (sa2 + la2) * b1 == (sa1 * b2 - sa2 * b1) + (la1 * b2 - la2 * b1)) by (nonlinear_arith);
}

/// Coefficient of `t^(k - e)` of `p` (zero when `k < e`).
fn shifted_coeff(p: &[i64], k: usize, e: usize) -> (c: i64)
    ensures
        c == coef(p@, k - e),
{
    if k >= e {
        crate::poly::coeff(p, k - e)
    } else {
        0
    }
}

/// `a(k1 - ea) b(k2 - eb) - a(k2 - ea) b(k1 - eb)` for count polynomials bounded by `la` and `lb`.
fn pair_term(a: &[i64], b: &[i64], ea: usize, eb: usize, k1: usize, k2: usize, la: Ghost<int>, lb: Ghost<int>) -> (r: i64)
    requires
        ea <= 1,
        eb <= 1,
        la@ * lb@ <= i64::MAX,
        forall|s: int| 0 <= #[trigger] coef(a@, s) <= la@,
        forall|s: int| 0 <= #[trigger] coef(b@, s) <= lb@,
    ensures
        r == coef(a@, k1 - ea) * coef(b@, k2 - eb) - coef(a@, k2 - ea) * coef(b@, k1 - eb),
{
    let a1 = shifted_coeff(a, k1, ea);
    let a2 = shifted_coeff(a, k2, ea);
    let b1 = shifted_coeff(b, k1, eb);
    let b2 = shifted_coeff(b, k2, eb);
    assert(0 <= a1 * b2 <= la@ * lb@) by (nonlinear_arith)
        requires
            0 <= a1 <= la@,
            0 <= b2 <= lb@,
    ;
    assert(0 <= a2 * b1 <= la@ * lb@) by (nonlinear_arith)
        requires
            0 <= a2 <= la@,
            0 <= b1 <= lb@,
    ;
    a1 * b2 - a2 * b1
}

/// The nine zone-pair contributions to the minor at columns `(k1, k2)`, in
/// the order `(L,L), (L,M), (L,R), (M,L), (M,M), (M,R), (R,L), (R,M), (R,R)`.
/// By [`lemma_minor_splits_into_zone_pairs`] they add up to the minor.
pub fn zone_pair_contributions(
    dist_a: &[(usize, u8)],
    dist_b: &[(usize, u8)],
    p_a: u8,
    p_b: u8,
    k1: usize,
    k2: usize,
) -> (c: Vec<i64>)
    requires
        dist_ok(dist_a@),
        dist_ok(dist_b@),
        dist_a.len() * dist_b.len() <= i64::MAX,
    ensures
        c.len() == 9,
        forall|i: int, j: int|
            0 <= i < 3 && 0 <= j < 3 ==> #[trigger] c@[3 * i + j] == zone_pair_term(
                dist_a@,
                dist_b@,
                p_a,
                p_b,
                zone_at(i),
                zone_at(j),
                k1 as int,
                k2 as int,
            ),
{
    let la: Ghost<int> = Ghost(dist_a.len() as int);
    let lb: Ghost<int> = Ghost(dist_b.len() as int);
    let a_l = build_zone_raw(dist_a, p_a, p_b, Zone::L);
    let a_m = build_zone_raw(dist_a, p_a, p_b, Zone::M);
    let a_r = build_zone_raw(dist_a, p_a, p_b, Zone::R);
    let b_l = build_zone_raw(dist_b, p_a, p_b, Zone::L);
    let b_m = build_zone_raw(dist_b, p_a, p_b, Zone::M);
    let b_r = build_zone_raw(dist_b, p_a, p_b, Zone::R);
    proof {
        assert forall|d: Seq<(usize, u8)>, z: Zone, s: int| s < 0 implies #[trigger] zone_count(d, p_a, p_b, z, s) == 0 by {
            crate::source::lemma_count_where_none(d, s, Selection::InZone(p_a, p_b, z));
        }
        assert forall|z: Zone, s: int| 0 <= #[trigger] zone_count(dist_a@, p_a, p_b, z, s) <= la@ by {
            lemma_count_where_le(dist_a@, s, Selection::InZone(p_a, p_b, z));
        }
        assert forall|z: Zone, s: int| 0 <= #[trigger] zone_count(dist_b@, p_a, p_b, z, s) <= lb@ by {
            lemma_count_where_le(dist_b@, s, Selection::InZone(p_a, p_b, z));
        }
        assert forall|s: int| 0 <= #[trigger] coef(a_l@, s) <= la@ by {
            assert(0 <= zone_count(dist_a@, p_a, p_b, Zone::L, s) <= la@);
            if s < 0 {
                assert(zone_count(dist_a@, p_a, p_b, Zone::L, s) == 0);
            }
        }
        assert forall|s: int| #[trigger] coef(a_l@, s) == zone_count(dist_a@, p_a, p_b, Zone::L, s) by {
            if s < 0 {
                assert(zone_count(dist_a@, p_a, p_b, Zone::L, s) == 0);
            }
        }
        assert forall|s: int| 0 <= #[trigger] coef(a_m@, s) <= la@ by {
            assert(0 <= zone_count(dist_a@, p_a, p_b, Zone::M, s) <= la@);
            if s < 0 {
                assert(zone_count(dist_a@, p_a, p_b, Zone::M, s) == 0);
            }
        }
        assert forall|s: int| #[trigger] coef(a_m@, s) == zone_count(dist_a@, p_a, p_b, Zone::M, s) by {
            if s < 0 {
                assert(zone_count(dist_a@, p_a, p_b, Zone::M, s) == 0);
            }
        }
        assert forall|s: int| 0 <= #[trigger] coef(a_r@, s) <= la@ by {
            assert(0 <= zone_count(dist_a@, p_a, p_b, Zone::R, s) <= la@);
            if s < 0 {
                assert(zone_count(dist_a@, p_a, p_b, Zone::R, s) == 0);
            }
        }
        assert forall|s: int| #[trigger] coef(a_r@, s) == zone_count(dist_a@, p_a, p_b, Zone::R, s) by {
            if s < 0 {
                assert(zone_count(dist_a@, p_a, p_b, Zone::R, s) == 0);
            }
        }
        assert forall|s: int| 0 <= #[trigger] coef(b_l@, s) <= lb@ by {
            assert(0 <= zone_count(dist_b@, p_a, p_b, Zone::L, s) <= lb@);
            if s < 0 {
                assert(zone_count(dist_b@, p_a, p_b, Zone::L, s) == 0);
            }
        }
        assert forall|s: int| #[trigger] coef(b_l@, s) == zone_count(dist_b@, p_a, p_b, Zone::L, s) by {
            if s < 0 {
                assert(zone_count(dist_b@, p_a, p_b, Zone::L, s) == 0);
            }
        }
        assert forall|s: int| 0 <= #[trigger] coef(b_m@, s) <= lb@ by {
            assert(0 <= zone_count(dist_b@, p_a, p_b, Zone::M, s) <= lb@);
            if s < 0 {
                assert(zone_count(dist_b@, p_a, p_b, Zone::M, s) == 0);
            }
        }
        assert forall|s: int| #[trigger] coef(b_m@, s) == zone_count(dist_b@, p_a, p_b, Zone::M, s) by {
            if s < 0 {
                assert(zone_count(dist_b@, p_a, p_b, Zone::M, s) == 0);
            }
        }
        assert forall|s: int| 0 <= #[trigger] coef(b_r@, s) <= lb@ by {
            assert(0 <= zone_count(dist_b@, p_a, p_b, Zone::R, s) <= lb@);
            if s < 0 {
                assert(zone_count(dist_b@, p_a, p_b, Zone::R, s) == 0);
            }
        }
        assert forall|s: int| #[trigger] coef(b_r@, s) == zone_count(dist_b@, p_a, p_b, Zone::R, s) by {
            if s < 0 {
                assert(zone_count(dist_b@, p_a, p_b, Zone::R, s) == 0);
            }
        }
    }
    let mut c: Vec<i64> = Vec::new();
    c.push(pair_term(&a_l, &b_l, 1, 1, k1, k2, la, lb));
    c.push(pair_term(&a_l, &b_m, 1, 1, k1, k2, la, lb));
    c.push(pair_term(&a_l, &b_r, 1, 0, k1, k2, la, lb));
    c.push(pair_term(&a_m, &b_l, 0, 1, k1, k2, la, lb));
    c.push(pair_term(&a_m, &b_m, 0, 1, k1, k2, la, lb));
    c.push(pair_term(&a_m, &b_r, 0, 0, k1, k2, la, lb));
    c.push(pair_term(&a_r, &b_l, 0, 1, k1, k2, la, lb));
    c.push(pair_term(&a_r, &b_m, 0, 1, k1, k2, la, lb));
    c.push(pair_term(&a_r, &b_r, 0, 0, k1, k2, la, lb));
    proof {
        assert forall|i: int, j: int| 0 <= i < 3 && 0 <= j < 3 implies #[trigger] c@[3 * i + j] == zone_pair_term(
            dist_a@,
            dist_b@,
            p_a,
            p_b,
            zone_at(i),
            zone_at(j),
            k1 as int,
            k2 as int,
        ) by {
            if i == 0 {
                if j == 0 {
                    assert(c@[0] == zone_pair_term(dist_a@, dist_b@, p_a, p_b, Zone::L, Zone::L, k1 as int, k2 as int));
                } else if j == 1 {
                    assert(c@[1] == zone_pair_term(dist_a@, dist_b@, p_a, p_b, Zone::L, Zone::M, k1 as int, k2 as int));
                } else {
                    assert(c@[2] == zone_pair_term(dist_a@, dist_b@, p_a, p_b, Zone::L, Zone::R, k1 as int, k2 as int));
                }
            } else if i == 1 {
                if j == 0 {
                    assert(c@[3] == zone_pair_term(dist_a@, dist_b@, p_a, p_b, Zone::M, Zone::L, k1 as int, k2 as int));
                } else if j == 1 {
                    assert(c@[4] == zone_pair_term(dist_a@, dist_b@, p_a, p_b, Zone::M, Zone::M, k1 as int, k2 as int));
                } else {
                    assert(c@[5] == zone_pair_term(dist_a@, dist_b@, p_a, p_b, Zone::M, Zone::R, k1 as int, k2 as int));
                }
            } else {
                if j == 0 {
                    assert(c@[6] == zone_pair_term(dist_a@, dist_b@, p_a, p_b, Zone::R, Zone::L, k1 as int, k2 as int));
                } else if j == 1 {
                    assert(c@[7] == zone_pair_term(dist_a@, dist_b@, p_a, p_b, Zone::R, Zone::M, k1 as int, k2 as int));
                } else {
                    assert(c@[8] == zone_pair_term(dist_a@, dist_b@, p_a, p_b, Zone::R, Zone::R, k1 as int, k2 as int));
                }
            }
        }
    }
    c
}


/// Entries with different statistic values are different entries.
proof fn lemma_two_counts_le(d: Seq<(usize, u8)>, s: int, t: int, a: Selection, b: Selection)
    requires
        s != t,
    ensures
        count_where(d, s, a) + count_where(d, t, b) <= d.len(),
    decreases d.len(),
{
    if d.len() > 0 {
        lemma_two_counts_le(d.drop_last(), s, t, a, b);
    }
}

/// Coefficient `k` of `L^(p)` rebuilt from its source distribution (`t Tb + Rb`).
fn inserted_coef(tb: &Vec<i64>, rb: &Vec<i64>, k: usize, Ghost(d): Ghost<Seq<(usize, u8)>>, Ghost(p): Ghost<u8>) -> (c: i64)
    requires
        d.len() <= i64::MAX,
        forall|s: int| 0 <= s ==> #[trigger] coef(tb@, s) == count_where(d, s, Selection::Shifted(p)),
        forall|s: int| 0 <= s ==> #[trigger] coef(rb@, s) == count_where(d, s, Selection::Unshifted(p)),
    ensures
        c == inserted_count(d, p, k as int),
        0 <= c <= d.len(),
{
    proof {
        lemma_two_counts_le(d, k as int, k - 1, Selection::Unshifted(p), Selection::Shifted(p));
        if k == 0 {
            crate::source::lemma_count_where_none(d, k - 1, Selection::Shifted(p));
        }
    }
    let r = crate::poly::coeff(rb, k);
    let t = if k >= 1 {
        crate::poly::coeff(tb, k - 1)
    } else {
        0
    };
    r + t
}

/// Sum of the nine zone-pair contributions.
pub open spec fn sum_nine(c: Seq<i64>) -> int {
    c[0] + c[1] + c[2] + c[3] + c[4] + c[5] + c[6] + c[7] + c[8]
}

/// A 2x2 minor of consecutive position polynomials with its nine zone-pair
/// contributions (index `3 i + j` for the zones `(i, j)`, in the order `L, M, R`).
#[derive(Debug, PartialEq, Eq)]
pub struct MinorRecord {
    pub minor: i64,
    pub diagonal: i64,
    pub contributions: Vec<i64>,
}

/// The minor of `L^(p_a)` and `L^(p_b)`, rebuilt from the source distributions
/// `dist_a` and `dist_b`, at columns `(k1, k2)`, with its diagonal product
/// `[t^k1] L^(p_a) [t^k2] L^(p_b)`, split into its zone-pair
/// contributions (which add up to it); `None` when both coefficients of
/// `L^(p_a)` at `k1, k2` are zero, or both of `L^(p_b)`.
pub fn minor_record(dist_a: &[(usize, u8)], dist_b: &[(usize, u8)], p_a: u8, p_b: u8, k1: usize, k2: usize) -> (r: Option<
    MinorRecord,
>)
    requires
        dist_ok(dist_a@),
        dist_ok(dist_b@),
        dist_a.len() * dist_b.len() <= i64::MAX,
        p_a < p_b,
    ensures
        r.is_none() <==> ((inserted_count(dist_a@, p_a, k1 as int) == 0 && inserted_count(dist_a@, p_a, k2 as int) == 0)
            || (inserted_count(dist_b@, p_b, k1 as int) == 0 && inserted_count(dist_b@, p_b, k2 as int) == 0)),
        r matches Some(m) ==> {
            &&& m.minor == position_minor(dist_a@, dist_b@, p_a, p_b, k1 as int, k2 as int)
            &&& m.diagonal == inserted_count(dist_a@, p_a, k1 as int) * inserted_count(dist_b@, p_b, k2 as int)
            &&& m.contributions.len() == 9
            &&& forall|i: int, j: int|
                0 <= i < 3 && 0 <= j < 3 ==> #[trigger] m.contributions@[3 * i + j] == zone_pair_term(
                    dist_a@,
                    dist_b@,
                    p_a,
                    p_b,
                    zone_at(i),
                    zone_at(j),
                    k1 as int,
                    k2 as int,
                )
            &&& sum_nine(m.contributions@) == m.minor
        },
{
    let tb_a = build_tb(dist_a, p_a);
    let rb_a = build_rb(dist_a, p_a);
    let tb_b = build_tb(dist_b, p_b);
    let rb_b = build_rb(dist_b, p_b);
    let a1 = inserted_coef(&tb_a, &rb_a, k1, Ghost(dist_a@), Ghost(p_a));
    let a2 = inserted_coef(&tb_a, &rb_a, k2, Ghost(dist_a@), Ghost(p_a));
    let b1 = inserted_coef(&tb_b, &rb_b, k1, Ghost(dist_b@), Ghost(p_b));
    let b2 = inserted_coef(&tb_b, &rb_b, k2, Ghost(dist_b@), Ghost(p_b));
    if (a1 == 0 && a2 == 0) || (b1 == 0 && b2 == 0) {
        return None;
    }
    let ghost la = dist_a.len() as int;
    let ghost lb = dist_b.len() as int;
    assert(0 <= a1 * b2 <= la * lb) by (nonlinear_arith)
        requires
            0 <= a1 <= la,
            0 <= b2 <= lb,
    ;
    assert(0 <= a2 * b1 <= la * lb) by (nonlinear_arith)
        requires
            0 <= a2 <= la,
            0 <= b1 <= lb,
    ;
    let minor = a1 * b2 - a2 * b1;
    let contributions = zone_pair_contributions(dist_a, dist_b, p_a, p_b, k1, k2);
    proof {
        lemma_minor_splits_into_zone_pairs(dist_a@, dist_b@, p_a, p_b, k1 as int, k2 as int);
        assert(contributions@[3 * 0int + 0int] == zone_pair_term(dist_a@, dist_b@, p_a, p_b, zone_at(0), zone_at(0), k1 as int, k2 as int));
        assert(contributions@[3 * 0int + 1int] == zone_pair_term(dist_a@, dist_b@, p_a, p_b, zone_at(0), zone_at(1), k1 as int, k2 as int));
        assert(contributions@[3 * 0int + 2int] == zone_pair_term(dist_a@, dist_b@, p_a, p_b, zone_at(0), zone_at(2), k1 as int, k2 as int));
        assert(contributions@[3 * 1int + 0int] == zone_pair_term(dist_a@, dist_b@, p_a, p_b, zone_at(1), zone_at(0), k1 as int, k2 as int));
        assert(contributions@[3 * 1int + 1int] == zone_pair_term(dist_a@, dist_b@, p_a, p_b, zone_at(1), zone_at(1), k1 as int, k2 as int));
        assert(contributions@[3 * 1int + 2int] == zone_pair_term(dist_a@, dist_b@, p_a, p_b, zone_at(1), zone_at(2), k1 as int, k2 as int));
        assert(contributions@[3 * 2int + 0int] == zone_pair_term(dist_a@, dist_b@, p_a, p_b, zone_at(2), zone_at(0), k1 as int, k2 as int));
        assert(contributions@[3 * 2int + 1int] == zone_pair_term(dist_a@, dist_b@, p_a, p_b, zone_at(2), zone_at(1), k1 as int, k2 as int));
        assert(contributions@[3 * 2int + 2int] == zone_pair_term(dist_a@, dist_b@, p_a, p_b, zone_at(2), zone_at(2), k1 as int, k2 as int));
    }
    Some(MinorRecord { minor, diagonal: a1 * b2, contributions })
}

/// Sign counts of the nine zone-pair contributions seen so far: for pair `z`,
/// how many were positive, zero and negative, and the smallest one (`0` before any
/// negative).
#[derive(Debug, PartialEq, Eq)]
pub struct SignTally {
    pub positive: Vec<u64>,
    pub zero: Vec<u64>,
    pub negative: Vec<u64>,
    pub worst: Vec<i64>,
}

impl SignTally {
    /// Nine pairs with nothing counted yet.
    pub fn new() -> (t: SignTally)
        ensures
            t.positive@ == seq![0u64; 9],
            t.zero@ == seq![0u64; 9],
            t.negative@ == seq![0u64; 9],
            t.worst@ == seq![0i64; 9],
    {
        SignTally { positive: vec![0u64; 9], zero: vec![0u64; 9], negative: vec![0u64; 9], worst: vec![0i64; 9] }
    }

    /// Counts each contribution under its sign and lowers `worst` to it where it is smaller.
    pub fn record(&mut self, contributions: &[i64])
        requires
            contributions.len() == 9,
            old(self).positive.len() == 9 && old(self).zero.len() == 9 && old(self).negative.len() == 9 && old(
                self,
            ).worst.len() == 9,
            forall|z: int|
                0 <= z < 9 ==> old(self).positive@[z] < u64::MAX && old(self).zero@[z] < u64::MAX && old(
                    self,
                ).negative@[z] < u64::MAX,
        ensures
            final(self).positive.len() == 9 && final(self).zero.len() == 9 && final(self).negative.len() == 9
                && final(self).worst.len() == 9,
            forall|z: int|
                0 <= z < 9 ==> {
                    let c = #[trigger] contributions@[z];
                    &&& final(self).positive@[z] == old(self).positive@[z] + if c > 0 { 1int } else { 0int }
                    &&& final(self).zero@[z] == old(self).zero@[z] + if c == 0 { 1int } else { 0int }
                    &&& final(self).negative@[z] == old(self).negative@[z] + if c < 0 { 1int } else { 0int }
                    &&& final(self).worst@[z] == if c < old(self).worst@[z] { c } else { old(self).worst@[z] }
                },
    {
        let mut z: usize = 0;
        while z < 9
            invariant
                z <= 9,
                contributions.len() == 9,
                self.positive.len() == 9 && self.zero.len() == 9 && self.negative.len() == 9 && self.worst.len() == 9,
                forall|y: int|
                    0 <= y < 9 ==> old(self).positive@[y] < u64::MAX && old(self).zero@[y] < u64::MAX && old(
                        self,
                    ).negative@[y] < u64::MAX,
                forall|y: int|
                    z <= y < 9 ==> self.positive@[y] == old(self).positive@[y] && self.zero@[y] == old(self).zero@[y]
                        && self.negative@[y] == old(self).negative@[y] && self.worst@[y] == old(self).worst@[y],
                forall|y: int|
                    0 <= y < z ==> {
                        let c = #[trigger] contributions@[y];
                        &&& self.positive@[y] == old(self).positive@[y] + if c > 0 { 1int } else { 0int }
                        &&& self.zero@[y] == old(self).zero@[y] + if c == 0 { 1int } else { 0int }
                        &&& self.negative@[y] == old(self).negative@[y] + if c < 0 { 1int } else { 0int }
                        &&& self.worst@[y] == if c < old(self).worst@[y] { c } else { old(self).worst@[y] }
                    },
            decreases 9 - z,
        {
            let c = contributions[z];
            if c > 0 {
                let v = self.positive[z] + 1;
                self.positive.set(z, v);
            } else if c == 0 {
                let v = self.zero[z] + 1;
                self.zero.set(z, v);
            } else {
                let v = self.negative[z] + 1;
                self.negative.set(z, v);
            }
            if c < self.worst[z] {
                self.worst.set(z, c);
            }
            z += 1;
        }
    }
}

/// Sums of groups of zone-pair contributions (indices `3 i + j` for zones
/// `(i, j)` in the order `L, M, R`).
#[derive(Debug, PartialEq, Eq)]
pub struct MinorGroups {
    /// `q_b` in `M`: `(L,M) + (M,M) + (R,M)`.
    pub column_m: i128,
    /// `q_a` in `M`: `(M,L) + (M,M) + (M,R)`.
    pub row_m: i128,
    /// Shift pattern `(0, 1)`: `(M,L) + (M,M) + (R,L) + (R,M)`.
    pub staircase: i128,
    /// Equal shifts: `(L,L) + (L,M) + (M,R) + (R,R)`.
    pub same_shift: i128,
    /// Shift pattern `(1, 0)`: `(L,R)`.
    pub reverse_staircase: i128,
    /// `q_b` in `L` or `M`.
    pub b_shifted: i128,
    /// `q_b` in `R`.
    pub b_unshifted: i128,
    /// `q_a` in `M` or `R`.
    pub a_unshifted: i128,
    /// `q_a` in `L`.
    pub a_shifted: i128,
}

/// The group sums of nine zone-pair contributions.
pub fn minor_groups(c: &[i64]) -> (g: MinorGroups)
    requires
        c.len() == 9,
    ensures
        g.column_m == c@[1] + c@[4] + c@[7],
        g.row_m == c@[3] + c@[4] + c@[5],
        g.staircase == c@[3] + c@[4] + c@[6] + c@[7],
        g.same_shift == c@[0] + c@[1] + c@[5] + c@[8],
        g.reverse_staircase == c@[2],
        g.b_shifted == c@[0] + c@[1] + c@[3] + c@[4] + c@[6] + c@[7],
        g.b_unshifted == c@[2] + c@[5] + c@[8],
        g.a_unshifted == c@[3] + c@[4] + c@[5] + c@[6] + c@[7] + c@[8],
        g.a_shifted == c@[0] + c@[1] + c@[2],
{
    let x0 = c[0] as i128;
    let x1 = c[1] as i128;
    let x2 = c[2] as i128;
    let x3 = c[3] as i128;
    let x4 = c[4] as i128;
    let x5 = c[5] as i128;
    let x6 = c[6] as i128;
    let x7 = c[7] as i128;
    let x8 = c[8] as i128;
    MinorGroups {
        column_m: x1 + x4 + x7,
        row_m: x3 + x4 + x5,
        staircase: x3 + x4 + x6 + x7,
        same_shift: x0 + x1 + x5 + x8,
        reverse_staircase: x2,
        b_shifted: x0 + x1 + x3 + x4 + x6 + x7,
        b_unshifted: x2 + x5 + x8,
        a_unshifted: x3 + x4 + x5 + x6 + x7 + x8,
        a_shifted: x0 + x1 + x2,
    }
}

/// A group sum dominates the rest of the minor: `group >= |minor - group|`.
pub fn dominates(group: i128, minor: i64) -> (b: bool)
    requires
        -0x1_0000_0000_0000_0000_0000 <= group <= 0x1_0000_0000_0000_0000_0000,
    ensures
        b == (group >= if minor - group >= 0 { minor - group } else { group - minor }),
{
    let rest = minor as i128 - group;
    let abs = if rest >= 0 {
        rest
    } else {
        -rest
    };
    group >= abs
}

/// Counts of positive, zero and negative values.
#[derive(Debug, Clone, Copy, PartialEq, Eq)]
pub struct SignCount {
    pub positive: u64,
    pub zero: u64,
    pub negative: u64,
}

impl SignCount {
    /// Nothing counted.
    pub fn new() -> (c: SignCount)
        ensures
            c.positive == 0 && c.zero == 0 && c.negative == 0,
    {
        SignCount { positive: 0, zero: 0, negative: 0 }
    }

    /// Counts `x` under its sign.
    pub fn add(&mut self, x: i128)
        requires
            old(self).positive < u64::MAX && old(self).zero < u64::MAX && old(self).negative < u64::MAX,
        ensures
            final(self).positive == old(self).positive + if x > 0 { 1int } else { 0int },
            final(self).zero == old(self).zero + if x == 0 { 1int } else { 0int },
            final(self).negative == old(self).negative + if x < 0 { 1int } else { 0int },
    {
        if x > 0 {
            self.positive = self.positive + 1;
        } else if x == 0 {
            self.zero = self.zero + 1;
        } else {
            self.negative = self.negative + 1;
        }
    }
}

} // verus!
