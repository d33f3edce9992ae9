//! Swap polynomials of source families refined by the position `q` of the
//! previous maximum `n - 1` and by the local shape of the run endpoint.
//! A family is given as its permutations of `[n-1]` with, for each, its
//! swap count and whether inserting `n` breaks the ascending pair at the
//! insertion boundary (`epsilon_1`); its modified swap count is their sum.
use vstd::prelude::*;
use crate::poly::{histogram, build_poly, coef, count_of, lemma_histogram_coef, lemma_count_push};
use crate::bivariate::{index_of, has_value, first_index_of};
use crate::endpoint::{
    Bin, EndpointPairPattern, bin_of, endpoint_inside, pair_pattern, classify_endpoint_relative_bin,
    endpoint_adjacent_values_are_consecutive, endpoint_adjacent_pair_contains_previous_max,
    endpoint_previous_max_is_on_left, classify_endpoint_pair_pattern,
};

verus! {

/// 1-indexed position (as a byte) of the previous maximum `n - 1` in `pi`.
pub open spec fn q_pos(pi: Seq<u8>, n: u8) -> int {
    (index_of(pi, (n - 1) as u8) % 256) + 1
}

/// Swap count plus `epsilon_1`.
pub open spec fn modified(swaps: usize, eps1: bool) -> int {
    swaps + if eps1 {
        1int
    } else {
        0int
    }
}

/// A family as parallel lists, each permutation holding `n - 1` at a first
/// index whose byte value is not 255.
pub open spec fn family_ok(perms: Seq<Vec<u8>>, swaps: Seq<usize>, eps1: Seq<bool>, n: u8) -> bool {
    &&& swaps.len() == perms.len()
    &&& eps1.len() == perms.len()
    &&& perms.len() <= i64::MAX
    &&& n >= 1
    &&& forall|k: int| 0 <= k < swaps.len() ==> #[trigger] swaps[k] < usize::MAX - 1
    &&& forall|k: int| 0 <= k < perms.len() ==> has_value(#[trigger] perms[k]@, (n - 1) as u8)
    &&& forall|k: int| 0 <= k < perms.len() ==> index_of(#[trigger] perms[k]@, (n - 1) as u8) % 256 != 255
}

/// Which permutations of the family are kept, beyond the bin of `q`.
pub enum EndpointFilter {
    /// No further condition.
    Everything,
    /// `epsilon_1` has the given value.
    Epsilon1(bool),
    /// The values around the endpoint `r` are (or are not) consecutive integers.
    Consecutive(bool),
    /// Consecutiveness as required, and the pair around `r` does (or does not) hold `n - 1`.
    Local(bool, bool),
    /// Consecutiveness as required, and `n - 1` sits on the given side of the pair around `r`
    /// (`true`: left); permutations without `n - 1` next to `r` are dropped.
    Side(bool, bool),
    /// The pair around `r` has the given pattern; permutations whose endpoint has no
    /// right neighbour are dropped.
    Pattern(EndpointPairPattern),
}

/// The values around the endpoint differ by one.
pub open spec fn consecutive_at(pi: Seq<u8>, r: u8) -> bool {
    endpoint_inside(pi, r as int) && {
        let l = pi[r - 1] as int;
        let x = pi[r as int] as int;
        l - x == 1 || x - l == 1
    }
}

/// The pair around the endpoint holds `n - 1`.
pub open spec fn holds_previous_max_at(pi: Seq<u8>, r: u8, n: u8) -> bool {
    endpoint_inside(pi, r as int) && (pi[r - 1] == n - 1 || pi[r as int] == n - 1)
}

/// `filter` keeps `pi` (with `epsilon_1 = e`).
pub open spec fn filter_keeps(filter: EndpointFilter, pi: Seq<u8>, e: bool, r: u8, n: u8) -> bool {
    match filter {
        EndpointFilter::Everything => true,
        EndpointFilter::Epsilon1(want) => e == want,
        EndpointFilter::Consecutive(want) => consecutive_at(pi, r) == want,
        EndpointFilter::Local(want_c, want_m) => consecutive_at(pi, r) == want_c && holds_previous_max_at(pi, r, n) == want_m,
        EndpointFilter::Side(want_c, left) => consecutive_at(pi, r) == want_c && endpoint_inside(pi, r as int) && (if left {
            pi[r - 1] == n - 1
        } else {
            pi[r - 1] != n - 1 && pi[r as int] == n - 1
        }),
        EndpointFilter::Pattern(want) => endpoint_inside(pi, r as int) && pair_pattern(
            pi[r - 1] as int,
            pi[r as int] as int,
            n as int,
        ) == want,
    }
}

/// The pattern classification of the pair around `r` stays within `u8`.
pub open spec fn pattern_ok(pi: Seq<u8>, r: u8, n: u8) -> bool {
    endpoint_inside(pi, r as int) ==> {
        let l = pi[r - 1];
        let x = pi[r as int];
        &&& n >= 2
        &&& (l == n - 1 || x == n - 1 || (l < 255 && (l + 1 == x || x < 255)))
    }
}

/// Modified swap counts of the first `m` permutations kept by `filter` whose `q` falls in `bin`.
pub open spec fn bin_values(
    perms: Seq<Vec<u8>>,
    swaps: Seq<usize>,
    eps1: Seq<bool>,
    p_a: u8,
    p_b: u8,
    r: u8,
    bin: Bin,
    filter: EndpointFilter,
    n: u8,
    m: int,
) -> Seq<usize>
    decreases m,
{
    if m <= 0 {
        Seq::empty()
    } else {
        let prev = bin_values(perms, swaps, eps1, p_a, p_b, r, bin, filter, n, m - 1);
        let pi = perms[m - 1]@;
        if filter_keeps(filter, pi, eps1[m - 1], r, n) && bin_of(q_pos(pi, n), p_a as int, p_b as int, r as int) == bin {
            prev.push(modified(swaps[m - 1], eps1[m - 1]) as usize)
        } else {
            prev
        }
    }
}

/// Swap polynomial of a list of values (`[0]` when empty).
pub open spec fn poly_of(vals: Seq<usize>) -> Seq<i64> {
    if vals.len() == 0 {
        seq![0i64]
    } else {
        histogram(vals)
    }
}

proof fn lemma_bin_values_bounds(
    perms: Seq<Vec<u8>>,
    swaps: Seq<usize>,
    eps1: Seq<bool>,
    p_a: u8,
    p_b: u8,
    r: u8,
    bin: Bin,
    filter: EndpointFilter,
    n: u8,
    m: int,
)
    requires
        family_ok(perms, swaps, eps1, n),
        0 <= m <= perms.len(),
    ensures
        bin_values(perms, swaps, eps1, p_a, p_b, r, bin, filter, n, m).len() <= m,
        forall|k: int|
            0 <= k < bin_values(perms, swaps, eps1, p_a, p_b, r, bin, filter, n, m).len() ==> #[trigger] bin_values(
                perms,
                swaps,
                eps1,
                p_a,
                p_b,
                r,
                bin,
                filter,
                n,
                m,
            )[k] < usize::MAX,
    decreases m,
{
    if m > 0 {
        lemma_bin_values_bounds(perms, swaps, eps1, p_a, p_b, r, bin, filter, n, m - 1);
    }
}

/// Previous-maximum position of `pi`.
fn q_position(pi: &Vec<u8>, n: u8) -> (q: u8)
    requires
        n >= 1,
        has_value(pi@, (n - 1) as u8),
        index_of(pi@, (n - 1) as u8) % 256 != 255,
    ensures
        q == q_pos(pi@, n),
{
    let i = first_index_of(pi, n - 1);
    ((i % 256) as u8) + 1
}

fn keeps(filter: &EndpointFilter, pi: &Vec<u8>, e: bool, r: u8, n: u8) -> (b: bool)
    requires
        n >= 1,
        filter is Pattern ==> pattern_ok(pi@, r, n),
    ensures
        b == filter_keeps(*filter, pi@, e, r, n),
{
    match filter {
        EndpointFilter::Everything => true,
        EndpointFilter::Epsilon1(want) => e == *want,
        EndpointFilter::Consecutive(want) => endpoint_adjacent_values_are_consecutive(pi, r) == *want,
        EndpointFilter::Local(want_c, want_m) => {
            endpoint_adjacent_values_are_consecutive(pi, r) == *want_c && endpoint_adjacent_pair_contains_previous_max(
                pi,
                r,
                n,
            ) == *want_m
        },
        EndpointFilter::Side(want_c, left) => {
            if endpoint_adjacent_values_are_consecutive(pi, r) != *want_c {
                return false;
            }
            match endpoint_previous_max_is_on_left(pi, r, n) {
                Some(side) => side == *left,
                None => false,
            }
        },
        EndpointFilter::Pattern(want) => match classify_endpoint_pair_pattern(pi, r, n) {
            Some(pattern) => pattern == *want,
            None => false,
        },
    }
}

/// Swap polynomial of the members of a family kept by `filter` whose
/// previous-maximum position `q` falls in `target_bin` (relative to
/// `p_a`, `p_b` and the run endpoint `r`), counted by modified swaps.
pub fn family_filtered_bin_poly(
    perms: &[Vec<u8>],
    swaps: &[usize],
    eps1: &[bool],
    p_a: u8,
    p_b: u8,
    r: u8,
    target_bin: Bin,
    filter: EndpointFilter,
    n: u8,
) -> (poly: Vec<i64>)
    requires
        family_ok(perms@, swaps@, eps1@, n),
        filter is Pattern ==> forall|k: int| 0 <= k < perms.len() ==> pattern_ok(#[trigger] perms@[k]@, r, n),
    ensures
        poly@ == poly_of(bin_values(perms@, swaps@, eps1@, p_a, p_b, r, target_bin, filter, n, perms.len() as int)),
{
    let mut values: Vec<usize> = Vec::new();
    let mut k: usize = 0;
    while k < perms.len()
        invariant
            k <= perms.len(),
            family_ok(perms@, swaps@, eps1@, n),
            filter is Pattern ==> forall|k: int| 0 <= k < perms.len() ==> pattern_ok(#[trigger] perms@[k]@, r, n),
            values@ == bin_values(perms@, swaps@, eps1@, p_a, p_b, r, target_bin, filter, n, k as int),
        decreases perms.len() - k,
    {
        let pi = &perms[k];
        assert(has_value(perms@[k as int]@, (n - 1) as u8));
        assert(index_of(perms@[k as int]@, (n - 1) as u8) % 256 != 255);
        let kept = keeps(&filter, pi, eps1[k], r, n);
        if kept {
            let q = q_position(pi, n);
            if classify_endpoint_relative_bin(q, p_a, p_b, r) == target_bin {
                assert(swaps@[k as int] < usize::MAX - 1);
                let v = swaps[k] + if eps1[k] {
                    1usize
                } else {
                    0usize
                };
                values.push(v);
            }
        }
        k += 1;
    }
    proof {
        lemma_bin_values_bounds(perms@, swaps@, eps1@, p_a, p_b, r, target_bin, filter, n, perms.len() as int);
    }
    build_poly(&values)
}

/// [`family_filtered_bin_poly`] with no filter.
pub fn family_bin_poly(perms: &[Vec<u8>], swaps: &[usize], eps1: &[bool], p_a: u8, p_b: u8, r: u8, target_bin: Bin, n: u8) -> (poly: Vec<i64>)
    requires
        family_ok(perms@, swaps@, eps1@, n),
    ensures
        poly@ == poly_of(bin_values(perms@, swaps@, eps1@, p_a, p_b, r, target_bin, EndpointFilter::Everything, n, perms.len() as int)),
{
    family_filtered_bin_poly(perms, swaps, eps1, p_a, p_b, r, target_bin, EndpointFilter::Everything, n)
}

/// [`family_filtered_bin_poly`] keeping the members with `epsilon_1 == required_epsilon1`.
pub fn family_bin_poly_with_epsilon1_filter(
    perms: &[Vec<u8>],
    swaps: &[usize],
    eps1: &[bool],
    p_a: u8,
    p_b: u8,
    r: u8,
    target_bin: Bin,
    required_epsilon1: bool,
    n: u8,
) -> (poly: Vec<i64>)
    requires
        family_ok(perms@, swaps@, eps1@, n),
    ensures
        poly@ == poly_of(
            bin_values(perms@, swaps@, eps1@, p_a, p_b, r, target_bin, EndpointFilter::Epsilon1(required_epsilon1), n, perms.len() as int),
        ),
{
    family_filtered_bin_poly(perms, swaps, eps1, p_a, p_b, r, target_bin, EndpointFilter::Epsilon1(required_epsilon1), n)
}

/// [`family_filtered_bin_poly`] keeping the members whose endpoint values are
/// consecutive exactly when `required_endpoint_consecutive`.
pub fn family_bin_poly_with_endpoint_consecutive_filter(
    perms: &[Vec<u8>],
    swaps: &[usize],
    eps1: &[bool],
    p_a: u8,
    p_b: u8,
    r: u8,
    target_bin: Bin,
    required_endpoint_consecutive: bool,
    n: u8,
) -> (poly: Vec<i64>)
    requires
        family_ok(perms@, swaps@, eps1@, n),
    ensures
        poly@ == poly_of(
            bin_values(
                perms@,
                swaps@,
                eps1@,
                p_a,
                p_b,
                r,
                target_bin,
                EndpointFilter::Consecutive(required_endpoint_consecutive),
                n,
                perms.len() as int,
            ),
        ),
{
    family_filtered_bin_poly(perms, swaps, eps1, p_a, p_b, r, target_bin, EndpointFilter::Consecutive(required_endpoint_consecutive), n)
}

/// [`family_filtered_bin_poly`] with both local endpoint conditions.
pub fn family_bin_poly_with_endpoint_local_filters(
    perms: &[Vec<u8>],
    swaps: &[usize],
    eps1: &[bool],
    p_a: u8,
    p_b: u8,
    r: u8,
    target_bin: Bin,
    required_endpoint_consecutive: bool,
    required_contains_previous_max: bool,
    n: u8,
) -> (poly: Vec<i64>)
    requires
        family_ok(perms@, swaps@, eps1@, n),
    ensures
        poly@ == poly_of(
            bin_values(
                perms@,
                swaps@,
                eps1@,
                p_a,
                p_b,
                r,
                target_bin,
                EndpointFilter::Local(required_endpoint_consecutive, required_contains_previous_max),
                n,
                perms.len() as int,
            ),
        ),
{
    family_filtered_bin_poly(
        perms,
        swaps,
        eps1,
        p_a,
        p_b,
        r,
        target_bin,
        EndpointFilter::Local(required_endpoint_consecutive, required_contains_previous_max),
        n,
    )
}

/// [`family_filtered_bin_poly`] with consecutiveness and the side of `n - 1` at the endpoint.
pub fn family_bin_poly_with_endpoint_side_filters(
    perms: &[Vec<u8>],
    swaps: &[usize],
    eps1: &[bool],
    p_a: u8,
    p_b: u8,
    r: u8,
    target_bin: Bin,
    required_endpoint_consecutive: bool,
    required_previous_max_on_left: bool,
    n: u8,
) -> (poly: Vec<i64>)
    requires
        family_ok(perms@, swaps@, eps1@, n),
    ensures
        poly@ == poly_of(
            bin_values(
                perms@,
                swaps@,
                eps1@,
                p_a,
                p_b,
                r,
                target_bin,
                EndpointFilter::Side(required_endpoint_consecutive, required_previous_max_on_left),
                n,
                perms.len() as int,
            ),
        ),
{
    family_filtered_bin_poly(
        perms,
        swaps,
        eps1,
        p_a,
        p_b,
        r,
        target_bin,
        EndpointFilter::Side(required_endpoint_consecutive, required_previous_max_on_left),
        n,
    )
}

/// [`family_filtered_bin_poly`] keeping the members whose endpoint pair has `required_pattern`.
pub fn family_bin_poly_with_endpoint_pattern_filter(
    perms: &[Vec<u8>],
    swaps: &[usize],
    eps1: &[bool],
    p_a: u8,
    p_b: u8,
    r: u8,
    target_bin: Bin,
    required_pattern: EndpointPairPattern,
    n: u8,
) -> (poly: Vec<i64>)
    requires
        family_ok(perms@, swaps@, eps1@, n),
        forall|k: int| 0 <= k < perms.len() ==> pattern_ok(#[trigger] perms@[k]@, r, n),
    ensures
        poly@ == poly_of(
            bin_values(perms@, swaps@, eps1@, p_a, p_b, r, target_bin, EndpointFilter::Pattern(required_pattern), n, perms.len() as int),
        ),
{
    family_filtered_bin_poly(perms, swaps, eps1, p_a, p_b, r, target_bin, EndpointFilter::Pattern(required_pattern), n)
}


/// Modified swap counts of the first `m` members.
pub open spec fn modified_values(swaps: Seq<usize>, eps1: Seq<bool>, m: int) -> Seq<usize>
    decreases m,
{
    if m <= 0 {
        Seq::empty()
    } else {
        modified_values(swaps, eps1, m - 1).push(modified(swaps[m - 1], eps1[m - 1]) as usize)
    }
}

/// Swap polynomial of a whole family, counted by modified swaps.
pub fn family_total_poly(swaps: &[usize], eps1: &[bool]) -> (poly: Vec<i64>)
    requires
        eps1.len() == swaps.len(),
        swaps.len() <= i64::MAX,
        forall|k: int| 0 <= k < swaps.len() ==> #[trigger] swaps@[k] < usize::MAX - 1,
    ensures
        poly@ == poly_of(modified_values(swaps@, eps1@, swaps.len() as int)),
{
    let mut values: Vec<usize> = Vec::new();
    let mut k: usize = 0;
    while k < swaps.len()
        invariant
            k <= swaps.len(),
            eps1.len() == swaps.len(),
            swaps.len() <= i64::MAX,
            forall|k: int| 0 <= k < swaps.len() ==> #[trigger] swaps@[k] < usize::MAX - 1,
            values@ == modified_values(swaps@, eps1@, k as int),
            values.len() == k,
            forall|j: int| 0 <= j < values.len() ==> #[trigger] values@[j] < usize::MAX,
        decreases swaps.len() - k,
    {
        assert(swaps@[k as int] < usize::MAX - 1);
        let v = swaps[k] + if eps1[k] {
            1usize
        } else {
            0usize
        };
        values.push(v);
        k += 1;
    }
    build_poly(&values)
}

proof fn lemma_modified_values_len(swaps: Seq<usize>, eps1: Seq<bool>, m: int)
    requires
        0 <= m,
    ensures
        modified_values(swaps, eps1, m).len() == m,
    decreases m,
{
    if m > 0 {
        lemma_modified_values_len(swaps, eps1, m - 1);
    }
}

proof fn lemma_poly_of_coef(vals: Seq<usize>, k: int)
    requires
        vals.len() <= i64::MAX,
        0 <= k,
    ensures
        coef(poly_of(vals), k) == count_of(vals, k),
{
    if vals.len() > 0 {
        lemma_histogram_coef(vals, k);
    }
}

proof fn lemma_bins_partition_counts(
    perms: Seq<Vec<u8>>,
    swaps: Seq<usize>,
    eps1: Seq<bool>,
    p_a: u8,
    p_b: u8,
    r: u8,
    n: u8,
    m: int,
    k: int,
)
    requires
        0 <= m,
    ensures
        count_of(bin_values(perms, swaps, eps1, p_a, p_b, r, Bin::FarLeft, EndpointFilter::Everything, n, m), k)
            + count_of(bin_values(perms, swaps, eps1, p_a, p_b, r, Bin::RunWindow, EndpointFilter::Everything, n, m), k)
            + count_of(bin_values(perms, swaps, eps1, p_a, p_b, r, Bin::GapWindow, EndpointFilter::Everything, n, m), k)
            + count_of(bin_values(perms, swaps, eps1, p_a, p_b, r, Bin::FarRight, EndpointFilter::Everything, n, m), k)
            == count_of(modified_values(swaps, eps1, m), k),
    decreases m,
{
    if m > 0 {
        lemma_bins_partition_counts(perms, swaps, eps1, p_a, p_b, r, n, m - 1, k);
        let v = modified(swaps[m - 1], eps1[m - 1]) as usize;
        let f = EndpointFilter::Everything;
        lemma_count_push(modified_values(swaps, eps1, m - 1), v, k);
        lemma_count_push(bin_values(perms, swaps, eps1, p_a, p_b, r, Bin::FarLeft, f, n, m - 1), v, k);
        lemma_count_push(bin_values(perms, swaps, eps1, p_a, p_b, r, Bin::RunWindow, f, n, m - 1), v, k);
        lemma_count_push(bin_values(perms, swaps, eps1, p_a, p_b, r, Bin::GapWindow, f, n, m - 1), v, k);
        lemma_count_push(bin_values(perms, swaps, eps1, p_a, p_b, r, Bin::FarRight, f, n, m - 1), v, k);
    }
}

/// The four bins of the previous-maximum position `q` partition a family: the
/// swap polynomials of the bins (as [`family_bin_poly`] builds them) add up,
/// coefficient by coefficient, to that of the whole family ([`family_total_poly`]).
pub proof fn lemma_bins_partition_family(perms: Seq<Vec<u8>>, swaps: Seq<usize>, eps1: Seq<bool>, p_a: u8, p_b: u8, r: u8, n: u8)
    requires
        family_ok(perms, swaps, eps1, n),
    ensures
        forall|k: int|
            0 <= k ==> coef(poly_of(bin_values(perms, swaps, eps1, p_a, p_b, r, Bin::FarLeft, EndpointFilter::Everything, n, perms.len() as int)), k)
                + coef(poly_of(bin_values(perms, swaps, eps1, p_a, p_b, r, Bin::RunWindow, EndpointFilter::Everything, n, perms.len() as int)), k)
                + coef(poly_of(bin_values(perms, swaps, eps1, p_a, p_b, r, Bin::GapWindow, EndpointFilter::Everything, n, perms.len() as int)), k)
                + coef(poly_of(bin_values(perms, swaps, eps1, p_a, p_b, r, Bin::FarRight, EndpointFilter::Everything, n, perms.len() as int)), k)
                == #[trigger] coef(poly_of(modified_values(swaps, eps1, perms.len() as int)), k),
{
    let m = perms.len() as int;
    let f = EndpointFilter::Everything;
    assert forall|k: int| 0 <= k implies coef(poly_of(bin_values(perms, swaps, eps1, p_a, p_b, r, Bin::FarLeft, f, n, m)), k)
        + coef(poly_of(bin_values(perms, swaps, eps1, p_a, p_b, r, Bin::RunWindow, f, n, m)), k)
        + coef(poly_of(bin_values(perms, swaps, eps1, p_a, p_b, r, Bin::GapWindow, f, n, m)), k)
        + coef(poly_of(bin_values(perms, swaps, eps1, p_a, p_b, r, Bin::FarRight, f, n, m)), k)
        == #[trigger] coef(poly_of(modified_values(swaps, eps1, m)), k) by {
        lemma_bins_partition_counts(perms, swaps, eps1, p_a, p_b, r, n, m, k);
        lemma_modified_values_len(swaps, eps1, m);
        lemma_poly_of_coef(modified_values(swaps, eps1, m), k);
        lemma_bin_values_bounds(perms, swaps, eps1, p_a, p_b, r, Bin::FarLeft, f, n, m);
        lemma_bin_values_bounds(perms, swaps, eps1, p_a, p_b, r, Bin::RunWindow, f, n, m);
        lemma_bin_values_bounds(perms, swaps, eps1, p_a, p_b, r, Bin::GapWindow, f, n, m);
        lemma_bin_values_bounds(perms, swaps, eps1, p_a, p_b, r, Bin::FarRight, f, n, m);
        lemma_poly_of_coef(bin_values(perms, swaps, eps1, p_a, p_b, r, Bin::FarLeft, f, n, m), k);
        lemma_poly_of_coef(bin_values(perms, swaps, eps1, p_a, p_b, r, Bin::RunWindow, f, n, m), k);
        lemma_poly_of_coef(bin_values(perms, swaps, eps1, p_a, p_b, r, Bin::GapWindow, f, n, m), k);
        lemma_poly_of_coef(bin_values(perms, swaps, eps1, p_a, p_b, r, Bin::FarRight, f, n, m), k);
    }
}

proof fn lemma_sides_split_counts(
    perms: Seq<Vec<u8>>,
    swaps: Seq<usize>,
    eps1: Seq<bool>,
    p_a: u8,
    p_b: u8,
    r: u8,
    bin: Bin,
    c: bool,
    n: u8,
    m: int,
    k: int,
)
    requires
        0 <= m,
    ensures
        count_of(bin_values(perms, swaps, eps1, p_a, p_b, r, bin, EndpointFilter::Side(c, true), n, m), k)
            + count_of(bin_values(perms, swaps, eps1, p_a, p_b, r, bin, EndpointFilter::Side(c, false), n, m), k)
            == count_of(bin_values(perms, swaps, eps1, p_a, p_b, r, bin, EndpointFilter::Local(c, true), n, m), k),
    decreases m,
{
    if m > 0 {
        lemma_sides_split_counts(perms, swaps, eps1, p_a, p_b, r, bin, c, n, m - 1, k);
        let v = modified(swaps[m - 1], eps1[m - 1]) as usize;
        lemma_count_push(bin_values(perms, swaps, eps1, p_a, p_b, r, bin, EndpointFilter::Side(c, true), n, m - 1), v, k);
        lemma_count_push(bin_values(perms, swaps, eps1, p_a, p_b, r, bin, EndpointFilter::Side(c, false), n, m - 1), v, k);
        lemma_count_push(bin_values(perms, swaps, eps1, p_a, p_b, r, bin, EndpointFilter::Local(c, true), n, m - 1), v, k);
    }
}

/// The two side filters split the local filter that asks for `n - 1` next to the
/// endpoint: with the same consecutiveness requirement, the swap polynomials for
/// "`n - 1` on the left" and "`n - 1` on the right" add up, coefficient by
/// coefficient, to the one for "`n - 1` in the pair around the endpoint".
pub proof fn lemma_side_filters_split_local(
    perms: Seq<Vec<u8>>,
    swaps: Seq<usize>,
    eps1: Seq<bool>,
    p_a: u8,
    p_b: u8,
    r: u8,
    bin: Bin,
    c: bool,
    n: u8,
)
    requires
        family_ok(perms, swaps, eps1, n),
    ensures
        forall|k: int|
            0 <= k ==> coef(poly_of(bin_values(perms, swaps, eps1, p_a, p_b, r, bin, EndpointFilter::Side(c, true), n, perms.len() as int)), k)
                + coef(poly_of(bin_values(perms, swaps, eps1, p_a, p_b, r, bin, EndpointFilter::Side(c, false), n, perms.len() as int)), k)
                == #[trigger] coef(poly_of(bin_values(perms, swaps, eps1, p_a, p_b, r, bin, EndpointFilter::Local(c, true), n, perms.len() as int)), k),
{
    let m = perms.len() as int;
    assert forall|k: int| 0 <= k implies coef(poly_of(bin_values(perms, swaps, eps1, p_a, p_b, r, bin, EndpointFilter::Side(c, true), n, m)), k)
        + coef(poly_of(bin_values(perms, swaps, eps1, p_a, p_b, r, bin, EndpointFilter::Side(c, false), n, m)), k)
        == #[trigger] coef(poly_of(bin_values(perms, swaps, eps1, p_a, p_b, r, bin, EndpointFilter::Local(c, true), n, m)), k) by {
        lemma_sides_split_counts(perms, swaps, eps1, p_a, p_b, r, bin, c, n, m, k);
        lemma_bin_values_bounds(perms, swaps, eps1, p_a, p_b, r, bin, EndpointFilter::Side(c, true), n, m);
        lemma_bin_values_bounds(perms, swaps, eps1, p_a, p_b, r, bin, EndpointFilter::Side(c, false), n, m);
        lemma_bin_values_bounds(perms, swaps, eps1, p_a, p_b, r, bin, EndpointFilter::Local(c, true), n, m);
        lemma_poly_of_coef(bin_values(perms, swaps, eps1, p_a, p_b, r, bin, EndpointFilter::Side(c, true), n, m), k);
        lemma_poly_of_coef(bin_values(perms, swaps, eps1, p_a, p_b, r, bin, EndpointFilter::Side(c, false), n, m), k);
        lemma_poly_of_coef(bin_values(perms, swaps, eps1, p_a, p_b, r, bin, EndpointFilter::Local(c, true), n, m), k);
    }
}

/// Modified swap counts of the first `m` members whose previous maximum sits at `q`.
pub open spec fn q_values(perms: Seq<Vec<u8>>, swaps: Seq<usize>, eps1: Seq<bool>, n: u8, q: int, m: int) -> Seq<usize>
    decreases m,
{
    if m <= 0 {
        Seq::empty()
    } else if q_pos(perms[m - 1]@, n) == q {
        q_values(perms, swaps, eps1, n, q, m - 1).push(modified(swaps[m - 1], eps1[m - 1]) as usize)
    } else {
        q_values(perms, swaps, eps1, n, q, m - 1)
    }
}

/// For `q = 1, 2, ...` below `q_end`, in increasing order, each `q` reached by a member
/// with the swap polynomial of those members.
pub open spec fn q_groups(perms: Seq<Vec<u8>>, swaps: Seq<usize>, eps1: Seq<bool>, n: u8, q_end: int) -> Seq<(u8, Seq<i64>)>
    decreases q_end,
{
    if q_end <= 1 {
        Seq::empty()
    } else {
        let prev = q_groups(perms, swaps, eps1, n, q_end - 1);
        let vals = q_values(perms, swaps, eps1, n, q_end - 1, perms.len() as int);
        if vals.len() == 0 {
            prev
        } else {
            prev.push(((q_end - 1) as u8, histogram(vals)))
        }
    }
}

proof fn lemma_q_values_bounds(perms: Seq<Vec<u8>>, swaps: Seq<usize>, eps1: Seq<bool>, n: u8, q: int, m: int)
    requires
        family_ok(perms, swaps, eps1, n),
        0 <= m <= perms.len(),
    ensures
        q_values(perms, swaps, eps1, n, q, m).len() <= m,
        forall|k: int|
            0 <= k < q_values(perms, swaps, eps1, n, q, m).len() ==> #[trigger] q_values(perms, swaps, eps1, n, q, m)[k]
                < usize::MAX,
    decreases m,
{
    if m > 0 {
        lemma_q_values_bounds(perms, swaps, eps1, n, q, m - 1);
    }
}

/// The family split by the previous-maximum position `q`: for each `q` that
/// occurs, in increasing order, `q` and the swap polynomial (by modified
/// swaps) of the members with that `q`.
pub fn family_q_sequence(perms: &[Vec<u8>], swaps: &[usize], eps1: &[bool], n: u8) -> (groups: Vec<(u8, Vec<i64>)>)
    requires
        family_ok(perms@, swaps@, eps1@, n),
    ensures
        groups.len() == q_groups(perms@, swaps@, eps1@, n, 256).len(),
        forall|i: int|
            0 <= i < groups.len() ==> (#[trigger] groups@[i]).0 == q_groups(perms@, swaps@, eps1@, n, 256)[i].0
                && groups@[i].1@ == q_groups(perms@, swaps@, eps1@, n, 256)[i].1,
{
    let mut groups: Vec<(u8, Vec<i64>)> = Vec::new();
    let mut q: u16 = 1;
    while q < 256
        invariant
            1 <= q <= 256,
            family_ok(perms@, swaps@, eps1@, n),
            groups.len() == q_groups(perms@, swaps@, eps1@, n, q as int).len(),
            forall|i: int|
                0 <= i < groups.len() ==> (#[trigger] groups@[i]).0 == q_groups(perms@, swaps@, eps1@, n, q as int)[i].0
                    && groups@[i].1@ == q_groups(perms@, swaps@, eps1@, n, q as int)[i].1,
        decreases 256 - q,
    {
        let mut values: Vec<usize> = Vec::new();
        let mut k: usize = 0;
        while k < perms.len()
            invariant
                k <= perms.len(),
                1 <= q < 256,
                family_ok(perms@, swaps@, eps1@, n),
                values@ == q_values(perms@, swaps@, eps1@, n, q as int, k as int),
            decreases perms.len() - k,
        {
            assert(has_value(perms@[k as int]@, (n - 1) as u8));
            assert(index_of(perms@[k as int]@, (n - 1) as u8) % 256 != 255);
            let qk = q_position(&perms[k], n);
            if qk as u16 == q {
                assert(swaps@[k as int] < usize::MAX - 1);
                let v = swaps[k] + if eps1[k] {
                    1usize
                } else {
                    0usize
                };
                values.push(v);
            }
            k += 1;
        }
        proof {
            lemma_q_values_bounds(perms@, swaps@, eps1@, n, q as int, perms.len() as int);
        }
        if values.len() > 0 {
            let poly = build_poly(&values);
            groups.push((q as u8, poly));
        }
        q += 1;
    }
    groups
}

} // verus!
