//! Endpoint-relative refinement of the source families for a consecutive
//! pair of valid positions `p_a < p_b`, whose active descent run from `p_a`
//! ends at `r`.
use vstd::prelude::*;
use crate::poly::{coef, is_trimmed, strip, trim_in_place, lemma_strip, seq_shift};
use crate::compat::InterlaceStep;

verus! {

/// Source family: left (`p_a`) or right (`p_b`) position, base (`S'`) or augmented (`S''`) set.
#[derive(Clone, Copy, Debug, PartialEq, Eq, Structural)]
pub enum Family {
    LeftBase,
    LeftAugmented,
    RightBase,
    RightAugmented,
}

impl Family {
    /// The four families, in their fixed order.
    pub fn all() -> (r: [Family; 4])
        ensures
            r@ == seq![Family::LeftBase, Family::LeftAugmented, Family::RightBase, Family::RightAugmented],
    {
        let r = [Family::LeftBase, Family::LeftAugmented, Family::RightBase, Family::RightAugmented];
        assert(r@ =~= seq![Family::LeftBase, Family::LeftAugmented, Family::RightBase, Family::RightAugmented]);
        r
    }

    /// Two-letter label.
    pub fn short_name(self) -> (s: &'static str)
        ensures
            self == Family::LeftBase ==> s@ == "LB"@,
            self == Family::LeftAugmented ==> s@ == "LA"@,
            self == Family::RightBase ==> s@ == "RB"@,
            self == Family::RightAugmented ==> s@ == "RA"@,
    {
        match self {
            Family::LeftBase => "LB",
            Family::LeftAugmented => "LA",
            Family::RightBase => "RB",
            Family::RightAugmented => "RA",
        }
    }
}

/// Coarse endpoint-relative bin of the previous-maximum position `q`.
#[derive(Clone, Copy, Debug, PartialEq, Eq, Structural)]
pub enum Bin {
    FarLeft,
    RunWindow,
    GapWindow,
    FarRight,
}

impl Bin {
    /// The four bins, left to right.
    pub fn all() -> (r: [Bin; 4])
        ensures
            r@ == seq![Bin::FarLeft, Bin::RunWindow, Bin::GapWindow, Bin::FarRight],
    {
        let r = [Bin::FarLeft, Bin::RunWindow, Bin::GapWindow, Bin::FarRight];
        assert(r@ =~= seq![Bin::FarLeft, Bin::RunWindow, Bin::GapWindow, Bin::FarRight]);
        r
    }

    /// Two-letter label.
    pub fn short_name(self) -> (s: &'static str)
        ensures
            self == Bin::FarLeft ==> s@ == "FL"@,
            self == Bin::RunWindow ==> s@ == "RW"@,
            self == Bin::GapWindow ==> s@ == "GW"@,
            self == Bin::FarRight ==> s@ == "FR"@,
    {
        match self {
            Bin::FarLeft => "FL",
            Bin::RunWindow => "RW",
            Bin::GapWindow => "GW",
            Bin::FarRight => "FR",
        }
    }
}

/// Kind of auxiliary sum taken over a sequence of polynomials.
#[derive(Clone, Copy, Debug, PartialEq, Eq, Structural)]
pub enum AuxKind {
    Prefix,
    SuffixLr,
}

impl AuxKind {
    /// Both kinds.
    pub fn all() -> (r: [AuxKind; 2])
        ensures
            r@ == seq![AuxKind::Prefix, AuxKind::SuffixLr],
    {
        let r = [AuxKind::Prefix, AuxKind::SuffixLr];
        assert(r@ =~= seq![AuxKind::Prefix, AuxKind::SuffixLr]);
        r
    }

    /// One-letter label.
    pub fn short_name(self) -> (s: &'static str)
        ensures
            self == AuxKind::Prefix ==> s@ == "P"@,
            self == AuxKind::SuffixLr ==> s@ == "S"@,
    {
        match self {
            AuxKind::Prefix => "P",
            AuxKind::SuffixLr => "S",
        }
    }
}

/// Pattern of the two source values adjacent at the run endpoint.
#[derive(Clone, Copy, Debug, PartialEq, Eq, Structural)]
pub enum EndpointPairPattern {
    TopAdjacentAscending,
    TopAdjacentDescending,
    PreviousMaxLeftFar,
    PreviousMaxRightFar,
    ConsecutiveAscending,
    ConsecutiveDescending,
    NonconsecutiveAscending,
    NonconsecutiveDescending,
}

impl EndpointPairPattern {
    /// The eight patterns, in classification order.
    pub fn all() -> (r: [EndpointPairPattern; 8])
        ensures
            r@ == seq![
                EndpointPairPattern::TopAdjacentAscending,
                EndpointPairPattern::TopAdjacentDescending,
                EndpointPairPattern::PreviousMaxLeftFar,
                EndpointPairPattern::PreviousMaxRightFar,
                EndpointPairPattern::ConsecutiveAscending,
                EndpointPairPattern::ConsecutiveDescending,
                EndpointPairPattern::NonconsecutiveAscending,
                EndpointPairPattern::NonconsecutiveDescending,
            ],
    {
        let r = [
            EndpointPairPattern::TopAdjacentAscending,
            EndpointPairPattern::TopAdjacentDescending,
            EndpointPairPattern::PreviousMaxLeftFar,
            EndpointPairPattern::PreviousMaxRightFar,
            EndpointPairPattern::ConsecutiveAscending,
            EndpointPairPattern::ConsecutiveDescending,
            EndpointPairPattern::NonconsecutiveAscending,
            EndpointPairPattern::NonconsecutiveDescending,
        ];
        assert(r@ =~= seq![
            EndpointPairPattern::TopAdjacentAscending,
            EndpointPairPattern::TopAdjacentDescending,
            EndpointPairPattern::PreviousMaxLeftFar,
            EndpointPairPattern::PreviousMaxRightFar,
            EndpointPairPattern::ConsecutiveAscending,
            EndpointPairPattern::ConsecutiveDescending,
            EndpointPairPattern::NonconsecutiveAscending,
            EndpointPairPattern::NonconsecutiveDescending,
        ]);
        r
    }

    /// Short label.
    pub fn short_name(self) -> (s: &'static str)
        ensures
            self == EndpointPairPattern::TopAdjacentAscending ==> s@ == "top_up"@,
            self == EndpointPairPattern::TopAdjacentDescending ==> s@ == "top_down"@,
            self == EndpointPairPattern::PreviousMaxLeftFar ==> s@ == "maxL_far"@,
            self == EndpointPairPattern::PreviousMaxRightFar ==> s@ == "maxR_far"@,
            self == EndpointPairPattern::ConsecutiveAscending ==> s@ == "cons_up"@,
            self == EndpointPairPattern::ConsecutiveDescending ==> s@ == "cons_down"@,
            self == EndpointPairPattern::NonconsecutiveAscending ==> s@ == "far_up"@,
            self == EndpointPairPattern::NonconsecutiveDescending ==> s@ == "far_down"@,
    {
        match self {
            EndpointPairPattern::TopAdjacentAscending => "top_up",
            EndpointPairPattern::TopAdjacentDescending => "top_down",
            EndpointPairPattern::PreviousMaxLeftFar => "maxL_far",
            EndpointPairPattern::PreviousMaxRightFar => "maxR_far",
            EndpointPairPattern::ConsecutiveAscending => "cons_up",
            EndpointPairPattern::ConsecutiveDescending => "cons_down",
            EndpointPairPattern::NonconsecutiveAscending => "far_up",
            EndpointPairPattern::NonconsecutiveDescending => "far_down",
        }
    }
}

/// Trailing zeros removed; the empty vector becomes `[0]`.
pub fn trim(p: Vec<i64>) -> (r: Vec<i64>)
    ensures
        p.len() == 0 ==> r@ == seq![0i64],
        p.len() > 0 ==> r@ == strip(p@),
        is_trimmed(r@),
        r.len() >= 1,
{
    let mut p = p;
    let ghost orig = p@;
    trim_in_place(&mut p);
    proof {
        lemma_strip(orig);
    }
    if p.len() == 0 {
        return vec![0i64];
    }
    p
}

/// Index of the last nonzero coefficient, and `0` for the zero polynomial.
pub fn poly_degree(p: &[i64]) -> (d: usize)
    requires
        p.len() >= 1,
    ensures
        d < p.len(),
        forall|j: int| d < j < p.len() ==> p@[j] == 0,
        d > 0 ==> p@[d as int] != 0,
{
    let mut d = p.len();
    while d > 1 && p[d - 1] == 0
        invariant
            1 <= d <= p.len(),
            forall|j: int| d <= j < p.len() ==> p@[j] == 0,
        decreases d,
    {
        d -= 1;
    }
    d - 1
}

/// `t * p`, trimmed.
pub fn poly_mul_t(p: &[i64]) -> (r: Vec<i64>)
    requires
        p.len() < usize::MAX,
    ensures
        r@ == strip(seq_shift(p@, 1)),
        forall|k: int| #[trigger] coef(r@, k) == coef(p@, k - 1),
{
    let out = crate::poly::poly_mul_t(p);
    proof {
        lemma_strip(out@);
    }
    trim(out)
}

/// Bin of the previous-maximum position `q` relative to `p_a`, the run end `r` and `p_b`.
pub open spec fn bin_of(q: int, p_a: int, p_b: int, r: int) -> Bin {
    if p_a >= 2 && q <= p_a - 2 {
        Bin::FarLeft
    } else if q <= r {
        Bin::RunWindow
    } else if p_b >= 2 && q <= p_b - 2 {
        Bin::GapWindow
    } else {
        Bin::FarRight
    }
}

/// Endpoint-relative bin of `q`.
pub fn classify_endpoint_relative_bin(q: u8, p_a: u8, p_b: u8, r: u8) -> (b: Bin)
    ensures
        b == bin_of(q as int, p_a as int, p_b as int, r as int),
{
    if p_a >= 2 && q <= p_a - 2 {
        Bin::FarLeft
    } else if q <= r {
        Bin::RunWindow
    } else if p_b >= 2 && q <= p_b - 2 {
        Bin::GapWindow
    } else {
        Bin::FarRight
    }
}

/// The endpoint position has a right neighbour in the source: `1 <= e < len`.
pub open spec fn endpoint_inside(s: Seq<u8>, e: int) -> bool {
    e != 0 && e < s.len()
}

/// The two source values around the endpoint differ by exactly one.
pub fn endpoint_adjacent_values_are_consecutive(source_permutation: &[u8], endpoint_position: u8) -> (b: bool)
    ensures
        b == (endpoint_inside(source_permutation@, endpoint_position as int) && {
            let l = source_permutation@[endpoint_position - 1] as int;
            let r = source_permutation@[endpoint_position as int] as int;
            l - r == 1 || r - l == 1
        }),
{
    if endpoint_position == 0 || endpoint_position as usize >= source_permutation.len() {
        return false;
    }
    let left = source_permutation[(endpoint_position - 1) as usize];
    let right = source_permutation[endpoint_position as usize];
    let diff = if left >= right {
        left - right
    } else {
        right - left
    };
    diff == 1
}

/// One of the two source values around the endpoint is the previous maximum `n - 1`.
pub fn endpoint_adjacent_pair_contains_previous_max(source_permutation: &[u8], endpoint_position: u8, n: u8) -> (b: bool)
    requires
        endpoint_inside(source_permutation@, endpoint_position as int) ==> n >= 1,
    ensures
        b == (endpoint_inside(source_permutation@, endpoint_position as int) && (source_permutation@[endpoint_position
            - 1] == n - 1 || source_permutation@[endpoint_position as int] == n - 1)),
{
    if endpoint_position == 0 || endpoint_position as usize >= source_permutation.len() {
        return false;
    }
    let left = source_permutation[(endpoint_position - 1) as usize];
    let right = source_permutation[endpoint_position as usize];
    left == n - 1 || right == n - 1
}

/// Side of the previous maximum among the two values around the endpoint:
/// `Some(true)` on the left, `Some(false)` on the right, `None` if absent.
pub fn endpoint_previous_max_is_on_left(source_permutation: &[u8], endpoint_position: u8, n: u8) -> (r: Option<bool>)
    requires
        endpoint_inside(source_permutation@, endpoint_position as int) ==> n >= 1,
    ensures
        !endpoint_inside(source_permutation@, endpoint_position as int) ==> r.is_none(),
        endpoint_inside(source_permutation@, endpoint_position as int) ==> r == if source_permutation@[endpoint_position
            - 1] == n - 1 {
            Some(true)
        } else if source_permutation@[endpoint_position as int] == n - 1 {
            Some(false)
        } else {
            None::<bool>
        },
{
    if endpoint_position == 0 || endpoint_position as usize >= source_permutation.len() {
        return None;
    }
    let left = source_permutation[(endpoint_position - 1) as usize];
    let right = source_permutation[endpoint_position as usize];
    if left == n - 1 {
        Some(true)
    } else if right == n - 1 {
        Some(false)
    } else {
        None
    }
}

/// Pattern of the pair `(left, right)` of values around the endpoint, for `S_n` sources.
pub open spec fn pair_pattern(left: int, right: int, n: int) -> EndpointPairPattern {
    if left == n - 2 && right == n - 1 {
        EndpointPairPattern::TopAdjacentAscending
    } else if left == n - 1 && right == n - 2 {
        EndpointPairPattern::TopAdjacentDescending
    } else if left == n - 1 {
        EndpointPairPattern::PreviousMaxLeftFar
    } else if right == n - 1 {
        EndpointPairPattern::PreviousMaxRightFar
    } else if left + 1 == right {
        EndpointPairPattern::ConsecutiveAscending
    } else if right + 1 == left {
        EndpointPairPattern::ConsecutiveDescending
    } else if left < right {
        EndpointPairPattern::NonconsecutiveAscending
    } else {
        EndpointPairPattern::NonconsecutiveDescending
    }
}

/// Classify the pair of source values around the endpoint; `None` when the
/// endpoint has no right neighbour.
pub fn classify_endpoint_pair_pattern(source_permutation: &[u8], endpoint_position: u8, n: u8) -> (r: Option<
    EndpointPairPattern,
>)
    requires
        endpoint_inside(source_permutation@, endpoint_position as int) ==> {
            let l = source_permutation@[endpoint_position - 1];
            let r = source_permutation@[endpoint_position as int];
            &&& n >= 2
            &&& (l == n - 1 || r == n - 1 || (l < 255 && (l + 1 == r || r < 255)))
        },
    ensures
        !endpoint_inside(source_permutation@, endpoint_position as int) ==> r.is_none(),
        endpoint_inside(source_permutation@, endpoint_position as int) ==> r == Some(
            pair_pattern(
                source_permutation@[endpoint_position - 1] as int,
                source_permutation@[endpoint_position as int] as int,
                n as int,
            ),
        ),
{
    if endpoint_position == 0 || endpoint_position as usize >= source_permutation.len() {
        return None;
    }
    let left = source_permutation[(endpoint_position - 1) as usize];
    let right = source_permutation[endpoint_position as usize];
    if left == n - 2 && right == n - 1 {
        return Some(EndpointPairPattern::TopAdjacentAscending);
    }
    if left == n - 1 && right == n - 2 {
        return Some(EndpointPairPattern::TopAdjacentDescending);
    }
    if left == n - 1 {
        return Some(EndpointPairPattern::PreviousMaxLeftFar);
    }
    if right == n - 1 {
        return Some(EndpointPairPattern::PreviousMaxRightFar);
    }
    if left + 1 == right {
        return Some(EndpointPairPattern::ConsecutiveAscending);
    }
    if right + 1 == left {
        return Some(EndpointPairPattern::ConsecutiveDescending);
    }
    if left < right {
        Some(EndpointPairPattern::NonconsecutiveAscending)
    } else {
        Some(EndpointPairPattern::NonconsecutiveDescending)
    }
}

/// `s` with the entries at `i` and `j` exchanged.
pub open spec fn swap_at(s: Seq<Family>, i: int, j: int) -> Seq<Family> {
    s.update(i, s[j]).update(j, s[i])
}

/// Orderings produced by the swap recursion from position `pos` of `arr`:
/// the arrangement itself at the end, otherwise, for `i = pos, ..., 3`, the
/// orderings of `arr` with positions `pos` and `i` swapped, from `pos + 1`.
pub open spec fn orders_from(arr: Seq<Family>, pos: int) -> Seq<Seq<Family>>
    decreases 4 - pos, 5int,
{
    if pos >= 4 {
        seq![arr]
    } else if pos < 0 {
        Seq::empty()
    } else {
        orders_range(arr, pos, pos)
    }
}

/// The part of [`orders_from`] for swap partners `i, ..., 3`.
pub open spec fn orders_range(arr: Seq<Family>, pos: int, i: int) -> Seq<Seq<Family>>
    decreases 4 - pos, if i <= 4 { 4 - i } else { 0 },
{
    if i >= 4 || pos >= 4 || i < 0 || pos < 0 {
        Seq::empty()
    } else {
        orders_from(swap_at(arr, pos, i), pos + 1) + orders_range(arr, pos, i + 1)
    }
}

/// Contents of a list of orderings.
pub open spec fn order_views(v: Seq<[Family; 4]>) -> Seq<Seq<Family>> {
    Seq::new(v.len(), |k: int| v[k]@)
}

/// All 24 orderings of the four families, generated by the swap recursion
/// `rec(pos)`: for each `i >= pos`, swap positions `pos` and `i`, recurse, swap back.
pub fn permutations_of_families() -> (out: Vec<[Family; 4]>)
    ensures
        order_views(out@) == orders_from(
            seq![Family::LeftBase, Family::LeftAugmented, Family::RightBase, Family::RightAugmented],
            0,
        ),
        out.len() == 24,
        forall|k: int| 0 <= k < out.len() ==> is_family_order(#[trigger] out@[k]@),
{
    let mut arr = Family::all();
    let mut out: Vec<[Family; 4]> = Vec::new();
    proof {
        lemma_all_is_order(arr@);
    }
    permute_from(0, &mut arr, &mut out);
    assert(order_views(Seq::<[Family; 4]>::empty()) + orders_from(arr@, 0) =~= orders_from(arr@, 0));
    assert(factorial(4) == 24) by {
        assert(factorial(0) == 1);
        assert(factorial(1) == 1);
        assert(factorial(2) == 2);
        assert(factorial(3) == 6);
    }
    out
}

/// `s` lists the four families, each once.
pub open spec fn is_family_order(s: Seq<Family>) -> bool {
    &&& s.len() == 4
    &&& s.contains(Family::LeftBase)
    &&& s.contains(Family::LeftAugmented)
    &&& s.contains(Family::RightBase)
    &&& s.contains(Family::RightAugmented)
}

proof fn lemma_all_is_order(s: Seq<Family>)
    requires
        s == seq![Family::LeftBase, Family::LeftAugmented, Family::RightBase, Family::RightAugmented],
    ensures
        is_family_order(s),
{
    assert(s[0] == Family::LeftBase);
    assert(s[1] == Family::LeftAugmented);
    assert(s[2] == Family::RightBase);
    assert(s[3] == Family::RightAugmented);
}

pub open spec fn factorial(k: nat) -> nat
    decreases k,
{
    if k == 0 {
        1
    } else {
        k * factorial((k - 1) as nat)
    }
}

proof fn lemma_swap_keeps_order(s: Seq<Family>, i: int, j: int)
    requires
        is_family_order(s),
        0 <= i < 4,
        0 <= j < 4,
    ensures
        is_family_order(s.update(i, s[j]).update(j, s[i])),
{
    let t = s.update(i, s[j]).update(j, s[i]);
    assert forall|f: Family| s.contains(f) implies t.contains(f) by {
        let k = choose|k: int| 0 <= k < s.len() && s[k] == f;
        if k == i {
            assert(t[j] == f);
        } else if k == j {
            assert(t[i] == f);
        } else {
            assert(t[k] == f);
        }
    }
}

fn permute_from(pos: usize, arr: &mut [Family; 4], out: &mut Vec<[Family; 4]>)
    requires
        pos <= 4,
        is_family_order(old(arr)@),
        forall|k: int| 0 <= k < old(out).len() ==> is_family_order(#[trigger] old(out)@[k]@),
    ensures
        final(arr)@ == old(arr)@,
        order_views(final(out)@) == order_views(old(out)@) + orders_from(old(arr)@, pos as int),
        final(out).len() == old(out).len() + factorial((4 - pos) as nat),
        forall|k: int| 0 <= k < final(out).len() ==> is_family_order(#[trigger] final(out)@[k]@),
    decreases 4 - pos,
{
    if pos == 4 {
        let ghost before = out@;
        out.push(*arr);
        assert(order_views(out@) =~= order_views(before) + seq![arr@]);
        return;
    }
    let ghost start_len = out.len();
    let ghost start = out@;
    let ghost orig = arr@;
    let mut i = pos;
    while i < 4
        invariant
            pos < 4,
            pos <= i <= 4,
            arr@ == orig,
            is_family_order(orig),
            out.len() == start_len + (i - pos) * factorial((3 - pos) as nat),
            forall|k: int| 0 <= k < out.len() ==> is_family_order(#[trigger] out@[k]@),
            order_views(out@) + orders_range(orig, pos as int, i as int) == order_views(start) + orders_from(orig, pos as int),
        decreases 4 - i,
    {
        let ghost before = order_views(out@);
        let a = arr[pos];
        let b = arr[i];
        arr[pos] = b;
        arr[i] = a;
        proof {
            lemma_swap_keeps_order(orig, pos as int, i as int);
            assert(arr@ == orig.update(pos as int, orig[i as int]).update(i as int, orig[pos as int]));
        }
        permute_from(pos + 1, arr, out);
        proof {
            let sw = swap_at(orig, pos as int, i as int);
            assert(orig.update(pos as int, orig[i as int]).update(i as int, orig[pos as int]) == sw);
            assert(orders_range(orig, pos as int, i as int) == orders_from(sw, pos + 1) + orders_range(orig, pos as int, i + 1));
            vstd::seq_lib::lemma_concat_associative(before, orders_from(sw, pos + 1), orders_range(orig, pos as int, i + 1));
        }
        let c = arr[pos];
        let d = arr[i];
        arr[pos] = d;
        arr[i] = c;
        assert(arr@ =~= orig);
        proof {
            assert((i + 1 - pos) * factorial((3 - pos) as nat) == (i - pos) * factorial((3 - pos) as nat) + factorial((3 - pos) as nat)) by (nonlinear_arith);
        }
        i += 1;
    }
    proof {
        assert(factorial((4 - pos) as nat) == (4 - pos) * factorial((3 - pos) as nat));
        assert(orders_range(orig, pos as int, 4) =~= Seq::<Seq<Family>>::empty());
        assert(order_views(out@) + Seq::<Seq<Family>>::empty() =~= order_views(out@));
    }
}


/// `p` with trailing zeros removed, the empty polynomial read as `[0]`.
pub open spec fn trimmed(p: Seq<i64>) -> Seq<i64> {
    if p.len() == 0 {
        seq![0i64]
    } else {
        strip(p)
    }
}

/// Weak interlacing `f << g` with the same-degree reduction. After trimming:
/// a zero `f` holds when `g` is zero and otherwise is settled by asking about
/// `([], g)`; a zero `g` makes it hold; when `deg g = deg f + 1` the question
/// is `(f, g)`, when the degrees are equal it is `(g, t f)`, and otherwise it fails.
pub fn interlaces_weak(f: &[i64], g: &[i64]) -> (s: InterlaceStep)
    requires
        f.len() < usize::MAX - 1,
    ensures
        ({
            let tf = trimmed(f@);
            let tg = trimmed(g@);
            if tf == seq![0i64] {
                if tg == seq![0i64] {
                    s == InterlaceStep::Decided(true)
                } else {
                    s matches InterlaceStep::Ask(a, b) && a@ == Seq::<i64>::empty() && b@ == tg
                }
            } else if tg == seq![0i64] {
                s == InterlaceStep::Decided(true)
            } else if tg.len() == tf.len() + 1 {
                s matches InterlaceStep::Ask(a, b) && a@ == tf && b@ == tg
            } else if tg.len() == tf.len() {
                s matches InterlaceStep::Ask(a, b) && a@ == tg && b@ == seq![0i64] + tf
            } else {
                s == InterlaceStep::Decided(false)
            }
        }),
{
    let tf = trim(vstd::slice::slice_to_vec(f));
    let tg = trim(vstd::slice::slice_to_vec(g));
    let f_zero = tf.len() == 1 && tf[0] == 0;
    let g_zero = tg.len() == 1 && tg[0] == 0;
    assert(f_zero == (tf@ == seq![0i64])) by {
        if tf@ == seq![0i64] {
            assert(tf@[0] == 0);
        }
        if f_zero {
            assert(tf@ =~= seq![0i64]);
        }
    }
    assert(g_zero == (tg@ == seq![0i64])) by {
        if tg@ == seq![0i64] {
            assert(tg@[0] == 0);
        }
        if g_zero {
            assert(tg@ =~= seq![0i64]);
        }
    }
    if f_zero {
        if g_zero {
            return InterlaceStep::Decided(true);
        }
        return InterlaceStep::Ask(Vec::new(), tg);
    }
    if g_zero {
        return InterlaceStep::Decided(true);
    }
    proof {
        if f.len() > 0 {
            lemma_strip(f@);
        }
    }
    let df = poly_degree(&tf);
    let dg = poly_degree(&tg);
    assert(df == tf.len() - 1) by {
        if df < tf.len() - 1 {
            assert(tf@[tf.len() - 1] == 0);
            assert(tf.len() == 1 || tf@.last() != 0);
        }
    }
    assert(dg == tg.len() - 1) by {
        if dg < tg.len() - 1 {
            assert(tg@[tg.len() - 1] == 0);
            assert(tg.len() == 1 || tg@.last() != 0);
        }
    }
    if dg == df + 1 {
        InterlaceStep::Ask(tf, tg)
    } else if dg == df {
        let shifted = poly_mul_t(&tf);
        proof {
            let sh = seq_shift(tf@, 1);
            assert(sh =~= seq![0i64] + tf@) by {
                assert forall|k: int| 0 <= k < sh.len() implies sh[k] == (seq![0i64] + tf@)[k] by {
                    assert(coef(sh, k) == coef(tf@, k - 1));
                }
            }
            assert(sh.len() > 1 && sh.last() != 0) by {
                assert(tf.len() == 1 ==> tf@[0] != 0);
            }
        }
        InterlaceStep::Ask(tg, shifted)
    } else {
        InterlaceStep::Decided(false)
    }
}

} // verus!
