//! Descent sets of permutations of `[n]`, stored as bitmasks: position `i`
//! (1-indexed, `1 <= i <= n-1`) is in the set when bit `i-1` is set.
//!
//! Inserting the maximum `n` into a permutation of `[n-1]` at position `p`
//! produces a permutation with a prescribed descent set `S` exactly when `p`
//! is a *valid position* of `S` and the source permutation has one of the two
//! *source descent sets* of `(S, p)`; see [`lemma_insert_max_descent_set`].
use vstd::prelude::*;

verus! {

/// Bit `i` (0-indexed) of `mask`.
pub open spec fn bit(mask: u64, i: int) -> bool {
    0 <= i < 64 && (mask >> (i as u64)) & 1u64 == 1u64
}

/// Position `pos` (1-indexed) belongs to the set encoded by `mask`.
pub open spec fn in_set(mask: u64, pos: int) -> bool {
    bit(mask, pos - 1)
}

/// `p` is a valid position for inserting `n` with target descent set `s`:
/// the left end of a run of descents (`p in S`, `p-1 notin S`), or `p = n`
/// when `n-1 notin S`.
pub open spec fn is_valid_position(s: u64, n: int, p: int) -> bool {
    ||| (1 <= p < n && in_set(s, p) && !in_set(s, p - 1))
    ||| (p == n && n >= 2 && !in_set(s, n - 1))
}

/// Membership of `pos` in the source descent set `S'_p` (ascent before the
/// inserted maximum) for target set `s` in `S_n`.
pub open spec fn asc_source_has(s: u64, p: int, n: int, pos: int) -> bool {
    if n <= 2 {
        false
    } else if p == n {
        in_set(s, pos)
    } else if p == 1 {
        1 <= pos && pos + 1 <= n - 1 && in_set(s, pos + 1)
    } else {
        ||| (1 <= pos <= p - 2 && in_set(s, pos))
        ||| (p <= pos && pos + 1 <= n - 1 && in_set(s, pos + 1))
    }
}

/// Membership of `pos` in `S''_p = S'_p + {p-1}` (descent before the inserted maximum).
pub open spec fn desc_source_has(s: u64, p: int, n: int, pos: int) -> bool {
    asc_source_has(s, p, n, pos) || pos == p - 1
}

/// All bits of `mask` lie at positions `1..=m`.
pub open spec fn within(mask: u64, m: int) -> bool {
    forall|pos: int| #[trigger] in_set(mask, pos) ==> 1 <= pos <= m
}

/// Strictly increasing sequence.
pub open spec fn increasing(s: Seq<u8>) -> bool {
    forall|i: int, j: int| 0 <= i < j < s.len() ==> s[i] < s[j]
}

proof fn lemma_bit_or(x: u64, k: u64, b: u64) by (bit_vector)
    requires
        k < 64,
        b < 64,
    ensures
        ((x | (1u64 << k)) >> b) & 1u64 == if b == k {
            1u64
        } else {
            (x >> b) & 1u64
        },
{
}

proof fn lemma_bit_zero(b: u64) by (bit_vector)
    requires
        b < 64,
    ensures
        (0u64 >> b) & 1u64 == 0u64,
{
}

proof fn lemma_bit_and_not(x: u64, k: u64, b: u64) by (bit_vector)
    requires
        k < 64,
        b < 64,
    ensures
        ((x & !(1u64 << k)) >> b) & 1u64 == if b == k {
            0u64
        } else {
            (x >> b) & 1u64
        },
{
}

proof fn lemma_bit_and_mask(x: u64, k: u64) by (bit_vector)
    requires
        k < 64,
    ensures
        (x & (1u64 << k) != 0u64) == ((x >> k) & 1u64 == 1u64),
{
}

/// Whether bit `i` of `mask` is set.
pub fn bit_at(mask: u64, i: u8) -> (b: bool)
    requires
        i < 64,
    ensures
        b == bit(mask, i as int),
{
    (mask >> (i as u64)) & 1 == 1
}

/// Valid insertion positions `P(S)` of the maximum `n` for descent set `s` in `S_n`,
/// in increasing order.
pub fn valid_positions(s_mask: u64, n: u8) -> (positions: Vec<u8>)
    requires
        n <= 65,
    ensures
        increasing(positions@),
        forall|i: int|
            0 <= i < positions.len() ==> is_valid_position(s_mask, n as int, #[trigger] positions@[i] as int),
        forall|p: int| is_valid_position(s_mask, n as int, p) ==> positions@.contains(p as u8),
{
    let mut positions: Vec<u8> = Vec::new();
    let mut p: u8 = 1;
    while p < n
        invariant
            1 <= p,
            p <= n || n == 0,
            n <= 65,
            increasing(positions@),
            forall|i: int| 0 <= i < positions.len() ==> #[trigger] positions@[i] < p,
            forall|i: int|
                0 <= i < positions.len() ==> is_valid_position(s_mask, n as int, #[trigger] positions@[i] as int),
            forall|q: int| 1 <= q < p && is_valid_position(s_mask, n as int, q) ==> positions@.contains(q as u8),
        decreases n - p,
    {
        let in_s = bit_at(s_mask, p - 1);
        let prev_in_s = p >= 2 && bit_at(s_mask, p - 2);
        if in_s && !prev_in_s {
            let ghost before = positions@;
            positions.push(p);
            proof {
                assert forall|q: int| 1 <= q < p + 1 && is_valid_position(s_mask, n as int, q) implies positions@.contains(q as u8) by {
                    if q < p {
                        assert(before.contains(q as u8));
                        let k = choose|k: int| 0 <= k < before.len() && before[k] == q as u8;
                        assert(positions@[k] == q as u8);
                    } else {
                        assert(positions@[positions.len() - 1] == p);
                    }
                }
            }
        } else {
            proof {
                assert forall|q: int| 1 <= q < p + 1 && is_valid_position(s_mask, n as int, q) implies positions@.contains(q as u8) by {
                    if q == p {
                        assert(!is_valid_position(s_mask, n as int, q));
                    }
                }
            }
        }
        p += 1;
    }
    if n >= 2 && !bit_at(s_mask, n - 2) {
        let ghost before = positions@;
        positions.push(n);
        proof {
            assert forall|q: int| is_valid_position(s_mask, n as int, q) implies positions@.contains(q as u8) by {
                if q < n {
                    assert(before.contains(q as u8));
                    let k = choose|k: int| 0 <= k < before.len() && before[k] == q as u8;
                    assert(positions@[k] == q as u8);
                } else {
                    assert(positions@[positions.len() - 1] == n);
                }
            }
        }
    }
    positions
}

/// The alternating descent set `{2, 4, 6, ...}` of `S_n` (even positions below `n`).
pub fn alternating_mask(n: u8) -> (m: u64)
    requires
        n <= 65,
    ensures
        forall|pos: int| 1 <= pos <= 64 ==> (in_set(m, pos) <==> (pos < n && pos % 2 == 0)),
{
    let mut m: u64 = 0;
    proof {
        assert forall|b: int| 0 <= b < 64 implies !bit(m, b) by {
            lemma_bit_zero(b as u64);
        }
    }
    let mut i: u8 = 1;
    while i < n
        invariant
            1 <= i,
            i <= n || (n == 0 && i == 1),
            n <= 65,
            forall|pos: int| 1 <= pos <= 64 ==> (in_set(m, pos) <==> (pos < i && pos % 2 == 0)),
        decreases n - i,
    {
        if i % 2 == 0 {
            let ghost before = m;
            m = m | (1u64 << ((i - 1) as u64));
            proof {
                assert forall|pos: int| 1 <= pos <= 64 implies (in_set(m, pos) <==> (pos < i + 1 && pos % 2 == 0)) by {
                    lemma_bit_or(before, (i - 1) as u64, (pos - 1) as u64);
                    assert(in_set(before, pos) <==> (pos < i && pos % 2 == 0));
                }
            }
        }
        i += 1;
    }
    assert forall|pos: int| 1 <= pos <= 64 implies (in_set(m, pos) <==> (pos < n && pos % 2 == 0)) by {
        assert(in_set(m, pos) <==> (pos < i && pos % 2 == 0));
    }
    m
}

/// `pos` lies in the alternating descent set `{2, 4, 6, ...}` of `S_n`.
pub open spec fn in_alternating(n: int, pos: int) -> bool {
    1 <= pos < n && pos % 2 == 0
}

/// [`is_valid_position`] for the alternating descent set of `S_n`.
pub open spec fn is_alternating_valid_position(n: int, p: int) -> bool {
    ||| (1 <= p < n && in_alternating(n, p) && !in_alternating(n, p - 1))
    ||| (p == n && n >= 2 && !in_alternating(n, n - 1))
}

/// Valid insertion positions of the maximum for the alternating descent set
/// `{2, 4, 6, ...}` of `S_n`, in increasing order.
pub fn valid_positions_alt(n: u8) -> (positions: Vec<u8>)
    requires
        n <= 65,
    ensures
        increasing(positions@),
        forall|i: int|
            0 <= i < positions.len() ==> is_alternating_valid_position(n as int, #[trigger] positions@[i] as int),
        forall|p: int| is_alternating_valid_position(n as int, p) ==> positions@.contains(p as u8),
{
    let s = alternating_mask(n);
    let positions = valid_positions(s, n);
    proof {
        assert forall|p: int| 1 <= p <= 65 implies (is_valid_position(s, n as int, p) <==> is_alternating_valid_position(n as int, p)) by {
            assert(!in_set(s, 0));
            assert(!in_set(s, 65));
            if 1 <= p <= 64 {
                assert(in_set(s, p) <==> in_alternating(n as int, p));
            }
            if 2 <= p <= 65 {
                assert(in_set(s, p - 1) <==> in_alternating(n as int, p - 1));
            }
            if n >= 2 {
                assert(in_set(s, n - 1) <==> in_alternating(n as int, n - 1));
            }
        }
        assert forall|i: int| 0 <= i < positions.len() implies is_alternating_valid_position(n as int, #[trigger] positions@[i] as int) by {
            assert(is_valid_position(s, n as int, positions@[i] as int));
        }
        assert forall|p: int| is_alternating_valid_position(n as int, p) implies positions@.contains(p as u8) by {
            assert(is_valid_position(s, n as int, p));
        }
    }
    positions
}

/// Source descent set `S'_p`: descent set of the permutations of `[n-1]`
/// that give a permutation with descent set `s` when `n` is inserted at
/// position `p` right after an ascent.
pub fn source_asc(s_mask: u64, p: u8, n: u8) -> (sp: u64)
    requires
        n <= 2 || (1 <= p <= 66 && n <= 65),
    ensures
        n > 2 && p == n ==> sp == s_mask,
        forall|pos: int| 1 <= pos <= 64 ==> (in_set(sp, pos) <==> asc_source_has(s_mask, p as int, n as int, pos)),
{
    if n <= 2 {
        proof {
            assert forall|pos: int| 1 <= pos <= 64 implies !in_set(0u64, pos) by {
                lemma_bit_zero((pos - 1) as u64);
            }
        }
        return 0;
    }
    if p == n {
        return s_mask;
    }
    let mut sp: u64 = 0;
    proof {
        assert forall|b: int| 0 <= b < 64 implies !bit(sp, b) by {
            lemma_bit_zero(b as u64);
        }
    }
    if p == 1 {
        let mut j: u8 = 2;
        while j < n
            invariant
                2 <= j <= n,
                n <= 65,
                p == 1,
                forall|pos: int|
                    1 <= pos <= 64 ==> (in_set(sp, pos) <==> (1 <= pos && pos + 1 < j && in_set(s_mask, pos + 1))),
            decreases n - j,
        {
            if bit_at(s_mask, j - 1) {
                let ghost before = sp;
                sp = sp | (1u64 << ((j - 2) as u64));
                proof {
                    assert forall|pos: int| 1 <= pos <= 64 implies (in_set(sp, pos) <==> (1 <= pos && pos + 1 < j + 1 && in_set(s_mask, pos + 1))) by {
                        lemma_bit_or(before, (j - 2) as u64, (pos - 1) as u64);
                        assert(in_set(before, pos) <==> (1 <= pos && pos + 1 < j && in_set(s_mask, pos + 1)));
                    }
                }
            }
            j += 1;
        }
        assert forall|pos: int| 1 <= pos <= 64 implies (in_set(sp, pos) <==> asc_source_has(s_mask, p as int, n as int, pos)) by {
            assert(in_set(sp, pos) <==> (1 <= pos && pos + 1 < j && in_set(s_mask, pos + 1)));
        }
    } else {
        let top: u8 = if p >= 2 {
            p - 2
        } else {
            0
        };
        let mut pos: u8 = 1;
        while pos <= top
            invariant
                1 <= pos <= top + 1,
                top <= 64,
                top as int == p - 2,
                2 <= p <= 66,
                forall|q: int| 1 <= q <= 64 ==> (in_set(sp, q) <==> (1 <= q < pos && in_set(s_mask, q))),
            decreases top + 1 - pos,
        {
            if bit_at(s_mask, pos - 1) {
                let ghost before = sp;
                sp = sp | (1u64 << ((pos - 1) as u64));
                proof {
                    assert forall|q: int| 1 <= q <= 64 implies (in_set(sp, q) <==> (1 <= q < pos + 1 && in_set(s_mask, q))) by {
                        lemma_bit_or(before, (pos - 1) as u64, (q - 1) as u64);
                        assert(in_set(before, q) <==> (1 <= q < pos && in_set(s_mask, q)));
                    }
                }
            }
            pos += 1;
        }
        let mut j: u8 = p + 1;
        while j < n
            invariant
                p + 1 <= j,
                j <= n || p + 1 > n,
                p + 1 > n ==> j == p + 1,
                n <= 65,
                2 <= p,
                forall|q: int|
                    1 <= q <= 64 ==> (in_set(sp, q) <==> ((1 <= q <= p - 2 && in_set(s_mask, q)) || (p <= q
                        && q + 1 < j && in_set(s_mask, q + 1)))),
            decreases n - j,
        {
            if bit_at(s_mask, j - 1) {
                let ghost before = sp;
                sp = sp | (1u64 << ((j - 2) as u64));
                proof {
                    assert forall|q: int| 1 <= q <= 64 implies (in_set(sp, q) <==> ((1 <= q <= p - 2 && in_set(s_mask, q)) || (p <= q && q + 1 < j + 1 && in_set(s_mask, q + 1)))) by {
                        lemma_bit_or(before, (j - 2) as u64, (q - 1) as u64);
                        assert(in_set(before, q) <==> ((1 <= q <= p - 2 && in_set(s_mask, q)) || (p <= q && q + 1 < j && in_set(s_mask, q + 1))));
                    }
                }
            }
            j += 1;
        }
        assert forall|pos: int| 1 <= pos <= 64 implies (in_set(sp, pos) <==> asc_source_has(s_mask, p as int, n as int, pos)) by {
            assert(in_set(sp, pos) <==> ((1 <= pos <= p - 2 && in_set(s_mask, pos)) || (p <= pos && pos + 1 < j && in_set(s_mask, pos + 1))));
        }
    }
    sp
}

/// Same set as [`source_asc`], under the name used by the first experiments.
pub fn source_descent_set(s_mask: u64, p: u8, n: u8) -> (sp: u64)
    requires
        n <= 2 || (1 <= p <= 66 && n <= 65),
    ensures
        n > 2 && p == n ==> sp == s_mask,
        forall|pos: int| 1 <= pos <= 64 ==> (in_set(sp, pos) <==> asc_source_has(s_mask, p as int, n as int, pos)),
{
    source_asc(s_mask, p, n)
}

/// Source descent set `S''_p = S'_p + {p-1}` (a descent right before the inserted
/// maximum); only defined for interior positions `1 < p < n`.
pub fn source_desc(s_mask: u64, p: u8, n: u8) -> (sp: Option<u64>)
    requires
        n <= 65,
    ensures
        (p <= 1 || p >= n) <==> sp.is_none(),
        sp.is_some() ==> forall|pos: int|
            1 <= pos <= 64 ==> (in_set(sp.unwrap(), pos) <==> desc_source_has(s_mask, p as int, n as int, pos)),
{
    if p <= 1 || p >= n {
        return None;
    }
    let a = source_asc(s_mask, p, n);
    let r = a | (1u64 << ((p - 2) as u64));
    proof {
        assert forall|pos: int| 1 <= pos <= 64 implies (in_set(r, pos) <==> desc_source_has(s_mask, p as int, n as int, pos)) by {
            lemma_bit_or(a, (p - 2) as u64, (pos - 1) as u64);
            assert(in_set(a, pos) <==> asc_source_has(s_mask, p as int, n as int, pos));
        }
    }
    Some(r)
}

/// Same set as [`source_desc`], under the name used by the determinant experiment.
pub fn source_descent_set_2(s_mask: u64, p: u8, n: u8) -> (sp: Option<u64>)
    requires
        n <= 65,
    ensures
        (p <= 1 || p >= n) <==> sp.is_none(),
        sp.is_some() ==> forall|pos: int|
            1 <= pos <= 64 ==> (in_set(sp.unwrap(), pos) <==> desc_source_has(s_mask, p as int, n as int, pos)),
{
    source_desc(s_mask, p, n)
}

/// The set with position `i` removed.
pub fn remove_element(mask: u64, i: u8) -> (r: u64)
    requires
        1 <= i <= 64,
    ensures
        r == mask & !(1u64 << ((i - 1) as u64)),
        forall|pos: int| 1 <= pos <= 64 ==> (in_set(r, pos) <==> (in_set(mask, pos) && pos != i)),
{
    let r = mask & !(1u64 << ((i - 1) as u64));
    proof {
        assert forall|pos: int| 1 <= pos <= 64 implies (in_set(r, pos) <==> (in_set(mask, pos) && pos != i)) by {
            lemma_bit_and_not(mask, (i - 1) as u64, (pos - 1) as u64);
        }
    }
    r
}

/// Number of set bits among bits `0..k`.
pub open spec fn bits_below(mask: u64, k: int) -> nat
    decreases k,
{
    if k <= 0 {
        0
    } else {
        bits_below(mask, k - 1) + if bit(mask, k - 1) {
            1nat
        } else {
            0nat
        }
    }
}

/// Size of the set (number of set bits).
pub fn popcount(mask: u64) -> (c: u32)
    ensures
        c == bits_below(mask, 64),
{
    let mut c: u32 = 0;
    let mut i: u8 = 0;
    while i < 64
        invariant
            i <= 64,
            c == bits_below(mask, i as int),
            c <= i,
        decreases 64 - i,
    {
        if bit_at(mask, i) {
            c += 1;
        }
        i += 1;
    }
    c
}

/// Elements of the set below `k`, in increasing order.
pub open spec fn elements_below(mask: u64, k: int) -> Seq<u8>
    decreases k,
{
    if k <= 1 {
        Seq::empty()
    } else if in_set(mask, k - 1) {
        elements_below(mask, k - 1).push((k - 1) as u8)
    } else {
        elements_below(mask, k - 1)
    }
}

/// Elements of the set within `[1, n-1]`, in increasing order.
pub fn descent_set_elements(mask: u64, n: u8) -> (elems: Vec<u8>)
    requires
        n <= 65,
    ensures
        elems@ == elements_below(mask, n as int),
        increasing(elems@),
        forall|k: int|
            0 <= k < elems.len() ==> 1 <= #[trigger] elems@[k] < n && in_set(mask, elems@[k] as int),
        forall|pos: int| 1 <= pos < n && in_set(mask, pos) ==> elems@.contains(pos as u8),
{
    let mut elems: Vec<u8> = Vec::new();
    let mut i: u8 = 1;
    while i < n
        invariant
            1 <= i,
            i <= n || (n == 0 && i == 1),
            n <= 65,
            elems@ == elements_below(mask, i as int),
            increasing(elems@),
            forall|k: int| 0 <= k < elems.len() ==> #[trigger] elems@[k] < i,
            forall|k: int|
                0 <= k < elems.len() ==> 1 <= #[trigger] elems@[k] < n && in_set(mask, elems@[k] as int),
            forall|pos: int| 1 <= pos < i && in_set(mask, pos) ==> elems@.contains(pos as u8),
        decreases n - i,
    {
        proof {
            lemma_bit_and_mask(mask, (i - 1) as u64);
        }
        if mask & (1u64 << ((i - 1) as u64)) != 0 {
            let ghost before = elems@;
            elems.push(i);
            proof {
                assert forall|pos: int| 1 <= pos < i + 1 && in_set(mask, pos) implies elems@.contains(pos as u8) by {
                    if pos < i {
                        let k = choose|k: int| 0 <= k < before.len() && before[k] == pos as u8;
                        assert(elems@[k] == pos as u8);
                    } else {
                        assert(elems@[elems.len() - 1] == i);
                    }
                }
            }
        }
        i += 1;
    }
    elems
}

/// Positions `i` in `[1, n-1]` where the two sets differ, with the membership
/// of `i` in each, in increasing order of `i`.
pub fn diff_positions(a: u64, b: u64, n: u8) -> (diffs: Vec<(u8, bool, bool)>)
    requires
        n <= 65,
    ensures
        forall|k: int|
            0 <= k < diffs.len() ==> {
                let (i, in_a, in_b) = #[trigger] diffs@[k];
                &&& 1 <= i < n
                &&& in_a == in_set(a, i as int)
                &&& in_b == in_set(b, i as int)
                &&& in_a != in_b
            },
        forall|k1: int, k2: int| 0 <= k1 < k2 < diffs.len() ==> diffs@[k1].0 < diffs@[k2].0,
        forall|pos: int|
            1 <= pos < n && in_set(a, pos) != in_set(b, pos) ==> exists|k: int|
                0 <= k < diffs.len() && #[trigger] diffs@[k].0 == pos,
{
    let mut diffs: Vec<(u8, bool, bool)> = Vec::new();
    let mut i: u8 = 1;
    while i < n
        invariant
            1 <= i,
            i <= n || n == 0,
            n <= 65,
            forall|k: int| 0 <= k < diffs.len() ==> #[trigger] diffs@[k].0 < i,
            forall|k: int|
                0 <= k < diffs.len() ==> {
                    let (i, in_a, in_b) = #[trigger] diffs@[k];
                    &&& 1 <= i < n
                    &&& in_a == in_set(a, i as int)
                    &&& in_b == in_set(b, i as int)
                    &&& in_a != in_b
                },
            forall|k1: int, k2: int| 0 <= k1 < k2 < diffs.len() ==> diffs@[k1].0 < diffs@[k2].0,
            forall|pos: int|
                1 <= pos < i && in_set(a, pos) != in_set(b, pos) ==> exists|k: int|
                    0 <= k < diffs.len() && #[trigger] diffs@[k].0 == pos,
        decreases n - i,
    {
        let in_a = bit_at(a, i - 1);
        let in_b = bit_at(b, i - 1);
        if in_a != in_b {
            let ghost before = diffs@;
            diffs.push((i, in_a, in_b));
            proof {
                assert forall|pos: int| 1 <= pos < i + 1 && in_set(a, pos) != in_set(b, pos) implies exists|k: int|
                    0 <= k < diffs.len() && #[trigger] diffs@[k].0 == pos by {
                    if pos < i {
                        let k = choose|k: int| 0 <= k < before.len() && #[trigger] before[k].0 == pos;
                        assert(diffs@[k].0 == pos);
                    } else {
                        assert(diffs@[diffs.len() - 1].0 == pos);
                    }
                }
            }
        }
        i += 1;
    }
    diffs
}


/// Between the end `r` of a descent run and the next valid position `p_b`, `S` is empty.
proof fn lemma_gap_after_run(s: u64, n: int, p_a: int, p_b: int, r: int, j: int)
    requires
        p_a < p_b <= n,
        p_a <= r,
        !in_set(s, r + 1),
        forall|q: int| p_a < q < p_b ==> !is_valid_position(s, n, q),
        r + 1 <= j <= p_b - 1,
    ensures
        !in_set(s, j),
    decreases j - r,
{
    if j > r + 1 {
        lemma_gap_after_run(s, n, p_a, p_b, r, j - 1);
        if in_set(s, j) {
            assert(is_valid_position(s, n, j));
        }
    }
}

/// For consecutive valid positions `p_a < p_b` of `S` in `S_n`, with `r` the
/// end of the descent run of `S` starting at `p_a`, the source sets are
/// related by moving that endpoint: `S'_{p_b} = (S'_{p_a} - {p_b - 1}) + {r}`.
pub proof fn lemma_consecutive_sources_move_endpoint(s: u64, n: int, p_a: int, p_b: int, r: int)
    requires
        3 <= n <= 65,
        within(s, n - 1),
        is_valid_position(s, n, p_a),
        is_valid_position(s, n, p_b),
        p_a < p_b,
        forall|q: int| p_a < q < p_b ==> !is_valid_position(s, n, q),
        p_a <= r,
        forall|j: int| p_a <= j <= r ==> in_set(s, j),
        !in_set(s, r + 1),
    ensures
        forall|pos: int|
            asc_source_has(s, p_b, n, pos) <==> ((asc_source_has(s, p_a, n, pos) && pos != p_b - 1) || pos == r),
{
    assert(r <= p_b - 2) by {
        if r >= p_b - 1 {
            assert(in_set(s, p_b - 1));
        }
    }
    assert forall|pos: int|
        asc_source_has(s, p_b, n, pos) <==> ((asc_source_has(s, p_a, n, pos) && pos != p_b - 1) || pos == r) by {
        if r + 1 <= pos && pos <= p_b - 1 {
            lemma_gap_after_run(s, n, p_a, p_b, r, pos);
        }
        if r + 2 <= pos + 1 && pos + 1 <= p_b - 1 {
            lemma_gap_after_run(s, n, p_a, p_b, r, pos + 1);
        }
        if p_a <= pos && pos <= r {
            assert(in_set(s, pos));
        }
        if p_a <= pos + 1 && pos + 1 <= r {
            assert(in_set(s, pos + 1));
        }
        if pos >= n {
            assert(!in_set(s, pos));
        }
        if pos + 1 >= n {
            assert(!in_set(s, pos + 1));
        }
    }
}

} // verus!
