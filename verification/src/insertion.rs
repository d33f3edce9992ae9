//! Inserting the maximum value into a permutation, and the local quantities
//! that track how the swaps statistic changes under that insertion.
use vstd::prelude::*;
use crate::descent::{in_set, is_valid_position, asc_source_has, desc_source_has, within};
use crate::bivariate::{index_of, has_value, first_index_of};

verus! {

/// Position `i` (1-indexed) is a descent of `s`: `s(i) > s(i+1)`.
pub open spec fn des_at(s: Seq<u8>, i: int) -> bool {
    1 <= i < s.len() && s[i - 1] > s[i]
}

/// `pi` with `v` inserted so that it lands at 1-indexed position `p`.
pub open spec fn insert_at(pi: Seq<u8>, p: int, v: u8) -> Seq<u8> {
    pi.take(p - 1) + seq![v] + pi.skip(p - 1)
}

/// The descent set of `s` is exactly the set encoded by `mask`, on positions `1..len-1`.
pub open spec fn has_descent_set(s: Seq<u8>, mask: u64) -> bool {
    forall|i: int| 1 <= i < s.len() ==> (des_at(s, i) <==> #[trigger] in_set(mask, i))
}

/// Index of the first occurrence of `v` in `s`.
pub open spec fn first_index(s: Seq<u8>, v: u8, i: int) -> bool {
    0 <= i < s.len() && s[i] == v && forall|j: int| 0 <= j < i ==> s[j] != v
}

/// Entry of `insert_at(pi, p, v)` at index `k`.
pub proof fn lemma_insert_index(pi: Seq<u8>, p: int, v: u8, k: int)
    requires
        1 <= p <= pi.len() + 1,
        0 <= k <= pi.len(),
    ensures
        insert_at(pi, p, v).len() == pi.len() + 1,
        k < p - 1 ==> insert_at(pi, p, v)[k] == pi[k],
        k == p - 1 ==> insert_at(pi, p, v)[k] == v,
        k > p - 1 ==> insert_at(pi, p, v)[k] == pi[k - 1],
{
    let a = pi.take(p - 1);
    let b = seq![v];
    let c = pi.skip(p - 1);
    assert((a + b + c).len() == pi.len() + 1);
    if k < p - 1 {
        assert((a + b + c)[k] == a[k]);
    } else if k == p - 1 {
        assert((a + b + c)[k] == b[0]);
    } else {
        assert((a + b + c)[k] == c[k - p]);
    }
}

/// Descents of `pi` with the maximum `n = len + 1` inserted at position `p`:
/// unchanged before `p-1`, an ascent at `p-1`, a descent at `p`, and shifted
/// by one after `p`.
pub proof fn lemma_insert_max_descents(pi: Seq<u8>, p: int, n: u8, i: int)
    requires
        n as int == pi.len() + 1,
        forall|k: int| 0 <= k < pi.len() ==> pi[k] < n,
        1 <= p <= n,
        1 <= i < n,
    ensures
        i <= p - 2 ==> (des_at(insert_at(pi, p, n), i) <==> des_at(pi, i)),
        i == p - 1 ==> !des_at(insert_at(pi, p, n), i),
        i == p ==> des_at(insert_at(pi, p, n), i),
        i >= p + 1 ==> (des_at(insert_at(pi, p, n), i) <==> des_at(pi, i - 1)),
{
    lemma_insert_index(pi, p, n, i - 1);
    lemma_insert_index(pi, p, n, i);
}

/// Inserting the maximum `n` at position `p` into a sequence of smaller
/// values yields descent set `S` exactly when `p` is a valid position of `S`
/// and the source has descent set `S'_p`, or `S''_p` for an interior `p`.
pub proof fn lemma_insert_max_descent_set(pi: Seq<u8>, p: int, s: u64)
    requires
        2 <= pi.len() + 1 <= 65,
        forall|k: int| 0 <= k < pi.len() ==> pi[k] < pi.len() + 1,
        1 <= p <= pi.len() + 1,
        within(s, pi.len() as int),
    ensures
        has_descent_set(insert_at(pi, p, (pi.len() + 1) as u8), s) <==> (is_valid_position(
            s,
            pi.len() + 1 as int,
            p,
        ) && ((forall|j: int|
            1 <= j <= pi.len() - 1 ==> (des_at(pi, j) <==> asc_source_has(s, p, pi.len() + 1 as int, j)))
            || (1 < p < pi.len() + 1 && forall|j: int|
            1 <= j <= pi.len() - 1 ==> (des_at(pi, j) <==> desc_source_has(
                s,
                p,
                pi.len() + 1 as int,
                j,
            ))))),
{
    let n = (pi.len() + 1) as u8;
    let ni = n as int;
    let sigma = insert_at(pi, p, n);
    assert(sigma.len() == ni) by {
        lemma_insert_index(pi, p, n, 0);
    }
    assert forall|i: int| 1 <= i < ni implies {
        &&& i <= p - 2 ==> (des_at(sigma, i) <==> des_at(pi, i))
        &&& i == p - 1 ==> !des_at(sigma, i)
        &&& i == p ==> des_at(sigma, i)
        &&& i >= p + 1 ==> (des_at(sigma, i) <==> des_at(pi, i - 1))
    } by {
        lemma_insert_max_descents(pi, p, n, i);
    }
    if has_descent_set(sigma, s) {
        assert(is_valid_position(s, ni, p)) by {
            if p < ni {
                assert(in_set(s, p));
                if p >= 2 {
                    assert(!in_set(s, p - 1));
                }
            } else {
                assert(!in_set(s, ni - 1));
            }
        }
        if p < ni && p > 1 && des_at(pi, p - 1) {
            assert forall|j: int| 1 <= j <= ni - 2 implies (des_at(pi, j) <==> desc_source_has(s, p, ni, j)) by {
                if j <= p - 2 {
                    assert(in_set(s, j) <==> des_at(sigma, j));
                } else if j >= p {
                    assert(in_set(s, j + 1) <==> des_at(sigma, j + 1));
                }
            }
        } else {
            assert forall|j: int| 1 <= j <= ni - 2 implies (des_at(pi, j) <==> asc_source_has(s, p, ni, j)) by {
                if p == ni {
                    assert(in_set(s, j) <==> des_at(sigma, j));
                } else if p == 1 {
                    assert(in_set(s, j + 1) <==> des_at(sigma, j + 1));
                } else if j <= p - 2 {
                    assert(in_set(s, j) <==> des_at(sigma, j));
                } else if j >= p {
                    assert(in_set(s, j + 1) <==> des_at(sigma, j + 1));
                }
            }
        }
    }
    if is_valid_position(s, ni, p) && ((forall|j: int|
        1 <= j <= ni - 2 ==> (des_at(pi, j) <==> asc_source_has(s, p, ni, j))) || (1 < p < ni
        && forall|j: int| 1 <= j <= ni - 2 ==> (des_at(pi, j) <==> desc_source_has(s, p, ni, j)))) {
        let asc = forall|j: int| 1 <= j <= ni - 2 ==> (des_at(pi, j) <==> asc_source_has(s, p, ni, j));
        assert forall|i: int| 1 <= i < sigma.len() implies (des_at(sigma, i) <==> #[trigger] in_set(s, i)) by {
            if i <= p - 2 {
                if asc {
                    assert(des_at(pi, i) <==> asc_source_has(s, p, ni, i));
                } else {
                    assert(des_at(pi, i) <==> desc_source_has(s, p, ni, i));
                }
            } else if i == p - 1 {
                assert(!in_set(s, p - 1));
            } else if i == p {
                assert(in_set(s, p));
            } else {
                if asc {
                    assert(des_at(pi, i - 1) <==> asc_source_has(s, p, ni, i - 1));
                } else {
                    assert(des_at(pi, i - 1) <==> desc_source_has(s, p, ni, i - 1));
                }
            }
        }
    }
}

/// Insert the value `n = pi.len() + 1` so that it lands at 1-indexed position `p`.
pub fn insert(pi: &[u8], p: usize) -> (sigma: Vec<u8>)
    requires
        1 <= p <= pi.len() + 1,
        pi.len() % 256 != 255,
    ensures
        sigma@ == insert_at(pi@, p as int, ((pi.len() % 256) + 1) as u8),
{
    let n: u8 = (pi.len() % 256) as u8 + 1;
    let mut sigma: Vec<u8> = Vec::new();
    let mut i: usize = 0;
    while i < p - 1
        invariant
            1 <= p <= pi.len() + 1,
            i <= p - 1,
            sigma@ == pi@.take(i as int),
        decreases p - 1 - i,
    {
        sigma.push(pi[i]);
        assert(pi@.take(i + 1) == pi@.take(i as int).push(pi@[i as int]));
        i += 1;
    }
    sigma.push(n);
    let ghost mid = sigma@;
    let mut i: usize = p - 1;
    while i < pi.len()
        invariant
            1 <= p <= pi.len() + 1,
            p - 1 <= i <= pi.len(),
            mid == pi@.take(p - 1) + seq![n],
            sigma@ == mid + pi@.subrange(p - 1, i as int),
        decreases pi.len() - i,
    {
        sigma.push(pi[i]);
        assert(pi@.subrange(p - 1, i + 1) == pi@.subrange(p - 1, i as int).push(pi@[i as int]));
        i += 1;
    }
    assert(pi@.subrange(p - 1, pi.len() as int) == pi@.skip(p - 1));
    sigma
}

/// Inserting `n` at position `p` (strictly inside) separates a consecutive
/// ascending pair `pi(p-1), pi(p-1) + 1`.
pub open spec fn breaks_consecutive_pair(pi: Seq<u8>, p: int) -> bool {
    let n = (pi.len() % 256) + 1;
    1 < p < n && pi[p - 2] + 1 == pi[p - 1]
}

/// `epsilon_1(pi, p)`: does inserting the maximum at position `p` break the
/// consecutive pair `(pi(p-1), pi(p))` with `pi(p) = pi(p-1) + 1`?
pub fn epsilon1(pi: &[u8], p: u8) -> (b: bool)
    requires
        pi.len() % 256 != 255,
        1 < p < (pi.len() % 256) + 1 ==> pi@[p - 2] < 255,
    ensures
        b == breaks_consecutive_pair(pi@, p as int),
{
    let n: u8 = (pi.len() % 256) as u8 + 1;
    if p <= 1 || p >= n {
        return false;
    }
    pi[(p - 2) as usize] + 1 == pi[(p - 1) as usize]
}

/// `epsilon_2(p, q)` as a count: `1` when the previous maximum (at position `q`
/// of the source) lies at least two places left of the insertion position `p`.
pub fn eps2(p: u8, q: u8) -> (e: usize)
    ensures
        e == if p >= 2 && q <= p - 2 {
            1usize
        } else {
            0usize
        },
{
    if p >= 2 && q <= p.saturating_sub(2) {
        1
    } else {
        0
    }
}

/// `epsilon_2(p, q)` as a flag: `q < p - 1`.
pub fn epsilon2(p: u8, q: u8) -> (e: bool)
    requires
        p >= 1,
    ensures
        e == (q < p - 1),
{
    q < p - 1
}

/// 1-indexed position of the first occurrence of `val` in `pi`, as a byte.
pub fn pos_of(pi: &[u8], val: u8) -> (pos: u8)
    requires
        exists|i: int| 0 <= i < pi.len() && pi@[i] == val,
        forall|i: int| #[trigger] first_index(pi@, val, i) ==> i % 256 != 255,
    ensures
        exists|i: int| first_index(pi@, val, i) && pos == (i % 256) + 1,
{
    let mut i: usize = 0;
    while i < pi.len()
        invariant
            i <= pi.len(),
            forall|j: int| 0 <= j < i ==> pi@[j] != val,
            exists|i: int| 0 <= i < pi.len() && pi@[i] == val,
            forall|i: int| #[trigger] first_index(pi@, val, i) ==> i % 256 != 255,
        decreases pi.len() - i,
    {
        if pi[i] == val {
            assert(first_index(pi@, val, i as int));
            assert((i as int) % 256 != 255);
            return (i % 256) as u8 + 1;
        }
        i += 1;
    }
    proof {
        let k = choose|k: int| 0 <= k < pi.len() && pi@[k] == val;
        assert(pi@[k] != val);
    }
    0
}

/// Copy of `pi` with the entries at 0-indexed positions `i` and `j` exchanged.
pub fn swap_values_at(pi: &[u8], i: usize, j: usize) -> (r: Vec<u8>)
    requires
        i < pi.len(),
        j < pi.len(),
    ensures
        r@ == pi@.update(i as int, pi@[j as int]).update(j as int, pi@[i as int]),
{
    let mut r = vstd::slice::slice_to_vec(pi);
    let a = r[i];
    let b = r[j];
    r.set(i, b);
    r.set(j, a);
    r
}


/// Swap count of the permutation obtained by inserting the maximum at `p`,
/// from the source's own swap count: `epsilon_1` for breaking a consecutive
/// pair, and one more when the previous maximum (at `q`) lies left of `p - 1`.
pub open spec fn modified_swaps_spec(pi: Seq<u8>, p: u8, base_swaps: usize) -> int {
    let q = (index_of(pi, (pi.len() % 256) as u8) % 256) + 1;
    base_swaps + (if breaks_consecutive_pair(pi, p as int) {
        1int
    } else {
        0int
    }) + (if p > 1 && q < p - 1 {
        1int
    } else {
        0int
    })
}

/// The two corrections of the modified swap count. For a source `pi` of length
/// `n - 1` whose previous maximum `n - 1` first appears at index `j`: one is
/// added exactly when the maximum goes strictly inside (`1 < p < n`) between an
/// ascending pair of consecutive values `pi(p-1), pi(p-1) + 1` (a descending or
/// non-consecutive pair adds nothing), and one more exactly when `n - 1` sits at
/// least two places left of `p` (at a position `j + 1 < p - 1`).
pub proof fn lemma_modified_swaps_corrections(pi: Seq<u8>, p: u8, base: usize, j: int)
    requires
        pi.len() < 255,
        0 <= j < pi.len(),
        pi[j] as int == pi.len(),
        forall|l: int| 0 <= l < j ==> pi[l] as int != pi.len(),
    ensures
        modified_swaps_spec(pi, p, base) == base + (if 1 < p && (p as int) <= pi.len() && pi[p - 2] as int + 1
            == pi[p - 1] as int {
            1int
        } else {
            0int
        }) + (if 1 < p && j + 1 < (p as int) - 1 {
            1int
        } else {
            0int
        }),
        1 < p && (p as int) <= pi.len() && pi[p - 2] >= pi[p - 1] ==> modified_swaps_spec(pi, p, base) <= base + 1,
{
    let v = (pi.len() % 256) as u8;
    assert(first_index(pi, v, j));
    let i = index_of(pi, v);
    assert(first_index(pi, v, i));
    if i < j {
        assert(pi[i] != v);
    } else if j < i {
        assert(pi[j] != v);
    }
}

/// Modified swap count of the source `pi` (a permutation of `[n-1]`) for
/// insertion of `n` at position `p`, given the swap count `base_swaps` of `pi`.
pub fn modified_swaps(pi: &Vec<u8>, p: u8, base_swaps: usize) -> (m: usize)
    requires
        pi.len() % 256 != 255,
        1 < p < (pi.len() % 256) + 1 ==> pi@[p - 2] < 255,
        has_value(pi@, (pi.len() % 256) as u8),
        index_of(pi@, (pi.len() % 256) as u8) % 256 != 255,
        base_swaps <= usize::MAX - 2,
    ensures
        m == modified_swaps_spec(pi@, p, base_swaps),
{
    let n: u8 = (pi.len() % 256) as u8 + 1;
    let e1: usize = if epsilon1(pi.as_slice(), p) {
        1
    } else {
        0
    };
    let idx = first_index_of(pi, n - 1);
    let q: u8 = (idx % 256) as u8 + 1;
    let e2: usize = if p > 1 && q < p - 1 {
        1
    } else {
        0
    };
    base_swaps + e1 + e2
}


proof fn lemma_set_bit(x: u64, k: u64, b: u64) by (bit_vector)
    requires
        k < 64,
        b < 64,
    ensures
        ((x | (1u64 << k)) >> b) & 1u64 == if b == k {
            1u64
        } else {
            (x >> b) & 1u64
        },
{
}

proof fn lemma_no_bits(b: u64) by (bit_vector)
    requires
        b < 64,
    ensures
        (0u64 >> b) & 1u64 == 0u64,
{
}

/// Bitmask of the descents of `pi` at positions below `i`, built bit by bit.
pub open spec fn descent_mask_upto(pi: Seq<u8>, i: int) -> u64
    decreases i,
{
    if i <= 1 {
        0
    } else if des_at(pi, i - 1) {
        descent_mask_upto(pi, i - 1) | (1u64 << ((i - 2) as u64))
    } else {
        descent_mask_upto(pi, i - 1)
    }
}

/// Descent set of `pi` as a bitmask: bit `i - 1` is set when `pi(i) > pi(i+1)`.
pub fn descent_set_bitmask(pi: &[u8]) -> (mask: u64)
    requires
        pi.len() <= 65,
    ensures
        mask == descent_mask_upto(pi@, pi.len() as int),
        forall|pos: int| 1 <= pos <= 64 ==> (in_set(mask, pos) <==> des_at(pi@, pos)),
        has_descent_set(pi@, mask),
{
    let mut mask: u64 = 0;
    proof {
        assert forall|pos: int| 1 <= pos <= 64 implies !in_set(mask, pos) by {
            lemma_no_bits((pos - 1) as u64);
        }
    }
    let mut i: usize = 1;
    while i < pi.len()
        invariant
            1 <= i,
            i <= pi.len() || (pi.len() == 0 && i == 1),
            pi.len() <= 65,
            mask == descent_mask_upto(pi@, i as int),
            forall|pos: int| 1 <= pos <= 64 ==> (in_set(mask, pos) <==> (pos < i && des_at(pi@, pos))),
        decreases pi.len() - i,
    {
        if pi[i - 1] > pi[i] {
            let ghost before = mask;
            mask = mask | (1u64 << ((i - 1) as u64));
            proof {
                assert forall|pos: int| 1 <= pos <= 64 implies (in_set(mask, pos) <==> (pos < i + 1 && des_at(pi@, pos))) by {
                    lemma_set_bit(before, (i - 1) as u64, (pos - 1) as u64);
                    assert(in_set(before, pos) <==> (pos < i && des_at(pi@, pos)));
                }
            }
        }
        i += 1;
    }
    proof {
        assert forall|pos: int| 1 <= pos <= 64 implies (in_set(mask, pos) <==> des_at(pi@, pos)) by {
            assert(in_set(mask, pos) <==> (pos < i && des_at(pi@, pos)));
        }
        if pi.len() == 0 {
            assert(descent_mask_upto(pi@, 0) == 0);
            assert(descent_mask_upto(pi@, 1) == 0);
        }
    }
    mask
}


/// Descent set of `pi` as a bitmask.
pub open spec fn mask_of(pi: Seq<u8>) -> u64 {
    descent_mask_upto(pi, pi.len() as int)
}

/// `keys`/`members` group the first `k` permutations by descent set: keys
/// strictly increasing, each group a nonempty increasing list of indices with
/// that descent set, and every index below `k` in some group.
pub open spec fn grouping_ok(keys: Seq<u64>, members: Seq<Vec<usize>>, masks: Seq<u64>, k: int) -> bool {
    &&& keys.len() == members.len()
    &&& forall|a: int, b: int| 0 <= a < b < keys.len() ==> keys[a] < keys[b]
    &&& forall|g: int| 0 <= g < members.len() ==> (#[trigger] members[g]).len() > 0
    &&& forall|g: int, t: int, u: int| 0 <= g < members.len() && 0 <= t < u < members[g].len() ==> members[g]@[t] < members[g]@[u]
    &&& forall|g: int, t: int|
        0 <= g < members.len() && 0 <= t < members[g].len() ==> #[trigger] members[g]@[t] < k && masks[members[g]@[t] as int] == keys[g]
    &&& forall|j: int| 0 <= j < k ==> #[trigger] listed(members, j)
}

/// Index `j` occurs in one of the lists of `members`.
pub open spec fn listed(members: Seq<Vec<usize>>, j: int) -> bool {
    exists|g: int, t: int| 0 <= g < members.len() && 0 <= t < members[g].len() && #[trigger] members[g]@[t] == j
}

/// Index `j` occurs in the index list of one of the `groups`.
pub open spec fn in_some_group(groups: Seq<(u64, Vec<usize>)>, j: int) -> bool {
    exists|g: int, t: int| 0 <= g < groups.len() && 0 <= t < groups[g].1.len() && #[trigger] groups[g].1@[t] == j
}

/// The permutations grouped by descent set: `(mask, indices)` with masks
/// strictly increasing and the indices of each group increasing; every
/// permutation is listed in the group of its own descent set.
pub fn group_by_descent_set(perms: &[Vec<u8>]) -> (groups: Vec<(u64, Vec<usize>)>)
    requires
        forall|k: int| 0 <= k < perms.len() ==> (#[trigger] perms@[k]).len() <= 65,
    ensures
        forall|a: int, b: int| 0 <= a < b < groups.len() ==> groups@[a].0 < groups@[b].0,
        forall|g: int| 0 <= g < groups.len() ==> (#[trigger] groups@[g]).1.len() > 0,
        forall|g: int, t: int, u: int|
            0 <= g < groups.len() && 0 <= t < u < groups@[g].1.len() ==> groups@[g].1@[t] < groups@[g].1@[u],
        forall|g: int, t: int|
            0 <= g < groups.len() && 0 <= t < groups@[g].1.len() ==> #[trigger] groups@[g].1@[t] < perms.len() && mask_of(
                perms@[groups@[g].1@[t] as int]@,
            ) == groups@[g].0,
        forall|j: int| 0 <= j < perms.len() ==> #[trigger] in_some_group(groups@, j),
{
    let mut masks: Vec<u64> = Vec::new();
    let mut i: usize = 0;
    while i < perms.len()
        invariant
            i <= perms.len(),
            forall|k: int| 0 <= k < perms.len() ==> (#[trigger] perms@[k]).len() <= 65,
            masks.len() == i,
            forall|j: int| 0 <= j < i ==> #[trigger] masks@[j] == mask_of(perms@[j]@),
        decreases perms.len() - i,
    {
        assert(perms@[i as int].len() <= 65);
        masks.push(descent_set_bitmask(perms[i].as_slice()));
        i += 1;
    }
    let mut keys: Vec<u64> = Vec::new();
    let mut members: Vec<Vec<usize>> = Vec::new();
    let mut k: usize = 0;
    while k < perms.len()
        invariant
            k <= perms.len(),
            masks.len() == perms.len(),
            forall|j: int| 0 <= j < perms.len() ==> #[trigger] masks@[j] == mask_of(perms@[j]@),
            grouping_ok(keys@, members@, masks@, k as int),
        decreases perms.len() - k,
    {
        let m = masks[k];
        let mut pos: usize = 0;
        while pos < keys.len() && keys[pos] < m
            invariant
                pos <= keys.len(),
                forall|a: int| 0 <= a < pos ==> keys@[a] < m,
            decreases keys.len() - pos,
        {
            pos += 1;
        }
        let ghost old_keys = keys@;
        let ghost old_members = members@;
        if pos < keys.len() && keys[pos] == m {
            let mut grp = members.remove(pos);
            grp.push(k);
            members.insert(pos, grp);
            proof {
                assert(members@ == old_members.update(pos as int, members@[pos as int]));
                assert forall|g: int, t: int, u: int|
                    0 <= g < members@.len() && 0 <= t < u < members@[g].len() implies members@[g]@[t] < members@[g]@[u] by {
                    if g == pos {
                        if u == members@[g].len() - 1 {
                            assert(members@[g]@[t] == old_members[g]@[t]);
                        } else {
                            assert(members@[g]@[t] == old_members[g]@[t] && members@[g]@[u] == old_members[g]@[u]);
                        }
                    } else {
                        assert(members@[g] == old_members[g]);
                    }
                }
                assert forall|g: int, t: int|
                    0 <= g < members@.len() && 0 <= t < members@[g].len() implies #[trigger] members@[g]@[t] < k + 1
                        && masks@[members@[g]@[t] as int] == keys@[g] by {
                    if g == pos && t == members@[g].len() - 1 {
                    } else if g == pos {
                        assert(members@[g]@[t] == old_members[g]@[t]);
                    } else {
                        assert(members@[g] == old_members[g]);
                    }
                }
                assert forall|j: int| 0 <= j < k + 1 implies #[trigger] listed(members@, j) by {
                    if j == k {
                        assert(members@[pos as int]@[members@[pos as int].len() - 1] == k);
                    } else {
                        assert(listed(old_members, j));
                        let (g, t) = choose|g: int, t: int|
                            0 <= g < old_members.len() && 0 <= t < old_members[g].len() && #[trigger] old_members[g]@[t] == j;
                        if g == pos {
                            assert(members@[g]@[t] == j);
                        } else {
                            assert(members@[g] == old_members[g]);
                            assert(members@[g]@[t] == j);
                        }
                    }
                }
            }
        } else {
            keys.insert(pos, m);
            members.insert(pos, vec![k]);
            proof {
                assert forall|a: int, b: int| 0 <= a < b < keys@.len() implies keys@[a] < keys@[b] by {
                    if b < pos {
                        assert(keys@[a] == old_keys[a] && keys@[b] == old_keys[b]);
                    } else if b == pos {
                        assert(keys@[a] == old_keys[a]);
                    } else if a == pos {
                        assert(keys@[b] == old_keys[b - 1]);
                        assert(old_keys[pos as int] > m || old_keys[pos as int] == m);
                    } else if a < pos {
                        assert(keys@[a] == old_keys[a] && keys@[b] == old_keys[b - 1]);
                    } else {
                        assert(keys@[a] == old_keys[a - 1] && keys@[b] == old_keys[b - 1]);
                    }
                }
                assert forall|g: int| 0 <= g < members@.len() implies (#[trigger] members@[g]).len() > 0 by {
                    if g < pos {
                        assert(members@[g] == old_members[g]);
                    } else if g > pos {
                        assert(members@[g] == old_members[g - 1]);
                    }
                }
                assert forall|g: int, t: int, u: int|
                    0 <= g < members@.len() && 0 <= t < u < members@[g].len() implies members@[g]@[t] < members@[g]@[u] by {
                    if g < pos {
                        assert(members@[g] == old_members[g]);
                    } else if g > pos {
                        assert(members@[g] == old_members[g - 1]);
                    }
                }
                assert forall|g: int, t: int|
                    0 <= g < members@.len() && 0 <= t < members@[g].len() implies #[trigger] members@[g]@[t] < k + 1
                        && masks@[members@[g]@[t] as int] == keys@[g] by {
                    if g < pos {
                        assert(members@[g] == old_members[g]);
                        assert(keys@[g] == old_keys[g]);
                    } else if g > pos {
                        assert(members@[g] == old_members[g - 1]);
                        assert(keys@[g] == old_keys[g - 1]);
                    }
                }
                assert forall|j: int| 0 <= j < k + 1 implies #[trigger] listed(members@, j) by {
                    if j == k {
                        assert(members@[pos as int]@[0] == k);
                    } else {
                        assert(listed(old_members, j));
                        let (g, t) = choose|g: int, t: int|
                            0 <= g < old_members.len() && 0 <= t < old_members[g].len() && #[trigger] old_members[g]@[t] == j;
                        if g < pos {
                            assert(members@[g] == old_members[g]);
                            assert(members@[g]@[t] == j);
                        } else {
                            assert(members@[g + 1] == old_members[g]);
                            assert(members@[g + 1]@[t] == j);
                        }
                    }
                }
            }
        }
        k += 1;
    }
    let mut groups: Vec<(u64, Vec<usize>)> = Vec::new();
    let mut g: usize = 0;
    while g < keys.len()
        invariant
            g <= keys.len(),
            grouping_ok(keys@, members@, masks@, perms.len() as int),
            masks.len() == perms.len(),
            forall|j: int| 0 <= j < perms.len() ==> #[trigger] masks@[j] == mask_of(perms@[j]@),
            groups.len() == g,
            forall|a: int| 0 <= a < g ==> (#[trigger] groups@[a]).0 == keys@[a] && groups@[a].1@ == members@[a]@,
        decreases keys.len() - g,
    {
        let copy = vstd::slice::slice_to_vec(members[g].as_slice());
        groups.push((keys[g], copy));
        g += 1;
    }
    proof {
        assert forall|j: int| 0 <= j < perms.len() implies #[trigger] in_some_group(groups@, j) by {
            assert(listed(members@, j));
            let (g, t) = choose|g: int, t: int|
                0 <= g < members@.len() && 0 <= t < members@[g].len() && #[trigger] members@[g]@[t] == j;
            assert(groups@[g].1@[t] == j);
        }
    }
    groups
}

/// Number of ascending adjacencies `pi(i) + 1 = pi(i+1)` among the first `m` entries.
pub open spec fn adjacencies_upto(pi: Seq<u8>, m: int) -> int
    decreases m,
{
    if m <= 1 {
        0
    } else {
        adjacencies_upto(pi, m - 1) + if pi[m - 2] + 1 == pi[m - 1] {
            1int
        } else {
            0int
        }
    }
}

/// Number of positions `i` with `pi(i) + 1 = pi(i+1)`.
pub fn adjacency_count(pi: &[u8]) -> (c: usize)
    ensures
        c == adjacencies_upto(pi@, pi.len() as int),
{
    if pi.len() == 0 {
        return 0;
    }
    let mut c: usize = 0;
    let mut i: usize = 1;
    while i < pi.len()
        invariant
            1 <= i <= pi.len(),
            c == adjacencies_upto(pi@, i as int),
            c < i,
        decreases pi.len() - i,
    {
        if pi[i - 1] as u16 + 1 == pi[i] as u16 {
            c += 1;
        }
        i += 1;
    }
    c
}

} // verus!
