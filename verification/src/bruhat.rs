//! The lower Bruhat ideal of a permutation: everything reachable from it by
//! repeatedly swapping an inversion (a pair `i < j` with `w[i] > w[j]`),
//! listed in increasing lexicographic order.
use vstd::prelude::*;
use crate::board::views;

verus! {

/// `a` with the entries at `i` and `j` exchanged.
pub open spec fn swapped(a: Seq<u8>, i: int, j: int) -> Seq<u8> {
    a.update(i, a[j]).update(j, a[i])
}

/// `b` is obtained from `a` by swapping an inversion.
pub open spec fn bruhat_step(a: Seq<u8>, b: Seq<u8>) -> bool {
    exists|i: int, j: int| 0 <= i < j < a.len() && a[i] > a[j] && b == #[trigger] swapped(a, i, j)
}

/// Consecutive entries of `p` are Bruhat steps.
pub open spec fn is_descent_path(p: Seq<Seq<u8>>) -> bool {
    p.len() >= 1 && forall|k: int| 0 <= k < p.len() - 1 ==> bruhat_step(#[trigger] p[k], p[k + 1])
}

/// `x` is reachable from `perm` by Bruhat steps (`x` lies in the lower ideal of `perm`).
pub open spec fn below(perm: Seq<u8>, x: Seq<u8>) -> bool {
    exists|p: Seq<Seq<u8>>| #[trigger] is_descent_path(p) && p[0] == perm && p.last() == x
}

/// `a` and `b` first differ at index `k`, where `a` is smaller.
pub open spec fn lex_diff_at(a: Seq<u8>, b: Seq<u8>, k: int) -> bool {
    0 <= k < a.len() && k < b.len() && (forall|i: int| 0 <= i < k ==> a[i] == b[i]) && a[k] < b[k]
}

/// `a` comes strictly before `b` in lexicographic order (equal lengths).
pub open spec fn lex_lt(a: Seq<u8>, b: Seq<u8>) -> bool {
    exists|k: int| #[trigger] lex_diff_at(a, b, k)
}

/// Base-256 value of a sequence of bytes, most significant first.
pub open spec fn byte_value(x: Seq<u8>) -> nat
    decreases x.len(),
{
    if x.len() == 0 {
        0
    } else {
        byte_value(x.drop_last()) * 256 + x.last() as nat
    }
}

proof fn lemma_value_lt(a: Seq<u8>, b: Seq<u8>, k: int)
    requires
        a.len() == b.len(),
        lex_diff_at(a, b, k),
    ensures
        byte_value(a) < byte_value(b),
    decreases a.len(),
{
    let a1 = a.drop_last();
    let b1 = b.drop_last();
    if k == a.len() - 1 {
        assert(a1 =~= b1);
    } else {
        assert(lex_diff_at(a1, b1, k));
        lemma_value_lt(a1, b1, k);
    }
}

proof fn lemma_lex_asym(a: Seq<u8>, b: Seq<u8>)
    requires
        lex_lt(a, b),
    ensures
        !lex_lt(b, a),
        a != b,
{
    let k = choose|k: int| lex_diff_at(a, b, k);
    if lex_lt(b, a) {
        let l = choose|l: int| lex_diff_at(b, a, l);
        if k < l {
            assert(b[k] == a[k]);
        } else if l < k {
            assert(a[l] == b[l]);
        }
    }
}

proof fn lemma_lex_trans(a: Seq<u8>, b: Seq<u8>, c: Seq<u8>)
    requires
        lex_lt(a, b),
        lex_lt(b, c),
    ensures
        lex_lt(a, c),
{
    let k = choose|k: int| lex_diff_at(a, b, k);
    let l = choose|l: int| lex_diff_at(b, c, l);
    if k <= l {
        assert(lex_diff_at(a, c, k));
    } else {
        assert(lex_diff_at(a, c, l));
    }
}

proof fn lemma_lex_total(a: Seq<u8>, b: Seq<u8>)
    requires
        a.len() == b.len(),
        a != b,
    ensures
        lex_lt(a, b) || lex_lt(b, a),
{
    if forall|i: int| 0 <= i < a.len() ==> a[i] == b[i] {
        assert(a =~= b);
    } else {
        let k0 = choose|i: int| 0 <= i < a.len() && a[i] != b[i];
        lemma_first_difference(a, b, k0);
    }
}

proof fn lemma_first_difference(a: Seq<u8>, b: Seq<u8>, k: int)
    requires
        a.len() == b.len(),
        0 <= k < a.len(),
        a[k] != b[k],
    ensures
        lex_lt(a, b) || lex_lt(b, a),
    decreases k,
{
    if forall|i: int| 0 <= i < k ==> a[i] == b[i] {
        if a[k] < b[k] {
            assert(lex_diff_at(a, b, k));
        } else {
            assert(lex_diff_at(b, a, k));
        }
    } else {
        let j = choose|j: int| 0 <= j < k && a[j] != b[j];
        lemma_first_difference(a, b, j);
    }
}

/// Swapping an inversion gives a lexicographically smaller sequence.
proof fn lemma_step_smaller(a: Seq<u8>, i: int, j: int)
    requires
        0 <= i < j < a.len(),
        a[i] > a[j],
    ensures
        lex_diff_at(swapped(a, i, j), a, i),
        lex_lt(swapped(a, i, j), a),
        swapped(a, i, j).len() == a.len(),
{
    assert(lex_diff_at(swapped(a, i, j), a, i));
}

/// A set closed under Bruhat steps that holds `perm` holds its whole lower ideal.
proof fn lemma_closed_holds_ideal(s: Seq<Seq<u8>>, perm: Seq<u8>, x: Seq<u8>)
    requires
        s.contains(perm),
        forall|y: Seq<u8>, z: Seq<u8>| s.contains(y) && #[trigger] bruhat_step(y, z) ==> s.contains(z),
        below(perm, x),
    ensures
        s.contains(x),
{
    let p = choose|p: Seq<Seq<u8>>| #[trigger] is_descent_path(p) && p[0] == perm && p.last() == x;
    lemma_path_in_closed(s, p, p.len() - 1);
}

proof fn lemma_path_in_closed(s: Seq<Seq<u8>>, p: Seq<Seq<u8>>, k: int)
    requires
        is_descent_path(p),
        s.contains(p[0]),
        forall|y: Seq<u8>, z: Seq<u8>| s.contains(y) && #[trigger] bruhat_step(y, z) ==> s.contains(z),
        0 <= k < p.len(),
    ensures
        s.contains(p[k]),
    decreases k,
{
    if k > 0 {
        lemma_path_in_closed(s, p, k - 1);
        assert(bruhat_step(p[k - 1], p[k]));
    }
}

/// Extending a path from `perm` to `y` by one step reaches `z`.
proof fn lemma_below_step(perm: Seq<u8>, y: Seq<u8>, z: Seq<u8>)
    requires
        below(perm, y),
        bruhat_step(y, z),
    ensures
        below(perm, z),
{
    let p = choose|p: Seq<Seq<u8>>| #[trigger] is_descent_path(p) && p[0] == perm && p.last() == y;
    let q = p.push(z);
    assert forall|k: int| 0 <= k < q.len() - 1 implies bruhat_step(#[trigger] q[k], q[k + 1]) by {
        if k < p.len() - 1 {
            assert(q[k] == p[k] && q[k + 1] == p[k + 1]);
        } else {
            assert(q[k] == y && q[k + 1] == z);
        }
    }
    assert(is_descent_path(q));
}

proof fn lemma_below_self(perm: Seq<u8>)
    ensures
        below(perm, perm),
{
    let p = seq![perm];
    assert(is_descent_path(p));
}

fn lex_less(a: &Vec<u8>, b: &Vec<u8>) -> (r: bool)
    requires
        a.len() == b.len(),
    ensures
        r == lex_lt(a@, b@),
{
    let mut k: usize = 0;
    while k < a.len()
        invariant
            k <= a.len() == b.len(),
            forall|i: int| 0 <= i < k ==> a@[i] == b@[i],
        decreases a.len() - k,
    {
        if a[k] < b[k] {
            assert(lex_diff_at(a@, b@, k as int));
            return true;
        }
        if a[k] > b[k] {
            proof {
                assert(lex_diff_at(b@, a@, k as int));
                lemma_lex_asym(b@, a@);
            }
            return false;
        }
        k += 1;
    }
    proof {
        assert(a@ =~= b@);
        if lex_lt(a@, b@) {
            let k = choose|k: int| lex_diff_at(a@, b@, k);
        }
    }
    false
}

fn same_seq(a: &Vec<u8>, b: &Vec<u8>) -> (r: bool)
    ensures
        r == (a@ == b@),
{
    if a.len() != b.len() {
        return false;
    }
    let mut k: usize = 0;
    while k < a.len()
        invariant
            k <= a.len() == b.len(),
            forall|i: int| 0 <= i < k ==> a@[i] == b@[i],
        decreases a.len() - k,
    {
        if a[k] != b[k] {
            return false;
        }
        k += 1;
    }
    assert(a@ =~= b@);
    true
}

fn holds(v: &Vec<Vec<u8>>, x: &Vec<u8>) -> (r: bool)
    ensures
        r == views(v@).contains(x@),
{
    let mut k: usize = 0;
    while k < v.len()
        invariant
            k <= v.len(),
            forall|i: int| 0 <= i < k ==> v@[i]@ != x@,
        decreases v.len() - k,
    {
        if same_seq(&v[k], x) {
            assert(views(v@)[k as int] == x@);
            return true;
        }
        k += 1;
    }
    proof {
        if views(v@).contains(x@) {
            let i = choose|i: int| 0 <= i < views(v@).len() && views(v@)[i] == x@;
            assert(v@[i]@ == x@);
        }
    }
    false
}


proof fn lemma_views_push(v: Seq<Vec<u8>>, x: Vec<u8>)
    ensures
        views(v.push(x)) == views(v).push(x@),
{
    assert(views(v.push(x)) =~= views(v).push(x@));
}

proof fn lemma_views_remove(v: Seq<Vec<u8>>, m: int)
    requires
        0 <= m < v.len(),
    ensures
        views(v.remove(m)) == views(v).remove(m),
{
    assert(views(v.remove(m)) =~= views(v).remove(m));
}

proof fn lemma_remove_contains(s: Seq<Seq<u8>>, m: int, x: Seq<u8>)
    requires
        0 <= m < s.len(),
        s.no_duplicates(),
    ensures
        s.remove(m).contains(x) <==> (s.contains(x) && x != s[m]),
        s.remove(m).no_duplicates(),
{
    let r = s.remove(m);
    if s.contains(x) && x != s[m] {
        let k = choose|k: int| 0 <= k < s.len() && s[k] == x;
        if k < m {
            assert(r[k] == x);
        } else {
            assert(r[k - 1] == x);
        }
    }
    if r.contains(x) {
        let k = choose|k: int| 0 <= k < r.len() && r[k] == x;
        if k < m {
            assert(s[k] == x);
        } else {
            assert(s[k + 1] == x);
        }
    }
    assert forall|a: int, b: int| 0 <= a < r.len() && 0 <= b < r.len() && a != b implies r[a] != r[b] by {
        let a1 = if a < m { a } else { a + 1 };
        let b1 = if b < m { b } else { b + 1 };
        assert(r[a] == s[a1] && r[b] == s[b1]);
    }
}

fn max_index(q: &Vec<Vec<u8>>, n: usize) -> (m: usize)
    requires
        q.len() > 0,
        forall|k: int| 0 <= k < q.len() ==> (#[trigger] q@[k]).len() == n,
        views(q@).no_duplicates(),
    ensures
        m < q.len(),
        forall|k: int| 0 <= k < q.len() && k != m ==> lex_lt((#[trigger] q@[k])@, q@[m as int]@),
{
    let mut best: usize = 0;
    let mut k: usize = 1;
    while k < q.len()
        invariant
            1 <= k <= q.len(),
            best < k,
            forall|k: int| 0 <= k < q.len() ==> (#[trigger] q@[k]).len() == n,
            views(q@).no_duplicates(),
            forall|i: int| 0 <= i < k && i != best ==> lex_lt((#[trigger] q@[i])@, q@[best as int]@),
        decreases q.len() - k,
    {
        assert(q@[k as int].len() == n && q@[best as int].len() == n);
        if lex_less(&q[best], &q[k]) {
            proof {
                assert forall|i: int| 0 <= i < k + 1 && i != k implies lex_lt((#[trigger] q@[i])@, q@[k as int]@) by {
                    if i != best {
                        lemma_lex_trans(q@[i]@, q@[best as int]@, q@[k as int]@);
                    }
                }
            }
            best = k;
        } else {
            proof {
                assert(views(q@)[k as int] != views(q@)[best as int]);
                lemma_lex_total(q@[k as int]@, q@[best as int]@);
            }
        }
        k += 1;
    }
    best
}

fn swapped_copy(cur: &Vec<u8>, i: usize, j: usize) -> (c: Vec<u8>)
    requires
        i < cur.len(),
        j < cur.len(),
    ensures
        c@ == swapped(cur@, i as int, j as int),
{
    let mut c = vstd::slice::slice_to_vec(cur.as_slice());
    let a = c[i];
    let b = c[j];
    c.set(i, b);
    c.set(j, a);
    assert(c@ =~= swapped(cur@, i as int, j as int));
    c
}

/// The pending list `q` while the successors of `cur` are generated: entries
/// of length `n`, distinct, below `cur` lexicographically, in the ideal of `perm`.
pub open spec fn pending_ok(q: Seq<Vec<u8>>, cur: Seq<u8>, perm: Seq<u8>, n: nat) -> bool {
    &&& forall|k: int| 0 <= k < q.len() ==> (#[trigger] q[k]).len() == n
    &&& views(q).no_duplicates()
    &&& !views(q).contains(cur)
    &&& forall|k: int| 0 <= k < q.len() ==> lex_lt((#[trigger] q[k])@, cur)
    &&& forall|x: Seq<u8>| #[trigger] views(q).contains(x) ==> below(perm, x)
}

/// Queue the swap of positions `i < j` of `cur` when it is an inversion and
/// its result is neither visited nor pending.
fn queue_swap(cur: &Vec<u8>, i: usize, j: usize, q: &mut Vec<Vec<u8>>, vis: &Vec<Vec<u8>>, Ghost(perm): Ghost<Seq<u8>>)
    requires
        i < j < cur.len(),
        below(perm, cur@),
        pending_ok(old(q)@, cur@, perm, cur.len() as nat),
    ensures
        pending_ok(final(q)@, cur@, perm, cur.len() as nat),
        forall|x: Seq<u8>| #[trigger] views(old(q)@).contains(x) ==> views(final(q)@).contains(x),
        cur@[i as int] > cur@[j as int] ==> views(vis@).contains(swapped(cur@, i as int, j as int)) || views(final(q)@).contains(
            swapped(cur@, i as int, j as int),
        ),
{
    broadcast use vstd::seq_lib::lemma_seq_contains_after_push;

    if cur[i] > cur[j] {
        let c = swapped_copy(cur, i, j);
        proof {
            lemma_step_smaller(cur@, i as int, j as int);
            assert(bruhat_step(cur@, c@));
            lemma_below_step(perm, cur@, c@);
        }
        if !holds(vis, &c) && !holds(q, &c) {
            let ghost q_old = q@;
            q.push(c);
            proof {
                lemma_views_push(q_old, c);
                assert forall|a: int, b: int| 0 <= a < b < views(q@).len() implies views(q@)[a] != views(q@)[b] by {
                    if b == q_old.len() {
                        assert(views(q_old).contains(views(q@)[a]));
                    }
                }
                assert(!views(q@).contains(cur@)) by {
                    lemma_lex_asym(c@, cur@);
                }
                assert forall|k: int| 0 <= k < q.len() implies lex_lt((#[trigger] q@[k])@, cur@) by {
                    if k < q_old.len() {
                        assert(q@[k] == q_old[k]);
                    }
                }
                assert forall|k: int| 0 <= k < q.len() implies (#[trigger] q@[k]).len() == cur.len() by {
                    if k < q_old.len() {
                        assert(q@[k] == q_old[k]);
                    }
                }
            }
        }
    }
}

/// The lower Bruhat ideal of `perm`: every sequence reachable from `perm` by
/// swapping inversions (`perm` included), each once, in increasing
/// lexicographic order.
pub fn bruhat_lower_ideal(perm: &[u8]) -> (r: Vec<Vec<u8>>)
    ensures
        forall|k: int, l: int| 0 <= k < l < r.len() ==> lex_lt(r@[k]@, r@[l]@),
        forall|x: Seq<u8>| views(r@).contains(x) <==> below(perm@, x),
{
    broadcast use vstd::seq_lib::lemma_seq_contains_after_push;

    let n = perm.len();
    let start = vstd::slice::slice_to_vec(perm);
    let mut q: Vec<Vec<u8>> = Vec::new();
    q.push(start);
    let mut vis: Vec<Vec<u8>> = Vec::new();
    let ghost mut bound: nat = byte_value(perm@) + 1;
    proof {
        lemma_below_self(perm@);
        assert(views(q@) =~= seq![perm@]);
        assert(views(q@)[0] == perm@);
        assert(views(vis@) =~= Seq::<Seq<u8>>::empty());
    }
    while q.len() > 0
        invariant
            n == perm.len(),
            forall|k: int| 0 <= k < q.len() ==> (#[trigger] q@[k]).len() == n,
            forall|k: int| 0 <= k < vis.len() ==> (#[trigger] vis@[k]).len() == n,
            views(q@).no_duplicates(),
            views(vis@).no_duplicates(),
            forall|a: int, b: int| 0 <= a < q.len() && 0 <= b < vis.len() ==> lex_lt((#[trigger] q@[a])@, (#[trigger] vis@[b])@),
            forall|a: int, b: int| 0 <= a < b < vis.len() ==> lex_lt((#[trigger] vis@[b])@, (#[trigger] vis@[a])@),
            forall|x: Seq<u8>| views(q@).contains(x) || views(vis@).contains(x) ==> below(perm@, x),
            forall|y: Seq<u8>, z: Seq<u8>|
                views(vis@).contains(y) && #[trigger] bruhat_step(y, z) ==> views(vis@).contains(z) || views(q@).contains(z),
            views(q@).contains(perm@) || views(vis@).contains(perm@),
            forall|k: int| 0 <= k < q.len() ==> byte_value((#[trigger] q@[k])@) < bound,
        decreases bound,
    {
        let m = max_index(&q, n);
        let ghost q_before = q@;
        let cur = q.remove(m);
        proof {
            lemma_views_remove(q_before, m as int);
            assert(views(q_before)[m as int] == cur@);
            assert forall|x: Seq<u8>| #![auto] views(q@).contains(x) <==> (views(q_before).contains(x) && x != cur@) by {
                lemma_remove_contains(views(q_before), m as int, x);
            }
            lemma_remove_contains(views(q_before), m as int, cur@);
            assert(views(q_before).contains(cur@));
            assert forall|k: int| 0 <= k < q.len() implies lex_lt((#[trigger] q@[k])@, cur@) by {
                if k < m {
                    assert(q@[k] == q_before[k]);
                } else {
                    assert(q@[k] == q_before[k + 1]);
                }
            }
        }
        let mut i: usize = 0;
        while i < n
            invariant
                n == perm.len(),
                cur.len() == n,
                i <= n,
                forall|k: int| 0 <= k < q.len() ==> (#[trigger] q@[k]).len() == n,
                forall|k: int| 0 <= k < vis.len() ==> (#[trigger] vis@[k]).len() == n,
                views(q@).no_duplicates(),
                views(vis@).no_duplicates(),
                !views(q@).contains(cur@),
                !views(vis@).contains(cur@),
                forall|k: int| 0 <= k < q.len() ==> lex_lt((#[trigger] q@[k])@, cur@),
                forall|b: int| 0 <= b < vis.len() ==> lex_lt(cur@, (#[trigger] vis@[b])@),
                forall|a: int, b: int| 0 <= a < b < vis.len() ==> lex_lt((#[trigger] vis@[b])@, (#[trigger] vis@[a])@),
                below(perm@, cur@),
                forall|x: Seq<u8>| views(q@).contains(x) || views(vis@).contains(x) ==> below(perm@, x),
                forall|y: Seq<u8>, z: Seq<u8>|
                    views(vis@).contains(y) && #[trigger] bruhat_step(y, z) ==> views(vis@).contains(z) || views(q@).contains(z)
                        || z == cur@,
                views(q@).contains(perm@) || views(vis@).contains(perm@) || perm@ == cur@,
                forall|a: int, b: int|
                    0 <= a < i && a < b < n && cur@[a] > cur@[b] ==> views(vis@).contains(#[trigger] swapped(cur@, a, b))
                        || views(q@).contains(swapped(cur@, a, b)),
            decreases n - i,
        {
            let mut j: usize = i + 1;
            while j < n
                invariant
                    n == perm.len(),
                    cur.len() == n,
                    i < n,
                    i + 1 <= j <= n,
                    forall|k: int| 0 <= k < q.len() ==> (#[trigger] q@[k]).len() == n,
                    forall|k: int| 0 <= k < vis.len() ==> (#[trigger] vis@[k]).len() == n,
                    views(q@).no_duplicates(),
                    views(vis@).no_duplicates(),
                    !views(q@).contains(cur@),
                    !views(vis@).contains(cur@),
                    forall|k: int| 0 <= k < q.len() ==> lex_lt((#[trigger] q@[k])@, cur@),
                    forall|b: int| 0 <= b < vis.len() ==> lex_lt(cur@, (#[trigger] vis@[b])@),
                    forall|a: int, b: int| 0 <= a < b < vis.len() ==> lex_lt((#[trigger] vis@[b])@, (#[trigger] vis@[a])@),
                    below(perm@, cur@),
                    forall|x: Seq<u8>| views(q@).contains(x) || views(vis@).contains(x) ==> below(perm@, x),
                    forall|y: Seq<u8>, z: Seq<u8>|
                        views(vis@).contains(y) && #[trigger] bruhat_step(y, z) ==> views(vis@).contains(z) || views(q@).contains(z)
                            || z == cur@,
                    views(q@).contains(perm@) || views(vis@).contains(perm@) || perm@ == cur@,
                    forall|a: int, b: int|
                        ((0 <= a < i && a < b < n) || (a == i && i < b < j)) && cur@[a] > cur@[b] ==> views(vis@).contains(
                            #[trigger] swapped(cur@, a, b),
                        ) || views(q@).contains(swapped(cur@, a, b)),
                decreases n - j,
            {
                proof {
                    assert(pending_ok(q@, cur@, perm@, n as nat));
                }
                let ghost q_old = q@;
                queue_swap(&cur, i, j, &mut q, &vis, Ghost(perm@));
                proof {
                    assert forall|a: int, b: int|
                        ((0 <= a < i && a < b < n) || (a == i && i < b < j + 1)) && cur@[a] > cur@[b] implies views(vis@).contains(
                            #[trigger] swapped(cur@, a, b),
                        ) || views(q@).contains(swapped(cur@, a, b)) by {
                        if !(a == i && b == j) {
                            if views(q_old).contains(swapped(cur@, a, b)) {
                                assert(views(q@).contains(swapped(cur@, a, b)));
                            }
                        }
                    }
                }
                j += 1;
            }
            i += 1;
        }
        let ghost vis_old = vis@;
        proof {
            assert forall|k: int| 0 <= k < q.len() implies byte_value((#[trigger] q@[k])@) < byte_value(cur@) by {
                let d = choose|d: int| lex_diff_at(q@[k]@, cur@, d);
                lemma_value_lt(q@[k]@, cur@, d);
            }
            assert(byte_value(cur@) < bound);
        }
        let ghost cv = cur@;
        vis.push(cur);
        proof {
            lemma_views_push(vis_old, vis@[vis.len() - 1]);
            assert(vis_old.push(vis@[vis.len() - 1]) == vis@);
            let c = vis@[vis.len() - 1]@;
            assert(c == cv);
            assert(views(vis@) == views(vis_old).push(c));
            assert(views(vis@).contains(c)) by {
                assert(views(vis@)[vis.len() - 1] == c);
            }
            assert forall|x: Seq<u8>| views(vis_old).contains(x) implies #[trigger] views(vis@).contains(x) by {
                let t = choose|t: int| 0 <= t < views(vis_old).len() && views(vis_old)[t] == x;
                assert(views(vis@)[t] == x);
            }
            assert forall|a: int, b: int| 0 <= a < b < views(vis@).len() implies views(vis@)[a] != views(vis@)[b] by {
                if b == vis_old.len() {
                    assert(views(vis_old).contains(views(vis@)[a]));
                }
            }
            assert forall|a: int, b: int| 0 <= a < q.len() && 0 <= b < vis.len() implies lex_lt((#[trigger] q@[a])@, (#[trigger] vis@[b])@) by {
                if b < vis_old.len() {
                    assert(vis@[b] == vis_old[b]);
                    lemma_lex_trans(q@[a]@, c, vis@[b]@);
                }
            }
            assert forall|a: int, b: int| 0 <= a < b < vis.len() implies lex_lt((#[trigger] vis@[b])@, (#[trigger] vis@[a])@) by {
                assert(vis@[a] == vis_old[a]);
                if b < vis_old.len() {
                    assert(vis@[b] == vis_old[b]);
                }
            }
            assert forall|y: Seq<u8>, z: Seq<u8>|
                views(vis@).contains(y) && #[trigger] bruhat_step(y, z) implies views(vis@).contains(z) || views(q@).contains(z) by {
                if y == c {
                    let (a, b) = choose|a: int, b: int| 0 <= a < b < y.len() && y[a] > y[b] && z == #[trigger] swapped(y, a, b);
                    assert(views(vis_old).contains(swapped(cv, a, b)) || views(q@).contains(swapped(cv, a, b)));
                } else {
                    assert(views(vis_old).contains(y)) by {
                        let t = choose|t: int| 0 <= t < views(vis@).len() && views(vis@)[t] == y;
                        assert(t < vis_old.len());
                        assert(views(vis_old)[t] == y);
                    }
                    assert(views(vis_old).contains(z) || views(q@).contains(z) || z == cv);
                }
            }
            assert(views(q@).contains(perm@) || views(vis@).contains(perm@));
            bound = byte_value(c);
        }
    }
    let mut r: Vec<Vec<u8>> = Vec::new();
    let mut k: usize = vis.len();
    while k > 0
        invariant
            k <= vis.len(),
            r.len() == vis.len() - k,
            forall|t: int| 0 <= t < r.len() ==> (#[trigger] r@[t])@ == vis@[vis.len() - 1 - t]@,
        decreases k,
    {
        k -= 1;
        let v = vstd::slice::slice_to_vec(vis[k].as_slice());
        r.push(v);
    }
    proof {
        assert forall|x: Seq<u8>| views(r@).contains(x) <==> views(vis@).contains(x) by {
            if views(r@).contains(x) {
                let t = choose|t: int| 0 <= t < views(r@).len() && views(r@)[t] == x;
                assert(views(vis@)[vis.len() - 1 - t] == x);
            }
            if views(vis@).contains(x) {
                let t = choose|t: int| 0 <= t < views(vis@).len() && views(vis@)[t] == x;
                assert(views(r@)[vis.len() - 1 - t] == x);
            }
        }
        assert forall|x: Seq<u8>| views(vis@).contains(x) <==> below(perm@, x) by {
            if below(perm@, x) {
                lemma_closed_holds_ideal(views(vis@), perm@, x);
            }
        }
        assert forall|a: int, b: int| 0 <= a < b < r.len() implies lex_lt(r@[a]@, r@[b]@) by {
            assert(lex_lt(vis@[vis.len() - 1 - a]@, vis@[vis.len() - 1 - b]@));
        }
    }
    r
}

} // verus!
