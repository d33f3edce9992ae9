//! Text forms of descent sets and of common factors.
use vstd::prelude::*;
use crate::descent::{bit, bit_at};

verus! {

/// Decimal digit character for `d < 10`.
pub open spec fn digit_char(d: int) -> char {
    (48 + d) as char
}

/// Decimal representation of `v`, without leading zeros.
pub open spec fn decimal(v: nat) -> Seq<char>
    decreases v,
{
    if v < 10 {
        seq![digit_char(v as int)]
    } else {
        decimal(v / 10).push(digit_char((v % 10) as int))
    }
}

/// Comma-separated positions `i` in `[1, upto)` whose bit `i-1` is set.
pub open spec fn listing(mask: u64, upto: int) -> Seq<char>
    decreases upto,
{
    if upto <= 1 {
        Seq::empty()
    } else {
        let prev = listing(mask, upto - 1);
        if bit(mask, upto - 2) {
            if prev.len() == 0 {
                decimal((upto - 1) as nat)
            } else {
                prev.push(',') + decimal((upto - 1) as nat)
            }
        } else {
            prev
        }
    }
}

/// Build a `String` holding exactly the given characters.
#[verifier::external_body]
fn chars_to_string(chars: &Vec<char>) -> (s: String)
    ensures
        s@ == chars@,
{
    chars.iter().collect()
}

proof fn lemma_decimal_nonempty(v: nat)
    ensures
        decimal(v).len() >= 1,
    decreases v,
{
    if v >= 10 {
        lemma_decimal_nonempty(v / 10);
    }
}

/// Append the decimal digits of `v`.
pub fn push_decimal(out: &mut Vec<char>, v: u64)
    ensures
        final(out)@ == old(out)@ + decimal(v as nat),
{
    let mut digits: Vec<char> = Vec::new();
    let mut x = v;
    let ghost mut rest: Seq<char> = Seq::empty();
    // digits holds the low-order digits of v, least significant first
    while x >= 10
        invariant
            decimal(v as nat) == decimal(x as nat) + digits@.reverse(),
        decreases x,
    {
        let d = (x % 10) as u8;
        let c = (48u8 + d) as char;
        assert(c == digit_char((x % 10) as int));
        assert(decimal(x as nat) == decimal((x / 10) as nat).push(c));
        assert(digits@.push(c).reverse() =~= seq![c] + digits@.reverse());
        assert(decimal((x / 10) as nat).push(c) + digits@.reverse() =~= decimal((x / 10) as nat) + (seq![c]
            + digits@.reverse()));
        digits.push(c);
        x = x / 10;
    }
    let c = (48u8 + (x as u8)) as char;
    assert(decimal(x as nat) == seq![c]);
    digits.push(c);
    assert(digits@.reverse() =~= seq![c] + digits@.drop_last().reverse());
    assert(decimal(v as nat) =~= digits@.reverse());
    let ghost start = out@;
    let mut k = digits.len();
    while k > 0
        invariant
            k <= digits.len(),
            decimal(v as nat) =~= digits@.reverse(),
            out@ == start + digits@.reverse().take((digits.len() - k) as int),
        decreases k,
    {
        k -= 1;
        out.push(digits[k]);
        assert(digits@.reverse()[(digits.len() - k - 1) as int] == digits@[k as int]);
        assert(digits@.reverse().take((digits.len() - k) as int) =~= digits@.reverse().take(
            (digits.len() - k - 1) as int,
        ).push(digits@[k as int]));
    }
    assert(digits@.reverse().take(digits.len() as int) =~= digits@.reverse());
}

fn listing_chars(mask: u64, n: u8) -> (chars: Vec<char>)
    requires
        n <= 65,
    ensures
        chars@ == listing(mask, n as int),
{
    let mut chars: Vec<char> = Vec::new();
    let mut first = true;
    let mut i: u8 = 1;
    while i < n
        invariant
            1 <= i,
            i <= n || n == 0,
            n == 0 ==> i == 1,
            n <= 65,
            chars@ == listing(mask, i as int),
            first <==> chars@.len() == 0,
        decreases n - i,
    {
        if bit_at(mask, i - 1) {
            if !first {
                chars.push(',');
            }
            push_decimal(&mut chars, i as u64);
            proof {
                lemma_decimal_nonempty(i as nat);
            }
            first = false;
        }
        i += 1;
    }
    proof {
        if n <= 1 {
            assert(listing(mask, n as int) == Seq::<char>::empty());
            assert(listing(mask, 1) == Seq::<char>::empty());
            assert(chars@ == listing(mask, i as int));
            assert(i == 1);
        } else {
            assert(i == n);
        }
    }
    chars
}

/// `{i1,i2,...}` listing the positions of the set in `[1, n-1]`; `{}` when empty.
pub fn descent_set_to_string(mask: u64, n: u8) -> (s: String)
    requires
        n <= 65,
    ensures
        s@ == seq!['{'] + listing(mask, n as int) + seq!['}'],
{
    let mut chars: Vec<char> = Vec::new();
    chars.push('{');
    let body = listing_chars(mask, n);
    for k in 0..body.len()
        invariant
            chars@ == seq!['{'] + body@.take(k as int),
    {
        chars.push(body[k]);
        assert(body@.take(k + 1) =~= body@.take(k as int).push(body@[k as int]));
    }
    assert(body@.take(body.len() as int) =~= body@);
    chars.push('}');
    assert(chars@ =~= seq!['{'] + listing(mask, n as int) + seq!['}']);
    chars_to_string(&chars)
}

/// Same text as [`descent_set_to_string`].
pub fn mask_to_string(mask: u64, n: u8) -> (s: String)
    requires
        n <= 65,
    ensures
        s@ == seq!['{'] + listing(mask, n as int) + seq!['}'],
{
    descent_set_to_string(mask, n)
}

/// `{i1,i2,...}` listing the positions in `[1, n-1]`, or `∅` for the empty set.
pub fn descent_set_str(s: u64, n: u8) -> (r: String)
    requires
        1 <= n <= 65,
    ensures
        listing(s, n as int).len() == 0 ==> r@ == seq!['\u{2205}'],
        listing(s, n as int).len() > 0 ==> r@ == seq!['{'] + listing(s, n as int) + seq!['}'],
{
    let body = listing_chars(s, n);
    if body.len() == 0 {
        let mut chars: Vec<char> = Vec::new();
        chars.push('\u{2205}');
        assert(chars@ =~= seq!['\u{2205}']);
        return chars_to_string(&chars);
    }
    descent_set_to_string(s, n)
}

/// Text for the common factor reported by [`crate::poly::poly_gcd_degree`]:
/// `1` when the pair is coprime, `t` when it shares a factor.
pub fn poly_gcd_display(a: &[i64], b: &[i64]) -> (s: String)
    requires
        forall|d: usize| #[trigger] crate::poly::gcd_degree_spec(a@, b@, d) && d != 0 ==> d <= a.len() && d <= b.len(),
    ensures
        exists|d: usize|
            crate::poly::gcd_degree_spec(a@, b@, d) && s@ == if d == 0 {
                seq!['1']
            } else {
                seq!['t']
            },
{
    let d = crate::poly::poly_gcd_degree(a, b);
    let mut chars: Vec<char> = Vec::new();
    if d == 0 {
        chars.push('1');
    } else {
        chars.push('t');
    }
    assert(d == 0 ==> chars@ =~= seq!['1']);
    assert(d != 0 ==> chars@ =~= seq!['t']);
    chars_to_string(&chars)
}

} // verus!
