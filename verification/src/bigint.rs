//! Integers of any size, held as a sign and base-`2^32` digits (least
//! significant first). Products and differences are formed by `num-bigint`.
use vstd::prelude::*;
use num_bigint::{BigInt, Sign};

verus! {

/// The digit base.
pub open spec fn digit_base() -> int {
    0x1_0000_0000
}

/// Value of base-`2^32` digits, least significant first.
pub open spec fn mag_val(m: Seq<u32>) -> int
    decreases m.len(),
{
    if m.len() == 0 {
        0
    } else {
        m[0] + digit_base() * mag_val(m.drop_first())
    }
}

/// An integer as a sign and the digits of its absolute value.
#[derive(Debug)]
pub struct BigVal {
    pub neg: bool,
    pub mag: Vec<u32>,
}

/// The integer a [`BigVal`] stands for.
pub open spec fn big_val(b: BigVal) -> int {
    if b.neg {
        -mag_val(b.mag@)
    } else {
        mag_val(b.mag@)
    }
}

/// Digits have a nonnegative value, zero exactly when every digit is zero.
pub proof fn lemma_mag_val_zero(m: Seq<u32>)
    ensures
        mag_val(m) >= 0,
        mag_val(m) == 0 <==> forall|i: int| 0 <= i < m.len() ==> m[i] == 0,
    decreases m.len(),
{
    if m.len() > 0 {
        let t = m.drop_first();
        lemma_mag_val_zero(t);
        let x = mag_val(t);
        assert(digit_base() * x >= 0) by (nonlinear_arith)
            requires
                x >= 0,
        ;
        if mag_val(m) == 0 {
            assert(x == 0) by (nonlinear_arith)
                requires
                    m[0] + digit_base() * x == 0,
                    m[0] >= 0,
                    x >= 0,
            ;
            assert forall|i: int| 0 <= i < m.len() implies m[i] == 0 by {
                if i > 0 {
                    assert(t[i - 1] == m[i]);
                }
            }
        }
        if forall|i: int| 0 <= i < m.len() ==> m[i] == 0 {
            assert forall|i: int| 0 <= i < t.len() implies t[i] == 0 by {
                assert(m[i + 1] == t[i]);
            }
            assert(m[0] == 0);
        }
    }
}

/// Whether the value is zero.
pub fn big_is_zero(b: &BigVal) -> (z: bool)
    ensures
        z == (big_val(*b) == 0),
{
    proof {
        lemma_mag_val_zero(b.mag@);
    }
    let mut i: usize = 0;
    while i < b.mag.len()
        invariant
            i <= b.mag.len(),
            forall|k: int| 0 <= k < i ==> b.mag@[k] == 0,
        decreases b.mag.len() - i,
    {
        if b.mag[i] != 0 {
            proof {
                lemma_mag_val_zero(b.mag@);
                assert(b.mag@[i as int] != 0);
            }
            return false;
        }
        i += 1;
    }
    true
}

/// The value of an `i64`.
pub fn big_from_i64(x: i64) -> (b: BigVal)
    ensures
        big_val(b) == x,
{
    let m: u64 = if x < 0 {
        let y: i128 = -(x as i128);
        y as u64
    } else {
        x as u64
    };
    let lo = (m % 0x1_0000_0000) as u32;
    let hi = (m / 0x1_0000_0000) as u32;
    let mag: Vec<u32> = vec![lo, hi];
    proof {
        assert(m == lo + 0x1_0000_0000 * hi) by (nonlinear_arith)
            requires
                lo == m % 0x1_0000_0000,
                hi == m / 0x1_0000_0000,
        ;
        let s = mag@;
        assert(s.drop_first().drop_first().len() == 0);
        assert(mag_val(s.drop_first()) == hi as int + digit_base() * mag_val(s.drop_first().drop_first()));
        assert(mag_val(s) == lo as int + digit_base() * mag_val(s.drop_first()));
    }
    BigVal { neg: x < 0, mag }
}

/// `a * b`, by the `Mul` impl of `num_bigint::BigInt`; the numbers are passed
/// through `BigInt::from_slice` and read back with `BigInt::to_u32_digits`.
/// Claimed: the product is exact.
#[verifier::external_body]
pub(crate) fn big_mul(a: &BigVal, b: &BigVal) -> (r: BigVal)
    ensures
        big_val(r) == big_val(*a) * big_val(*b),
{
    let x = BigInt::from_slice(if a.neg { Sign::Minus } else { Sign::Plus }, &a.mag);
    let y = BigInt::from_slice(if b.neg { Sign::Minus } else { Sign::Plus }, &b.mag);
    let (sign, mag) = (x * y).to_u32_digits();
    BigVal { neg: sign == Sign::Minus, mag }
}

/// `a - b`, by the `Sub` impl of `num_bigint::BigInt`; the numbers are passed
/// through `BigInt::from_slice` and read back with `BigInt::to_u32_digits`.
/// Claimed: the difference is exact.
#[verifier::external_body]
pub(crate) fn big_sub(a: &BigVal, b: &BigVal) -> (r: BigVal)
    ensures
        big_val(r) == big_val(*a) - big_val(*b),
{
    let x = BigInt::from_slice(if a.neg { Sign::Minus } else { Sign::Plus }, &a.mag);
    let y = BigInt::from_slice(if b.neg { Sign::Minus } else { Sign::Plus }, &b.mag);
    let (sign, mag) = (x - y).to_u32_digits();
    BigVal { neg: sign == Sign::Minus, mag }
}

} // verus!
