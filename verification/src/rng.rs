//! The 64-bit linear congruential generator that drives the random sampling
//! of the stability tests: `s -> 6364136223846793005 * s + 1442695040888963407 (mod 2^64)`.
use vstd::prelude::*;
use vstd::arithmetic::div_mod::lemma_add_mod_noop;
use vstd::arithmetic::div_mod::lemma_mod_twice;

verus! {

pub open spec fn lcg_mult() -> nat {
    6364136223846793005
}

pub open spec fn lcg_incr() -> nat {
    1442695040888963407
}

pub open spec fn two_64() -> nat {
    0x1_0000_0000_0000_0000
}

/// One step of the generator on its state.
pub open spec fn lcg_next_spec(s: u64) -> u64 {
    ((s as nat * lcg_mult() + lcg_incr()) % two_64()) as u64
}

/// One step of the generator: `6364136223846793005 * s + 1442695040888963407`, wrapping.
pub fn lcg_next(s: u64) -> (r: u64)
    ensures
        r == lcg_next_spec(s),
{
    let m = s.wrapping_mul(6364136223846793005u64);
    let r = m.wrapping_add(1442695040888963407u64);
    proof {
        let x = s as nat * lcg_mult();
        assert(m == x % two_64());
        lemma_add_mod_noop(x as int, lcg_incr() as int, two_64() as int);
        lemma_mod_twice(lcg_incr() as int, two_64() as int);
        assert(lcg_incr() % two_64() == lcg_incr());
        assert((m + lcg_incr()) % (two_64() as int) == (x as int + lcg_incr()) % (two_64() as int));
        if m + lcg_incr() > u64::MAX {
            assert(r == m + lcg_incr() - two_64());
        } else {
            assert(r == m + lcg_incr());
        }
    }
    r
}

/// Generator state (the last value produced).
pub struct Rng(u64);

impl View for Rng {
    type V = u64;

    closed spec fn view(&self) -> u64 {
        self.0
    }
}

impl Rng {
    /// A generator seeded with `seed`; its state is `seed + 1`, wrapping.
    pub fn new(seed: u64) -> (r: Self)
        ensures
            r@ == if seed == u64::MAX {
                0
            } else {
                (seed + 1) as u64
            },
    {
        Rng(seed.wrapping_add(1))
    }

    /// Advance the generator one step and return the new state.
    pub fn next_u64(&mut self) -> (r: u64)
        ensures
            final(self)@ == lcg_next_spec(old(self)@),
            r == final(self)@,
    {
        self.0 = lcg_next(self.0);
        self.0
    }
}

} // verus!
