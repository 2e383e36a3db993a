//! Linear-congruential pseudo-random generator used for initial center
//! selection. The stream is a pure function of the seed, so a fixed seed
//! reproduces the same center choices exactly.

use vstd::prelude::*;

verus! {

/// Multiplier of the linear-congruential update.
pub const LCG_A: u64 = 6364136223846793005;

/// Increment of the linear-congruential update.
pub const LCG_C: u64 = 1442695040888963407;

/// Modulus of the linear-congruential update: 2^63.
pub const LCG_M: u64 = 0x8000_0000_0000_0000;

/// One step of the generator: `(LCG_A * s + LCG_C) mod 2^63`, the product and
/// sum taken over the unbounded integers.
pub open spec fn lcg_next(s: u64) -> u64 {
    (((LCG_A * s + LCG_C) % (LCG_M as int)) as u64)
}

/// The state after `n` steps of the generator starting from `s`.
pub open spec fn lcg_nth(s: u64, n: nat) -> u64
    decreases n,
{
    if n == 0 {
        s
    } else {
        lcg_next(lcg_nth(s, (n - 1) as nat))
    }
}

/// Deterministic pseudo-random generator; its abstract state (the view) is
/// the current seed value.
pub struct Rng {
    seed: u64,
}

impl View for Rng {
    type V = u64;

    closed spec fn view(&self) -> u64 {
        self.seed
    }
}

impl Rng {
    /// A generator whose first output is `lcg_next(seed)`.
    pub fn new(seed: u64) -> (r: Self)
        ensures
            r@ == seed,
    {
        Rng { seed }
    }

    /// Advances the state by one linear-congruential step and returns it.
    pub fn next(&mut self) -> (r: u64)
        ensures
            final(self)@ == lcg_next(old(self)@),
            r == final(self)@,
            r < LCG_M,
    {
        proof {
            lemma_wrapping_matches_lcg(self.seed);
        }
        self.seed = (LCG_A.wrapping_mul(self.seed).wrapping_add(LCG_C)) % LCG_M;
        self.seed
    }
}

/// The wrapping 64-bit evaluation of `A * s + C`, reduced mod 2^63, equals
/// the unbounded evaluation reduced mod 2^63 (2^63 divides 2^64).
proof fn lemma_wrapping_matches_lcg(s: u64)
    ensures
        vstd::wrapping::u64_specs::wrapping_add(
            vstd::wrapping::u64_specs::wrapping_mul(LCG_A, s),
            LCG_C,
        ) % LCG_M == lcg_next(s),
{
    let two64: int = 0x1_0000_0000_0000_0000;
    let m: int = LCG_M as int;
    let p: int = LCG_A * s;
    let t: int = p + LCG_C;
    vstd::arithmetic::mul::lemma_mul_nonnegative(LCG_A as int, s as int);
    let wm: int = p % two64;
    assert(vstd::wrapping::u64_specs::wrapping_mul(LCG_A, s) == wm as u64) by {
        assert((LCG_A as nat * s as nat) % (two64 as nat) == p % two64);
    }
    let wa: int = (wm + LCG_C) % two64;
    vstd::arithmetic::div_mod::lemma_mod_bound(p, two64);
    vstd::arithmetic::div_mod::lemma_add_mod_noop(p, LCG_C as int, two64);
    vstd::arithmetic::div_mod::lemma_small_mod(LCG_C as nat, two64 as nat);
    assert(wa == t % two64);
    vstd::arithmetic::div_mod::lemma_mod_bound(t, two64);
    vstd::arithmetic::div_mod::lemma_mod_mod(t, m, 2);
    assert(m * 2 == two64);
    assert((t % two64) % m == t % m);
    vstd::arithmetic::div_mod::lemma_mod_bound(t, m);
}

} // verus!
