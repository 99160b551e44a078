//! A small splitmix64-seeded xorshift128+ generator, so tensors can be filled
//! with random values without an outside crate. Deterministic given a seed;
//! good enough for weight init and tests, not for cryptography.
use vstd::prelude::*;
use vstd::wrapping::u64_specs;

verus! {

/// The splitmix64 increment (the golden-ratio gamma).
pub open spec fn gamma() -> u64 {
    0x9E37_79B9_7F4A_7C15u64
}

/// The splitmix64 output finalizer.
pub open spec fn mix64(z: u64) -> u64 {
    let x1 = u64_specs::wrapping_mul(z ^ (z >> 30u64), 0xBF58_476D_1CE4_E5B9u64);
    let x2 = u64_specs::wrapping_mul(x1 ^ (x1 >> 27u64), 0x94D0_49BB_1331_11EBu64);
    x2 ^ (x2 >> 31u64)
}

/// The state a seed starts the generator in: the second and third splitmix64
/// outputs after `seed + gamma`, each forced odd.
pub open spec fn seeded_state(seed: u64) -> (u64, u64) {
    let z1 = u64_specs::wrapping_add(seed, gamma());
    let z2 = u64_specs::wrapping_add(z1, gamma());
    let z3 = u64_specs::wrapping_add(z2, gamma());
    (mix64(z2) | 1u64, mix64(z3) | 1u64)
}

/// The new second state word of one xorshift128+ step.
pub open spec fn xorshift_mix(x: u64, y: u64) -> u64 {
    let a = x ^ (x << 23u64);
    let b = a ^ (a >> 17u64);
    b ^ (y ^ (y >> 26u64))
}

/// One xorshift128+ step: the new state, and the output it yields.
pub open spec fn next_state(s: (u64, u64)) -> (u64, u64) {
    (s.1, xorshift_mix(s.0, s.1))
}

/// The output of one xorshift128+ step from state `s`.
pub open spec fn next_output(s: (u64, u64)) -> u64 {
    u64_specs::wrapping_add(xorshift_mix(s.0, s.1), s.1)
}

/// The state after `k` steps.
pub open spec fn state_after(s: (u64, u64), k: nat) -> (u64, u64)
    decreases k,
{
    if k == 0 { s } else { next_state(state_after(s, (k - 1) as nat)) }
}

/// The `k`-th output (counting from 0) of a generator seeded with `seed`.
pub open spec fn stream(seed: u64, k: nat) -> u64 {
    next_output(state_after(seeded_state(seed), k))
}

/// The pseudo-random generator. Its state is never all zero, the one state
/// in which xorshift would only ever yield zeros.
pub struct Rng {
    s0: u64,
    s1: u64,
}

impl View for Rng {
    type V = (u64, u64);

    closed spec fn view(&self) -> (u64, u64) {
        (self.s0, self.s1)
    }
}

fn mix64_exec(z: u64) -> (x: u64)
    ensures
        x == mix64(z),
{
    let x = (z ^ (z >> 30)).wrapping_mul(0xBF58_476D_1CE4_E5B9);
    let x = (x ^ (x >> 27)).wrapping_mul(0x94D0_49BB_1331_11EB);
    x ^ (x >> 31)
}

impl Rng {
    /// A generator seeded with `seed`.
    pub fn new(seed: u64) -> (r: Rng)
        ensures
            r@ == seeded_state(seed),
            r@ != (0u64, 0u64),
    {
        let mut z = seed.wrapping_add(0x9E37_79B9_7F4A_7C15);
        z = z.wrapping_add(0x9E37_79B9_7F4A_7C15);
        let m = mix64_exec(z);
        let a = m | 1;
        assert(m | 1u64 != 0u64) by (bit_vector);
        z = z.wrapping_add(0x9E37_79B9_7F4A_7C15);
        let b = mix64_exec(z) | 1;
        Rng { s0: a, s1: b }
    }

    /// Advances the generator one xorshift128+ step and returns its output.
    pub fn next_u64(&mut self) -> (out: u64)
        ensures
            out == next_output(old(self)@),
            final(self)@ == next_state(old(self)@),
    {
        let mut x = self.s0;
        let y = self.s1;
        self.s0 = y;
        x = x ^ (x << 23);
        x = x ^ (x >> 17);
        x = x ^ (y ^ (y >> 26));
        self.s1 = x;
        x.wrapping_add(y)
    }
}

/// A step never leads from a non-zero state to the all-zero state, so a
/// seeded generator never degenerates into emitting only zeros.
pub proof fn lemma_state_stays_nonzero(s: (u64, u64), k: nat)
    requires
        s != (0u64, 0u64),
    ensures
        state_after(s, k) != (0u64, 0u64),
    decreases k,
{
    if k > 0 {
        lemma_state_stays_nonzero(s, (k - 1) as nat);
        let t = state_after(s, (k - 1) as nat);
        let x = t.0;
        let y = t.1;
        if y == 0 {
            assert(x != 0);
            assert(x != 0u64 ==> ((x ^ (x << 23u64)) ^ ((x ^ (x << 23u64)) >> 17u64)) ^ (0u64 ^ (0u64 >> 26u64)) != 0u64)
                by (bit_vector);
        }
    }
}

} // verus!
