//! The random number generator shared by the whole application, seeded so that a
//! seed gives the same map again.
//!
//! The generator is xoshiro256++ whose four state words are the first four outputs
//! of SplitMix64 started from the seed: the generator that `rand_xoshiro` builds with
//! `Xoshiro256PlusPlus::seed_from_u64`, and whose outputs it gives.
use vstd::prelude::*;

verus! {

/// What SplitMix64 adds to its state before each output.
pub const SPLITMIX_GAMMA: u64 = 0x9e37_79b9_7f4a_7c15;

/// The output of SplitMix64 whose state has just become `x`.
pub open spec fn splitmix_mix(x: u64) -> u64 {
    let z1 = (x ^ (x >> 30u64)).wrapping_mul(0xbf58_476d_1ce4_e5b9);
    let z2 = (z1 ^ (z1 >> 27u64)).wrapping_mul(0x94d0_49bb_1331_11eb);
    z2 ^ (z2 >> 31u64)
}

/// The first four outputs of SplitMix64 started from `seed`.
pub open spec fn splitmix_words(seed: u64) -> (u64, u64, u64, u64) {
    let x1 = seed.wrapping_add(SPLITMIX_GAMMA);
    let x2 = x1.wrapping_add(SPLITMIX_GAMMA);
    let x3 = x2.wrapping_add(SPLITMIX_GAMMA);
    let x4 = x3.wrapping_add(SPLITMIX_GAMMA);
    (splitmix_mix(x1), splitmix_mix(x2), splitmix_mix(x3), splitmix_mix(x4))
}

/// The state a generator seeded from `seed` starts in: the SplitMix64 words of the
/// seed, or those of seed 0 when all four are zero (a state of zeros stays zero).
pub open spec fn seeded_state(seed: u64) -> (u64, u64, u64, u64) {
    let w = splitmix_words(seed);
    if w == (0u64, 0u64, 0u64, 0u64) {
        splitmix_words(0)
    } else {
        w
    }
}

/// The value xoshiro256++ gives in the state `s`: `rotl(s0 + s3, 23) + s0`, wrapping.
pub open spec fn xoshiro_value(s: (u64, u64, u64, u64)) -> u64 {
    let a = s.0.wrapping_add(s.3);
    ((a << 23u64) | (a >> 41u64)).wrapping_add(s.0)
}

/// The state xoshiro256++ moves to from the state `s`.
pub open spec fn xoshiro_step(s: (u64, u64, u64, u64)) -> (u64, u64, u64, u64) {
    let t = s.1 << 17u64;
    let s2 = s.2 ^ s.0;
    let s3 = s.3 ^ s.1;
    let s1 = s.1 ^ s2;
    let s0 = s.0 ^ s3;
    (s0, s1, s2 ^ t, (s3 << 45u64) | (s3 >> 19u64))
}

/// The state of the generator seeded from `seed` after it gave `n` values.
pub open spec fn state_after(seed: u64, n: nat) -> (u64, u64, u64, u64)
    decreases n,
{
    if n == 0 {
        seeded_state(seed)
    } else {
        xoshiro_step(state_after(seed, (n - 1) as nat))
    }
}

/// The value at position `n` (from 0) of the generator seeded from `seed`.
pub open spec fn xoshiro_output(seed: u64, n: nat) -> u64 {
    xoshiro_value(state_after(seed, n))
}

/// The output of SplitMix64 whose state has just become `x`.
fn splitmix_output(x: u64) -> (r: u64)
    ensures
        r == splitmix_mix(x),
{
    let z1 = (x ^ (x >> 30u64)).wrapping_mul(0xbf58_476d_1ce4_e5b9);
    let z2 = (z1 ^ (z1 >> 27u64)).wrapping_mul(0x94d0_49bb_1331_11eb);
    z2 ^ (z2 >> 31u64)
}

/// The first four outputs of SplitMix64 started from `seed`.
fn splitmix_first_words(seed: u64) -> (r: (u64, u64, u64, u64))
    ensures
        r == splitmix_words(seed),
{
    let x1 = seed.wrapping_add(SPLITMIX_GAMMA);
    let x2 = x1.wrapping_add(SPLITMIX_GAMMA);
    let x3 = x2.wrapping_add(SPLITMIX_GAMMA);
    let x4 = x3.wrapping_add(SPLITMIX_GAMMA);
    (splitmix_output(x1), splitmix_output(x2), splitmix_output(x3), splitmix_output(x4))
}

/// A deterministic generator that remembers the seed it was started from.
pub struct WorldRng {
    s0: u64,
    s1: u64,
    s2: u64,
    s3: u64,
    seed: u64,
    /// How many values the generator gave since it was seeded.
    draws: Ghost<nat>,
}

impl WorldRng {
    /// The state is the one the seed leads to after the values given.
    #[verifier::type_invariant]
    spec fn follows_seed(self) -> bool {
        (self.s0, self.s1, self.s2, self.s3) == state_after(self.seed, self.draws@)
    }

    /// The seed the generator was last started from.
    pub closed spec fn current_seed(&self) -> u64 {
        self.seed
    }

    /// How many values the generator gave since it was last started.
    pub closed spec fn draws(&self) -> nat {
        self.draws@
    }

    /// A generator started from `seed`.
    pub fn new(seed: u64) -> (r: Self)
        ensures
            r.current_seed() == seed,
            r.draws() == 0,
    {
        let w = splitmix_first_words(seed);
        let (s0, s1, s2, s3) = if w.0 == 0 && w.1 == 0 && w.2 == 0 && w.3 == 0 {
            splitmix_first_words(0)
        } else {
            w
        };
        WorldRng { s0, s1, s2, s3, seed, draws: Ghost(0) }
    }

    /// The seed the generator was last started from.
    pub fn seed(&self) -> (s: u64)
        ensures
            s == self.current_seed(),
    {
        self.seed
    }

    /// Starts the generator again from `seed`.
    pub fn set_seed(&mut self, seed: u64)
        ensures
            final(self).current_seed() == seed,
            final(self).draws() == 0,
    {
        *self = WorldRng::new(seed);
    }

    /// The next 64 random bits: the value at position `draws()` of the generator
    /// seeded from the seed.
    pub fn next_u64(&mut self) -> (v: u64)
        ensures
            v == xoshiro_output(old(self).current_seed(), old(self).draws()),
            final(self).current_seed() == old(self).current_seed(),
            final(self).draws() == old(self).draws() + 1,
    {
        proof {
            use_type_invariant(&*self);
        }
        let a = self.s0.wrapping_add(self.s3);
        let v = ((a << 23u64) | (a >> 41u64)).wrapping_add(self.s0);
        let t = self.s1 << 17u64;
        let s2 = self.s2 ^ self.s0;
        let s3 = self.s3 ^ self.s1;
        let s1 = self.s1 ^ s2;
        let s0 = self.s0 ^ s3;
        let next = WorldRng {
            s0,
            s1,
            s2: s2 ^ t,
            s3: (s3 << 45u64) | (s3 >> 19u64),
            seed: self.seed,
            draws: Ghost(self.draws@ + 1),
        };
        *self = next;
        v
    }
}

/// Two generators started from the same seed give the same values: after as many
/// draws, the next value of each is the same.
pub proof fn law_same_seed_same_values(a: WorldRng, b: WorldRng)
    requires
        a.current_seed() == b.current_seed(),
        a.draws() == b.draws(),
    ensures
        xoshiro_output(a.current_seed(), a.draws()) == xoshiro_output(b.current_seed(), b.draws()),
{
}

} // verus!
