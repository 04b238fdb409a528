//! Pseudo-random numbers for the searches.
//!
//! `RNG` carries the two generators that the searches draw from: a seeded
//! `SmallRng` of the `rand` crate, and a small home-made generator whose whole
//! state is one `isize`. It keeps, as ghost state, the values drawn from the
//! `SmallRng`, so that contracts can say which draw decided what.

use rand::rngs::SmallRng;
use rand::{RngCore, SeedableRng};
use vstd::prelude::*;

verus! {

/// Seed of the home-made generator before `set_new_seed` is called.
pub const SEED: usize = 334;

/// Mask mixed into every step of the home-made generator.
pub const MASK: isize = 29871152;

/// Multiplier of the home-made generator.
pub const PRIME: isize = 65539;

/// Number of steps of `2^-53` in 1: the fractions that `next_unit_bits` gives
/// are below it.
pub const UNIT_STEPS: u64 = 0x20_0000_0000_0000;

/// Seed that the `SmallRng` gets when it is drawn from before it was seeded.
pub const DEFAULT_SMALL_SEED: u64 = 33;

#[verifier::external_type_specification]
#[verifier::external_body]
pub struct ExSmallRng(SmallRng);

/// Calls `SeedableRng::seed_from_u64` for `SmallRng`. Nothing is claimed of the
/// generator's state.
#[verifier::external_body]
fn small_rng_seeded(seed: u64) -> (r: SmallRng) {
    SmallRng::seed_from_u64(seed)
}

/// Calls `RngCore::next_u64` on a `SmallRng`. The value rests on the
/// generator's state, which Verus does not see: nothing is claimed of it.
#[verifier::external_body]
fn small_rng_next_u64(r: &mut SmallRng) -> (x: u64) {
    r.next_u64()
}

/// One step of the home-made generator, computed with wrapping arithmetic.
pub open spec fn home_step(x: isize) -> isize {
    x.wrapping_add(1).wrapping_mul(PRIME).wrapping_add(
        MASK ^ x.wrapping_shl(3).wrapping_mul(PRIME),
    ).wrapping_sub(MASK ^ (x >> 2u32))
}

/// Both generators of the searches.
pub struct RNG {
    srng: Option<SmallRng>,
    current: isize,
    drawn: Ghost<Seq<u64>>,
}

impl RNG {
    /// State of the home-made generator.
    pub closed spec fn home(&self) -> isize {
        self.current
    }

    /// Whether the `SmallRng` has been seeded.
    pub closed spec fn seeded(&self) -> bool {
        self.srng is Some
    }

    /// The values drawn from the `SmallRng` so far, in order (one per call of
    /// `next` or `next_unit_bits`).
    pub closed spec fn draws(&self) -> Seq<u64> {
        self.drawn@
    }

    /// A `SmallRng` not yet seeded, and the home-made generator at `SEED`.
    pub fn new() -> (r: RNG)
        ensures
            r.home() == SEED as isize,
            !r.seeded(),
            r.draws() == Seq::<u64>::empty(),
    {
        RNG { srng: None, current: SEED as isize, drawn: Ghost(Seq::empty()) }
    }

    /// Seeds the `SmallRng` with `seed`; the home-made generator is untouched.
    pub fn set_new_seed(&mut self, seed: usize)
        ensures
            final(self).home() == old(self).home(),
            final(self).seeded(),
            final(self).draws() == old(self).draws(),
    {
        self.srng = Some(small_rng_seeded(seed as u64));
    }

    /// Draws from the `SmallRng`, seeding it with `DEFAULT_SMALL_SEED` first
    /// where it was not seeded. A seeded generator is advanced twice per call
    /// and the first of the two values is returned.
    fn next_u64(&mut self) -> (x: u64)
        ensures
            final(self).home() == old(self).home(),
            final(self).seeded(),
            final(self).draws() == old(self).draws().push(x),
    {
        let x = match &mut self.srng {
            Some(r) => {
                let x = small_rng_next_u64(r);
                let _discarded = small_rng_next_u64(r);
                x
            },
            None => {
                let mut r = small_rng_seeded(DEFAULT_SMALL_SEED);
                let x = small_rng_next_u64(&mut r);
                self.srng = Some(r);
                x
            },
        };
        proof {
            self.drawn@ = self.drawn@.push(x);
        }
        x
    }

    /// A draw of `next_u64`, as a `usize`.
    pub fn next(&mut self) -> (x: usize)
        ensures
            final(self).home() == old(self).home(),
            final(self).seeded(),
            final(self).draws().len() == old(self).draws().len() + 1,
            final(self).draws().drop_last() == old(self).draws(),
            x == final(self).draws().last() as usize,
    {
        self.next_u64() as usize
    }

    /// A draw of `next_u64` taken as a fraction of 1 in steps of `2^-53`: its
    /// top 53 bits, which are that fraction times `2^53`.
    pub fn next_unit_bits(&mut self) -> (k: u64)
        ensures
            final(self).home() == old(self).home(),
            final(self).seeded(),
            k < UNIT_STEPS,
            final(self).draws().len() == old(self).draws().len() + 1,
            final(self).draws().drop_last() == old(self).draws(),
            k == final(self).draws().last() >> 11u64,
    {
        let x = self.next_u64();
        let k = x >> 11u64;
        assert(x >> 11u64 < 0x20_0000_0000_0000u64) by (bit_vector);
        k
    }
}

/// Sets the state of the home-made generator to `new_seed`.
pub fn set_new_seed(rng: &mut RNG, new_seed: usize)
    ensures
        final(rng).home() == new_seed as isize,
        final(rng).seeded() == old(rng).seeded(),
        final(rng).draws() == old(rng).draws(),
{
    rng.current = new_seed as isize;
}

/// Advances the home-made generator by one step and returns its new state,
/// read as a `usize`.
pub fn next_usize(rng: &mut RNG) -> (x: usize)
    ensures
        final(rng).home() == home_step(old(rng).home()),
        final(rng).seeded() == old(rng).seeded(),
        final(rng).draws() == old(rng).draws(),
        x == home_step(old(rng).home()) as usize,
{
    let next = rng.current;
    let next = next.wrapping_add(1).wrapping_mul(PRIME).wrapping_add(
        MASK ^ next.wrapping_shl(3).wrapping_mul(PRIME),
    ).wrapping_sub(MASK ^ (next >> 2u32));
    rng.current = next;
    next as usize
}

} // verus!
