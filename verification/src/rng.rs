//! The random source: uniform 64-bit draws from a small, fast generator,
//! seedable for reproducible runs or seeded from system entropy.
use vstd::prelude::*;
use rand::rngs::SmallRng;
use rand::Rng;
use rand::SeedableRng;

verus! {

#[verifier::external_type_specification]
#[verifier::external_body]
pub struct ExSmallRng(SmallRng);

/// A source of uniform draws for one estimation pass. Nothing is known of
/// the values drawn: every contract downstream holds whatever they are. The
/// seed the generator was built from, if any, is recorded in ghost state, so
/// contracts can tell a reproducible generator from an entropy-seeded one.
pub struct Gen {
    rng: SmallRng,
    built_from: Ghost<Option<u64>>,
}

/// Relies on rand's `SmallRng::seed_from_u64`: builds a generator whose
/// draws are determined by the seed.
#[verifier::external_body]
fn small_rng_from_seed(seed: u64) -> SmallRng {
    SmallRng::seed_from_u64(seed)
}

/// Relies on rand's `SmallRng::from_entropy`: builds a generator seeded from
/// system entropy.
#[verifier::external_body]
fn small_rng_from_entropy() -> SmallRng {
    SmallRng::from_entropy()
}

/// Relies on rand's `Rng::gen`: draws one uniform 64-bit value; nothing is
/// promised of the value.
#[verifier::external_body]
fn draw_u64(rng: &mut SmallRng) -> u64 {
    rng.gen()
}

impl Gen {
    /// The seed this generator was built from, `None` for one built from
    /// entropy.
    pub closed spec fn seed(&self) -> Option<u64> {
        self.built_from@
    }

    /// A generator from an explicit seed, for reproducible runs, or from
    /// system entropy when no seed is given.
    pub fn new(seed: Option<u64>) -> (r: Gen)
        ensures
            r.seed() == seed,
    {
        let rng = match seed {
            Some(s) => small_rng_from_seed(s),
            None => small_rng_from_entropy(),
        };
        Gen { rng, built_from: Ghost(seed) }
    }

    /// One uniform 64-bit draw.
    pub(crate) fn next_u64(&mut self) -> u64 {
        draw_u64(&mut self.rng)
    }
}

} // verus!
