//! The seeded generator that drives a session.
//!
//! The generator is `rand_pcg::Pcg64`, seeded from a string by
//! `rand_seeder`. Its state is opaque here: the functions below are the
//! only places where it is created or advanced, and their contracts are
//! taken on trust from those crates.

use vstd::prelude::*;
use rand::Rng;
use rand_pcg::Pcg64;
use rand_seeder::Seeder;

verus! {

#[verifier::external_type_specification]
#[verifier::external_body]
pub struct ExPcg64(Pcg64);

/// A generator seeded from `seed`, made by `rand_seeder::Seeder::from`
/// followed by `Seeder::make_rng`. Nothing is claimed of its state: the
/// seeding is a hash of the string and is the same on every machine, but no
/// contract here depends on that.
#[verifier::external_body]
pub fn seeded_rng(seed: &str) -> (rng: Pcg64) {
    Seeder::from(seed).make_rng()
}

/// One uniform draw from `0..bound`, made by `rand::Rng::gen_range`, which
/// panics on an empty range and otherwise returns a value inside it. Which
/// value comes back depends on the generator's state; only the range is
/// claimed.
#[verifier::external_body]
pub(crate) fn uniform_below(rng: &mut Pcg64, bound: u64) -> (value: u64)
    requires
        bound > 0,
    ensures
        value < bound,
{
    rng.gen_range(0..bound)
}

} // verus!
