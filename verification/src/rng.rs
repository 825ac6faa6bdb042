//! The crate's only outside calls: randomness from the `rand` crate.
//!
//! Three trusted wrappers stand here.  Everything downstream of them is
//! verified for every value they can hand back: the deal builders prove
//! their guarantees for every permutation a shuffle may produce, and the
//! solver's key table is named as a pure function of its seed, which makes
//! every search a deterministic function of its inputs.

use rand::seq::SliceRandom;
use rand::{Rng, SeedableRng};
use vstd::prelude::*;

verus! {

/// The `n`-entry key stream that `rand`'s standard generator produces from
/// `seed`.  `StdRng` is a pure, seeded block cipher generator, so the
/// stream is a function of the seed alone; no contract states what the
/// entries are, only that they are always the same.
pub uninterp spec fn rand_stream(seed: u64, n: nat) -> Seq<u64>;

/// Relies on `rand::rngs::StdRng::seed_from_u64` and `rand::Rng::gen`:
/// `StdRng` is a deterministic generator seeded from the given value, so
/// the drawn words depend on `seed` and `n` alone.
#[verifier::external_body]
pub fn sample_stream(seed: u64, n: usize) -> (r: Vec<u64>)
    ensures
        r@ == rand_stream(seed, n as nat),
        r@.len() == n,
{
    let mut rng = rand::rngs::StdRng::seed_from_u64(seed);
    (0..n).map(|_| rng.gen()).collect()
}

/// Relies on `rand::Rng::gen_range` over `rand::thread_rng`: the result is
/// uniform in `[0, n)`.  Nothing more can be promised of a fresh draw, and
/// every caller is verified for every value below `n`.
#[verifier::external_body]
pub fn random_below(n: u32) -> (r: u32)
    requires
        n > 0,
    ensures
        r < n,
{
    rand::thread_rng().gen_range(0..n)
}

/// Relies on `rand::seq::SliceRandom::shuffle` over `rand::thread_rng`:
/// a Fisher-Yates pass permutes the slice in place, so the result holds
/// the same items with the same multiplicity in some order.
#[verifier::external_body]
pub fn shuffle_cards(v: &mut Vec<u8>)
    ensures
        final(v)@.to_multiset() == old(v)@.to_multiset(),
        final(v)@.len() == old(v)@.len(),
{
    v.shuffle(&mut rand::thread_rng());
}

} // verus!
