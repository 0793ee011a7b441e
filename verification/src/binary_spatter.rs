//! Binary spatter codes.

use std::sync::Arc;

use parking_lot::RwLock;
use rand::rngs::StdRng;
use vstd::prelude::*;

use crate::arithmetic::{agreement, compute_agreement};
use crate::bits::{BitVector, MAX_BITS};
use crate::generator::{draw_seed, drawn, random_bits, random_number, RandomSource};
use crate::model::{majority, mismatches, permuted, xor_bits};
use crate::resolution::FloatResolution;
use crate::storage::combinable;

verus! {

/// Architecture based upon binary spatter codes.
#[derive(Debug)]
#[verifier::reject_recursive_types(Rng)]
pub struct BinarySpatterCode<Rng = StdRng> {
    rng: Arc<RwLock<Rng>>,
}

/// Majority-vote bundling: where the two vectors agree their bit stays, elsewhere the bit of
/// `tiebreaker` is taken. Computed on whole words instead of bit by bit.
pub fn majority_bundle(accumulator: &mut BitVector, vector: &BitVector, tiebreaker: &BitVector)
    ensures
        final(accumulator)@ == majority(old(accumulator)@, vector@, tiebreaker@),
{
    let mut diff = accumulator.clone();
    diff.xor_assign(vector);
    diff.and_assign(tiebreaker);
    accumulator.and_assign(vector);
    accumulator.or_assign(&diff);
    assert(accumulator@ =~= majority(old(accumulator)@, vector@, tiebreaker@));
}

impl<Rng: RandomSource> BinarySpatterCode<Rng> {
    /// The generator that the architecture draws from, which its clones share.
    pub closed spec fn generator(&self) -> RwLock<Rng> {
        *self.rng
    }

    /// Create a new architecture with a seed.
    pub fn new(seed: u64) -> (architecture: Self)
        ensures
            call_ensures(Rng::seeded, (seed,), architecture.generator()),
    {
        BinarySpatterCode { rng: Arc::new(Rng::seeded(seed)) }
    }

    /// A random vector.
    pub fn random(&self, size: usize) -> (vector: BitVector)
        requires
            size <= MAX_BITS,
        ensures
            vector@.len() == size,
            drawn(self.generator(), vector@),
    {
        random_bits(&self.rng, size)
    }

    /// The vector as an accumulator.
    pub fn denormalize(storage: BitVector) -> (accumulator: BitVector)
        ensures
            accumulator == storage,
    {
        storage
    }

    /// The accumulator as a vector.
    pub fn normalize(&self, storage: BitVector) -> (vector: BitVector)
        ensures
            vector == storage,
    {
        storage
    }

    /// Binds `b` into `a`: exclusive or, bit by bit.
    pub fn bind(a: &mut BitVector, b: &BitVector)
        requires
            combinable(old(a)@.len(), b@.len()),
        ensures
            final(a)@ == xor_bits(old(a)@, b@),
    {
        a.xor_assign(b);
    }

    /// Bundles a vector into an accumulator: the majority of the two, with random bits where they
    /// differ.
    pub fn bundle(&self, accumulator: &mut BitVector, vector: &BitVector)
        ensures
            exists|tiebreaker: Seq<bool>|
                tiebreaker.len() == vector@.len() && drawn(self.generator(), tiebreaker)
                    && final(accumulator)@ == #[trigger] majority(
                    old(accumulator)@,
                    vector@,
                    tiebreaker,
                ),
    {
        let tiebreaker = random_bits(&self.rng, vector.len());
        majority_bundle(accumulator, vector, &tiebreaker);
    }

    /// Bundles an accumulator into another one, as `bundle` does with a vector.
    pub fn bundle_with_accumulator(&self, accumulator: &mut BitVector, vector: &BitVector)
        ensures
            exists|tiebreaker: Seq<bool>|
                tiebreaker.len() == vector@.len() && drawn(self.generator(), tiebreaker)
                    && final(accumulator)@ == #[trigger] majority(
                    old(accumulator)@,
                    vector@,
                    tiebreaker,
                ),
    {
        let tiebreaker = random_bits(&self.rng, vector.len());
        majority_bundle(accumulator, vector, &tiebreaker);
    }

    /// Binds `b` into the accumulator `a`.
    pub fn bind_with_accumulator(a: &mut BitVector, b: &BitVector)
        requires
            combinable(old(a)@.len(), b@.len()),
        ensures
            final(a)@ == xor_bits(old(a)@, b@),
    {
        a.xor_assign(b);
    }

    /// Moves every bit `shifts` places towards the end, those that pass the end coming in at the
    /// front.
    pub fn permute(a: &mut BitVector, shifts: usize)
        ensures
            final(a)@ == permuted(old(a)@, shifts as nat),
    {
        a.permute(shifts);
    }

    /// The cosine of the two vectors, read as signs: one for equal vectors, minus one for
    /// opposite ones.
    pub fn similarity<F: FloatResolution>(a: &BitVector, b: &BitVector) -> (result: F)
        requires
            combinable(a@.len(), b@.len()),
        ensures
            agreement(a@.len(), mismatches(a@, b@), result),
    {
        compute_agreement(a.len(), a.mismatches(b))
    }

    /// The similarity of two accumulators.
    pub fn similarity_unnormalized<F: FloatResolution>(a: &BitVector, b: &BitVector) -> (result: F)
        requires
            combinable(a@.len(), b@.len()),
        ensures
            agreement(a@.len(), mismatches(a@, b@), result),
    {
        Self::similarity(a, b)
    }
}

impl<Rng: RandomSource> Clone for BinarySpatterCode<Rng> {
    fn clone(&self) -> (copy: Self)
        ensures
            copy.generator() == self.generator(),
    {
        BinarySpatterCode { rng: self.rng.clone() }
    }
}

impl<Rng: RandomSource> Default for BinarySpatterCode<Rng> {
    fn default() -> (architecture: Self)
        ensures
            exists|seed: u64|
                random_number(seed) && #[trigger] call_ensures(
                    Rng::seeded,
                    (seed,),
                    architecture.generator(),
                ),
    {
        Self::new(draw_seed())
    }
}

} // verus!
