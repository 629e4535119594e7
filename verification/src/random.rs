//! The random source of the engine: a seeded generator of the `rand` crate
//! and the weighted draw of a tile.

use crate::possible_values::PossibleValues;
use crate::types::{samplable, views_of, weights_of, PossibleValue, TileType, WfcError};
use rand::rngs::StdRng;
use rand::seq::IndexedRandom;
use rand::SeedableRng;
use vstd::prelude::*;

verus! {

/// The generator of `rand` that a random source drives.
#[verifier::external_type_specification]
#[verifier::external_body]
pub struct ExStdRng(rand::rngs::StdRng);

/// The error with which `rand` refuses a list of weights.
#[verifier::external_type_specification]
#[verifier::external_body]
pub struct ExWeightError(rand::distr::weighted::Error);

/// `StdRng::seed_from_u64` of `rand`: a generator whose draws are fixed by
/// `seed`. Nothing is claimed of the generator.
#[verifier::external_body]
fn seeded_generator(seed: u64) -> StdRng {
    StdRng::seed_from_u64(seed)
}

/// `SeedableRng::try_from_os_rng` of `rand`, for its `StdRng`: a generator
/// seeded by the operating system, or nothing where the operating system
/// has no random bytes to give. Nothing is claimed of the generator, nor of
/// when there is one.
#[verifier::external_body]
fn fresh_generator() -> Option<StdRng> {
    StdRng::try_from_os_rng().ok()
}

/// `IndexedRandom::choose_weighted` of `rand`, on `values` with the weight
/// of each tile. The claim: it gives a tile exactly when the weights can be
/// sampled (there is one, none is negative, their sum is positive and fits
/// an `i32`), and the tile it gives is one of `values` whose weight is not
/// zero. Which of them it gives is left open.
#[verifier::external_body]
fn choose_weighted<T: TileType>(generator: &mut StdRng, values: &Vec<PossibleValue<T>>) -> (chosen:
    Result<PossibleValue<T>, rand::distr::weighted::Error>)
    ensures
        chosen is Ok <==> samplable(weights_of(views_of(values@))),
        chosen matches Ok(tile) ==> tile@.weight > 0 && exists|i: int|
            0 <= i < values@.len() && values@[i] == tile,
{
    values.choose_weighted(generator, |tile| tile.weight()).cloned()
}

/// Where the draws of the engine come from. A source made from a seed
/// repeats its draws and remembers the seed; one made from entropy does
/// not repeat them and has no seed to show.
pub struct RandomSource {
    generator: StdRng,
    seed: Option<u64>,
}

impl RandomSource {
    /// The seed from which the source was made, if it was made from one.
    pub closed spec fn seeded_by(&self) -> Option<u64> {
        self.seed
    }

    /// A source whose draws are fixed by `seed`.
    pub fn from_seed(seed: u64) -> (source: Self)
        ensures
            source.seeded_by() == Some(seed),
    {
        RandomSource { generator: seeded_generator(seed), seed: Some(seed) }
    }

    /// A source seeded by the operating system. Where the operating system
    /// has no random bytes to give there is no source.
    pub fn from_entropy() -> (source: Result<Self, WfcError>)
        ensures
            match source {
                Ok(made) => made.seeded_by() == None::<u64>,
                Err(e) => e == WfcError::EntropyUnavailable,
            },
    {
        match fresh_generator() {
            Some(generator) => Ok(RandomSource { generator, seed: None }),
            None => Err(WfcError::EntropyUnavailable),
        }
    }

    /// The seed from which the source was made, if it was made from one.
    pub fn seed(&self) -> (seed: Option<u64>)
        ensures
            seed == self.seeded_by(),
    {
        self.seed
    }

    /// Draws one tile of `values`, each with a chance in proportion to its
    /// weight. An empty set has nothing to draw; weights that sum up beyond
    /// `i32::MAX` cannot be sampled. The source keeps its seed.
    pub fn draw<T: TileType>(&mut self, values: &PossibleValues<T>) -> (drawn: Result<
        PossibleValue<T>,
        WfcError,
    >)
        ensures
            final(self).seeded_by() == old(self).seeded_by(),
            drawn is Ok <==> samplable(values.spec_weights()),
            match drawn {
                Ok(tile) => values@.contains(tile@) && tile@.weight > 0,
                Err(e) => e == if values.order().len() == 0 {
                    WfcError::EmptyCandidateSet
                } else {
                    WfcError::InvalidWeight
                },
            },
    {
        let listed = values.values();
        match choose_weighted(&mut self.generator, listed) {
            Ok(tile) => {
                proof {
                    let i = choose|i: int| 0 <= i < listed@.len() && listed@[i] == tile;
                    assert(values.order()[i] == tile@);
                }
                Ok(tile)
            },
            Err(_) => {
                if values.len() == 0 {
                    Err(WfcError::EmptyCandidateSet)
                } else {
                    Err(WfcError::InvalidWeight)
                }
            },
        }
    }
}

} // verus!
