//! The configuration record that drives training.

use vstd::prelude::*;

use crate::activation::Activation;
use crate::util::{COEFF_LIMIT, SCALE, WEIGHT_LIMIT};

verus! {

/// The parameters used to train a population.
///
/// All fractional quantities are fixed-point integers in thousandths: a
/// field value of `1000` stands for `1.0`, and the probabilities range over
/// `[0, 1000]`.
#[derive(Clone, Copy, Debug)]
pub struct Params {
    /// The weight for excess genes in the difference function.
    pub c1: i64,
    /// The weight for disjoint genes in the difference function.
    pub c2: i64,
    /// The weight for the matching-gene weight differences in the
    /// difference function.
    pub c3: i64,
    /// The activation function applied at every computed network node.
    pub activation: Activation,
    /// The largest difference value at which two individuals still count as
    /// members of the same species.
    pub delta_cutoff: i64,
    /// The chance, in thousandths, that an individual is mutated.
    pub mutation_rate: i64,
    /// The largest magnitude by which a reweight mutation moves a weight.
    pub reweight_amount: i64,
    /// The chance, in thousandths, that a gene is touched by a reweight.
    pub reweight_rate: i64,
    /// The number of members in the population.
    pub population_size: usize,
}

impl Params {
    /// The ranges within which the engine's arithmetic is proved exact.
    pub open spec fn valid(self) -> bool {
        &&& 0 <= self.c1 <= COEFF_LIMIT
        &&& 0 <= self.c2 <= COEFF_LIMIT
        &&& 0 <= self.c3 <= COEFF_LIMIT
        &&& 0 <= self.delta_cutoff <= COEFF_LIMIT
        &&& 0 <= self.mutation_rate <= SCALE
        &&& 0 <= self.reweight_amount <= WEIGHT_LIMIT
        &&& 0 <= self.reweight_rate <= SCALE
    }
}

impl Default for Params {
    /// The documented defaults: unit weights for excess and disjoint genes,
    /// `0.4` for matching-weight differences, a species cutoff of `3.0`, and
    /// one-half for each mutation probability and for the reweight step.
    fn default() -> (r: Params)
        ensures
            r.c1 == SCALE,
            r.c2 == SCALE,
            r.c3 == 400,
            r.activation == Activation::Sigmoid,
            r.delta_cutoff == 3 * SCALE,
            r.mutation_rate == 500,
            r.reweight_amount == 500,
            r.reweight_rate == 500,
            r.population_size == 300,
            r.valid(),
    {
        Params {
            c1: 1000,
            c2: 1000,
            c3: 400,
            activation: Activation::Sigmoid,
            delta_cutoff: 3000,
            mutation_rate: 500,
            reweight_amount: 500,
            reweight_rate: 500,
            population_size: 300,
        }
    }
}

} // verus!
