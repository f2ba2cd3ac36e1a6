//! Exact damage distributions for dice-based combat between two models.
//!
//! A probability is carried as an integer weight over a denominator that the
//! contracts name, so every statement in the crate is an exact statement
//! about integers: a damage map gives each damage its weight, and a weight
//! divided by the sum of all weights is the probability of that damage.
//!
//! - [`combinatorics`]: binomial coefficients and binomial weights.
//! - [`sums`]: finite sums over ranges of integers, for the contracts.
//! - [`weight_map`]: maps from an outcome to its weight.
//! - [`convolution`]: the distribution of the total of several rounds.
//! - [`model`]: the combatants and the options of a computation.
//! - [`dice`]: simulated rolls of open-ended dice.
//! - [`combat`]: the damage of one round, from the successes of both sides.
//! - [`engine`]: the damage distribution of a whole fight.

pub mod combinatorics;
pub mod sums;
pub mod weight_map;
pub mod convolution;
pub mod model;
pub mod dice;
pub mod combat;
pub mod engine;
