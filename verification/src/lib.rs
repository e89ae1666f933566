//! Entropy-based precision and recall ("potential gain") of a stochastic
//! deterministic finite automaton with respect to an event log.
//!
//! Probabilities are exact fractions and entropies are exact log-polynomials;
//! the arithmetic itself is carried out by `ebi_arithmetic`, while this crate
//! verifies the logic that combines them.

pub mod fraction;
pub mod logdiv;
pub mod automaton;
pub mod entropy;
pub mod validity;
pub mod gain;
pub mod matrix;
pub mod visits;
pub mod model_entropy;
pub mod potential_gain;
pub mod primes;
pub mod rational;
pub mod smoothing;
pub mod termination;
pub mod chain_rule;
