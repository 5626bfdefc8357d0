//! A stochastic local-search solver core for weighted MAX-3SAT.
//!
//! A problem instance is a 3-CNF formula with one non-negative weight per
//! variable. The search looks for a truth assignment that satisfies as many
//! clauses as possible while maximizing the summed weight of the variables set
//! true. This crate holds the verified core: the problem model, the instance
//! parser, the objective function, the neighbor generator, the temperature
//! schedule and the annealing controller's state machine. Temperatures are
//! kept as fixed-point integers (millionths); the surrounding binary supplies
//! the Metropolis coin flips, whose `exp` evaluation needs floating point.

pub mod model;
pub mod neighbor;
pub mod objective;
pub mod parse;
pub mod render;
mod rng;
pub mod schedule;
pub mod search;
