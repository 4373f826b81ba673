//! A lazy-clause-generation constraint solver core for finite-domain integer
//! problems: a trailed domain store, propagators with explanations, a
//! bin-packing global constraint and a 1-UIP conflict analyser.

pub mod predicate;
pub mod conjunction;
pub mod identifiers;
pub mod reason;
pub mod assignments;
pub mod propagators;
pub mod literal;
pub mod inconsistency;
pub mod propagation;
pub mod engine;
pub mod solution;
pub mod function;
pub mod constraints;
pub mod statistics;
pub mod conflict_analysis;
pub mod branching;
