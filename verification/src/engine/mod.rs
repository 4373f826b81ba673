//! The engine that runs propagators on the domain store.

pub mod test_solver;
pub mod propagator_queue;
pub mod solver;
