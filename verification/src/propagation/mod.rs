//! What the engine and a propagator say to each other.

pub mod domain_events;
pub mod watch_list;
pub mod contexts;
pub mod constructor_context;
pub mod propagator;
