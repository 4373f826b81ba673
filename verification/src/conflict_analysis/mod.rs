//! Conflict analysis: from a conflict to a learned nogood.

pub mod key_value_heap;
pub mod semantic_minimiser;
pub mod predicate_id_generator;
pub mod learned_nogood;
pub mod recursive_minimiser;
pub mod resolution_resolver;
