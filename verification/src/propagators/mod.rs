//! The propagators of the library.

pub mod nosum;
pub mod reified;
pub mod bin_packing;
pub mod packing;
