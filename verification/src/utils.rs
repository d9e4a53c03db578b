//! Helpers that the rest of the crate shares.

pub mod env;
