//! The records that the service keeps.

pub mod user_model;
