//! Where the records are kept.

pub mod surrealdb_repo;
