//! Request admission for an HTTP service that may sit behind one trusted
//! reverse proxy: who sent a request, and may it pass.
//!
//! * [`address`]: the identity of a client, an IP address.
//! * [`text`]: digits, numbers and separated pieces of ASCII text.
//! * [`parse`]: addresses in text form.
//! * [`render`]: addresses written out as text.
//! * [`roundtrip`]: what is written is read back.
//! * [`origin`]: the identity of a request under a trust boundary.
//! * [`bucket`]: the token bucket of one client.
//! * [`limiter`]: admission of clients by their buckets.
//! * [`utils`]: settings by name, with defaults.
//! * [`config`]: what a deployment is configured with.
//! * [`models`]: users and their passwords.
//! * [`error`]: errors and the responses that report them.
//! * [`repository`]: the settings of the database connection.

pub mod address;
pub mod bucket;
pub mod config;
pub mod error;
pub mod limiter;
pub mod models;
pub mod origin;
pub mod parse;
pub mod render;
pub mod repository;
pub mod roundtrip;
pub mod text;
pub mod utils;
