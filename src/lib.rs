//! A small implementation of the Granola transaction protocol.
//!
//! Each [`repository::Repository`] owns a partition of keyed records and runs
//! transactions of three kinds: single-repository, independent distributed and
//! coordinated distributed. A per-repository [`database::Database`] keeps the
//! active transactions in timestamp order, detects conflicts on locked or
//! missing keys and runs whatever has become runnable.

pub mod operations;
pub mod database;
pub mod messages;
pub mod repository;
pub mod runtime;
pub mod client;
