//! Core of a real-time threaded chat backend.
//!
//! The library is organised leaf-first:
//! - [`snowflake`]: time-ordered 63-bit identifiers,
//! - [`allocator`]: the identifier generator,
//! - [`codec`]: the textual wire format (decimal identifiers, escaped strings,
//!   message frames),
//! - [`store`]: the in-memory data store for users, sessions, rooms and the
//!   threaded message tree,
//! - [`auth`]: password hashing, session verification, login and
//!   registration,
//! - [`state`]: the shared application state,
//! - [`hub`]: broadcast envelopes and delivery filtering,
//! - [`conn`]: the per-connection command handler and lifecycle.

pub mod snowflake;

pub mod allocator;

pub mod codec;

#[verifier::loop_isolation(false)]
pub mod store;

pub mod auth;

pub mod state;

pub mod hub;

pub mod conn;
