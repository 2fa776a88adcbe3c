//! Core of an inventory-tracking and reservation service: entries (physical
//! items) can be looked up and searched, staged in per-user carts, and
//! reserved for half-open time windows so that no two reservations for the
//! same entry ever overlap; a separate in-memory session store hands out
//! expiring credentials for stateless requests.
//!
//! The storage tables (entries, users, reservations, cart) are modelled as
//! in-memory state owned by [`repository::Repository`]; the session table is
//! owned by [`sessions::Sessions`]. The surrounding process (chat dispatch,
//! HTTP routing, rendering) lives outside this crate and calls in with plain
//! values.

pub mod config;
pub mod idgen;
pub mod models;
pub mod repository;
pub mod sessions;
pub mod templates;
pub mod text;
pub mod tokens;
