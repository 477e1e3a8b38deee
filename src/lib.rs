//! Event-timeline and client-synchronisation engine of a federated chat server.
//!
//! The crate holds, all verified: the global sequence counter, the per-user
//! account-data store, the per-room event log with content-addressed state
//! snapshots, the room mutation pipeline, and the decisions of the sync engine.
mod error;
pub use error::Error;

pub mod counter;
pub mod ids;
pub mod json;
pub mod text;

pub mod account_data;
pub mod state;
pub mod events;
pub mod rooms;
pub mod pipeline;
pub mod sync;
pub mod flight;
pub mod push;
pub mod devices;
pub mod response;
pub mod summary;
