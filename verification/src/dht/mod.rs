//! The distributed hash table.
pub mod answers;
pub mod error;
pub mod laws;
pub mod message;
pub mod node;
pub mod pending;
pub mod record;
pub mod routing;
