//! Durable snapshot storage.
pub mod crash;
pub mod flusher;
pub mod laws;
pub mod manifest;
pub mod store;
pub mod vfs;
