//! A verified task tracker core: an in-memory task store with add, list,
//! update-status and delete operations, and a snapshot codec that turns the
//! whole collection into bytes and back, with a proven round-trip law.

pub mod codec;
pub mod store;
pub mod task;
