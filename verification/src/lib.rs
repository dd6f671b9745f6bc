//! A single-user task tracker: an in-memory task collection with
//! monotonic id allocation, CRUD and query operations, aggregate
//! statistics, and a textual record format for durable storage.

pub mod casefold;
pub mod codec;
pub mod model;
pub mod store;
pub mod timefmt;
