//! A verified library for tracking practice problems: a `Problem` record with
//! metadata and up to three timed solve attempts, an in-memory store with
//! CRUD and query operations, and a deterministic text renderer.

pub mod problem;
pub mod render;
pub mod store;
pub mod text;
