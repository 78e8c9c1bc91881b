//! An in-memory store of short text notes with unique identifiers,
//! together with a small request façade: create, list, and delete,
//! each specified and verified.

pub mod facade;
pub mod ids;
pub mod laws;
pub mod store;
