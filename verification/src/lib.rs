//! A Redis-compatible key/value server core: reading commands, the
//! per-database data structures and the operations that run against them.

pub mod asyncresp;
pub mod bloom;
pub mod collections;
pub mod data_structures;
pub mod hashes;
pub mod keys;
pub mod keyspace;
pub mod laws;
pub mod lists;
pub mod misc;
pub mod ops;
pub mod rvec;
pub mod scripting;
pub mod server;
pub mod sets;
pub mod sorted_sets;
pub mod startup;
pub mod state;
pub mod text;
pub mod types;
