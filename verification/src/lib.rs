use vstd::prelude::*;

pub mod consolidate;
pub mod embed;
pub mod error;
pub mod hashing;
pub mod application;
pub mod commands;
pub mod index_cache;
pub mod index_engine;
pub mod ingest;
pub mod io;
pub mod mcp;
pub mod memory;
pub mod operations;
pub mod parse;
pub mod persistence;
pub mod project;
pub mod recall;
pub mod scheduler;
pub mod text;

verus! {
} // verus!
