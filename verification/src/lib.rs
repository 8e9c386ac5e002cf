//! A small retrieval pipeline: document chunking, an integer-vector
//! collection with exact nearest-neighbour search, a byte-level codec for
//! durable snapshots, and a named registry of persisted collections.

pub mod chunker;
pub mod codec;
pub mod collection;
pub mod database;
pub mod error;
pub mod pipeline;
pub mod record;
pub mod vector;
