//! A storage-engine layer for a key-value store: point reads, forward seeks
//! and batched writes over byte-string keys, behind one contract.
pub mod engine;
pub mod keys;
pub mod laws;
pub mod memory;

pub use engine::{new_engine, Dsn, Engine, Error, Modify};
pub use memory::MemoryEngine;
