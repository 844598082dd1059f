//! A small document database: an in-memory key-value engine, the logic of a
//! log-structured merge (LSM) engine with a write-ahead log, a document store
//! replayed from its commit log, and the command parser of its console.
pub mod storage_engine;
pub mod document;
pub mod cli;
pub mod laws;
pub mod value_laws;
