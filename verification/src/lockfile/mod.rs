//! Deterministic lock file content (`jv.lock`).

pub mod generator;

pub use generator::LockFile;
