//! Repository layout and metadata reading.

pub mod client;

pub use client::MavenMetadata;
