//! Layout of the global artifact cache.

pub mod manager;

pub use manager::CacheManager;
