//! Dependency resolution: effective POMs, the transitive traversal, the
//! direct-only resolution and the bridge to the PubGrub solver.

pub mod effective;
pub mod pubgrub;
pub mod simple;
pub mod transitive;

pub use transitive::{Resolution, ResolveOptions, TransitiveResolver};
