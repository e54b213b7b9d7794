//! jv - fast Java dependency resolver (library crate).
//!
//! The library holds the resolution engine: Maven versions and ranges,
//! build-file models, effective-POM merging, transitive resolution
//! decisions, cache layout, repository metadata and lock-file content.

pub mod cache;
pub mod cli;
pub mod download;
pub mod error;
pub mod lockfile;
pub mod models;
pub mod parser;
pub mod repository;
pub mod resolver;
pub mod text;

pub use models::{
    Artifact, Dependency, Exclusion, MavenCoordinate, ResolvedDependency, Scope, Version,
    VersionRange,
};
