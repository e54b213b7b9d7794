//! Command-line arguments of the `jv` tool, as plain values (the
//! application parses them).

use vstd::prelude::*;

verus! {

/// jv - A fast, Rust-based Java dependency resolver.
#[derive(Debug)]
pub struct Cli {
    pub command: Commands,
}

/// The subcommands.
#[derive(Debug)]
pub enum Commands {
    /// Resolve dependencies from a Maven or Gradle build file and generate a lock file.
    Resolve(ResolveArgs),
    /// Verify that the current lock file is up-to-date with the project.
    Verify,
    /// Update a specific dependency to a newer version.
    Update(UpdateArgs),
    /// Manage the local artifact cache.
    Cache(CacheArgs),
}

/// Arguments of `resolve`.
#[derive(Debug)]
pub struct ResolveArgs {
    /// Path to pom.xml, build.gradle, or build.gradle.kts (default `pom.xml`).
    pub file: String,
    /// Output path for the generated lock file (default `jv.lock`).
    pub output: String,
    /// Additional Maven repository URLs.
    pub repositories: Vec<String>,
    /// Perform a dry run without writing the lock file.
    pub dry_run: bool,
}

/// Arguments of `update`.
#[derive(Debug)]
pub struct UpdateArgs {
    /// Dependency to update in group:artifact format or group:artifact:version.
    pub dependency: String,
    /// Allow major version upgrades.
    pub major: bool,
}

/// Arguments of `cache`.
#[derive(Debug)]
pub struct CacheArgs {
    pub command: CacheCommands,
}

/// The cache subcommands.
#[derive(Debug)]
pub enum CacheCommands {
    /// Remove all cached artifacts and metadata.
    Clean,
    /// Remove unused or stale entries from the cache.
    Prune,
}

} // verus!
