//! Build file readers: the Maven POM model and basic Gradle support.

pub mod gradle;
pub mod pom;

pub use pom::Pom;
