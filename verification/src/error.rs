//! Error values of the resolver, carrying plain text.

use vstd::prelude::*;

verus! {

/// Errors of the resolver. Causes that come from outside the library
/// (I/O, HTTP) are carried as their message text.
#[derive(Debug)]
pub enum JvError {
    Io(String),
    Http { repo: String, source: String },
    HttpStatus { status: u16, url: String },
    PomParse { coord: String, reason: String },
    VersionParse { version: String, reason: String },
    VersionRangeParse { range: String, reason: String },
    DependencyNotFound { coord: String },
    Conflict { group: String, artifact: String, details: String },
    Cache { path: String, reason: String },
    LockFile(String),
    GradleParse(String),
    Other(String),
}

/// `e` is a POM parse error for an unknown coordinate with the given reason.
pub open spec fn is_pom_parse_error(e: JvError, reason: Seq<char>) -> bool {
    match e {
        JvError::PomParse { coord, reason: r } => coord@ == "unknown"@ && r@ == reason,
        _ => false,
    }
}

} // verus!
