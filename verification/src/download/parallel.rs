//! Outcome of fetching one artifact (the downloading itself, concurrent and
//! with progress bars, is done by the application).

use vstd::prelude::*;
use crate::models::Artifact;

verus! {

/// Result of a single artifact download attempt.
#[derive(Debug)]
pub struct DownloadResult {
    pub artifact: Artifact,
    /// Where the artifact is stored, when it is available.
    pub path: Option<String>,
    /// It was found in the cache.
    pub cached: bool,
    pub error: Option<String>,
}

} // verus!
