//! Outcomes of artifact downloads.

pub mod parallel;

pub use parallel::DownloadResult;
