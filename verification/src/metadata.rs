//! Optional per-file timestamps.

use vstd::prelude::*;

verus! {

/// Basic metadata for a file: timestamps in whole seconds since the epoch.
/// It is attached to a file only when the scan asked for it, so that builds
/// stay reproducible by default.
#[derive(Debug, Copy, Clone, PartialEq, Eq, Structural)]
pub struct Metadata {
    pub accessed: u64,
    pub created: u64,
    pub modified: u64,
}

impl Metadata {
    /// Bundles the three timestamps, each in seconds since the epoch.
    pub fn new(accessed: u64, created: u64, modified: u64) -> (r: Metadata)
        ensures
            r == (Metadata { accessed, created, modified }),
    {
        Metadata { accessed, created, modified }
    }

    /// Seconds since the epoch at which the file was last accessed.
    pub fn accessed(&self) -> (r: u64)
        ensures
            r == self.accessed,
    {
        self.accessed
    }

    /// Seconds since the epoch at which the file was created.
    pub fn created(&self) -> (r: u64)
        ensures
            r == self.created,
    {
        self.created
    }

    /// Seconds since the epoch at which the file was last modified.
    pub fn modified(&self) -> (r: u64)
        ensures
            r == self.modified,
    {
        self.modified
    }
}

} // verus!
