//! What the editor knows of the hosts around it: the repository it is open in
//! and the language servers.

use vstd::prelude::*;

verus! {

/// One commit of a history walk.
#[derive(Debug, Clone, PartialEq, Eq)]
pub struct CommitInfo {
    pub sha: String,
    pub short_sha: String,
    pub summary: String,
    pub author_name: String,
    pub author_email: String,
    /// Seconds since the epoch.
    pub time: i64,
    pub parents: Vec<String>,
}

/// How a server counts the columns of a line.
#[derive(Debug, Clone, Copy, PartialEq, Eq, Structural)]
pub enum OffsetEncoding {
    Utf8,
    Utf16,
    Utf32,
}

} // verus!
