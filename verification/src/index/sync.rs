//! What the scanner hands the index for one file, and the change test that
//! lets an unchanged file skip re-indexing.
use vstd::prelude::*;

verus! {

/// Everything the index stores for one parsed file.
#[derive(Debug, PartialEq)]
pub struct FileIndexInput {
    /// Vault-relative path.
    pub rel_path: String,
    /// Modification time, in nanoseconds.
    pub mtime_ns: i64,
    /// Size in bytes.
    pub size_bytes: i64,
    /// The text before the first headline, when there is any.
    pub preamble: Option<PreambleInput>,
    /// The top-level headlines, in document order.
    pub headlines: Vec<HeadlineInput>,
}

/// The preamble of a file.
#[derive(Debug, Clone, PartialEq)]
pub struct PreambleInput {
    pub body: String,
    pub byte_start: i64,
    pub byte_end: i64,
    pub links: Vec<LinkInput>,
}

/// One headline and its subtree.
#[derive(Debug, PartialEq)]
pub struct HeadlineInput {
    pub level: i64,
    /// Document position among its file's headlines.
    pub position: i64,
    pub byte_start: i64,
    pub byte_end: i64,
    pub todo_keyword: Option<String>,
    /// Whether the TODO keyword is a done state, when there is one.
    pub todo_done: Option<bool>,
    pub title: String,
    pub body: String,
    pub scheduled_date: Option<String>,
    pub scheduled_time: Option<String>,
    pub deadline_date: Option<String>,
    pub deadline_time: Option<String>,
    pub closed_date: Option<String>,
    pub closed_time: Option<String>,
    pub tags: Vec<String>,
    pub properties: Vec<(String, String)>,
    pub clock_entries: Vec<ClockInput>,
    pub links: Vec<LinkInput>,
    pub children: Vec<HeadlineInput>,
}

/// One CLOCK entry.
#[derive(Debug, Clone, PartialEq)]
pub struct ClockInput {
    pub start_at: String,
    /// `None` while the clock runs.
    pub end_at: Option<String>,
    pub duration_seconds: Option<i64>,
}

/// One link found in a headline or preamble.
#[derive(Debug, Clone, PartialEq)]
pub struct LinkInput {
    pub kind: String,
    pub target: String,
    pub description: Option<String>,
}

/// One change to the index, applied in a writer transaction.
#[derive(Debug, PartialEq)]
pub enum SyncOp {
    /// Replace the file's rows with these.
    Upsert(FileIndexInput),
    /// Keep the file listed but drop its content rows, with the reason.
    Quarantine { rel_path: String, mtime_ns: i64, size_bytes: i64, reason: String },
    /// Drop the file and all its rows.
    Delete { rel_path: String },
}

impl SyncOp {
    /// The vault-relative path the operation touches.
    pub fn rel_path(&self) -> (r: &str)
        ensures
            r@ == match self {
                SyncOp::Upsert(input) => input.rel_path@,
                SyncOp::Quarantine { rel_path, .. } => rel_path@,
                SyncOp::Delete { rel_path } => rel_path@,
            },
    {
        match self {
            SyncOp::Upsert(input) => input.rel_path.as_str(),
            SyncOp::Quarantine { rel_path, .. } => rel_path.as_str(),
            SyncOp::Delete { rel_path } => rel_path.as_str(),
        }
    }
}

/// A file is unchanged when the index already lists it with the same
/// modification time and size; `found` is what the index lists for its
/// path, if anything.
pub fn is_unchanged(found: Option<(i64, i64)>, mtime_ns: i64, size_bytes: i64) -> (r: bool)
    ensures
        r == (found == Some((mtime_ns, size_bytes))),
{
    match found {
        Some((m, s)) => m == mtime_ns && s == size_bytes,
        None => false,
    }
}

} // verus!
