//! Index statistics, as read back from the database.
use vstd::prelude::*;

verus! {

/// Row counts and schema facts of one index.
#[derive(Debug, Clone, PartialEq, Eq)]
pub struct IndexStats {
    /// Indexed files.
    pub file_count: i64,
    /// Files quarantined as unparseable or unreadable.
    pub quarantined_count: i64,
    /// Headline rows (preambles included).
    pub headline_count: i64,
    /// Tag rows.
    pub tag_count: i64,
    /// Link rows.
    pub link_count: i64,
    /// Documents in the title search table.
    pub fts_doc_count: i64,
    /// Latest applied schema version.
    pub schema_version: i64,
    /// When that version was applied.
    pub schema_applied_at: String,
    /// When a file was last indexed, if ever.
    pub last_indexed_at: Option<String>,
}

} // verus!
