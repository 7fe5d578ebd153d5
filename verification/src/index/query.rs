//! The query surface's value types: headline identity, search, backlinks,
//! the link graph, and headline location.
//!
//! Search, backlinks and the graph are declared surfaces whose first
//! release answers empty; their contracts say so.
use vstd::prelude::*;
use vstd::std_specs::convert::FromSpecImpl;

verus! {

/// A headline's row id: the stable identity every query surface speaks in.
#[derive(Debug, Clone, Copy, PartialEq, Eq, Hash)]
pub struct HeadlineId(pub i64);

impl From<i64> for HeadlineId {
    fn from(id: i64) -> (r: HeadlineId) {
        HeadlineId(id)
    }
}

impl FromSpecImpl<i64> for HeadlineId {
    open spec fn obeys_from_spec() -> bool {
        true
    }

    open spec fn from_spec(id: i64) -> HeadlineId {
        HeadlineId(id)
    }
}

impl From<HeadlineId> for i64 {
    fn from(id: HeadlineId) -> (r: i64) {
        id.0
    }
}

impl FromSpecImpl<HeadlineId> for i64 {
    open spec fn obeys_from_spec() -> bool {
        true
    }

    open spec fn from_spec(id: HeadlineId) -> i64 {
        id.0
    }
}

/// The stock implementation of the query surface.
#[derive(Debug, Clone, Copy, Default)]
pub struct DefaultIndexQuery;

/// A full-text search request.
#[derive(Debug, Clone, PartialEq, Default)]
pub struct SearchQuery {
    pub text: String,
}

/// One search hit.
#[derive(Debug, Clone, PartialEq)]
pub struct SearchResult {
    pub headline_id: HeadlineId,
    pub file: String,
    pub title: String,
    pub matched_line: String,
}

/// Search the index; this release answers no hits.
pub fn query(search_query: &SearchQuery) -> (r: Vec<SearchResult>)
    ensures
        r@.len() == 0,
{
    Vec::new()
}

/// A headline that links to the queried one.
#[derive(Debug, Clone, PartialEq)]
pub struct Backlink {
    pub headline_id: HeadlineId,
    pub file: String,
    pub title: String,
    pub context_snippet: String,
}

/// A mention of the queried headline's title that is not a link.
#[derive(Debug, Clone, PartialEq)]
pub struct UnlinkedMention {
    pub file: String,
    pub headline_id: HeadlineId,
    pub headline_title: String,
    pub context_snippet: String,
}

/// Backlinks to a headline; this release answers none.
pub fn for_headline(headline_id: HeadlineId) -> (r: Vec<Backlink>)
    ensures
        r@.len() == 0,
{
    Vec::new()
}

/// Unlinked mentions of a headline; this release answers none.
pub fn unlinked_mentions(headline_id: HeadlineId) -> (r: Vec<UnlinkedMention>)
    ensures
        r@.len() == 0,
{
    Vec::new()
}

/// Which part of the link graph to read.
#[derive(Debug, Clone, Copy, PartialEq, Eq)]
pub enum GraphScope {
    /// Every headline.
    WholeVault,
    /// The headlines within this many hops of one headline.
    NeighborhoodOf(HeadlineId, u8),
}

/// How one headline links to another.
#[derive(Debug, Clone, Copy, PartialEq, Eq)]
pub enum EdgeKind {
    /// An `[[id:…]]` link.
    IdLink,
    /// A `[[wiki page]]` link.
    WikiLink,
}

/// A graph node.
#[derive(Debug, Clone, PartialEq)]
pub struct NodeRef {
    pub id: HeadlineId,
    pub file: String,
    pub title: String,
}

/// A directed graph edge.
#[derive(Debug, Clone, Copy, PartialEq, Eq)]
pub struct Edge {
    pub src_id: HeadlineId,
    pub dst_id: HeadlineId,
    pub kind: EdgeKind,
}

/// Nodes and edges of one scope.
#[derive(Debug, Clone, PartialEq)]
pub struct GraphData {
    pub nodes: Vec<NodeRef>,
    pub edges: Vec<Edge>,
}

/// The link graph of a scope; this release answers the empty graph.
pub fn adjacency(scope: &GraphScope) -> (r: GraphData)
    ensures
        r.nodes@.len() == 0,
        r.edges@.len() == 0,
{
    GraphData { nodes: Vec::new(), edges: Vec::new() }
}

/// Where a headline lives: its file, its byte span, and how many headlines
/// of its file start before it.
#[derive(Debug, Clone, PartialEq, Eq)]
pub struct HeadlineLocation {
    pub file_path: String,
    pub byte_start: i64,
    pub byte_end: i64,
    pub ordinal: i64,
}

} // verus!
