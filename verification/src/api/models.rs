//! Requests accepted by the HTTP front end.

use vstd::prelude::*;

verus! {

/// A search request.
#[derive(Debug, Clone)]
pub struct QueryRequest {
    pub query: String,
    /// The most results to return; [`default_top_k`] when the request omits it.
    pub top_k: usize,
    /// The search mode; [`default_search_mode`] when the request omits it.
    pub mode: String,
}

/// The number of results a search returns when the request does not say.
pub fn default_top_k() -> (k: usize)
    ensures
        k == 5,
{
    5
}

/// The search mode used when the request does not say: BM25 fused with
/// vector similarity.
pub fn default_search_mode() -> (mode: String)
    ensures
        mode@ == "hybrid"@,
{
    String::from_str("hybrid")
}

/// A request to index one document.
#[derive(Debug, Clone)]
pub struct IndexRequest {
    pub doc_id: String,
    pub title: String,
    pub body: String,
    /// Where the document comes from; absent when there is no meaningful source.
    pub source_url: Option<String>,
}

/// A request for one document by its id.
#[derive(Debug, Clone)]
pub struct GetDocumentRequest {
    pub doc_id: String,
}

/// A request to index several documents at once.
#[derive(Debug, Clone)]
pub struct BatchIndexRequest {
    pub documents: Vec<IndexRequest>,
}

} // verus!
