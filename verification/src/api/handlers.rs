//! What the HTTP handlers answer. Each handler parses its request body,
//! makes one store call and replies; the functions here take the outcome of
//! the parse and of the store call and decide the reply.

use crate::api::models::IndexRequest;
use crate::store::IndexDocument;
use std::sync::Arc;
use vstd::prelude::*;

verus! {

/// State shared by the HTTP handlers: the store they call.
#[derive(Clone)]
pub struct AppState<S> {
    pub store: Arc<S>,
}

/// A handler's reply: a body, or an error with its message.
#[derive(Debug, Clone, PartialEq, Eq)]
pub enum Reply<T> {
    /// The request succeeded; the body is sent with status 200.
    Body(T),
    /// The request body could not be read (status 400).
    BadRequest(String),
    /// The requested document does not exist (status 404).
    NotFound(String),
    /// The store failed (status 500).
    InternalError(String),
}

impl<T> Reply<T> {
    /// The HTTP status code of the reply.
    pub fn status_code(&self) -> (code: u16)
        ensures
            code == match *self {
                Reply::Body(_) => 200u16,
                Reply::BadRequest(_) => 400u16,
                Reply::NotFound(_) => 404u16,
                Reply::InternalError(_) => 500u16,
            },
    {
        match self {
            Reply::Body(_) => 200,
            Reply::BadRequest(_) => 400,
            Reply::NotFound(_) => 404,
            Reply::InternalError(_) => 500,
        }
    }
}

/// The reply to a request body that is not valid JSON for the endpoint;
/// `error` describes what the parser rejected.
pub fn invalid_json_reply<T>(error: &str) -> (reply: Reply<T>)
    ensures
        reply matches Reply::BadRequest(msg) && msg@ == "Invalid JSON: "@ + error@,
{
    let mut msg = String::from_str("Invalid JSON: ");
    msg.append(error);
    Reply::BadRequest(msg)
}

/// The reply to a store call whose result is sent as is (a search, the
/// indexing of one document).
pub fn store_reply<T>(outcome: Result<T, String>) -> (reply: Reply<T>)
    ensures
        match outcome {
            Ok(v) => reply == Reply::Body(v),
            Err(e) => reply == Reply::<T>::InternalError(e),
        },
{
    match outcome {
        Ok(v) => Reply::Body(v),
        Err(e) => Reply::InternalError(e),
    }
}

/// The reply to a batch indexing call over `count` documents: on success
/// the body carries the count.
pub fn batch_index_reply(outcome: Result<(), String>, count: usize) -> (reply: Reply<usize>)
    ensures
        match outcome {
            Ok(_) => reply == Reply::Body(count),
            Err(e) => reply == Reply::<usize>::InternalError(e),
        },
{
    match outcome {
        Ok(()) => Reply::Body(count),
        Err(e) => Reply::InternalError(e),
    }
}

/// The reply to a lookup by document id: the document, or "document not
/// found" when the store has none under that id.
pub fn get_document_reply<D>(outcome: Result<Option<D>, String>) -> (reply: Reply<D>)
    ensures
        match outcome {
            Ok(Some(d)) => reply == Reply::Body(d),
            Ok(None) => reply matches Reply::NotFound(msg) && msg@ == "document not found"@,
            Err(e) => reply == Reply::<D>::InternalError(e),
        },
{
    match outcome {
        Ok(Some(d)) => Reply::Body(d),
        Ok(None) => Reply::NotFound(String::from_str("document not found")),
        Err(e) => Reply::InternalError(e),
    }
}

/// The body of the health check.
#[derive(Debug, Clone)]
pub struct HealthReport {
    pub status: String,
    pub store: String,
}

/// The health report, given whether a probe search of the store succeeded.
pub fn health_report(store_ok: bool) -> (report: HealthReport)
    ensures
        store_ok ==> report.status@ == "ok"@ && report.store@ == "healthy"@,
        !store_ok ==> report.status@ == "degraded"@ && report.store@ == "unhealthy"@,
{
    if store_ok {
        HealthReport { status: String::from_str("ok"), store: String::from_str("healthy") }
    } else {
        HealthReport { status: String::from_str("degraded"), store: String::from_str("unhealthy") }
    }
}

/// The document that an index request describes.
pub open spec fn document_of(request: IndexRequest) -> IndexDocument {
    IndexDocument {
        doc_id: request.doc_id,
        title: request.title,
        body: request.body,
        source_url: request.source_url,
    }
}

/// The documents of a batch request, in request order.
pub fn index_documents_from(requests: Vec<IndexRequest>) -> (documents: Vec<IndexDocument>)
    ensures
        documents@.len() == requests@.len(),
        forall|i: int|
            0 <= i < documents@.len() ==> {
                &&& (#[trigger] documents@[i]).doc_id == requests@[i].doc_id
                &&& documents@[i].title == requests@[i].title
                &&& documents@[i].body == requests@[i].body
                &&& documents@[i].source_url == requests@[i].source_url
            },
        documents@ == requests@.map_values(|r: IndexRequest| document_of(r)),
{
    let ghost reqs = requests@;
    let mut documents: Vec<IndexDocument> = Vec::new();
    for r in it: requests.into_iter()
        invariant
            it.seq() == reqs,
            documents@ == reqs.take(it.index() as int).map_values(|r: IndexRequest| document_of(r)),
    {
        documents.push(
            IndexDocument {
                doc_id: r.doc_id,
                title: r.title,
                body: r.body,
                source_url: r.source_url,
            },
        );
        proof {
            assert(reqs.take(it.index() + 1) =~= reqs.take(it.index() as int).push(r));
        }
    }
    proof {
        assert(reqs.take(reqs.len() as int) =~= reqs);
    }
    documents
}

} // verus!
