//! The Model Context Protocol front end: the handler that holds the store,
//! and the tool results that it gives around each store call.

use crate::decimal::{decimal, decimal_string};
use std::sync::Arc;
use vstd::prelude::*;

verus! {

/// The MCP tool handler; it shares one store between sessions.
#[derive(Clone)]
pub struct McpHandler<S> {
    store: Arc<S>,
}

impl<S> McpHandler<S> {
    /// The store that the tools call.
    pub closed spec fn spec_store(&self) -> S {
        *self.store
    }

    /// A handler over `store`.
    pub fn new(store: S) -> (handler: Self)
        ensures
            handler.spec_store() == store,
    {
        McpHandler { store: Arc::new(store) }
    }

    /// The store that the tools call.
    pub fn store(&self) -> (store: &S)
        ensures
            *store == self.spec_store(),
    {
        &self.store
    }
}

/// The number of results `search_docs` returns when the call does not say.
pub fn default_top_k() -> (k: usize)
    ensures
        k == 5,
{
    5
}

/// The result of `index_document`: "ok", or the store's error.
pub fn index_document_result(outcome: Result<(), String>) -> (result: Result<String, String>)
    ensures
        match outcome {
            Ok(_) => result matches Ok(msg) && msg@ == "ok"@,
            Err(e) => result == Err::<String, String>(e),
        },
{
    match outcome {
        Ok(()) => Ok(String::from_str("ok")),
        Err(e) => Err(e),
    }
}

/// The result of `get_document`: the document, or "document not found"
/// when the store has none under that id, or the store's error.
pub fn get_document_result<D>(outcome: Result<Option<D>, String>) -> (result: Result<D, String>)
    ensures
        match outcome {
            Ok(Some(d)) => result == Ok::<D, String>(d),
            Ok(None) => result matches Err(msg) && msg@ == "document not found"@,
            Err(e) => result == Err::<D, String>(e),
        },
{
    match outcome {
        Ok(Some(d)) => Ok(d),
        Ok(None) => Err(String::from_str("document not found")),
        Err(e) => Err(e),
    }
}

/// The result of `batch_index` over `count` documents: the JSON object
/// `{"count":N}`, or the store's error.
pub fn batch_index_result(outcome: Result<(), String>, count: usize) -> (result: Result<String, String>)
    ensures
        match outcome {
            Ok(_) => result matches Ok(msg) && msg@ == "{\"count\":"@ + decimal(count as nat) + "}"@,
            Err(e) => result == Err::<String, String>(e),
        },
{
    match outcome {
        Ok(()) => {
            let mut msg = String::from_str("{\"count\":");
            let digits = decimal_string(count);
            msg.append(digits.as_str());
            msg.append("}");
            Ok(msg)
        },
        Err(e) => Err(e),
    }
}

} // verus!
