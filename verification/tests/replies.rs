use grounding::api::handlers::{
    batch_index_reply, get_document_reply, health_report, index_documents_from, invalid_json_reply,
    store_reply, Reply,
};
use grounding::api::models::{default_search_mode, default_top_k, IndexRequest};
use grounding::api::AppState;
use grounding::decimal::decimal_string;
use grounding::mcp::{self, McpHandler};
use grounding::store::Metrics;
use std::sync::atomic::Ordering;
use std::sync::Arc;

#[test]
fn request_defaults() {
    assert_eq!(default_top_k(), 5);
    assert_eq!(default_search_mode(), "hybrid");
    assert_eq!(mcp::default_top_k(), 5);
}

#[test]
fn invalid_json_is_a_bad_request() {
    let reply: Reply<()> = invalid_json_reply("expected value at line 1 column 1");
    assert_eq!(
        reply,
        Reply::BadRequest("Invalid JSON: expected value at line 1 column 1".to_string())
    );
    assert_eq!(reply.status_code(), 400);
}

#[test]
fn store_outcomes_map_to_replies() {
    let ok: Reply<u32> = store_reply(Ok(7));
    assert_eq!(ok, Reply::Body(7));
    assert_eq!(ok.status_code(), 200);
    let err: Reply<u32> = store_reply(Err("disk full".to_string()));
    assert_eq!(err, Reply::InternalError("disk full".to_string()));
    assert_eq!(err.status_code(), 500);
}

#[test]
fn batch_reply_carries_the_count() {
    assert_eq!(batch_index_reply(Ok(()), 3), Reply::Body(3));
    assert_eq!(
        batch_index_reply(Err("boom".to_string()), 3),
        Reply::InternalError("boom".to_string())
    );
}

#[test]
fn missing_document_is_not_found() {
    let found: Reply<&str> = get_document_reply(Ok(Some("doc")));
    assert_eq!(found, Reply::Body("doc"));
    let missing: Reply<&str> = get_document_reply(Ok(None));
    assert_eq!(missing, Reply::NotFound("document not found".to_string()));
    assert_eq!(missing.status_code(), 404);
    let failed: Reply<&str> = get_document_reply(Err("io".to_string()));
    assert_eq!(failed, Reply::InternalError("io".to_string()));
}

#[test]
fn health_follows_the_store_probe() {
    let ok = health_report(true);
    assert_eq!((ok.status.as_str(), ok.store.as_str()), ("ok", "healthy"));
    let bad = health_report(false);
    assert_eq!((bad.status.as_str(), bad.store.as_str()), ("degraded", "unhealthy"));
}

#[test]
fn batch_requests_become_documents_in_order() {
    let reqs = vec![
        IndexRequest {
            doc_id: "a".to_string(),
            title: "A".to_string(),
            body: "alpha".to_string(),
            source_url: Some("https://a.com".to_string()),
        },
        IndexRequest {
            doc_id: "b".to_string(),
            title: "B".to_string(),
            body: "beta".to_string(),
            source_url: None,
        },
    ];
    let docs = index_documents_from(reqs);
    assert_eq!(docs.len(), 2);
    assert_eq!(docs[0].doc_id, "a");
    assert_eq!(docs[0].title, "A");
    assert_eq!(docs[0].body, "alpha");
    assert_eq!(docs[0].source_url.as_deref(), Some("https://a.com"));
    assert_eq!(docs[1].doc_id, "b");
    assert_eq!(docs[1].source_url, None);
    assert!(index_documents_from(vec![]).is_empty());
}

#[test]
fn mcp_tool_results() {
    assert_eq!(mcp::index_document_result(Ok(())), Ok("ok".to_string()));
    assert_eq!(mcp::index_document_result(Err("x".to_string())), Err("x".to_string()));
    assert_eq!(mcp::get_document_result(Ok(Some(1))), Ok(1));
    assert_eq!(
        mcp::get_document_result::<i32>(Ok(None)),
        Err("document not found".to_string())
    );
    assert_eq!(mcp::batch_index_result(Ok(()), 42), Ok("{\"count\":42}".to_string()));
    assert_eq!(mcp::batch_index_result(Ok(()), 0), Ok("{\"count\":0}".to_string()));
    assert_eq!(mcp::batch_index_result(Err("e".to_string()), 2), Err("e".to_string()));
}

#[test]
fn decimal_rendering() {
    assert_eq!(decimal_string(0), "0");
    assert_eq!(decimal_string(7), "7");
    assert_eq!(decimal_string(10), "10");
    assert_eq!(decimal_string(90210), "90210");
    assert_eq!(decimal_string(usize::MAX), usize::MAX.to_string());
}

#[test]
fn handlers_share_the_store() {
    let handler = McpHandler::new(vec![1, 2, 3]);
    assert_eq!(handler.store(), &vec![1, 2, 3]);
    let copy = handler.clone();
    assert_eq!(copy.store(), &vec![1, 2, 3]);
    let state = AppState { store: Arc::new("store") };
    assert_eq!(*state.store, "store");
}

#[test]
fn metrics_snapshot_reads_the_counters() {
    let metrics = Metrics::default();
    let snap = metrics.snapshot();
    assert_eq!(snap.documents_indexed, 0);
    assert_eq!(snap.searches_performed, 0);
    metrics.documents_indexed.fetch_add(3, Ordering::Relaxed);
    metrics.searches_performed.fetch_add(1, Ordering::Relaxed);
    let snap = metrics.snapshot();
    assert_eq!(snap.documents_indexed, 3);
    assert_eq!(snap.searches_performed, 1);
}
