//! Value types shared by the store and its front ends.

use std::sync::atomic::{AtomicU64, Ordering};
use vstd::prelude::*;

verus! {

/// Running counters of the store, shared between request handlers.
#[derive(Default, Debug)]
pub struct Metrics {
    pub documents_indexed: AtomicU64,
    pub searches_performed: AtomicU64,
}

/// A point-in-time copy of the counters in [`Metrics`].
#[derive(Debug, Clone, Copy, PartialEq, Eq)]
pub struct MetricsSnapshot {
    pub documents_indexed: u64,
    pub searches_performed: u64,
}

impl Metrics {
    /// Reads both counters. Other handlers may update them concurrently, so
    /// nothing ties the values read to any earlier or later state.
    pub fn snapshot(&self) -> (snap: MetricsSnapshot) {
        MetricsSnapshot {
            documents_indexed: self.documents_indexed.load(Ordering::Relaxed),
            searches_performed: self.searches_performed.load(Ordering::Relaxed),
        }
    }
}

/// A document as it is handed to the store for indexing.
#[derive(Debug, Clone)]
pub struct IndexDocument {
    pub doc_id: String,
    pub title: String,
    pub body: String,
    pub source_url: Option<String>,
}

} // verus!
