//! Document storage: the embedding store, its byte framing, and the
//! value types that the front ends hand to and receive from the store.

pub mod embedding;
pub mod types;

pub use embedding::{bytes_to_embedding, embedding_to_bytes, EmbeddingBytesError, EmbeddingStore};
pub use types::{IndexDocument, Metrics, MetricsSnapshot};
