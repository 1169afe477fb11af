//! Verified core of a retrieval engine for LLM context: the in-memory
//! embedding store and its byte framing, the request models, and the
//! decisions that the HTTP and MCP front ends make around each store call.

pub mod api;
pub mod decimal;
pub mod mcp;
pub mod store;
