# grounding

A retrieval engine for LLM context: an HTTP API and an MCP server over a
document index, with an in-memory embedding store for vector search.

## Layout

- `src/` — the verified library (Verus).
  - `store/embedding.rs`: the embedding store (upsert, swap-remove with a
    hash index kept consistent, ranking of entries by order keys) and the
    little-endian byte framing of embeddings, with their laws
    (read-after-write as a map, remove undoes a first add, ranking is sorted
    and unique, byte round trips).
  - `store/types.rs`: metrics counters and the document value type.
  - `api/`: request models and the replies of the HTTP handlers.
  - `mcp/`: the MCP handler and the results of its tools.
  - `decimal.rs`: exact decimal rendering of counts.
- `app/` — the runtime: axum handlers, rmcp tools, the fastembed model,
  cosine similarity (floating point), configuration, logging and the CLI.
- `tests/` — tests of the library.
