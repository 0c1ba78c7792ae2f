# ParsecDB

An embedded vector database: a flat (exact) index and an HNSW graph index
over fixed-dimension vectors, a write-ahead log replayed on boot, and binary
snapshots, served over HTTP.

## Layout

- `src/` — the library, verified with Verus.
  - `types.rs` — vector ids, metrics, and the total order on `f32` bit
    patterns used to rank distances.
  - `error.rs` — errors and their messages.
  - `codec.rs` — little-endian integer layouts and their round-trip lemmas.
  - `buffer.rs` — the vector store and its snapshot format.
  - `wal.rs` — the write-ahead log format and its replay.
  - `flat.rs` — exact top-k search.
  - `graph.rs` — the HNSW graph invariant, its check, and reachability
    along the links of a layer.
  - `hnsw.rs` — HNSW insertion, search and snapshot framing.
  - `protocol.rs` — the status message of the HTTP interface.
- `app/` — the server: HTTP handlers, file I/O, random layer draws, and the
  floating-point distance functions (with AVX2 kernels).
- `tests/` — tests of the library.

Coordinates and distances are `f32` values. The library holds them as their
bit patterns and never computes with them: callers pass a distance function
over bit patterns, and the library is verified for every such function.
