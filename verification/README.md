# Semanta

An embedded semantic engine for SQLite. Documents are cut into chunks; the caller
computes an embedding for each chunk and stores it; an HNSW index proposes which
chunks are near each other; the caller judges which of them are related, and a search
is expanded over those relations.

## Layout

- `src/` is the engine, written in Verus. Its engines work on a `Database`: the tables
  in memory. Every operation also records the statements that it amounts to
  (`Change`), in order, and its contract says that carrying them out gives the same
  tables.
  - `storage/`: the tables, their invariant, the changes, references between rows, and
    the settings.
  - `document/`: chunking, and adding, updating and deleting documents.
  - `embedding.rs`: storing embeddings.
  - `ann/`: the segments of the index, searching, rebuilding and reloading.
  - `graph.rs`: relations, and candidates for relations.
  - `ranking/`: searching, and expanding results over relations.
  - `laws/`: what holds of the engines as a whole.
- `app/` is the loadable extension: it registers the SQL functions, reads the stored
  tables, carries out the recorded changes on SQLite and on the HNSW index, and does
  the floating-point arithmetic. The engine sees floating-point numbers as bit
  patterns and takes arithmetic on them as function arguments.
- `tests/` runs the engine, with a real HNSW index where a search needs one.
