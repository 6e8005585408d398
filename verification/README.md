# sttp-core-rs

The core of the Spatio-Temporal Transfer Protocol (STTP): reading STTP node
text, validating it, and keeping nodes, calibrations and sync checkpoints.
The library under `src/` is verified with Verus; every public function states
what it returns in its contract.

## Layout

- `src/` — the verified library.
  - `text`, `number`: character-level text primitives, text order, and the
    decimal numbers of confidence signatures.
  - `lexicon`, `lexer`, `state_machine`, `ast`, `content_scan`,
    `content_schema`, `diagnostics`, `node_fields`, `node_parser`,
    `validator`: lexing, layering, content-schema checks and the structural
    validator of node text.
  - `memory_store`, `ranking`: the in-memory store (sync identities, the
    change feed and its cursor, checkpoints, calibrations, scope re-keying),
    and the ranking of positions it pages with.
  - `raw_queries`, `store_keys`, `upsert`, `rekey`, `settings`: the query
    texts, record keys, upsert plans and re-key decisions of the SurrealDB
    store, and its settings.
  - `tenant`, `requests`, `tallies`, `services`, `session_graph`, `models`:
    tenant scoping, request limits and filters, the counts kept by sync pulls
    and embedding migrations, roll-up and mood helpers, the session graph.
- `app/` — what stands around the library: the floating-point AVEC model and
  node record, the async face of the in-memory store, the SurrealDB store
  that runs the library's statements through a client, the services over
  them, environment and file-system access.
- `tests/` — tests of the library through its public API.

The laws the library proves (read-after-write of checkpoints, the change feed
seeing every change once, idempotent upserts, what re-keying moves, tenant
scoping round trips and others) stand as public proof functions beside the
functions they speak of.
