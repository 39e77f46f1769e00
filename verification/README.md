# carisa_core

Core library of the Carisa agent platform, written in Verus: every function
under `src/` carries a contract, and Verus proves each one except the few
trusted wrappers marked `#[verifier::external_body]` (the calls into zstd,
serde-saphyr and ulid), whose contracts are believed from the outside
crates' source and documentation.

- `skill`: skill definitions, the markdown skill parser (frontmatter split,
  field extraction, error reporting) and the prompt registry.
- `registry`: the skill registry that resolves skills by id, first
  registration first.
- `agent`: the type-state builder of agent runtimes and the rules that drop
  platform skills of disabled groups.
- `log`: session log records; projection of a stored history into
  conversation messages; capture of a streamed response; in-memory storage
  with condensation partitions and idempotent archival; the Redis storage
  layout (keys, pipelines, partition choice, id order, payload
  compression); and the steps of the migration of a closed session to cold
  storage.
- `text`: character-level helpers (search, trimming, decimal text, text
  order).

`app/` holds the asynchronous plumbing around the library: the storage
traits and their in-memory and Redis backends, the loops that run the
migration and the stream capture, JSON serialization of records, and the
conversions to the Rig message types. `tests/` exercises the library.
