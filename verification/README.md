# fish

The core of a build system's infrastructure services, written in Verus. Every
function in `src/` carries a contract that Verus proves, except the few small
functions marked `#[verifier::external_body]`: they call the outside world (the
clocks, BLAKE3, SHA-256, a random source, a few `std` routines) and their
contracts are believed, not proved.

## Layout

- `src/` — the verified library.
  - `text`, `lexing`, `keyed`, `tally` — string, character-class and keyed-list
    helpers with their specifications.
  - `digest`, `clock` — the calls into BLAKE3 and the system clock.
  - `ast_cache`, `ast_parse` — incremental source indexing: per-language line
    parsers, changed-symbol detection and transitive impact.
  - `replication` — cross-region artifact replication: peers, queue, push plan.
  - `p2p` — chunked artifact distribution: manifests, rarest-first ordering,
    chunk placement and reassembly.
  - `rbac` — roles, permissions, OIDC claims and the audit log.
  - `pkce` — PKCE code verifiers and `S256` challenges, with URL-safe base64.
  - `slsa` — SLSA provenance generation and the level 3 check.
  - `microvm` — microVM configuration, jailer commands and hermetic runs.
  - `wasm` — WebAssembly plugin loading, hook planning and the plugin registry.
  - `marketplace` — the plugin registry, signing, installation plans and search.
  - `dashboard` — request routing of the analytics dashboard.
- `app/` — the parts that do I/O, run async code or compute with floating point
  (analytics, the HTTP dashboard, file system work, JSON output), built on the
  library.
- `tests/` — tests of the library on concrete values.

Each module states its laws as public proof functions whose names start with
`law_`.
