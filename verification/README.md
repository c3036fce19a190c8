# anchorkit

Host-side building blocks of an anchor service, written in Verus with their
behaviour stated as contracts and proved.

- `src/alert_dedup.rs` — alert deduplication within a time window (with a
  bounded number of tracked fingerprints), explicit time-bounded suppression,
  and a filter combining both.
- `src/trace_context.rs` — W3C `traceparent` rendering and parsing, and
  deterministic span derivation with SHA-256 (computed by the `sha2` crate).
- `src/config.rs` — the configuration sections that validation reads, the
  cross-field validation itself, proxy-setting checks, the choice of file
  format from a path, and the decisions of loading and hot-reload (blank
  paths, error order, when a file has changed, what a reload keeps).
- `src/keyed_map.rs` (internal to the crate), `src/text.rs` — a string-keyed
  map kept in key order, and character-level helpers.
- `app/lib.rs` — reading configuration files, JSON/TOML deserialisation, and
  the locks and file times of hot-reload, which hand their values to the
  library.
