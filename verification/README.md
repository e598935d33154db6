# hypercast-relay-directory

Community relay directory for Hypercast: self-hosted relay nodes register
and report aggregate telemetry, the directory probes them and lists them.

- `src/` — the library, specified and proved with Verus:
  - `state.rs`: the node table (records, metadata merging, probe streaks,
    bandwidth), kept sorted by node id, with its laws;
  - `api.rs`: registration and report handling, node-id validation;
  - `stun.rs`: TURN/STUN URL parsing, STUN Binding Request/Response bytes;
  - `prober.rs`: probe targets and URLs, recording probe outcomes, and
    the relay checks of reported TURN URLs;
  - `config.rs`: interpretation of the server's settings;
  - `text.rs`: characters, trimming, ordering and decimal numbers.
- `app/` — the server: HTTP routes (axum), JSON (serde), saving the table
  to disk, the periodic prober (ureq) and the UDP STUN probe of TURN ports.
- `tests/` — tests of the library.

Settings: `HC_DIRECTORY_BIND` (default `0.0.0.0:8080`),
`HC_DIRECTORY_DATA_FILE` (no file: memory only),
`HC_DIRECTORY_PROBE_ENABLED` (default on; `0`/`false` turn it off),
`HC_DIRECTORY_PROBE_INTERVAL_SECS` (default 60, at least 10).
