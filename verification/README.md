# rucelium

The core of a sensor-fabric gateway, verified with Verus.

- `src/` is the library. Verus proves the contract of every function, but for
  the few that only call another crate or the standard library: what those
  promise is believed, and those that read the clock promise nothing.
  - `model` — samples and events as plain values.
  - `store` — the append-only observation and event logs: segment names, line
    reading with repair of a torn tail, dedup, retention. The dedup keys of the
    observation log outlive its records: they are saved beside the files before
    a retention pass and handed in at the next open. `*_laws` state what
    survives a restart or a crash, over a disk as a map from names to bytes.
  - `federation` — hex and ed25519 signatures, signed regional summaries and
    events, the two exchanges (one binds keys to biome identities), the outage
    buffer.
  - `calibration` — records with anchor-rooted lineage.
  - `gateway` — identity, clock, shared state, and the steps of a federation
    pass over a peer.
- `tests/` runs the library on concrete values.
- `app/` is ordinary Rust around it: files, JSON, floating point, HTTP.

Files are read and written through functions that the caller hands in, and
floating-point numbers enter as bits or as JSON texts, so the library itself
does neither I/O nor floating-point arithmetic. Signatures come from
`ed25519-dalek`, the quoting of JSON strings from `serde_json`, and the clock and
the decoding of UTF-8 from the standard library; what is believed of them stands
beside the functions that call them.
