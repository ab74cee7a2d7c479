# hark

The verified core of Hark, a local-only meeting recorder: what it decides
about meetings, transcripts, search, sharing and the running recording,
with contracts proved by Verus.

- `src/` is the library. Its verified functions carry contracts; the few
  trusted wrappers around outside calls state what those calls return where
  it can be stated (the clock and fresh ids are left open); the
  `lemma_*` proof functions state properties that hold across calls
  (timestamps read back, escaped text has no tags, merged calendars are in
  order, the offered windows are distinct and bounded, and so on).
- `tests/` exercise the library on concrete values.
- `app/` is ordinary Rust around it: SQLite storage, `.hark` bundle files,
  the LAN share server, outbound requests, and the floating-point ranking
  (embedding similarity, rank fusion, measured model speed).

Times are milliseconds since the Unix epoch throughout.
