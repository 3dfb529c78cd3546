# echo_bench

超声回波裁决台: a workbench for adjudicating ultrasonic echoes. Echoes are found in
recorded A-scans, an operator judges, splits and groups them, and every operation is
an event in a log from which the bench can be rebuilt.

* `src/` is the library, written in Verus. It holds what decides: echo detection and
  the analysis of a position, the rules of every event, replay, fixtures, the reading
  and writing of events, the digest of a recording. Each function has a contract, and
  `rows.rs` and the files ending in `_laws.rs` prove what holds of all of them
  together.
* `app/` is the server around it: SQLite storage, the HTTP API, and the floating point
  that turns samples into the tables the library compares.
* `tests/` runs the library on concrete values.

Numbers that were measured are held by their binary64 bit pattern and only ordered in
the library. JSON documents are those of `serde_json`; what the library relies on
about them stands in `src/json.rs`.

The server reads its first fixture from `fixtures/echo_fixture.json` and serves the
pages under `static/`.
