# vanguard

Decision core of a distributed air-defence network, verified with Verus.
Interception platforms share their detections over NATS; an orchestrator
fuses them into tracks; an engagement layer assigns platforms and in-flight
interceptors to threats with the Kuhn-Munkres (Hungarian) algorithm.

## Layout

- `src/` — the verified library.
  - `kinds.rs` — threat classes, track status, the classification rule.
  - `ids.rs` — UUIDs as 128-bit values: fresh ids and their text form.
  - `registry.rs` — an insertion-ordered map from ids to values.
  - `tracks.rs` — the track table: one track per threat, fusion of detections.
  - `radar.rs` — what a radar remembers between sweeps.
  - `platform.rs` — a platform's state and its reaction to each network event.
  - `interceptor.rs` — an interceptor agent's state.
  - `orchestrator.rs` — the orchestrator's state and its reaction to each event.
  - `matching.rs` — maximum-weight assignment through the `pathfinding` crate.
  - `engagement.rs` — who chases what: launches, re-tasking, diversions, kills.
  - `engagement_laws.rs` — what re-tasking guarantees whatever matching it applies.
  - `subjects.rs` — message subjects.
- `app/` — the programs: NATS loops, serialisation, Kalman filtering and the
  floating-point geometry that feeds the library integers and booleans.
- `tests/` — tests of the library.

Geometry never enters the library as floating point: positions and filter
states are opaque payloads, and distances reach it as whole metres or as the
answers to "within reach?" and "closer than?".
