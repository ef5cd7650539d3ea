# sigma4_engine

A deterministic sparse-state cascade inference engine, split in two crates.

- `src/` — the verified library (Verus). Everything whose logic is integer or
  byte level is here, with contracts over mathematical models:
  - `protocol`: the length-prefixed frame format and the StateUpdate /
    CascadeRun / CascadeResult body codecs, with round-trip lemmas;
  - `entity`: entity layout, delta events and the per-entity delta ring
    (write law: pending events grow by exactly the written event), and the
    selection of the deltas a state query replays;
  - `matrix`: the CSR builder (each row holds its edges in input order);
  - `simplex`: the stored-word layer of the simplex snapshot codec (its byte
    layout, with a bit-exact round-trip lemma);
  - `loader`: the CSV row parser, category codes, sovereign-name markers and
    the entity built from a parsed row;
  - `server`: the frame dispatcher, state updates and state responses;
  - `wire`, `text`: big/little-endian words and character-level helpers.
  Floating-point values cross this crate as IEEE-754 bit patterns (`u32`).
- `app/` — ordinary Rust around it: simplex projection, the full
  `SimplexCodec` (row-sum check on encoding, `1 - Σ` restoration of the implied
  coordinate on decoding), SpMV, cascade inference, Pareto constraints, state
  queries (all floating point), CSV file loading with the facet priors, and
  the tokio + rustls server.
