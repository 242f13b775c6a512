# anyangle

Building blocks for any-angle path finding on layered polygonal meshes,
written in Verus. The library's functions carry contracts that the verifier
proves, except for a few small wrappers around `approx` and `stable_vec`
calls, marked `#[verifier::external_body]`, whose contracts are trusted as
read from those crates' sources.

- `src/point.rs`, `src/triangle.rs`: integer points and orientation tests.
- `src/chain.rs`, `src/monotonizer.rs`: the sweep that splits polygons into
  monotone pieces, modelled step by step by `SweepState`.
- `src/funnel.rs`: the simple funnel algorithm that straightens a path
  through a corridor of portals.
- `src/polyal_complex.rs`: polygonal complexes whose points list their
  neighbours counter-clockwise, stored in a `stable_vec::StableVec`.
- `src/hull.rs`: monotone-chain convex hulls.
- `src/layer.rs`, `src/flat.rs`: layer identifiers and path nodes.
- `tests/`: tests run against the compiled library.
- `app/`: an interactive viewer (macroquad) that inserts random convex
  polygons into a polygon union-find and animates the sweep.
