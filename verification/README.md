# quadtree_collision

A particle sandbox (boids flocking and equal-mass elastic collisions) built
around a per-frame-rebuilt quadtree spatial index.

## Layout

- `src/` — the verified library (Verus):
  - `quadtree.rs`: the quadtree, generic over a `Region` type that supplies
    the overlap test and the quadrant split. Insertion, subdivision,
    clearing, loading a frame's particles, queries and the node listing are
    proved against a multiset model of the stored entries.
  - `particle.rs`: the deterministic linear congruential generator that
    seeds particle layouts.
  - `sim/mod.rs`: simulation modes and split-screen views with their wire
    codes.
  - `sandbox.rs`: the sandbox's bookkeeping: capped particle counts, the
    active view, the layout of the shared position buffer, and the names of
    the tunable parameters.
- `tests/` — tests of the library, run against an `f32` rectangle region.
- `app/` — the floating-point side: `Vec2`, the `f32` `Rect` that implements
  `Region`, particle storage, the boids and collision steps, and the
  `wasm-bindgen` surface that JavaScript drives.
