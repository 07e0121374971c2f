# forcefield

A force-directed graph layout engine (Barnes-Hut many-body charge, springs,
collision, centring, radial and axis pulls) whose integer core is verified
with Verus.

- `src/` — the verified library:
  - `lcg`: the deterministic random stream (integer states of a linear
    congruential generator seeded with 1);
  - `link`: the spring force's link set and per-node degrees, the integer
    terms of each link's bias and default strength;
  - `quadtree`: the arena behind the Barnes-Hut quadtree — its structural
    operations (first leaf, new leaf, coincident chain, upward growth, split),
    its pre-order and post-order walks, and the points it holds;
  - `forces`: the insertion-ordered set of named forces.
- `app/` — the floating-point layer on top (positions, velocities, the
  quadtree's geometry, the seven forces, the simulation loop) and the
  wasm-bindgen bindings.
- `tests/` — executable tests of the library.
