# force_rs

Force-directed 3D graph layout with a Barnes-Hut octree, split into a
verified integer core and a thin floating-point/Node.js layer.

## Layout

- `src/` — the library, verified with Verus:
  - `graph.rs`: compressed (CSR) adjacency of the link list; its contract
    gives each node's neighbour list in link order, and laws state the total
    degree, symmetry and range of the neighbour lists.
  - `morton.rs`: Morton keys (21 bits per axis, interleaved; laws state that
    they are injective and monotone in each coordinate) and octant path
    codes (three bits per tree level, 17 levels).
  - `order.rs`: insertion order of the particles (index order, or Morton
    order from 4096 particles on), with a verified merge sort.
  - `tree.rs`: the contiguous octree. Its type invariant says that the node
    vector is exactly the octree of the inserted particles, numbered in
    creation order; laws state that the cells are independent of insertion
    order, that the node vector is determined by the insertion history (so
    rebuilding is repeatable), that a tree of `n` particles has at most
    `1 + 17n` nodes, that mass is conserved at every split, and that each
    particle is found at the end of its path.
  - `walk.rs`: the depth-first walk of the force computation, whose stack
    provably never exceeds 120 entries; every node fills one child slot, so
    a full walk meets each node once.
  - `simulation.rs`: the state kept between ticks.
- `app/` — Node.js bindings (napi), the `f64` geometry and forces, and the
  parallel per-node loop (rayon).
- `tests/` — tests of the library.
