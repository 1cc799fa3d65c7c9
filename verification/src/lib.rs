//! Integer core of a Barnes-Hut force-directed 3D layout: the CSR link
//! graph, Morton keys and octant paths, and the contiguous octree whose shape
//! is fixed by the particles' octant paths.
pub mod morton;
pub mod graph;
pub mod tree;
pub mod order;
pub mod simulation;
pub mod walk;
