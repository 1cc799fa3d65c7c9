//! State kept across ticks: the node count, the link adjacency and the
//! reusable octree.
use vstd::prelude::*;
use vstd::multiset::Multiset;
use crate::graph::{LinkGraph, csr_of, offset_of};
use crate::order::is_insertion_order;
use crate::tree::{LinearTree, NONE, MAX_PARTICLES, particle_set};

verus! {

/// Per-simulation state: `n` nodes, the adjacency of their links, and the
/// octree rebuilt on every tick.
pub struct SimulationCore {
    n: usize,
    graph: LinkGraph,
    tree: LinearTree,
}

impl SimulationCore {
    /// The adjacency is over exactly the simulated nodes.
    #[verifier::type_invariant]
    closed spec fn inv(self) -> bool {
        self.graph.node_count() == self.n
    }

    /// Number of simulated nodes.
    pub closed spec fn size(self) -> usize {
        self.n
    }

    /// Adjacency of the links.
    pub closed spec fn links(self) -> LinkGraph {
        self.graph
    }

    /// Octree reused between ticks.
    pub closed spec fn octree(self) -> LinearTree {
        self.tree
    }

    /// Prepares a simulation of `n` nodes joined by `links` (consecutive
    /// `(source, target)` pairs).
    pub fn new(links: &[u32], n: usize) -> (core: SimulationCore)
        requires
            offset_of(links@, n as nat, n as int) <= u32::MAX,
            n < usize::MAX,
        ensures
            core.size() == n,
            core.links().source_links() == links@,
            core.links().node_count() == n,
            csr_of(
                core.links().adjacency(),
                core.links().offset_table(),
                core.links().degree_table(),
                links@,
                n as nat,
            ),
            core.octree().particles() == Multiset::<int>::empty(),
            core.octree().node_seq().len() == 1,
            core.octree().node_seq()[0].count == 0,
            core.octree().node_seq()[0].particle == NONE,
            forall|o: int| 0 <= o < 8 ==> #[trigger] core.octree().node_seq()[0].children@[o] == NONE,
    {
        SimulationCore { n, graph: LinkGraph::new(links, n), tree: LinearTree::new() }
    }

    /// Number of simulated nodes, which is also the adjacency's node count.
    pub fn n(&self) -> (n: usize)
        ensures
            n == self.size(),
            n == self.links().node_count(),
    {
        proof {
            use_type_invariant(self);
        }
        self.n
    }

    /// The link adjacency.
    pub fn graph(&self) -> (g: &LinkGraph)
        ensures
            *g == self.links(),
    {
        &self.graph
    }

    /// The octree.
    pub fn tree(&self) -> (t: &LinearTree)
        ensures
            *t == self.octree(),
    {
        &self.tree
    }

    /// Rebuilds the octree from the particles' path codes and Morton keys,
    /// as `LinearTree::rebuild` does; the node count and links stay.
    pub fn rebuild_tree(&mut self, codes: &[u64], keys: &[u64])
        requires
            codes@.len() == keys@.len(),
            codes@.len() <= MAX_PARTICLES,
        ensures
            final(self).size() == old(self).size(),
            final(self).links() == old(self).links(),
            final(self).octree().source_codes() == codes@,
            final(self).octree().particles() == particle_set(codes@.len()),
            final(self).octree().node_seq().len() <= 1 + 17 * codes@.len(),
            final(self).octree().node_seq()[0].count == codes@.len(),
            is_insertion_order(keys@, final(self).octree().history()),
    {
        proof {
            use_type_invariant(&*self);
        }
        let mut tree = LinearTree::new();
        tree.rebuild(codes, keys);
        self.tree = tree;
    }
}

} // verus!
