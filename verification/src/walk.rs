//! Depth-first walk over the octree used by the Barnes-Hut force: pop a node,
//! and if the caller decides to open it, push its children. The stack lives
//! in a fixed array; the walk never needs more than `1 + 7 * 17` entries.
use vstd::prelude::*;
use crate::tree::{
    children_from, lemma_children_from, lemma_node_conservation, lemma_root, lemma_tree_shape,
    push_children, LinearTree,
};

verus! {

/// Most entries the walk's stack ever holds: one per sibling still to visit
/// on each of the 17 levels below the root, plus the opened node's eighth.
pub const WALK_MAX: usize = 120;

/// A depth-first walk over `tree`, with the node it popped last.
pub struct ForceWalk<'a> {
    tree: &'a LinearTree,
    stack: [usize; 256],
    len: usize,
    popped: Option<usize>,
}

impl<'a> ForceWalk<'a> {
    /// Stack entries are nodes, and the entry at position `k` lies at least
    /// `k / 7` levels down; the node popped last sits one place above the top.
    #[verifier::type_invariant]
    closed spec fn inv(self) -> bool {
        let nodes = self.tree.node_seq();
        &&& self.tree.wf()
        &&& self.len <= WALK_MAX
        &&& forall|k: int|
            0 <= k < self.len ==> #[trigger] self.stack@[k] < nodes.len() && 7 * nodes[self.stack@[k] as int].depth
                >= k
        &&& self.popped matches Some(p) ==> p < nodes.len() && 7 * nodes[p as int].depth >= self.len
    }

    /// Nodes waiting to be visited, bottom of the stack first.
    pub closed spec fn pending(self) -> Seq<usize> {
        self.stack@.subrange(0, self.len as int)
    }

    /// The node returned by the last `pop`, if it has not been opened.
    pub closed spec fn last_popped(self) -> Option<usize> {
        self.popped
    }

    /// The tree being walked.
    pub closed spec fn walked(self) -> LinearTree {
        *self.tree
    }

    /// A walk that starts at the root.
    pub fn new(tree: &'a LinearTree) -> (w: ForceWalk<'a>)
        ensures
            w.pending() == seq![0usize],
            w.last_popped() == None::<usize>,
            w.walked() == *tree,
    {
        proof {
            use_type_invariant(tree);
            lemma_root(*tree);
        }
        let mut stack = [0usize; 256];
        stack[0] = 0;
        let w = ForceWalk { tree, stack, len: 1, popped: None };
        assert(w.pending() =~= seq![0usize]);
        w
    }

    /// Takes the top of the stack, which becomes the node `open` acts on.
    pub fn pop(&mut self) -> (r: Option<usize>)
        ensures
            old(self).pending().len() == 0 ==> r == None::<usize>
                && final(self).pending() == old(self).pending(),
            old(self).pending().len() > 0 ==> r == Some(old(self).pending().last())
                && final(self).pending() == old(self).pending().drop_last(),
            final(self).last_popped() == r,
            final(self).walked() == old(self).walked(),
            r matches Some(i) ==> i < final(self).walked().node_seq().len(),
    {
        proof {
            use_type_invariant(&*self);
        }
        if self.len == 0 {
            *self = ForceWalk { tree: self.tree, stack: self.stack, len: 0, popped: None };
            return None;
        }
        let top = self.stack[self.len - 1];
        let ghost before = self.pending();
        *self = ForceWalk { tree: self.tree, stack: self.stack, len: self.len - 1, popped: Some(top) };
        assert(self.pending() =~= before.drop_last());
        Some(top)
    }

    /// Pushes the children of the node popped last, highest octant first,
    /// so that they are visited in octant order. All of them fit: the stack
    /// never holds more than `WALK_MAX` entries.
    pub fn open(&mut self)
        ensures
            final(self).walked() == old(self).walked(),
            final(self).last_popped() == None::<usize>,
            old(self).last_popped() matches Some(p) ==> final(self).pending() == old(self).pending()
                + children_from(old(self).walked().node_seq()[p as int], 0).map_values(
                |c: i32| c as usize,
            ),
            old(self).last_popped() is None ==> final(self).pending() == old(self).pending(),
            final(self).pending().len() <= WALK_MAX,
    {
        proof {
            use_type_invariant(&*self);
        }
        match self.popped {
            None => {},
            Some(p) => {
                let nd = self.tree.node(p);
                let mut st = self.stack;
                let ghost before = self.pending();
                let ghost nodes = self.tree.node_seq();
                let ghost want = children_from(nd, 0);
                proof {
                    lemma_children_from(nd, 0);
                    lemma_tree_shape(*self.tree, p as int, 0);
                    if want.len() > 0 {
                        let o = choose|o: int| 0 <= o < 8 && #[trigger] nd.children@[o] == want[0]
                            && nd.children@[o] >= 0;
                        lemma_tree_shape(*self.tree, p as int, o);
                        lemma_node_conservation(*self.tree, p as int);
                        assert(nodes[p as int].depth < 17);
                    }
                }
                let new_len = push_children(&nd, &mut st, self.len);
                proof {
                    assert forall|k: int| self.len <= k < new_len implies #[trigger] st@[k] < nodes.len()
                        && 7 * nodes[st@[k] as int].depth >= k by {
                        let e = want[k - self.len];
                        let o = choose|o: int| 0 <= o < 8 && #[trigger] nd.children@[o] == e
                            && nd.children@[o] >= 0;
                        lemma_tree_shape(*self.tree, p as int, o);
                    }
                }
                *self = ForceWalk { tree: self.tree, stack: st, len: new_len, popped: None };
                assert(self.pending() =~= before + want.map_values(|c: i32| c as usize));
            },
        }
    }
}

} // verus!
