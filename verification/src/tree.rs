//! Contiguous Barnes-Hut octree: nodes live in one vector and refer to their
//! children by index. The shape of the tree is fixed by the particles' octant
//! paths (see `morton`): a cell is split while it holds two or more particles
//! and is coarser than the minimum cell size.
use vstd::prelude::*;
use vstd::multiset::Multiset;
use crate::morton::{octant_of, octant_at, lemma_octant_range, MAX_DEPTH};
use crate::order::{insertion_order, occurrences, rank_lt, is_insertion_order, lemma_insertion_order_meets, lemma_sorted_unique};

verus! {

broadcast use vstd::multiset::group_multiset_axioms;

/// The octant path of `code` starts with `prefix` (one octant per level,
/// root first); a prefix is at most as long as the deepest path.
pub open spec fn has_prefix(code: u64, prefix: Seq<int>) -> bool {
    &&& prefix.len() <= 17
    &&& forall|k: int| 0 <= k < prefix.len() ==> #[trigger] prefix[k] == octant_of(code, k)
}

/// Particle `x` is one of `parts` and lies in the cell named by `prefix`.
pub open spec fn in_cell(codes: Seq<u64>, parts: Multiset<int>, prefix: Seq<int>, x: int) -> bool {
    &&& 0 <= x < codes.len()
    &&& parts.count(x) > 0
    &&& has_prefix(codes[x], prefix)
}

/// Number of particles (with multiplicity) among indices `0..upto` of
/// `parts` that lie in the cell named by `prefix`.
pub open spec fn count_below(codes: Seq<u64>, parts: Multiset<int>, prefix: Seq<int>, upto: int) -> nat
    decreases upto,
{
    if upto <= 0 {
        0
    } else {
        count_below(codes, parts, prefix, upto - 1) + if has_prefix(codes[upto - 1], prefix) {
            parts.count(upto - 1)
        } else {
            0
        }
    }
}

/// Number of particles of `parts` in the cell named by `prefix`.
pub open spec fn cell_count(codes: Seq<u64>, parts: Multiset<int>, prefix: Seq<int>) -> nat {
    count_below(codes, parts, prefix, codes.len() as int)
}

/// A particle of `parts` in the cell named by `prefix`; when the cell holds
/// exactly one particle, that particle.
pub open spec fn cell_member(codes: Seq<u64>, parts: Multiset<int>, prefix: Seq<int>) -> int {
    choose|x: int| in_cell(codes, parts, prefix, x)
}

proof fn lemma_count_insert_below(
    codes: Seq<u64>,
    parts: Multiset<int>,
    prefix: Seq<int>,
    p: int,
    upto: int,
)
    requires
        0 <= p < codes.len(),
        upto <= codes.len(),
    ensures
        count_below(codes, parts.insert(p), prefix, upto) == count_below(codes, parts, prefix, upto)
            + if has_prefix(codes[p], prefix) && p < upto {
            1int
        } else {
            0int
        },
    decreases upto,
{
    if upto > 0 {
        lemma_count_insert_below(codes, parts, prefix, p, upto - 1);
    }
}

/// Adding a particle adds one to the count of exactly the cells on its path.
pub proof fn lemma_count_insert(codes: Seq<u64>, parts: Multiset<int>, prefix: Seq<int>, p: int)
    requires
        0 <= p < codes.len(),
    ensures
        cell_count(codes, parts.insert(p), prefix) == cell_count(codes, parts, prefix) + if has_prefix(
            codes[p],
            prefix,
        ) {
            1int
        } else {
            0int
        },
{
    lemma_count_insert_below(codes, parts, prefix, p, codes.len() as int);
}

proof fn lemma_count_mono_below(
    codes: Seq<u64>,
    parts: Multiset<int>,
    outer: Seq<int>,
    inner: Seq<int>,
    upto: int,
)
    requires
        outer.len() <= inner.len() <= 17,
        outer == inner.subrange(0, outer.len() as int),
        upto <= codes.len(),
    ensures
        count_below(codes, parts, inner, upto) <= count_below(codes, parts, outer, upto),
    decreases upto,
{
    if upto > 0 {
        lemma_count_mono_below(codes, parts, outer, inner, upto - 1);
        if has_prefix(codes[upto - 1], inner) {
            assert forall|k: int| 0 <= k < outer.len() implies #[trigger] outer[k] == octant_of(
                codes[upto - 1],
                k,
            ) by {
                assert(outer[k] == inner[k]);
            }
        }
    }
}

/// A sub-cell holds no more particles than the cell that contains it.
pub proof fn lemma_count_mono(codes: Seq<u64>, parts: Multiset<int>, outer: Seq<int>, inner: Seq<int>)
    requires
        outer.len() <= inner.len() <= 17,
        outer == inner.subrange(0, outer.len() as int),
    ensures
        cell_count(codes, parts, inner) <= cell_count(codes, parts, outer),
{
    lemma_count_mono_below(codes, parts, outer, inner, codes.len() as int);
}

proof fn lemma_count_positive_below(codes: Seq<u64>, parts: Multiset<int>, prefix: Seq<int>, upto: int)
    requires
        upto <= codes.len(),
    ensures
        count_below(codes, parts, prefix, upto) >= 1 ==> exists|x: int|
            0 <= x < upto && #[trigger] in_cell(codes, parts, prefix, x),
        forall|x: int|
            0 <= x < upto && #[trigger] in_cell(codes, parts, prefix, x) ==> count_below(
                codes,
                parts,
                prefix,
                upto,
            ) >= parts.count(x),
        forall|x: int, y: int|
            0 <= x < upto && 0 <= y < upto && x != y && #[trigger] in_cell(codes, parts, prefix, x)
                && #[trigger] in_cell(codes, parts, prefix, y) ==> count_below(
                codes,
                parts,
                prefix,
                upto,
            ) >= 2,
    decreases upto,
{
    if upto > 0 {
        lemma_count_positive_below(codes, parts, prefix, upto - 1);
        let last = upto - 1;
        if count_below(codes, parts, prefix, upto) >= 1 && count_below(codes, parts, prefix, last)
            == 0 {
            assert(in_cell(codes, parts, prefix, last));
        }
    }
}

/// A cell with a positive count holds a particle; the particle named by
/// `cell_member` is in the cell, and when the count is one it is the only one.
pub proof fn lemma_cell_member(codes: Seq<u64>, parts: Multiset<int>, prefix: Seq<int>)
    ensures
        cell_count(codes, parts, prefix) >= 1 ==> in_cell(
            codes,
            parts,
            prefix,
            cell_member(codes, parts, prefix),
        ),
        cell_count(codes, parts, prefix) == 0 ==> forall|x: int| !#[trigger] in_cell(codes, parts, prefix, x),
        cell_count(codes, parts, prefix) == 1 ==> forall|x: int|
            #[trigger] in_cell(codes, parts, prefix, x) ==> x == cell_member(codes, parts, prefix)
                && parts.count(x) == 1,
{
    lemma_count_positive_below(codes, parts, prefix, codes.len() as int);
    if cell_count(codes, parts, prefix) >= 1 {
        let x = choose|x: int| 0 <= x < codes.len() && #[trigger] in_cell(codes, parts, prefix, x);
        assert(in_cell(codes, parts, prefix, x));
    }
    if cell_count(codes, parts, prefix) == 1 {
        let m = cell_member(codes, parts, prefix);
        assert forall|x: int| #[trigger] in_cell(codes, parts, prefix, x) implies x == m
            && parts.count(x) == 1 by {
            assert(in_cell(codes, parts, prefix, m));
            if x != m {
                assert(count_below(codes, parts, prefix, codes.len() as int) >= 2);
            }
        }
    }
}


proof fn lemma_has_prefix_push(code: u64, prefix: Seq<int>, o: int)
    requires
        prefix.len() < 17,
    ensures
        has_prefix(code, prefix.push(o)) <==> (has_prefix(code, prefix) && o == octant_of(
            code,
            prefix.len() as int,
        )),
{
    if has_prefix(code, prefix.push(o)) {
        assert forall|k: int| 0 <= k < prefix.len() implies #[trigger] prefix[k] == octant_of(
            code,
            k,
        ) by {
            assert(prefix.push(o)[k] == prefix[k]);
        }
        assert(prefix.push(o)[prefix.len() as int] == o);
    }
    if has_prefix(code, prefix) && o == octant_of(code, prefix.len() as int) {
        assert forall|k: int| 0 <= k < prefix.push(o).len() implies #[trigger] prefix.push(o)[k]
            == octant_of(code, k) by {
            if k < prefix.len() {
                assert(prefix.push(o)[k] == prefix[k]);
            }
        }
    }
}

/// Sum of the counts of the eight sub-cells of `prefix` among indices
/// `0..upto`.
pub open spec fn octant_count_sum(codes: Seq<u64>, parts: Multiset<int>, prefix: Seq<int>, upto: int) -> nat {
    count_below(codes, parts, prefix.push(0), upto) + count_below(codes, parts, prefix.push(1), upto)
        + count_below(codes, parts, prefix.push(2), upto) + count_below(
        codes,
        parts,
        prefix.push(3),
        upto,
    ) + count_below(codes, parts, prefix.push(4), upto) + count_below(
        codes,
        parts,
        prefix.push(5),
        upto,
    ) + count_below(codes, parts, prefix.push(6), upto) + count_below(
        codes,
        parts,
        prefix.push(7),
        upto,
    )
}

proof fn lemma_conservation_below(codes: Seq<u64>, parts: Multiset<int>, prefix: Seq<int>, upto: int)
    requires
        prefix.len() < 17,
        upto <= codes.len(),
    ensures
        count_below(codes, parts, prefix, upto) == octant_count_sum(codes, parts, prefix, upto),
    decreases upto,
{
    if upto > 0 {
        lemma_conservation_below(codes, parts, prefix, upto - 1);
        let c = codes[upto - 1];
        lemma_octant_range(c, prefix.len() as int);
        lemma_has_prefix_push(c, prefix, 0);
        lemma_has_prefix_push(c, prefix, 1);
        lemma_has_prefix_push(c, prefix, 2);
        lemma_has_prefix_push(c, prefix, 3);
        lemma_has_prefix_push(c, prefix, 4);
        lemma_has_prefix_push(c, prefix, 5);
        lemma_has_prefix_push(c, prefix, 6);
        lemma_has_prefix_push(c, prefix, 7);
    }
}

/// Mass conservation: a cell coarser than the minimum size holds exactly the
/// particles of its eight sub-cells.
pub proof fn lemma_cell_conservation(codes: Seq<u64>, parts: Multiset<int>, prefix: Seq<int>)
    requires
        prefix.len() < 17,
    ensures
        cell_count(codes, parts, prefix) == octant_count_sum(
            codes,
            parts,
            prefix,
            codes.len() as int,
        ),
{
    lemma_conservation_below(codes, parts, prefix, codes.len() as int);
}


proof fn lemma_prefix_of_push(code: u64, prefix: Seq<int>, o: int)
    requires
        has_prefix(code, prefix.push(o)),
    ensures
        has_prefix(code, prefix),
{
    assert forall|k: int| 0 <= k < prefix.len() implies #[trigger] prefix[k] == octant_of(code, k) by {
        assert(prefix.push(o)[k] == prefix[k]);
    }
}

/// A cell holding a particle and coarser than the minimum size has a
/// non-empty octant.
proof fn lemma_some_octant(codes: Seq<u64>, parts: Multiset<int>, prefix: Seq<int>)
    requires
        prefix.len() < 17,
        cell_count(codes, parts, prefix) >= 1,
    ensures
        exists|o: int| 0 <= o < 8 && #[trigger] cell_count(codes, parts, prefix.push(o)) >= 1,
{
    lemma_cell_conservation(codes, parts, prefix);
    if cell_count(codes, parts, prefix.push(0)) >= 1 {
        assert(cell_count(codes, parts, prefix.push(0)) >= 1);
    } else if cell_count(codes, parts, prefix.push(1)) >= 1 {
        assert(cell_count(codes, parts, prefix.push(1)) >= 1);
    } else if cell_count(codes, parts, prefix.push(2)) >= 1 {
        assert(cell_count(codes, parts, prefix.push(2)) >= 1);
    } else if cell_count(codes, parts, prefix.push(3)) >= 1 {
        assert(cell_count(codes, parts, prefix.push(3)) >= 1);
    } else if cell_count(codes, parts, prefix.push(4)) >= 1 {
        assert(cell_count(codes, parts, prefix.push(4)) >= 1);
    } else if cell_count(codes, parts, prefix.push(5)) >= 1 {
        assert(cell_count(codes, parts, prefix.push(5)) >= 1);
    } else if cell_count(codes, parts, prefix.push(6)) >= 1 {
        assert(cell_count(codes, parts, prefix.push(6)) >= 1);
    } else {
        assert(cell_count(codes, parts, prefix.push(7)) >= 1);
    }
}

/// In a cell holding one particle, the sub-cells hold that particle in its
/// own octant and nothing elsewhere.
proof fn lemma_single_split(codes: Seq<u64>, parts: Multiset<int>, prefix: Seq<int>, o: int)
    requires
        prefix.len() < 17,
        cell_count(codes, parts, prefix) == 1,
    ensures
        ({
            let m = cell_member(codes, parts, prefix);
            &&& 0 <= m < codes.len()
            &&& cell_count(codes, parts, prefix.push(o)) == if o == octant_of(
                codes[m],
                prefix.len() as int,
            ) {
                1int
            } else {
                0int
            }
            &&& o == octant_of(codes[m], prefix.len() as int) ==> cell_member(
                codes,
                parts,
                prefix.push(o),
            ) == m
        }),
{
    let m = cell_member(codes, parts, prefix);
    let sub = prefix.push(o);
    lemma_cell_member(codes, parts, prefix);
    lemma_cell_member(codes, parts, sub);
    assert(sub.subrange(0, prefix.len() as int) =~= prefix);
    lemma_count_mono(codes, parts, prefix, sub);
    lemma_has_prefix_push(codes[m], prefix, o);
    if o == octant_of(codes[m], prefix.len() as int) {
        assert(in_cell(codes, parts, sub, m));
        lemma_count_positive_below(codes, parts, sub, codes.len() as int);
    } else {
        if cell_count(codes, parts, sub) >= 1 {
            let x = cell_member(codes, parts, sub);
            lemma_prefix_of_push(codes[x], prefix, o);
            assert(in_cell(codes, parts, prefix, x));
        }
    }
}

/// Adding a particle outside the cell named by `prefix` leaves the cell's
/// description unchanged.
proof fn lemma_matches_other_cell(
    nd: TreeNode,
    codes: Seq<u64>,
    parts: Multiset<int>,
    prefix: Seq<int>,
    p: int,
)
    requires
        node_matches(nd, codes, parts, prefix),
        0 <= p < codes.len(),
        !has_prefix(codes[p], prefix),
        prefix.len() <= 17,
    ensures
        node_matches(nd, codes, parts.insert(p), prefix),
{
    let s2 = parts.insert(p);
    lemma_count_insert(codes, parts, prefix, p);
    let c = cell_count(codes, parts, prefix);
    if prefix.len() < 17 && c >= 2 {
        assert forall|o: int| 0 <= o < 8 implies cell_count(codes, s2, prefix.push(o)) == cell_count(
            codes,
            parts,
            prefix.push(o),
        ) by {
            lemma_count_insert(codes, parts, prefix.push(o), p);
            if has_prefix(codes[p], prefix.push(o)) {
                lemma_prefix_of_push(codes[p], prefix, o);
            }
        }
    }
    if c == 1 {
        lemma_cell_member(codes, parts, prefix);
        lemma_cell_member(codes, s2, prefix);
        let m = cell_member(codes, parts, prefix);
        assert(in_cell(codes, s2, prefix, m));
    }
}

/// The particles `0..n`, each once.
pub open spec fn particle_set(n: nat) -> Multiset<int>
    decreases n,
{
    if n == 0 {
        Multiset::empty()
    } else {
        particle_set((n - 1) as nat).insert(n - 1)
    }
}

proof fn lemma_particle_set_count(n: nat, x: int)
    ensures
        particle_set(n).count(x) == if 0 <= x < n {
            1nat
        } else {
            0nat
        },
    decreases n,
{
    if n > 0 {
        lemma_particle_set_count((n - 1) as nat, x);
    }
}

proof fn lemma_count_empty_below(codes: Seq<u64>, prefix: Seq<int>, upto: int)
    ensures
        count_below(codes, Multiset::empty(), prefix, upto) == 0,
    decreases upto,
{
    if upto > 0 {
        lemma_count_empty_below(codes, prefix, upto - 1);
    }
}

/// The first `k` octants of the path of `code`.
pub open spec fn path_prefix(code: u64, k: int) -> Seq<int> {
    Seq::new(k as nat, |i: int| octant_of(code, i))
}

/// The cell named by `prefix` is a node of the octree of `parts`: the root,
/// or a non-empty octant of a node that holds two or more particles and is
/// coarser than the minimum cell size.
pub open spec fn cell_exists(codes: Seq<u64>, parts: Multiset<int>, prefix: Seq<int>) -> bool
    decreases prefix.len(),
{
    if prefix.len() == 0 {
        true
    } else {
        let up = prefix.drop_last();
        &&& cell_exists(codes, parts, up)
        &&& up.len() < 17
        &&& cell_count(codes, parts, up) >= 2
        &&& 0 <= prefix.last() < 8
        &&& cell_count(codes, parts, prefix) >= 1
    }
}

/// Particle slot of the node for the cell named by `prefix`.
pub open spec fn cell_particle(codes: Seq<u64>, parts: Multiset<int>, prefix: Seq<int>) -> int {
    let c = cell_count(codes, parts, prefix);
    if prefix.len() == 17 {
        if c >= 1 {
            MERGED as int
        } else {
            NONE as int
        }
    } else if c == 1 {
        cell_member(codes, parts, prefix)
    } else {
        NONE as int
    }
}

/// The node of the cell named by `prefix` in the octree of `parts`, as
/// (particle count, particle slot), if that cell is a node.
pub open spec fn canonical_cell(codes: Seq<u64>, parts: Multiset<int>, prefix: Seq<int>) -> Option<
    (nat, int),
> {
    if cell_exists(codes, parts, prefix) {
        Some((cell_count(codes, parts, prefix), cell_particle(codes, parts, prefix)))
    } else {
        None
    }
}

/// Number of the first `k` child slots of `nd` that point to a node of
/// `nodes` holding a particle.
pub open spec fn occupied_upto(nodes: Seq<TreeNode>, nd: TreeNode, k: int) -> nat
    decreases k,
{
    if k <= 0 {
        0
    } else {
        let c = nd.children@[k - 1] as int;
        occupied_upto(nodes, nd, k - 1) + if 0 <= c < nodes.len() && nodes[c].count > 0 {
            1nat
        } else {
            0nat
        }
    }
}

/// An element of a sequence occurs in it.
proof fn lemma_occurs(s: Seq<usize>, i: int)
    requires
        0 <= i < s.len(),
    ensures
        occurrences(s, s[i] as int) >= 1,
    decreases s.len(),
{
    if i < s.len() - 1 {
        lemma_occurs(s.drop_last(), i);
    }
}

/// Children of `nd` in slots `from..8` that exist, highest slot first.
pub open spec fn children_from(nd: TreeNode, from: int) -> Seq<i32>
    decreases 8 - from,
{
    if from >= 8 {
        Seq::empty()
    } else {
        let rest = children_from(nd, from + 1);
        if nd.children@[from] >= 0 {
            rest.push(nd.children@[from])
        } else {
            rest
        }
    }
}

/// Every child pushed by `push_children` is a child slot's content, and
/// there are at most as many as slots.
pub proof fn lemma_children_from(nd: TreeNode, from: int)
    requires
        0 <= from <= 8,
    ensures
        children_from(nd, from).len() <= 8 - from,
        forall|k: int|
            0 <= k < children_from(nd, from).len() ==> exists|o: int|
                from <= o < 8 && #[trigger] nd.children@[o] == #[trigger] children_from(nd, from)[k]
                    && nd.children@[o] >= 0,
    decreases 8 - from,
{
    if from < 8 {
        lemma_children_from(nd, from + 1);
        let rest = children_from(nd, from + 1);
        let all = children_from(nd, from);
        assert forall|k: int| 0 <= k < all.len() implies exists|o: int|
            from <= o < 8 && #[trigger] nd.children@[o] == #[trigger] all[k] && nd.children@[o] >= 0 by {
            if k < rest.len() {
                assert(all[k] == rest[k]);
                let o = choose|o: int| from + 1 <= o < 8 && #[trigger] nd.children@[o] == rest[k] && nd.children@[o] >= 0;
                assert(nd.children@[o] == all[k]);
            } else {
                assert(nd.children@[from] == all[k]);
            }
        }
    }
}

proof fn lemma_children_from_complete(nd: TreeNode, from: int)
    requires
        0 <= from <= 8,
    ensures
        forall|o: int|
            from <= o < 8 && nd.children@[o] >= 0 ==> #[trigger] children_from(nd, from).contains(
                nd.children@[o],
            ),
        children_from(nd, from).len() == nd.children@.subrange(from, 8).filter(|c: i32| c >= 0).len(),
    decreases 8 - from,
{
    reveal(Seq::filter);
    let p = |c: i32| c >= 0;
    if from < 8 {
        lemma_children_from_complete(nd, from + 1);
        let rest = children_from(nd, from + 1);
        let all = children_from(nd, from);
        assert forall|o: int| from <= o < 8 && nd.children@[o] >= 0 implies #[trigger] all.contains(
            nd.children@[o],
        ) by {
            if o == from {
                assert(all[all.len() - 1] == nd.children@[o]);
            } else {
                assert(rest.contains(nd.children@[o]));
                let j = choose|j: int| 0 <= j < rest.len() && rest[j] == nd.children@[o];
                assert(all[j] == rest[j]);
            }
        }
        let head = seq![nd.children@[from]];
        let tail = nd.children@.subrange(from + 1, 8);
        assert(nd.children@.subrange(from, 8) =~= head + tail);
        Seq::filter_distributes_over_add(head, tail, p);
        assert(head.drop_last() =~= Seq::<i32>::empty());
        assert(Seq::<i32>::empty().filter(p) =~= Seq::<i32>::empty());
    } else {
        assert(nd.children@.subrange(8, 8) =~= Seq::<i32>::empty());
    }
}

/// The walk opens a cell by pushing all of its children: `children_from(nd,
/// 0)` holds the content of every child slot that names a node, and as many
/// entries as there are such slots (with `lemma_children_from`, nothing
/// else).
pub proof fn lemma_children_all_listed(nd: TreeNode)
    ensures
        forall|o: int|
            0 <= o < 8 && nd.children@[o] >= 0 ==> #[trigger] children_from(nd, 0).contains(
                nd.children@[o],
            ),
        children_from(nd, 0).len() == nd.children@.filter(|c: i32| c >= 0).len(),
{
    lemma_children_from_complete(nd, 0);
    assert(nd.children@.subrange(0, 8) =~= nd.children@);

}

/// Capacity of the traversal stack of the Barnes-Hut force walk.
pub const STACK_CAPACITY: usize = 256;

/// Pushes the existing children of `nd` on `stack` above its first `len`
/// entries, highest octant first (so that the lowest is popped first);
/// children that no longer fit are not pushed. Returns the new stack length.
pub fn push_children(nd: &TreeNode, stack: &mut [usize; 256], len: usize) -> (new_len: usize)
    requires
        len <= STACK_CAPACITY,
    ensures
        ({
            let want = children_from(*nd, 0);
            let pushed = if want.len() <= 256 - len {
                want.len() as int
            } else {
                256 - len
            };
            &&& new_len == len + pushed
            &&& forall|i: int| 0 <= i < len ==> #[trigger] final(stack)@[i] == old(stack)@[i]
            &&& forall|i: int| len <= i < new_len ==> #[trigger] final(stack)@[i] == want[i - len] as usize
            &&& forall|i: int| new_len <= i < 256 ==> #[trigger] final(stack)@[i] == old(stack)@[i]
        }),
{
    let mut top = len;
    let mut o: usize = 8;
    while o > 0
        invariant
            o <= 8,
            len <= top <= 256,
            ({
                let want = children_from(*nd, o as int);
                let pushed = if want.len() <= 256 - len {
                    want.len() as int
                } else {
                    256 - len
                };
                &&& top == len + pushed
                &&& forall|i: int| 0 <= i < len ==> #[trigger] stack@[i] == old(stack)@[i]
                &&& forall|i: int| len <= i < top ==> #[trigger] stack@[i] == want[i - len] as usize
                &&& forall|i: int| top <= i < 256 ==> #[trigger] stack@[i] == old(stack)@[i]
            }),
        decreases o,
    {
        o = o - 1;
        let child = nd.children[o];
        if child >= 0 && top < STACK_CAPACITY {
            stack[top] = child as usize;
            top = top + 1;
        }
    }
    top
}

/// A copy of `codes`.
fn copy_codes(codes: &[u64]) -> (v: Vec<u64>)
    ensures
        v@ == codes@,
{
    let mut v: Vec<u64> = Vec::new();
    let mut i: usize = 0;
    while i < codes.len()
        invariant
            i <= codes@.len(),
            v@ == codes@.subrange(0, i as int),
        decreases codes@.len() - i,
    {
        v.push(codes[i]);
        i = i + 1;
        assert(v@ =~= codes@.subrange(0, i as int));
    }
    assert(codes@.subrange(0, codes@.len() as int) =~= codes@);
    v
}

/// Largest number of particles a tree can hold: a tree of `n` particles has
/// at most `1 + 17 * n` nodes, one insertion adds at most 18, and node
/// indices must fit in `i32`.
pub const MAX_PARTICLES: usize = 126_322_567;

/// Child slot or particle slot that holds nothing.
pub const NONE: i32 = -1;

/// Particle slot of a minimum-size cell, which accumulates every particle
/// that reaches it instead of naming one.
pub const MERGED: i32 = -2;

/// One cell of the octree.
#[derive(Clone, Copy)]
pub struct TreeNode {
    /// Index of the node of each octant, or `NONE`.
    pub children: [i32; 8],
    /// The cell's only particle, `NONE`, or `MERGED` in a minimum-size cell.
    pub particle: i32,
    /// Number of particles in the cell (its mass).
    pub count: u32,
    /// Level of the cell; the root is at depth 0.
    pub depth: u32,
}

/// The node describes the cell named by `prefix` for the particles `parts`:
/// its count, whether and where it is split, and which particle it names.
pub open spec fn node_matches(nd: TreeNode, codes: Seq<u64>, parts: Multiset<int>, prefix: Seq<int>) -> bool {
    let c = cell_count(codes, parts, prefix);
    let d = prefix.len();
    &&& nd.depth == d
    &&& nd.count == c
    &&& if d < 17 && c >= 2 {
        forall|o: int|
            0 <= o < 8 ==> (#[trigger] nd.children@[o] >= 0 <==> cell_count(
                codes,
                parts,
                prefix.push(o),
            ) >= 1)
    } else {
        forall|o: int| 0 <= o < 8 ==> #[trigger] nd.children@[o] == NONE
    }
    &&& nd.particle == if d == 17 {
        if c >= 1 {
            MERGED as int
        } else {
            NONE as int
        }
    } else if c == 1 {
        cell_member(codes, parts, prefix)
    } else {
        NONE as int
    }
}

impl TreeNode {
    /// A cell at `depth` that holds no particle and has no children.
    pub fn empty(depth: u32) -> (nd: TreeNode)
        ensures
            forall|o: int| 0 <= o < 8 ==> #[trigger] nd.children@[o] == NONE,
            nd.particle == NONE,
            nd.count == 0,
            nd.depth == depth,
    {
        TreeNode { children: [NONE; 8], particle: NONE, count: 0, depth }
    }

    /// The cell has been split: at least one child exists.
    pub fn branched(&self) -> (b: bool)
        ensures
            b == exists|o: int| 0 <= o < 8 && #[trigger] self.children@[o] >= 0,
    {
        let mut o: usize = 0;
        while o < 8
            invariant
                o <= 8,
                forall|k: int| 0 <= k < o ==> #[trigger] self.children@[k] < 0,
            decreases 8 - o,
        {
            if self.children[o] >= 0 {
                return true;
            }
            o = o + 1;
        }
        false
    }
}

/// Nodes that splitting the cell of `nd` may still add: a cell above the
/// minimum size holding a single particle heads a chain of at most
/// `17 - depth` cells below it.
spec fn credit(nd: TreeNode) -> int {
    if nd.count == 1 && nd.depth < 17 {
        17 - nd.depth
    } else {
        0
    }
}

/// Sum of the credits of the nodes.
spec fn credit_sum(nodes: Seq<TreeNode>) -> int
    decreases nodes.len(),
{
    if nodes.len() == 0 {
        0
    } else {
        credit_sum(nodes.drop_last()) + credit(nodes.last())
    }
}

proof fn lemma_credit_nonneg(nodes: Seq<TreeNode>)
    ensures
        credit_sum(nodes) >= 0,
    decreases nodes.len(),
{
    if nodes.len() > 0 {
        lemma_credit_nonneg(nodes.drop_last());
    }
}

proof fn lemma_credit_push(nodes: Seq<TreeNode>, nd: TreeNode)
    ensures
        credit_sum(nodes.push(nd)) == credit_sum(nodes) + credit(nd),
{
    assert(nodes.push(nd).drop_last() =~= nodes);
}

proof fn lemma_credit_set(nodes: Seq<TreeNode>, i: int, nd: TreeNode)
    requires
        0 <= i < nodes.len(),
    ensures
        credit_sum(nodes.update(i, nd)) == credit_sum(nodes) - credit(nodes[i]) + credit(nd),
    decreases nodes.len(),
{
    let u = nodes.update(i, nd);
    if i < nodes.len() - 1 {
        lemma_credit_set(nodes.drop_last(), i, nd);
        assert(u.drop_last() =~= nodes.drop_last().update(i, nd));
    } else {
        assert(u.drop_last() =~= nodes.drop_last());
    }
}

/// Nodes `from..` of a path table, as one insertion of a particle with path
/// code `q` creates them: all on the path of `q` but the cell the displaced
/// particle moves to, in order of depth, and that cell just before the
/// arriving particle's cell of the same depth.
pub open spec fn created_in_order(paths: Seq<Seq<int>>, from: int, q: u64) -> bool {
    &&& forall|i: int| from <= i < paths.len() && i != paths.len() - 2 ==> has_prefix(q, #[trigger] paths[i])
    &&& forall|i: int, j: int|
        #![trigger paths[i], paths[j]]
        from <= i < j < paths.len() ==> paths[i].len() < paths[j].len() || (i == paths.len() - 2 && j
            == paths.len() - 1 && paths[i].len() == paths[j].len() && !has_prefix(q, paths[i]))
}

/// Insertion step (index into `hist`, the particles in the order they were
/// inserted) after which the cell named by `path` first exists; 0 for a cell
/// that exists before any insertion.
pub open spec fn birth(codes: Seq<u64>, hist: Seq<int>, path: Seq<int>) -> int
    decreases hist.len(),
{
    if hist.len() == 0 {
        0
    } else if cell_exists(codes, hist.drop_last().to_multiset(), path) {
        birth(codes, hist.drop_last(), path)
    } else {
        hist.len() - 1
    }
}

/// Place of a cell in the node numbering: the step that created it, its
/// depth, and whether it lies on the path of the particle inserted at that
/// step (the displaced particle's cell comes first).
pub open spec fn cell_rank(codes: Seq<u64>, hist: Seq<int>, path: Seq<int>) -> (int, int, int) {
    let b = birth(codes, hist, path);
    (b, path.len() as int, if has_prefix(codes[hist[b]], path) {
        1int
    } else {
        0int
    })
}

proof fn lemma_empty_history()
    ensures
        Seq::<int>::empty().to_multiset() == Multiset::<int>::empty(),
{
    broadcast use vstd::seq_lib::group_to_multiset_ensures;
    broadcast use vstd::multiset::lemma_multiset_empty_len;

    assert(Seq::<int>::empty().to_multiset().len() == 0);
}

proof fn lemma_birth_range(codes: Seq<u64>, hist: Seq<int>, path: Seq<int>)
    ensures
        0 <= birth(codes, hist, path),
        hist.len() >= 1 ==> birth(codes, hist, path) < hist.len(),
    decreases hist.len(),
{
    if hist.len() > 0 {
        lemma_birth_range(codes, hist.drop_last(), path);
    }
}

/// Node vector of an octree together with the particles' path codes; the
/// ghost fields record each node's path and parent, the particles inserted
/// so far, and the order in which they were inserted.
struct TreeCore {
    nodes: Vec<TreeNode>,
    codes: Vec<u64>,
    paths: Ghost<Seq<Seq<int>>>,
    parent: Ghost<Seq<int>>,
    parts: Ghost<Multiset<int>>,
    hist: Ghost<Seq<int>>,
}

impl TreeCore {
    /// Child slot `o` of node `i` is empty or points to a later node one level
    /// down, whose path extends `i`'s by `o`.
    pub closed spec fn child_ok(self, i: int, o: int) -> bool {
        let c = self.nodes@[i].children@[o] as int;
        c == NONE || (i < c < self.nodes@.len() && self.paths@[c] == self.paths@[i].push(o)
            && self.parent@[c] == i)
    }

    /// Node `j` is pointed to by its parent.
    pub closed spec fn parent_ok(self, j: int) -> bool {
        let p = self.parent@[j];
        &&& 0 <= p < j
        &&& self.paths@[j].len() >= 1
        &&& self.paths@[p] == self.paths@[j].drop_last()
        &&& self.nodes@[p].children@[self.paths@[j].last()] == j
    }

    /// Shape of the vector: a root, each node's path, child links down and
    /// parent links up.
    pub closed spec fn struct_ok(self) -> bool {
        &&& self.nodes@.len() >= 1
        &&& self.paths@.len() == self.nodes@.len()
        &&& self.parent@.len() == self.nodes@.len()
        &&& self.paths@[0] == Seq::<int>::empty()
        &&& forall|i: int|
            0 <= i < self.nodes@.len() ==> {
                &&& #[trigger] self.paths@[i].len() <= 17
                &&& self.nodes@[i].depth == self.paths@[i].len()
                &&& forall|k: int| 0 <= k < self.paths@[i].len() ==> 0 <= #[trigger] self.paths@[i][k] < 8
            }
        &&& forall|i: int, o: int| 0 <= i < self.nodes@.len() && 0 <= o < 8 ==> #[trigger] self.child_ok(i, o)
        &&& forall|j: int| 0 < j < self.nodes@.len() ==> #[trigger] self.parent_ok(j)
    }

    /// Every node describes its cell for the inserted particles.
    pub closed spec fn nodes_match(self) -> bool {
        forall|i: int|
            0 <= i < self.nodes@.len() ==> #[trigger] node_matches(
                self.nodes@[i],
                self.codes@,
                self.parts@,
                self.paths@[i],
            )
    }

    /// Inserted particles index the path codes, which are few enough for
    /// node and particle indices to fit in `i32`.
    pub closed spec fn parts_ok(self) -> bool {
        &&& forall|x: int| #[trigger] self.parts@.count(x) > 0 ==> 0 <= x < self.codes@.len()
        &&& self.codes@.len() <= MAX_PARTICLES
    }

    /// The nodes below the root, together with the credits of the cells
    /// that hold one particle, number at most 17 per particle.
    pub closed spec fn size_ok(self) -> bool {
        self.nodes@.len() - 1 + credit_sum(self.nodes@) <= 17 * self.nodes@[0].count
    }

    /// The particles are those of the insertion history, and the nodes below
    /// the root are numbered by rank: by the step that created their cell,
    /// then by depth, the displaced particle's cell before the arriving one's.
    pub closed spec fn order_ok(self) -> bool {
        &&& self.parts@ == self.hist@.to_multiset()
        &&& forall|i: int, j: int|
            #![trigger self.paths@[i], self.paths@[j]]
            0 < i < j < self.nodes@.len() ==> rank_lt(
                cell_rank(self.codes@, self.hist@, self.paths@[i]),
                cell_rank(self.codes@, self.hist@, self.paths@[j]),
            )
    }

    /// The tree is the octree of `particles()` over `source_codes()`.
    pub closed spec fn wf(self) -> bool {
        &&& self.struct_ok()
        &&& self.nodes_match()
        &&& self.parts_ok()
        &&& self.size_ok()
        &&& self.order_ok()
    }

    /// Path codes of the particles, indexed by particle.
    pub closed spec fn source_codes(self) -> Seq<u64> {
        self.codes@
    }

    /// Particles inserted so far, with multiplicity.
    pub closed spec fn particles(self) -> Multiset<int> {
        self.parts@
    }

    /// The node vector.
    pub closed spec fn node_seq(self) -> Seq<TreeNode> {
        self.nodes@
    }

    /// An octree holding no particle: the root cell alone.
    fn new() -> (t: TreeCore)
        ensures
            t.wf(),
            t.source_codes() == Seq::<u64>::empty(),
            t.particles() == Multiset::<int>::empty(),
            t.node_seq().len() == 1,
            t.node_seq()[0].count == 0,
            t.node_seq()[0].particle == NONE,
            t.node_seq()[0].depth == 0,
            forall|o: int| 0 <= o < 8 ==> #[trigger] t.node_seq()[0].children@[o] == NONE,
            t.hist@ == Seq::<int>::empty(),
    {
        let mut nodes: Vec<TreeNode> = Vec::new();
        nodes.push(TreeNode::empty(0));
        let ghost paths = seq![Seq::<int>::empty()];
        let ghost parent = seq![0int];
        let ghost parts = Multiset::<int>::empty();
        let t = TreeCore {
            nodes,
            codes: Vec::new(),
            paths: Ghost(paths),
            parent: Ghost(parent),
            parts: Ghost(parts),
            hist: Ghost(Seq::<int>::empty()),
        };
        proof {
            assert(t.child_ok(0, 0));
            assert forall|i: int, o: int| 0 <= i < t.nodes@.len() && 0 <= o < 8 implies #[trigger] t.child_ok(i, o) by {}
            assert(node_matches(t.nodes@[0], t.codes@, t.parts@, t.paths@[0]));
            assert(t.nodes@.drop_last() =~= Seq::<TreeNode>::empty());
            assert(credit_sum(Seq::<TreeNode>::empty()) == 0);
            assert(credit_sum(t.nodes@) == 0);
            lemma_empty_history();
        }
        t
    }

    /// Distinct nodes describe distinct cells.
    proof fn lemma_path_unique(self, i: int, j: int)
        requires
            self.struct_ok(),
            0 <= i < self.nodes@.len(),
            0 <= j < self.nodes@.len(),
            self.paths@[i] == self.paths@[j],
        ensures
            i == j,
        decreases i + j,
    {
        if i != 0 && j != 0 {
            assert(self.parent_ok(i));
            assert(self.parent_ok(j));
            let pi = self.parent@[i];
            let pj = self.parent@[j];
            self.lemma_path_unique(pi, pj);
        } else if i != 0 {
            assert(self.parent_ok(i));
        } else if j != 0 {
            assert(self.parent_ok(j));
        }
    }

    /// Every prefix of a node's path is the path of a node, which points
    /// along the path to the next one.
    proof fn lemma_ancestor(self, j: int, k: int) -> (a: int)
        requires
            self.struct_ok(),
            0 <= j < self.nodes@.len(),
            0 <= k <= self.paths@[j].len(),
        ensures
            0 <= a < self.nodes@.len(),
            self.paths@[a] == self.paths@[j].subrange(0, k),
            k < self.paths@[j].len() ==> self.nodes@[a].children@[self.paths@[j][k]] >= 0,
        decreases j,
    {
        if k == self.paths@[j].len() {
            assert(self.paths@[j].subrange(0, k) =~= self.paths@[j]);
            j
        } else {
            assert(self.parent_ok(j));
            let p = self.parent@[j];
            if k == self.paths@[j].len() - 1 {
                assert(self.paths@[j].subrange(0, k) =~= self.paths@[j].drop_last());
                p
            } else {
                let a = self.lemma_ancestor(p, k);
                assert(self.paths@[p].subrange(0, k) =~= self.paths@[j].subrange(0, k));
                assert(self.paths@[p][k] == self.paths@[j][k]);
                a
            }
        }
    }

    /// Appends an empty cell as child `oct` of `parent`, one level down.
    fn new_child(&mut self, parent: usize, oct: usize) -> (index: usize)
        requires
            old(self).struct_ok(),
            parent < old(self).nodes@.len(),
            oct < 8,
            old(self).nodes@[parent as int].children@[oct as int] == NONE,
            old(self).nodes@[parent as int].depth < 17,
            old(self).nodes@.len() < i32::MAX,
        ensures
            index == old(self).nodes@.len(),
            final(self).struct_ok(),
            final(self).nodes@.len() == index + 1,
            forall|i: int|
                0 <= i < index && i != parent ==> final(self).nodes@[i] == old(self).nodes@[i],
            final(self).nodes@[parent as int].children@ == old(
                self,
            ).nodes@[parent as int].children@.update(oct as int, index as i32),
            final(self).nodes@[parent as int].particle == old(self).nodes@[parent as int].particle,
            final(self).nodes@[parent as int].count == old(self).nodes@[parent as int].count,
            final(self).nodes@[parent as int].depth == old(self).nodes@[parent as int].depth,
            forall|o: int| 0 <= o < 8 ==> #[trigger] final(self).nodes@[index as int].children@[o] == NONE,
            final(self).nodes@[index as int].particle == NONE,
            final(self).nodes@[index as int].count == 0,
            final(self).nodes@[index as int].depth == old(self).nodes@[parent as int].depth + 1,
            final(self).paths@ == old(self).paths@.push(old(self).paths@[parent as int].push(oct as int)),
            final(self).codes@ == old(self).codes@,
            final(self).parts@ == old(self).parts@,
            final(self).hist@ == old(self).hist@,
            credit_sum(final(self).nodes@) == credit_sum(old(self).nodes@),
    {
        let child_depth = self.nodes[parent].depth + 1;
        let index = self.nodes.len();
        let ghost before = self.nodes@;
        self.nodes.push(TreeNode::empty(child_depth));
        let ghost pushed = self.nodes@;
        let mut p = self.nodes[parent];
        p.children[oct] = index as i32;
        self.nodes.set(parent, p);
        proof {
            lemma_credit_push(before, pushed[index as int]);
            lemma_credit_set(pushed, parent as int, p);
            let ghost old_paths = self.paths@;
            assert(old(self).paths@[parent as int].len() == old(self).nodes@[parent as int].depth);
            self.paths@ = self.paths@.push(self.paths@[parent as int].push(oct as int));
            self.parent@ = self.parent@.push(parent as int);
            let t = *self;
            let o0 = *old(self);
            assert forall|i: int|
                0 <= i < t.nodes@.len() implies {
                    &&& #[trigger] t.paths@[i].len() <= 17
                    &&& t.nodes@[i].depth == t.paths@[i].len()
                    &&& forall|k: int| 0 <= k < t.paths@[i].len() ==> 0 <= #[trigger] t.paths@[i][k] < 8
                } by {
                if i < index {
                    assert(t.paths@[i] == o0.paths@[i]);
                } else {
                    let pp = o0.paths@[parent as int];
                    assert forall|k: int| 0 <= k < t.paths@[i].len() implies 0 <= #[trigger] t.paths@[i][k] < 8 by {
                        if k < pp.len() {
                            assert(t.paths@[i][k] == pp[k]);
                        }
                    }
                }
            }
            assert forall|i: int, o: int| 0 <= i < t.nodes@.len() && 0 <= o < 8 implies #[trigger] t.child_ok(i, o) by {
                if i < index {
                    assert(o0.child_ok(i, o));
                }
            }
            assert forall|j: int| 0 < j < t.nodes@.len() implies #[trigger] t.parent_ok(j) by {
                if j < index {
                    assert(o0.parent_ok(j));
                    assert(t.paths@[j] == o0.paths@[j]);
                } else {
                    assert(t.paths@[j].drop_last() =~= o0.paths@[parent as int]);
                }
            }
        }
        index
    }

    /// While a particle with path code `q` descends, the nodes above depth
    /// `d` on its path already count it and every other node does not yet.
    closed spec fn descent_ok(
        self,
        j: int,
        s_old: Multiset<int>,
        s_new: Multiset<int>,
        q: u64,
        d: int,
    ) -> bool {
        if has_prefix(q, self.paths@[j]) && self.paths@[j].len() < d {
            node_matches(self.nodes@[j], self.codes@, s_new, self.paths@[j])
        } else {
            node_matches(self.nodes@[j], self.codes@, s_old, self.paths@[j])
        }
    }

    /// Two nodes on the path of one code at the same depth are one node.
    proof fn lemma_same_depth_on_path(self, q: u64, i: int, j: int)
        requires
            self.struct_ok(),
            0 <= i < self.nodes@.len(),
            0 <= j < self.nodes@.len(),
            has_prefix(q, self.paths@[i]),
            has_prefix(q, self.paths@[j]),
            self.paths@[i].len() == self.paths@[j].len(),
        ensures
            i == j,
    {
        assert(self.paths@[i] =~= self.paths@[j]);
        self.lemma_path_unique(i, j);
    }

    /// Inserts `particle` from the root down: each cell on its path counts it,
    /// a cell holding one particle is split and that particle moved one level
    /// down, and the particle comes to rest in an empty cell or in a
    /// minimum-size cell.
    fn insert(&mut self, particle: usize)
        requires
            old(self).wf(),
            particle < old(self).codes@.len(),
            old(self).node_seq().len() + 18 <= i32::MAX,
            old(self).node_seq()[0].count < u32::MAX,
        ensures
            final(self).wf(),
            final(self).codes@ == old(self).codes@,
            final(self).particles() == old(self).particles().insert(particle as int),
            final(self).node_seq().len() <= old(self).node_seq().len() + 18,
            final(self).node_seq()[0].count == old(self).node_seq()[0].count + 1,
            forall|i: int| 0 <= i < old(self).nodes@.len() ==> #[trigger] final(self).paths@[i] == old(
                self,
            ).paths@[i],
            created_in_order(
                final(self).paths@,
                old(self).nodes@.len() as int,
                old(self).codes@[particle as int],
            ),
            final(self).hist@ == old(self).hist@.push(particle as int),
    {
        let ghost codes = self.codes@;
        let ghost s_old = self.parts@;
        let ghost s_new = s_old.insert(particle as int);
        let ghost q = codes[particle as int];
        let ghost old_len = self.nodes@.len();
        let ghost q0 = self.nodes@.len() - 1 + credit_sum(self.nodes@);
        let ghost empty_path = Seq::<int>::empty();
        proof {
            assert(node_matches(self.nodes@[0], self.codes@, s_old, self.paths@[0]));
            assert forall|j: int| 0 <= j < self.nodes@.len() implies #[trigger] self.descent_ok(
                j,
                s_old,
                s_new,
                q,
                0,
            ) by {
                assert(node_matches(self.nodes@[j], self.codes@, s_old, self.paths@[j]));
            }
        }
        proof {
            assert(old(self).paths@[0] == empty_path);
            lemma_count_insert(codes, s_old, empty_path, particle as int);
        }
        let mut cur: usize = 0;
        loop
            invariant
                self.struct_ok(),
                self.codes@ == codes,
                self.parts@ == s_old,
                s_old == old(self).parts@,
                codes == old(self).codes@,
                old_len == old(self).nodes@.len(),
                self.parts_ok(),
                s_new == s_old.insert(particle as int),
                q == codes[particle as int],
                particle < codes.len(),
                codes.len() <= i32::MAX,
                cur < self.nodes@.len(),
                has_prefix(q, self.paths@[cur as int]),
                self.nodes@.len() <= old_len + self.paths@[cur as int].len() + if self.nodes@[cur as int].count
                    == 0 {
                    1int
                } else {
                    0int
                },
                old_len + 18 <= i32::MAX,
                cell_count(codes, s_old, empty_path) < u32::MAX,
                empty_path == Seq::<int>::empty(),
                old(self).nodes@[0].count == cell_count(codes, s_old, empty_path),
                cell_count(codes, s_new, empty_path) == cell_count(codes, s_old, empty_path) + 1,
                q0 <= 17 * cell_count(codes, s_old, empty_path),
                old(self).paths@.len() == old_len,
                self.hist@ == old(self).hist@,
                old(self).wf(),
                old_len <= self.nodes@.len(),
                forall|i: int| 0 <= i < old_len ==> #[trigger] self.paths@[i] == old(self).paths@[i],
                created_in_order(self.paths@, old_len as int, q),
                forall|i: int|
                    old_len <= i < self.paths@.len() && !has_prefix(q, #[trigger] self.paths@[i]) ==> cur
                        == self.paths@.len() - 1 && self.nodes@[cur as int].count == 0,
                forall|i: int|
                    old_len <= i < self.paths@.len() ==> #[trigger] self.paths@[i].len() <= self.paths@[cur as int].len(),
                self.nodes@.len() - 1 + credit_sum(self.nodes@) <= q0 + if self.nodes@[cur as int].count
                    == 0 && cur != 0 {
                    1int
                } else {
                    0int
                },
                forall|j: int|
                    0 <= j < self.nodes@.len() ==> #[trigger] self.descent_ok(
                        j,
                        s_old,
                        s_new,
                        q,
                        self.paths@[cur as int].len() as int,
                    ),
            decreases 17 - self.paths@[cur as int].len(),
        {
            let ghost t0 = *self;
            let ghost path = self.paths@[cur as int];
            let ghost d = path.len() as int;
            let nd = self.nodes[cur];
            proof {
                assert(t0.descent_ok(cur as int, s_old, s_new, q, d));
                assert(node_matches(nd, codes, s_old, path));
                assert(path.subrange(0, 0) =~= empty_path);
                lemma_count_mono(codes, s_old, empty_path, path);
                lemma_count_insert(codes, s_old, path, particle as int);
            }
            if nd.depth as usize >= MAX_DEPTH {
                let mut n2 = nd;
                n2.count = nd.count + 1;
                n2.particle = MERGED;
                self.nodes.set(cur, n2);
                proof {
                    lemma_credit_set(t0.nodes@, cur as int, n2);
                    self.parts@ = s_new;
                    self.hist@ = self.hist@.push(particle as int);
                    self.lemma_finish_descent(t0, cur as int, s_old, s_new, q, particle as int);
                    self.lemma_rank_step(*old(self), particle as int);
                    assert(node_matches(self.nodes@[0], codes, s_new, self.paths@[0]));
                    assert(self.paths@[0] == empty_path);
                    assert(self.size_ok());
                }
                return;
            }
            let br = nd.branched();
            proof {
                if d < 17 && nd.count >= 2 {
                    lemma_some_octant(codes, s_old, path);
                    let o = choose|o: int| 0 <= o < 8 && #[trigger] cell_count(codes, s_old, path.push(o)) >= 1;
                    assert(nd.children@[o] >= 0);
                }
                if !br {
                    assert forall|o: int| 0 <= o < 8 implies #[trigger] nd.children@[o] == NONE by {
                        assert(t0.child_ok(cur as int, o));
                    }
                } else {
                    let o = choose|o: int| 0 <= o < 8 && #[trigger] nd.children@[o] >= 0;
                    assert(nd.children@[o] >= 0);
                    assert(d < 17 && nd.count >= 2);
                }
                if cur != 0 {
                    assert(t0.parent_ok(cur as int));
                }
            }
            if !br && nd.count == 0 {
                let mut n2 = nd;
                n2.count = 1;
                n2.particle = particle as i32;
                self.nodes.set(cur, n2);
                proof {
                    lemma_credit_set(t0.nodes@, cur as int, n2);
                    lemma_cell_member(codes, s_new, path);
                    assert(in_cell(codes, s_new, path, particle as int));
                    self.parts@ = s_new;
                    self.hist@ = self.hist@.push(particle as int);
                    self.lemma_finish_descent(t0, cur as int, s_old, s_new, q, particle as int);
                    self.lemma_rank_step(*old(self), particle as int);
                    assert(node_matches(self.nodes@[0], codes, s_new, self.paths@[0]));
                    assert(self.paths@[0] == empty_path);
                    assert(self.size_ok());
                }
                return;
            }
            let ghost c0 = nd.count as int;
            let ghost had_one = !br;
            let ghost mut moved = 0int;
            let ghost mut moved_oct = 0int;
            if !br {
                let old_p = nd.particle;
                proof {
                    lemma_cell_member(codes, s_old, path);
                    assert(c0 == 1);
                }
                let old_oct = octant_at(self.codes[old_p as usize], nd.depth as usize);
                proof {
                    lemma_single_split(codes, s_old, path, old_oct as int);
                    lemma_octant_range(codes[old_p as int], d);
                }
                let mut n2 = nd;
                n2.particle = NONE;
                self.nodes.set(cur, n2);
                proof {
                    self.lemma_same_shape(t0);
                    lemma_credit_set(t0.nodes@, cur as int, n2);
                }
                let oc = self.new_child(cur, old_oct);
                let mut c = self.nodes[oc];
                c.count = 1;
                c.particle = if c.depth as usize >= MAX_DEPTH {
                    MERGED
                } else {
                    old_p
                };
                let ghost t1 = *self;
                self.nodes.set(oc, c);
                proof {
                    lemma_credit_set(t1.nodes@, oc as int, c);
                    self.lemma_same_shape(t1);
                    moved = oc as int;
                    moved_oct = old_oct as int;
                    assert forall|j: int| 0 <= j < t0.nodes@.len() && j != cur implies self.nodes@[j]
                        == t0.nodes@[j] by {
                        assert(self.nodes@[j] == t1.nodes@[j]);
                    }
                    assert(self.paths@[oc as int] == path.push(old_oct as int));
                    assert(forall|j: int| 0 <= j < t0.nodes@.len() ==> self.paths@[j] == t0.paths@[j]);
                }
            }
            let ghost t2 = *self;
            proof {
                if had_one {
                    assert(t2.nodes@.len() == t0.nodes@.len() + 1);
                    assert(moved == t0.nodes@.len());
                    assert(0 <= moved_oct < 8);
                    assert(t2.nodes@[cur as int].children@ == t0.nodes@[cur as int].children@.update(
                        moved_oct,
                        moved as i32,
                    ));
                    assert(t2.nodes@[cur as int].count == c0);
                    assert(t2.nodes@[cur as int].depth == d);
                    assert(t2.nodes@[moved].count == 1);
                    assert(t2.nodes@[moved].depth == d + 1);
                } else {
                    assert(t2 == t0);
                }
            }
            let mut n3 = self.nodes[cur];
            n3.count = n3.count + 1;
            self.nodes.set(cur, n3);
            proof {
                lemma_credit_set(t2.nodes@, cur as int, n3);
                self.lemma_same_shape(t2);
            }
            let oct = octant_at(self.codes[particle], nd.depth as usize);
            let existing = self.nodes[cur].children[oct];
            let ghost t3 = *self;
            proof {
                assert(t3.child_ok(cur as int, oct as int));
            }
            let next = if existing < 0 {
                self.new_child(cur, oct)
            } else {
                existing as usize
            };
            proof {
                let qo = oct as int;
                let np = path.push(qo);
                let fresh = existing < 0;
                lemma_has_prefix_push(q, path, qo);
                assert(self.paths@[next as int] == np);
                // nodes that were there before keep their contents, except `cur`
                assert forall|j: int| 0 <= j < t2.nodes@.len() && j != cur implies self.nodes@[j]
                    == t2.nodes@[j] && self.paths@[j] == t2.paths@[j] by {}
                assert forall|j: int|
                    0 <= j < self.nodes@.len() implies #[trigger] self.descent_ok(
                    j,
                    s_old,
                    s_new,
                    q,
                    d + 1,
                ) by {
                    self.lemma_step_node(
                        t0,
                        j,
                        cur as int,
                        next as int,
                        s_old,
                        s_new,
                        q,
                        particle as int,
                        had_one,
                        moved,
                        moved_oct,
                        fresh,
                    );
                }
                if had_one && !fresh {
                    assert(t3.nodes@[cur as int].children@ == t2.nodes@[cur as int].children@);
                    assert(t0.nodes@[cur as int].children@[qo] == NONE);
                    assert(qo == moved_oct);
                }
                assert(nd.count >= 1);
                self.lemma_numbering_step(
                    t0,
                    old(self).paths@,
                    old_len as int,
                    q,
                    cur as int,
                    next as int,
                    had_one,
                    moved,
                    moved_oct,
                    fresh,
                );
            }
            cur = next;
        }
    }

    /// One step of the descent keeps every node in agreement with the
    /// particle's progress: `cur` now counts it, the particle that shared its
    /// cell sits in `moved`, and a fresh cell waits at `next` when needed.
    proof fn lemma_step_node(
        self,
        t0: Self,
        j: int,
        cur: int,
        next: int,
        s_old: Multiset<int>,
        s_new: Multiset<int>,
        q: u64,
        p: int,
        had_one: bool,
        moved: int,
        moved_oct: int,
        fresh: bool,
    )
        requires
            t0.struct_ok(),
            self.struct_ok(),
            self.codes@ == t0.codes@,
            0 <= p < t0.codes@.len(),
            q == t0.codes@[p],
            s_new == s_old.insert(p),
            0 <= cur < t0.nodes@.len(),
            has_prefix(q, t0.paths@[cur]),
            t0.paths@[cur].len() < 17,
            forall|i: int|
                0 <= i < t0.nodes@.len() ==> #[trigger] t0.descent_ok(
                    i,
                    s_old,
                    s_new,
                    q,
                    t0.paths@[cur].len() as int,
                ),
            had_one ==> t0.nodes@[cur].count == 1,
            had_one ==> forall|o: int| 0 <= o < 8 ==> #[trigger] t0.nodes@[cur].children@[o] == NONE,
            !had_one ==> t0.nodes@[cur].count >= 2,
            had_one ==> moved == t0.nodes@.len(),
            had_one ==> moved_oct == octant_of(
                t0.codes@[cell_member(t0.codes@, s_old, t0.paths@[cur])],
                t0.paths@[cur].len() as int,
            ),
            0 <= j < self.nodes@.len(),
            self.nodes@.len() == t0.nodes@.len() + (if had_one {
                1int
            } else {
                0int
            }) + (if fresh {
                1int
            } else {
                0int
            }),
            forall|i: int| 0 <= i < t0.nodes@.len() ==> #[trigger] self.paths@[i] == t0.paths@[i],
            forall|i: int|
                0 <= i < t0.nodes@.len() && i != cur ==> #[trigger] self.nodes@[i] == t0.nodes@[i],
            self.nodes@[cur].count == t0.nodes@[cur].count + 1,
            self.nodes@[cur].particle == NONE,
            forall|o: int|
                0 <= o < 8 ==> (#[trigger] self.nodes@[cur].children@[o] >= 0 <==> (
                t0.nodes@[cur].children@[o] >= 0 || (had_one && o == moved_oct) || o == octant_of(
                    q,
                    t0.paths@[cur].len() as int,
                ))),
            had_one ==> self.nodes@[moved].count == 1,
            had_one ==> self.nodes@[moved].particle == if t0.paths@[cur].len() + 1 == 17 {
                MERGED as int
            } else {
                cell_member(t0.codes@, s_old, t0.paths@[cur])
            },
            had_one ==> forall|o: int| 0 <= o < 8 ==> #[trigger] self.nodes@[moved].children@[o] == NONE,
            had_one ==> self.paths@[moved] == t0.paths@[cur].push(moved_oct),
            fresh ==> next == self.nodes@.len() - 1,
            fresh ==> self.nodes@[next].count == 0,
            fresh ==> self.nodes@[next].particle == NONE,
            fresh ==> forall|o: int| 0 <= o < 8 ==> #[trigger] self.nodes@[next].children@[o] == NONE,
            fresh ==> t0.nodes@[cur].children@[octant_of(q, t0.paths@[cur].len() as int)] < 0,
            fresh && had_one ==> octant_of(q, t0.paths@[cur].len() as int) != moved_oct,
            self.paths@[next] == t0.paths@[cur].push(octant_of(q, t0.paths@[cur].len() as int)),
        ensures
            self.descent_ok(j, s_old, s_new, q, t0.paths@[cur].len() + 1int),
    {
        let codes = t0.codes@;
        let path = t0.paths@[cur];
        let d = path.len() as int;
        let qo = octant_of(q, d);
        lemma_octant_range(q, d);
        assert(t0.descent_ok(cur, s_old, s_new, q, d));
        assert(node_matches(t0.nodes@[cur], codes, s_old, path));
        lemma_count_insert(codes, s_old, path, p);
        if j == cur {
            assert forall|o: int| 0 <= o < 8 implies (#[trigger] self.nodes@[cur].children@[o] >= 0
                <==> cell_count(codes, s_new, path.push(o)) >= 1) by {
                lemma_count_insert(codes, s_old, path.push(o), p);
                lemma_has_prefix_push(q, path, o);
                if had_one {
                    lemma_single_split(codes, s_old, path, o);
                }
            }
            assert(self.paths@[cur] == path);
            assert(node_matches(self.nodes@[cur], codes, s_new, path));
        } else if j < t0.nodes@.len() {
            assert(t0.descent_ok(j, s_old, s_new, q, d));
            let pj = t0.paths@[j];
            if has_prefix(q, pj) && pj.len() == d {
                t0.lemma_same_depth_on_path(q, j, cur);
            }
        } else if had_one && j == moved {
            lemma_single_split(codes, s_old, path, moved_oct);
            assert(self.paths@[j].len() == d + 1);
            assert(node_matches(self.nodes@[j], codes, s_old, self.paths@[j]));
        } else {
            assert(fresh && j == next);
            if had_one {
                lemma_single_split(codes, s_old, path, qo);
            } else {
                assert(t0.nodes@[cur].children@[qo] < 0);
            }
            assert(cell_count(codes, s_old, path.push(qo)) == 0);
            assert(node_matches(self.nodes@[j], codes, s_old, self.paths@[j]));
        }
    }

    /// One step of the descent keeps the nodes created so far in creation
    /// order: on the path of `q` by depth, and the displaced particle's cell
    /// only as the last but one, when the arriving particle's cell follows.
    proof fn lemma_numbering_step(
        self,
        t0: Self,
        old_paths: Seq<Seq<int>>,
        old_len: int,
        q: u64,
        cur: int,
        next: int,
        had_one: bool,
        moved: int,
        moved_oct: int,
        fresh: bool,
    )
        requires
            t0.paths@.len() == t0.nodes@.len(),
            self.paths@.len() == self.nodes@.len(),
            0 <= old_len <= t0.paths@.len(),
            old_paths.len() == old_len,
            forall|i: int| 0 <= i < old_len ==> #[trigger] t0.paths@[i] == old_paths[i],
            created_in_order(t0.paths@, old_len, q),
            forall|i: int|
                old_len <= i < t0.paths@.len() && !has_prefix(q, #[trigger] t0.paths@[i]) ==> cur
                    == t0.paths@.len() - 1 && t0.nodes@[cur].count == 0,
            forall|i: int| old_len <= i < t0.paths@.len() ==> #[trigger] t0.paths@[i].len() <= t0.paths@[cur].len(),
            0 <= cur < t0.nodes@.len(),
            t0.nodes@[cur].count >= 1,
            has_prefix(q, t0.paths@[cur]),
            t0.paths@[cur].len() < 17,
            forall|i: int| 0 <= i < t0.nodes@.len() ==> #[trigger] self.paths@[i] == t0.paths@[i],
            self.nodes@.len() == t0.nodes@.len() + (if had_one {
                1int
            } else {
                0int
            }) + (if fresh {
                1int
            } else {
                0int
            }),
            had_one ==> moved == t0.nodes@.len(),
            had_one ==> self.paths@[moved] == t0.paths@[cur].push(moved_oct),
            self.paths@[next] == t0.paths@[cur].push(octant_of(q, t0.paths@[cur].len() as int)),
            0 <= next < self.nodes@.len(),
            fresh ==> next == self.nodes@.len() - 1,
            fresh ==> self.nodes@[next].count == 0,
            had_one && !fresh ==> next == moved,
            fresh && had_one ==> octant_of(q, t0.paths@[cur].len() as int) != moved_oct,
        ensures
            forall|i: int| 0 <= i < old_len ==> #[trigger] self.paths@[i] == old_paths[i],
            created_in_order(self.paths@, old_len, q),
            forall|i: int|
                old_len <= i < self.paths@.len() && !has_prefix(q, #[trigger] self.paths@[i]) ==> next
                    == self.paths@.len() - 1 && self.nodes@[next].count == 0,
            forall|i: int| old_len <= i < self.paths@.len() ==> #[trigger] self.paths@[i].len() <= self.paths@[next].len(),
    {
        let path = t0.paths@[cur];
        let d = path.len() as int;
        let qo = octant_of(q, d);
        let n0 = t0.paths@.len();
        let n1 = self.paths@.len();
        lemma_has_prefix_push(q, path, qo);
        lemma_has_prefix_push(q, path, moved_oct);
        assert forall|i: int| old_len <= i < n0 implies has_prefix(q, #[trigger] self.paths@[i]) by {
            assert(self.paths@[i] == t0.paths@[i]);
        }
        assert forall|i: int| old_len <= i < n1 && !has_prefix(q, #[trigger] self.paths@[i]) implies next
            == n1 - 1 && self.nodes@[next].count == 0 && i == n1 - 2 by {
            if i < n0 {
            } else if had_one && i == moved {
                if !fresh {
                    assert(self.paths@[next] == self.paths@[moved]);
                    assert(self.paths@[next].last() == qo);
                    assert(self.paths@[moved].last() == moved_oct);
                }
            } else {
                assert(i == next);
            }
        }
        assert forall|i: int| old_len <= i < n1 && i != n1 - 2 implies has_prefix(q, #[trigger] self.paths@[i]) by {
            if !has_prefix(q, self.paths@[i]) {
                assert(i == n1 - 2);
            }
        }
        assert forall|i: int, j: int|
            #![trigger self.paths@[i], self.paths@[j]]
            old_len <= i < j < n1 implies self.paths@[i].len() < self.paths@[j].len() || (i == n1 - 2 && j
                == n1 - 1 && self.paths@[i].len() == self.paths@[j].len() && !has_prefix(q, self.paths@[i])) by {
            if j < n0 {
                assert(t0.paths@[i] == self.paths@[i]);
                assert(t0.paths@[j] == self.paths@[j]);
                assert(has_prefix(q, self.paths@[i]));
            } else if i < n0 {
                assert(t0.paths@[i] == self.paths@[i]);
                assert(t0.paths@[i].len() <= d);
                if had_one && j == moved {
                } else {
                    assert(j == next);
                }
            } else {
                assert(had_one && fresh && i == moved && j == next);
            }
        }
        assert forall|i: int| old_len <= i < n1 implies #[trigger] self.paths@[i].len() <= self.paths@[next].len() by {
            if i < n0 {
                assert(t0.paths@[i] == self.paths@[i]);
            } else if had_one && i == moved {
            } else {
                assert(i == next);
            }
        }
    }

    /// Nodes with the same children and depths in the same places give the
    /// same shape.
    proof fn lemma_same_shape(self, other: Self)
        requires
            other.struct_ok(),
            self.nodes@.len() == other.nodes@.len(),
            self.paths@ == other.paths@,
            self.parent@ == other.parent@,
            forall|i: int|
                0 <= i < self.nodes@.len() ==> (#[trigger] self.nodes@[i]).children == other.nodes@[i].children
                    && self.nodes@[i].depth == other.nodes@[i].depth,
        ensures
            self.struct_ok(),
    {
        assert forall|i: int, o: int| 0 <= i < self.nodes@.len() && 0 <= o < 8 implies #[trigger] self.child_ok(i, o) by {
            assert(other.child_ok(i, o));
            assert(self.nodes@[i].children == other.nodes@[i].children);
        }
        assert forall|j: int| 0 < j < self.nodes@.len() implies #[trigger] self.parent_ok(j) by {
            assert(other.parent_ok(j));
            let p = self.parent@[j];
            assert(self.nodes@[p].children == other.nodes@[p].children);
        }
        assert forall|i: int|
            0 <= i < self.nodes@.len() implies {
                &&& #[trigger] self.paths@[i].len() <= 17
                &&& self.nodes@[i].depth == self.paths@[i].len()
                &&& forall|k: int| 0 <= k < self.paths@[i].len() ==> 0 <= #[trigger] self.paths@[i][k] < 8
            } by {
            assert(self.nodes@[i].depth == other.nodes@[i].depth);
        }
    }

    /// The particle has come to rest in node `cur`, which has no children:
    /// every node now describes its cell with the particle added.
    proof fn lemma_finish_descent(
        self,
        t0: Self,
        cur: int,
        s_old: Multiset<int>,
        s_new: Multiset<int>,
        q: u64,
        p: int,
    )
        requires
            t0.struct_ok(),
            t0.parts_ok(),
            t0.parts@ == s_old,
            s_new == s_old.insert(p),
            0 <= p < t0.codes@.len(),
            q == t0.codes@[p],
            0 <= cur < t0.nodes@.len(),
            has_prefix(q, t0.paths@[cur]),
            forall|j: int|
                0 <= j < t0.nodes@.len() ==> #[trigger] t0.descent_ok(
                    j,
                    s_old,
                    s_new,
                    q,
                    t0.paths@[cur].len() as int,
                ),
            forall|o: int| 0 <= o < 8 ==> #[trigger] t0.nodes@[cur].children@[o] == NONE,
            self.nodes@.len() == t0.nodes@.len(),
            forall|j: int| 0 <= j < t0.nodes@.len() && j != cur ==> self.nodes@[j] == t0.nodes@[j],
            self.nodes@[cur].children == t0.nodes@[cur].children,
            self.nodes@[cur].depth == t0.nodes@[cur].depth,
            node_matches(self.nodes@[cur], t0.codes@, s_new, t0.paths@[cur]),
            self.paths@ == t0.paths@,
            self.parent@ == t0.parent@,
            self.codes@ == t0.codes@,
        ensures
            self.struct_ok(),
            forall|j: int|
                0 <= j < self.nodes@.len() ==> #[trigger] node_matches(
                    self.nodes@[j],
                    self.codes@,
                    s_new,
                    self.paths@[j],
                ),
            forall|x: int| #[trigger] s_new.count(x) > 0 ==> 0 <= x < self.codes@.len(),
    {
        self.lemma_same_shape(t0);
        let d = t0.paths@[cur].len() as int;
        assert forall|j: int| 0 <= j < self.nodes@.len() implies #[trigger] node_matches(
            self.nodes@[j],
            self.codes@,
            s_new,
            self.paths@[j],
        ) by {
            if j != cur {
                assert(t0.descent_ok(j, s_old, s_new, q, d));
                let pj = t0.paths@[j];
                if has_prefix(q, pj) && pj.len() >= d {
                    if pj.len() == d {
                        t0.lemma_same_depth_on_path(q, j, cur);
                    } else {
                        let a = t0.lemma_ancestor(j, d);
                        assert forall|k: int| 0 <= k < pj.subrange(0, d).len() implies #[trigger] pj.subrange(0, d)[k] == octant_of(q, k) by {
                            assert(pj.subrange(0, d)[k] == pj[k]);
                        }
                        t0.lemma_same_depth_on_path(q, a, cur);
                        assert(t0.struct_ok());
                        assert(0 <= pj[d] < 8);
                        assert(t0.nodes@[cur].children@[pj[d]] == NONE);
                    }
                } else if !has_prefix(q, pj) {
                    assert(t0.struct_ok());
                    assert(pj.len() <= 17);
                    lemma_matches_other_cell(t0.nodes@[j], t0.codes@, s_old, pj, p);
                }
            }
        }
        assert forall|x: int| #[trigger] s_new.count(x) > 0 implies 0 <= x < self.codes@.len() by {
            if x != p {
                assert(s_old.count(x) > 0);
            }
        }
    }

    /// Replaces the tree by the octree of particles `0..codes.len()`, given
    /// their path codes and Morton keys; they are inserted in the order of
    /// `insertion_order(keys)`.
    fn rebuild(&mut self, codes: &[u64], keys: &[u64])
        requires
            codes@.len() == keys@.len(),
            codes@.len() <= MAX_PARTICLES,
        ensures
            final(self).wf(),
            final(self).source_codes() == codes@,
            final(self).particles() == particle_set(codes@.len()),
            final(self).node_seq().len() <= 1 + 17 * codes@.len(),
            final(self).node_seq()[0].count == codes@.len(),
            is_insertion_order(keys@, final(self).hist@),
    {
        let order = insertion_order(keys);
        proof {
            lemma_insertion_order_meets(keys@, order@);
        }
        self.build(codes, &order);
    }

    /// Replaces the tree by the octree of particles `0..codes.len()`,
    /// inserted in index order.
    fn build_in_index_order(&mut self, codes: &[u64])
        requires
            codes@.len() <= MAX_PARTICLES,
        ensures
            final(self).wf(),
            final(self).source_codes() == codes@,
            final(self).particles() == particle_set(codes@.len()),
            final(self).node_seq().len() <= 1 + 17 * codes@.len(),
            final(self).node_seq()[0].count == codes@.len(),
            final(self).hist@ == Seq::new(codes@.len(), |i: int| i),
    {
        let n = codes.len();
        let mut order: Vec<usize> = Vec::new();
        let mut i: usize = 0;
        while i < n
            invariant
                i <= n,
                order@.len() == i,
                forall|k: int| 0 <= k < i ==> #[trigger] order@[k] == k,
                forall|x: int| #[trigger] occurrences(order@, x) == if 0 <= x < i {
                    1nat
                } else {
                    0nat
                },
            decreases n - i,
        {
            let ghost before = order@;
            order.push(i);
            assert(order@.drop_last() =~= before);
            assert forall|x: int| #[trigger] occurrences(order@, x) == occurrences(before, x) + if x
                == i {
                1nat
            } else {
                0nat
            } by {}
            i = i + 1;
        }
        self.build(codes, &order);
        proof {
            assert(self.hist@ =~= Seq::new(codes@.len(), |i: int| i));
        }
    }

    /// Empties the tree and takes `codes` as the particles' path codes.
    fn reset(&mut self, codes: &[u64])
        requires
            codes@.len() <= MAX_PARTICLES,
        ensures
            final(self).wf(),
            final(self).codes@ == codes@,
            final(self).parts@ == Multiset::<int>::empty(),
            final(self).hist@ == Seq::<int>::empty(),
            final(self).nodes@.len() == 1,
            final(self).nodes@[0].count == 0,
            final(self).nodes@[0].particle == NONE,
            final(self).nodes@[0].depth == 0,
            forall|o: int| 0 <= o < 8 ==> #[trigger] final(self).nodes@[0].children@[o] == NONE,
    {
        self.nodes.clear();
        self.nodes.push(TreeNode::empty(0));
        self.codes = copy_codes(codes);
        proof {
            self.paths@ = seq![Seq::<int>::empty()];
            self.parent@ = seq![0int];
            self.parts@ = Multiset::empty();
            self.hist@ = Seq::empty();
            lemma_empty_history();
            assert(self.child_ok(0, 0));
            assert forall|i: int, o: int| 0 <= i < self.nodes@.len() && 0 <= o < 8 implies #[trigger] self.child_ok(i, o) by {}
            lemma_count_empty_below(codes@, Seq::<int>::empty(), codes@.len() as int);
            assert(node_matches(self.nodes@[0], self.codes@, self.parts@, self.paths@[0]));
            assert(self.nodes@.drop_last() =~= Seq::<TreeNode>::empty());
            assert(credit_sum(Seq::<TreeNode>::empty()) == 0);
            assert(credit_sum(self.nodes@) == 0);
        }
    }

    /// Clears the tree and inserts the particles in the given order, each of
    /// `0..codes.len()` once.
    fn build(&mut self, codes: &[u64], order: &Vec<usize>)
        requires
            codes@.len() <= MAX_PARTICLES,
            order@.len() == codes@.len(),
            forall|x: int| #[trigger] occurrences(order@, x) == if 0 <= x < codes@.len() {
                1nat
            } else {
                0nat
            },
        ensures
            final(self).wf(),
            final(self).source_codes() == codes@,
            final(self).particles() == particle_set(codes@.len()),
            final(self).node_seq().len() <= 1 + 17 * codes@.len(),
            final(self).node_seq()[0].count == codes@.len(),
            final(self).hist@ == order@.map_values(|x: usize| x as int),
    {
        self.reset(codes);
        proof {
            assert forall|i: int| 0 <= i < order@.len() implies #[trigger] order@[i] < codes@.len() by {
                lemma_occurs(order@, i);
            }
        }
        let n = codes.len();
        let mut k: usize = 0;
        proof {
            assert(order@.subrange(0, 0).map_values(|x: usize| x as int) =~= Seq::<int>::empty());
        }
        while k < n
            invariant
                k <= n,
                n == codes@.len(),
                n <= MAX_PARTICLES,
                order@.len() == n,
                forall|i: int| 0 <= i < n ==> #[trigger] order@[i] < n,
                forall|x: int| #[trigger] occurrences(order@, x) == if 0 <= x < n {
                    1nat
                } else {
                    0nat
                },
                self.wf(),
                self.codes@ == codes@,
                self.nodes@.len() <= 1 + 17 * k,
                self.nodes@[0].count == k,
                self.hist@ == order@.subrange(0, k as int).map_values(|x: usize| x as int),
                forall|x: int| #[trigger] self.parts@.count(x) == occurrences(
                    order@.subrange(0, k as int),
                    x,
                ),
            decreases n - k,
        {
            self.insert(order[k]);
            proof {
                lemma_credit_nonneg(self.nodes@);
                assert(order@.subrange(0, k + 1).map_values(|x: usize| x as int) =~= order@.subrange(
                    0,
                    k as int,
                ).map_values(|x: usize| x as int).push(order@[k as int] as int));
                let pre = order@.subrange(0, k + 1);
                assert(pre.drop_last() =~= order@.subrange(0, k as int));
                assert forall|x: int| #[trigger] self.parts@.count(x) == occurrences(pre, x) by {
                    assert(occurrences(pre, x) == occurrences(order@.subrange(0, k as int), x) + if pre.last()
                        == x {
                        1nat
                    } else {
                        0nat
                    });
                }
            }
            k = k + 1;
        }
        proof {
            assert(order@.subrange(0, n as int) =~= order@);
            assert(self.hist@ =~= order@.map_values(|x: usize| x as int));
            assert forall|x: int| #[trigger] self.parts@.count(x) == particle_set(n as nat).count(x) by {
                lemma_particle_set_count(n as nat, x);
            }
            assert(self.parts@ =~= particle_set(n as nat));
        }
    }

    /// Index of the node reached from the root by following the octants of
    /// `prefix`, or -1 when the walk leaves the tree.
    pub closed spec fn locate(self, prefix: Seq<int>) -> int
        decreases prefix.len(),
    {
        if prefix.len() == 0 {
            0
        } else {
            let a = self.locate(prefix.drop_last());
            let o = prefix.last();
            if 0 <= a < self.nodes@.len() && 0 <= o < 8 {
                let c = self.nodes@[a].children@[o] as int;
                if 0 <= c < self.nodes@.len() {
                    c
                } else {
                    -1
                }
            } else {
                -1
            }
        }
    }

    /// (particle count, particle slot) of the node reached by `prefix`, if
    /// any.
    pub closed spec fn summary(self, prefix: Seq<int>) -> Option<(nat, int)> {
        let a = self.locate(prefix);
        if 0 <= a < self.nodes@.len() {
            Some((self.nodes@[a].count as nat, self.nodes@[a].particle as int))
        } else {
            None
        }
    }

    proof fn lemma_locate(self, prefix: Seq<int>)
        requires
            self.struct_ok(),
            self.nodes_match(),
        ensures
            (0 <= self.locate(prefix) < self.nodes@.len()) == cell_exists(
                self.codes@,
                self.parts@,
                prefix,
            ),
            0 <= self.locate(prefix) < self.nodes@.len() ==> self.paths@[self.locate(prefix)]
                == prefix,
            !(0 <= self.locate(prefix) < self.nodes@.len()) ==> self.locate(prefix) == -1,
        decreases prefix.len(),
    {
        if prefix.len() > 0 {
            let up = prefix.drop_last();
            let o = prefix.last();
            self.lemma_locate(up);
            let a = self.locate(up);
            if 0 <= a < self.nodes@.len() && 0 <= o < 8 {
                assert(node_matches(self.nodes@[a], self.codes@, self.parts@, self.paths@[a]));
                assert(self.child_ok(a, o));
                assert(up.push(o) =~= prefix);
            }
        }
    }

    /// Following the path of node `i` from the root reaches node `i`.
    proof fn lemma_locate_node(self, i: int)
        requires
            self.struct_ok(),
            0 <= i < self.nodes@.len(),
        ensures
            self.locate(self.paths@[i]) == i,
        decreases i,
    {
        if i > 0 {
            assert(self.parent_ok(i));
            let p = self.parent@[i];
            self.lemma_locate_node(p);
            let path = self.paths@[i];
            assert(path.len() <= 17);
            assert(0 <= path[path.len() - 1] < 8);
        } else {
            assert(self.paths@[0].len() == 0);
        }
    }

    /// The path of every node names a cell of the octree.
    proof fn lemma_node_exists(self, i: int)
        requires
            self.struct_ok(),
            self.nodes_match(),
            0 <= i < self.nodes@.len(),
        ensures
            cell_exists(self.codes@, self.parts@, self.paths@[i]),
    {
        self.lemma_locate_node(i);
        self.lemma_locate(self.paths@[i]);
    }

    /// An insertion that appends its new cells in creation order keeps the
    /// nodes numbered by rank.
    proof fn lemma_rank_step(self, t0: Self, p: int)
        requires
            t0.wf(),
            self.struct_ok(),
            self.nodes_match(),
            self.codes@ == t0.codes@,
            self.hist@ == t0.hist@.push(p),
            self.parts@ == t0.parts@.insert(p),
            0 <= p < t0.codes@.len(),
            t0.nodes@.len() <= self.nodes@.len(),
            forall|i: int| 0 <= i < t0.nodes@.len() ==> #[trigger] self.paths@[i] == t0.paths@[i],
            created_in_order(self.paths@, t0.nodes@.len() as int, t0.codes@[p]),
        ensures
            self.order_ok(),
    {
        broadcast use vstd::seq_lib::group_to_multiset_ensures;

        let codes = t0.codes@;
        let h0 = t0.hist@;
        let h1 = self.hist@;
        let m = t0.nodes@.len() as int;
        let q = codes[p];
        assert(h1.drop_last() =~= h0);
        assert(self.parts@ =~= h1.to_multiset());
        assert forall|i: int| 0 < i < m implies #[trigger] cell_rank(codes, h1, self.paths@[i])
            == cell_rank(codes, h0, t0.paths@[i]) && birth(codes, h0, t0.paths@[i]) < h0.len() by {
            t0.lemma_node_exists(i);
            lemma_birth_range(codes, h0, t0.paths@[i]);
            if h0.len() == 0 {
                let path = t0.paths@[i];
                assert(t0.parent_ok(i));
                assert(cell_exists(codes, t0.parts@, path));
                assert(t0.parts@ =~= Multiset::<int>::empty()) by {
                    lemma_empty_history();
                    assert(h0 =~= Seq::<int>::empty());
                }
                lemma_count_empty_below(codes, path.drop_last(), codes.len() as int);
            }
        }
        assert forall|i: int| m <= i < self.nodes@.len() implies #[trigger] birth(codes, h1, self.paths@[i])
            == h0.len() by {
            self.lemma_node_exists(i);
            if cell_exists(codes, h0.to_multiset(), self.paths@[i]) {
                t0.lemma_locate(self.paths@[i]);
                let a = t0.locate(self.paths@[i]);
                assert(self.paths@[a] == t0.paths@[a]);
                self.lemma_path_unique(a, i);
            }
        }
        assert forall|i: int, j: int|
            #![trigger self.paths@[i], self.paths@[j]]
            0 < i < j < self.nodes@.len() implies rank_lt(
            cell_rank(codes, h1, self.paths@[i]),
            cell_rank(codes, h1, self.paths@[j]),
        ) by {
            if j < m {
                assert(cell_rank(codes, h1, self.paths@[i]) == cell_rank(codes, h0, t0.paths@[i]));
                assert(cell_rank(codes, h1, self.paths@[j]) == cell_rank(codes, h0, t0.paths@[j]));
                assert(t0.order_ok());
                assert(rank_lt(cell_rank(codes, h0, t0.paths@[i]), cell_rank(codes, h0, t0.paths@[j])));
            } else if i < m {
                assert(cell_rank(codes, h1, self.paths@[i]) == cell_rank(codes, h0, t0.paths@[i]));
                assert(birth(codes, h0, t0.paths@[i]) < h0.len());
                assert(birth(codes, h1, self.paths@[j]) == h0.len());
            } else {
                assert(birth(codes, h1, self.paths@[i]) == h0.len());
                assert(birth(codes, h1, self.paths@[j]) == h0.len());
                assert(h1[h0.len() as int] == p);
                let n = self.nodes@.len() as int;
                assert(self.paths@[i].len() < self.paths@[j].len() || (i == n - 2 && j == n - 1
                    && self.paths@[i].len() == self.paths@[j].len() && !has_prefix(q, self.paths@[i])));
                if j != n - 2 {
                    assert(has_prefix(q, self.paths@[j]));
                }

            }
        }
    }

    proof fn lemma_canonical(self, prefix: Seq<int>)
        requires
            self.wf(),
        ensures
            self.summary(prefix) == canonical_cell(self.codes@, self.parts@, prefix),
    {
        self.lemma_locate(prefix);
        let a = self.locate(prefix);
        if 0 <= a < self.nodes@.len() {
            assert(node_matches(self.nodes@[a], self.codes@, self.parts@, self.paths@[a]));
        }
    }

    /// The walk along `code` from the root: the nodes of its first
    /// `chain.len()` levels, ending where the next octant has no node (or at
    /// the minimum cell size).
    fn descend(&self, code: u64) -> (chain: Vec<usize>)
        requires
            self.nodes@.len() >= 1,
        ensures
            1 <= chain@.len() <= 18,
            forall|k: int| 0 <= k < chain@.len() ==> #[trigger] chain@[k] == self.locate(path_prefix(code, k)),
            chain@.len() < 18 ==> self.locate(path_prefix(code, chain@.len() as int)) == -1,
    {
        let mut chain: Vec<usize> = Vec::new();
        chain.push(0);
        let mut cur: usize = 0;
        let mut k: usize = 0;
        proof {
            assert(path_prefix(code, 0).len() == 0);
        }
        while k < MAX_DEPTH
            invariant
                k <= 17,
                chain@.len() == k + 1,
                self.nodes@.len() >= 1,
                cur == chain@[k as int],
                cur < self.nodes@.len(),
                forall|i: int| 0 <= i <= k ==> #[trigger] chain@[i] == self.locate(path_prefix(code, i)),
            decreases 17 - k,
        {
            let oct = octant_at(code, k);
            let c = self.nodes[cur].children[oct];
            proof {
                assert(path_prefix(code, k + 1).drop_last() =~= path_prefix(code, k as int));
                assert(path_prefix(code, k + 1).last() == oct);
            }
            if c < 0 || c as usize >= self.nodes.len() {
                return chain;
            }
            cur = c as usize;
            chain.push(cur);
            k = k + 1;
        }
        chain
    }

    /// Number of child slots of node `i` that point to a node holding a
    /// particle; the octree's finalisation derives the cell's mass correction
    /// from it.
    fn occupied_children(&self, i: usize) -> (n: u32)
        requires
            i < self.node_seq().len(),
        ensures
            n == occupied_upto(self.node_seq(), self.node_seq()[i as int], 8),
    {
        let nd = self.nodes[i];
        let mut n: u32 = 0;
        let mut o: usize = 0;
        while o < 8
            invariant
                o <= 8,
                nd == self.nodes@[i as int],
                n == occupied_upto(self.nodes@, nd, o as int),
                n <= o,
            decreases 8 - o,
        {
            let c = nd.children[o];
            if c >= 0 && (c as usize) < self.nodes.len() && self.nodes[c as usize].count > 0 {
                n = n + 1;
            }
            o = o + 1;
        }
        n
    }

    /// Number of nodes.
    fn len(&self) -> (n: usize)
        ensures
            n == self.node_seq().len(),
    {
        self.nodes.len()
    }

    /// Node `i`.
    fn node(&self, i: usize) -> (nd: TreeNode)
        requires
            i < self.node_seq().len(),
        ensures
            nd == self.node_seq()[i as int],
    {
        self.nodes[i]
    }
}



/// Octree stored as one vector of nodes; node 0 is the root cell, of
/// half-width 1e5 around the origin. It is always the octree of the
/// particles inserted since the last rebuild.
pub struct LinearTree {
    core: TreeCore,
}

impl LinearTree {
    /// The nodes are the octree of `particles()` over `source_codes()`.
    #[verifier::type_invariant]
    pub closed spec fn wf(self) -> bool {
        self.core.wf()
    }

    /// Path codes of the particles, indexed by particle.
    pub closed spec fn source_codes(self) -> Seq<u64> {
        self.core.codes@
    }

    /// Particles inserted since the last rebuild, with multiplicity.
    pub closed spec fn particles(self) -> Multiset<int> {
        self.core.parts@
    }

    /// The node vector.
    pub closed spec fn node_seq(self) -> Seq<TreeNode> {
        self.core.nodes@
    }

    /// Particles inserted since the last reset or rebuild, in insertion
    /// order.
    pub closed spec fn history(self) -> Seq<int> {
        self.core.hist@
    }

    /// Path of each node: the octants followed from the root to reach it.
    pub closed spec fn node_paths(self) -> Seq<Seq<int>> {
        self.core.paths@
    }

    /// Path of node `i`.
    pub open spec fn node_path(self, i: int) -> Seq<int> {
        self.node_paths()[i]
    }

    /// Index of the node reached from the root by following the octants of
    /// `prefix` through the child slots, or -1 when the walk leaves the tree.
    pub open spec fn locate(self, prefix: Seq<int>) -> int
        decreases prefix.len(),
    {
        if prefix.len() == 0 {
            0
        } else {
            let a = self.locate(prefix.drop_last());
            let o = prefix.last();
            let nodes = self.node_seq();
            if 0 <= a < nodes.len() && 0 <= o < 8 {
                let c = nodes[a].children@[o] as int;
                if 0 <= c < nodes.len() {
                    c
                } else {
                    -1
                }
            } else {
                -1
            }
        }
    }

    /// (particle count, particle slot) of the node reached by `prefix`, if
    /// any.
    pub open spec fn summary(self, prefix: Seq<int>) -> Option<(nat, int)> {
        let a = self.locate(prefix);
        if 0 <= a < self.node_seq().len() {
            Some((self.node_seq()[a].count as nat, self.node_seq()[a].particle as int))
        } else {
            None
        }
    }

    /// The walk of `locate` agrees with the one of the tree's core.
    proof fn lemma_locate_agrees(self, prefix: Seq<int>)
        ensures
            self.locate(prefix) == self.core.locate(prefix),
            self.summary(prefix) == self.core.summary(prefix),
        decreases prefix.len(),
    {
        if prefix.len() > 0 {
            self.lemma_locate_agrees(prefix.drop_last());
        }
    }

    /// An octree holding no particle: the root cell alone, empty.
    pub fn new() -> (t: LinearTree)
        ensures
            t.source_codes() == Seq::<u64>::empty(),
            t.particles() == Multiset::<int>::empty(),
            t.node_seq().len() == 1,
            t.node_seq()[0].count == 0,
            t.node_seq()[0].particle == NONE,
            t.node_seq()[0].depth == 0,
            forall|o: int| 0 <= o < 8 ==> #[trigger] t.node_seq()[0].children@[o] == NONE,
            t.history() == Seq::<int>::empty(),
    {
        LinearTree { core: TreeCore::new() }
    }

    /// Replaces the tree by the octree of particles `0..codes.len()`, given
    /// their path codes and Morton keys; they are inserted in the order of
    /// `insertion_order(keys)`.
    pub fn rebuild(&mut self, codes: &[u64], keys: &[u64])
        requires
            codes@.len() == keys@.len(),
            codes@.len() <= MAX_PARTICLES,
        ensures
            final(self).source_codes() == codes@,
            final(self).particles() == particle_set(codes@.len()),
            final(self).node_seq().len() <= 1 + 17 * codes@.len(),
            final(self).node_seq()[0].count == codes@.len(),
            is_insertion_order(keys@, final(self).history()),
    {
        let mut core = TreeCore::new();
        core.rebuild(codes, keys);
        self.core = core;
    }

    /// Replaces the tree by the octree of particles `0..codes.len()`,
    /// inserted in index order.
    pub fn build_in_index_order(&mut self, codes: &[u64])
        requires
            codes@.len() <= MAX_PARTICLES,
        ensures
            final(self).source_codes() == codes@,
            final(self).particles() == particle_set(codes@.len()),
            final(self).node_seq().len() <= 1 + 17 * codes@.len(),
            final(self).node_seq()[0].count == codes@.len(),
            final(self).history() == Seq::new(codes@.len(), |i: int| i),
    {
        let mut core = TreeCore::new();
        core.build_in_index_order(codes);
        self.core = core;
    }

    /// Empties the tree (root cell only) and takes `codes` as the path codes
    /// of the particles to insert.
    pub fn reset(&mut self, codes: &[u64])
        requires
            codes@.len() <= MAX_PARTICLES,
        ensures
            final(self).source_codes() == codes@,
            final(self).particles() == Multiset::<int>::empty(),
            final(self).node_seq().len() == 1,
            final(self).node_seq()[0].count == 0,
            final(self).node_seq()[0].particle == NONE,
            final(self).node_seq()[0].depth == 0,
            forall|o: int| 0 <= o < 8 ==> #[trigger] final(self).node_seq()[0].children@[o] == NONE,
            final(self).history() == Seq::<int>::empty(),
    {
        let mut core = TreeCore::new();
        core.reset(codes);
        self.core = core;
    }

    /// Inserts `particle` from the root down: each cell on its path counts it,
    /// a cell holding one particle is split and that particle moved one level
    /// down, and the particle comes to rest in an empty cell or in a
    /// minimum-size cell.
    pub fn insert(&mut self, particle: usize)
        requires
            particle < old(self).source_codes().len(),
            old(self).node_seq().len() + 18 <= i32::MAX,
            old(self).node_seq()[0].count < u32::MAX,
        ensures
            final(self).source_codes() == old(self).source_codes(),
            final(self).particles() == old(self).particles().insert(particle as int),
            final(self).node_seq().len() <= old(self).node_seq().len() + 18,
            final(self).node_seq()[0].count == old(self).node_seq()[0].count + 1,
            forall|i: int| 0 <= i < old(self).node_seq().len() ==> #[trigger] final(self).node_path(i)
                == old(self).node_path(i),
            created_in_order(
                final(self).node_paths(),
                old(self).node_seq().len() as int,
                old(self).source_codes()[particle as int],
            ),
            final(self).history() == old(self).history().push(particle as int),
    {
        proof {
            use_type_invariant(&*self);
        }
        let mut core = TreeCore::new();
        std::mem::swap(&mut self.core, &mut core);
        core.insert(particle);
        self.core = core;
    }

    /// Number of particles the path codes describe.
    pub fn code_count(&self) -> (n: usize)
        ensures
            n == self.source_codes().len(),
    {
        self.core.codes.len()
    }

    /// Number of nodes.
    pub fn len(&self) -> (n: usize)
        ensures
            n == self.node_seq().len(),
            n >= 1,
    {
        proof {
            use_type_invariant(self);
        }
        self.core.len()
    }

    /// Node `i`.
    pub fn node(&self, i: usize) -> (nd: TreeNode)
        requires
            i < self.node_seq().len(),
        ensures
            nd == self.node_seq()[i as int],
    {
        self.core.node(i)
    }

    /// The walk along `code` from the root: the nodes of its first
    /// `chain.len()` levels, ending where the next octant has no node (or at
    /// the minimum cell size).
    pub fn descend(&self, code: u64) -> (chain: Vec<usize>)
        ensures
            1 <= chain@.len() <= 18,
            forall|k: int| 0 <= k < chain@.len() ==> #[trigger] chain@[k] == self.locate(path_prefix(code, k)),
            chain@.len() < 18 ==> self.locate(path_prefix(code, chain@.len() as int)) == -1,
    {
        proof {
            use_type_invariant(self);
        }
        let chain = self.core.descend(code);
        proof {
            assert forall|k: int| 0 <= k <= chain@.len() implies #[trigger] self.locate(path_prefix(code, k))
                == self.core.locate(path_prefix(code, k)) by {
                self.lemma_locate_agrees(path_prefix(code, k));
            }
        }
        chain
    }

    /// Number of child slots of node `i` that point to a node holding a
    /// particle; the octree's finalisation derives the cell's mass correction
    /// from it.
    pub fn occupied_children(&self, i: usize) -> (n: u32)
        requires
            i < self.node_seq().len(),
        ensures
            n == occupied_upto(self.node_seq(), self.node_seq()[i as int], 8),
    {
        self.core.occupied_children(i)
    }
}

/// The tree's nodes are exactly the cells of the octree of its particles:
/// following any path from the root reaches a node precisely when the cell
/// exists, with the cell's particle count and particle slot, and that node's
/// path is the path followed.
pub proof fn lemma_tree_is_canonical(t: LinearTree, prefix: Seq<int>)
    requires
        t.wf(),
    ensures
        t.summary(prefix) == canonical_cell(t.source_codes(), t.particles(), prefix),
        (0 <= t.locate(prefix) < t.node_seq().len()) == cell_exists(
            t.source_codes(),
            t.particles(),
            prefix,
        ),
        0 <= t.locate(prefix) < t.node_seq().len() ==> t.node_path(t.locate(prefix)) == prefix,
{
    t.lemma_locate_agrees(prefix);
    t.core.lemma_canonical(prefix);
    t.core.lemma_locate(prefix);
}

/// One step of `locate`: from the node reached by `prefix`, octant `o`
/// leads through child slot `o`; the empty path reaches the root.
pub proof fn lemma_locate_step(t: LinearTree, prefix: Seq<int>, o: int)
    ensures
        t.locate(Seq::<int>::empty()) == 0,
        t.locate(prefix.push(o)) == ({
            let a = t.locate(prefix);
            let nodes = t.node_seq();
            if 0 <= a < nodes.len() && 0 <= o < 8 && 0 <= nodes[a].children@[o] < nodes.len() {
                nodes[a].children@[o] as int
            } else {
                -1
            }
        }),
{
    assert(prefix.push(o).drop_last() =~= prefix);
    assert(prefix.push(o).last() == o);
}

/// Node `i` is the node of the cell named by its path: following that path
/// from the root reaches it, its depth is the path's length, it describes
/// that cell for the tree's particles, and each of its children extends the
/// path by the child's octant.
pub proof fn lemma_node_cell(t: LinearTree, i: int)
    requires
        t.wf(),
        0 <= i < t.node_seq().len(),
    ensures
        t.node_paths().len() == t.node_seq().len(),
        t.node_path(i).len() == t.node_seq()[i].depth,
        forall|k: int| 0 <= k < t.node_path(i).len() ==> 0 <= #[trigger] t.node_path(i)[k] < 8,
        t.locate(t.node_path(i)) == i,
        node_matches(t.node_seq()[i], t.source_codes(), t.particles(), t.node_path(i)),
        cell_exists(t.source_codes(), t.particles(), t.node_path(i)),
        forall|o: int|
            0 <= o < 8 && #[trigger] t.node_seq()[i].children@[o] >= 0 ==> t.node_path(
                t.node_seq()[i].children@[o] as int,
            ) == t.node_path(i).push(o),
    decreases i,
{
    let c = t.core;
    assert(c.paths@[i].len() <= 17);
    assert(node_matches(c.nodes@[i], c.codes@, c.parts@, c.paths@[i]));
    assert forall|o: int|
        0 <= o < 8 && #[trigger] t.node_seq()[i].children@[o] >= 0 implies t.node_path(
        t.node_seq()[i].children@[o] as int,
    ) == t.node_path(i).push(o) by {
        assert(c.child_ok(i, o));
    }
    if i > 0 {
        assert(c.parent_ok(i));
        let p = c.parent@[i];
        lemma_node_cell(t, p);
        let path = c.paths@[i];
        assert(path.drop_last().push(path.last()) =~= path);
        lemma_locate_step(t, path.drop_last(), path.last());
    }
    c.lemma_locate(c.paths@[i]);
    t.lemma_locate_agrees(c.paths@[i]);
}

/// Every node other than the root fills exactly one child slot of the tree,
/// in a node stored before it; the root fills none. A walk that pushes the
/// children of each node it opens thus meets every node at most once.
pub proof fn lemma_unique_slot(t: LinearTree, j: int) -> (slot: (int, int))
    requires
        t.wf(),
        0 <= j < t.node_seq().len(),
    ensures
        j == 0 ==> forall|i: int, o: int|
            0 <= i < t.node_seq().len() && 0 <= o < 8 ==> #[trigger] t.node_seq()[i].children@[o] != 0,
        j > 0 ==> 0 <= slot.0 < j && 0 <= slot.1 < 8 && t.node_seq()[slot.0].children@[slot.1] == j,
        j > 0 ==> forall|i: int, o: int|
            0 <= i < t.node_seq().len() && 0 <= o < 8 && #[trigger] t.node_seq()[i].children@[o] == j
                ==> i == slot.0 && o == slot.1,
{
    let c = t.core;
    if j == 0 {
        assert forall|i: int, o: int|
            0 <= i < t.node_seq().len() && 0 <= o < 8 implies #[trigger] t.node_seq()[i].children@[o]
            != 0 by {
            assert(c.child_ok(i, o));
        }
        (0, 0)
    } else {
        assert(c.parent_ok(j));
        let p = c.parent@[j];
        let path = c.paths@[j];
        assert(path.len() <= 17);
        assert(0 <= path[path.len() - 1] < 8);
        assert forall|i: int, o: int|
            0 <= i < t.node_seq().len() && 0 <= o < 8 && #[trigger] t.node_seq()[i].children@[o] == j
                implies i == p && o == path.last() by {
            assert(c.child_ok(i, o));
            assert(path.drop_last() =~= c.paths@[i]);
            assert(c.paths@[i].push(o).last() == o);
            c.lemma_path_unique(i, p);
        }
        (p, path.last())
    }
}

/// The octree depends only on the particles, not on the order in which they
/// were inserted: two trees of the same particles have the same nodes along
/// every path.
pub proof fn lemma_order_independent(t1: LinearTree, t2: LinearTree, prefix: Seq<int>)
    requires
        t1.wf(),
        t2.wf(),
        t1.source_codes() == t2.source_codes(),
        t1.particles() == t2.particles(),
    ensures
        t1.summary(prefix) == t2.summary(prefix),
{
    lemma_tree_is_canonical(t1, prefix);
    lemma_tree_is_canonical(t2, prefix);
}

/// A particle of the tree is found again at the end of the walk along its
/// path: in a minimum-size cell, which merges its particles, or in a cell
/// that holds it alone.
pub proof fn lemma_particle_found(t: LinearTree, p: int, k: int)
    requires
        t.wf(),
        t.particles().count(p) > 0,
        0 <= k <= 17,
        0 <= t.locate(path_prefix(t.source_codes()[p], k)) < t.node_seq().len(),
        k == 17 || t.locate(path_prefix(t.source_codes()[p], k + 1)) == -1,
    ensures
        ({
            let nd = t.node_seq()[t.locate(path_prefix(t.source_codes()[p], k))];
            &&& nd.count >= 1
            &&& k == 17 ==> nd.particle == MERGED
            &&& k < 17 ==> nd.count == 1 && nd.particle == p
        }),
{
    t.lemma_locate_agrees(path_prefix(t.source_codes()[p], k));
    t.lemma_locate_agrees(path_prefix(t.source_codes()[p], k + 1));
    let t = t.core;
    let codes = t.codes@;
    let parts = t.parts@;
    assert(0 <= p < codes.len());
    let q = codes[p];
    let pk = path_prefix(q, k);
    t.lemma_canonical(pk);
    t.lemma_locate(pk);
    assert(in_cell(codes, parts, pk, p));
    lemma_count_positive_below(codes, parts, pk, codes.len() as int);
    if k < 17 {
        let pk1 = path_prefix(q, k + 1);
        t.lemma_locate(pk1);
        assert(pk1.drop_last() =~= pk);
        assert(in_cell(codes, parts, pk1, p));
        lemma_count_positive_below(codes, parts, pk1, codes.len() as int);
        lemma_octant_range(q, k);
        assert(cell_count(codes, parts, pk) < 2);
        lemma_cell_member(codes, parts, pk);
    }
}

/// Particle count of child slot `o` of `nd`: the child's count, or 0 when
/// the slot is empty.
pub open spec fn child_count(nodes: Seq<TreeNode>, nd: TreeNode, o: int) -> int {
    let c = nd.children@[o] as int;
    if 0 <= c < nodes.len() {
        nodes[c].count as int
    } else {
        0
    }
}

/// Mass conservation: a split node holds exactly the particles of its
/// children, and a node that is not split has no children.
pub proof fn lemma_node_conservation(t: LinearTree, i: int)
    requires
        t.wf(),
        0 <= i < t.node_seq().len(),
    ensures
        ({
            let nodes = t.node_seq();
            let nd = nodes[i];
            &&& nd.depth < 17 && nd.count >= 2 ==> nd.count == child_count(nodes, nd, 0) + child_count(
                nodes,
                nd,
                1,
            ) + child_count(nodes, nd, 2) + child_count(nodes, nd, 3) + child_count(nodes, nd, 4)
                + child_count(nodes, nd, 5) + child_count(nodes, nd, 6) + child_count(nodes, nd, 7)
            &&& !(nd.depth < 17 && nd.count >= 2) ==> forall|o: int| 0 <= o < 8 ==> #[trigger] nd.children@[o] == NONE
        }),
{
    let t = t.core;
    let nodes = t.nodes@;
    let nd = nodes[i];
    let path = t.paths@[i];
    assert(node_matches(nd, t.codes@, t.parts@, path));
    assert(t.paths@[i].len() <= 17);
    if nd.depth < 17 && nd.count >= 2 {
        assert forall|o: int| 0 <= o < 8 implies child_count(nodes, nd, o) == cell_count(
            t.codes@,
            t.parts@,
            path.push(o),
        ) by {
            assert(t.child_ok(i, o));
            let c = nd.children@[o] as int;
            if c >= 0 {
                assert(node_matches(nodes[c], t.codes@, t.parts@, t.paths@[c]));
            }
        }
        lemma_cell_conservation(t.codes@, t.parts@, path);
        assert(child_count(nodes, nd, 0) == cell_count(t.codes@, t.parts@, path.push(0)));
        assert(child_count(nodes, nd, 1) == cell_count(t.codes@, t.parts@, path.push(1)));
        assert(child_count(nodes, nd, 2) == cell_count(t.codes@, t.parts@, path.push(2)));
        assert(child_count(nodes, nd, 3) == cell_count(t.codes@, t.parts@, path.push(3)));
        assert(child_count(nodes, nd, 4) == cell_count(t.codes@, t.parts@, path.push(4)));
        assert(child_count(nodes, nd, 5) == cell_count(t.codes@, t.parts@, path.push(5)));
        assert(child_count(nodes, nd, 6) == cell_count(t.codes@, t.parts@, path.push(6)));
        assert(child_count(nodes, nd, 7) == cell_count(t.codes@, t.parts@, path.push(7)));
    }
}

/// The root exists and lies at depth 0.
pub proof fn lemma_root(t: LinearTree)
    requires
        t.wf(),
    ensures
        t.node_seq().len() >= 1,
        t.node_seq()[0].depth == 0,
{
    let t = t.core;
    assert(t.paths@[0].len() == 0);
}

/// A tree is determined by its particles and the order of its cells: two
/// trees with the same path codes, the same particles and the same path for
/// each node have the same node vector.
pub proof fn lemma_nodes_determined(t1: LinearTree, t2: LinearTree)
    requires
        t1.wf(),
        t2.wf(),
        t1.source_codes() == t2.source_codes(),
        t1.particles() == t2.particles(),
        t1.node_paths() == t2.node_paths(),
    ensures
        t1.node_seq() == t2.node_seq(),
{
    let c1 = t1.core;
    let c2 = t2.core;
    assert forall|i: int| 0 <= i < c1.nodes@.len() implies #[trigger] c1.nodes@[i] == c2.nodes@[i] by {
        let n1 = c1.nodes@[i];
        let n2 = c2.nodes@[i];
        assert(node_matches(n1, c1.codes@, c1.parts@, c1.paths@[i]));
        assert(node_matches(n2, c2.codes@, c2.parts@, c2.paths@[i]));
        assert forall|o: int| 0 <= o < 8 implies n1.children@[o] == n2.children@[o] by {
            assert(c1.child_ok(i, o));
            assert(c2.child_ok(i, o));
            let a = n1.children@[o] as int;
            let b = n2.children@[o] as int;
            if a >= 0 && b >= 0 {
                assert(c2.paths@[a] == c2.paths@[b]);
                c2.lemma_path_unique(a, b);
            }
        }
        assert(n1.children@ =~= n2.children@);
        assert(n1.children =~= n2.children);
    }
    assert(c1.nodes@ =~= c2.nodes@);
}

/// The nodes are numbered in creation order: each node below the root comes
/// after every node whose cell was created by an earlier insertion, and the
/// cells one insertion creates come by depth, the displaced particle's cell
/// before the arriving particle's cell of the same depth.
pub proof fn lemma_creation_order(t: LinearTree, i: int, j: int)
    requires
        t.wf(),
        0 < i < j < t.node_seq().len(),
    ensures
        rank_lt(
            cell_rank(t.source_codes(), t.history(), t.node_path(i)),
            cell_rank(t.source_codes(), t.history(), t.node_path(j)),
        ),
        t.particles() == t.history().to_multiset(),
{
    let c = t.core;
    assert(c.paths@[i] == t.node_path(i) && c.paths@[j] == t.node_path(j));
}

/// Rebuilding is repeatable: two trees with the same path codes and the same
/// insertion history have the same cells in the same places and the same
/// node vector, whatever they held before. With
/// `lemma_insertion_order_unique`, two rebuilds from the same codes and keys
/// give equal trees.
pub proof fn lemma_history_determines(t1: LinearTree, t2: LinearTree)
    requires
        t1.wf(),
        t2.wf(),
        t1.source_codes() == t2.source_codes(),
        t1.history() == t2.history(),
    ensures
        t1.particles() == t2.particles(),
        t1.node_paths() == t2.node_paths(),
        t1.node_seq() == t2.node_seq(),
{
    let c1 = t1.core;
    let c2 = t2.core;
    let codes = c1.codes@;
    let hist = c1.hist@;
    assert(c1.parts@ == c2.parts@);
    let p1 = c1.paths@;
    let p2 = c2.paths@;
    let s1 = p1.subrange(1, p1.len() as int);
    let s2 = p2.subrange(1, p2.len() as int);
    let rank = |path: Seq<int>| cell_rank(codes, hist, path);
    assert forall|a: int, b: int| 0 <= a < b < s1.len() implies rank_lt(rank(s1[a]), rank(s1[b])) by {
        assert(s1[a] == p1[a + 1] && s1[b] == p1[b + 1]);
    }
    assert forall|a: int, b: int| 0 <= a < b < s2.len() implies rank_lt(rank(s2[a]), rank(s2[b])) by {
        assert(s2[a] == p2[a + 1] && s2[b] == p2[b + 1]);
    }
    assert forall|a: int| 0 <= a < s1.len() implies s2.contains(#[trigger] s1[a]) by {
        let path = p1[a + 1];
        c1.lemma_node_exists(a + 1);
        assert(c1.parent_ok(a + 1));
        c2.lemma_locate(path);
        let k = c2.locate(path);
        assert(p2[0].len() == 0);
        assert(k != 0);
        assert(s2[k - 1] == path);
    }
    assert forall|a: int| 0 <= a < s2.len() implies s1.contains(#[trigger] s2[a]) by {
        let path = p2[a + 1];
        c2.lemma_node_exists(a + 1);
        assert(c2.parent_ok(a + 1));
        c1.lemma_locate(path);
        let k = c1.locate(path);
        assert(p1[0].len() == 0);
        assert(k != 0);
        assert(s1[k - 1] == path);
    }
    lemma_sorted_unique(s1, s2, rank);
    assert(p1 =~= p2) by {
        assert(p1.len() == s1.len() + 1);
        assert(p2.len() == s2.len() + 1);
        assert forall|i: int| 0 <= i < p1.len() implies p1[i] == p2[i] by {
            if i > 0 {
                assert(s1[i - 1] == p1[i]);
                assert(s2[i - 1] == p2[i]);
            }
        }
    }
    lemma_nodes_determined(t1, t2);
}

/// Node count bound: a tree whose root holds `n` particles has at most
/// `1 + 17 * n` nodes, since every node below the root is an occupied cell on
/// one of the 17 levels of some particle's path.
pub proof fn lemma_node_bound(t: LinearTree)
    requires
        t.wf(),
    ensures
        t.node_seq().len() <= 1 + 17 * t.node_seq()[0].count,
{
    lemma_credit_nonneg(t.core.nodes@);
}

/// Shape invariants: depths stay within the minimum cell size, and every
/// child is stored after its parent, one level down, and holds a particle.
pub proof fn lemma_tree_shape(t: LinearTree, i: int, o: int)
    requires
        t.wf(),
        0 <= i < t.node_seq().len(),
        0 <= o < 8,
    ensures
        t.node_seq()[i].depth <= 17,
        t.node_seq()[i].children@[o] == NONE || (i < t.node_seq()[i].children@[o] < t.node_seq().len()
            && t.node_seq()[t.node_seq()[i].children@[o] as int].depth == t.node_seq()[i].depth + 1
            && t.node_seq()[t.node_seq()[i].children@[o] as int].count >= 1),
{
    let t = t.core;
    assert(t.child_ok(i, o));
    assert(t.paths@[i].len() <= 17);
    let c = t.nodes@[i].children@[o] as int;
    if c != NONE {
        assert(t.paths@[c].len() == t.paths@[i].len() + 1);
        assert(node_matches(t.nodes@[i], t.codes@, t.parts@, t.paths@[i]));
        assert(node_matches(t.nodes@[c], t.codes@, t.parts@, t.paths@[c]));
    }
}


proof fn lemma_occupied_prefix(t: LinearTree, i: int, k: int)
    requires
        t.wf(),
        0 <= i < t.node_seq().len(),
        0 <= k <= 8,
    ensures
        occupied_upto(t.node_seq(), t.node_seq()[i], k) == t.node_seq()[i].children@.subrange(0, k).filter(
            |c: i32| c >= 0,
        ).len(),
    decreases k,
{
    reveal(Seq::filter);
    let nd = t.node_seq()[i];
    if k > 0 {
        lemma_occupied_prefix(t, i, k - 1);
        lemma_tree_shape(t, i, k - 1);
        assert(nd.children@.subrange(0, k).drop_last() =~= nd.children@.subrange(0, k - 1));
    } else {
        assert(nd.children@.subrange(0, 0) =~= Seq::<i32>::empty());
    }
}

/// Occupied octants of a cell: `occupied_children(i)` counts exactly the
/// child slots of node `i` that name a node, that is the octants of the cell
/// that hold at least one particle, whatever those particles' number.
pub proof fn lemma_occupied_children_count(t: LinearTree, i: int)
    requires
        t.wf(),
        0 <= i < t.node_seq().len(),
    ensures
        occupied_upto(t.node_seq(), t.node_seq()[i], 8) == t.node_seq()[i].children@.filter(|c: i32| c >= 0).len(),
        forall|o: int|
            0 <= o < 8 ==> (#[trigger] t.node_seq()[i].children@[o] >= 0 <==> (t.node_seq()[i].depth < 17
                && t.node_seq()[i].count >= 2 && cell_count(
                t.source_codes(),
                t.particles(),
                t.node_path(i).push(o),
            ) >= 1)),
{
    lemma_occupied_prefix(t, i, 8);
    assert(t.node_seq()[i].children@.subrange(0, 8) =~= t.node_seq()[i].children@);
    lemma_node_cell(t, i);
}

} // verus!
