//! Compressed adjacency (CSR) of the undirected link list.
use vstd::prelude::*;

verus! {

/// Number of complete `(source, target)` pairs in a flat link list.
pub open spec fn pair_count(links: Seq<u32>) -> int {
    (links.len() / 2) as int
}

/// Pair `k` joins two nodes that exist (both endpoints below `n`).
pub open spec fn pair_valid(links: Seq<u32>, n: nat, k: int) -> bool {
    links[2 * k] < n && links[2 * k + 1] < n
}

/// Neighbours of node `i` contributed by the first `k` pairs, in link order: a
/// valid pair `(s, t)` adds `t` to the list of `s` and then `s` to the list of
/// `t` (a loop `(i, i)` adds `i` twice).
pub open spec fn neighbors_upto(links: Seq<u32>, n: nat, i: int, k: int) -> Seq<u32>
    decreases k,
{
    if k <= 0 {
        Seq::empty()
    } else {
        let prev = neighbors_upto(links, n, i, k - 1);
        let s = links[2 * (k - 1)];
        let t = links[2 * (k - 1) + 1];
        let valid = pair_valid(links, n, k - 1);
        let a = if valid && s == i {
            prev.push(t)
        } else {
            prev
        };
        if valid && t == i {
            a.push(s)
        } else {
            a
        }
    }
}

/// Full neighbour list of node `i`.
pub open spec fn neighbor_list(links: Seq<u32>, n: nat, i: int) -> Seq<u32> {
    neighbors_upto(links, n, i, pair_count(links))
}

/// Sum of the neighbour-list lengths of nodes `0..upto` after `k` pairs.
pub open spec fn degree_sum_upto(links: Seq<u32>, n: nat, upto: int, k: int) -> int
    decreases upto,
{
    if upto <= 0 {
        0
    } else {
        degree_sum_upto(links, n, upto - 1, k) + neighbors_upto(links, n, upto - 1, k).len()
    }
}

/// Start of node `i`'s slice in the adjacency array: the degrees of the
/// nodes before it, summed.
pub open spec fn offset_of(links: Seq<u32>, n: nat, i: int) -> int {
    degree_sum_upto(links, n, i, pair_count(links))
}

/// Number of valid pairs among the first `k`.
pub open spec fn valid_pairs_upto(links: Seq<u32>, n: nat, k: int) -> int
    decreases k,
{
    if k <= 0 {
        0
    } else {
        valid_pairs_upto(links, n, k - 1) + if pair_valid(links, n, k - 1) {
            1int
        } else {
            0int
        }
    }
}

/// Node `i`'s slice of `adj` holds its neighbour list.
pub open spec fn segment_holds(adj: Seq<u32>, offsets: Seq<u32>, links: Seq<u32>, n: nat, i: int) -> bool {
    adj.subrange(offsets[i] as int, offsets[i + 1] as int) == neighbor_list(links, n, i)
}

/// `adj`, `offsets` and `deg` are the compressed adjacency of the valid pairs
/// of `links` over nodes `0..n`.
pub open spec fn csr_of(adj: Seq<u32>, offsets: Seq<u32>, deg: Seq<u32>, links: Seq<u32>, n: nat) -> bool {
    &&& deg.len() == n
    &&& offsets.len() == n + 1
    &&& forall|i: int| 0 <= i < n ==> #[trigger] deg[i] == neighbor_list(links, n, i).len()
    &&& forall|i: int| 0 <= i <= n ==> #[trigger] offsets[i] == offset_of(links, n, i)
    &&& adj.len() == offset_of(links, n, n as int)
    &&& forall|i: int| 0 <= i < n ==> #[trigger] segment_holds(adj, offsets, links, n, i)
}

proof fn lemma_neighbors_len(links: Seq<u32>, n: nat, i: int, k: int)
    requires
        0 <= k,
    ensures
        neighbors_upto(links, n, i, k).len() <= 2 * k,
    decreases k,
{
    if k > 0 {
        lemma_neighbors_len(links, n, i, k - 1);
    }
}

proof fn lemma_neighbors_prefix(links: Seq<u32>, n: nat, i: int, k: int, m: int)
    requires
        0 <= k <= m,
    ensures
        neighbors_upto(links, n, i, k).len() <= neighbors_upto(links, n, i, m).len(),
        neighbors_upto(links, n, i, k) == neighbors_upto(links, n, i, m).subrange(
            0,
            neighbors_upto(links, n, i, k).len() as int,
        ),
    decreases m - k,
{
    if k < m {
        lemma_neighbors_prefix(links, n, i, k, m - 1);
        let a = neighbors_upto(links, n, i, k);
        let b = neighbors_upto(links, n, i, m - 1);
        let c = neighbors_upto(links, n, i, m);
        assert(c.subrange(0, b.len() as int) =~= b);
        assert(c.subrange(0, a.len() as int) =~= b.subrange(0, a.len() as int));
    } else {
        let a = neighbors_upto(links, n, i, k);
        assert(a.subrange(0, a.len() as int) =~= a);
    }
}

proof fn lemma_degree_sum_step(links: Seq<u32>, n: nat, upto: int, k: int)
    requires
        0 <= k,
        0 <= upto,
    ensures
        degree_sum_upto(links, n, upto, k + 1) == degree_sum_upto(links, n, upto, k) + if pair_valid(
            links,
            n,
            k,
        ) {
            (if links[2 * k] < upto { 1int } else { 0int }) + (if links[2 * k + 1] < upto {
                1int
            } else {
                0int
            })
        } else {
            0int
        },
    decreases upto,
{
    if upto > 0 {
        lemma_degree_sum_step(links, n, upto - 1, k);
    }
}

proof fn lemma_degree_sum_total(links: Seq<u32>, n: nat, k: int)
    requires
        0 <= k,
    ensures
        degree_sum_upto(links, n, n as int, k) == 2 * valid_pairs_upto(links, n, k),
    decreases k,
{
    if k > 0 {
        lemma_degree_sum_total(links, n, k - 1);
        lemma_degree_sum_step(links, n, n as int, k - 1);
    } else {
        lemma_degree_sum_zero(links, n, n as int);
    }
}

proof fn lemma_degree_sum_zero(links: Seq<u32>, n: nat, upto: int)
    ensures
        degree_sum_upto(links, n, upto, 0) == 0,
    decreases upto,
{
    if upto > 0 {
        lemma_degree_sum_zero(links, n, upto - 1);
    }
}

proof fn lemma_valid_pairs_bound(links: Seq<u32>, n: nat, k: int)
    requires
        0 <= k,
    ensures
        0 <= valid_pairs_upto(links, n, k) <= k,
    decreases k,
{
    if k > 0 {
        lemma_valid_pairs_bound(links, n, k - 1);
    }
}

proof fn lemma_degree_sum_monotone(links: Seq<u32>, n: nat, a: int, b: int, k: int)
    requires
        0 <= a <= b,
    ensures
        degree_sum_upto(links, n, a, k) <= degree_sum_upto(links, n, b, k),
    decreases b - a,
{
    if a < b {
        lemma_degree_sum_monotone(links, n, a, b - 1, k);
    }
}


proof fn lemma_append_to_segment(
    adj: Seq<u32>,
    offsets: Seq<u32>,
    cursor: Seq<u32>,
    n: nat,
    node: int,
    val: u32,
)
    requires
        offsets.len() == n + 1,
        cursor.len() == n,
        adj.len() == offsets[n as int],
        0 <= node < n,
        forall|a: int, b: int| 0 <= a <= b <= n ==> offsets[a] <= offsets[b],
        forall|j: int| 0 <= j < n ==> offsets[j] <= #[trigger] cursor[j] <= offsets[j + 1],
        cursor[node] < offsets[node + 1],
    ensures
        forall|j: int|
            0 <= j < n && j != node ==> #[trigger] adj.update(cursor[node] as int, val).subrange(
                offsets[j] as int,
                cursor[j] as int,
            ) == adj.subrange(offsets[j] as int, cursor[j] as int),
        adj.update(cursor[node] as int, val).subrange(offsets[node] as int, cursor[node] + 1)
            == adj.subrange(offsets[node] as int, cursor[node] as int).push(val),
{
    let w = cursor[node] as int;
    let new = adj.update(w, val);
    assert forall|j: int| 0 <= j < n && j != node implies #[trigger] new.subrange(
        offsets[j] as int,
        cursor[j] as int,
    ) == adj.subrange(offsets[j] as int, cursor[j] as int) by {
        if j < node {
            assert(offsets[j + 1] <= offsets[node]);
        } else {
            assert(offsets[node + 1] <= offsets[j]);
        }
        assert(new.subrange(offsets[j] as int, cursor[j] as int) =~= adj.subrange(
            offsets[j] as int,
            cursor[j] as int,
        ));
    }
    assert(new.subrange(offsets[node] as int, w + 1) =~= adj.subrange(
        offsets[node] as int,
        w,
    ).push(val));
}

/// The neighbours that the first `k` pairs give node `i` are among all of
/// its neighbours, and those are among all link endpoints.
proof fn lemma_list_within_total(links: Seq<u32>, n: nat, i: int, k: int)
    requires
        0 <= i < n,
        0 <= k <= pair_count(links),
    ensures
        neighbors_upto(links, n, i, k).len() <= offset_of(links, n, n as int),
{
    lemma_neighbors_prefix(links, n, i, k, pair_count(links));
    lemma_degree_sum_monotone(links, n, 0, i, pair_count(links));
    lemma_degree_sum_monotone(links, n, i + 1, n as int, pair_count(links));
}

/// Number of link endpoints that `LinkGraph::new` stores for `n` nodes: two
/// per pair whose endpoints both lie below `n`.
pub fn valid_endpoint_count(links: &[u32], n: usize) -> (total: usize)
    ensures
        total == offset_of(links@, n as nat, n as int),
{
    let ghost ls = links@;
    let ghost nn = n as nat;
    let pairs = links.len() / 2;
    assert(ls.len() == links.len());
    let mut total: usize = 0;
    let mut k: usize = 0;
    while k < pairs
        invariant
            ls == links@,
            nn == n,
            pairs == pair_count(ls),
            k <= pairs,
            total == 2 * valid_pairs_upto(ls, nn, k as int),
            2 * k <= ls.len(),
            ls.len() <= usize::MAX,
        decreases pairs - k,
    {
        proof {
            lemma_valid_pairs_bound(ls, nn, k as int);
        }
        assert(2 * k + 2 <= ls.len());
        if (links[2 * k] as usize) < n && (links[2 * k + 1] as usize) < n {
            total = total + 2;
        }
        k = k + 1;
    }
    proof {
        lemma_degree_sum_total(ls, nn, pairs as int);
    }
    total
}

/// Compressed undirected adjacency of a link list: `deg[i]` neighbours of node
/// `i` stored in `adj[offsets[i]..offsets[i + 1]]`.
pub struct LinkGraph {
    adj: Vec<u32>,
    offsets: Vec<u32>,
    deg: Vec<u32>,
    links: Ghost<Seq<u32>>,
    n: Ghost<nat>,
}

impl LinkGraph {
    #[verifier::type_invariant]
    spec fn inv(self) -> bool {
        csr_of(self.adj@, self.offsets@, self.deg@, self.links@, self.n@)
    }

    /// The flat link list the graph was built from.
    pub closed spec fn source_links(self) -> Seq<u32> {
        self.links@
    }

    /// Number of nodes.
    pub closed spec fn node_count(self) -> nat {
        self.n@
    }

    /// Concatenated neighbour lists.
    pub closed spec fn adjacency(self) -> Seq<u32> {
        self.adj@
    }

    /// Slice boundaries, one per node plus the end.
    pub closed spec fn offset_table(self) -> Seq<u32> {
        self.offsets@
    }

    /// Degree of each node.
    pub closed spec fn degree_table(self) -> Seq<u32> {
        self.deg@
    }

    /// Builds the adjacency of `n` nodes from `links`, read as consecutive
    /// `(source, target)` pairs; pairs with an endpoint `>= n` and a trailing
    /// unpaired entry are ignored.
    pub fn new(links: &[u32], n: usize) -> (g: Self)
        requires
            offset_of(links@, n as nat, n as int) <= u32::MAX,
            n < usize::MAX,
        ensures
            g.source_links() == links@,
            g.node_count() == n,
            csr_of(g.adjacency(), g.offset_table(), g.degree_table(), links@, n as nat),
    {
        let ghost ls = links@;
        let ghost nn = n as nat;
        let ghost m = pair_count(ls);
        let pairs = links.len() / 2;
        assert(ls.len() == links.len());
        let mut deg: Vec<u32> = Vec::new();
        let mut i: usize = 0;
        while i < n
            invariant
                i <= n,
                deg@.len() == i,
                forall|j: int| 0 <= j < i ==> #[trigger] deg@[j] == 0,
            decreases n - i,
        {
            deg.push(0);
            i = i + 1;
        }
        let mut k: usize = 0;
        while k < pairs
            invariant
                ls == links@,
                nn == n,
                pairs == pair_count(ls),
                m == pair_count(ls),
                offset_of(ls, nn, n as int) <= u32::MAX,
                ls.len() <= usize::MAX,
                k <= pairs,
                deg@.len() == n,
                forall|j: int| 0 <= j < n ==> #[trigger] deg@[j] == neighbors_upto(ls, nn, j, k as int).len(),
            decreases pairs - k,
        {
            assert(2 * k + 2 <= ls.len());
            let s = links[2 * k];
            let t = links[2 * k + 1];
            let ghost before = deg@;
            if (s as usize) < n && (t as usize) < n {
                proof {
                    lemma_list_within_total(ls, nn, s as int, k + 1);
                    lemma_list_within_total(ls, nn, t as int, k + 1);
                }
                let ds = deg[s as usize];
                deg.set(s as usize, ds + 1);
                let dt = deg[t as usize];
                deg.set(t as usize, dt + 1);
            }
            assert forall|j: int| 0 <= j < n implies #[trigger] deg@[j] == neighbors_upto(
                ls,
                nn,
                j,
                k + 1,
            ).len() by {
                assert(before[j] == neighbors_upto(ls, nn, j, k as int).len());
            }
            k = k + 1;
        }
        proof {
            lemma_degree_sum_total(ls, nn, m);
            lemma_valid_pairs_bound(ls, nn, m);
        }
        let mut offsets: Vec<u32> = Vec::new();
        offsets.push(0);
        let mut i: usize = 0;
        while i < n
            invariant
                ls == links@,
                nn == n,
                pairs == pair_count(ls),
                m == pair_count(ls),
                offset_of(ls, nn, n as int) <= u32::MAX,
                i <= n,
                deg@.len() == n,
                forall|j: int| 0 <= j < n ==> #[trigger] deg@[j] == neighbor_list(ls, nn, j).len(),
                offsets@.len() == i + 1,
                forall|j: int| 0 <= j <= i ==> #[trigger] offsets@[j] == offset_of(ls, nn, j),
            decreases n - i,
        {
            proof {
                lemma_degree_sum_monotone(ls, nn, i + 1, n as int, m);
            }
            let next = offsets[i] + deg[i];
            offsets.push(next);
            i = i + 1;
        }
        proof {
            assert forall|a: int, b: int| 0 <= a <= b <= n implies offsets@[a] <= offsets@[b] by {
                lemma_degree_sum_monotone(ls, nn, a, b, m);
            }
        }
        let total = offsets[n] as usize;
        let mut adj: Vec<u32> = Vec::new();
        let mut e: usize = 0;
        while e < total
            invariant
                e <= total,
                adj@.len() == e,
            decreases total - e,
        {
            adj.push(0);
            e = e + 1;
        }
        let mut cursor: Vec<u32> = Vec::new();
        let mut i: usize = 0;
        while i < n
            invariant
                i <= n,
                offsets@.len() == n + 1,
                cursor@.len() == i,
                forall|j: int| 0 <= j < i ==> #[trigger] cursor@[j] == offsets@[j],
            decreases n - i,
        {
            cursor.push(offsets[i]);
            i = i + 1;
        }
        let mut k: usize = 0;
        while k < pairs
            invariant
                ls == links@,
                nn == n,
                pairs == pair_count(ls),
                m == pair_count(ls),
                ls.len() <= usize::MAX,
                k <= pairs,
                deg@.len() == n,
                forall|j: int| 0 <= j < n ==> #[trigger] deg@[j] == neighbor_list(ls, nn, j).len(),
                offsets@.len() == n + 1,
                forall|j: int| 0 <= j <= n ==> #[trigger] offsets@[j] == offset_of(ls, nn, j),
                forall|a: int, b: int| 0 <= a <= b <= n ==> offsets@[a] <= offsets@[b],
                adj@.len() == total,
                total == offsets@[n as int],
                cursor@.len() == n,
                forall|j: int|
                    0 <= j < n ==> #[trigger] cursor@[j] == offsets@[j] + neighbors_upto(
                        ls,
                        nn,
                        j,
                        k as int,
                    ).len(),
                forall|j: int|
                    0 <= j < n ==> #[trigger] adj@.subrange(offsets@[j] as int, cursor@[j] as int)
                        == neighbors_upto(ls, nn, j, k as int),
            decreases pairs - k,
        {
            assert(2 * k + 2 <= ls.len());
            let s = links[2 * k];
            let t = links[2 * k + 1];
            let ghost adj0 = adj@;
            let ghost cur0 = cursor@;
            proof {
                assert forall|j: int| 0 <= j < n implies offsets@[j] <= #[trigger] cur0[j]
                    <= offsets@[j + 1] by {
                    lemma_neighbors_prefix(ls, nn, j, k as int, m);
                    lemma_neighbors_prefix(ls, nn, j, k + 1, m);
                }
            }
            if (s as usize) < n && (t as usize) < n {
                let su = s as usize;
                let tu = t as usize;
                proof {
                    lemma_neighbors_prefix(ls, nn, s as int, k + 1, m);
                    lemma_neighbors_prefix(ls, nn, t as int, k + 1, m);
                    lemma_append_to_segment(adj0, offsets@, cur0, nn, s as int, t);
                }
                let cs = cursor[su];
                adj.set(cs as usize, t);
                cursor.set(su, cs + 1);
                let ghost adj1 = adj@;
                let ghost cur1 = cursor@;
                proof {
                    assert forall|j: int| 0 <= j < n implies offsets@[j] <= #[trigger] cur1[j]
                        <= offsets@[j + 1] by {
                        lemma_neighbors_prefix(ls, nn, j, k as int, m);
                        lemma_neighbors_prefix(ls, nn, j, k + 1, m);
                    }
                    lemma_append_to_segment(adj1, offsets@, cur1, nn, t as int, s);
                }
                let ct = cursor[tu];
                adj.set(ct as usize, s);
                cursor.set(tu, ct + 1);
                proof {
                    assert forall|j: int| 0 <= j < n implies #[trigger] adj@.subrange(
                        offsets@[j] as int,
                        cursor@[j] as int,
                    ) == neighbors_upto(ls, nn, j, k + 1) by {
                        assert(adj0.subrange(offsets@[j] as int, cur0[j] as int) == neighbors_upto(
                            ls,
                            nn,
                            j,
                            k as int,
                        ));
                        if j != s as int {
                            assert(adj1.subrange(offsets@[j] as int, cur1[j] as int)
                                == adj0.subrange(offsets@[j] as int, cur0[j] as int));
                        }
                    }
                }
            } else {
                proof {
                    assert forall|j: int| 0 <= j < n implies #[trigger] adj@.subrange(
                        offsets@[j] as int,
                        cursor@[j] as int,
                    ) == neighbors_upto(ls, nn, j, k + 1) by {
                        assert(adj0.subrange(offsets@[j] as int, cur0[j] as int) == neighbors_upto(
                            ls,
                            nn,
                            j,
                            k as int,
                        ));
                    }
                }
            }
            k = k + 1;
        }
        proof {
            assert forall|j: int| 0 <= j < n implies #[trigger] segment_holds(
                adj@,
                offsets@,
                ls,
                nn,
                j,
            ) by {
                assert(cursor@[j] == offsets@[j + 1]);
            }
        }
        LinkGraph { adj, offsets, deg, links: Ghost(ls), n: Ghost(nn) }
    }

    /// Number of nodes.
    pub fn len(&self) -> (n: usize)
        ensures
            n == self.node_count(),
    {
        proof {
            use_type_invariant(self);
        }
        self.deg.len()
    }

    /// Number of link endpoints at `node` (a loop counts twice).
    pub fn degree(&self, node: usize) -> (d: u32)
        requires
            node < self.node_count(),
        ensures
            d == neighbor_list(self.source_links(), self.node_count(), node as int).len(),
    {
        proof {
            use_type_invariant(self);
        }
        self.deg[node]
    }

    /// Neighbours of `node`, in link order.
    pub fn neighbors(&self, node: usize) -> (nb: &[u32])
        requires
            node < self.node_count(),
        ensures
            nb@ == neighbor_list(self.source_links(), self.node_count(), node as int),
    {
        proof {
            use_type_invariant(self);
            lemma_degree_sum_monotone(
                self.links@,
                self.n@,
                node + 1,
                self.n@ as int,
                pair_count(self.links@),
            );
            assert(segment_holds(self.adj@, self.offsets@, self.links@, self.n@, node as int));
        }
        let olen = self.offsets.len();
        assert(node < olen - 1);
        let lo = self.offsets[node] as usize;
        let hi = self.offsets[node + 1] as usize;
        vstd::slice::slice_subrange(self.adj.as_slice(), lo, hi)
    }
}

/// Every link endpoint is counted once: the adjacency array holds exactly two
/// entries per valid pair.
pub proof fn lemma_degree_total(links: Seq<u32>, n: nat)
    ensures
        offset_of(links, n, n as int) == 2 * valid_pairs_upto(links, n, pair_count(links)),
{
    lemma_degree_sum_total(links, n, pair_count(links));
}

/// Offsets never decrease, so the neighbour slices are laid out in node order
/// without overlap.
pub proof fn lemma_offsets_monotone(links: Seq<u32>, n: nat, a: int, b: int)
    requires
        0 <= a <= b,
    ensures
        offset_of(links, n, a) <= offset_of(links, n, b),
{
    lemma_degree_sum_monotone(links, n, a, b, pair_count(links));
}

proof fn lemma_neighbors_upto_in_range(links: Seq<u32>, n: nat, i: int, k: int)
    requires
        0 <= k <= pair_count(links),
    ensures
        forall|e: int|
            0 <= e < neighbors_upto(links, n, i, k).len() ==> #[trigger] neighbors_upto(
                links,
                n,
                i,
                k,
            )[e] < n,
    decreases k,
{
    if k > 0 {
        lemma_neighbors_upto_in_range(links, n, i, k - 1);
        let prev = neighbors_upto(links, n, i, k - 1);
        let cur = neighbors_upto(links, n, i, k);
        assert forall|e: int| 0 <= e < cur.len() implies #[trigger] cur[e] < n by {
            if e < prev.len() {
                assert(prev[e] < n);
            }
        }
    }
}

/// Every neighbour is an existing node.
pub proof fn lemma_neighbors_in_range(links: Seq<u32>, n: nat, i: int, e: int)
    requires
        0 <= e < neighbor_list(links, n, i).len(),
    ensures
        neighbor_list(links, n, i)[e] < n,
{
    lemma_neighbors_upto_in_range(links, n, i, pair_count(links));
}

proof fn lemma_neighbors_upto_symmetric(links: Seq<u32>, n: nat, i: u32, j: u32, k: int)
    ensures
        neighbors_upto(links, n, i as int, k).to_multiset().count(j) == neighbors_upto(
            links,
            n,
            j as int,
            k,
        ).to_multiset().count(i),
    decreases k,
{
    broadcast use vstd::seq_lib::group_to_multiset_ensures;
    broadcast use vstd::multiset::group_multiset_axioms;

    if k > 0 {
        lemma_neighbors_upto_symmetric(links, n, i, j, k - 1);
    }
}

/// Links are undirected: `j` occurs in the neighbour list of `i` exactly as
/// often as `i` occurs in the neighbour list of `j`.
pub proof fn lemma_neighbors_symmetric(links: Seq<u32>, n: nat, i: u32, j: u32)
    ensures
        neighbor_list(links, n, i as int).to_multiset().count(j) == neighbor_list(
            links,
            n,
            j as int,
        ).to_multiset().count(i),
{
    lemma_neighbors_upto_symmetric(links, n, i, j, pair_count(links));
}


/// A link is kept exactly when both of its endpoints are nodes, wherever it
/// stands in the list: if pair `k` joins `s < n` and `t < n`, then `t` is a
/// neighbour of `s` and `s` a neighbour of `t`.
pub proof fn lemma_valid_pair_listed(links: Seq<u32>, n: nat, k: int)
    requires
        0 <= k < pair_count(links),
        links[2 * k] < n,
        links[2 * k + 1] < n,
    ensures
        neighbor_list(links, n, links[2 * k] as int).contains(links[2 * k + 1]),
        neighbor_list(links, n, links[2 * k + 1] as int).contains(links[2 * k]),
{
    let s = links[2 * k];
    let t = links[2 * k + 1];
    let m = pair_count(links);
    lemma_neighbors_prefix(links, n, s as int, k + 1, m);
    lemma_neighbors_prefix(links, n, t as int, k + 1, m);
    let a = neighbors_upto(links, n, s as int, k + 1);
    let b = neighbors_upto(links, n, t as int, k + 1);
    let prev_s = neighbors_upto(links, n, s as int, k);
    let prev_t = neighbors_upto(links, n, t as int, k);
    let full_s = neighbor_list(links, n, s as int);
    let full_t = neighbor_list(links, n, t as int);
    // pair k appends t to s's list, then s to t's list
    let js = prev_s.len() as int;
    assert(a[js] == t);
    assert(full_s[js] == a[js]);
    if s == t {
        assert(b[js] == s);
        assert(full_t[js] == b[js]);
    } else {
        let jt = prev_t.len() as int;
        assert(b[jt] == s);
        assert(full_t[jt] == b[jt]);
    }
}

/// Every neighbour comes from a link: each entry `e` of node `i`'s list is
/// the other end of some pair whose endpoints are both nodes.
pub proof fn lemma_neighbor_from_pair(links: Seq<u32>, n: nat, i: int, e: int)
    requires
        0 <= e < neighbor_list(links, n, i).len(),
    ensures
        exists|k: int|
            0 <= k < pair_count(links) && links[2 * k] < n && links[2 * k + 1] < n && ((links[2 * k]
                == i && #[trigger] links[2 * k + 1] == neighbor_list(links, n, i)[e]) || (links[2 * k + 1]
                == i && links[2 * k] == neighbor_list(links, n, i)[e])),
{
    lemma_neighbor_upto_from_pair(links, n, i, pair_count(links), e);
}

proof fn lemma_neighbor_upto_from_pair(links: Seq<u32>, n: nat, i: int, m: int, e: int)
    requires
        0 <= m <= pair_count(links),
        0 <= e < neighbors_upto(links, n, i, m).len(),
    ensures
        exists|k: int|
            0 <= k < m && links[2 * k] < n && links[2 * k + 1] < n && ((links[2 * k] == i
                && #[trigger] links[2 * k + 1] == neighbors_upto(links, n, i, m)[e]) || (links[2 * k + 1]
                == i && links[2 * k] == neighbors_upto(links, n, i, m)[e])),
    decreases m,
{
    let cur = neighbors_upto(links, n, i, m);
    let prev = neighbors_upto(links, n, i, m - 1);
    if e < prev.len() {
        lemma_neighbor_upto_from_pair(links, n, i, m - 1, e);
        let k = choose|k: int|
            0 <= k < m - 1 && links[2 * k] < n && links[2 * k + 1] < n && ((links[2 * k] == i
                && #[trigger] links[2 * k + 1] == prev[e]) || (links[2 * k + 1] == i && links[2 * k]
                == prev[e]));
        assert(cur[e] == prev[e]);
        assert(links[2 * k + 1] == links[2 * k + 1]);
    } else {
        let k = m - 1;
        assert(links[2 * k + 1] == links[2 * k + 1]);
    }
}

proof fn lemma_valid_pairs_counted(links: Seq<u32>, n: nat, k: int)
    requires
        0 <= k,
    ensures
        valid_pairs_upto(links, n, k) == Seq::new(k as nat, |j: int| j).filter(
            |j: int| links[2 * j] < n && links[2 * j + 1] < n,
        ).len(),
    decreases k,
{
    reveal(Seq::filter);
    let all = Seq::new(k as nat, |j: int| j);
    if k > 0 {
        lemma_valid_pairs_counted(links, n, k - 1);
        assert(all.drop_last() =~= Seq::new((k - 1) as nat, |j: int| j));
        assert(all.last() == k - 1);
    } else {
        assert(all =~= Seq::<int>::empty());
    }
}

/// The adjacency holds two entries for each pair whose endpoints are both
/// below `n`, and no others: its length (what `valid_endpoint_count`
/// returns) is twice the number of such pairs among all pairs of the list.
pub proof fn lemma_endpoint_total(links: Seq<u32>, n: nat)
    ensures
        offset_of(links, n, n as int) == 2 * Seq::new(pair_count(links) as nat, |j: int| j).filter(
            |j: int| links[2 * j] < n && links[2 * j + 1] < n,
        ).len(),
{
    lemma_degree_sum_total(links, n, pair_count(links));
    lemma_valid_pairs_counted(links, n, pair_count(links));
}

} // verus!
