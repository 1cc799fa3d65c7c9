//! Order in which particles are inserted into the octree: index order for
//! small inputs, Morton order (ties by index) from a threshold on, so that
//! particles that are close in space are inserted one after another.
use vstd::prelude::*;

verus! {

broadcast use {vstd::seq_lib::group_to_multiset_ensures, vstd::multiset::group_multiset_axioms};

/// Number of particles from which they are inserted in Morton order.
pub const MORTON_ORDER_MIN: usize = 4096;

/// `(key, index)` pairs ordered by key, then index.
pub open spec fn pair_le(a: (u64, usize), b: (u64, usize)) -> bool {
    a.0 < b.0 || (a.0 == b.0 && a.1 <= b.1)
}

/// Strict form of `pair_le`.
pub open spec fn pair_lt(a: (u64, usize), b: (u64, usize)) -> bool {
    a.0 < b.0 || (a.0 == b.0 && a.1 < b.1)
}

/// Number of times `x` occurs in `s`.
pub open spec fn occurrences(s: Seq<usize>, x: int) -> nat
    decreases s.len(),
{
    if s.len() == 0 {
        0
    } else {
        occurrences(s.drop_last(), x) + if s.last() == x {
            1nat
        } else {
            0nat
        }
    }
}

/// Pairs in ascending `pair_le` order.
pub open spec fn pairs_sorted(s: Seq<(u64, usize)>) -> bool {
    forall|i: int, j: int| 0 <= i < j < s.len() ==> pair_le(#[trigger] s[i], #[trigger] s[j])
}

/// Merges two sorted runs into one sorted run of all their pairs.
fn merge(a: &Vec<(u64, usize)>, b: &Vec<(u64, usize)>) -> (r: Vec<(u64, usize)>)
    requires
        pairs_sorted(a@),
        pairs_sorted(b@),
    ensures
        pairs_sorted(r@),
        r@.to_multiset() == a@.to_multiset().add(b@.to_multiset()),
        r@.len() == a@.len() + b@.len(),
{
    let mut r: Vec<(u64, usize)> = Vec::new();
    let mut i: usize = 0;
    let mut j: usize = 0;
    proof {
        assert(a@.subrange(0, 0).to_multiset() =~= vstd::multiset::Multiset::empty());
        assert(b@.subrange(0, 0).to_multiset() =~= vstd::multiset::Multiset::empty());
    }
    while i < a.len() || j < b.len()
        invariant
            i <= a@.len(),
            j <= b@.len(),
            r@.len() == i + j,
            pairs_sorted(a@),
            pairs_sorted(b@),
            pairs_sorted(r@),
            r@.to_multiset() == a@.subrange(0, i as int).to_multiset().add(
                b@.subrange(0, j as int).to_multiset(),
            ),
            r@.len() > 0 && i < a@.len() ==> pair_le(r@.last(), a@[i as int]),
            r@.len() > 0 && j < b@.len() ==> pair_le(r@.last(), b@[j as int]),
        decreases a@.len() + b@.len() - i - j,
    {
        let take_a = j >= b.len() || (i < a.len() && (a[i].0 < b[j].0 || (a[i].0 == b[j].0 && a[i].1
            <= b[j].1)));
        let ghost before = r@;
        if take_a {
            let x = a[i];
            r.push(x);
            proof {
                assert(a@.subrange(0, i + 1) =~= a@.subrange(0, i as int).push(x));
                assert forall|p: int, q: int| 0 <= p < q < r@.len() implies pair_le(
                    #[trigger] r@[p],
                    #[trigger] r@[q],
                ) by {
                    if q == r@.len() - 1 && p < before.len() {
                        assert(pair_le(before[p], before.last())) by {
                            if p < before.len() - 1 {
                                assert(pair_le(before[p], before[before.len() - 1]));
                            }
                        }
                    } else if q < before.len() {
                        assert(pair_le(before[p], before[q]));
                    }
                }
                if i + 1 < a@.len() {
                    assert(pair_le(a@[i as int], a@[i + 1]));
                }
            }
            i = i + 1;
        } else {
            let x = b[j];
            r.push(x);
            proof {
                assert(b@.subrange(0, j + 1) =~= b@.subrange(0, j as int).push(x));
                assert forall|p: int, q: int| 0 <= p < q < r@.len() implies pair_le(
                    #[trigger] r@[p],
                    #[trigger] r@[q],
                ) by {
                    if q == r@.len() - 1 && p < before.len() {
                        assert(pair_le(before[p], before.last())) by {
                            if p < before.len() - 1 {
                                assert(pair_le(before[p], before[before.len() - 1]));
                            }
                        }
                    } else if q < before.len() {
                        assert(pair_le(before[p], before[q]));
                    }
                }
                if j + 1 < b@.len() {
                    assert(pair_le(b@[j as int], b@[j + 1]));
                }
            }
            j = j + 1;
        }
    }
    proof {
        assert(a@.subrange(0, a@.len() as int) =~= a@);
        assert(b@.subrange(0, b@.len() as int) =~= b@);
    }
    r
}

/// Copy of `v[lo..hi]`.
fn slice_copy(v: &Vec<(u64, usize)>, lo: usize, hi: usize) -> (r: Vec<(u64, usize)>)
    requires
        lo <= hi <= v@.len(),
    ensures
        r@ == v@.subrange(lo as int, hi as int),
{
    let mut r: Vec<(u64, usize)> = Vec::new();
    let mut k: usize = lo;
    while k < hi
        invariant
            lo <= k <= hi,
            hi <= v@.len(),
            r@ == v@.subrange(lo as int, k as int),
        decreases hi - k,
    {
        r.push(v[k]);
        k = k + 1;
        assert(r@ =~= v@.subrange(lo as int, k as int));
    }
    r
}

/// Sorts `(key, index)` pairs ascending, by key and then by index (merge
/// sort).
fn sort_pairs(v: Vec<(u64, usize)>) -> (r: Vec<(u64, usize)>)
    ensures
        r@.to_multiset() == v@.to_multiset(),
        pairs_sorted(r@),
        r@.len() == v@.len(),
    decreases v@.len(),
{
    if v.len() <= 1 {
        return v;
    }
    let mid = v.len() / 2;
    let left = slice_copy(&v, 0, mid);
    let right = slice_copy(&v, mid, v.len());
    proof {
        assert(v@ =~= left@ + right@);
        vstd::seq_lib::lemma_multiset_commutative(left@, right@);
    }
    let l = sort_pairs(left);
    let r = sort_pairs(right);
    merge(&l, &r)
}

/// Order in which the particles `0..keys.len()` are inserted: index order
/// below `MORTON_ORDER_MIN` particles, otherwise by Morton key and then
/// index. Every particle appears exactly once.
pub fn insertion_order(keys: &[u64]) -> (order: Vec<usize>)
    ensures
        order@.len() == keys@.len(),
        forall|x: int| #[trigger] occurrences(order@, x) == if 0 <= x < keys@.len() {
            1nat
        } else {
            0nat
        },
        forall|i: int| 0 <= i < order@.len() ==> #[trigger] order@[i] < keys@.len(),
        keys@.len() < MORTON_ORDER_MIN ==> forall|i: int| 0 <= i < order@.len() ==> #[trigger] order@[i] == i,
        keys@.len() >= MORTON_ORDER_MIN ==> forall|i: int, j: int|
            0 <= i < j < order@.len() ==> pair_lt(
                (keys@[order@[i] as int], order@[i]),
                (keys@[order@[j] as int], order@[j]),
            ),
{
    let n = keys.len();
    let mut order: Vec<usize> = Vec::new();
    if n < MORTON_ORDER_MIN {
        let mut i: usize = 0;
        while i < n
            invariant
                i <= n,
                n == keys@.len(),
                order@.len() == i,
                forall|k: int| 0 <= k < i ==> #[trigger] order@[k] == k,
                forall|x: int| #[trigger] occurrences(order@, x) == if 0 <= x < i {
                    1nat
                } else {
                    0nat
                },
            decreases n - i,
        {
            let ghost before = order@;
            order.push(i);
            assert(order@.drop_last() =~= before);
            assert forall|x: int| #[trigger] occurrences(order@, x) == occurrences(before, x) + if x
                == i {
                1nat
            } else {
                0nat
            } by {}
            i = i + 1;
        }
        return order;
    }
    let mut pairs: Vec<(u64, usize)> = Vec::new();
    let mut i: usize = 0;
    while i < n
        invariant
            i <= n,
            n == keys@.len(),
            pairs@.len() == i,
            forall|e: (u64, usize)| #[trigger] pairs@.to_multiset().count(e) == if e.1 < i && e.0
                == keys@[e.1 as int] {
                1nat
            } else {
                0nat
            },
        decreases n - i,
    {
        pairs.push((keys[i], i));
        i = i + 1;
    }
    let ghost unsorted = pairs@;
    let pairs = sort_pairs(pairs);
    proof {
        assert(pairs@.to_multiset().len() == unsorted.to_multiset().len());
        assert forall|x: (u64, usize)| pairs@.to_multiset().contains(x) implies pairs@.to_multiset().count(x) == 1 by {}
        pairs@.lemma_multiset_has_no_duplicates_conv();
        assert forall|k: int| 0 <= k < pairs@.len() implies #[trigger] pairs@[k].1 < n && pairs@[k].0 == keys@[pairs@[k].1 as int] by {
            assert(pairs@.contains(pairs@[k]));
            assert(pairs@.to_multiset().count(pairs@[k]) > 0);
        }
    }
    let mut k: usize = 0;
    while k < n
        invariant
            k <= n,
            n == keys@.len(),
            n >= MORTON_ORDER_MIN,
            pairs@.len() == n,
            order@.len() == k,
            pairs@.no_duplicates(),
            forall|a: int| 0 <= a < n ==> #[trigger] pairs@[a].1 < n && pairs@[a].0 == keys@[pairs@[a].1 as int],
            forall|a: int, b: int| 0 <= a < b < n ==> pair_le(pairs@[a], pairs@[b]),
            forall|e: (u64, usize)| #[trigger] pairs@.to_multiset().count(e) == if e.1 < n && e.0
                == keys@[e.1 as int] {
                1nat
            } else {
                0nat
            },
            forall|a: int| 0 <= a < k ==> #[trigger] order@[a] == pairs@[a].1,
            forall|x: int| #[trigger] occurrences(order@, x) == if 0 <= x < n {
                pairs@.subrange(0, k as int).to_multiset().count((keys@[x], x as usize))
            } else {
                0nat
            },
        decreases n - k,
    {
        let ghost before = order@;
        let idx = pairs[k].1;
        order.push(idx);
        proof {
            assert(order@.drop_last() =~= before);
            assert(pairs@.subrange(0, k + 1) =~= pairs@.subrange(0, k as int).push(pairs@[k as int]));
            assert forall|x: int| #[trigger] occurrences(order@, x) == if 0 <= x < n {
                pairs@.subrange(0, k + 1).to_multiset().count((keys@[x], x as usize))
            } else {
                0nat
            } by {
                assert(occurrences(order@, x) == occurrences(before, x) + if idx == x {
                    1nat
                } else {
                    0nat
                });
                if 0 <= x < n {
                    assert((idx == x) == (pairs@[k as int] == (keys@[x], x as usize)));
                }
            }
        }
        k = k + 1;
    }
    proof {
        assert(pairs@.subrange(0, n as int) =~= pairs@);
        assert forall|i: int, j: int| 0 <= i < j < order@.len() implies pair_lt(
            (keys@[order@[i] as int], order@[i]),
            (keys@[order@[j] as int], order@[j]),
        ) by {
            assert(pairs@[i] != pairs@[j]);
            assert(pair_le(pairs@[i], pairs@[j]));
        }
    }
    order
}


/// Lexicographic order on ranks.
pub open spec fn rank_lt(a: (int, int, int), b: (int, int, int)) -> bool {
    a.0 < b.0 || (a.0 == b.0 && (a.1 < b.1 || (a.1 == b.1 && a.2 < b.2)))
}

proof fn lemma_sorted_prefix<A>(s1: Seq<A>, s2: Seq<A>, rank: spec_fn(A) -> (int, int, int), k: int)
    requires
        0 <= k <= s1.len(),
        k <= s2.len(),
        forall|i: int, j: int| 0 <= i < j < s1.len() ==> rank_lt(rank(s1[i]), rank(s1[j])),
        forall|i: int, j: int| 0 <= i < j < s2.len() ==> rank_lt(rank(s2[i]), rank(s2[j])),
        forall|i: int| 0 <= i < s1.len() ==> s2.contains(#[trigger] s1[i]),
        forall|i: int| 0 <= i < s2.len() ==> s1.contains(#[trigger] s2[i]),
    ensures
        forall|i: int| 0 <= i < k ==> s1[i] == s2[i],
    decreases k,
{
    if k > 0 {
        let m = k - 1;
        lemma_sorted_prefix(s1, s2, rank, m);
        let x = s1[m];
        let y = s2[m];
        assert(s2.contains(x));
        assert(s1.contains(y));
        let a = choose|a: int| 0 <= a < s2.len() && s2[a] == x;
        let b = choose|b: int| 0 <= b < s1.len() && s1[b] == y;
        if a < m {
            assert(s1[a] == x);
            assert(rank_lt(rank(s1[a]), rank(s1[m])));
        }
        if b < m {
            assert(s2[b] == y);
            assert(rank_lt(rank(s2[b]), rank(s2[m])));
        }
        if a > m && b > m {
            assert(rank_lt(rank(s2[m]), rank(s2[a])));
            assert(rank_lt(rank(s1[m]), rank(s1[b])));
        }
    }
}

/// Two sequences, each strictly increasing under `rank`, that hold the same
/// elements are equal.
pub proof fn lemma_sorted_unique<A>(s1: Seq<A>, s2: Seq<A>, rank: spec_fn(A) -> (int, int, int))
    requires
        forall|i: int, j: int| 0 <= i < j < s1.len() ==> rank_lt(rank(s1[i]), rank(s1[j])),
        forall|i: int, j: int| 0 <= i < j < s2.len() ==> rank_lt(rank(s2[i]), rank(s2[j])),
        forall|i: int| 0 <= i < s1.len() ==> s2.contains(#[trigger] s1[i]),
        forall|i: int| 0 <= i < s2.len() ==> s1.contains(#[trigger] s2[i]),
    ensures
        s1 == s2,
{
    let n = if s1.len() < s2.len() {
        s1.len() as int
    } else {
        s2.len() as int
    };
    lemma_sorted_prefix(s1, s2, rank, n);
    if s1.len() > n {
        let x = s1[n];
        assert(s2.contains(x));
        let a = choose|a: int| 0 <= a < s2.len() && s2[a] == x;
        assert(s1[a] == x);
        assert(rank_lt(rank(s1[a]), rank(s1[n])));
    }
    if s2.len() > n {
        let y = s2[n];
        assert(s1.contains(y));
        let b = choose|b: int| 0 <= b < s1.len() && s1[b] == y;
        assert(s2[b] == y);
        assert(rank_lt(rank(s2[b]), rank(s2[n])));
    }
    assert(s1 =~= s2);
}

/// `order` is the insertion order of the particles `0..keys.len()`: each
/// once; in index order below `MORTON_ORDER_MIN` particles, otherwise by
/// Morton key and then index.
pub open spec fn is_insertion_order(keys: Seq<u64>, order: Seq<int>) -> bool {
    &&& order.len() == keys.len()
    &&& forall|i: int| 0 <= i < order.len() ==> 0 <= #[trigger] order[i] < keys.len()
    &&& forall|x: int| 0 <= x < keys.len() ==> #[trigger] order.contains(x)
    &&& keys.len() < MORTON_ORDER_MIN ==> forall|i: int| 0 <= i < order.len() ==> #[trigger] order[i] == i
    &&& keys.len() >= MORTON_ORDER_MIN ==> forall|i: int, j: int|
        #![trigger order[i], order[j]]
        0 <= i < j < order.len() ==> keys[order[i]] < keys[order[j]] || (keys[order[i]]
            == keys[order[j]] && order[i] < order[j])
}

/// The insertion order is determined by the keys: two orders that both
/// meet `is_insertion_order` for the same keys are equal.
pub proof fn lemma_insertion_order_unique(keys: Seq<u64>, o1: Seq<int>, o2: Seq<int>)
    requires
        is_insertion_order(keys, o1),
        is_insertion_order(keys, o2),
    ensures
        o1 == o2,
{
    if keys.len() < MORTON_ORDER_MIN {
        assert(o1 =~= o2);
    } else {
        let rank = |x: int| (keys[x] as int, x, 0int);
        assert forall|i: int| 0 <= i < o1.len() implies o2.contains(#[trigger] o1[i]) by {}
        assert forall|i: int| 0 <= i < o2.len() implies o1.contains(#[trigger] o2[i]) by {}
        assert forall|i: int, j: int| 0 <= i < j < o1.len() implies rank_lt(rank(o1[i]), rank(o1[j])) by {}
        assert forall|i: int, j: int| 0 <= i < j < o2.len() implies rank_lt(rank(o2[i]), rank(o2[j])) by {}
        lemma_sorted_unique(o1, o2, rank);
    }
}

proof fn lemma_occurrence_found(s: Seq<usize>, x: int)
    requires
        occurrences(s, x) > 0,
    ensures
        exists|i: int| 0 <= i < s.len() && s[i] == x,
    decreases s.len(),
{
    if s.last() != x {
        lemma_occurrence_found(s.drop_last(), x);
        let i = choose|i: int| 0 <= i < s.drop_last().len() && s.drop_last()[i] == x;
        assert(s[i] == x);
    } else {
        assert(s[s.len() - 1] == x);
    }
}

/// What `insertion_order` returns, read as a sequence of particle indices,
/// is an insertion order of `keys`.
pub proof fn lemma_insertion_order_meets(keys: Seq<u64>, order: Seq<usize>)
    requires
        order.len() == keys.len(),
        forall|x: int| #[trigger] occurrences(order, x) == if 0 <= x < keys.len() {
            1nat
        } else {
            0nat
        },
        forall|i: int| 0 <= i < order.len() ==> #[trigger] order[i] < keys.len(),
        keys.len() < MORTON_ORDER_MIN ==> forall|i: int| 0 <= i < order.len() ==> #[trigger] order[i] == i,
        keys.len() >= MORTON_ORDER_MIN ==> forall|i: int, j: int|
            0 <= i < j < order.len() ==> pair_lt((keys[order[i] as int], order[i]), (keys[order[j] as int], order[j])),
    ensures
        is_insertion_order(keys, order.map_values(|x: usize| x as int)),
{
    let m = order.map_values(|x: usize| x as int);
    assert forall|x: int| 0 <= x < keys.len() implies #[trigger] m.contains(x) by {
        lemma_occurrence_found(order, x);
        let i = choose|i: int| 0 <= i < order.len() && order[i] == x;
        assert(m[i] == x);
    }
    if keys.len() >= MORTON_ORDER_MIN {
        assert forall|i: int, j: int|
            #![trigger m[i], m[j]]
            0 <= i < j < m.len() implies keys[m[i]] < keys[m[j]] || (keys[m[i]] == keys[m[j]] && m[i] < m[j]) by {
            assert(pair_lt((keys[order[i] as int], order[i]), (keys[order[j] as int], order[j])));
        }
    }
}

} // verus!
