use force_rs::morton::{path_code, MAX_DEPTH};
use force_rs::order::{insertion_order, MORTON_ORDER_MIN};
use force_rs::simulation::SimulationCore;
use force_rs::tree::{push_children, LinearTree, TreeNode, MERGED, NONE, STACK_CAPACITY};

fn code(prefix: &[u8]) -> u64 {
    let mut octants = prefix.to_vec();
    octants.resize(MAX_DEPTH, 0);
    path_code(&octants)
}

fn child(tree: &LinearTree, i: usize, o: usize) -> usize {
    let c = tree.node(i).children[o];
    assert!(c >= 0);
    c as usize
}

#[test]
fn small_tree_shape() {
    let codes = vec![code(&[]), code(&[1]), code(&[0, 3]), code(&[])];
    let mut tree = LinearTree::new();
    tree.build_in_index_order(&codes);
    let root = tree.node(0);
    assert_eq!(root.count, 4);
    assert_eq!(root.depth, 0);
    assert_eq!(root.particle, NONE);
    assert!(root.branched());
    let c1 = child(&tree, 0, 1);
    assert_eq!(tree.node(c1).count, 1);
    assert_eq!(tree.node(c1).particle, 1);
    assert_eq!(tree.node(c1).depth, 1);
    assert!(!tree.node(c1).branched());
    for o in 2..8 {
        assert_eq!(tree.node(0).children[o], NONE);
    }
    let c0 = child(&tree, 0, 0);
    assert_eq!(tree.node(c0).count, 3);
    let c03 = child(&tree, c0, 3);
    assert_eq!(tree.node(c03).count, 1);
    assert_eq!(tree.node(c03).particle, 2);
    let mut cur = child(&tree, c0, 0);
    for depth in 2..=MAX_DEPTH as u32 {
        let nd = tree.node(cur);
        assert_eq!(nd.depth, depth);
        assert_eq!(nd.count, 2);
        if depth == MAX_DEPTH as u32 {
            assert_eq!(nd.particle, MERGED);
            assert!(!nd.branched());
        } else {
            assert_eq!(nd.particle, NONE);
            cur = child(&tree, cur, 0);
        }
    }
    assert_eq!(tree.len(), 1 + 2 + 1 + (MAX_DEPTH - 1));
}

#[test]
fn particles_are_found_at_the_end_of_their_path() {
    let codes = vec![code(&[]), code(&[1]), code(&[0, 3]), code(&[])];
    let mut tree = LinearTree::new();
    tree.build_in_index_order(&codes);
    let chain = tree.descend(codes[1]);
    assert_eq!(chain.len(), 2);
    assert_eq!(chain[0], 0);
    assert_eq!(tree.node(chain[1]).particle, 1);
    let chain = tree.descend(codes[2]);
    assert_eq!(chain.len(), 3);
    assert_eq!(tree.node(chain[2]).particle, 2);
    let chain = tree.descend(codes[0]);
    assert_eq!(chain.len(), MAX_DEPTH + 1);
    let last = tree.node(*chain.last().unwrap());
    assert_eq!(last.particle, MERGED);
    assert_eq!(last.count, 2);
}

#[test]
fn empty_tree_has_root_only() {
    let mut tree = LinearTree::new();
    assert_eq!(tree.len(), 1);
    tree.rebuild(&[], &[]);
    assert_eq!(tree.len(), 1);
    assert_eq!(tree.node(0).count, 0);
    assert_eq!(tree.node(0).particle, NONE);
    assert!(!tree.node(0).branched());
    assert_eq!(tree.descend(code(&[3, 4])), vec![0]);
}

#[test]
fn single_particle_stays_at_root() {
    let mut tree = LinearTree::new();
    tree.rebuild(&[code(&[5, 5])], &[0]);
    assert_eq!(tree.len(), 1);
    assert_eq!(tree.node(0).count, 1);
    assert_eq!(tree.node(0).particle, 0);
}

#[test]
fn insert_adds_one_particle() {
    let codes = vec![code(&[2]), code(&[6])];
    let mut tree = LinearTree::new();
    tree.build_in_index_order(&codes[..1]);
    assert_eq!(tree.node(0).particle, 0);
    tree.rebuild(&codes, &[0, 0]);
    assert_eq!(tree.node(0).count, 2);
    assert_eq!(tree.node(child(&tree, 0, 2)).particle, 0);
    assert_eq!(tree.node(child(&tree, 0, 6)).particle, 1);
}

#[test]
fn occupied_children_counts_nonempty_octants() {
    let codes = vec![code(&[]), code(&[1]), code(&[0, 3]), code(&[7])];
    let mut tree = LinearTree::new();
    tree.build_in_index_order(&codes);
    assert_eq!(tree.occupied_children(0), 3);
    let c1 = child(&tree, 0, 1);
    assert_eq!(tree.occupied_children(c1), 0);
    let c0 = child(&tree, 0, 0);
    assert_eq!(tree.occupied_children(c0), 2);
}

fn summaries(tree: &LinearTree, i: usize, path: &mut Vec<usize>, out: &mut Vec<(Vec<usize>, u32, i32)>) {
    let nd = tree.node(i);
    out.push((path.clone(), nd.count, nd.particle));
    for o in 0..8 {
        if nd.children[o] >= 0 {
            path.push(o);
            summaries(tree, nd.children[o] as usize, path, out);
            path.pop();
        }
    }
}

#[test]
fn morton_order_builds_the_same_tree() {
    let n = MORTON_ORDER_MIN + 500;
    let mut codes = Vec::with_capacity(n);
    let mut keys = Vec::with_capacity(n);
    let mut state: u64 = 0x9e3779b97f4a7c15;
    for _ in 0..n {
        state ^= state << 13;
        state ^= state >> 7;
        state ^= state << 17;
        let mut octants = Vec::with_capacity(MAX_DEPTH);
        let mut s = state;
        for _ in 0..MAX_DEPTH {
            octants.push((s % 3) as u8);
            s /= 3;
        }
        codes.push(path_code(&octants));
        keys.push(state >> 5);
    }
    let mut sorted = LinearTree::new();
    sorted.rebuild(&codes, &keys);
    let mut plain = LinearTree::new();
    plain.build_in_index_order(&codes);
    let (mut a, mut b) = (Vec::new(), Vec::new());
    summaries(&sorted, 0, &mut Vec::new(), &mut a);
    summaries(&plain, 0, &mut Vec::new(), &mut b);
    assert_eq!(a, b);
    assert_eq!(sorted.node(0).count as usize, n);
}

#[test]
fn insertion_order_small_is_index_order() {
    assert_eq!(insertion_order(&[9, 3, 5]), vec![0, 1, 2]);
    assert_eq!(insertion_order(&[]), Vec::<usize>::new());
}

#[test]
fn insertion_order_large_sorts_by_key_then_index() {
    let n = MORTON_ORDER_MIN;
    let keys: Vec<u64> = (0..n).map(|i| ((n - i) / 2) as u64).collect();
    let order = insertion_order(&keys);
    assert_eq!(order.len(), n);
    assert_eq!(order[0], n - 1);
    assert_eq!(order[1], n - 3);
    assert_eq!(order[2], n - 2);
    for w in order.windows(2) {
        assert!((keys[w[0]], w[0]) < (keys[w[1]], w[1]));
    }
    let same = vec![4u64; n];
    let order = insertion_order(&same);
    assert!(order.iter().enumerate().all(|(i, &x)| i == x));
}

#[test]
fn push_children_highest_octant_first() {
    let nd = TreeNode { children: [NONE, 5, NONE, 7, NONE, NONE, NONE, 9], particle: NONE, count: 3, depth: 0 };
    let mut stack = [0usize; STACK_CAPACITY];
    stack[0] = 42;
    let len = push_children(&nd, &mut stack, 1);
    assert_eq!(len, 4);
    assert_eq!(&stack[..4], &[42, 9, 7, 5]);
}

#[test]
fn push_children_drops_what_does_not_fit() {
    let nd = TreeNode { children: [1, 2, 3, NONE, NONE, NONE, NONE, NONE], particle: NONE, count: 3, depth: 0 };
    let mut stack = [0usize; STACK_CAPACITY];
    let len = push_children(&nd, &mut stack, STACK_CAPACITY - 2);
    assert_eq!(len, STACK_CAPACITY);
    assert_eq!(stack[STACK_CAPACITY - 2], 3);
    assert_eq!(stack[STACK_CAPACITY - 1], 2);
}

#[test]
fn empty_node_and_branched() {
    let nd = TreeNode::empty(4);
    assert_eq!(nd.depth, 4);
    assert_eq!(nd.count, 0);
    assert_eq!(nd.particle, NONE);
    assert!(!nd.branched());
}

#[test]
fn simulation_core_starts_empty() {
    let core = SimulationCore::new(&[0, 1, 1, 2], 3);
    assert_eq!(core.n(), 3);
    assert_eq!(core.graph().len(), 3);
    assert_eq!(core.graph().neighbors(1), &[0, 2]);
    assert_eq!(core.tree().len(), 1);
    assert_eq!(core.tree().node(0).count, 0);
}

fn sample_tree(n: usize) -> (LinearTree, Vec<u64>) {
    let mut codes = Vec::with_capacity(n);
    let mut state: u64 = 0x2545f4914f6cdd1d;
    for _ in 0..n {
        state ^= state << 13;
        state ^= state >> 7;
        state ^= state << 17;
        let mut octants = Vec::with_capacity(MAX_DEPTH);
        let mut s = state;
        for _ in 0..MAX_DEPTH {
            octants.push((s % 4) as u8);
            s /= 4;
        }
        codes.push(path_code(&octants));
    }
    let mut tree = LinearTree::new();
    tree.build_in_index_order(&codes);
    (tree, codes)
}

#[test]
fn split_nodes_conserve_mass() {
    let (tree, _) = sample_tree(300);
    for i in 0..tree.len() {
        let nd = tree.node(i);
        let sum: u32 = nd
            .children
            .iter()
            .filter(|&&c| c >= 0)
            .map(|&c| tree.node(c as usize).count)
            .sum();
        if (nd.depth as usize) < MAX_DEPTH && nd.count >= 2 {
            assert_eq!(sum, nd.count);
        } else {
            assert!(!nd.branched());
        }
    }
}

#[test]
fn children_follow_parents_one_level_down() {
    let (tree, _) = sample_tree(300);
    for i in 0..tree.len() {
        let nd = tree.node(i);
        assert!(nd.depth as usize <= MAX_DEPTH);
        for &c in nd.children.iter() {
            if c >= 0 {
                let c = c as usize;
                assert!(i < c && c < tree.len());
                assert_eq!(tree.node(c).depth, nd.depth + 1);
                assert!(tree.node(c).count >= 1);
            }
        }
    }
}

#[test]
fn node_count_is_bounded() {
    for n in [0usize, 1, 2, 17, 300] {
        let (tree, _) = sample_tree(n);
        assert!(tree.len() <= 1 + 17 * n);
        assert_eq!(tree.node(0).count as usize, n);
    }
}

#[test]
fn every_particle_rests_at_the_end_of_its_walk() {
    let (tree, codes) = sample_tree(300);
    for (p, &c) in codes.iter().enumerate() {
        let chain = tree.descend(c);
        let last = tree.node(*chain.last().unwrap());
        if chain.len() == MAX_DEPTH + 1 {
            assert_eq!(last.particle, MERGED);
        } else {
            assert_eq!(last.count, 1);
            assert_eq!(last.particle as usize, p);
        }
    }
}

#[test]
fn insert_counts_the_particle() {
    let codes = vec![code(&[1, 2]), code(&[1, 3]), code(&[6])];
    let mut grown = LinearTree::new();
    grown.reset(&codes);
    assert_eq!(grown.code_count(), 3);
    assert_eq!(grown.len(), 1);
    grown.insert(0);
    assert_eq!(grown.node(0).particle, 0);
    grown.insert(1);
    assert_eq!(grown.node(0).count, 2);
    grown.insert(2);
    assert_eq!(grown.node(0).count, 3);
    let mut all = LinearTree::new();
    all.build_in_index_order(&codes);
    let (mut a, mut b) = (Vec::new(), Vec::new());
    summaries(&grown, 0, &mut Vec::new(), &mut a);
    summaries(&all, 0, &mut Vec::new(), &mut b);
    assert_eq!(a, b);
}

#[test]
fn new_tree_has_an_empty_root() {
    let tree = LinearTree::new();
    assert_eq!(tree.len(), 1);
    let root = tree.node(0);
    assert_eq!(root.count, 0);
    assert_eq!(root.particle, NONE);
    assert_eq!(root.depth, 0);
    assert_eq!(root.children, [NONE; 8]);
}

#[test]
fn rebuild_root_holds_every_particle() {
    let codes = vec![code(&[3]), code(&[3, 1]), code(&[6, 6])];
    let mut tree = LinearTree::new();
    tree.build_in_index_order(&[code(&[1]), code(&[2])]);
    tree.rebuild(&codes, &[0, 0, 0]);
    assert_eq!(tree.node(0).count, 3);
    tree.rebuild(&[], &[]);
    assert_eq!(tree.len(), 1);
    assert_eq!(tree.node(0).count, 0);
}

#[test]
fn two_particle_split_numbers_displaced_cell_first() {
    let codes = vec![code(&[0]), code(&[7])];
    let mut tree = LinearTree::new();
    tree.reset(&codes);
    tree.insert(0);
    assert_eq!(tree.len(), 1);
    tree.insert(1);
    assert_eq!(tree.len(), 3);
    assert_eq!(tree.node(0).children, [1, -1, -1, -1, -1, -1, -1, 2]);
    assert_eq!(tree.node(0).count, 2);
    assert_eq!(tree.node(0).particle, NONE);
    assert_eq!(tree.node(1).particle, 0);
    assert_eq!(tree.node(1).depth, 1);
    assert_eq!(tree.node(2).particle, 1);
    assert_eq!(tree.node(2).depth, 1);
}

#[test]
fn arriving_particle_in_lower_octant_still_comes_second() {
    let codes = vec![code(&[7]), code(&[0])];
    let mut tree = LinearTree::new();
    tree.build_in_index_order(&codes);
    assert_eq!(tree.node(0).children, [2, -1, -1, -1, -1, -1, -1, 1]);
    assert_eq!(tree.node(1).particle, 0);
    assert_eq!(tree.node(2).particle, 1);
}

#[test]
fn coincident_pair_shares_the_minimum_cell() {
    let codes = vec![code(&[5, 5, 5]), code(&[5, 5, 5])];
    let mut tree = LinearTree::new();
    tree.build_in_index_order(&codes);
    assert_eq!(tree.len(), 18);
    for k in 0..17 {
        let nd = tree.node(k);
        assert_eq!(nd.count, 2);
        assert_eq!(nd.depth as usize, k);
        assert_eq!(nd.particle, NONE);
    }
    let last = tree.node(17);
    assert_eq!(last.depth, 17);
    assert_eq!(last.count, 2);
    assert_eq!(last.particle, MERGED);
    assert_eq!(last.children, [NONE; 8]);
    assert!(tree.len() <= 1 + 17 * 2);
}

#[test]
fn deepest_split_adds_eighteen_nodes_within_the_bound() {
    let mut a = vec![0u8; MAX_DEPTH];
    let mut b = vec![0u8; MAX_DEPTH];
    a[MAX_DEPTH - 1] = 1;
    b[MAX_DEPTH - 1] = 2;
    let codes = vec![path_code(&a), path_code(&b)];
    let mut tree = LinearTree::new();
    tree.reset(&codes);
    tree.insert(0);
    tree.insert(1);
    assert_eq!(tree.len(), 1 + 16 + 2);
    assert!(tree.len() <= 1 + 17 * 2);
    assert_eq!(tree.node(16).children[1], 17);
    assert_eq!(tree.node(16).children[2], 18);
    for i in [17, 18] {
        assert_eq!(tree.node(i).depth, 17);
        assert_eq!(tree.node(i).count, 1);
        assert_eq!(tree.node(i).particle, MERGED);
    }
}

fn same_nodes(a: &LinearTree, b: &LinearTree) -> bool {
    if a.len() != b.len() {
        return false;
    }
    (0..a.len()).all(|i| {
        let (x, y) = (a.node(i), b.node(i));
        x.children == y.children && x.particle == y.particle && x.count == y.count && x.depth == y.depth
    })
}

#[test]
fn repeated_rebuilds_give_equal_trees() {
    let (_, codes) = sample_tree(300);
    let keys: Vec<u64> = codes.iter().map(|c| c.rotate_left(7)).collect();
    let mut t1 = LinearTree::new();
    let mut t2 = LinearTree::new();
    t2.build_in_index_order(&codes[..40]);
    t1.rebuild(&codes, &keys);
    t2.rebuild(&codes, &keys);
    assert!(same_nodes(&t1, &t2));
    t2.rebuild(&codes, &keys);
    assert!(same_nodes(&t1, &t2));
}

#[test]
fn simulation_core_rebuilds_its_tree() {
    let mut core = SimulationCore::new(&[0, 1], 2);
    let codes = vec![code(&[1]), code(&[6])];
    core.rebuild_tree(&codes, &[0, 0]);
    assert_eq!(core.n(), 2);
    assert_eq!(core.graph().neighbors(0), &[1]);
    assert_eq!(core.tree().len(), 3);
    assert_eq!(core.tree().node(0).count, 2);
}
