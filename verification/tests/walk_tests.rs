use force_rs::morton::{path_code, MAX_DEPTH};
use force_rs::tree::LinearTree;
use force_rs::walk::{ForceWalk, WALK_MAX};

fn code(prefix: &[u8]) -> u64 {
    let mut octants = prefix.to_vec();
    octants.resize(MAX_DEPTH, 0);
    path_code(&octants)
}

#[test]
fn walk_visits_children_in_octant_order() {
    let codes = vec![code(&[5]), code(&[2]), code(&[7])];
    let mut tree = LinearTree::new();
    tree.build_in_index_order(&codes);
    let mut walk = ForceWalk::new(&tree);
    assert_eq!(walk.pop(), Some(0));
    walk.open();
    let mut seen = Vec::new();
    while let Some(i) = walk.pop() {
        seen.push(tree.node(i).particle);
    }
    assert_eq!(seen, vec![1, 0, 2]);
}

#[test]
fn open_without_pop_does_nothing() {
    let codes = vec![code(&[5]), code(&[2])];
    let mut tree = LinearTree::new();
    tree.build_in_index_order(&codes);
    let mut walk = ForceWalk::new(&tree);
    assert_eq!(walk.pop(), Some(0));
    walk.open();
    walk.open();
    assert!(walk.pop().is_some());
    assert!(walk.pop().is_some());
    assert_eq!(walk.pop(), None);
    assert_eq!(walk.pop(), None);
}

#[test]
fn full_walk_visits_every_node_once() {
    // 8 particles per octant on several levels make a wide, deep tree.
    let mut codes = Vec::new();
    for a in 0..8u8 {
        for b in 0..8u8 {
            codes.push(code(&[a, b, 3]));
            codes.push(code(&[a, b, 4, 1]));
        }
    }
    codes.push(code(&[]));
    codes.push(code(&[]));
    let mut tree = LinearTree::new();
    tree.build_in_index_order(&codes);
    let mut walk = ForceWalk::new(&tree);
    let mut visited = vec![0u32; tree.len()];
    let mut pending = 1usize;
    let mut most = 1usize;
    while let Some(i) = walk.pop() {
        pending -= 1;
        visited[i] += 1;
        let node = tree.node(i);
        if node.branched() {
            walk.open();
            pending += node.children.iter().filter(|&&c| c >= 0).count();
            most = most.max(pending);
        }
    }
    assert!(visited.iter().all(|&v| v == 1));
    assert!(most <= WALK_MAX);
}

