use force_rs::graph::{valid_endpoint_count, LinkGraph};

#[test]
fn neighbors_follow_link_order() {
    let links = [0u32, 1, 0, 2, 2, 1];
    let g = LinkGraph::new(&links, 3);
    assert_eq!(g.len(), 3);
    assert_eq!(g.neighbors(0), &[1, 2]);
    assert_eq!(g.neighbors(1), &[0, 2]);
    assert_eq!(g.neighbors(2), &[0, 1]);
    assert_eq!(g.degree(0), 2);
    assert_eq!(g.degree(1), 2);
    assert_eq!(g.degree(2), 2);
}

#[test]
fn out_of_range_pairs_and_trailing_entry_are_ignored() {
    let links = [0u32, 5, 1, 2, 7];
    let g = LinkGraph::new(&links, 3);
    assert_eq!(g.neighbors(0), &[] as &[u32]);
    assert_eq!(g.neighbors(1), &[2]);
    assert_eq!(g.neighbors(2), &[1]);
    assert_eq!(g.degree(0), 0);
}

#[test]
fn self_loop_counts_twice() {
    let links = [1u32, 1, 0, 1];
    let g = LinkGraph::new(&links, 2);
    assert_eq!(g.neighbors(1), &[1, 1, 0]);
    assert_eq!(g.degree(1), 3);
    assert_eq!(g.neighbors(0), &[1]);
}

#[test]
fn degrees_sum_to_twice_the_valid_links() {
    let links = [0u32, 1, 1, 2, 2, 3, 3, 0, 0, 2, 9, 9];
    let g = LinkGraph::new(&links, 4);
    let total: u32 = (0..4).map(|i| g.degree(i)).sum();
    assert_eq!(total, 10);
}

#[test]
fn neighbor_lists_are_symmetric() {
    let links = [0u32, 1, 1, 2, 2, 0, 0, 1, 3, 3];
    let g = LinkGraph::new(&links, 4);
    for i in 0..4u32 {
        for j in 0..4u32 {
            let a = g.neighbors(i as usize).iter().filter(|&&x| x == j).count();
            let b = g.neighbors(j as usize).iter().filter(|&&x| x == i).count();
            assert_eq!(a, b);
        }
    }
}

#[test]
fn empty_graph() {
    let g = LinkGraph::new(&[], 0);
    assert_eq!(g.len(), 0);
}

#[test]
fn neighbors_are_nodes() {
    let links = [0u32, 4, 4, 2, 9, 1, 3, 3, 2, 0];
    let g = LinkGraph::new(&links, 5);
    for i in 0..5 {
        assert!(g.neighbors(i).iter().all(|&x| (x as usize) < 5));
    }
    assert_eq!(g.neighbors(3), &[3, 3]);
    assert_eq!(g.neighbors(4), &[0, 2]);
}

#[test]
fn star_of_three_nodes() {
    // node 0 connected to 1 and 2
    let g = LinkGraph::new(&[0, 1, 0, 2], 3);
    assert_eq!(g.neighbors(0), &[1, 2]);
    assert_eq!(g.neighbors(1), &[0]);
    assert_eq!(g.neighbors(2), &[0]);
    assert_eq!(g.degree(0), 2);
}

#[test]
fn endpoint_count_counts_valid_pairs_twice() {
    assert_eq!(valid_endpoint_count(&[0, 1, 0, 2, 2, 1], 3), 6);
    assert_eq!(valid_endpoint_count(&[0, 5, 1, 2, 7], 3), 2);
    assert_eq!(valid_endpoint_count(&[1, 1, 0, 1], 2), 4);
    assert_eq!(valid_endpoint_count(&[], 4), 0);
    assert_eq!(valid_endpoint_count(&[3, 3], 3), 0);
}
