use std::collections::HashSet;

use tw_algorithms::graph::{adjlist, bitset, Graph};
use tw_algorithms::treewidth::exact::{
    all_connected_component_bitset, compute_q, compute_q_bitset, connected_component,
    connected_component_bitset, dynamic_prog, is_reachable_in_subset,
    improved_rec, is_reachable_in_subset_bitset, rec,
};
use tw_algorithms::utils::bitset::BitSet;

fn bitset_from(n: usize, vertices: &[usize]) -> BitSet {
    let mut bs = BitSet::new(n);
    for &v in vertices {
        bs.insert(v);
    }
    bs
}

#[test]
fn test_connected_component() {
    let mut g = adjlist::Graph::new(5);
    g.add_edge(0, 1);
    g.add_edge(1, 2);
    g.add_edge(3, 4);
    let mut vertices: HashSet<usize> = vec![0, 1, 3, 4].into_iter().collect();

    let cc_0 = connected_component(0, &g, &vertices);
    assert_eq!(cc_0, vec![0, 1].into_iter().collect());

    vertices.insert(2);

    let cc_0 = connected_component(0, &g, &vertices);
    assert_eq!(cc_0, vec![0, 1, 2].into_iter().collect());

    let cc_3 = connected_component(3, &g, &vertices);
    assert_eq!(cc_3, vec![3, 4].into_iter().collect());
}

#[test]
fn test_is_reachable_in_subset() {
    let mut g = adjlist::Graph::new(5);
    g.add_edge(0, 1);
    g.add_edge(1, 2);
    g.add_edge(3, 4);

    assert!(is_reachable_in_subset(2, &g, &vec![0, 1].into_iter().collect()));
    assert!(!is_reachable_in_subset(2, &g, &vec![3, 4].into_iter().collect()));
}

#[test]
fn test_compute_q() {
    let mut g = adjlist::Graph::new(5);
    g.add_edge(0, 1);
    g.add_edge(1, 2);
    g.add_edge(3, 4);

    // Vertices 3 and 4 are not connected to the component {0,1,2}
    let subset: HashSet<usize> = vec![0, 1].into_iter().collect();
    let q_value = compute_q(2, &g, &subset);
    assert_eq!(q_value, 0);

    // Vertex 4 is not connected to the component {0,1,2}
    let subset: HashSet<usize> = vec![0, 1, 3].into_iter().collect();
    let q_value = compute_q(2, &g, &subset);
    assert_eq!(q_value, 0);

    // Vertex 0 is connected to the component {1,2}, but 3 and 4 are not.
    let subset: HashSet<usize> = vec![1].into_iter().collect();
    let q_value = compute_q(2, &g, &subset);
    assert_eq!(q_value, 1);
}

#[test]
fn test_connected_component_bitset() {
    let mut g = bitset::Graph::new(5);
    g.add_edge(0, 1);
    g.add_edge(1, 2);
    g.add_edge(3, 4);

    let mut vertices = bitset_from(5, &[0, 1, 3, 4]);

    assert_eq!(connected_component_bitset(0, &g, &vertices), bitset_from(5, &[0, 1]));

    vertices.insert(2);

    assert_eq!(connected_component_bitset(0, &g, &vertices), bitset_from(5, &[0, 1, 2]));

    assert_eq!(connected_component_bitset(3, &g, &vertices), bitset_from(5, &[3, 4]));
}

#[test]
fn test_is_reachable_in_subset_bitset() {
    let mut g = bitset::Graph::new(5);
    g.add_edge(0, 1);
    g.add_edge(1, 2);
    g.add_edge(3, 4);

    assert!(is_reachable_in_subset_bitset(2, &g, &bitset_from(5, &[0, 1])));

    assert!(!is_reachable_in_subset_bitset(2, &g, &bitset_from(5, &[3, 4])));
}

#[test]
fn test_compute_q_bitset() {
    let mut g = bitset::Graph::new(5);
    g.add_edge(0, 1);
    g.add_edge(1, 2);
    g.add_edge(3, 4);

    assert_eq!(compute_q_bitset(2, &g, &bitset_from(5, &[0, 1])), 0);

    assert_eq!(compute_q_bitset(2, &g, &bitset_from(5, &[0, 1, 3])), 0);

    assert_eq!(compute_q_bitset(2, &g, &bitset_from(5, &[1])), 1);
}

#[test]
fn test_all_connected_component_bitset() {
    let mut g = bitset::Graph::new(6);
    g.add_edge(0, 1);
    g.add_edge(1, 2);
    g.add_edge(3, 4);

    let subset = bitset_from(6, &[0, 1, 2, 3, 4, 5]);

    let mut components = all_connected_component_bitset(&g, &subset);

    components.sort_by_key(|c| c.first_bit().unwrap_or(usize::MAX));

    assert_eq!(components.len(), 3);
    assert_eq!(components[0], bitset_from(6, &[0, 1, 2]));
    assert_eq!(components[1], bitset_from(6, &[3, 4]));
    assert_eq!(components[2], bitset_from(6, &[5]));
}

#[test]
fn dynamic_prog_test_treewidth() {
    let g = Graph::AdjList(adjlist::Graph::new_cycle(3));
    assert_eq!(dynamic_prog::treewidth(&g), 2);

    let g = Graph::AdjList(adjlist::Graph::new_path(4));
    assert_eq!(dynamic_prog::treewidth(&g), 1);

    let g = Graph::AdjList(adjlist::Graph::new_cycle(5));
    assert_eq!(dynamic_prog::treewidth(&g), 2);

    let g = Graph::AdjList(adjlist::Graph::new_complete(4));
    assert_eq!(dynamic_prog::treewidth(&g), 3);
}

#[test]
fn dynamic_prog_test_treewidth_vec() {
    let g = Graph::AdjList(adjlist::Graph::new_cycle(3));
    assert_eq!(dynamic_prog::treewidth(&g), 2);

    let g = Graph::AdjList(adjlist::Graph::new_path(4));
    assert_eq!(dynamic_prog::treewidth(&g), 1);

    let g = Graph::AdjList(adjlist::Graph::new_cycle(5));
    assert_eq!(dynamic_prog::treewidth(&g), 2);

    let g = Graph::AdjList(adjlist::Graph::new_complete(4));
    assert_eq!(dynamic_prog::treewidth(&g), 3);
}

#[test]
fn dynamic_prog_test_treewidth_bitset() {
    let g = Graph::BitSet(bitset::Graph::new_cycle(3));
    assert_eq!(dynamic_prog::treewidth(&g), 2);

    let g = Graph::BitSet(bitset::Graph::new_path(4));
    assert_eq!(dynamic_prog::treewidth(&g), 1);

    let g = Graph::BitSet(bitset::Graph::new_cycle(5));
    assert_eq!(dynamic_prog::treewidth(&g), 2);

    let g = Graph::BitSet(bitset::Graph::new_complete(4));
    assert_eq!(dynamic_prog::treewidth(&g), 3);
}

#[test]
fn rec_test_treewidth_vec() {
    let g = Graph::AdjList(adjlist::Graph::new_cycle(3));
    assert_eq!(rec::treewidth(&g), 2);

    let g = Graph::AdjList(adjlist::Graph::new_path(4));
    assert_eq!(rec::treewidth(&g), 1);

    let g = Graph::AdjList(adjlist::Graph::new_cycle(5));
    assert_eq!(rec::treewidth(&g), 2);

    let g = Graph::AdjList(adjlist::Graph::new_complete(4));
    assert_eq!(rec::treewidth(&g), 3);
}

#[test]
fn rec_test_treewidth_bitset() {
    let g = Graph::BitSet(bitset::Graph::new_cycle(3));
    assert_eq!(rec::treewidth(&g), 2);

    let g = Graph::BitSet(bitset::Graph::new_path(4));
    assert_eq!(rec::treewidth(&g), 1);

    let g = Graph::BitSet(bitset::Graph::new_cycle(5));
    assert_eq!(rec::treewidth(&g), 2);

    let g = Graph::BitSet(bitset::Graph::new_complete(4));
    assert_eq!(rec::treewidth(&g), 3);
}

#[test]
fn test_treewidth_newbitset() {
    let g = Graph::BitSet(bitset::Graph::new_cycle(3));
    assert_eq!(rec::treewidth(&g), 2);

    let g = Graph::BitSet(bitset::Graph::new_path(4));
    assert_eq!(rec::treewidth(&g), 1);

    let g = Graph::BitSet(bitset::Graph::new_cycle(5));
    assert_eq!(rec::treewidth(&g), 2);

    let g = Graph::BitSet(bitset::Graph::new_complete(4));
    assert_eq!(rec::treewidth(&g), 3);
}

#[test]
fn rec_test_treewidth() {
    let g = Graph::AdjList(adjlist::Graph::new_cycle(3));
    assert_eq!(rec::treewidth(&g), 2);

    let g = Graph::AdjList(adjlist::Graph::new_path(4));
    assert_eq!(rec::treewidth(&g), 1);

    let g = Graph::AdjList(adjlist::Graph::new_cycle(5));
    assert_eq!(rec::treewidth(&g), 2);

    let g = Graph::AdjList(adjlist::Graph::new_complete(4));
    assert_eq!(rec::treewidth(&g), 3);
}

#[test]
fn improved_rec_test_treewidth_vec() {
    let g = Graph::AdjList(adjlist::Graph::new_cycle(3));
    assert_eq!(improved_rec::treewidth(&g), 2);

    let g = Graph::AdjList(adjlist::Graph::new_path(4));
    assert_eq!(improved_rec::treewidth(&g), 1);

    let g = Graph::AdjList(adjlist::Graph::new_cycle(5));
    assert_eq!(improved_rec::treewidth(&g), 2);

    let g = Graph::AdjList(adjlist::Graph::new_complete(4));
    assert_eq!(improved_rec::treewidth(&g), 3);
}

#[test]
fn improved_rec_test_treewidth_bitset() {
    let g = Graph::BitSet(bitset::Graph::new_cycle(3));
    assert_eq!(improved_rec::treewidth(&g), 2);

    let g = Graph::BitSet(bitset::Graph::new_path(4));
    assert_eq!(improved_rec::treewidth(&g), 1);

    let g = Graph::BitSet(bitset::Graph::new_cycle(5));
    assert_eq!(improved_rec::treewidth(&g), 2);

    let g = Graph::BitSet(bitset::Graph::new_complete(4));
    assert_eq!(improved_rec::treewidth(&g), 3);
}
