use tw_algorithms::graph::adjlist::Graph;

#[test]
fn test_remove_vertex() {
    let mut g = Graph::new_complete(5);
    g.remove_vertex(2);

    assert_eq!(g, Graph::new_complete(4));
}

#[test]
fn test_min_degree_vertex() {
    let mut g = Graph::new(4);
    g.add_edge(0, 1);
    g.add_edge(0, 2);
    g.add_edge(1, 2);
    g.add_edge(2, 3);

    assert_eq!(g.min_degree_vertex(), 3);
}

#[test]
fn test_min_degree_neighbor() {
    let mut g = Graph::new(4);
    g.add_edge(0, 1);
    g.add_edge(0, 2);
    g.add_edge(1, 2);
    g.add_edge(2, 3);

    assert_eq!(g.min_degree_neighbor(1), 0);
}

#[test]
fn test_remove_vertex_neighbors() {
    let mut graph = Graph::new(5);
    graph.add_edge(0, 1);
    graph.add_edge(0, 2);
    graph.add_edge(1, 3);
    graph.add_edge(2, 4);

    let neighbors = graph.remove_vertex_neighbors(0).unwrap();

    assert_eq!(neighbors.len(), 2);
    assert!(neighbors.contains(&0));
    assert!(neighbors.contains(&1));

    assert_eq!(graph.degree(0), 1);
    assert_eq!(graph.degree(1), 1);

    assert!(graph.has_edge(0, 2));
    assert!(graph.has_edge(1, 3));
}

#[test]
fn constructors_list_neighbours_in_order() {
    let g = Graph::new_complete(4);
    assert_eq!(g.neighbors(2), Some(vec![0, 1, 3]));
    let p = Graph::new_path(3);
    assert_eq!(p.neighbors(0), Some(vec![1]));
    assert_eq!(p.neighbors(1), Some(vec![0, 2]));
    let c = Graph::new_cycle(4);
    assert_eq!(c.neighbors(0), Some(vec![1, 3]));
    assert_eq!(c.neighbors(2), Some(vec![1, 3]));
    assert_eq!(c.neighbors(3), Some(vec![2, 0]));
    let two = Graph::new_cycle(2);
    assert_eq!(two.neighbors(0), Some(vec![1]));
    assert_eq!(two.m(), 1);
}

#[test]
fn remove_edge_undoes_add_edge() {
    let mut g = Graph::new_path(4);
    let g0 = g.clone();
    assert!(g.add_edge(0, 3));
    assert!(g.remove_edge(0, 3));
    assert_eq!(g, g0);
    assert!(!g.remove_edge(0, 3));
    assert_eq!(g, g0);
}

#[test]
fn elimination_lists_each_fill_edge_once() {
    let mut g = Graph::new_cycle(4);
    let added = g.elim_vertex_edges(0);
    assert_eq!(added, vec![(0, 2)]);
    assert!(g.has_edge(0, 2));
    let mut k = Graph::new_complete(4);
    assert!(k.elim_vertex_edges(1).is_empty());
}

#[test]
fn elimination_adds_as_many_edges_as_the_fill_in() {
    let g = Graph::new_cycle(5);
    let count = g.fill_in_count_vertex(2);
    assert_eq!(count, 1);
    let mut h = g.clone();
    assert_eq!(h.elim_vertex_edges(2).len(), count);
    let mut star = Graph::new(4);
    star.add_edge(0, 1);
    star.add_edge(0, 2);
    star.add_edge(0, 3);
    let star_count = star.fill_in_count_vertex(0);
    assert_eq!(star_count, 3);
    assert_eq!(star.elim_vertex_edges(0).len(), star_count);
}

#[test]
fn both_eliminations_leave_the_same_lists() {
    let mut g = Graph::new_cycle(6);
    g.add_edge(0, 3);
    let mut h = g.clone();
    g.elim_vertex(3);
    h.elim_vertex_edges(3);
    assert_eq!(g, h);
    for v in 0..5 {
        assert_eq!(g.neighbors(v), h.neighbors(v));
    }
}

#[test]
fn a_loop_is_never_inserted() {
    let mut g = Graph::new_path(3);
    let g0 = g.clone();
    assert!(!g.add_edge(1, 1));
    assert_eq!(g, g0);
    let mut b = tw_algorithms::graph::bitset::Graph::new(3);
    assert!(!b.add_edge(2, 2));
    assert_eq!(b.m(), 0);
    assert!(!b.has_edge(2, 2));
}

#[test]
fn edge_count_bound() {
    assert_eq!(Graph::max_edge_count(0), None);
    assert_eq!(Graph::max_edge_count(1), Some(0));
    assert_eq!(Graph::max_edge_count(5), Some(10));
    assert_eq!(Graph::max_edge_count(usize::MAX), None);
}
