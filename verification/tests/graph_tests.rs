use vertex_cover::graph::{FormatError, Graph};

fn pairs(g: &Graph) -> Vec<Vec<usize>> {
    g.edges.clone()
}

#[test]
fn new_with_nodes_is_edge_free() {
    let g = Graph::new_with_nodes(4);
    assert_eq!(g.nodes, 4);
    assert_eq!(g.edges.len(), 4);
    assert!(g.has_no_edges());
}

#[test]
fn from_edge_list_builds_symmetric_adjacency() {
    let list: Vec<(usize, usize)> = vec![(0, 1), (1, 2), (2, 3)];
    let g = Graph::from_edge_list(4, &list).unwrap();
    assert_eq!(g.nodes, 4);
    assert_eq!(g.edges[0], vec![1]);
    assert_eq!(g.edges[1], vec![0, 2]);
    assert_eq!(g.edges[2], vec![1, 3]);
    assert_eq!(g.edges[3], vec![2]);
}

#[test]
fn from_edge_list_ignores_duplicate_edges() {
    let list: Vec<(usize, usize)> = vec![(0, 1), (1, 0), (0, 1)];
    let g = Graph::from_edge_list(2, &list).unwrap();
    assert_eq!(g.edges[0], vec![1]);
    assert_eq!(g.edges[1], vec![0]);
}

#[test]
fn from_edge_list_rejects_out_of_range_id() {
    let list: Vec<(usize, usize)> = vec![(0, 1), (1, 5)];
    let r = Graph::from_edge_list(3, &list);
    assert_eq!(r.unwrap_err(), FormatError::IdOutOfRange);
}

#[test]
fn from_edge_list_rejects_self_loop() {
    let list: Vec<(usize, usize)> = vec![(0, 1), (2, 2)];
    let r = Graph::from_edge_list(3, &list);
    assert_eq!(r.unwrap_err(), FormatError::SelfLoop);
}

#[test]
fn add_edge_is_idempotent() {
    let mut g = Graph::new_with_nodes(3);
    g.add_edge((0, 2));
    let once = pairs(&g);
    g.add_edge((0, 2));
    g.add_edge((2, 0));
    assert_eq!(pairs(&g), once);
}

#[test]
fn add_then_remove_edge_round_trips() {
    let list: Vec<(usize, usize)> = vec![(0, 1), (1, 2)];
    let mut g = Graph::from_edge_list(4, &list).unwrap();
    let before = pairs(&g);
    g.add_edge((2, 3));
    g.remove_edge((2, 3));
    assert_eq!(pairs(&g), before);
}

#[test]
fn remove_edge_on_absent_pair_is_a_no_op() {
    let list: Vec<(usize, usize)> = vec![(0, 1)];
    let mut g = Graph::from_edge_list(3, &list).unwrap();
    let before = pairs(&g);
    g.remove_edge((1, 2));
    assert_eq!(pairs(&g), before);
}

#[test]
fn remove_node_isolates_without_renumbering() {
    let list: Vec<(usize, usize)> = vec![(0, 1), (1, 2), (2, 0)];
    let mut g = Graph::from_edge_list(3, &list).unwrap();
    g.remove_node(1);
    assert_eq!(g.nodes, 3);
    assert_eq!(g.edges[0], vec![2]);
    assert_eq!(g.edges[1], Vec::<usize>::new());
    assert_eq!(g.edges[2], vec![0]);
}

#[test]
fn remove_node_twice_equals_once() {
    let list: Vec<(usize, usize)> = vec![(0, 1), (1, 2), (2, 3), (3, 0)];
    let mut g = Graph::from_edge_list(4, &list).unwrap();
    g.remove_node(2);
    let once = pairs(&g);
    g.remove_node(2);
    assert_eq!(pairs(&g), once);
}

#[test]
fn duplicate_copies_all_lists() {
    let list: Vec<(usize, usize)> = vec![(0, 1), (1, 2)];
    let g = Graph::from_edge_list(3, &list).unwrap();
    let mut h = g.duplicate();
    assert_eq!(pairs(&h), pairs(&g));
    h.remove_node(1);
    assert_eq!(g.edges[1], vec![0, 2]);
}

#[test]
fn has_no_edges_sees_a_single_edge() {
    let mut g = Graph::new_with_nodes(5);
    assert!(g.has_no_edges());
    g.add_edge((3, 4));
    assert!(!g.has_no_edges());
}
