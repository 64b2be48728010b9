use vertex_cover::cover::verify_vertex_cover;
use vertex_cover::graph::Graph;
use vertex_cover::heuristics::{greedy_vertex_cover_deg, greedy_vertex_cover_probabilities,
    VertexCover};

fn path4() -> Graph {
    let list: Vec<(usize, usize)> = vec![(0, 1), (1, 2), (2, 3)];
    Graph::from_edge_list(4, &list).unwrap()
}

fn star(leaves: usize) -> Graph {
    let mut list: Vec<(usize, usize)> = Vec::new();
    for leaf in 1..=leaves {
        list.push((0, leaf));
    }
    Graph::from_edge_list(leaves + 1, &list).unwrap()
}

#[test]
fn verify_accepts_a_real_cover() {
    let g = path4();
    assert!(verify_vertex_cover(&vec![1, 2], &g));
    assert!(verify_vertex_cover(&vec![0, 1, 2, 3], &g));
}

#[test]
fn verify_rejects_an_uncovered_edge() {
    let g = path4();
    assert!(!verify_vertex_cover(&vec![0, 3], &g));
    assert!(!verify_vertex_cover(&vec![], &g));
}

#[test]
fn verify_accepts_anything_on_an_edgeless_graph() {
    let g = Graph::new_with_nodes(3);
    assert!(verify_vertex_cover(&vec![], &g));
}

#[test]
fn verify_does_not_mutate_the_graph() {
    let g = path4();
    let before = g.edges.clone();
    verify_vertex_cover(&vec![1], &g);
    assert_eq!(g.edges, before);
}

#[test]
fn degree_heuristic_on_star_returns_one() {
    for leaves in 1..6 {
        let vc = VertexCover::new(String::from("star"), star(leaves));
        assert_eq!(greedy_vertex_cover_deg(&vc), 1);
    }
}

#[test]
fn degree_heuristic_on_path_of_four_returns_two() {
    let vc = VertexCover::new(String::from("path"), path4());
    assert_eq!(greedy_vertex_cover_deg(&vc), 2);
}

#[test]
fn probability_heuristic_follows_good_scores() {
    let mut vc = VertexCover::new(String::from("path"), path4());
    vc.probabilities = vec![(0, 10), (1, 90), (2, 80), (3, 5)];
    assert_eq!(greedy_vertex_cover_probabilities(&vc), 2);
}

#[test]
fn probability_heuristic_with_equal_scores_still_covers() {
    let mut vc = VertexCover::new(String::from("path"), path4());
    vc.probabilities = vec![(0, 7), (1, 7), (2, 7), (3, 7)];
    let size = greedy_vertex_cover_probabilities(&vc);
    assert!(size >= 2 && size <= 4);
}

#[test]
fn heuristic_covers_are_verified_on_a_dense_graph() {
    let list: Vec<(usize, usize)> = vec![(0, 1), (0, 2), (0, 3), (1, 2), (1, 3), (2, 3), (3, 4)];
    let g = Graph::from_edge_list(5, &list).unwrap();
    let mut vc = VertexCover::new(String::from("dense"), g);
    vc.probabilities = vec![(4, 1), (3, 2), (2, 3), (1, 4), (0, 5)];
    let by_deg = greedy_vertex_cover_deg(&vc);
    let by_prob = greedy_vertex_cover_probabilities(&vc);
    assert!(by_deg >= 3 && by_deg <= 5);
    assert!(by_prob >= 3 && by_prob <= 5);
}

#[test]
fn degree_snapshot_is_taken_at_construction() {
    let vc = VertexCover::new(String::from("path"), path4());
    assert_eq!(vc.degrees, vec![(0, 1), (1, 2), (2, 2), (3, 1)]);
    assert!(vc.cover.is_empty());
    assert!(vc.probabilities.is_empty());
    assert_eq!(vc.name, "path");
}
