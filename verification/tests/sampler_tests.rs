use vertex_cover::graph::Graph;
use vertex_cover::reach::bfs_from;
use vertex_cover::sampler::{generate_random_walk, graph_from_walk, WalkRng};

fn two_components() -> Graph {
    // Component {0, 1} and component {2, 3, 4}.
    let list: Vec<(usize, usize)> = vec![(0, 1), (2, 3), (3, 4)];
    Graph::from_edge_list(5, &list).unwrap()
}

#[test]
fn bfs_visits_a_path_in_order() {
    let list: Vec<(usize, usize)> = vec![(0, 1), (1, 2), (2, 3)];
    let g = Graph::from_edge_list(4, &list).unwrap();
    assert_eq!(bfs_from(&g, 0), vec![0, 1, 2, 3]);
    assert_eq!(bfs_from(&g, 1), vec![1, 0, 2, 3]);
}

#[test]
fn bfs_stays_inside_the_component() {
    let g = two_components();
    assert_eq!(bfs_from(&g, 0), vec![0, 1]);
    assert_eq!(bfs_from(&g, 3), vec![3, 2, 4]);
}

#[test]
fn walk_of_length_zero_is_a_single_vertex() {
    let g = two_components();
    let mut rng = WalkRng::from_seed(7);
    let walk = generate_random_walk(&g, 0, &mut rng);
    assert_eq!(walk.len(), 1);
    assert!(walk[0] < 5);
    let sub = graph_from_walk(&walk, &g);
    assert_eq!(sub.nodes, 1);
    assert!(sub.has_no_edges());
}

#[test]
fn walk_on_an_isolated_vertex_stops_at_once() {
    let g = Graph::new_with_nodes(1);
    let mut rng = WalkRng::from_seed(3);
    let walk = generate_random_walk(&g, 10, &mut rng);
    assert_eq!(walk, vec![0]);
}

#[test]
fn exhausted_component_ends_the_walk_early() {
    let g = two_components();
    for seed in 0..20u64 {
        let mut rng = WalkRng::from_seed(seed);
        let walk = generate_random_walk(&g, 10, &mut rng);
        // Both components are smaller than the requested 11 vertices, so
        // the walk must stop early instead of resampling forever.
        assert!(walk.len() <= 3);
        if walk[0] < 2 {
            assert!(walk.len() <= 2);
        }
    }
}

#[test]
fn walk_vertices_are_distinct_and_linked() {
    let list: Vec<(usize, usize)> = vec![(0, 1), (1, 2), (2, 3), (3, 4), (4, 0), (1, 3)];
    let g = Graph::from_edge_list(5, &list).unwrap();
    let mut rng = WalkRng::from_seed(11);
    let walk = generate_random_walk(&g, 3, &mut rng);
    assert_eq!(walk.len(), 4);
    for i in 0..walk.len() {
        for j in 0..i {
            assert_ne!(walk[i], walk[j]);
        }
        if i > 0 {
            assert!((0..i).any(|j| g.edges[walk[j]].contains(&walk[i])));
        }
    }
}

#[test]
fn same_seed_reproduces_the_walk() {
    let g = two_components();
    let mut a = WalkRng::from_seed(42);
    let mut b = WalkRng::from_seed(42);
    assert_eq!(generate_random_walk(&g, 8, &mut a), generate_random_walk(&g, 8, &mut b));
}

#[test]
fn induced_subgraph_keeps_exactly_the_walk_edges() {
    let list: Vec<(usize, usize)> = vec![(0, 1), (1, 2), (2, 0), (2, 3)];
    let g = Graph::from_edge_list(4, &list).unwrap();
    // A fixed, connected, self-avoiding walk: 2, 0, 1.
    let walk: Vec<usize> = vec![2, 0, 1];
    let sub = graph_from_walk(&walk, &g);
    assert_eq!(sub.nodes, 3);
    // All three edges among {2, 0, 1} survive, renumbered.
    for a in 0..3usize {
        for b in 0..3usize {
            let expected = g.edges[walk[a]].contains(&walk[b]);
            assert_eq!(sub.edges[a].contains(&b), expected);
        }
    }
}

#[test]
fn sampled_subgraph_is_connected_from_zero() {
    let list: Vec<(usize, usize)> = vec![(0, 1), (1, 2), (2, 3), (3, 4), (4, 5), (5, 0), (1, 4)];
    let g = Graph::from_edge_list(6, &list).unwrap();
    for seed in 0..10u64 {
        let mut rng = WalkRng::from_seed(seed);
        for len in 0..6usize {
            let walk = generate_random_walk(&g, len, &mut rng);
            let sub = graph_from_walk(&walk, &g);
            assert_eq!(sub.nodes, walk.len());
            assert_eq!(bfs_from(&sub, 0).len(), sub.nodes);
        }
    }
}
