use edgewise::{Graph, GraphError, Unweighted, Weighted, MAX_WEIGHT, MIN_WEIGHT};

fn u(t: u32) -> (u32, Unweighted) {
    (t, Unweighted(()))
}

fn fixture() -> Graph<Unweighted> {
    Graph::new(vec![
        vec![u(1), u(2), u(5)],
        vec![u(0), u(5)],
        vec![u(0)],
        vec![u(4)],
        vec![u(3)],
        vec![u(0)],
    ])
}

fn draws_all(n: usize, value: bool) -> Vec<Vec<bool>> {
    vec![vec![value; n]; n]
}

#[test]
fn bfs_lists_nodes_in_breadth_first_order() {
    assert_eq!(fixture().bfs(0).unwrap(), vec![0, 1, 2, 5]);
    assert_eq!(fixture().bfs(4).unwrap(), vec![4, 3]);
}

#[test]
fn bfs_layers_on_a_chain_with_shortcut() {
    // 0 -> 1 -> 2 -> 3 and 0 -> 3: node 3 is one edge away, so it comes before 2.
    let g = Graph::new(vec![vec![u(1), u(3)], vec![u(2)], vec![u(3)], vec![]]);
    assert_eq!(g.bfs(0).unwrap(), vec![0, 1, 3, 2]);
}

#[test]
fn dfs_follows_first_unvisited_edge() {
    assert_eq!(fixture().dfs(0).unwrap(), vec![0, 1, 5, 2]);
    let g = Graph::new(vec![vec![u(1), u(3)], vec![u(2)], vec![u(3)], vec![]]);
    assert_eq!(g.dfs(0).unwrap(), vec![0, 1, 2, 3]);
}

#[test]
fn traversals_agree_on_reached_nodes() {
    let g = fixture();
    for s in 0..6 {
        let mut b = g.bfs(s).unwrap();
        let mut d = g.dfs(s).unwrap();
        b.sort();
        d.sort();
        assert_eq!(b, d);
    }
}

#[test]
fn out_of_bounds_start_is_reported() {
    let g = fixture();
    assert_eq!(g.bfs(6), Err(GraphError::OutOfBoundsNode { node: 6 }));
    assert_eq!(g.dfs(6), Err(GraphError::OutOfBoundsNode { node: 6 }));
    let w: Graph<Weighted> = Graph::new(vec![vec![]; 6]);
    assert_eq!(w.dijkstra(6), Err(GraphError::OutOfBoundsNode { node: 6 }));
}

#[test]
fn empty_graph_has_no_start_node() {
    let g: Graph<Unweighted> = Graph::new(vec![]);
    assert_eq!(g.bfs(0), Err(GraphError::OutOfBoundsNode { node: 0 }));
    assert_eq!(g.dfs(0), Err(GraphError::OutOfBoundsNode { node: 0 }));
    assert!(g.edges().is_empty());
    assert_eq!(g.to_text(), "");
}

#[test]
fn out_of_range_edge_target_is_reported() {
    let g = Graph::new(vec![vec![u(1)], vec![u(7), u(9)], vec![u(8)]]);
    assert_eq!(g.bfs(0), Err(GraphError::OutOfBoundsNode { node: 7 }));
    assert_eq!(g.dfs(2), Err(GraphError::OutOfBoundsNode { node: 7 }));
    let w = Graph::new(vec![vec![(4, Weighted(1))], vec![]]);
    assert_eq!(w.dijkstra(1), Err(GraphError::OutOfBoundsNode { node: 4 }));
}

#[test]
fn dijkstra_reports_overflow() {
    let g = Graph::new(vec![
        vec![(1, Weighted(u32::MAX))],
        vec![(2, Weighted(1))],
        vec![],
    ]);
    assert_eq!(
        g.dijkstra(0),
        Err(GraphError::DistanceOverflow {
            node_from: 1,
            node_to: 2,
            current_distance: u32::MAX,
            edge_weight: 1,
        })
    );
    assert_eq!(g.dijkstra(1), Ok(vec![None, Some(0), Some(1)]));
}

#[test]
fn dijkstra_takes_cheaper_longer_route_and_parallel_edges() {
    let g = Graph::new(vec![
        vec![(1, Weighted(10)), (2, Weighted(1)), (1, Weighted(7))],
        vec![(1, Weighted(0))],
        vec![(1, Weighted(2))],
    ]);
    assert_eq!(g.dijkstra(0), Ok(vec![Some(0), Some(3), Some(1)]));
}

#[test]
fn edges_lists_in_adjacency_order_and_repeats() {
    let g = Graph::new(vec![
        vec![(2, Weighted(5)), (1, Weighted(3))],
        vec![],
        vec![(0, Weighted(9))],
    ]);
    let first: Vec<(u32, u32, Weighted)> = g.edges().into_iter().map(|(a, b, w)| (a, b, *w)).collect();
    let second: Vec<(u32, u32, Weighted)> = g.edges().into_iter().map(|(a, b, w)| (a, b, *w)).collect();
    assert_eq!(
        first,
        vec![(0, 2, Weighted(5)), (0, 1, Weighted(3)), (2, 0, Weighted(9))]
    );
    assert_eq!(first, second);
}

#[test]
fn text_form_of_unweighted_graph() {
    let g = Graph::new(vec![vec![u(1)], vec![u(0), u(12)], vec![], vec![], vec![], vec![], vec![], vec![], vec![], vec![], vec![], vec![], vec![u(1)]]);
    assert_eq!(g.to_text(), "0->1\n1->0\n1->12\n12->1\n");
}

#[test]
fn text_form_of_weighted_graph() {
    let g = Graph::new(vec![vec![(1, Weighted(10))], vec![(0, Weighted(345))]]);
    assert_eq!(g.to_text(), "0-(10)->1\n1-(345)->0\n");
}

#[test]
fn generator_without_draws_makes_no_edges() {
    let mut rng = rand::rng();
    let g: Graph<Weighted> = Graph::random_graph_from_draws(5, true, &draws_all(5, false), &mut rng);
    assert!(g.edges().is_empty());
    assert_eq!(g.bfs(4), Ok(vec![4]));
}

#[test]
fn generator_directed_full_includes_self_loops() {
    let mut rng = rand::rng();
    let g: Graph<Unweighted> = Graph::random_graph_from_draws(3, true, &draws_all(3, true), &mut rng);
    let pairs: Vec<(u32, u32)> = g.edges().into_iter().map(|(a, b, _)| (a, b)).collect();
    assert_eq!(
        pairs,
        vec![(0, 0), (0, 1), (0, 2), (1, 0), (1, 1), (1, 2), (2, 0), (2, 1), (2, 2)]
    );
}

#[test]
fn generator_undirected_full_mirrors_each_pair() {
    let mut rng = rand::rng();
    let g: Graph<Unweighted> = Graph::random_graph_from_draws(3, false, &draws_all(3, true), &mut rng);
    let pairs: Vec<(u32, u32)> = g.edges().into_iter().map(|(a, b, _)| (a, b)).collect();
    assert_eq!(pairs, vec![(0, 1), (0, 2), (1, 0), (1, 2), (2, 0), (2, 1)]);
}

#[test]
fn generator_undirected_reads_upper_pairs_only() {
    let mut rng = rand::rng();
    let mut draws = draws_all(3, false);
    draws[1][0] = true;
    draws[2][2] = true;
    draws[0][2] = true;
    let g: Graph<Weighted> = Graph::random_graph_from_draws(3, false, &draws, &mut rng);
    let e = g.edges();
    assert_eq!(e.len(), 2);
    assert_eq!((e[0].0, e[0].1), (0, 2));
    assert_eq!((e[1].0, e[1].1), (2, 0));
    assert_eq!(*e[0].2, *e[1].2);
}

#[test]
fn generator_weights_in_range_and_varied() {
    let mut rng = rand::rng();
    let g: Graph<Weighted> = Graph::random_graph_from_draws(12, true, &draws_all(12, true), &mut rng);
    let weights: Vec<u32> = g.edges().into_iter().map(|(_, _, w)| w.0).collect();
    assert_eq!(weights.len(), 144);
    assert!(weights.iter().all(|&w| (MIN_WEIGHT..=MAX_WEIGHT).contains(&w)));
    assert!(weights.iter().any(|&w| w != weights[0]));
}

#[test]
fn generator_undirected_weights_symmetric() {
    let mut rng = rand::rng();
    let g: Graph<Weighted> = Graph::random_graph_from_draws(8, false, &draws_all(8, true), &mut rng);
    let e = g.edges();
    for &(a, b, w) in &e {
        assert!(e.iter().any(|&(c, d, x)| c == b && d == a && x == w));
    }
}

#[test]
fn dfs_backtracks_to_open_nodes() {
    // 0 -> 1 -> 3 -> 2 and 0 -> 2: depth first reaches 2 through 3.
    let g = Graph::new(vec![vec![u(1), u(2)], vec![u(3)], vec![], vec![u(2)]]);
    assert_eq!(g.dfs(0).unwrap(), vec![0, 1, 3, 2]);
    assert_eq!(g.bfs(0).unwrap(), vec![0, 1, 2, 3]);
}
