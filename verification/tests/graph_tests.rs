use vector_rs::graph::{select_neighbors, HnswGraph, NodeLinks};
use vector_rs::hnsw_config::HnswConfig;
use vector_rs::topk::SearchResult;
use vector_rs::visited::VisitedTracker;

/// Order key of a distance.
fn key(x: f32) -> u32 {
    let b = x.to_bits();
    if b & 0x8000_0000 != 0 {
        !b
    } else {
        b | 0x8000_0000
    }
}

fn line_dist(a: u32, b: u32) -> u32 {
    key(((a as f32) - (b as f32)).abs())
}

#[test]
fn test_node_links_creation() {
    let node = NodeLinks::new(3);
    assert_eq!(node.max_level(), 3);
    assert_eq!(node.layers.len(), 4);
}

#[test]
fn test_graph_add_edges_and_shrink() {
    let config = HnswConfig::new(2, 10, 10).with_m0(3);
    let mut graph = HnswGraph::new(config, 10);
    graph.init_node(0, 0);
    graph.init_node(1, 0);
    graph.init_node(2, 0);
    graph.init_node(3, 0);
    graph.init_node(4, 0);

    graph.add_edge(0, 1, 0, line_dist);
    graph.add_edge(0, 2, 0, line_dist);
    graph.add_edge(0, 3, 0, line_dist);
    graph.add_edge(0, 4, 0, line_dist);

    let neighbors_0 = graph.get_neighbors(0, 0);
    assert!(neighbors_0.len() <= 3, "neighbors must be <= m0: {:?}", neighbors_0);
    assert!(neighbors_0.contains(&1));
}

#[test]
fn test_graph_self_edge_prevention() {
    let config = HnswConfig::new(4, 10, 10);
    let mut graph = HnswGraph::new(config, 5);
    graph.init_node(0, 0);

    graph.add_edge(0, 0, 0, line_dist);

    let neighbors = graph.get_neighbors(0, 0);
    assert!(neighbors.is_empty(), "node must not have self-edge");
}

#[test]
fn test_graph_duplicate_edge_prevention() {
    let config = HnswConfig::new(4, 10, 10);
    let mut graph = HnswGraph::new(config, 5);
    graph.init_node(0, 0);
    graph.init_node(1, 0);

    graph.add_edge(0, 1, 0, line_dist);
    graph.add_edge(0, 1, 0, line_dist);

    let neighbors = graph.get_neighbors(0, 0);
    assert_eq!(neighbors.len(), 1);
    assert_eq!(neighbors[0], 1);
}

#[test]
fn test_graph_get_neighbors_non_existent() {
    let config = HnswConfig::new(4, 10, 10);
    let mut graph = HnswGraph::new(config, 5);
    graph.init_node(0, 1);

    assert!(graph.get_neighbors(99, 0).is_empty());
    assert!(graph.get_neighbors(0, 5).is_empty());
}

#[test]
fn test_graph_max_edges_for_layer() {
    let config = HnswConfig::new(16, 100, 50).with_m0(32);
    let graph = HnswGraph::new(config, 10);

    assert_eq!(graph.max_edges_for_layer(0), 32);
    assert_eq!(graph.max_edges_for_layer(1), 16);
    assert_eq!(graph.max_edges_for_layer(5), 16);
}

#[test]
fn test_graph_shrink_neighbors_without_heuristic() {
    let config = HnswConfig::new(2, 10, 10).with_m0(2).with_heuristic(false);
    let mut graph = HnswGraph::new(config, 10);
    graph.init_node(0, 0);
    graph.init_node(1, 0);
    graph.init_node(2, 0);
    graph.init_node(3, 0);

    graph.add_edge(0, 3, 0, line_dist);
    graph.add_edge(0, 1, 0, line_dist);
    graph.add_edge(0, 2, 0, line_dist);

    let neighbors = graph.get_neighbors(0, 0);
    assert_eq!(neighbors.len(), 2);
    assert!(neighbors.contains(&1));
    assert!(neighbors.contains(&2));
    assert!(!neighbors.contains(&3));
}

#[test]
fn init_node_grows_the_graph() {
    let mut graph = HnswGraph::new(HnswConfig::default(), 2);
    graph.init_node(5, 2);
    assert_eq!(graph.nodes.len(), 6);
    assert_eq!(graph.nodes[5].layers.len(), 3);
    assert_eq!(graph.nodes[3].layers.len(), 0);
    assert!(graph.get_neighbors(3, 0).is_empty());
}

#[test]
fn select_neighbors_without_heuristic_keeps_closest_in_order() {
    let cands = vec![
        SearchResult::new(7, key(3.0)),
        SearchResult::new(8, key(1.0)),
        SearchResult::new(9, key(2.0)),
        SearchResult::new(10, key(1.0)),
    ];
    let kept = select_neighbors(cands, 3, false, &line_dist);
    assert_eq!(kept, vec![8, 10, 9]);
}

#[test]
fn select_neighbors_with_heuristic_prefers_diverse() {
    // Candidates on a line, at distances 1, 2 and 3 from the base.
    let d = |a: u32, b: u32| line_dist(a, b);
    let cands = vec![
        SearchResult::new(1, key(1.0)),
        SearchResult::new(2, key(2.0)),
        SearchResult::new(3, key(3.0)),
    ];
    // 2 is at distance 1 from 1, not farther than its distance 2 from the
    // base, so it is skipped at first and only used to fill.
    let kept = select_neighbors(cands.clone(), 2, true, &d);
    assert_eq!(kept, vec![1, 2]);
    let kept_one = select_neighbors(cands, 1, true, &d);
    assert_eq!(kept_one, vec![1]);
    assert!(select_neighbors(Vec::new(), 3, true, &d).is_empty());
}

#[test]
fn links_stay_within_budget_after_many_edges() {
    let config = HnswConfig::new(2, 10, 10).with_m0(2);
    let mut graph = HnswGraph::new(config, 8);
    for i in 0..8 {
        graph.init_node(i, 1);
    }
    for a in 0..8u32 {
        for b in 0..8u32 {
            graph.add_edge(a, b, 0, line_dist);
            graph.add_edge(a, b, 1, line_dist);
        }
    }
    for i in 0..8u32 {
        for l in 0..2usize {
            let n = graph.get_neighbors(i, l);
            assert!(n.len() <= 2);
            assert!(!n.contains(&i));
            let mut sorted = n.clone();
            sorted.sort();
            sorted.dedup();
            assert_eq!(sorted.len(), n.len());
        }
    }
}

#[test]
fn ids_valid_rejects_dangling_links() {
    let mut g = HnswGraph::new(HnswConfig::default(), 3);
    g.init_node(0, 0);
    g.init_node(1, 0);
    g.init_node(2, 0);
    g.add_edge(0, 1, 0, |a: u32, b: u32| line_dist(a, b));
    g.entry_point = Some(0);
    assert!(g.ids_valid());
    g.nodes[2].layers[0].push(7);
    assert!(!g.ids_valid());
    g.nodes[2].layers[0].clear();
    assert!(g.ids_valid());
    g.entry_point = Some(3);
    assert!(!g.ids_valid());
}

#[test]
fn inserted_node_links_to_selected_hits() {
    let config = HnswConfig::new(4, 10, 10).with_m0(8).with_heuristic(false);
    let mut graph = HnswGraph::new(config, 4);
    let mut tracker = VisitedTracker::new(4);
    let dist = |a: u32, b: u32| line_dist(a, b);
    for id in 0u32..4 {
        graph.init_node(id, 0);
        graph.insert_node(id, 0, &mut tracker, &dist);
    }
    // Node 3 was linked last: its list holds the others, closest first.
    assert_eq!(graph.get_neighbors(3, 0), vec![2, 1, 0]);
    assert_eq!(graph.get_neighbors(0, 0), vec![1, 2, 3]);
    assert_eq!(graph.entry_point, Some(0));
    assert_eq!(graph.num_nodes, 4);
}

#[test]
fn inserted_node_with_few_links_keeps_the_closest() {
    let config = HnswConfig::new(1, 10, 10).with_m0(1).with_heuristic(false);
    let mut graph = HnswGraph::new(config, 3);
    let mut tracker = VisitedTracker::new(3);
    let dist = |a: u32, b: u32| line_dist(a, b);
    for id in 0u32..3 {
        graph.init_node(id, 0);
        graph.insert_node(id, 0, &mut tracker, &dist);
    }
    assert_eq!(graph.get_neighbors(2, 0), vec![1]);
}

#[test]
fn narrow_beam_walks_a_chain_to_the_closest_node() {
    let config = HnswConfig::new(2, 10, 10).with_heuristic(false);
    let mut graph = HnswGraph::new(config, 5);
    let dist = |a: u32, b: u32| line_dist(a, b);
    for id in 0u32..5 {
        graph.init_node(id, 0);
    }
    for id in 0u32..4 {
        graph.add_edge(id, id + 1, 0, dist);
    }
    let mut tracker = VisitedTracker::new(5);
    let to_four = |x: u32| line_dist(x, 4);
    let hits = vector_rs::hnsw_search::search_layer(&graph, &vec![0], 1, 0, 5, &mut tracker, &to_four);
    assert_eq!(hits.iter().map(|h| h.id).collect::<Vec<_>>(), vec![4]);
    let wide = vector_rs::hnsw_search::search_layer(&graph, &vec![0], 3, 0, 5, &mut tracker, &to_four);
    assert_eq!(wide.iter().map(|h| h.id).collect::<Vec<_>>(), vec![4, 3, 2]);
}

#[test]
fn greedy_routing_stops_where_no_neighbor_is_closer() {
    let config = HnswConfig::new(2, 10, 10);
    let mut graph = HnswGraph::new(config, 4);
    let dist = |a: u32, b: u32| line_dist(a, b);
    for id in 0u32..4 {
        graph.init_node(id, 1);
    }
    graph.add_edge(0, 1, 1, dist);
    graph.add_edge(1, 2, 1, dist);
    let to_three = |x: u32| line_dist(x, 3);
    let start = SearchResult::new(0, to_three(0));
    let end = vector_rs::hnsw_search::greedy_descend(&graph, start, 1, 1, &to_three);
    // Node 3 is not linked on layer 1, so routing ends at node 2.
    assert_eq!(end.id, 2);
    assert_eq!(end.score_key, to_three(2));
}

/// Positions of a small 2-d point set: the base, a near point, a point
/// right beside it, and one off to the side.
fn plane(id: u32) -> [f32; 2] {
    match id {
        0 => [0.0, 0.0],
        1 => [1.0, 0.0],
        2 => [1.1, 0.0],
        _ => [0.0, 1.5],
    }
}

fn plane_dist(a: u32, b: u32) -> u32 {
    let (p, q) = (plane(a), plane(b));
    key((p[0] - q[0]) * (p[0] - q[0]) + (p[1] - q[1]) * (p[1] - q[1]))
}

fn shrunk_list(use_heuristic: bool) -> Vec<u32> {
    let config = HnswConfig::new(2, 10, 10).with_m0(2).with_heuristic(use_heuristic);
    let mut graph = HnswGraph::new(config, 4);
    for id in 0u32..4 {
        graph.init_node(id, 0);
    }
    graph.add_directed_edge(0, 1, 0, &plane_dist);
    graph.add_directed_edge(0, 2, 0, &plane_dist);
    graph.add_directed_edge(0, 3, 0, &plane_dist);
    graph.get_neighbors(0, 0)
}

#[test]
fn shrinking_with_the_heuristic_keeps_diverse_neighbors() {
    // Point 2 sits next to point 1, so the heuristic passes it over for 3.
    assert_eq!(shrunk_list(true), vec![1, 3]);
    assert_eq!(shrunk_list(false), vec![1, 2]);
}
