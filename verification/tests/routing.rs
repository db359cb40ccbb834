use osm_router::graph::Node;
use osm_router::osm_graph::{Edge, OSMGraph};
use osm_router::route_calculation::dijkstra;
use osm_router::tags::Tags;

fn arc(from: i64, to: i64, weight: u64) -> Edge {
    Edge::new(from, to, weight, weight, 0, vec![from, to], 1)
}

fn add(graph: &mut OSMGraph, edge: Edge) {
    graph.add_edge(edge.clone());
    graph.add_edge_from_node(edge.from, edge);
}

fn both_ways(graph: &mut OSMGraph, a: i64, b: i64, weight: u64) {
    add(graph, arc(a, b, weight));
    add(graph, arc(b, a, weight));
}

fn with_nodes(ids: &[i64]) -> OSMGraph {
    let mut graph = OSMGraph::new();
    for id in ids {
        graph.add_node(&Node::new(*id, 0, *id as i32, Tags::new()));
    }
    graph
}

fn line() -> OSMGraph {
    let mut graph = with_nodes(&[1, 2, 3, 4, 5]);
    both_ways(&mut graph, 1, 2, 1);
    both_ways(&mut graph, 2, 3, 1);
    both_ways(&mut graph, 3, 4, 3);
    both_ways(&mut graph, 4, 5, 2);
    graph
}

fn total(edges: &Vec<Edge>) -> u64 {
    edges.iter().map(|e| e.weight).sum()
}

fn found(route: (Option<Vec<i64>>, Option<Vec<Edge>>)) -> (Vec<i64>, Vec<Edge>) {
    (route.0.unwrap(), route.1.unwrap())
}

#[test]
fn shortest_route_along_a_line() {
    let graph = line();
    let (nodes, edges) = found(dijkstra(&graph, &1, &4));
    assert_eq!(nodes, vec![1, 2, 3, 4]);
    assert_eq!(total(&edges), 5);
    assert_eq!(edges, vec![arc(1, 2, 1), arc(2, 3, 1), arc(3, 4, 3)]);
}

#[test]
fn route_nodes_are_the_ends_of_the_edges() {
    let graph = line();
    let (nodes, edges) = found(dijkstra(&graph, &2, &5));
    assert_eq!(nodes.len(), edges.len() + 1);
    assert_eq!(nodes[0], 2);
    for (i, edge) in edges.iter().enumerate() {
        assert_eq!(edge.to, nodes[i + 1]);
        if i > 0 {
            assert_eq!(edge.from, edges[i - 1].to);
        }
    }
    assert_eq!(nodes, vec![2, 3, 4, 5]);
    assert_eq!(total(&edges), 6);
}

#[test]
fn no_route_between_separate_parts() {
    let mut graph = with_nodes(&[1, 2, 3, 4]);
    both_ways(&mut graph, 1, 2, 1);
    both_ways(&mut graph, 3, 4, 1);
    let route = dijkstra(&graph, &1, &3);
    assert!(route.0.is_none());
    assert!(route.1.is_none());
    let back = dijkstra(&graph, &4, &2);
    assert!(back.0.is_none() && back.1.is_none());
}

#[test]
fn no_route_in_an_empty_graph() {
    let graph = OSMGraph::new();
    let route = dijkstra(&graph, &1, &2);
    assert!(route.0.is_none() && route.1.is_none());
}

#[test]
fn no_route_from_or_to_a_node_without_edges() {
    let mut graph = with_nodes(&[1, 2, 3]);
    both_ways(&mut graph, 1, 2, 1);
    let from = dijkstra(&graph, &3, &1);
    assert!(from.0.is_none() && from.1.is_none());
    let to = dijkstra(&graph, &1, &3);
    assert!(to.0.is_none() && to.1.is_none());
}

#[test]
fn no_route_against_a_one_way() {
    let mut graph = with_nodes(&[1, 2, 3, 4]);
    add(&mut graph, arc(1, 2, 4));
    add(&mut graph, arc(2, 3, 4));
    add(&mut graph, arc(3, 4, 4));
    let (nodes, edges) = found(dijkstra(&graph, &1, &4));
    assert_eq!((nodes, total(&edges)), (vec![1, 2, 3, 4], 12));
    let route = dijkstra(&graph, &4, &1);
    assert!(route.0.is_none() && route.1.is_none());
}

#[test]
fn a_route_to_the_start_has_no_edges() {
    let graph = line();
    let (nodes, edges) = found(dijkstra(&graph, &3, &3));
    assert_eq!(nodes, vec![3]);
    assert!(edges.is_empty());
}

#[test]
fn the_lighter_of_two_routes_is_taken() {
    let mut graph = with_nodes(&[1, 2, 3, 4]);
    add(&mut graph, arc(1, 2, 1));
    add(&mut graph, arc(2, 4, 5));
    add(&mut graph, arc(1, 3, 2));
    add(&mut graph, arc(3, 4, 2));
    let (nodes, edges) = found(dijkstra(&graph, &1, &4));
    assert_eq!(nodes, vec![1, 3, 4]);
    assert_eq!(total(&edges), 4);
}

#[test]
fn a_cost_found_first_is_improved_later() {
    let mut graph = with_nodes(&[1, 2, 3, 4]);
    add(&mut graph, arc(1, 3, 10));
    add(&mut graph, arc(1, 2, 1));
    add(&mut graph, arc(2, 3, 1));
    add(&mut graph, arc(3, 4, 1));
    let (nodes, edges) = found(dijkstra(&graph, &1, &4));
    assert_eq!(nodes, vec![1, 2, 3, 4]);
    assert_eq!(total(&edges), 3);
}

#[test]
fn edges_without_weight_are_followed() {
    let mut graph = with_nodes(&[1, 2, 3]);
    both_ways(&mut graph, 1, 2, 0);
    both_ways(&mut graph, 2, 3, 0);
    let (nodes, edges) = found(dijkstra(&graph, &1, &3));
    assert_eq!(nodes, vec![1, 2, 3]);
    assert_eq!(total(&edges), 0);
}

#[test]
fn heaviest_edges_do_not_overflow_the_cost() {
    let mut graph = with_nodes(&[1, 2, 3, 4]);
    add(&mut graph, arc(1, 2, u64::MAX));
    add(&mut graph, arc(2, 3, u64::MAX));
    add(&mut graph, arc(3, 4, u64::MAX));
    let (nodes, edges) = found(dijkstra(&graph, &1, &4));
    assert_eq!(nodes, vec![1, 2, 3, 4]);
    assert_eq!(edges.len(), 3);
}

#[test]
fn a_search_from_inside_an_edge_sets_out_from_its_first_node() {
    let mut graph = with_nodes(&[1, 2, 3, 4]);
    add(&mut graph, Edge::new(1, 3, 2, 2, 0, vec![1, 2, 3], 1));
    add(&mut graph, Edge::new(3, 1, 2, 2, 0, vec![3, 2, 1], 1));
    both_ways(&mut graph, 3, 4, 5);
    let (nodes, edges) = found(dijkstra(&graph, &2, &4));
    assert_eq!(nodes, vec![2, 3, 4]);
    assert_eq!(total(&edges), 7);
    assert_eq!(edges[0].nodes_ids, vec![1, 2, 3]);
}

#[test]
fn a_search_for_a_node_inside_an_edge_ends_where_that_edge_ends() {
    let mut graph = with_nodes(&[1, 2, 3, 4]);
    both_ways(&mut graph, 4, 1, 5);
    add(&mut graph, Edge::new(1, 3, 2, 2, 0, vec![1, 2, 3], 1));
    add(&mut graph, Edge::new(3, 1, 2, 2, 0, vec![3, 2, 1], 1));
    let (nodes, edges) = found(dijkstra(&graph, &4, &2));
    assert_eq!(nodes, vec![4, 1, 3]);
    assert_eq!(total(&edges), 7);
}

#[test]
fn a_search_accepts_the_end_of_the_first_edge_through_the_goal() {
    let graph = line();
    let (nodes, edges) = found(dijkstra(&graph, &4, &1));
    assert_eq!(nodes, vec![4, 3, 2]);
    assert_eq!(total(&edges), 4);
}

#[test]
fn a_search_follows_the_index_and_not_the_flat_list() {
    let mut graph = with_nodes(&[1, 2, 3]);
    graph.add_edge(arc(1, 2, 1));
    graph.add_edge(arc(2, 3, 1));
    graph.add_edge_from_node(1, arc(1, 2, 1));
    let route = dijkstra(&graph, &1, &3);
    assert!(route.0.is_none() && route.1.is_none());
    graph.add_edge_from_node(2, arc(2, 3, 1));
    let (nodes, _) = found(dijkstra(&graph, &1, &3));
    assert_eq!(nodes, vec![1, 2, 3]);
}

/// A stream of numbers that looks random and is the same on every run.
fn next(seed: &mut u64) -> u64 {
    *seed = seed.wrapping_mul(6364136223846793005).wrapping_add(1442695040888963407);
    *seed >> 33
}

/// The least weight of a walk from `anchor` to each node, by relaxing every
/// edge as often as there are nodes.
fn least_weights(edges: &Vec<Edge>, nodes: i64, anchor: i64) -> Vec<Option<u64>> {
    let mut best: Vec<Option<u64>> = vec![None; nodes as usize + 1];
    best[anchor as usize] = Some(0);
    for _ in 0..nodes {
        for edge in edges {
            if let Some(so_far) = best[edge.from as usize] {
                let through = so_far + edge.weight;
                if best[edge.to as usize].map_or(true, |known| through < known) {
                    best[edge.to as usize] = Some(through);
                }
            }
        }
    }
    best
}

#[test]
fn search_agrees_with_relaxing_every_edge() {
    let mut seed = 7;
    for round in 0..40 {
        let nodes = 2 + (next(&mut seed) % 14) as i64;
        let count = next(&mut seed) % (3 * nodes as u64);
        let ids: Vec<i64> = (1..=nodes).collect();
        let mut graph = with_nodes(&ids);
        let mut edges = Vec::new();
        for _ in 0..count {
            let from = 1 + (next(&mut seed) % nodes as u64) as i64;
            let to = 1 + (next(&mut seed) % nodes as u64) as i64;
            let weight = next(&mut seed) % 20;
            add(&mut graph, arc(from, to, weight));
            edges.push(arc(from, to, weight));
        }
        for start in 1..=nodes {
            for end in 1..=nodes {
                let anchor = edges
                    .iter()
                    .find(|e| e.from == start)
                    .or(edges.iter().find(|e| e.nodes_ids.contains(&start)))
                    .map(|e| e.from);
                let target = edges.iter().find(|e| e.nodes_ids.contains(&end)).map(|e| e.to);
                let expected = match (anchor, target) {
                    (Some(anchor), Some(target)) => {
                        let best = least_weights(&edges, nodes, anchor);
                        match (best[end as usize], best[target as usize]) {
                            (Some(a), Some(b)) => Some(a.min(b)),
                            (a, b) => a.or(b),
                        }
                    }
                    _ => None,
                };
                let route = dijkstra(&graph, &start, &end);
                assert_eq!(route.0.is_some(), route.1.is_some());
                let weight = route.1.as_ref().map(total);
                assert_eq!(weight, expected, "round {} from {} to {}", round, start, end);
                if let (Some(nodes), Some(edges)) = route {
                    assert_eq!(nodes[0], start);
                    assert_eq!(nodes.len(), edges.len() + 1);
                    let last = edges.last().map_or(anchor.unwrap(), |e| e.to);
                    assert!(last == end || Some(last) == target);
                    let mut at = anchor.unwrap();
                    for edge in &edges {
                        assert_eq!(edge.from, at);
                        at = edge.to;
                    }
                }
            }
        }
    }
}
