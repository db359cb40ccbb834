use osm_router::graph::Node;
use osm_router::osm_graph::{Edge, OSMGraph};
use osm_router::route_calculation::{
    generate_random_loop, generate_random_points, loop_through, plan_circuit, route_circuit,
    snap_waypoints, WAYPOINTS_END, WAYPOINTS_MIN,
};
use osm_router::tags::Tags;

fn arc(from: i64, to: i64, weight: u64) -> Edge {
    Edge::new(from, to, weight, weight, 0, vec![from, to], 1)
}

fn add(graph: &mut OSMGraph, edge: Edge) {
    graph.add_edge(edge.clone());
    graph.add_edge_from_node(edge.from, edge);
}

fn both_ways(graph: &mut OSMGraph, a: i64, b: i64, weight: u64) {
    add(graph, arc(b, a, weight));
    add(graph, arc(a, b, weight));
}

/// Nodes 1 to 4 on one line of latitude, at the longitudes 0, 3, 5 and 10,
/// and node 9 far off.
fn row() -> OSMGraph {
    let mut graph = OSMGraph::new();
    for (id, lon) in [(1, 0), (2, 3), (3, 5), (4, 10), (9, 1000)] {
        graph.add_node(&Node::new(id, 0, lon, Tags::new()));
    }
    graph
}

/// The row with a two-way road from each of the nodes 1 to 4 to the next.
/// Before the roads, each of these nodes gets a one-way spur that ends at
/// it; being the first edge through the node, the spur makes a search for
/// the node accept no other node beside it.
fn street() -> OSMGraph {
    let mut graph = row();
    for id in 1..=4 {
        add(&mut graph, arc(id + 10, id, 1));
    }
    both_ways(&mut graph, 1, 2, 3);
    both_ways(&mut graph, 2, 3, 2);
    both_ways(&mut graph, 3, 4, 5);
    graph
}

#[test]
fn waypoint_count_is_two() {
    assert_eq!((WAYPOINTS_MIN, WAYPOINTS_END), (2, 3));
}

#[test]
fn round_goes_on_to_the_nearest_point_each_time() {
    let graph = row();
    assert_eq!(plan_circuit(&graph, 1, vec![4, 2, 3]), Some(vec![1, 2, 3, 4, 1]));
    assert_eq!(plan_circuit(&graph, 3, vec![1, 4, 2]), Some(vec![3, 2, 1, 4, 3]));
    assert_eq!(plan_circuit(&graph, 4, vec![9, 1]), Some(vec![4, 1, 9, 4]));
}

#[test]
fn round_takes_the_first_of_two_points_equally_near() {
    let mut graph = OSMGraph::new();
    graph.add_node(&Node::new(1, 0, 0, Tags::new()));
    graph.add_node(&Node::new(2, 0, 5, Tags::new()));
    graph.add_node(&Node::new(3, 5, 0, Tags::new()));
    graph.add_node(&Node::new(4, -3, 4, Tags::new()));
    assert_eq!(plan_circuit(&graph, 1, vec![2, 3, 4]), Some(vec![1, 2, 4, 3, 1]));
    assert_eq!(plan_circuit(&graph, 1, vec![4, 3, 2]), Some(vec![1, 4, 2, 3, 1]));
}

#[test]
fn round_keeps_a_point_given_twice() {
    let graph = row();
    assert_eq!(plan_circuit(&graph, 1, vec![3, 3]), Some(vec![1, 3, 3, 1]));
    assert_eq!(plan_circuit(&graph, 1, vec![1]), Some(vec![1, 1, 1]));
}

#[test]
fn round_without_points_is_start_twice() {
    assert_eq!(plan_circuit(&row(), 2, vec![]), Some(vec![2, 2]));
}

#[test]
fn round_needs_known_nodes() {
    let graph = row();
    assert_eq!(plan_circuit(&graph, 7, vec![1, 2]), None);
    assert_eq!(plan_circuit(&graph, 1, vec![2, 7]), None);
}

#[test]
fn legs_join_the_neighbours_of_a_round() {
    let graph = street();
    let legs = route_circuit(&graph, &vec![1, 3, 4, 1]).unwrap();
    assert_eq!(legs.len(), 3);
    assert_eq!(legs[0].0, vec![1, 2, 3]);
    assert_eq!(legs[1].0, vec![3, 4]);
    assert_eq!(legs[2].0, vec![4, 3, 2, 1]);
    let weights: Vec<u64> = legs.iter().map(|leg| leg.1.iter().map(|e| e.weight).sum()).collect();
    assert_eq!(weights, vec![5, 5, 10]);
    assert_eq!(route_circuit(&graph, &vec![]).unwrap().len(), 0);
    assert_eq!(route_circuit(&graph, &vec![2]).unwrap().len(), 0);
}

#[test]
fn a_loop_begins_and_ends_at_its_start() {
    let graph = street();
    let legs = loop_through(&graph, 2, vec![4, 1]).unwrap();
    assert_eq!(legs.len(), 3);
    assert_eq!(legs[0].0, vec![2, 1]);
    assert_eq!(legs[1].0, vec![1, 2, 3, 4]);
    assert_eq!(legs[2].0, vec![4, 3, 2]);
    assert_eq!(legs.first().unwrap().0.first(), Some(&2));
    assert_eq!(legs.last().unwrap().0.last(), Some(&2));
    for pair in legs.windows(2) {
        assert_eq!(pair[0].0.last(), pair[1].0.first());
    }
}

#[test]
fn a_loop_may_end_at_the_node_accepted_beside_its_start() {
    let mut graph = row();
    add(&mut graph, arc(1, 2, 3));
    add(&mut graph, arc(2, 1, 3));
    add(&mut graph, arc(2, 3, 2));
    add(&mut graph, arc(3, 2, 2));
    let legs = loop_through(&graph, 1, vec![3]).unwrap();
    assert_eq!(legs.len(), 2);
    assert_eq!(legs[0].0, vec![1, 2, 3]);
    assert_eq!(legs[1].0, vec![3, 2]);
}

#[test]
fn a_loop_fails_where_a_leg_has_no_route() {
    let graph = street();
    assert!(loop_through(&graph, 1, vec![3, 9]).is_none());
    assert!(loop_through(&graph, 9, vec![1, 2]).is_none());
    assert!(route_circuit(&graph, &vec![1, 2, 9, 1]).is_none());
}

#[test]
fn a_loop_fails_for_an_unknown_waypoint() {
    let graph = street();
    assert!(loop_through(&graph, 1, vec![3, 77]).is_none());
    assert!(loop_through(&graph, 77, vec![3]).is_none());
}

#[test]
fn probes_are_snapped_to_their_nearest_nodes() {
    let graph = row();
    let probes = vec![vec![9, 4, 1, 6, 50], vec![2, 2, 8, 8, 8], vec![5, 5, 5, 5, 0]];
    assert_eq!(snap_waypoints(&graph, &probes, 0), Some(vec![]));
    assert_eq!(snap_waypoints(&graph, &probes, 1), Some(vec![3]));
    assert_eq!(snap_waypoints(&graph, &probes, 2), Some(vec![3, 1]));
    assert_eq!(snap_waypoints(&graph, &probes, 3), Some(vec![3, 1, 9]));
    assert_eq!(snap_waypoints(&graph, &probes, 4), None);
}

#[test]
fn probes_cannot_be_snapped_without_nodes_or_distances() {
    assert_eq!(snap_waypoints(&OSMGraph::new(), &vec![vec![1], vec![2]], 2), None);
    assert_eq!(snap_waypoints(&row(), &vec![vec![1], vec![]], 2), None);
    assert_eq!(snap_waypoints(&row(), &vec![vec![1], vec![]], 1), Some(vec![1]));
}

#[test]
fn random_points_are_as_many_as_drawn() {
    let graph = row();
    let probes = vec![vec![9, 4, 1, 6, 50], vec![2, 2, 8, 8, 8], vec![5, 5, 5, 5, 0]];
    for _ in 0..20 {
        let points = generate_random_points(&graph, &probes).unwrap();
        assert!(WAYPOINTS_MIN <= points.len() && points.len() < WAYPOINTS_END);
        assert_eq!(points, vec![3, 1]);
    }
    assert_eq!(generate_random_points(&graph, &vec![vec![9, 4, 1, 6, 50]]), None);
    assert_eq!(generate_random_points(&OSMGraph::new(), &probes), None);
}

#[test]
fn a_random_loop_runs_through_the_snapped_waypoints() {
    let graph = street();
    let probes = vec![vec![9, 4, 1, 6, 50], vec![7, 8, 9, 2, 10]];
    let legs = generate_random_loop(&graph, &1, &probes).unwrap();
    assert_eq!(legs.len(), 3);
    assert_eq!(legs[0].0, vec![1, 2, 3]);
    assert_eq!(legs[1].0, vec![3, 4]);
    assert_eq!(legs[2].0, vec![4, 3, 2, 1]);
    assert!(generate_random_loop(&graph, &1, &vec![vec![1]]).is_none());
    assert!(generate_random_loop(&graph, &1, &vec![vec![9, 4, 1, 6, 50], vec![9, 9, 9, 9, 0]])
        .is_none());
}
