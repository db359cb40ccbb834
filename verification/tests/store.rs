use osm_router::graph::{Node, Way};
use osm_router::instructions::Coordinate;
use osm_router::osm_graph::{runs_through, Edge, OSMGraph, State};
use osm_router::tags::Tags;

fn node(id: i64, lat: i32, lon: i32) -> Node {
    Node::new(id, lat, lon, Tags::new())
}

fn edge(from: i64, to: i64, weight: u64, nodes: Vec<i64>) -> Edge {
    Edge::new(from, to, weight, weight, 0, nodes, 1)
}

fn three_nodes() -> OSMGraph {
    let mut graph = OSMGraph::new();
    graph.add_node(&node(10, 0, 0));
    graph.add_node(&node(20, 5, 5));
    graph.add_node(&node(30, 9, 9));
    graph
}

#[test]
fn new_graph_is_empty() {
    let graph = OSMGraph::new();
    assert_eq!(graph.get_node_count(), 0);
    assert_eq!(graph.get_way_count(), 0);
    assert_eq!(graph.get_edge_count(), 0);
    assert!(graph.get_node_ids().is_empty());
    assert!(graph.get_edges().is_empty());
}

#[test]
fn add_node_replaces_a_node_with_the_same_id_in_place() {
    let mut graph = OSMGraph::new();
    graph.add_node(&node(1, 10, 11));
    graph.add_node(&node(2, 20, 21));
    graph.add_node(&node(1, 30, 31));
    assert_eq!(graph.get_node_count(), 2);
    assert_eq!(graph.get_node_ids(), vec![1, 2]);
    let first = graph.get_node(1).unwrap();
    assert_eq!((first.get_id(), first.get_lat(), first.get_lon()), (1, 30, 31));
    assert!(graph.get_node(3).is_none());
}

#[test]
fn add_way_last_write_wins() {
    let mut graph = OSMGraph::new();
    graph.add_way(&Way::new(7, vec![1, 2], Tags::new()));
    graph.add_way(&Way::new(7, vec![3, 4, 5], Tags::new()));
    assert_eq!(graph.get_way_count(), 1);
    assert_eq!(graph.get_way(7).unwrap().get_node_ids(), &vec![3, 4, 5]);
    assert_eq!(graph.get_way(7).unwrap().get_id(), 7);
    assert!(graph.get_way(8).is_none());
}

#[test]
fn nearest_node_is_none_without_nodes_or_distances() {
    assert_eq!(OSMGraph::new().get_nearest_node(&vec![1, 2, 3]), None);
    assert_eq!(three_nodes().get_nearest_node(&vec![]), None);
}

#[test]
fn nearest_node_takes_the_least_distance() {
    let graph = three_nodes();
    assert_eq!(graph.get_nearest_node(&vec![5, 3, 4]), Some(20));
    assert_eq!(graph.get_nearest_node(&vec![5, 6, 4]), Some(30));
    assert_eq!(graph.get_nearest_node(&vec![1, 6, 4]), Some(10));
}

#[test]
fn nearest_node_takes_the_first_of_equal_distances() {
    let graph = three_nodes();
    assert_eq!(graph.get_nearest_node(&vec![5, 3, 3]), Some(20));
    assert_eq!(graph.get_nearest_node(&vec![7, 7, 7]), Some(10));
}

#[test]
fn nearest_node_passes_over_nodes_without_a_distance() {
    let graph = three_nodes();
    assert_eq!(graph.get_nearest_node(&vec![7]), Some(10));
    assert_eq!(graph.get_nearest_node(&vec![7, 2]), Some(20));
    assert_eq!(graph.get_nearest_node(&vec![9, 9, 9, 1]), Some(10));
}

#[test]
fn a_node_is_its_own_nearest_node() {
    let graph = three_nodes();
    assert_eq!(graph.get_nearest_node(&vec![0, 7, 12]), Some(10));
    assert_eq!(graph.get_nearest_node(&vec![7, 0, 5]), Some(20));
    assert_eq!(graph.get_nearest_node(&vec![12, 5, 0]), Some(30));
}

#[test]
fn of_two_nodes_at_one_place_the_first_is_nearest() {
    let mut graph = OSMGraph::new();
    graph.add_node(&node(1, 4, 4));
    graph.add_node(&node(2, 4, 4));
    assert_eq!(graph.get_nearest_node(&vec![0, 0]), Some(1));
}

#[test]
fn planar_distances_follow_the_order_of_the_nodes() {
    let graph = three_nodes();
    assert_eq!(graph.get_planar_distances(0, 0), vec![0, 50, 162]);
    assert_eq!(graph.get_planar_distances(9, 5), vec![106, 16, 16]);
    assert!(OSMGraph::new().get_planar_distances(1, 1).is_empty());
}

#[test]
fn nearest_node_by_planar_distance() {
    let graph = three_nodes();
    assert_eq!(graph.get_nearest_node_planar(6, 6), Some(20));
    assert_eq!(graph.get_nearest_node_planar(100, -3), Some(30));
    assert_eq!(graph.get_nearest_node_planar(0, 5), Some(10));
    assert_eq!(graph.get_nearest_node_planar(9, 5), Some(20));
    assert_eq!(OSMGraph::new().get_nearest_node_planar(0, 0), None);
}

#[test]
fn each_node_is_nearest_to_its_own_place() {
    let graph = three_nodes();
    for id in graph.get_node_ids() {
        let node = graph.get_node(id).unwrap();
        assert_eq!(graph.get_nearest_node_planar(node.get_lat(), node.get_lon()), Some(id));
    }
    let mut twins = OSMGraph::new();
    twins.add_node(&node(1, 4, 4));
    twins.add_node(&node(2, 4, 4));
    assert_eq!(twins.get_nearest_node_planar(4, 4), Some(1));
}

#[test]
fn planar_distance_is_the_sum_of_squares() {
    let here = node(1, 3, 4);
    assert_eq!(here.get_distance(0, 0), 25);
    assert_eq!(here.get_distance(3, 4), 0);
    assert_eq!(here.get_distance(-1, 7), 16 + 9);
    let far = node(2, i32::MIN, i32::MIN);
    assert_eq!(far.get_distance(i32::MAX, i32::MAX), 36893488130239234050u128);
}

#[test]
fn distance_between_two_nodes_of_the_graph() {
    let graph = three_nodes();
    assert_eq!(graph.get_distance(10, 20), Some(50));
    assert_eq!(graph.get_distance(30, 20), Some(32));
    assert_eq!(graph.get_distance(20, 20), Some(0));
    assert_eq!(graph.get_distance(20, 99), None);
    assert_eq!(graph.get_distance(99, 20), None);
    assert_eq!(graph.get_nodes().len(), 3);
    assert!(graph.get_ways().is_empty());
}

#[test]
fn index_gives_an_empty_list_for_a_node_without_edges() {
    let mut graph = OSMGraph::new();
    assert!(graph.get_edges_from_node_fast(&1).is_empty());
    graph.add_edge_from_node(1, edge(1, 2, 4, vec![1, 2]));
    graph.add_edge_from_node(1, edge(1, 3, 5, vec![1, 3]));
    let filed = graph.get_edges_from_node_fast(&1);
    assert_eq!(filed.len(), 2);
    assert_eq!(filed[0], edge(1, 2, 4, vec![1, 2]));
    assert_eq!(filed[1], edge(1, 3, 5, vec![1, 3]));
    assert!(graph.get_edges_from_node_fast(&2).is_empty());
    assert_eq!(graph.get_edge_count(), 0);
}

#[test]
fn flat_list_keeps_the_order_of_adding() {
    let mut graph = OSMGraph::new();
    graph.add_edge(edge(1, 2, 4, vec![1, 2]));
    graph.add_edge(edge(2, 1, 4, vec![2, 1]));
    assert_eq!(graph.get_edge_count(), 2);
    assert_eq!(graph.get_edges()[0], edge(1, 2, 4, vec![1, 2]));
    assert_eq!(graph.get_edges()[1], edge(2, 1, 4, vec![2, 1]));
    assert!(graph.get_edges_from_node_fast(&1).is_empty());
}

fn chain() -> OSMGraph {
    let mut graph = OSMGraph::new();
    graph.add_edge(edge(1, 3, 2, vec![1, 2, 3]));
    graph.add_edge(edge(3, 1, 2, vec![3, 2, 1]));
    graph.add_edge(edge(3, 4, 1, vec![3, 4]));
    graph
}

#[test]
fn edges_from_node_filters_by_first_node() {
    let graph = chain();
    let found = graph.get_edges_from_node(3);
    assert_eq!(found.len(), 2);
    assert_eq!(*found[0], edge(3, 1, 2, vec![3, 2, 1]));
    assert_eq!(*found[1], edge(3, 4, 1, vec![3, 4]));
    assert!(graph.get_edges_from_node(2).is_empty());
}

#[test]
fn edges_to_node_filters_by_last_node() {
    let graph = chain();
    let found = graph.get_edges_to_node(3);
    assert_eq!(found.len(), 1);
    assert_eq!(*found[0], edge(1, 3, 2, vec![1, 2, 3]));
    assert!(graph.get_edges_to_node(2).is_empty());
}

#[test]
fn edges_containing_node_filters_by_any_node() {
    let graph = chain();
    let found = graph.get_edges_containing_node(3);
    assert_eq!(found.len(), 3);
    let inner = graph.get_edges_containing_node(2);
    assert_eq!(inner.len(), 2);
    assert!(graph.get_edges_containing_node(9).is_empty());
}

#[test]
fn from_or_containing_prefers_edges_that_leave_the_node() {
    let graph = chain();
    let found = graph.get_edges_from_node_or_containing(1);
    assert_eq!(found.len(), 1);
    assert_eq!(*found[0], edge(1, 3, 2, vec![1, 2, 3]));
}

#[test]
fn from_or_containing_falls_back_to_edges_through_the_node() {
    let graph = chain();
    let found = graph.get_edges_from_node_or_containing(2);
    assert_eq!(found.len(), 2);
    assert_eq!(*found[0], edge(1, 3, 2, vec![1, 2, 3]));
    assert_eq!(*found[1], edge(3, 1, 2, vec![3, 2, 1]));
    let last = graph.get_edges_from_node_or_containing(4);
    assert_eq!(last.len(), 1);
    assert_eq!(*last[0], edge(3, 4, 1, vec![3, 4]));
    assert!(graph.get_edges_from_node_or_containing(9).is_empty());
}

#[test]
fn runs_through_finds_a_node_in_a_list() {
    assert!(runs_through(&vec![4, 5, 6], 6));
    assert!(!runs_through(&vec![4, 5, 6], 7));
    assert!(!runs_through(&vec![], 7));
}

#[test]
fn combine_paths_skips_the_first_node_of_the_second() {
    let graph = OSMGraph::new();
    assert_eq!(graph.combine_paths(vec![1, 2, 3], vec![3, 4, 5]), vec![1, 2, 3, 4, 5]);
    assert_eq!(graph.combine_paths(vec![1, 2, 3], vec![]), vec![1, 2, 3]);
    assert_eq!(graph.combine_paths(vec![1, 2, 3], vec![9]), vec![1, 2, 3]);
    assert_eq!(graph.combine_paths(vec![], vec![7, 8]), vec![8]);
}

#[test]
fn reconstruct_path_gives_the_positions_in_order() {
    let graph = three_nodes();
    assert_eq!(
        graph.reconstruct_path(&vec![30, 10, 30]),
        Some(vec![
            Coordinate { latitude: 9, longitude: 9 },
            Coordinate { latitude: 0, longitude: 0 },
            Coordinate { latitude: 9, longitude: 9 },
        ])
    );
    assert_eq!(graph.reconstruct_path(&vec![]), Some(vec![]));
    assert_eq!(graph.reconstruct_path(&vec![10, 99]), None);
}

#[test]
fn edge_and_state_keep_what_they_are_given() {
    let e = Edge::new(1, 2, 30, 45, 0, vec![1, 5, 2], 77);
    assert_eq!((e.from, e.to, e.distance, e.weight, e.time, e.way_id), (1, 2, 30, 45, 0, 77));
    assert_eq!(e.nodes_ids, vec![1, 5, 2]);
    assert_eq!(e.duplicate(), e);
    let s = State::new(4, 12);
    assert_eq!((s.node_id, s.distance), (4, 12));
}

#[test]
fn way_and_node_keep_what_they_are_given() {
    let mut tags = Tags::new();
    tags.insert("name".to_string(), "Ring".to_string());
    let way = Way::new(5, vec![1, 2, 3], tags.duplicate());
    assert_eq!(way.get_id(), 5);
    assert_eq!(way.get_node_ids(), &vec![1, 2, 3]);
    assert_eq!(way.get_tags().get("name"), Some(&"Ring".to_string()));
    let copy = way.duplicate();
    assert_eq!(copy.get_node_ids(), &vec![1, 2, 3]);
    let n = Node::new(9, -5, 6, tags);
    assert!(n.get_tags().has("name", "Ring"));
    assert_eq!(n.duplicate().get_lat(), -5);
}
