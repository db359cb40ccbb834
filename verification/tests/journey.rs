use osm_router::graph::{Node, Way};
use osm_router::instructions::{Coordinate, Instruction};
use osm_router::osm_graph::OSMGraph;
use osm_router::osm_reader::{OSMReader, WayMeasure};
use osm_router::route_calculation::{dijkstra, loop_through};
use osm_router::tags::Tags;

fn tags(pairs: &[(&str, &str)]) -> Tags {
    let mut tags = Tags::new();
    for (key, value) in pairs {
        tags.insert(key.to_string(), value.to_string());
    }
    tags
}

fn measure(legs: &[u64], radii: &[u64]) -> WayMeasure {
    WayMeasure { leg_lengths: legs.to_vec(), bend_radii: radii.to_vec() }
}

/// Main Street runs east through the nodes 1 to 5; Oak Avenue leaves it
/// northwards at node 3, a lane southwards at node 4.
fn village() -> OSMGraph {
    let places =
        [(1, 0, 0), (2, 0, 10), (3, 0, 20), (4, 0, 30), (5, 0, 40), (6, 10, 20), (7, -10, 30)];
    let nodes: Vec<Node> =
        places.iter().map(|(id, lat, lon)| Node::new(*id, *lat, *lon, Tags::new())).collect();
    let main_street = tags(&[("highway", "residential"), ("name", "Main Street")]);
    let oak_avenue = tags(&[("highway", "primary"), ("name", "Oak Avenue")]);
    let ways = vec![
        Way::new(100, vec![1, 2, 3, 4, 5], main_street),
        Way::new(200, vec![3, 6], oak_avenue),
        Way::new(300, vec![7, 4], tags(&[("highway", "tertiary")])),
    ];
    let measures = vec![
        measure(&[10, 20, 30, 40], &[50, 150, 250]),
        measure(&[7], &[]),
        measure(&[9], &[]),
    ];
    OSMReader::new("village.osm.pbf".to_string()).build_graph(&nodes, &ways, &measures).unwrap()
}

#[test]
fn a_route_through_a_built_graph_has_instructions() {
    let graph = village();
    let (nodes, edges) = dijkstra(&graph, &1, &6);
    let (nodes, edges) = (nodes.unwrap(), edges.unwrap());
    assert_eq!(nodes, vec![1, 3, 6]);
    assert_eq!(edges.iter().map(|e| e.weight).sum::<u64>(), 30 + 21);
    let route = graph.directions_instructions_and_path(&nodes, &edges).unwrap();
    assert_eq!(
        route.instructions,
        vec![Instruction {
            text: "Turn left to road Oak Avenue".to_string(),
            distance: 37,
            latitude: 0,
            longitude: 20,
        }]
    );
    assert_eq!(route.total_distance, 37);
    let at = |latitude, longitude| Coordinate { latitude, longitude };
    assert_eq!(route.path, vec![at(0, 0), at(0, 10), at(0, 20), at(0, 20), at(10, 20)]);
}

#[test]
fn a_route_from_inside_an_edge_of_a_built_graph() {
    let graph = village();
    let (nodes, edges) = dijkstra(&graph, &2, &5);
    let (nodes, edges) = (nodes.unwrap(), edges.unwrap());
    assert_eq!(nodes, vec![2, 3, 4, 5]);
    assert_eq!(edges.iter().map(|e| e.weight).sum::<u64>(), 30 + 90 + 120);
    let route = graph.directions_instructions_and_path(&nodes, &edges).unwrap();
    assert!(route.instructions.is_empty());
    assert_eq!(route.total_distance, 30 + 30 + 40);
    assert_eq!(route.path.len(), 3 + 2 + 2);
}

#[test]
fn every_leg_of_a_loop_through_a_built_graph_has_instructions() {
    let graph = village();
    let legs = loop_through(&graph, 5, vec![6, 1]).unwrap();
    assert_eq!(legs.len(), 3);
    for (nodes, edges) in &legs {
        assert!(graph.directions_instructions_and_path(nodes, edges).is_some());
        for pair in edges.windows(2) {
            assert_eq!(pair[0].to, pair[1].from);
        }
    }
    assert_eq!(legs[0].0[0], 5);
}
