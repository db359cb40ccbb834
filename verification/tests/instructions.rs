use osm_router::graph::{Node, Way};
use osm_router::instructions::{
    is_roundabout_like, turn_between, Coordinate, Instruction, RouteResult, Turn,
};
use osm_router::osm_graph::{Edge, OSMGraph};
use osm_router::tags::Tags;

fn tags(pairs: &[(&str, &str)]) -> Tags {
    let mut tags = Tags::new();
    for (key, value) in pairs {
        tags.insert(key.to_string(), value.to_string());
    }
    tags
}

fn at(lat: i32, lon: i32) -> Coordinate {
    Coordinate { latitude: lat, longitude: lon }
}

fn place(id: i64) -> (i32, i32) {
    match id {
        1 => (0, 0),
        2 => (0, 10),
        3 => (10, 10),
        4 => (-10, 10),
        5 => (0, 20),
        6 => (0, 30),
        7 => (10, 20),
        8 => (0, 10),
        _ => (99, 99),
    }
}

fn town() -> OSMGraph {
    let mut graph = OSMGraph::new();
    for id in 1..=8 {
        let (lat, lon) = place(id);
        graph.add_node(&Node::new(id, lat, lon, Tags::new()));
    }
    let roads: Vec<(i64, Vec<(&str, &str)>)> = vec![
        (100, vec![("highway", "residential"), ("name", "Main Street")]),
        (200, vec![("highway", "primary"), ("name", "Oak Avenue")]),
        (300, vec![("highway", "primary"), ("junction", "roundabout")]),
        (400, vec![("highway", "residential")]),
        (500, vec![("highway", "tertiary"), ("name", "Main Street")]),
        (600, vec![("highway", "motorway_link"), ("name", "Ramp")]),
    ];
    for (id, pairs) in roads {
        graph.add_way(&Way::new(id, vec![], tags(&pairs)));
    }
    graph
}

fn hop(from: i64, to: i64, distance: u64, way: i64) -> Edge {
    Edge::new(from, to, distance, distance * 2, 0, vec![from, to], way)
}

fn says(text: &str, distance: u128, node: i64) -> Instruction {
    let (latitude, longitude) = place(node);
    Instruction { text: text.to_string(), distance, latitude, longitude }
}

fn route(graph: &OSMGraph, edges: &Vec<Edge>) -> RouteResult {
    graph.directions_instructions_and_path(&vec![], edges).unwrap()
}

#[test]
fn turn_follows_the_side_of_the_next_step() {
    let n = |id: i64| {
        let (lat, lon) = place(id);
        Node::new(id, lat, lon, Tags::new())
    };
    assert_eq!(turn_between(&n(1), &n(2), &n(2), &n(3)), Turn::Left);
    assert_eq!(turn_between(&n(1), &n(2), &n(2), &n(4)), Turn::Right);
    assert_eq!(turn_between(&n(1), &n(2), &n(2), &n(5)), Turn::Unknown);
    assert_eq!(turn_between(&n(1), &n(2), &n(2), &n(1)), Turn::Unknown);
    assert_eq!(turn_between(&n(1), &n(2), &n(2), &n(7)), Turn::Left);
    assert_eq!(turn_between(&n(2), &n(3), &n(3), &n(7)), Turn::Right);
    assert_eq!(turn_between(&n(2), &n(3), &n(3), &n(1)), Turn::Left);
}

#[test]
fn a_step_of_no_length_points_along_the_longitude() {
    let n = |id: i64| {
        let (lat, lon) = place(id);
        Node::new(id, lat, lon, Tags::new())
    };
    assert_eq!(turn_between(&n(2), &n(8), &n(2), &n(3)), Turn::Left);
    assert_eq!(turn_between(&n(2), &n(8), &n(2), &n(4)), Turn::Right);
    assert_eq!(turn_between(&n(2), &n(8), &n(2), &n(5)), Turn::Unknown);
    assert_eq!(turn_between(&n(2), &n(3), &n(2), &n(8)), Turn::Right);
    assert_eq!(turn_between(&n(2), &n(4), &n(2), &n(8)), Turn::Left);
    assert_eq!(turn_between(&n(2), &n(8), &n(8), &n(2)), Turn::Unknown);
}

#[test]
fn turn_is_exact_at_the_ends_of_the_range() {
    let low = Node::new(1, i32::MIN, i32::MIN, Tags::new());
    let high = Node::new(2, i32::MAX, i32::MAX, Tags::new());
    let side = Node::new(3, i32::MAX, i32::MIN, Tags::new());
    let near = Node::new(4, i32::MAX, i32::MAX - 1, Tags::new());
    assert_eq!(turn_between(&low, &high, &low, &high), Turn::Unknown);
    assert_eq!(turn_between(&low, &high, &low, &side), Turn::Left);
    assert_eq!(turn_between(&low, &side, &low, &high), Turn::Right);
    assert_eq!(turn_between(&low, &high, &low, &near), Turn::Left);
}

#[test]
fn roundabouts_and_motorway_links_count_as_roundabout() {
    assert!(is_roundabout_like(&tags(&[("junction", "roundabout")])));
    assert!(is_roundabout_like(&tags(&[("highway", "motorway_link")])));
    assert!(!is_roundabout_like(&tags(&[("highway", "motorway")])));
    assert!(!is_roundabout_like(&tags(&[("junction", "yes"), ("highway", "primary")])));
    assert!(!is_roundabout_like(&Tags::new()));
}

#[test]
fn no_instruction_between_two_edges_of_one_way() {
    let graph = town();
    let result = route(&graph, &vec![hop(1, 2, 100, 100), hop(2, 5, 40, 100)]);
    assert!(result.instructions.is_empty());
    assert_eq!(result.total_distance, 140);
    assert_eq!(result.path, vec![at(0, 0), at(0, 10), at(0, 10), at(0, 20)]);
}

#[test]
fn one_instruction_where_the_road_changes() {
    let graph = town();
    let result = route(&graph, &vec![hop(1, 2, 100, 100), hop(2, 3, 50, 200)]);
    assert_eq!(result.instructions, vec![says("Turn left to road Oak Avenue", 150, 2)]);
    assert_eq!(result.total_distance, 150);
    assert_eq!(result.path, vec![at(0, 0), at(0, 10), at(0, 10), at(10, 10)]);
}

#[test]
fn turn_right_and_plain_turn() {
    let graph = town();
    let right = route(&graph, &vec![hop(1, 2, 100, 100), hop(2, 4, 50, 200)]);
    assert_eq!(right.instructions, vec![says("Turn right to road Oak Avenue", 150, 2)]);
    let ahead = route(&graph, &vec![hop(1, 2, 100, 100), hop(2, 5, 50, 200)]);
    assert_eq!(ahead.instructions, vec![says("Turn", 150, 2)]);
    let back = route(&graph, &vec![hop(1, 2, 100, 100), hop(2, 1, 50, 200)]);
    assert_eq!(back.instructions, vec![says("Turn", 150, 2)]);
}

#[test]
fn continue_where_the_name_stays() {
    let graph = town();
    let result = route(&graph, &vec![hop(1, 2, 100, 100), hop(2, 3, 50, 500)]);
    assert_eq!(result.instructions, vec![says("Continue on road Main Street", 150, 2)]);
}

#[test]
fn no_instruction_onto_a_way_without_name() {
    let graph = town();
    let result = route(&graph, &vec![hop(1, 2, 100, 100), hop(2, 3, 50, 400)]);
    assert!(result.instructions.is_empty());
    let onward =
        route(&graph, &vec![hop(1, 2, 100, 100), hop(2, 3, 50, 400), hop(3, 7, 25, 200)]);
    assert_eq!(onward.instructions, vec![says("Turn right to road Oak Avenue", 175, 3)]);
}

#[test]
fn distance_counts_from_the_last_instruction() {
    let graph = town();
    let result = route(
        &graph,
        &vec![
            hop(1, 2, 100, 100),
            hop(2, 3, 50, 200),
            hop(3, 7, 25, 200),
            hop(7, 5, 5, 100),
            hop(5, 6, 1, 100),
        ],
    );
    assert_eq!(
        result.instructions,
        vec![
            says("Turn left to road Oak Avenue", 150, 2),
            says("Turn right to road Main Street", 30, 7),
        ]
    );
    assert_eq!(result.total_distance, 181);
    assert_eq!(result.path.len(), 10);
}

#[test]
fn exit_of_a_roundabout_is_counted() {
    let graph = town();
    let result = route(
        &graph,
        &vec![hop(1, 2, 100, 100), hop(2, 3, 10, 300), hop(3, 5, 20, 300), hop(5, 6, 30, 200)],
    );
    assert_eq!(
        result.instructions,
        vec![says("Roundabout exit: 2", 160, 5), says("Turn left to road Oak Avenue", 0, 5)]
    );
    assert_eq!(result.total_distance, 160);
}

#[test]
fn exit_count_begins_anew_in_each_roundabout() {
    let graph = town();
    let result = route(
        &graph,
        &vec![
            hop(1, 2, 1, 300),
            hop(2, 3, 1, 300),
            hop(3, 7, 1, 300),
            hop(7, 5, 1, 400),
            hop(5, 6, 1, 600),
            hop(6, 1, 1, 400),
        ],
    );
    assert_eq!(
        result.instructions,
        vec![says("Roundabout exit: 3", 4, 7), says("Roundabout exit: 1", 2, 6)]
    );
}

#[test]
fn no_exit_instruction_for_a_route_that_ends_in_a_roundabout() {
    let graph = town();
    let result = route(&graph, &vec![hop(1, 2, 100, 100), hop(2, 3, 10, 300)]);
    assert!(result.instructions.is_empty());
    assert_eq!(result.total_distance, 110);
}

#[test]
fn exit_count_is_written_in_decimal() {
    let graph = town();
    let mut edges = Vec::new();
    for _ in 0..12 {
        edges.push(hop(2, 3, 1, 300));
    }
    edges.push(hop(3, 7, 1, 400));
    let result = route(&graph, &edges);
    assert_eq!(result.instructions, vec![says("Roundabout exit: 12", 13, 3)]);
}

#[test]
fn path_holds_every_node_of_every_edge() {
    let graph = town();
    let long = Edge::new(1, 3, 7, 7, 0, vec![1, 2, 5, 3], 400);
    let result = route(&graph, &vec![long, hop(3, 7, 2, 400)]);
    assert_eq!(
        result.path,
        vec![at(0, 0), at(0, 10), at(0, 20), at(10, 10), at(10, 10), at(10, 20)]
    );
    assert_eq!(result.total_distance, 9);
}

#[test]
fn no_edges_give_an_empty_route() {
    let graph = town();
    let result = route(&graph, &vec![]);
    assert_eq!(result, RouteResult { path: vec![], instructions: vec![], total_distance: 0 });
}

#[test]
fn heaviest_distances_add_up() {
    let graph = town();
    let result = route(&graph, &vec![hop(1, 2, u64::MAX / 2, 100), hop(2, 3, u64::MAX / 2, 200)]);
    assert_eq!(result.total_distance, 2 * (u64::MAX as u128 / 2));
    let far = Edge::new(1, 2, u64::MAX, 0, 0, vec![1, 2], 100);
    let on = Edge::new(2, 3, u64::MAX, 0, 0, vec![2, 3], 200);
    let sum = route(&graph, &vec![far, on]);
    assert_eq!(sum.total_distance, 2 * (u64::MAX as u128));
    assert_eq!(sum.instructions[0].distance, 2 * (u64::MAX as u128));
}

#[test]
fn no_route_where_the_graph_lacks_a_way_or_a_node() {
    let graph = town();
    let nodes = vec![];
    assert!(graph.directions_instructions_and_path(&nodes, &vec![hop(1, 2, 1, 999)]).is_none());
    assert!(graph.directions_instructions_and_path(&nodes, &vec![hop(1, 42, 1, 100)]).is_none());
    assert!(graph.directions_instructions_and_path(&nodes, &vec![hop(42, 1, 1, 100)]).is_none());
    let through = Edge::new(1, 2, 1, 1, 0, vec![1, 42, 2], 100);
    assert!(graph.directions_instructions_and_path(&nodes, &vec![through]).is_none());
    let later = vec![hop(1, 2, 1, 100), hop(2, 3, 1, 999)];
    assert!(graph.directions_instructions_and_path(&nodes, &later).is_none());
}
