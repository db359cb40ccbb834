//! Turn-by-turn instructions: from the edges of a route to its line of
//! coordinates and what to do along it.

use crate::graph::{Node, NodeView, Way};
use crate::osm_graph::{edge_views, lemma_selected, Edge, EdgeTest, EdgeView, OSMGraph};
use crate::osm_reader::{edge_resolves, edges_resolve, index_follows_edges, leaving};
use crate::route_calculation::{is_walk, step_start};
use crate::tags::Tags;
use crate::text::{decimal, decimal_text};
use vstd::prelude::*;
use vstd::string::StringExecFns;

verus! {

/// A position, in units of 1e-7 degree.
#[derive(Clone, Copy, Debug, PartialEq, Eq, Structural)]
pub struct Coordinate {
    pub latitude: i32,
    pub longitude: i32,
}

/// Which way a route turns where it goes from one edge to the next.
#[derive(Clone, Copy, Debug, PartialEq, Eq, Structural)]
pub enum Turn {
    Left,
    Right,
    Unknown,
}

/// What an instruction is.
pub struct InstructionView {
    pub text: Seq<char>,
    pub distance: int,
    pub latitude: i32,
    pub longitude: i32,
}

/// One instruction of a route: what to do, how far the route has run since
/// the instruction before it, and where it applies.
#[derive(Clone, Debug, PartialEq, Eq)]
pub struct Instruction {
    pub text: String,
    pub distance: u128,
    pub latitude: i32,
    pub longitude: i32,
}

impl View for Instruction {
    type V = InstructionView;

    open spec fn view(&self) -> InstructionView {
        InstructionView {
            text: self.text@,
            distance: self.distance as int,
            latitude: self.latitude,
            longitude: self.longitude,
        }
    }
}

/// What a route is.
pub struct RouteView {
    pub path: Seq<Coordinate>,
    pub instructions: Seq<InstructionView>,
    pub total_distance: int,
}

/// A route: its line of coordinates, its instructions in order, and its
/// length.
#[derive(Clone, Debug, PartialEq, Eq)]
pub struct RouteResult {
    pub path: Vec<Coordinate>,
    pub instructions: Vec<Instruction>,
    pub total_distance: u128,
}

/// The views of a list of instructions, in order.
pub open spec fn instruction_views(instructions: Seq<Instruction>) -> Seq<InstructionView> {
    instructions.map_values(|x: Instruction| x@)
}

impl View for RouteResult {
    type V = RouteView;

    open spec fn view(&self) -> RouteView {
        RouteView {
            path: self.path@,
            instructions: instruction_views(self.instructions@),
            total_distance: self.total_distance as int,
        }
    }
}

/// The direction of the step `(x, y)`; a step of no length points along the
/// first axis.
pub open spec fn heading(x: int, y: int) -> (int, int) {
    if x == 0 && y == 0 {
        (1, 0)
    } else {
        (x, y)
    }
}

/// Twice the signed area between two directions: positive where the second
/// lies to the left of the first.
pub open spec fn cross(a: (int, int), b: (int, int)) -> int {
    a.0 * b.1 - a.1 * b.0
}

/// Which way a route turns that runs first from `prev_from` to `prev_to`
/// and then from `from` to `to`. With the bearing of a step taken as the
/// angle of its direction against the axis of longitude, the turn is to the
/// left where the bearing grows by an angle between 0 and 180 degrees or
/// falls by one between 180 and 360, to the right where it falls by an
/// angle between 0 and 180 degrees or grows by one between 180 and 360.
pub open spec fn turn_direction(
    prev_from: NodeView,
    prev_to: NodeView,
    from: NodeView,
    to: NodeView,
) -> Turn {
    let before = heading(prev_to.lon - prev_from.lon, prev_to.lat - prev_from.lat);
    let after = heading(to.lon - from.lon, to.lat - from.lat);
    if cross(before, after) > 0 {
        Turn::Left
    } else if cross(before, after) < 0 {
        Turn::Right
    } else {
        Turn::Unknown
    }
}

/// A way counts as roundabout if it is a motorway link or a roundabout.
pub open spec fn roundabout_like(tags: Map<Seq<char>, Seq<char>>) -> bool {
    ||| tags.contains_key("highway"@) && tags["highway"@] == "motorway_link"@
    ||| tags.contains_key("junction"@) && tags["junction"@] == "roundabout"@
}

/// The position of a node.
pub open spec fn position(node: NodeView) -> Coordinate {
    Coordinate { latitude: node.lat, longitude: node.lon }
}

/// The positions of the nodes with the ids `ids`, in order.
pub open spec fn positions(graph: OSMGraph, ids: Seq<i64>) -> Seq<Coordinate> {
    Seq::new(ids.len(), |k: int| position(graph.nodes()[ids[k]]))
}

/// The instruction on leaving a roundabout by its exit number `exits`.
pub open spec fn exit_instruction(exits: nat, distance: int, at: NodeView) -> InstructionView {
    InstructionView {
        text: "Roundabout exit: "@ + decimal_text(exits),
        distance,
        latitude: at.lat,
        longitude: at.lon,
    }
}

/// The text on entering the named way of `e` from the edge `prev` of
/// another way: to continue where both ways have one name, else to turn.
pub open spec fn road_text(graph: OSMGraph, prev: EdgeView, e: EdgeView) -> Seq<char> {
    let name = graph.ways()[e.way_id].tags["name"@];
    let prev_tags = graph.ways()[prev.way_id].tags;
    if prev_tags.contains_key("name"@) && prev_tags["name"@] == name {
        "Continue on road "@ + name
    } else {
        match turn_direction(
            graph.nodes()[prev.from],
            graph.nodes()[prev.to],
            graph.nodes()[e.from],
            graph.nodes()[e.to],
        ) {
            Turn::Left => "Turn left to road "@ + name,
            Turn::Right => "Turn right to road "@ + name,
            Turn::Unknown => "Turn"@,
        }
    }
}

/// How far the making of a route has come.
pub struct Progress {
    /// The line of coordinates so far.
    pub path: Seq<Coordinate>,
    /// The instructions so far.
    pub instructions: Seq<InstructionView>,
    /// The length of the route so far.
    pub total: int,
    /// The length of the route since the last instruction.
    pub since: int,
    /// The number of roundabout edges in a row that the route has just run
    /// through.
    pub exits: nat,
    /// Whether the last edge was roundabout.
    pub in_roundabout: bool,
    /// The last edge; before the first edge, the first edge.
    pub prev: EdgeView,
}

/// The progress after one more edge `e`.
///
/// The positions of the nodes of `e` join the line and its length joins both
/// lengths. On a roundabout edge the count of exits goes up, or begins at
/// one. On any other edge, first an instruction to leave the roundabout is
/// given if the edge before was roundabout, then an instruction for the road
/// if the way of `e` has a name and is not the way of the edge before. Each
/// instruction lies at the first node of `e`, carries the length since the
/// last instruction, and sets that length back to zero.
pub open spec fn step(graph: OSMGraph, st: Progress, e: EdgeView) -> Progress {
    let tags = graph.ways()[e.way_id].tags;
    let first = graph.nodes()[e.from];
    let path = st.path + positions(graph, e.nodes_ids);
    let total = st.total + e.distance;
    let since = st.since + e.distance;
    if roundabout_like(tags) {
        Progress {
            path,
            instructions: st.instructions,
            total,
            since,
            exits: if st.in_roundabout {
                st.exits + 1
            } else {
                1
            },
            in_roundabout: true,
            prev: e,
        }
    } else {
        let left = if st.in_roundabout {
            st.instructions.push(exit_instruction(st.exits, since, first))
        } else {
            st.instructions
        };
        let since_left = if st.in_roundabout {
            0
        } else {
            since
        };
        let named = tags.contains_key("name"@) && st.prev.way_id != e.way_id;
        Progress {
            path,
            instructions: if named {
                left.push(
                    InstructionView {
                        text: road_text(graph, st.prev, e),
                        distance: since_left,
                        latitude: first.lat,
                        longitude: first.lon,
                    },
                )
            } else {
                left
            },
            total,
            since: if named {
                0
            } else {
                since_left
            },
            exits: if st.in_roundabout {
                0
            } else {
                st.exits
            },
            in_roundabout: false,
            prev: e,
        }
    }
}

/// The progress after the first `upto` edges.
pub open spec fn progress(graph: OSMGraph, edges: Seq<EdgeView>, upto: int) -> Progress
    decreases upto,
{
    if upto <= 0 {
        Progress {
            path: Seq::empty(),
            instructions: Seq::empty(),
            total: 0,
            since: 0,
            exits: 0,
            in_roundabout: false,
            prev: edges[0],
        }
    } else {
        step(graph, progress(graph, edges, upto - 1), edges[upto - 1])
    }
}

/// The route along `edges`.
pub open spec fn route_of(graph: OSMGraph, edges: Seq<EdgeView>) -> RouteView {
    let done = progress(graph, edges, edges.len() as int);
    RouteView { path: done.path, instructions: done.instructions, total_distance: done.total }
}

/// The graph holds the way of the edge, both its ends and every node it
/// runs through.
pub open spec fn edge_known(graph: OSMGraph, e: EdgeView) -> bool {
    &&& graph.ways().contains_key(e.way_id)
    &&& graph.nodes().contains_key(e.from)
    &&& graph.nodes().contains_key(e.to)
    &&& forall|k: int|
        0 <= k < e.nodes_ids.len() ==> graph.nodes().contains_key(#[trigger] e.nodes_ids[k])
}

/// The graph holds what each of the edges names.
pub open spec fn edges_known(graph: OSMGraph, edges: Seq<EdgeView>) -> bool {
    forall|i: int| 0 <= i < edges.len() ==> edge_known(graph, #[trigger] edges[i])
}

/// After an edge, the progress remembers that edge and whether its way
/// counts as roundabout.
pub proof fn lemma_progress_remembers(graph: OSMGraph, edges: Seq<EdgeView>, i: int)
    requires
        1 <= i <= edges.len(),
    ensures
        progress(graph, edges, i).prev == edges[i - 1],
        progress(graph, edges, i).in_roundabout == roundabout_like(
            graph.ways()[edges[i - 1].way_id].tags,
        ),
{
}

/// Where two edges in a row are of one way, the second adds no instruction.
pub proof fn lemma_same_way_gives_no_instruction(graph: OSMGraph, edges: Seq<EdgeView>, i: int)
    requires
        1 <= i < edges.len(),
        edges[i - 1].way_id == edges[i].way_id,
    ensures
        progress(graph, edges, i + 1).instructions == progress(graph, edges, i).instructions,
{
    lemma_progress_remembers(graph, edges, i);
}

/// Where a route goes from an edge of one way to an edge of another way
/// that has a name, and neither way counts as roundabout, the second edge
/// adds one instruction. It lies at the first node of the second edge and
/// carries the length since the last instruction, the second edge included.
/// Where the first way has no name or another one, it tells to turn.
pub proof fn lemma_new_road_gives_one_instruction(
    graph: OSMGraph,
    edges: Seq<EdgeView>,
    i: int,
)
    requires
        1 <= i < edges.len(),
        edges[i - 1].way_id != edges[i].way_id,
        graph.ways()[edges[i].way_id].tags.contains_key("name"@),
        !roundabout_like(graph.ways()[edges[i - 1].way_id].tags),
        !roundabout_like(graph.ways()[edges[i].way_id].tags),
    ensures
        progress(graph, edges, i + 1).instructions == progress(graph, edges, i).instructions.push(
            InstructionView {
                text: road_text(graph, edges[i - 1], edges[i]),
                distance: progress(graph, edges, i).since + edges[i].distance,
                latitude: graph.nodes()[edges[i].from].lat,
                longitude: graph.nodes()[edges[i].from].lon,
            },
        ),
        progress(graph, edges, i + 1).since == 0,
        ({
            let name = graph.ways()[edges[i].way_id].tags["name"@];
            let prev_tags = graph.ways()[edges[i - 1].way_id].tags;
            !(prev_tags.contains_key("name"@) && prev_tags["name"@] == name) ==> {
                ||| road_text(graph, edges[i - 1], edges[i]) == "Turn left to road "@ + name
                ||| road_text(graph, edges[i - 1], edges[i]) == "Turn right to road "@ + name
                ||| road_text(graph, edges[i - 1], edges[i]) == "Turn"@
            }
        }),
{
    lemma_progress_remembers(graph, edges, i);
}

/// In a graph whose index follows its edges and whose edges name what the
/// graph holds, as in every graph that was built, a walk is a chain of
/// edges of the graph, each leaving the node at which the one before it
/// ends, and the graph holds what they name: the walk has a route with
/// instructions.
pub proof fn lemma_walk_in_built_graph_is_known(graph: OSMGraph, from: i64, edges: Seq<EdgeView>)
    requires
        index_follows_edges(graph),
        edges_resolve(graph),
        is_walk(graph, from, edges),
    ensures
        forall|k: int|
            0 <= k < edges.len() ==> (#[trigger] edges[k]).from == step_start(from, edges, k)
                && graph.edges().contains(edges[k]),
        edges_known(graph, edges),
{
    assert forall|k: int| 0 <= k < edges.len() implies (#[trigger] edges[k]).from == step_start(
        from,
        edges,
        k,
    ) && graph.edges().contains(edges[k]) && edge_known(graph, edges[k]) by {
        let e = edges[k];
        let at = step_start(from, edges, k);
        assert(graph.edges_from(at).contains(e));
        assert(graph.edges_from(at) == leaving(graph.edges(), at));
        lemma_selected(graph.edges(), EdgeTest::From, at, e);
        let i = choose|i: int| 0 <= i < graph.edges().len() && graph.edges()[i] == e;
        assert(edge_resolves(graph, graph.edges()[i]));
        assert(e.nodes_ids[0] == e.from);
        assert(e.nodes_ids[e.nodes_ids.len() - 1] == e.to);
    }
}

/// Whether the tags make a way count as roundabout.
pub fn is_roundabout_like(tags: &Tags) -> (yes: bool)
    ensures
        yes == roundabout_like(tags@),
{
    tags.has("highway", "motorway_link") || tags.has("junction", "roundabout")
}

/// Which way a route turns that runs first from `prev_from` to `prev_to`
/// and then from `from` to `to`.
pub fn turn_between(prev_from: &Node, prev_to: &Node, from: &Node, to: &Node) -> (turn: Turn)
    ensures
        turn == turn_direction(prev_from@, prev_to@, from@, to@),
{
    let px: i128 = prev_to.lon as i128 - prev_from.lon as i128;
    let py: i128 = prev_to.lat as i128 - prev_from.lat as i128;
    let cx: i128 = to.lon as i128 - from.lon as i128;
    let cy: i128 = to.lat as i128 - from.lat as i128;
    let (bx, by): (i128, i128) = if px == 0 && py == 0 {
        (1, 0)
    } else {
        (px, py)
    };
    let (ax, ay): (i128, i128) = if cx == 0 && cy == 0 {
        (1, 0)
    } else {
        (cx, cy)
    };
    assert(-0x1_0000_0000_0000_0000 <= bx * ay <= 0x1_0000_0000_0000_0000
        && -0x1_0000_0000_0000_0000 <= by * ax <= 0x1_0000_0000_0000_0000) by (nonlinear_arith)
        requires
            -0x1_0000_0000 <= bx <= 0x1_0000_0000,
            -0x1_0000_0000 <= by <= 0x1_0000_0000,
            -0x1_0000_0000 <= ax <= 0x1_0000_0000,
            -0x1_0000_0000 <= ay <= 0x1_0000_0000,
    ;
    let area: i128 = bx * ay - by * ax;
    if area > 0 {
        Turn::Left
    } else if area < 0 {
        Turn::Right
    } else {
        Turn::Unknown
    }
}

/// The text on entering the named way `way` of `e` from the edge `prev` of
/// the way `prev_way`.
fn road_instruction_text(
    graph: &OSMGraph,
    prev: &Edge,
    prev_way: &Way,
    e: &Edge,
    way: &Way,
    name: &String,
) -> (text: Option<String>)
    requires
        graph.ways().contains_key(e.way_id) && graph.ways()[e.way_id] == way@,
        graph.ways().contains_key(prev.way_id) && graph.ways()[prev.way_id] == prev_way@,
        way@.tags.contains_key("name"@) && way@.tags["name"@] == name@,
    ensures
        match text {
            Some(t) => t@ == road_text(*graph, prev@, e@),
            None => !edge_known(*graph, prev@) || !edge_known(*graph, e@),
        },
{
    let same = match prev_way.get_tags().get("name") {
        Some(prev_name) => *prev_name == *name,
        None => false,
    };
    if same {
        return Some(String::from_str("Continue on road ").concat(name.as_str()));
    }
    let prev_from = match graph.get_node(prev.from) {
        Some(node) => node,
        None => {
            return None;
        },
    };
    let prev_to = match graph.get_node(prev.to) {
        Some(node) => node,
        None => {
            return None;
        },
    };
    let from = match graph.get_node(e.from) {
        Some(node) => node,
        None => {
            return None;
        },
    };
    let to = match graph.get_node(e.to) {
        Some(node) => node,
        None => {
            return None;
        },
    };
    Some(
        match turn_between(prev_from, prev_to, from, to) {
            Turn::Left => String::from_str("Turn left to road ").concat(name.as_str()),
            Turn::Right => String::from_str("Turn right to road ").concat(name.as_str()),
            Turn::Unknown => String::from_str("Turn"),
        },
    )
}

impl OSMGraph {
    /// Appends the positions of the nodes with the ids `ids` to `path`, as
    /// far as the graph holds them; tells whether it holds them all.
    fn append_positions(&self, path: &mut Vec<Coordinate>, ids: &Vec<i64>) -> (ok: bool)
        ensures
            ok == (forall|k: int|
                0 <= k < ids@.len() ==> self.nodes().contains_key(#[trigger] ids@[k])),
            ok ==> final(path)@ == old(path)@ + positions(*self, ids@),
    {
        let mut k: usize = 0;
        while k < ids.len()
            invariant
                k <= ids.len(),
                forall|c: int| 0 <= c < k ==> self.nodes().contains_key(#[trigger] ids@[c]),
                path@ == old(path)@ + positions(*self, ids@.subrange(0, k as int)),
            decreases ids.len() - k,
        {
            match self.get_node(ids[k]) {
                Some(node) => {
                    path.push(Coordinate { latitude: node.lat, longitude: node.lon });
                    assert(path@ =~= old(path)@ + positions(*self, ids@.subrange(0, k + 1)));
                },
                None => {
                    return false;
                },
            }
            k = k + 1;
        }
        assert(ids@.subrange(0, k as int) =~= ids@);
        true
    }

    /// The positions of the nodes with the ids `visited_nodes`, in order:
    /// `None` if the graph does not hold one of them.
    pub fn reconstruct_path(&self, visited_nodes: &Vec<i64>) -> (path: Option<Vec<Coordinate>>)
        ensures
            match path {
                Some(p) => {
                    &&& forall|k: int|
                        0 <= k < visited_nodes@.len() ==> self.nodes().contains_key(
                            #[trigger] visited_nodes@[k],
                        )
                    &&& p@ == positions(*self, visited_nodes@)
                },
                None => exists|k: int|
                    0 <= k < visited_nodes@.len() && !self.nodes().contains_key(
                        #[trigger] visited_nodes@[k],
                    ),
            },
    {
        let mut path: Vec<Coordinate> = Vec::new();
        if self.append_positions(&mut path, visited_nodes) {
            assert(path@ =~= positions(*self, visited_nodes@));
            Some(path)
        } else {
            None
        }
    }

    /// The route along `visited_edges`: the positions of the nodes of each
    /// edge in turn, the instructions, and the length. `None` if the graph
    /// does not hold the way, an end or a node of one of the edges.
    /// `visited_nodes`, the nodes at which the edges meet, is not read: the
    /// edges say all that a route needs.
    pub fn directions_instructions_and_path(
        &self,
        visited_nodes: &Vec<i64>,
        visited_edges: &Vec<Edge>,
    ) -> (route: Option<RouteResult>)
        ensures
            match route {
                Some(r) => {
                    &&& edges_known(*self, edge_views(visited_edges@))
                    &&& r@ == route_of(*self, edge_views(visited_edges@))
                },
                None => !edges_known(*self, edge_views(visited_edges@)),
            },
    {
        let ghost edges = edge_views(visited_edges@);
        let mut path: Vec<Coordinate> = Vec::new();
        let mut instructions: Vec<Instruction> = Vec::new();
        let mut total: u128 = 0;
        let mut since: u128 = 0;
        let mut exits: usize = 0;
        let mut in_roundabout = false;
        let mut prev: usize = 0;
        let mut i: usize = 0;
        assert(instruction_views(instructions@) =~= Seq::<InstructionView>::empty());
        while i < visited_edges.len()
            invariant
                i <= visited_edges.len(),
                edges == edge_views(visited_edges@),
                prev == if i == 0 {
                    0
                } else {
                    i - 1
                },
                forall|j: int| 0 <= j < i ==> edge_known(*self, #[trigger] edges[j]),
                path@ == progress(*self, edges, i as int).path,
                instruction_views(instructions@) == progress(*self, edges, i as int).instructions,
                total == progress(*self, edges, i as int).total,
                since == progress(*self, edges, i as int).since,
                exits == progress(*self, edges, i as int).exits,
                in_roundabout == progress(*self, edges, i as int).in_roundabout,
                progress(*self, edges, i as int).prev == edges[prev as int],
                since <= total <= i * u64::MAX,
                exits <= i,
            decreases visited_edges.len() - i,
        {
            let ghost st = progress(*self, edges, i as int);
            let e = &visited_edges[i];
            assert(e@ == edges[i as int]);
            let way = match self.get_way(e.way_id) {
                Some(way) => way,
                None => {
                    assert(!edge_known(*self, edges[i as int]));
                    return None;
                },
            };
            let first = match self.get_node(e.from) {
                Some(node) => node,
                None => {
                    assert(!edge_known(*self, edges[i as int]));
                    return None;
                },
            };
            if self.get_node(e.to).is_none() {
                assert(!edge_known(*self, edges[i as int]));
                return None;
            }
            if !self.append_positions(&mut path, &e.nodes_ids) {
                proof {
                    let k = choose|k: int|
                        0 <= k < e.nodes_ids@.len() && !self.nodes().contains_key(
                            #[trigger] e.nodes_ids@[k],
                        );
                    assert(!self.nodes().contains_key(edges[i as int].nodes_ids[k]));
                }
                return None;
            }
            assert(edge_known(*self, edges[i as int]));
            assert(total + e.distance <= (i + 1) * u64::MAX) by (nonlinear_arith)
                requires
                    total <= i * u64::MAX,
                    e.distance <= u64::MAX,
            ;
            assert((i + 1) * u64::MAX <= u128::MAX) by (nonlinear_arith)
                requires
                    i <= usize::MAX,
                    usize::MAX <= u64::MAX,
            ;
            total = total + e.distance as u128;
            since = since + e.distance as u128;
            if is_roundabout_like(way.get_tags()) {
                exits = if in_roundabout {
                    exits + 1
                } else {
                    1
                };
                in_roundabout = true;
            } else {
                if in_roundabout {
                    let text = String::from_str("Roundabout exit: ").concat(
                        decimal(exits).as_str(),
                    );
                    let ghost before = instructions@;
                    instructions.push(
                        Instruction {
                            text,
                            distance: since,
                            latitude: first.lat,
                            longitude: first.lon,
                        },
                    );
                    assert(instruction_views(instructions@) =~= instruction_views(before).push(
                        exit_instruction(st.exits, since as int, first@),
                    ));
                    since = 0;
                    exits = 0;
                    in_roundabout = false;
                }
                match way.get_tags().get("name") {
                    Some(name) => {
                        let last = &visited_edges[prev];
                        assert(last@ == edges[prev as int]);
                        if last.way_id != e.way_id {
                            assert(i > 0);
                            assert(edge_known(*self, edges[prev as int]));
                            let prev_way = self.get_way(last.way_id).unwrap();
                            let text = road_instruction_text(
                                self,
                                last,
                                prev_way,
                                e,
                                way,
                                name,
                            ).unwrap();
                            let ghost before = instructions@;
                            instructions.push(
                                Instruction {
                                    text,
                                    distance: since,
                                    latitude: first.lat,
                                    longitude: first.lon,
                                },
                            );
                            assert(instruction_views(instructions@) =~= instruction_views(
                                before,
                            ).push(
                                InstructionView {
                                    text: road_text(*self, st.prev, e@),
                                    distance: since as int,
                                    latitude: first.lat,
                                    longitude: first.lon,
                                },
                            ));
                            since = 0;
                        }
                    },
                    None => {},
                }
            }
            prev = i;
            i = i + 1;
        }
        let route = RouteResult { path, instructions, total_distance: total };
        assert(edges_known(*self, edges));
        Some(route)
    }
}

} // verus!
