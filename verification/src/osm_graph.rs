//! The graph store: nodes, ways and the contracted edges, with the lookups
//! that routing needs.

use crate::graph::{lemma_planar_distance, planar_distance_sq, Node, NodeView, Way, WayView};
use std::collections::HashMap;
use vstd::prelude::*;
use vstd::std_specs::hash::*;

verus! {

/// What an edge is.
pub struct EdgeView {
    pub from: i64,
    pub to: i64,
    pub distance: u64,
    pub weight: u64,
    pub time: u64,
    pub nodes_ids: Seq<i64>,
    pub way_id: i64,
}

/// A directed arc between two nodes.
///
/// `nodes_ids` is every node the arc runs through, `from` and `to` included.
/// `distance` is its length, `weight` its routing cost, `time` is kept for a
/// traversal time and `way_id` names the way it was cut from.
#[derive(Clone, Debug, PartialEq, Eq)]
pub struct Edge {
    pub from: i64,
    pub to: i64,
    pub distance: u64,
    pub weight: u64,
    pub time: u64,
    pub nodes_ids: Vec<i64>,
    pub way_id: i64,
}

impl View for Edge {
    type V = EdgeView;

    open spec fn view(&self) -> EdgeView {
        EdgeView {
            from: self.from,
            to: self.to,
            distance: self.distance,
            weight: self.weight,
            time: self.time,
            nodes_ids: self.nodes_ids@,
            way_id: self.way_id,
        }
    }
}

impl Edge {
    pub fn new(
        from: i64,
        to: i64,
        distance: u64,
        weight: u64,
        time: u64,
        nodes_ids: Vec<i64>,
        way_id: i64,
    ) -> (edge: Edge)
        ensures
            edge@ == (EdgeView {
                from,
                to,
                distance,
                weight,
                time,
                nodes_ids: nodes_ids@,
                way_id,
            }),
    {
        Edge { from, to, distance, weight, time, nodes_ids, way_id }
    }

    /// A copy of the edge.
    pub fn duplicate(&self) -> (copy: Edge)
        ensures
            copy@ == self@,
    {
        Edge {
            from: self.from,
            to: self.to,
            distance: self.distance,
            weight: self.weight,
            time: self.time,
            nodes_ids: self.nodes_ids.clone(),
            way_id: self.way_id,
        }
    }
}

/// The views of a list of edges, in order.
pub open spec fn edge_views(edges: Seq<Edge>) -> Seq<EdgeView> {
    edges.map_values(|e: Edge| e@)
}

/// The views of a list of borrowed edges, in order.
pub open spec fn borrowed_views(edges: Seq<&Edge>) -> Seq<EdgeView> {
    edges.map_values(|e: &Edge| e@)
}

/// How an edge is matched against a node: by its first node, by its last
/// node, or by any node it runs through.
#[derive(Clone, Copy, Debug, PartialEq, Eq, Structural)]
pub enum EdgeTest {
    From,
    To,
    Through,
}

/// Whether the edge matches the node under the test.
pub open spec fn edge_passes(e: EdgeView, test: EdgeTest, node_id: i64) -> bool {
    match test {
        EdgeTest::From => e.from == node_id,
        EdgeTest::To => e.to == node_id,
        EdgeTest::Through => e.nodes_ids.contains(node_id),
    }
}

/// The edges of `edges` that match the node under the test, in order.
pub open spec fn select(edges: Seq<EdgeView>, test: EdgeTest, node_id: i64) -> Seq<EdgeView>
    decreases edges.len(),
{
    if edges.len() == 0 {
        Seq::empty()
    } else if edge_passes(edges.last(), test, node_id) {
        select(edges.drop_last(), test, node_id).push(edges.last())
    } else {
        select(edges.drop_last(), test, node_id)
    }
}

/// What is selected is among the edges and matches the node under the
/// test.
pub proof fn lemma_selected(edges: Seq<EdgeView>, test: EdgeTest, node_id: i64, e: EdgeView)
    requires
        select(edges, test, node_id).contains(e),
    ensures
        edges.contains(e),
        edge_passes(e, test, node_id),
    decreases edges.len(),
{
    if edges.len() > 0 {
        let found = select(edges, test, node_id);
        let k = choose|k: int| 0 <= k < found.len() && found[k] == e;
        let rest = select(edges.drop_last(), test, node_id);
        if edge_passes(edges.last(), test, node_id) && k == rest.len() {
            assert(edges[edges.len() - 1] == e);
        } else {
            assert(rest[k] == e);
            lemma_selected(edges.drop_last(), test, node_id, e);
            let j = choose|j: int| 0 <= j < edges.drop_last().len() && edges.drop_last()[j] == e;
            assert(edges[j] == e);
        }
    }
}

/// The edges of `edges` that leave the node, in order; where there are
/// none, those that run through it.
pub open spec fn from_or_containing(edges: Seq<EdgeView>, node_id: i64) -> Seq<EdgeView> {
    if select(edges, EdgeTest::From, node_id).len() > 0 {
        select(edges, EdgeTest::From, node_id)
    } else {
        select(edges, EdgeTest::Through, node_id)
    }
}

/// The position of the first of the first `upto` distances that no other
/// of them is below.
pub open spec fn nearest_index(distances: Seq<u128>, upto: int) -> int
    decreases upto,
{
    if upto <= 1 {
        0
    } else if distances[upto - 1] < distances[nearest_index(distances, upto - 1)] {
        upto - 1
    } else {
        nearest_index(distances, upto - 1)
    }
}

/// Of the nodes `order` that have a distance, the first that none is nearer
/// than. The node at a position has the distance at that position; one
/// beyond the end of `distances` has none.
pub open spec fn nearest_of(order: Seq<i64>, distances: Seq<u128>) -> Option<i64> {
    if distances.len() == 0 || order.len() == 0 {
        None
    } else if distances.len() <= order.len() {
        Some(order[nearest_index(distances, distances.len() as int)])
    } else {
        Some(order[nearest_index(distances, order.len() as int)])
    }
}

/// A node at the distance zero, with no node before it at that distance, is
/// the nearest.
pub proof fn lemma_node_at_zero_is_nearest(order: Seq<i64>, distances: Seq<u128>, i: int)
    requires
        0 <= i < order.len(),
        i < distances.len(),
        distances[i] == 0,
        forall|j: int| 0 <= j < i ==> #[trigger] distances[j] != 0,
    ensures
        nearest_of(order, distances) == Some(order[i]),
{
    if distances.len() <= order.len() {
        lemma_nearest_at_zero(distances, distances.len() as int, i);
    } else {
        lemma_nearest_at_zero(distances, order.len() as int, i);
    }
}

/// The position that `nearest_index` gives is among the first `upto`, no
/// distance among them is below the one at it, and each one before it is
/// above.
pub proof fn lemma_nearest_index(distances: Seq<u128>, upto: int)
    requires
        1 <= upto <= distances.len(),
    ensures
        0 <= nearest_index(distances, upto) < upto,
        forall|j: int|
            0 <= j < upto ==> distances[nearest_index(distances, upto)] <= #[trigger] distances[j],
        forall|j: int|
            0 <= j < nearest_index(distances, upto) ==> distances[nearest_index(distances, upto)]
                < #[trigger] distances[j],
    decreases upto,
{
    if upto > 1 {
        lemma_nearest_index(distances, upto - 1);
    }
}

/// A position with the distance zero that has no zero before it is the
/// nearest.
pub proof fn lemma_nearest_at_zero(distances: Seq<u128>, upto: int, i: int)
    requires
        0 <= i < upto <= distances.len(),
        distances[i] == 0,
        forall|j: int| 0 <= j < i ==> #[trigger] distances[j] != 0,
    ensures
        nearest_index(distances, upto) == i,
{
    lemma_nearest_index(distances, upto);
    let best = nearest_index(distances, upto);
    if best < i {
        assert(distances[best] != 0);
        assert(distances[best] <= distances[i]);
    } else if best > i {
        assert(distances[best] < distances[i]);
    }
}

/// An entry of the search frontier: a node and the cost of reaching it.
#[derive(Clone, Copy, Debug)]
pub struct State {
    pub node_id: i64,
    pub distance: u128,
}

impl State {
    pub fn new(node_id: i64, distance: u128) -> (state: State)
        ensures
            state == (State { node_id, distance }),
    {
        State { node_id, distance }
    }
}

/// Whether `node_id` is among `ids`.
pub fn runs_through(ids: &Vec<i64>, node_id: i64) -> (yes: bool)
    ensures
        yes == ids@.contains(node_id),
{
    let mut k: usize = 0;
    while k < ids.len()
        invariant
            k <= ids.len(),
            forall|c: int| 0 <= c < k ==> ids@[c] != node_id,
        decreases ids.len() - k,
    {
        if ids[k] == node_id {
            return true;
        }
        k = k + 1;
    }
    false
}

/// The nodes, ways and edges of a road map.
///
/// Nodes and ways are kept by id; a second record with the id of an earlier
/// one replaces it. Edges are kept twice: in a flat list, in the order in
/// which they were added, and in an index from a node id to the edges filed
/// under it.
#[derive(Clone, Debug)]
pub struct OSMGraph {
    nodes: HashMap<i64, Node>,
    node_order: Vec<i64>,
    ways: HashMap<i64, Way>,
    edges: Vec<Edge>,
    edges_from_node: HashMap<i64, Vec<Edge>>,
    empty_edges: Vec<Edge>,
}

impl OSMGraph {
    /// The nodes of the graph, by id.
    pub closed spec fn nodes(&self) -> Map<i64, NodeView> {
        self.nodes@.map_values(|n: Node| n@)
    }

    /// The ids of the nodes, in the order in which they first came in.
    pub closed spec fn node_order(&self) -> Seq<i64> {
        self.node_order@
    }

    /// The ways of the graph, by id.
    pub closed spec fn ways(&self) -> Map<i64, WayView> {
        self.ways@.map_values(|w: Way| w@)
    }

    /// The flat list of edges.
    pub closed spec fn edges(&self) -> Seq<EdgeView> {
        edge_views(self.edges@)
    }

    /// The index of edges by the node they are filed under.
    pub closed spec fn index(&self) -> Map<i64, Seq<EdgeView>> {
        self.edges_from_node@.map_values(|v: Vec<Edge>| edge_views(v@))
    }

    /// The edges filed under a node: none where the index has no entry.
    pub open spec fn edges_from(&self, node_id: i64) -> Seq<EdgeView> {
        if self.index().contains_key(node_id) {
            self.index()[node_id]
        } else {
            Seq::empty()
        }
    }

    /// The store is consistent: the order of the nodes names each node once.
    pub closed spec fn wf(&self) -> bool {
        &&& self.node_order@.no_duplicates()
        &&& forall|i: int|
            0 <= i < self.node_order@.len() ==> self.nodes@.contains_key(
                #[trigger] self.node_order@[i],
            )
        &&& forall|id: i64| #[trigger]
            self.nodes@.contains_key(id) ==> self.node_order@.contains(id)
        &&& self.empty_edges@.len() == 0
    }

    proof fn lemma_wf_frame(a: &OSMGraph, b: &OSMGraph)
        requires
            a.nodes@ == b.nodes@,
            a.node_order@ == b.node_order@,
            a.empty_edges@ == b.empty_edges@,
        ensures
            a.wf() == b.wf(),
    {
    }

    /// In a consistent store the order of the nodes holds each id of a node
    /// once and nothing else.
    pub proof fn lemma_order_names_nodes(&self)
        requires
            self.wf(),
        ensures
            self.node_order().no_duplicates(),
            forall|i: int|
                0 <= i < self.node_order().len() ==> self.nodes().contains_key(
                    #[trigger] self.node_order()[i],
                ),
            forall|id: i64|
                self.nodes().contains_key(id) ==> exists|i: int|
                    0 <= i < self.node_order().len() && self.node_order()[i] == id,
            self.nodes().dom().finite(),
            self.node_order().len() == self.nodes().len(),
    {
        broadcast use vstd::std_specs::hash::group_hash_axioms;

        assert(self.nodes().dom() =~= self.nodes@.dom());
        assert forall|id: i64| self.nodes().contains_key(id) implies exists|i: int|
            0 <= i < self.node_order().len() && self.node_order()[i] == id by {
            assert(self.nodes@.contains_key(id));
            assert(self.node_order@.contains(id));
            let i = choose|i: int| 0 <= i < self.node_order@.len() && self.node_order@[i] == id;
            assert(self.node_order()[i] == id);
        }
        self.node_order@.unique_seq_to_set();
        assert(self.node_order@.to_set() =~= self.nodes@.dom()) by {
            assert forall|id: i64|
                self.nodes@.dom().contains(id) implies self.node_order@.to_set().contains(
                id,
            ) by {
                assert(self.nodes@.contains_key(id));
                assert(self.node_order@.contains(id));
            }
        }
        assert(self.nodes().dom() =~= self.nodes@.dom());
    }

    pub fn new() -> (graph: OSMGraph)
        ensures
            graph.wf(),
            graph.nodes() == Map::<i64, NodeView>::empty(),
            graph.node_order() == Seq::<i64>::empty(),
            graph.ways() == Map::<i64, WayView>::empty(),
            graph.edges() == Seq::<EdgeView>::empty(),
            graph.index() == Map::<i64, Seq<EdgeView>>::empty(),
    {
        let graph = OSMGraph {
            nodes: HashMap::new(),
            node_order: Vec::new(),
            ways: HashMap::new(),
            edges: Vec::new(),
            edges_from_node: HashMap::new(),
            empty_edges: Vec::new(),
        };
        assert(graph.nodes() =~= Map::<i64, NodeView>::empty());
        assert(graph.ways() =~= Map::<i64, WayView>::empty());
        assert(graph.edges() =~= Seq::<EdgeView>::empty());
        assert(graph.index() =~= Map::<i64, Seq<EdgeView>>::empty());
        graph
    }

    /// Stores a copy of `node` under its id. A node that was stored under
    /// that id before is replaced and keeps its place in the order.
    pub fn add_node(&mut self, node: &Node)
        ensures
            old(self).wf() ==> final(self).wf(),
            final(self).nodes() == old(self).nodes().insert(node.id, node@),
            final(self).node_order() == if old(self).nodes().contains_key(node.id) {
                old(self).node_order()
            } else {
                old(self).node_order().push(node.id)
            },
            final(self).ways() == old(self).ways(),
            final(self).edges() == old(self).edges(),
            final(self).index() == old(self).index(),
    {
        broadcast use vstd::std_specs::hash::group_hash_axioms;

        let copy = node.duplicate();
        let known = self.nodes.contains_key(&node.id);
        self.nodes.insert(node.id, copy);
        if !known {
            self.node_order.push(node.id);
        }
        proof {
            if old(self).wf() {
                if !known {
                    assert(!old(self).node_order@.contains(node.id)) by {
                        if old(self).node_order@.contains(node.id) {
                            let i = choose|i: int|
                                0 <= i < old(self).node_order@.len() && old(self).node_order@[i]
                                    == node.id;
                            assert(old(self).nodes@.contains_key(old(self).node_order@[i]));
                        }
                    }
                    assert(self.node_order@[old(self).node_order@.len() as int] == node.id);
                }
                assert forall|id: i64| #[trigger]
                    self.nodes@.contains_key(id) implies self.node_order@.contains(id) by {
                    if id == node.id {
                        if known {
                            assert(old(self).nodes@.contains_key(id));
                            assert(old(self).node_order@.contains(id));
                        }
                    } else {
                        assert(old(self).nodes@.contains_key(id));
                        assert(old(self).node_order@.contains(id));
                        let i = choose|i: int|
                            0 <= i < old(self).node_order@.len() && old(self).node_order@[i]
                                == id;
                        assert(self.node_order@[i] == id);
                    }
                }
            }
        }
        assert(self.nodes() =~= old(self).nodes().insert(node.id, node@));
    }

    /// Stores a copy of `way` under its id, in place of any way stored under
    /// that id before.
    pub fn add_way(&mut self, way: &Way)
        ensures
            final(self).wf() == old(self).wf(),
            final(self).ways() == old(self).ways().insert(way@.id, way@),
            final(self).nodes() == old(self).nodes(),
            final(self).node_order() == old(self).node_order(),
            final(self).edges() == old(self).edges(),
            final(self).index() == old(self).index(),
    {
        broadcast use vstd::std_specs::hash::group_hash_axioms;

        let copy = way.duplicate();
        self.ways.insert(way.get_id(), copy);
        proof {
            Self::lemma_wf_frame(old(self), self);
        }
        assert(self.ways() =~= old(self).ways().insert(way@.id, way@));
    }

    /// Appends `edge` to the flat list of edges.
    pub fn add_edge(&mut self, edge: Edge)
        ensures
            final(self).wf() == old(self).wf(),
            final(self).edges() == old(self).edges().push(edge@),
            final(self).nodes() == old(self).nodes(),
            final(self).node_order() == old(self).node_order(),
            final(self).ways() == old(self).ways(),
            final(self).index() == old(self).index(),
    {
        self.edges.push(edge);
        proof {
            Self::lemma_wf_frame(old(self), self);
        }
        assert(self.edges() =~= old(self).edges().push(edge@));
    }

    /// Files `edge` in the index under `node_id`, behind the edges already
    /// filed there.
    pub fn add_edge_from_node(&mut self, node_id: i64, edge: Edge)
        ensures
            final(self).wf() == old(self).wf(),
            final(self).index() == old(self).index().insert(
                node_id,
                old(self).edges_from(node_id).push(edge@),
            ),
            final(self).nodes() == old(self).nodes(),
            final(self).node_order() == old(self).node_order(),
            final(self).ways() == old(self).ways(),
            final(self).edges() == old(self).edges(),
    {
        broadcast use vstd::std_specs::hash::group_hash_axioms;

        let mut filed: Vec<Edge> = match self.edges_from_node.remove(&node_id) {
            Some(v) => v,
            None => Vec::new(),
        };
        assert(edge_views(filed@) =~= old(self).edges_from(node_id));
        filed.push(edge);
        assert(edge_views(filed@) =~= old(self).edges_from(node_id).push(edge@));
        self.edges_from_node.insert(node_id, filed);
        proof {
            Self::lemma_wf_frame(old(self), self);
        }
        assert(self.index() =~= old(self).index().insert(
            node_id,
            old(self).edges_from(node_id).push(edge@),
        ));
    }

    pub fn get_node_count(&self) -> (count: usize)
        ensures
            count == self.nodes().len(),
    {
        broadcast use vstd::std_specs::hash::group_hash_axioms;

        assert(self.nodes().dom() =~= self.nodes@.dom());
        self.nodes.len()
    }

    pub fn get_way_count(&self) -> (count: usize)
        ensures
            count == self.ways().len(),
    {
        broadcast use vstd::std_specs::hash::group_hash_axioms;

        assert(self.ways().dom() =~= self.ways@.dom());
        self.ways.len()
    }

    pub fn get_edge_count(&self) -> (count: usize)
        ensures
            count == self.edges().len(),
    {
        self.edges.len()
    }

    /// The nodes, by id.
    pub fn get_nodes(&self) -> (nodes: &HashMap<i64, Node>)
        ensures
            nodes@.map_values(|n: Node| n@) == self.nodes(),
    {
        &self.nodes
    }

    /// The ways, by id.
    pub fn get_ways(&self) -> (ways: &HashMap<i64, Way>)
        ensures
            ways@.map_values(|w: Way| w@) == self.ways(),
    {
        &self.ways
    }

    /// The flat list of edges.
    pub fn get_edges(&self) -> (edges: &Vec<Edge>)
        ensures
            edge_views(edges@) == self.edges(),
    {
        &self.edges
    }

    /// The node stored under `id`, if there is one.
    pub fn get_node(&self, id: i64) -> (node: Option<&Node>)
        ensures
            match node {
                Some(n) => self.nodes().contains_key(id) && self.nodes()[id] == n@,
                None => !self.nodes().contains_key(id),
            },
    {
        broadcast use vstd::std_specs::hash::group_hash_axioms;

        self.nodes.get(&id)
    }

    /// The way stored under `id`, if there is one.
    pub fn get_way(&self, id: i64) -> (way: Option<&Way>)
        ensures
            match way {
                Some(w) => self.ways().contains_key(id) && self.ways()[id] == w@,
                None => !self.ways().contains_key(id),
            },
    {
        broadcast use vstd::std_specs::hash::group_hash_axioms;

        self.ways.get(&id)
    }

    /// The squared planar distance between the nodes `a` and `b`.
    pub open spec fn gap(&self, a: i64, b: i64) -> int {
        planar_distance_sq(
            self.nodes()[a].lat,
            self.nodes()[a].lon,
            self.nodes()[b].lat,
            self.nodes()[b].lon,
        )
    }

    /// The squared planar distance between two nodes: `None` if the graph
    /// does not hold one of them.
    pub fn get_distance(&self, from: i64, to: i64) -> (distance: Option<u128>)
        ensures
            match distance {
                Some(d) => self.nodes().contains_key(from) && self.nodes().contains_key(to) && d
                    == self.gap(from, to),
                None => !self.nodes().contains_key(from) || !self.nodes().contains_key(to),
            },
    {
        match (self.get_node(from), self.get_node(to)) {
            (Some(a), Some(b)) => Some(a.get_distance(b.lat, b.lon)),
            _ => None,
        }
    }

    /// The ids of the nodes, in the order in which they first came in.
    pub fn get_node_ids(&self) -> (ids: Vec<i64>)
        ensures
            ids@ == self.node_order(),
    {
        self.node_order.clone()
    }

    /// Of the nodes that have a distance, the one with the least; of several
    /// with the least, the first in the order of the nodes.
    ///
    /// `distances` gives, for each node in the order of `get_node_ids`, how
    /// far it is from the place asked for. A node beyond the end of
    /// `distances` has no distance and is passed over. `None` where no node
    /// has a distance: with no nodes, or no distances.
    pub fn get_nearest_node(&self, distances: &Vec<u128>) -> (nearest: Option<i64>)
        ensures
            nearest == nearest_of(self.node_order(), distances@),
    {
        let count = if distances.len() <= self.node_order.len() {
            distances.len()
        } else {
            self.node_order.len()
        };
        if count == 0 {
            return None;
        }
        let mut best: usize = 0;
        let mut i: usize = 1;
        while i < count
            invariant
                1 <= i <= count,
                count <= distances@.len(),
                count <= self.node_order@.len(),
                best == nearest_index(distances@, i as int),
                best < i,
            decreases count - i,
        {
            if distances[i] < distances[best] {
                best = i;
            }
            i = i + 1;
        }
        Some(self.node_order[best])
    }

    /// The squared planar distances from a position to each node, in the
    /// order of the nodes.
    pub open spec fn planar_probe(&self, lat: i32, lon: i32) -> Seq<u128> {
        Seq::new(
            self.node_order().len(),
            |k: int|
                planar_distance_sq(
                    self.nodes()[self.node_order()[k]].lat,
                    self.nodes()[self.node_order()[k]].lon,
                    lat,
                    lon,
                ) as u128,
        )
    }

    /// The squared planar distances from a position to each node, in the
    /// order of the nodes.
    pub fn get_planar_distances(&self, lat: i32, lon: i32) -> (distances: Vec<u128>)
        requires
            self.wf(),
        ensures
            distances@ == self.planar_probe(lat, lon),
    {
        let mut distances: Vec<u128> = Vec::new();
        let mut i: usize = 0;
        while i < self.node_order.len()
            invariant
                self.wf(),
                i <= self.node_order.len(),
                distances@.len() == i,
                forall|k: int| 0 <= k < i ==> distances@[k] == self.planar_probe(lat, lon)[k],
            decreases self.node_order.len() - i,
        {
            assert(self.nodes@.contains_key(self.node_order@[i as int]));
            let node = self.get_node(self.node_order[i]).unwrap();
            distances.push(node.get_distance(lat, lon));
            i = i + 1;
        }
        assert(distances@ =~= self.planar_probe(lat, lon));
        distances
    }

    /// The node nearest to a position by planar distance; of several at the
    /// least distance, the first in the order of the nodes. `None` in a
    /// graph without nodes.
    pub fn get_nearest_node_planar(&self, lat: i32, lon: i32) -> (nearest: Option<i64>)
        requires
            self.wf(),
        ensures
            nearest == nearest_of(self.node_order(), self.planar_probe(lat, lon)),
            nearest.is_none() <==> self.nodes().len() == 0,
    {
        proof {
            self.lemma_order_names_nodes();
        }
        let distances = self.get_planar_distances(lat, lon);
        self.get_nearest_node(&distances)
    }

    /// A node is the nearest node to its own position, unless a node
    /// before it in the order of the nodes lies at the same position.
    pub proof fn lemma_node_is_its_own_nearest(&self, i: int)
        requires
            self.wf(),
            0 <= i < self.node_order().len(),
            forall|j: int|
                0 <= j < i ==> {
                    let other = self.nodes()[#[trigger] self.node_order()[j]];
                    let this = self.nodes()[self.node_order()[i]];
                    other.lat != this.lat || other.lon != this.lon
                },
        ensures
            nearest_of(
                self.node_order(),
                self.planar_probe(
                    self.nodes()[self.node_order()[i]].lat,
                    self.nodes()[self.node_order()[i]].lon,
                ),
            ) == Some(self.node_order()[i]),
    {
        let this = self.nodes()[self.node_order()[i]];
        let probe = self.planar_probe(this.lat, this.lon);
        lemma_planar_distance(this.lat, this.lon, this.lat, this.lon);
        assert(probe[i] == 0);
        assert forall|j: int| 0 <= j < i implies #[trigger] probe[j] != 0 by {
            let other = self.nodes()[self.node_order()[j]];
            lemma_planar_distance(other.lat, other.lon, this.lat, this.lon);
        }
        lemma_node_at_zero_is_nearest(self.node_order(), probe, i);
    }

    /// The edges of the flat list that match the node under the test, in
    /// the order of the list.
    fn select_edges(&self, test: EdgeTest, node_id: i64) -> (found: Vec<&Edge>)
        ensures
            borrowed_views(found@) == select(self.edges(), test, node_id),
    {
        let mut found: Vec<&Edge> = Vec::new();
        let mut i: usize = 0;
        assert(self.edges().subrange(0, 0) =~= Seq::<EdgeView>::empty());
        assert(borrowed_views(found@) =~= Seq::<EdgeView>::empty());
        while i < self.edges.len()
            invariant
                i <= self.edges.len(),
                borrowed_views(found@) == select(
                    self.edges().subrange(0, i as int),
                    test,
                    node_id,
                ),
            decreases self.edges.len() - i,
        {
            let edge = &self.edges[i];
            assert(self.edges().subrange(0, i + 1).drop_last() =~= self.edges().subrange(
                0,
                i as int,
            ));
            assert(self.edges().subrange(0, i + 1).last() == edge@);
            let passes = match test {
                EdgeTest::From => edge.from == node_id,
                EdgeTest::To => edge.to == node_id,
                EdgeTest::Through => runs_through(&edge.nodes_ids, node_id),
            };
            if passes {
                let ghost before = found@;
                found.push(edge);
                assert(borrowed_views(found@) =~= borrowed_views(before).push(edge@));
            }
            i = i + 1;
        }
        assert(self.edges().subrange(0, i as int) =~= self.edges());
        found
    }

    /// The edges of the flat list that leave `node_id`, in the order of the
    /// list.
    pub fn get_edges_from_node(&self, node_id: i64) -> (found: Vec<&Edge>)
        ensures
            borrowed_views(found@) == select(self.edges(), EdgeTest::From, node_id),
    {
        self.select_edges(EdgeTest::From, node_id)
    }

    /// The edges of the flat list that end at `node_id`, in the order of the
    /// list.
    pub fn get_edges_to_node(&self, node_id: i64) -> (found: Vec<&Edge>)
        ensures
            borrowed_views(found@) == select(self.edges(), EdgeTest::To, node_id),
    {
        self.select_edges(EdgeTest::To, node_id)
    }

    /// The edges of the flat list that run through `node_id`, in the order
    /// of the list.
    pub fn get_edges_containing_node(&self, node_id: i64) -> (found: Vec<&Edge>)
        ensures
            borrowed_views(found@) == select(self.edges(), EdgeTest::Through, node_id),
    {
        self.select_edges(EdgeTest::Through, node_id)
    }

    /// The edges of the flat list that leave `node_id`; where there are
    /// none, those that run through it. Either way in the order of the list.
    pub fn get_edges_from_node_or_containing(&self, node_id: i64) -> (found: Vec<&Edge>)
        ensures
            borrowed_views(found@) == from_or_containing(self.edges(), node_id),
    {
        let leaving = self.select_edges(EdgeTest::From, node_id);
        if leaving.len() > 0 {
            leaving
        } else {
            self.select_edges(EdgeTest::Through, node_id)
        }
    }

    /// The first path, and behind it the second without its first node.
    pub fn combine_paths(&self, path_1: Vec<i64>, path_2: Vec<i64>) -> (combined: Vec<i64>)
        ensures
            combined@ == if path_2@.len() == 0 {
                path_1@
            } else {
                path_1@ + path_2@.subrange(1, path_2@.len() as int)
            },
    {
        let mut combined = path_1;
        let mut i: usize = 1;
        while i < path_2.len()
            invariant
                1 <= i,
                path_2@.len() > 0 ==> i <= path_2@.len(),
                path_2@.len() == 0 ==> combined@ == path_1@,
                path_2@.len() > 0 ==> combined@ == path_1@ + path_2@.subrange(1, i as int),
            decreases path_2.len() - i,
        {
            combined.push(path_2[i]);
            assert(combined@ =~= path_1@ + path_2@.subrange(1, i + 1));
            i = i + 1;
        }
        combined
    }

    /// The edges filed in the index under `node_id`, if any were filed
    /// there.
    pub fn get_edges_filed_under(&self, node_id: i64) -> (edges: Option<&Vec<Edge>>)
        ensures
            match edges {
                Some(filed) => self.index().contains_key(node_id) && edge_views(filed@)
                    == self.index()[node_id],
                None => !self.index().contains_key(node_id),
            },
    {
        broadcast use vstd::std_specs::hash::group_hash_axioms;

        self.edges_from_node.get(&node_id)
    }

    /// The edges filed in the index under `node_id`: an empty list where
    /// there are none.
    pub fn get_edges_from_node_fast(&self, node_id: &i64) -> (edges: &Vec<Edge>)
        requires
            self.wf(),
        ensures
            edge_views(edges@) == self.edges_from(*node_id),
    {
        broadcast use vstd::std_specs::hash::group_hash_axioms;

        match self.edges_from_node.get(node_id) {
            Some(edges) => edges,
            None => {
                assert(edge_views(self.empty_edges@) =~= Seq::<EdgeView>::empty());
                &self.empty_edges
            },
        }
    }
}

} // verus!
