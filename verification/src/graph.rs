//! The records a map is made of: nodes and ways.

use crate::tags::Tags;
use vstd::prelude::*;

verus! {

/// What a node is: its id, its position in units of 1e-7 degree, its tags.
pub struct NodeView {
    pub id: i64,
    pub lat: i32,
    pub lon: i32,
    pub tags: Map<Seq<char>, Seq<char>>,
}

/// A point of the map. Latitude and longitude are integers in units of
/// 1e-7 degree.
#[derive(Clone, Debug)]
pub struct Node {
    pub id: i64,
    pub lat: i32,
    pub lon: i32,
    pub tags: Tags,
}

impl View for Node {
    type V = NodeView;

    open spec fn view(&self) -> NodeView {
        NodeView { id: self.id, lat: self.lat, lon: self.lon, tags: self.tags@ }
    }
}

/// The squared planar distance between two positions.
pub open spec fn planar_distance_sq(lat_a: i32, lon_a: i32, lat_b: i32, lon_b: i32) -> int {
    (lat_a - lat_b) * (lat_a - lat_b) + (lon_a - lon_b) * (lon_a - lon_b)
}

/// The squared planar distance is the same in both directions, never
/// negative, less than two to the power of 65, and zero from a position to
/// itself and to no other.
pub proof fn lemma_planar_distance(lat_a: i32, lon_a: i32, lat_b: i32, lon_b: i32)
    ensures
        planar_distance_sq(lat_a, lon_a, lat_b, lon_b) == planar_distance_sq(
            lat_b,
            lon_b,
            lat_a,
            lon_a,
        ),
        planar_distance_sq(lat_a, lon_a, lat_b, lon_b) >= 0,
        planar_distance_sq(lat_a, lon_a, lat_b, lon_b) < 0x2_0000_0000_0000_0000,
        planar_distance_sq(lat_a, lon_a, lat_b, lon_b) == 0 <==> (lat_a == lat_b && lon_a
            == lon_b),
{
    let x = lat_a - lat_b;
    let y = lon_a - lon_b;
    assert(x * x < 0x1_0000_0000_0000_0000 && y * y < 0x1_0000_0000_0000_0000)
        by (nonlinear_arith)
        requires
            -0x1_0000_0000 < x < 0x1_0000_0000,
            -0x1_0000_0000 < y < 0x1_0000_0000,
    ;
    assert(x * x == (-x) * (-x) && y * y == (-y) * (-y)) by (nonlinear_arith);
    assert(x * x >= 0 && y * y >= 0 && (x * x == 0 <==> x == 0) && (y * y == 0 <==> y == 0))
        by (nonlinear_arith);
}

impl Node {
    pub fn new(id: i64, lat: i32, lon: i32, tags: Tags) -> (node: Node)
        ensures
            node@ == (NodeView { id, lat, lon, tags: tags@ }),
    {
        Node { id, lat, lon, tags }
    }

    /// The squared planar distance from this node to a position: the sum of
    /// the squared differences of the coordinates.
    pub fn get_distance(&self, lat: i32, lon: i32) -> (d: u128)
        ensures
            d == planar_distance_sq(self.lat, self.lon, lat, lon),
    {
        let x: i128 = self.lat as i128 - lat as i128;
        let y: i128 = self.lon as i128 - lon as i128;
        assert(0 <= x * x <= 0x1_0000_0000_0000_0000 && 0 <= y * y <= 0x1_0000_0000_0000_0000)
            by (nonlinear_arith)
            requires
                -0x1_0000_0000 <= x <= 0x1_0000_0000,
                -0x1_0000_0000 <= y <= 0x1_0000_0000,
        ;
        (x * x + y * y) as u128
    }

    pub fn get_id(&self) -> (id: i64)
        ensures
            id == self.id,
    {
        self.id
    }

    pub fn get_lat(&self) -> (lat: i32)
        ensures
            lat == self.lat,
    {
        self.lat
    }

    pub fn get_lon(&self) -> (lon: i32)
        ensures
            lon == self.lon,
    {
        self.lon
    }

    pub fn get_tags(&self) -> (tags: &Tags)
        ensures
            tags@ == self@.tags,
    {
        &self.tags
    }

    /// A copy of the node.
    pub fn duplicate(&self) -> (copy: Node)
        ensures
            copy@ == self@,
    {
        Node { id: self.id, lat: self.lat, lon: self.lon, tags: self.tags.duplicate() }
    }
}

/// What a way is: its id, the nodes it runs through, in order, and its tags.
pub struct WayView {
    pub id: i64,
    pub node_ids: Seq<i64>,
    pub tags: Map<Seq<char>, Seq<char>>,
}

/// A road: an ordered run of nodes with tags.
#[derive(Clone, Debug)]
pub struct Way {
    id: i64,
    node_ids: Vec<i64>,
    tags: Tags,
}

impl View for Way {
    type V = WayView;

    closed spec fn view(&self) -> WayView {
        WayView { id: self.id, node_ids: self.node_ids@, tags: self.tags@ }
    }
}

impl Way {
    pub fn new(id: i64, node_ids: Vec<i64>, tags: Tags) -> (way: Way)
        ensures
            way@ == (WayView { id, node_ids: node_ids@, tags: tags@ }),
    {
        Way { id, node_ids, tags }
    }

    pub fn get_node_ids(&self) -> (node_ids: &Vec<i64>)
        ensures
            node_ids@ == self@.node_ids,
    {
        &self.node_ids
    }

    pub fn get_id(&self) -> (id: i64)
        ensures
            id == self@.id,
    {
        self.id
    }

    pub fn get_tags(&self) -> (tags: &Tags)
        ensures
            tags@ == self@.tags,
    {
        &self.tags
    }

    /// A copy of the way.
    pub fn duplicate(&self) -> (copy: Way)
        ensures
            copy@ == self@,
    {
        Way { id: self.id, node_ids: self.node_ids.clone(), tags: self.tags.duplicate() }
    }
}

} // verus!
