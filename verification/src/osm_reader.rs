//! The graph builder: from nodes, ways and their measurements to the
//! contracted, weighted graph.

use crate::graph::{Node, NodeView, Way, WayView};
use crate::osm_graph::{select, Edge, EdgeTest, EdgeView, OSMGraph};
use crate::tags::Tags;
use std::collections::HashMap;
use vstd::prelude::*;
use vstd::std_specs::hash::*;

verus! {

/// A bend whose circle has a radius below this is curvy.
pub const CURVY_BELOW: u64 = 100;

/// A bend whose circle has a radius below this, and is not curvy, is
/// middling; every other bend is straight.
pub const MIDDLE_BELOW: u64 = 200;

/// How sharp a bend is.
#[derive(Clone, Copy, Debug, PartialEq, Eq, Structural)]
pub enum Curvature {
    Curvy,
    Middle,
    Straight,
}

/// Why a graph could not be built.
#[derive(Clone, Copy, Debug, PartialEq, Eq, Structural)]
pub enum BuildError {
    /// The measurements do not match the ways: there is not one measurement
    /// for each way, or that of a kept way of two nodes or more has not one
    /// length for each pair of neighbours and one radius for each triple.
    MeasureMismatch,
    /// A kept way names a node that is not among the nodes.
    MalformedInput,
}

/// The measurements of one way: the length of each leg between two
/// neighbouring nodes, and for each three nodes in a row the radius of the
/// circle through them.
#[derive(Clone, Debug)]
pub struct WayMeasure {
    pub leg_lengths: Vec<u64>,
    pub bend_radii: Vec<u64>,
}

/// The class of a bend by the radius of its circle.
pub open spec fn classify_radius(radius: u64) -> Curvature {
    if radius < CURVY_BELOW {
        Curvature::Curvy
    } else if radius < MIDDLE_BELOW {
        Curvature::Middle
    } else {
        Curvature::Straight
    }
}

/// How many of the bends `lo .. hi` are of the class `class`.
pub open spec fn class_count(radii: Seq<u64>, lo: int, hi: int, class: Curvature) -> nat
    decreases hi - lo,
{
    if hi <= lo {
        0
    } else {
        class_count(radii, lo, hi - 1, class) + if classify_radius(radii[hi - 1]) == class {
            1nat
        } else {
            0nat
        }
    }
}

/// The factor on the weight of a segment, in halves: 1 where curvy bends
/// outnumber each other class, 2 where middling bends do, 3 otherwise.
pub open spec fn weight_factor(curvy: nat, middle: nat, straight: nat) -> int {
    if curvy > middle && curvy > straight {
        1
    } else if middle > curvy && middle > straight {
        2
    } else {
        3
    }
}

/// The sum of the lengths of the legs `lo .. hi`.
pub open spec fn legs_sum(legs: Seq<u64>, lo: int, hi: int) -> int
    decreases hi - lo,
{
    if hi <= lo {
        0
    } else {
        legs_sum(legs, lo, hi - 1) + legs[hi - 1]
    }
}

/// `x`, or the largest `u64` where `x` is beyond it.
pub open spec fn saturate(x: int) -> u64 {
    if x >= u64::MAX {
        u64::MAX
    } else if x < 0 {
        0
    } else {
        x as u64
    }
}

/// The length of the segment from node `lo` to node `hi` of a way: the sum
/// of the lengths of its legs, saturated.
pub open spec fn segment_distance(m: WayMeasure, lo: int, hi: int) -> u64 {
    saturate(legs_sum(m.leg_lengths@, lo, hi))
}

/// The weight of the segment from node `lo` to node `hi` of a way, in half
/// units of length: its length times the factor of its bends, saturated.
pub open spec fn segment_weight(m: WayMeasure, lo: int, hi: int) -> u64 {
    saturate(
        segment_distance(m, lo, hi) * weight_factor(
            class_count(m.bend_radii@, lo, hi - 1, Curvature::Curvy),
            class_count(m.bend_radii@, lo, hi - 1, Curvature::Middle),
            class_count(m.bend_radii@, lo, hi - 1, Curvature::Straight),
        ),
    )
}

/// The edge along a way from its node `lo` to its node `hi`.
pub open spec fn forward_edge(way: WayView, m: WayMeasure, lo: int, hi: int) -> EdgeView {
    EdgeView {
        from: way.node_ids[lo],
        to: way.node_ids[hi],
        distance: segment_distance(m, lo, hi),
        weight: segment_weight(m, lo, hi),
        time: 0,
        nodes_ids: way.node_ids.subrange(lo, hi + 1),
        way_id: way.id,
    }
}

/// The edge that runs against `e`: ends swapped, nodes in reverse, all else
/// the same.
pub open spec fn reverse_edge(e: EdgeView) -> EdgeView {
    EdgeView {
        from: e.to,
        to: e.from,
        distance: e.distance,
        weight: e.weight,
        time: e.time,
        nodes_ids: e.nodes_ids.reverse(),
        way_id: e.way_id,
    }
}

/// A way is one-way if it says so or if it is a roundabout.
pub open spec fn is_one_way(tags: Map<Seq<char>, Seq<char>>) -> bool {
    ||| tags.contains_key("oneway"@) && tags["oneway"@] == "yes"@
    ||| tags.contains_key("junction"@) && tags["junction"@] == "roundabout"@
}

/// The classes of road that routing keeps; `trunk` and `trunk_link` only
/// where `keep_trunk` says so.
pub open spec fn highway_kept(value: Seq<char>, keep_trunk: bool) -> bool {
    ||| value == "primary"@
    ||| value == "secondary"@
    ||| value == "tertiary"@
    ||| value == "unclassified"@
    ||| value == "residential"@
    ||| value == "primary_link"@
    ||| value == "secondary_link"@
    ||| value == "tertiary_link"@
    ||| value == "living_street"@
    ||| keep_trunk && (value == "trunk"@ || value == "trunk_link"@)
}

/// A way is kept if its `highway` tag names a class that routing keeps.
pub open spec fn way_kept(tags: Map<Seq<char>, Seq<char>>, keep_trunk: bool) -> bool {
    tags.contains_key("highway"@) && highway_kept(tags["highway"@], keep_trunk)
}

/// How often `n` occurs in `ns`.
pub open spec fn count_in(ns: Seq<i64>, n: i64) -> nat
    decreases ns.len(),
{
    if ns.len() == 0 {
        0
    } else {
        count_in(ns.drop_last(), n) + if ns.last() == n {
            1nat
        } else {
            0nat
        }
    }
}

/// How often the first `upto` ways, as far as they are kept, run through `n`.
pub open spec fn ref_count(ways: Seq<Way>, keep_trunk: bool, upto: int, n: i64) -> nat
    decreases upto,
{
    if upto <= 0 {
        0
    } else {
        ref_count(ways, keep_trunk, upto - 1, n) + if way_kept(ways[upto - 1]@.tags, keep_trunk) {
            count_in(ways[upto - 1]@.node_ids, n)
        } else {
            0nat
        }
    }
}

/// The nodes that some kept way runs through.
pub open spec fn referenced(ways: Seq<Way>, keep_trunk: bool) -> Set<i64> {
    Set::new(|n: i64| ref_count(ways, keep_trunk, ways.len() as int, n) > 0)
}

/// The junctions: the nodes that the kept ways run through more than once.
pub open spec fn junctions(ways: Seq<Way>, keep_trunk: bool) -> Set<i64> {
    Set::new(|n: i64| ref_count(ways, keep_trunk, ways.len() as int, n) > 1)
}

/// The segments that a way with the nodes `ns` is cut into from its node `i`
/// on, where the segment being walked began at node `src`: a cut at each
/// junction strictly inside the way, and the last segment ends with the way.
/// A segment is the pair of the positions of its first and last node.
pub open spec fn cut_segments(ns: Seq<i64>, junctions: Set<i64>, src: int, i: int) -> Seq<
    (int, int),
>
    decreases ns.len() - i,
{
    if i >= ns.len() {
        Seq::empty()
    } else if i == ns.len() - 1 {
        seq![(src, i)]
    } else if junctions.contains(ns[i]) {
        seq![(src, i)] + cut_segments(ns, junctions, i, i + 1)
    } else {
        cut_segments(ns, junctions, src, i + 1)
    }
}

/// The segments of a way: none for a way of fewer than two nodes.
pub open spec fn way_segments(ns: Seq<i64>, junctions: Set<i64>) -> Seq<(int, int)> {
    if ns.len() < 2 {
        Seq::empty()
    } else {
        cut_segments(ns, junctions, 0, 1)
    }
}

/// The edges of one segment: the forward edge, and behind it the reverse
/// edge unless the way is one-way.
pub open spec fn segment_edges(way: WayView, m: WayMeasure, lo: int, hi: int) -> Seq<EdgeView> {
    if is_one_way(way.tags) {
        seq![forward_edge(way, m, lo, hi)]
    } else {
        seq![forward_edge(way, m, lo, hi), reverse_edge(forward_edge(way, m, lo, hi))]
    }
}

/// The edges of a run of segments of one way, segment by segment.
pub open spec fn edges_of_segments(way: WayView, m: WayMeasure, segs: Seq<(int, int)>) -> Seq<
    EdgeView,
>
    decreases segs.len(),
{
    if segs.len() == 0 {
        Seq::empty()
    } else {
        segment_edges(way, m, segs[0].0, segs[0].1) + edges_of_segments(way, m, segs.skip(1))
    }
}

/// The edges that a way is contracted into.
pub open spec fn way_edges(way: WayView, m: WayMeasure, junctions: Set<i64>) -> Seq<EdgeView> {
    edges_of_segments(way, m, way_segments(way.node_ids, junctions))
}

/// The edges of the first `upto` ways, way by way; a way that is not kept
/// has none.
pub open spec fn built_edges(
    ways: Seq<Way>,
    measures: Seq<WayMeasure>,
    keep_trunk: bool,
    upto: int,
) -> Seq<EdgeView>
    decreases upto,
{
    if upto <= 0 {
        Seq::empty()
    } else {
        built_edges(ways, measures, keep_trunk, upto - 1) + if way_kept(
            ways[upto - 1]@.tags,
            keep_trunk,
        ) {
            way_edges(ways[upto - 1]@, measures[upto - 1], junctions(ways, keep_trunk))
        } else {
            Seq::empty()
        }
    }
}

/// The kept ones among the first `upto` ways, by id; of two with one id the
/// later one.
pub open spec fn built_ways(ways: Seq<Way>, keep_trunk: bool, upto: int) -> Map<i64, WayView>
    decreases upto,
{
    if upto <= 0 {
        Map::empty()
    } else if way_kept(ways[upto - 1]@.tags, keep_trunk) {
        built_ways(ways, keep_trunk, upto - 1).insert(ways[upto - 1]@.id, ways[upto - 1]@)
    } else {
        built_ways(ways, keep_trunk, upto - 1)
    }
}

/// Those of the first `upto` nodes that are in `wanted`, by id; of two with
/// one id the later one.
pub open spec fn built_nodes(nodes: Seq<Node>, wanted: Set<i64>, upto: int) -> Map<i64, NodeView>
    decreases upto,
{
    if upto <= 0 {
        Map::empty()
    } else if wanted.contains(nodes[upto - 1].id) {
        built_nodes(nodes, wanted, upto - 1).insert(nodes[upto - 1].id, nodes[upto - 1]@)
    } else {
        built_nodes(nodes, wanted, upto - 1)
    }
}

/// The ids of those of the first `upto` nodes that are in `wanted`, each
/// once, in the order in which they first occur.
pub open spec fn built_order(nodes: Seq<Node>, wanted: Set<i64>, upto: int) -> Seq<i64>
    decreases upto,
{
    if upto <= 0 {
        Seq::empty()
    } else if wanted.contains(nodes[upto - 1].id) && !built_nodes(
        nodes,
        wanted,
        upto - 1,
    ).contains_key(nodes[upto - 1].id) {
        built_order(nodes, wanted, upto - 1).push(nodes[upto - 1].id)
    } else {
        built_order(nodes, wanted, upto - 1)
    }
}

/// The measurement `m` fits a way of `n` nodes: one length for each leg and
/// one radius for each three nodes in a row. A way of fewer than two nodes
/// has no edges, and any measurement fits it.
pub open spec fn measure_fits(n: nat, m: WayMeasure) -> bool {
    n < 2 || (m.leg_lengths@.len() + 1 == n && m.bend_radii@.len() + 2 == n)
}

/// There is one measurement for each way, and that of each kept way fits it.
pub open spec fn measures_fit(ways: Seq<Way>, measures: Seq<WayMeasure>, keep_trunk: bool) -> bool {
    &&& measures.len() == ways.len()
    &&& forall|i: int|
        0 <= i < ways.len() && way_kept(#[trigger] ways[i]@.tags, keep_trunk) ==> measure_fits(
            ways[i]@.node_ids.len(),
            measures[i],
        )
}

/// Whether one of the nodes has the id `id`.
pub open spec fn has_node(nodes: Seq<Node>, id: i64) -> bool {
    exists|j: int| 0 <= j < nodes.len() && (#[trigger] nodes[j]).id == id
}

/// Every node that a kept way runs through is among the nodes.
pub open spec fn nodes_present(nodes: Seq<Node>, ways: Seq<Way>, keep_trunk: bool) -> bool {
    forall|i: int, k: int|
        0 <= i < ways.len() && way_kept(ways[i]@.tags, keep_trunk) && 0 <= k
            < ways[i]@.node_ids.len() ==> has_node(nodes, #[trigger] ways[i]@.node_ids[k])
}

/// The edges of `edges` that leave `node_id`, in order.
pub open spec fn leaving(edges: Seq<EdgeView>, node_id: i64) -> Seq<EdgeView> {
    select(edges, EdgeTest::From, node_id)
}

/// The index files each edge of the flat list under the node it leaves, in
/// the order of the list, and holds nothing else.
pub open spec fn index_follows_edges(graph: OSMGraph) -> bool {
    forall|node_id: i64| #[trigger]
        graph.edges_from(node_id) == leaving(graph.edges(), node_id)
}

/// Every edge of the flat list names nodes and a way that the graph holds.
pub open spec fn edges_resolve(graph: OSMGraph) -> bool {
    forall|i: int|
        0 <= i < graph.edges().len() ==> edge_resolves(graph, #[trigger] graph.edges()[i])
}

/// The edge names nodes and a way that the graph holds, and runs from its
/// first node to its last.
pub open spec fn edge_resolves(graph: OSMGraph, e: EdgeView) -> bool {
    &&& graph.ways().contains_key(e.way_id)
    &&& e.nodes_ids.len() >= 2
    &&& e.nodes_ids.first() == e.from
    &&& e.nodes_ids.last() == e.to
    &&& forall|k: int|
        0 <= k < e.nodes_ids.len() ==> graph.nodes().contains_key(#[trigger] e.nodes_ids[k])
}

/// `graph` is the graph of the map with these nodes, ways and measurements.
pub open spec fn is_built(
    graph: OSMGraph,
    nodes: Seq<Node>,
    ways: Seq<Way>,
    measures: Seq<WayMeasure>,
    keep_trunk: bool,
) -> bool {
    &&& graph.wf()
    &&& graph.nodes() == built_nodes(nodes, referenced(ways, keep_trunk), nodes.len() as int)
    &&& graph.node_order() == built_order(
        nodes,
        referenced(ways, keep_trunk),
        nodes.len() as int,
    )
    &&& graph.ways() == built_ways(ways, keep_trunk, ways.len() as int)
    &&& graph.edges() == built_edges(ways, measures, keep_trunk, ways.len() as int)
    &&& index_follows_edges(graph)
    &&& edges_resolve(graph)
}

/// How many of the nodes of `ns` from position `i` on, the last node left
/// out, are junctions.
pub open spec fn junctions_inside(ns: Seq<i64>, junctions: Set<i64>, i: int) -> nat
    decreases ns.len() - i,
{
    if i >= ns.len() - 1 {
        0
    } else {
        junctions_inside(ns, junctions, i + 1) + if junctions.contains(ns[i]) {
            1nat
        } else {
            0nat
        }
    }
}

/// The segments cut from position `i` on, with the running segment begun at
/// `src`, are one more than the junctions from `i` on. The first begins at
/// `src`, the last ends with the way, each is at least one leg long, and
/// each begins where the one before it ends.
pub proof fn lemma_cut_segments(ns: Seq<i64>, junctions: Set<i64>, src: int, i: int)
    requires
        0 <= src < i < ns.len(),
    ensures
        cut_segments(ns, junctions, src, i).len() == junctions_inside(ns, junctions, i) + 1,
        cut_segments(ns, junctions, src, i).first().0 == src,
        cut_segments(ns, junctions, src, i).last().1 == ns.len() - 1,
        forall|m: int|
            0 <= m < cut_segments(ns, junctions, src, i).len() ==> {
                let seg = #[trigger] cut_segments(ns, junctions, src, i)[m];
                0 <= seg.0 < seg.1 < ns.len() && i <= seg.1
            },
        forall|m: int|
            0 <= m < cut_segments(ns, junctions, src, i).len() - 1 ==> (#[trigger] cut_segments(
                ns,
                junctions,
                src,
                i,
            )[m]).1 == cut_segments(ns, junctions, src, i)[m + 1].0,
    decreases ns.len() - i,
{
    let segs = cut_segments(ns, junctions, src, i);
    if i == ns.len() - 1 {
    } else if junctions.contains(ns[i]) {
        lemma_cut_segments(ns, junctions, i, i + 1);
        let rest = cut_segments(ns, junctions, i, i + 1);
        assert(segs =~= seq![(src, i)] + rest);
        assert forall|m: int| 0 <= m < segs.len() implies {
            let seg = #[trigger] segs[m];
            0 <= seg.0 < seg.1 < ns.len() && i <= seg.1
        } by {
            if m > 0 {
                assert(segs[m] == rest[m - 1]);
            }
        }
        assert forall|m: int| 0 <= m < segs.len() - 1 implies (#[trigger] segs[m]).1 == segs[m
            + 1].0 by {
            if m > 0 {
                assert(segs[m] == rest[m - 1]);
                assert(segs[m + 1] == rest[m]);
            } else {
                assert(segs[1] == rest[0]);
            }
        }
    } else {
        lemma_cut_segments(ns, junctions, src, i + 1);
    }
}

/// A way of `k >= 2` nodes with `j` junctions strictly inside it is cut into
/// `j + 1` segments. The first begins with the way, the last ends with it,
/// and each begins at the node at which the one before it ends.
pub proof fn lemma_contraction(ns: Seq<i64>, junctions: Set<i64>)
    requires
        ns.len() >= 2,
    ensures
        way_segments(ns, junctions).len() == junctions_inside(ns, junctions, 1) + 1,
        way_segments(ns, junctions).first().0 == 0,
        way_segments(ns, junctions).last().1 == ns.len() - 1,
        forall|m: int|
            0 <= m < way_segments(ns, junctions).len() ==> 0 <= (#[trigger] way_segments(
                ns,
                junctions,
            )[m]).0 < way_segments(ns, junctions)[m].1 < ns.len(),
        forall|m: int|
            0 <= m < way_segments(ns, junctions).len() - 1 ==> (#[trigger] way_segments(
                ns,
                junctions,
            )[m]).1 == way_segments(ns, junctions)[m + 1].0,
{
    lemma_cut_segments(ns, junctions, 0, 1);
}

/// The edges of a run of segments of a one-way way are the forward edges of
/// the segments: one edge for each segment, and no reverse edge. Those of
/// any other way are, for each segment, its forward edge and behind it the
/// reverse of that edge.
pub proof fn lemma_segment_edges(way: WayView, m: WayMeasure, segs: Seq<(int, int)>)
    ensures
        is_one_way(way.tags) ==> {
            &&& edges_of_segments(way, m, segs).len() == segs.len()
            &&& forall|c: int|
                0 <= c < segs.len() ==> #[trigger] edges_of_segments(way, m, segs)[c]
                    == forward_edge(way, m, segs[c].0, segs[c].1)
        },
        !is_one_way(way.tags) ==> {
            &&& edges_of_segments(way, m, segs).len() == 2 * segs.len()
            &&& forall|c: int|
                0 <= c < segs.len() ==> {
                    &&& #[trigger] edges_of_segments(way, m, segs)[2 * c] == forward_edge(
                        way,
                        m,
                        segs[c].0,
                        segs[c].1,
                    )
                    &&& edges_of_segments(way, m, segs)[2 * c + 1] == reverse_edge(
                        forward_edge(way, m, segs[c].0, segs[c].1),
                    )
                }
        },
    decreases segs.len(),
{
    if segs.len() > 0 {
        let rest = segs.skip(1);
        lemma_segment_edges(way, m, rest);
        let all = edges_of_segments(way, m, segs);
        let tail = edges_of_segments(way, m, rest);
        if is_one_way(way.tags) {
            assert forall|c: int| 0 <= c < segs.len() implies #[trigger] all[c] == forward_edge(
                way,
                m,
                segs[c].0,
                segs[c].1,
            ) by {
                if c > 0 {
                    assert(all[c] == tail[c - 1]);
                    assert(rest[c - 1] == segs[c]);
                }
            }
        } else {
            assert forall|c: int| 0 <= c < segs.len() implies {
                &&& #[trigger] all[2 * c] == forward_edge(way, m, segs[c].0, segs[c].1)
                &&& all[2 * c + 1] == reverse_edge(forward_edge(way, m, segs[c].0, segs[c].1))
            } by {
                if c > 0 {
                    assert(all[2 * c] == tail[2 * (c - 1)]);
                    assert(all[2 * c + 1] == tail[2 * (c - 1) + 1]);
                    assert(rest[c - 1] == segs[c]);
                }
            }
        }
    }
}

/// The forward edges of a way of two nodes or more are one more than the
/// junctions strictly inside it. The first leaves the first node of the
/// way, the last ends at its last node, and each begins, with its list of
/// nodes, at the node at which the one before it ends. In the edges of the
/// way they stand in this order, each followed by its reverse edge unless
/// the way is one-way.
pub proof fn lemma_forward_edges_chain(way: WayView, m: WayMeasure, junctions: Set<i64>)
    requires
        way.node_ids.len() >= 2,
    ensures
        way_segments(way.node_ids, junctions).len() == junctions_inside(
            way.node_ids,
            junctions,
            1,
        ) + 1,
        way_edges(way, m, junctions).len() == if is_one_way(way.tags) {
            way_segments(way.node_ids, junctions).len()
        } else {
            2 * way_segments(way.node_ids, junctions).len()
        },
        nth_forward_edge(way, m, junctions, 0).from == way.node_ids.first(),
        nth_forward_edge(
            way,
            m,
            junctions,
            way_segments(way.node_ids, junctions).len() - 1,
        ).to == way.node_ids.last(),
        forall|c: int|
            0 <= c < way_segments(way.node_ids, junctions).len() ==> {
                let e = #[trigger] nth_forward_edge(way, m, junctions, c);
                &&& e == way_edges(way, m, junctions)[if is_one_way(way.tags) {
                    c
                } else {
                    2 * c
                }]
                &&& e.nodes_ids.len() >= 2
                &&& e.nodes_ids.first() == e.from
                &&& e.nodes_ids.last() == e.to
            },
        forall|c: int|
            0 <= c < way_segments(way.node_ids, junctions).len() - 1 ==> (
            #[trigger] nth_forward_edge(way, m, junctions, c)).to == nth_forward_edge(
                way,
                m,
                junctions,
                c + 1,
            ).from,
{
    let segs = way_segments(way.node_ids, junctions);
    lemma_contraction(way.node_ids, junctions);
    lemma_segment_edges(way, m, segs);
    assert forall|c: int| 0 <= c < segs.len() implies {
        let e = #[trigger] nth_forward_edge(way, m, junctions, c);
        &&& e == way_edges(way, m, junctions)[if is_one_way(way.tags) {
            c
        } else {
            2 * c
        }]
        &&& e.nodes_ids.len() >= 2
        &&& e.nodes_ids.first() == e.from
        &&& e.nodes_ids.last() == e.to
    } by {
        assert(0 <= segs[c].0 < segs[c].1 < way.node_ids.len());
    }
    assert forall|c: int| 0 <= c < segs.len() - 1 implies (#[trigger] nth_forward_edge(
        way,
        m,
        junctions,
        c,
    )).to == nth_forward_edge(way, m, junctions, c + 1).from by {
        assert(segs[c].1 == segs[c + 1].0);
    }
}

/// The forward edge of the segment `c` of a way.
pub open spec fn nth_forward_edge(
    way: WayView,
    m: WayMeasure,
    junctions: Set<i64>,
    c: int,
) -> EdgeView {
    forward_edge(
        way,
        m,
        way_segments(way.node_ids, junctions)[c].0,
        way_segments(way.node_ids, junctions)[c].1,
    )
}

/// No edge of a one-way way runs against the way: each of its edges runs
/// from the first node of a segment to the last, through the nodes of the
/// way in their order.
pub proof fn lemma_one_way_has_no_reverse(way: WayView, m: WayMeasure, junctions: Set<i64>)
    requires
        is_one_way(way.tags),
    ensures
        way_edges(way, m, junctions).len() == way_segments(way.node_ids, junctions).len(),
        forall|c: int|
            0 <= c < way_edges(way, m, junctions).len() ==> {
                let seg = way_segments(way.node_ids, junctions)[c];
                let e = #[trigger] way_edges(way, m, junctions)[c];
                &&& 0 <= seg.0 < seg.1 < way.node_ids.len()
                &&& e.from == way.node_ids[seg.0]
                &&& e.to == way.node_ids[seg.1]
                &&& e.nodes_ids == way.node_ids.subrange(seg.0, seg.1 + 1)
            },
{
    lemma_segment_edges(way, m, way_segments(way.node_ids, junctions));
    if way.node_ids.len() >= 2 {
        lemma_contraction(way.node_ids, junctions);
    }
}

/// A built graph holds a node just when a kept way runs through it and it
/// is among the nodes of the map.
pub proof fn lemma_built_graph_keeps_referenced_nodes(
    graph: OSMGraph,
    nodes: Seq<Node>,
    ways: Seq<Way>,
    measures: Seq<WayMeasure>,
    keep_trunk: bool,
    id: i64,
)
    requires
        is_built(graph, nodes, ways, measures, keep_trunk),
    ensures
        graph.nodes().contains_key(id) <==> (referenced(ways, keep_trunk).contains(id) && has_node(
            nodes,
            id,
        )),
{
    lemma_built_nodes_dom(nodes, referenced(ways, keep_trunk), nodes.len() as int, id);
}

/// Two graphs built from one map hold the same edges in the same order, so
/// the same edges as a multiset, and file the same edges under each node.
pub proof fn lemma_build_is_deterministic(
    first: OSMGraph,
    second: OSMGraph,
    nodes: Seq<Node>,
    ways: Seq<Way>,
    measures: Seq<WayMeasure>,
    keep_trunk: bool,
)
    requires
        is_built(first, nodes, ways, measures, keep_trunk),
        is_built(second, nodes, ways, measures, keep_trunk),
    ensures
        first.edges() == second.edges(),
        first.edges().to_multiset() == second.edges().to_multiset(),
        forall|node_id: i64| first.edges_from(node_id) == second.edges_from(node_id),
        first.nodes() == second.nodes(),
        first.node_order() == second.node_order(),
        first.ways() == second.ways(),
{
    assert forall|node_id: i64| first.edges_from(node_id) == second.edges_from(node_id) by {
        assert(first.edges_from(node_id) == leaving(first.edges(), node_id));
        assert(second.edges_from(node_id) == leaving(second.edges(), node_id));
    }
}

/// The class of a bend by the radius of its circle.
pub fn classify(radius: u64) -> (class: Curvature)
    ensures
        class == classify_radius(radius),
{
    if radius < CURVY_BELOW {
        Curvature::Curvy
    } else if radius < MIDDLE_BELOW {
        Curvature::Middle
    } else {
        Curvature::Straight
    }
}

/// The measurement has a length for each leg and a radius for each bend
/// of the segment from node `lo` to node `hi`, which is a leg long at least.
pub open spec fn segment_measured(m: WayMeasure, lo: int, hi: int) -> bool {
    &&& 0 <= lo < hi <= m.leg_lengths@.len()
    &&& (hi == lo + 1 || hi <= m.bend_radii@.len() + 1)
}

/// The length and the weight of the segment from node `lo` to node `hi` of
/// a way with the measurement `measure`: `None` where the measurement does
/// not reach so far.
pub fn measure_segment(measure: &WayMeasure, lo: usize, hi: usize) -> (r: Option<(u64, u64)>)
    ensures
        r == if segment_measured(*measure, lo as int, hi as int) {
            Some(
                (
                    segment_distance(*measure, lo as int, hi as int),
                    segment_weight(*measure, lo as int, hi as int),
                ),
            )
        } else {
            None
        },
{
    if lo >= hi || hi > measure.leg_lengths.len() {
        return None;
    }
    if hi - 1 > lo && hi - 1 > measure.bend_radii.len() {
        return None;
    }
    let mut distance: u64 = 0;
    let mut j: usize = lo;
    while j < hi
        invariant
            lo <= j <= hi <= measure.leg_lengths@.len(),
            distance == saturate(legs_sum(measure.leg_lengths@, lo as int, j as int)),
            legs_sum(measure.leg_lengths@, lo as int, j as int) >= 0,
        decreases hi - j,
    {
        let leg: u64 = measure.leg_lengths[j];
        distance = if distance > u64::MAX - leg {
            u64::MAX
        } else {
            distance + leg
        };
        j = j + 1;
    }
    let mut curvy: usize = 0;
    let mut middle: usize = 0;
    let mut straight: usize = 0;
    let mut t: usize = lo;
    while t < hi - 1
        invariant
            lo <= t <= hi - 1,
            t == hi - 1 || hi - 1 <= measure.bend_radii@.len(),
            curvy == class_count(measure.bend_radii@, lo as int, t as int, Curvature::Curvy),
            middle == class_count(measure.bend_radii@, lo as int, t as int, Curvature::Middle),
            straight == class_count(
                measure.bend_radii@,
                lo as int,
                t as int,
                Curvature::Straight,
            ),
            curvy <= t - lo,
            middle <= t - lo,
            straight <= t - lo,
        decreases hi - 1 - t,
    {
        match classify(measure.bend_radii[t]) {
            Curvature::Curvy => {
                curvy = curvy + 1;
            },
            Curvature::Middle => {
                middle = middle + 1;
            },
            Curvature::Straight => {
                straight = straight + 1;
            },
        }
        t = t + 1;
    }
    let factor: u128 = if curvy > middle && curvy > straight {
        1
    } else if middle > curvy && middle > straight {
        2
    } else {
        3
    };
    let scaled: u128 = distance as u128 * factor;
    let weight: u64 = if scaled >= u64::MAX as u128 {
        u64::MAX
    } else {
        scaled as u64
    };
    Some((distance, weight))
}

/// The graph holds the way's id and every node the way runs through.
spec fn way_resolves(graph: OSMGraph, way: WayView) -> bool {
    &&& graph.ways().contains_key(way.id)
    &&& forall|k: int|
        0 <= k < way.node_ids.len() ==> graph.nodes().contains_key(#[trigger] way.node_ids[k])
}

/// The nodes that a table of counts holds with a count above one.
spec fn counted_twice(counter: Map<i64, u8>) -> Set<i64> {
    Set::new(|n: i64| counter.contains_key(n) && counter[n] > 1)
}

/// Filing one more edge, in the flat list and in the index under the node it
/// leaves, keeps the index in step with the list.
proof fn lemma_index_after_add(before: OSMGraph, after: OSMGraph, e: EdgeView)
    requires
        index_follows_edges(before),
        after.edges() == before.edges().push(e),
        after.index() == before.index().insert(e.from, before.edges_from(e.from).push(e)),
    ensures
        index_follows_edges(after),
{
    assert forall|node_id: i64| #[trigger]
        after.edges_from(node_id) == leaving(after.edges(), node_id) by {
        assert(before.edges_from(node_id) == leaving(before.edges(), node_id));
        assert(before.edges().push(e).drop_last() =~= before.edges());
    }
}

/// Adds the edges of the segment from node `lo` to node `hi` of `way` to
/// the graph.
fn emit_segment(
    graph: &mut OSMGraph,
    way: &Way,
    measure: &WayMeasure,
    lo: usize,
    hi: usize,
    one_way: bool,
)
    requires
        lo < hi < way@.node_ids.len(),
        measure_fits(way@.node_ids.len(), *measure),
        one_way == is_one_way(way@.tags),
        index_follows_edges(*old(graph)),
        edges_resolve(*old(graph)),
        way_resolves(*old(graph), way@),
    ensures
        edges_resolve(*final(graph)),
        final(graph).edges() == old(graph).edges() + segment_edges(
            way@,
            *measure,
            lo as int,
            hi as int,
        ),
        index_follows_edges(*final(graph)),
        final(graph).wf() == old(graph).wf(),
        final(graph).nodes() == old(graph).nodes(),
        final(graph).node_order() == old(graph).node_order(),
        final(graph).ways() == old(graph).ways(),
{
    let ns = way.get_node_ids();
    let (distance, weight) = measure_segment(measure, lo, hi).unwrap();
    let mut forward: Vec<i64> = Vec::new();
    let mut k: usize = lo;
    while k <= hi
        invariant
            lo <= k <= hi + 1,
            hi < ns.len(),
            forward@ == ns@.subrange(lo as int, k as int),
        decreases hi + 1 - k,
    {
        forward.push(ns[k]);
        assert(forward@ =~= ns@.subrange(lo as int, k + 1));
        k = k + 1;
    }
    let ghost fwd = forward_edge(way@, *measure, lo as int, hi as int);
    let edge = Edge::new(ns[lo], ns[hi], distance, weight, 0, forward, way.get_id());
    assert(edge@ == fwd);
    let ghost g0 = *graph;
    graph.add_edge(edge.duplicate());
    graph.add_edge_from_node(ns[lo], edge);
    proof {
        lemma_index_after_add(g0, *graph, fwd);
        assert(edge_resolves(*graph, fwd)) by {
            assert forall|k: int| 0 <= k < fwd.nodes_ids.len() implies graph.nodes().contains_key(
                #[trigger] fwd.nodes_ids[k],
            ) by {
                assert(fwd.nodes_ids[k] == way@.node_ids[lo + k]);
            }
        }
        assert(edges_resolve(*graph)) by {
            assert forall|i: int| 0 <= i < graph.edges().len() implies edge_resolves(
                *graph,
                #[trigger] graph.edges()[i],
            ) by {
                if i < g0.edges().len() {
                    assert(edge_resolves(g0, g0.edges()[i]));
                }
            }
        }
    }
    if one_way {
        assert(graph.edges() =~= old(graph).edges() + segment_edges(
            way@,
            *measure,
            lo as int,
            hi as int,
        ));
    } else {
        let mut backward: Vec<i64> = Vec::new();
        let mut c: usize = 0;
        while c <= hi - lo
            invariant
                lo < hi < ns.len(),
                c <= hi - lo + 1,
                backward@.len() == c,
                forall|j: int| 0 <= j < c ==> backward@[j] == ns@[hi - j],
            decreases hi - lo + 1 - c,
        {
            backward.push(ns[hi - c]);
            c = c + 1;
        }
        assert(backward@ =~= fwd.nodes_ids.reverse());
        let back = Edge::new(ns[hi], ns[lo], distance, weight, 0, backward, way.get_id());
        assert(back@ == reverse_edge(fwd));
        let ghost g1 = *graph;
        graph.add_edge(back.duplicate());
        graph.add_edge_from_node(ns[hi], back);
        proof {
            lemma_index_after_add(g1, *graph, reverse_edge(fwd));
            let rev = reverse_edge(fwd);
            assert(edge_resolves(*graph, rev)) by {
                assert forall|k: int|
                    0 <= k < rev.nodes_ids.len() implies graph.nodes().contains_key(
                    #[trigger] rev.nodes_ids[k],
                ) by {
                    assert(rev.nodes_ids[k] == way@.node_ids[hi - k]);
                }
            }
            assert(edges_resolve(*graph)) by {
                assert forall|i: int| 0 <= i < graph.edges().len() implies edge_resolves(
                    *graph,
                    #[trigger] graph.edges()[i],
                ) by {
                    if i < g1.edges().len() {
                        assert(edge_resolves(g1, g1.edges()[i]));
                    }
                }
            }
        }
        assert(graph.edges() =~= old(graph).edges() + segment_edges(
            way@,
            *measure,
            lo as int,
            hi as int,
        ));
    }
}

/// Whether the table of counts holds `id` with a count above one.
fn is_junction(counter: &HashMap<i64, u8>, id: i64) -> (yes: bool)
    ensures
        yes == counted_twice(counter@).contains(id),
{
    broadcast use vstd::std_specs::hash::group_hash_axioms;

    match counter.get(&id) {
        Some(count) => *count > 1,
        None => false,
    }
}

/// Whether the tags make a way one-way.
pub fn one_way(tags: &Tags) -> (yes: bool)
    ensures
        yes == is_one_way(tags@),
{
    tags.has("oneway", "yes") || tags.has("junction", "roundabout")
}

/// Contracts one way: adds the edges of its segments to the graph.
fn contract_way(
    graph: &mut OSMGraph,
    way: &Way,
    measure: &WayMeasure,
    counter: &HashMap<i64, u8>,
)
    requires
        measure_fits(way@.node_ids.len(), *measure),
        index_follows_edges(*old(graph)),
        edges_resolve(*old(graph)),
        way_resolves(*old(graph), way@),
    ensures
        edges_resolve(*final(graph)),
        final(graph).edges() == old(graph).edges() + way_edges(
            way@,
            *measure,
            counted_twice(counter@),
        ),
        index_follows_edges(*final(graph)),
        final(graph).wf() == old(graph).wf(),
        final(graph).nodes() == old(graph).nodes(),
        final(graph).node_order() == old(graph).node_order(),
        final(graph).ways() == old(graph).ways(),
{
    let ns = way.get_node_ids();
    let n = ns.len();
    let ghost marked = counted_twice(counter@);
    let ghost target = old(graph).edges() + way_edges(way@, *measure, marked);
    if n < 2 {
        assert(graph.edges() =~= target);
        return ;
    }
    let single = one_way(way.get_tags());
    let mut source: usize = 0;
    let mut i: usize = 1;
    assert(graph.edges() + edges_of_segments(
        way@,
        *measure,
        cut_segments(ns@, marked, source as int, i as int),
    ) =~= target);
    while i < n
        invariant
            n == ns@.len(),
            ns@ == way@.node_ids,
            n >= 2,
            source < i <= n,
            marked == counted_twice(counter@),
            single == is_one_way(way@.tags),
            measure_fits(way@.node_ids.len(), *measure),
            index_follows_edges(*graph),
            edges_resolve(*graph),
            way_resolves(*graph, way@),
            graph.edges() + edges_of_segments(
                way@,
                *measure,
                cut_segments(ns@, marked, source as int, i as int),
            ) == target,
            graph.wf() == old(graph).wf(),
            graph.nodes() == old(graph).nodes(),
            graph.node_order() == old(graph).node_order(),
            graph.ways() == old(graph).ways(),
        decreases n - i,
    {
        let ghost before = graph.edges();
        let ghost segs = cut_segments(ns@, marked, source as int, i as int);
        if i == n - 1 {
            emit_segment(graph, way, measure, source, i, single);
            proof {
                assert(segs.skip(1) =~= Seq::<(int, int)>::empty());
                assert(cut_segments(ns@, marked, source as int, i + 1) =~= Seq::<
                    (int, int),
                >::empty());
                assert(graph.edges() + edges_of_segments(
                    way@,
                    *measure,
                    cut_segments(ns@, marked, source as int, i + 1),
                ) =~= before + edges_of_segments(way@, *measure, segs));
            }
        } else if is_junction(counter, ns[i]) {
            emit_segment(graph, way, measure, source, i, single);
            proof {
                let rest = cut_segments(ns@, marked, i as int, i + 1);
                assert(segs.skip(1) =~= rest);
                assert(graph.edges() + edges_of_segments(way@, *measure, rest) =~= before
                    + edges_of_segments(way@, *measure, segs));
            }
            source = i;
        }
        i = i + 1;
    }
    assert(graph.edges() =~= target);
}

/// `x`, or two where `x` is beyond it.
spec fn at_most_two(x: nat) -> int {
    if x >= 2 {
        2
    } else {
        x as int
    }
}

/// Whether the text of `s` is that of `literal`.
fn text_is(s: &String, literal: &str) -> (yes: bool)
    ensures
        yes == (s@ == literal@),
{
    *s == String::from_str(literal)
}

/// Whether a way with the `highway` tag `value` is kept.
pub fn keeps_highway(value: &String, keep_trunk: bool) -> (yes: bool)
    ensures
        yes == highway_kept(value@, keep_trunk),
{
    text_is(value, "primary") || text_is(value, "secondary") || text_is(value, "tertiary")
        || text_is(value, "unclassified") || text_is(value, "residential") || text_is(
        value,
        "primary_link",
    ) || text_is(value, "secondary_link") || text_is(value, "tertiary_link") || text_is(
        value,
        "living_street",
    ) || (keep_trunk && (text_is(value, "trunk") || text_is(value, "trunk_link")))
}

/// Whether a way with the tags `tags` is kept.
pub fn keeps_tags(tags: &Tags, keep_trunk: bool) -> (yes: bool)
    ensures
        yes == way_kept(tags@, keep_trunk),
{
    match tags.get("highway") {
        Some(value) => keeps_highway(value, keep_trunk),
        None => false,
    }
}

/// Counts, up to two, how often the kept ways run through each node.
fn count_references(ways: &Vec<Way>, keep_trunk: bool) -> (counter: HashMap<i64, u8>)
    ensures
        forall|n: i64| #[trigger]
            counter@.contains_key(n) <==> ref_count(ways@, keep_trunk, ways@.len() as int, n) > 0,
        forall|n: i64| #[trigger]
            counter@.contains_key(n) ==> counter@[n] == at_most_two(
                ref_count(ways@, keep_trunk, ways@.len() as int, n),
            ),
{
    broadcast use vstd::std_specs::hash::group_hash_axioms;

    let mut counter: HashMap<i64, u8> = HashMap::new();
    let mut i: usize = 0;
    while i < ways.len()
        invariant
            i <= ways.len(),
            forall|n: i64| #[trigger]
                counter@.contains_key(n) <==> ref_count(ways@, keep_trunk, i as int, n) > 0,
            forall|n: i64| #[trigger]
                counter@.contains_key(n) ==> counter@[n] == at_most_two(
                    ref_count(ways@, keep_trunk, i as int, n),
                ),
        decreases ways.len() - i,
    {
        if keeps_tags(ways[i].get_tags(), keep_trunk) {
            let ns = ways[i].get_node_ids();
            let mut k: usize = 0;
            assert(ns@.subrange(0, 0) =~= Seq::<i64>::empty());
            while k < ns.len()
                invariant
                    i < ways.len(),
                    k <= ns.len(),
                    ns@ == ways@[i as int]@.node_ids,
                    forall|n: i64| #[trigger]
                        counter@.contains_key(n) <==> ref_count(ways@, keep_trunk, i as int, n)
                            + count_in(ns@.subrange(0, k as int), n) > 0,
                    forall|n: i64| #[trigger]
                        counter@.contains_key(n) ==> counter@[n] == at_most_two(
                            ref_count(ways@, keep_trunk, i as int, n) + count_in(
                                ns@.subrange(0, k as int),
                                n,
                            ),
                        ),
                decreases ns.len() - k,
            {
                let id: i64 = ns[k];
                let seen: u8 = match counter.get(&id) {
                    Some(count) => *count,
                    None => 0,
                };
                let count: u8 = if seen < 2 {
                    seen + 1
                } else {
                    seen
                };
                let ghost before = counter@;
                counter.insert(id, count);
                proof {
                    assert(ns@.subrange(0, k + 1).drop_last() =~= ns@.subrange(0, k as int));
                    assert forall|n: i64| #[trigger]
                        counter@.contains_key(n) <==> ref_count(ways@, keep_trunk, i as int, n)
                            + count_in(ns@.subrange(0, k + 1), n) > 0 by {
                        assert(before.contains_key(n) <==> ref_count(
                            ways@,
                            keep_trunk,
                            i as int,
                            n,
                        ) + count_in(ns@.subrange(0, k as int), n) > 0);
                    }
                    assert forall|n: i64| #[trigger]
                        counter@.contains_key(n) implies counter@[n] == at_most_two(
                        ref_count(ways@, keep_trunk, i as int, n) + count_in(
                            ns@.subrange(0, k + 1),
                            n,
                        ),
                    ) by {
                        assert(before.contains_key(n) <==> ref_count(
                            ways@,
                            keep_trunk,
                            i as int,
                            n,
                        ) + count_in(ns@.subrange(0, k as int), n) > 0);
                        if before.contains_key(n) {
                            assert(before[n] == at_most_two(
                                ref_count(ways@, keep_trunk, i as int, n) + count_in(
                                    ns@.subrange(0, k as int),
                                    n,
                                ),
                            ));
                        }
                    }
                }
                k = k + 1;
            }
            assert(ns@.subrange(0, k as int) =~= ns@);
        }
        i = i + 1;
    }
    counter
}

/// Among the first `upto` nodes, those that are wanted make up the nodes
/// that are built from them.
proof fn lemma_built_nodes_dom(nodes: Seq<Node>, wanted: Set<i64>, upto: int, id: i64)
    requires
        0 <= upto <= nodes.len(),
    ensures
        built_nodes(nodes, wanted, upto).contains_key(id) <==> (wanted.contains(id) && exists|
            j: int,
        |
            0 <= j < upto && (#[trigger] nodes[j]).id == id),
    decreases upto,
{
    if upto > 0 {
        lemma_built_nodes_dom(nodes, wanted, upto - 1, id);
        if built_nodes(nodes, wanted, upto).contains_key(id) {
            if nodes[upto - 1].id == id {
            } else {
                let j = choose|j: int| 0 <= j < upto - 1 && (#[trigger] nodes[j]).id == id;
                assert(0 <= j < upto && nodes[j].id == id);
            }
        }
        if wanted.contains(id) && exists|j: int| 0 <= j < upto && (#[trigger] nodes[j]).id == id {
            let j = choose|j: int| 0 <= j < upto && (#[trigger] nodes[j]).id == id;
            if j < upto - 1 {
                assert(0 <= j < upto - 1 && nodes[j].id == id);
            }
        }
    }
}

/// A node of a list occurs in it.
proof fn lemma_count_in_positive(ns: Seq<i64>, k: int)
    requires
        0 <= k < ns.len(),
    ensures
        count_in(ns, ns[k]) > 0,
    decreases ns.len(),
{
    if k < ns.len() - 1 {
        lemma_count_in_positive(ns.drop_last(), k);
    }
}

/// A node of a kept way is referenced.
proof fn lemma_ref_count_positive(ways: Seq<Way>, keep_trunk: bool, upto: int, i: int, k: int)
    requires
        0 <= i < upto <= ways.len(),
        way_kept(ways[i]@.tags, keep_trunk),
        0 <= k < ways[i]@.node_ids.len(),
    ensures
        ref_count(ways, keep_trunk, upto, ways[i]@.node_ids[k]) > 0,
    decreases upto,
{
    if upto == i + 1 {
        lemma_count_in_positive(ways[i]@.node_ids, k);
    } else {
        lemma_ref_count_positive(ways, keep_trunk, upto - 1, i, k);
    }
}

/// Whether there is one measurement for each way and that of each kept way
/// fits it.
fn check_measures(ways: &Vec<Way>, measures: &Vec<WayMeasure>, keep_trunk: bool) -> (ok: bool)
    ensures
        ok == measures_fit(ways@, measures@, keep_trunk),
{
    if measures.len() != ways.len() {
        return false;
    }
    let mut i: usize = 0;
    while i < ways.len()
        invariant
            i <= ways.len(),
            measures.len() == ways.len(),
            forall|j: int|
                0 <= j < i && way_kept(#[trigger] ways@[j]@.tags, keep_trunk) ==> measure_fits(
                    ways@[j]@.node_ids.len(),
                    measures@[j],
                ),
        decreases ways.len() - i,
    {
        if keeps_tags(ways[i].get_tags(), keep_trunk) {
            let n = ways[i].get_node_ids().len();
            let m = &measures[i];
            if n >= 2 && (m.leg_lengths.len() != n - 1 || m.bend_radii.len() != n - 2) {
                assert(!measure_fits(ways@[i as int]@.node_ids.len(), measures@[i as int]));
                return false;
            }
        }
        i = i + 1;
    }
    true
}

/// Stores those of the nodes that the table of counts holds.
fn store_nodes(
    graph: &mut OSMGraph,
    nodes: &Vec<Node>,
    counter: &HashMap<i64, u8>,
    Ghost(wanted): Ghost<Set<i64>>,
)
    requires
        old(graph).wf(),
        old(graph).nodes() == Map::<i64, NodeView>::empty(),
        old(graph).node_order() == Seq::<i64>::empty(),
        forall|n: i64| counter@.contains_key(n) <==> wanted.contains(n),
    ensures
        final(graph).wf(),
        final(graph).nodes() == built_nodes(nodes@, wanted, nodes@.len() as int),
        final(graph).node_order() == built_order(nodes@, wanted, nodes@.len() as int),
        final(graph).ways() == old(graph).ways(),
        final(graph).edges() == old(graph).edges(),
        final(graph).index() == old(graph).index(),
{
    broadcast use vstd::std_specs::hash::group_hash_axioms;

    let mut i: usize = 0;
    while i < nodes.len()
        invariant
            i <= nodes.len(),
            graph.wf(),
            forall|n: i64| counter@.contains_key(n) <==> wanted.contains(n),
            graph.nodes() == built_nodes(nodes@, wanted, i as int),
            graph.node_order() == built_order(nodes@, wanted, i as int),
            graph.ways() == old(graph).ways(),
            graph.edges() == old(graph).edges(),
            graph.index() == old(graph).index(),
        decreases nodes.len() - i,
    {
        if counter.contains_key(&nodes[i].id) {
            graph.add_node(&nodes[i]);
        }
        i = i + 1;
    }
}

/// Whether the graph holds every node that a kept way runs through.
fn check_nodes(graph: &OSMGraph, ways: &Vec<Way>, keep_trunk: bool) -> (ok: bool)
    ensures
        ok == (forall|i: int, k: int|
            0 <= i < ways@.len() && way_kept(ways@[i]@.tags, keep_trunk) && 0 <= k
                < ways@[i]@.node_ids.len() ==> graph.nodes().contains_key(
                #[trigger] ways@[i]@.node_ids[k],
            )),
{
    let mut i: usize = 0;
    while i < ways.len()
        invariant
            i <= ways.len(),
            forall|j: int, k: int|
                0 <= j < i && way_kept(ways@[j]@.tags, keep_trunk) && 0 <= k
                    < ways@[j]@.node_ids.len() ==> graph.nodes().contains_key(
                    #[trigger] ways@[j]@.node_ids[k],
                ),
        decreases ways.len() - i,
    {
        if keeps_tags(ways[i].get_tags(), keep_trunk) {
            let ns = ways[i].get_node_ids();
            let mut k: usize = 0;
            while k < ns.len()
                invariant
                    i < ways.len(),
                    k <= ns.len(),
                    ns@ == ways@[i as int]@.node_ids,
                    way_kept(ways@[i as int]@.tags, keep_trunk),
                    forall|c: int| 0 <= c < k ==> graph.nodes().contains_key(#[trigger] ns@[c]),
                decreases ns.len() - k,
            {
                if graph.get_node(ns[k]).is_none() {
                    assert(!graph.nodes().contains_key(ways@[i as int]@.node_ids[k as int]));
                    return false;
                }
                k = k + 1;
            }
        }
        i = i + 1;
    }
    true
}

/// Reads a map and builds its graph.
#[derive(Clone, Debug)]
pub struct OSMReader {
    file_path: String,
    keep_trunk: bool,
}

impl OSMReader {
    /// The path of the file that holds the map.
    pub closed spec fn path(&self) -> Seq<char> {
        self.file_path@
    }

    /// Whether ways of the classes `trunk` and `trunk_link` are kept.
    pub closed spec fn trunk_kept(&self) -> bool {
        self.keep_trunk
    }

    /// A reader for the map in the file at `file_path` that drops trunk
    /// roads.
    pub fn new(file_path: String) -> (reader: OSMReader)
        ensures
            reader.path() == file_path@,
            !reader.trunk_kept(),
    {
        OSMReader { file_path, keep_trunk: false }
    }

    /// A reader for the map in the file at `file_path` that keeps trunk
    /// roads where `keep_trunk` says so.
    pub fn with_trunk(file_path: String, keep_trunk: bool) -> (reader: OSMReader)
        ensures
            reader.path() == file_path@,
            reader.trunk_kept() == keep_trunk,
    {
        OSMReader { file_path, keep_trunk }
    }

    pub fn get_file_path(&self) -> (path: &String)
        ensures
            path@ == self.path(),
    {
        &self.file_path
    }

    pub fn keeps_trunk(&self) -> (yes: bool)
        ensures
            yes == self.trunk_kept(),
    {
        self.keep_trunk
    }

    /// Whether this reader keeps a way with the tags `tags`.
    pub fn keeps_way(&self, tags: &Tags) -> (yes: bool)
        ensures
            yes == way_kept(tags@, self.trunk_kept()),
    {
        keeps_tags(tags, self.keep_trunk)
    }

    /// Builds the graph of a map from its nodes, its ways and the
    /// measurements of its ways.
    ///
    /// Ways that are not kept are passed over. Of the nodes, those that a
    /// kept way runs through are stored. Each kept way is stored and
    /// contracted: it is cut at each junction strictly inside it, and each
    /// segment becomes an edge, with a reverse edge behind it unless the way
    /// is one-way. Every edge is filed in the flat list and in the index
    /// under the node it leaves.
    pub fn build_graph(
        &self,
        nodes: &Vec<Node>,
        ways: &Vec<Way>,
        measures: &Vec<WayMeasure>,
    ) -> (built: Result<OSMGraph, BuildError>)
        ensures
            match built {
                Ok(graph) => {
                    &&& measures_fit(ways@, measures@, self.trunk_kept())
                    &&& nodes_present(nodes@, ways@, self.trunk_kept())
                    &&& is_built(graph, nodes@, ways@, measures@, self.trunk_kept())
                },
                Err(BuildError::MeasureMismatch) => !measures_fit(
                    ways@,
                    measures@,
                    self.trunk_kept(),
                ),
                Err(BuildError::MalformedInput) => {
                    &&& measures_fit(ways@, measures@, self.trunk_kept())
                    &&& !nodes_present(nodes@, ways@, self.trunk_kept())
                },
            },
    {
        let keep_trunk = self.keep_trunk;
        if !check_measures(ways, measures, keep_trunk) {
            return Err(BuildError::MeasureMismatch);
        }
        let counter = count_references(ways, keep_trunk);
        let ghost wanted = referenced(ways@, keep_trunk);
        let ghost marked = junctions(ways@, keep_trunk);
        assert(counted_twice(counter@) =~= marked);
        let mut graph = OSMGraph::new();
        store_nodes(&mut graph, nodes, &counter, Ghost(wanted));
        let known = check_nodes(&graph, ways, keep_trunk);
        proof {
            assert forall|i: int, k: int|
                0 <= i < ways@.len() && way_kept(ways@[i]@.tags, keep_trunk) && 0 <= k
                    < ways@[i]@.node_ids.len() implies (graph.nodes().contains_key(
                #[trigger] ways@[i]@.node_ids[k],
            ) <==> has_node(nodes@, ways@[i]@.node_ids[k])) by {
                lemma_ref_count_positive(ways@, keep_trunk, ways@.len() as int, i, k);
                lemma_built_nodes_dom(
                    nodes@,
                    wanted,
                    nodes@.len() as int,
                    ways@[i]@.node_ids[k],
                );
            }
        }
        if !known {
            return Err(BuildError::MalformedInput);
        }
        assert(nodes_present(nodes@, ways@, keep_trunk));
        let mut i: usize = 0;
        assert(graph.edges() =~= built_edges(ways@, measures@, keep_trunk, 0));
        assert(graph.ways() =~= built_ways(ways@, keep_trunk, 0));
        assert(index_follows_edges(graph)) by {
            assert forall|node_id: i64| #[trigger]
                graph.edges_from(node_id) == leaving(graph.edges(), node_id) by {}
        }
        while i < ways.len()
            invariant
                i <= ways.len(),
                measures_fit(ways@, measures@, keep_trunk),
                counted_twice(counter@) == junctions(ways@, keep_trunk),
                graph.wf(),
                graph.nodes() == built_nodes(nodes@, wanted, nodes@.len() as int),
                graph.node_order() == built_order(nodes@, wanted, nodes@.len() as int),
                graph.ways() == built_ways(ways@, keep_trunk, i as int),
                graph.edges() == built_edges(ways@, measures@, keep_trunk, i as int),
                index_follows_edges(graph),
                edges_resolve(graph),
                forall|j: int, k: int|
                    0 <= j < ways@.len() && way_kept(ways@[j]@.tags, keep_trunk) && 0 <= k
                        < ways@[j]@.node_ids.len() ==> graph.nodes().contains_key(
                        #[trigger] ways@[j]@.node_ids[k],
                    ),
            decreases ways.len() - i,
        {
            if keeps_tags(ways[i].get_tags(), keep_trunk) {
                let ghost g0 = graph;
                graph.add_way(&ways[i]);
                proof {
                    assert(edges_resolve(graph)) by {
                        assert forall|c: int| 0 <= c < graph.edges().len() implies edge_resolves(
                            graph,
                            #[trigger] graph.edges()[c],
                        ) by {
                            assert(edge_resolves(g0, g0.edges()[c]));
                        }
                    }
                    assert(index_follows_edges(graph)) by {
                        assert forall|node_id: i64| #[trigger]
                            graph.edges_from(node_id) == leaving(graph.edges(), node_id) by {
                            assert(g0.edges_from(node_id) == leaving(g0.edges(), node_id));
                        }
                    }
                    assert(way_resolves(graph, ways@[i as int]@)) by {
                        let ns = ways@[i as int]@.node_ids;
                        assert forall|k: int|
                            0 <= k < ns.len() implies graph.nodes().contains_key(
                            #[trigger] ns[k],
                        ) by {
                            assert(ns[k] == ways@[i as int]@.node_ids[k]);
                        }
                    }
                }
                contract_way(&mut graph, &ways[i], &measures[i], &counter);
            } else {
                assert(graph.edges() + Seq::<EdgeView>::empty() =~= graph.edges());
            }
            i = i + 1;
        }
        Ok(graph)
    }
}

} // verus!
