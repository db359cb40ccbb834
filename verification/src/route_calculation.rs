//! Shortest paths and loops over the graph.

use crate::osm_graph::{
    borrowed_views, edge_views, from_or_containing, select, Edge, EdgeTest, EdgeView, OSMGraph,
    State,
};
use crate::osm_graph::nearest_of;
use crate::queue::MinQueue;
use std::collections::{HashMap, HashSet};
use vstd::multiset::*;
use vstd::prelude::*;
use vstd::set_lib::*;
use vstd::std_specs::hash::*;

verus! {

/// The node at which the step `k` of a walk from `from` along `edges`
/// begins: `from` for the first step, else the end of the edge before.
pub open spec fn step_start(from: i64, edges: Seq<EdgeView>, k: int) -> i64 {
    if k <= 0 {
        from
    } else {
        edges[k - 1].to
    }
}

/// `edges` is a walk from `from`: each edge is filed in the index under the
/// node at which its step begins.
pub open spec fn is_walk(graph: OSMGraph, from: i64, edges: Seq<EdgeView>) -> bool {
    forall|k: int|
        0 <= k < edges.len() ==> graph.edges_from(step_start(from, edges, k)).contains(
            #[trigger] edges[k],
        )
}

/// The node at which a walk from `from` along `edges` ends.
pub open spec fn walk_end(from: i64, edges: Seq<EdgeView>) -> i64 {
    step_start(from, edges, edges.len() as int)
}

/// The sum of the weights of the edges.
pub open spec fn walk_weight(edges: Seq<EdgeView>) -> int
    decreases edges.len(),
{
    if edges.len() == 0 {
        0
    } else {
        walk_weight(edges.drop_last()) + edges.last().weight
    }
}

/// The node at which a search from `start` sets out: the first node of the
/// first edge of the flat list that leaves `start` or, where none does, of
/// the first that runs through it. `None` where no edge does either.
pub open spec fn search_anchor(graph: OSMGraph, start: i64) -> Option<i64> {
    if from_or_containing(graph.edges(), start).len() > 0 {
        Some(from_or_containing(graph.edges(), start)[0].from)
    } else {
        None
    }
}

/// The node that a search for `end` accepts beside `end` itself: the last
/// node of the first edge of the flat list that runs through `end`. `None`
/// where no edge does.
pub open spec fn search_target(graph: OSMGraph, end: i64) -> Option<i64> {
    if select(graph.edges(), EdgeTest::Through, end).len() > 0 {
        Some(select(graph.edges(), EdgeTest::Through, end)[0].to)
    } else {
        None
    }
}

/// `edges` leads from `start` to `end`: it is a walk from the anchor of
/// `start` that ends at `end` or at the node accepted beside it.
pub open spec fn reaches(graph: OSMGraph, start: i64, end: i64, edges: Seq<EdgeView>) -> bool {
    match (search_anchor(graph, start), search_target(graph, end)) {
        (Some(anchor), Some(target)) => {
            &&& is_walk(graph, anchor, edges)
            &&& (walk_end(anchor, edges) == end || walk_end(anchor, edges) == target)
        },
        _ => false,
    }
}

/// The nodes of a route from `start` along `edges`: `start`, and behind it
/// the last node of each edge.
pub open spec fn route_nodes(start: i64, edges: Seq<EdgeView>) -> Seq<i64> {
    seq![start] + edges.map_values(|e: EdgeView| e.to)
}

/// `nodes` and `edges` are a shortest route from `start` to `end`: `edges`
/// leads from `start` to `end`, nothing that does so weighs less, and
/// `nodes` are the nodes along it.
pub open spec fn is_shortest_route(
    graph: OSMGraph,
    start: i64,
    end: i64,
    nodes: Seq<i64>,
    edges: Seq<EdgeView>,
) -> bool {
    &&& reaches(graph, start, end, edges)
    &&& nodes == route_nodes(start, edges)
    &&& forall|other: Seq<EdgeView>| #[trigger]
        reaches(graph, start, end, other) ==> walk_weight(edges) <= walk_weight(other)
}

/// Nothing leads from `start` to `end`.
pub open spec fn no_route(graph: OSMGraph, start: i64, end: i64) -> bool {
    forall|other: Seq<EdgeView>| !#[trigger] reaches(graph, start, end, other)
}

/// Where there is a shortest route there is a route: a search gives a route
/// or nothing, never both and never wrongly nothing.
pub proof fn lemma_route_or_none(
    graph: OSMGraph,
    start: i64,
    end: i64,
    nodes: Seq<i64>,
    edges: Seq<EdgeView>,
)
    requires
        is_shortest_route(graph, start, end, nodes, edges),
    ensures
        !no_route(graph, start, end),
{
    assert(reaches(graph, start, end, edges));
}

/// A walk without its last edge is a walk, ends where the last edge is
/// filed, and weighs no more.
proof fn lemma_walk_prefix(graph: OSMGraph, from: i64, edges: Seq<EdgeView>)
    requires
        is_walk(graph, from, edges),
        edges.len() > 0,
    ensures
        is_walk(graph, from, edges.drop_last()),
        graph.edges_from(walk_end(from, edges.drop_last())).contains(edges.last()),
        walk_weight(edges.drop_last()) <= walk_weight(edges),
{
    let shorter = edges.drop_last();
    assert forall|k: int| 0 <= k < shorter.len() implies graph.edges_from(
        step_start(from, shorter, k),
    ).contains(#[trigger] shorter[k]) by {
        assert(shorter[k] == edges[k]);
        assert(step_start(from, shorter, k) == step_start(from, edges, k));
    }
    assert(step_start(from, edges, edges.len() - 1) == walk_end(from, shorter));
    assert(edges.last() == edges[edges.len() - 1]);
}

/// A walk with one more edge, filed where the walk ends, is a walk.
proof fn lemma_walk_push(graph: OSMGraph, from: i64, edges: Seq<EdgeView>, e: EdgeView)
    requires
        is_walk(graph, from, edges),
        graph.edges_from(walk_end(from, edges)).contains(e),
    ensures
        is_walk(graph, from, edges.push(e)),
        walk_end(from, edges.push(e)) == e.to,
        walk_weight(edges.push(e)) == walk_weight(edges) + e.weight,
{
    let longer = edges.push(e);
    assert forall|k: int| 0 <= k < longer.len() implies graph.edges_from(
        step_start(from, longer, k),
    ).contains(#[trigger] longer[k]) by {
        if k < edges.len() {
            assert(longer[k] == edges[k]);
            assert(step_start(from, longer, k) == step_start(from, edges, k));
        }
    }
    assert(longer.drop_last() =~= edges);
}

/// What a search knows of the costs: each edge filed under a settled node
/// leads to a node with a cost, and that cost is no more than the cost of
/// the settled node and the weight of the edge.
spec fn relaxed(graph: OSMGraph, dist: Map<i64, u128>, settled: Set<i64>) -> bool {
    forall|u: i64, e: EdgeView|
        settled.contains(u) && #[trigger] graph.edges_from(u).contains(e) ==> dist.contains_key(
            e.to,
        ) && dist[e.to] <= dist[u] + e.weight
}

/// Some node with a cost that is not settled has a cost of `bound` at most.
spec fn frontier_below(dist: Map<i64, u128>, settled: Set<i64>, bound: int) -> bool {
    exists|y: i64| #[trigger] dist.contains_key(y) && !settled.contains(y) && dist[y] <= bound
}

/// A walk from the anchor either ends at a settled node that costs no more
/// than the walk weighs, or there is a node that is not settled and costs
/// no more.
proof fn lemma_walk_meets_frontier(
    graph: OSMGraph,
    anchor: i64,
    dist: Map<i64, u128>,
    settled: Set<i64>,
    walk: Seq<EdgeView>,
)
    requires
        dist.contains_key(anchor),
        dist[anchor] == 0,
        relaxed(graph, dist, settled),
        is_walk(graph, anchor, walk),
    ensures
        walk_weight(walk) >= 0,
        frontier_below(dist, settled, walk_weight(walk)) || (settled.contains(
            walk_end(anchor, walk),
        ) && dist.contains_key(walk_end(anchor, walk)) && dist[walk_end(anchor, walk)]
            <= walk_weight(walk)),
    decreases walk.len(),
{
    if walk.len() == 0 {
        if !settled.contains(anchor) {
            assert(dist.contains_key(anchor) && !settled.contains(anchor) && dist[anchor] <= 0);
        }
    } else {
        let shorter = walk.drop_last();
        let e = walk.last();
        lemma_walk_prefix(graph, anchor, walk);
        lemma_walk_meets_frontier(graph, anchor, dist, settled, shorter);
        if frontier_below(dist, settled, walk_weight(shorter)) {
            let y = choose|y: i64| #[trigger]
                dist.contains_key(y) && !settled.contains(y) && dist[y] <= walk_weight(shorter);
            assert(dist.contains_key(y) && !settled.contains(y) && dist[y] <= walk_weight(walk));
        } else {
            let x = walk_end(anchor, shorter);
            assert(graph.edges_from(x).contains(e));
            assert(walk_end(anchor, walk) == e.to);
            if !settled.contains(e.to) {
                assert(dist.contains_key(e.to) && !settled.contains(e.to) && dist[e.to]
                    <= walk_weight(walk));
            }
        }
    }
}

/// No more nodes than there are ids can be settled.
proof fn lemma_settled_bound(settled: Set<i64>)
    requires
        settled.finite(),
    ensures
        settled.len() <= 0x1_0000_0000_0000_0000,
{
    let full = Set::<i64>::full();
    let most = Set::<i64>::range(i64::MIN, i64::MAX);
    range_set_properties::<i64>(i64::MIN, i64::MAX);
    assert(full =~= most.insert(i64::MAX));
    assert(settled.subset_of(full));
    lemma_len_subset(settled, full);
}

/// What a search has found so far, beside what its tables hold: for each
/// node with a cost the walk that costs so much, and for each settled node
/// its place in the order in which the nodes were settled.
struct Found {
    walks: Map<i64, Seq<EdgeView>>,
    rank: Map<i64, nat>,
}

/// Each node with a cost has a walk from the anchor that ends at it and
/// weighs what the node costs; the anchor costs nothing.
spec fn walks_hold(graph: OSMGraph, anchor: i64, dist: Map<i64, u128>, found: Found) -> bool {
    &&& dist.contains_key(anchor)
    &&& dist[anchor] == 0
    &&& found.walks[anchor] == Seq::<EdgeView>::empty()
    &&& forall|v: i64| #[trigger]
        dist.contains_key(v) ==> {
            &&& is_walk(graph, anchor, found.walks[v])
            &&& walk_end(anchor, found.walks[v]) == v
            &&& walk_weight(found.walks[v]) == dist[v]
        }
}

/// Marks the node of which a link is looked at.
spec fn linked(v: i64) -> bool {
    true
}

/// Each node with a cost but the anchor has a settled node and an edge
/// before it: its walk is the walk of that node and that edge. A settled
/// node was settled after the node before it.
spec fn links_hold(
    anchor: i64,
    dist: Map<i64, u128>,
    settled: Set<i64>,
    prev_nodes: Map<i64, i64>,
    prev_edges: Map<i64, Edge>,
    found: Found,
) -> bool {
    forall|v: i64|
        #[trigger] linked(v) && dist.contains_key(v) && v != anchor ==> {
            &&& prev_nodes.contains_key(v)
            &&& prev_edges.contains_key(v)
            &&& settled.contains(prev_nodes[v])
            &&& found.walks[v] == found.walks[prev_nodes[v]].push(prev_edges[v]@)
            &&& (settled.contains(v) ==> found.rank[prev_nodes[v]] < found.rank[v])
        }
}

/// Each settled node has a cost, which is `floor` at most, and a rank below
/// the number of settled nodes. No cost is above what so many edges can
/// weigh.
spec fn settled_hold(dist: Map<i64, u128>, settled: Set<i64>, found: Found, floor: int) -> bool {
    &&& settled.finite()
    &&& forall|u: i64| #[trigger]
        settled.contains(u) ==> dist.contains_key(u) && found.rank[u] < settled.len() && dist[u]
            <= floor
    &&& forall|v: i64| #[trigger] dist.contains_key(v) ==> dist[v] <= settled.len() * u64::MAX
}

/// The queue holds each node that has a cost and is not settled with that
/// cost. Each state in it is of a node with a cost, and is `floor` at least
/// and the cost of its node at least.
spec fn queue_holds(
    dist: Map<i64, u128>,
    settled: Set<i64>,
    queue: Multiset<State>,
    floor: int,
) -> bool {
    &&& forall|v: i64| #[trigger]
        dist.contains_key(v) && !settled.contains(v) ==> queue.count(
            State { node_id: v, distance: dist[v] },
        ) > 0
    &&& forall|s: State| #[trigger]
        queue.count(s) > 0 ==> dist.contains_key(s.node_id) && dist[s.node_id] <= s.distance
            && floor <= s.distance
}

/// As `relaxed`, but of the edges filed under `u` only the first `k` count.
spec fn relaxed_but(
    graph: OSMGraph,
    dist: Map<i64, u128>,
    settled: Set<i64>,
    u: i64,
    k: int,
) -> bool {
    &&& forall|x: i64, e: EdgeView|
        settled.contains(x) && x != u && #[trigger] graph.edges_from(x).contains(e)
            ==> dist.contains_key(e.to) && dist[e.to] <= dist[x] + e.weight
    &&& forall|j: int|
        0 <= j < k ==> {
            let e = #[trigger] graph.edges_from(u)[j];
            dist.contains_key(e.to) && dist[e.to] <= dist[u] + e.weight
        }
}

/// The place of a node in the order of settling; a node that is not settled
/// comes behind all that are.
spec fn rank_of(settled: Set<i64>, found: Found, v: i64) -> nat {
    if settled.contains(v) {
        found.rank[v]
    } else {
        settled.len()
    }
}

/// Follows the links back from `goal` to the anchor and gives the route
/// from `start`: its nodes and its edges.
fn rebuild(
    anchor: i64,
    start: i64,
    goal: i64,
    prev_nodes: &HashMap<i64, i64>,
    prev_edges: &HashMap<i64, Edge>,
    Ghost(graph): Ghost<OSMGraph>,
    Ghost(dist): Ghost<Map<i64, u128>>,
    Ghost(settled): Ghost<Set<i64>>,
    Ghost(found): Ghost<Found>,
    Ghost(floor): Ghost<int>,
) -> (route: (Vec<i64>, Vec<Edge>))
    requires
        walks_hold(graph, anchor, dist, found),
        links_hold(anchor, dist, settled, prev_nodes@, prev_edges@, found),
        settled_hold(dist, settled, found, floor),
        dist.contains_key(goal),
    ensures
        edge_views(route.1@) == found.walks[goal],
        route.0@ == route_nodes(start, found.walks[goal]),
{
    broadcast use vstd::std_specs::hash::group_hash_axioms;

    let ghost whole = found.walks[goal];
    let mut back_nodes: Vec<i64> = Vec::new();
    let mut back_edges: Vec<Edge> = Vec::new();
    let mut current = goal;
    assert(found.walks[current] =~= whole.subrange(0, whole.len() - back_edges@.len()));
    while current != anchor
        invariant
            walks_hold(graph, anchor, dist, found),
            links_hold(anchor, dist, settled, prev_nodes@, prev_edges@, found),
            settled_hold(dist, settled, found, floor),
            dist.contains_key(current),
            whole == found.walks[goal],
            back_nodes@.len() == back_edges@.len(),
            back_edges@.len() <= whole.len(),
            found.walks[current] == whole.subrange(0, whole.len() - back_edges@.len()),
            forall|j: int|
                0 <= j < back_edges@.len() ==> (#[trigger] back_edges@[j])@ == whole[whole.len()
                    - 1 - j],
            forall|j: int|
                0 <= j < back_nodes@.len() ==> #[trigger] back_nodes@[j] == whole[whole.len() - 1
                    - j].to,
        decreases rank_of(settled, found, current),
    {
        assert(linked(current));
        let before: i64 = *prev_nodes.get(&current).unwrap();
        let edge = prev_edges.get(&current).unwrap().duplicate();
        proof {
            let here = found.walks[current];
            assert(here == found.walks[before].push(edge@));
            assert(here.len() > 0);
            assert(here.last() == edge@);
            assert(walk_end(anchor, here) == current);
            assert(edge@.to == current);
            assert(here.last() == whole[whole.len() - back_edges@.len() - 1]);
            assert(found.walks[before] =~= whole.subrange(
                0,
                whole.len() - back_edges@.len() - 1,
            ));
        }
        back_nodes.push(current);
        back_edges.push(edge);
        current = before;
    }
    assert(back_edges@.len() == whole.len());
    let mut nodes: Vec<i64> = Vec::new();
    let mut edges: Vec<Edge> = Vec::new();
    nodes.push(start);
    while back_edges.len() > 0
        invariant
            back_nodes@.len() == back_edges@.len(),
            back_edges@.len() + edges@.len() == whole.len(),
            nodes@.len() == edges@.len() + 1,
            nodes@[0] == start,
            forall|j: int| 0 <= j < edges@.len() ==> (#[trigger] edges@[j])@ == whole[j],
            forall|j: int| 0 <= j < edges@.len() ==> #[trigger] nodes@[j + 1] == whole[j].to,
            forall|j: int|
                0 <= j < back_edges@.len() ==> (#[trigger] back_edges@[j])@ == whole[whole.len()
                    - 1 - j],
            forall|j: int|
                0 <= j < back_nodes@.len() ==> #[trigger] back_nodes@[j] == whole[whole.len() - 1
                    - j].to,
        decreases back_edges.len(),
    {
        let ghost at = edges@.len() as int;
        let ghost last = back_edges@.len() - 1;
        assert(back_edges@[last]@ == whole[whole.len() - 1 - last]);
        assert(back_nodes@[last] == whole[whole.len() - 1 - last].to);
        let edge = back_edges.pop().unwrap();
        let node: i64 = back_nodes.pop().unwrap();
        assert(edge@ == whole[at]);
        assert(node == whole[at].to);
        edges.push(edge);
        nodes.push(node);
        assert forall|j: int| 0 <= j < edges@.len() implies #[trigger] nodes@[j + 1]
            == whole[j].to by {}
    }
    assert(edge_views(edges@) =~= whole);
    assert forall|i: int| 0 <= i < nodes@.len() implies nodes@[i] == route_nodes(
        start,
        whole,
    )[i] by {
        if i > 0 {
            let j = i - 1;
            assert(nodes@[j + 1] == whole[j].to);
        }
    }
    assert(nodes@ =~= route_nodes(start, whole));
    (nodes, edges)
}

/// The shortest route from `start_node` to `end_node`: its nodes and its
/// edges, or nothing twice where there is no route.
///
/// The search sets out from the anchor of `start_node` and follows the
/// edges filed in the index. It ends at `end_node` or at the node accepted
/// beside it, whichever it comes to first; so the route weighs no more than
/// any walk from the anchor to either.
pub fn dijkstra(graph: &OSMGraph, start_node: &i64, end_node: &i64) -> (route: (
    Option<Vec<i64>>,
    Option<Vec<Edge>>,
))
    ensures
        match route {
            (Some(nodes), Some(edges)) => is_shortest_route(
                *graph,
                *start_node,
                *end_node,
                nodes@,
                edge_views(edges@),
            ),
            (None, None) => no_route(*graph, *start_node, *end_node),
            _ => false,
        },
{
    broadcast use vstd::std_specs::hash::group_hash_axioms;
    broadcast use vstd::multiset::group_multiset_axioms;

    let start_edges = graph.get_edges_from_node_or_containing(*start_node);
    if start_edges.len() == 0 {
        return (None, None);
    }
    let anchor: i64 = start_edges[0].from;
    assert(borrowed_views(start_edges@)[0] == start_edges@[0]@);
    let end_edges = graph.get_edges_containing_node(*end_node);
    if end_edges.len() == 0 {
        return (None, None);
    }
    let target: i64 = end_edges[0].to;
    assert(borrowed_views(end_edges@)[0] == end_edges@[0]@);

    let mut dist: HashMap<i64, u128> = HashMap::new();
    let mut visited: HashSet<i64> = HashSet::new();
    let mut heap = MinQueue::new();
    let mut prev_nodes: HashMap<i64, i64> = HashMap::new();
    let mut prev_edges: HashMap<i64, Edge> = HashMap::new();
    dist.insert(anchor, 0);
    heap.push(State::new(anchor, 0));
    let ghost mut found = Found {
        walks: Map::<i64, Seq<EdgeView>>::empty().insert(anchor, Seq::empty()),
        rank: Map::<i64, nat>::empty(),
    };
    let ghost mut floor: int = 0;
    proof {
        assert(is_walk(*graph, anchor, Seq::<EdgeView>::empty()));
    }
    loop
        invariant
            heap.wf(),
            search_anchor(*graph, *start_node) == Some(anchor),
            search_target(*graph, *end_node) == Some(target),
            walks_hold(*graph, anchor, dist@, found),
            links_hold(anchor, dist@, visited@, prev_nodes@, prev_edges@, found),
            settled_hold(dist@, visited@, found, floor),
            queue_holds(dist@, visited@, heap.entries(), floor),
            relaxed(*graph, dist@, visited@),
            !visited@.contains(*end_node),
            !visited@.contains(target),
            visited@.contains(anchor) || forall|v: i64| dist@.contains_key(v) ==> v == anchor,
            0 <= floor,
        decreases 0x1_0000_0000_0000_0000 - visited@.len(), heap.entries().len(),
    {
        let ghost queue_before = heap.entries();
        let ghost settled_before = visited@;
        let ghost rank_before = found.rank;
        proof {
            lemma_settled_bound(visited@);
        }
        let state = match heap.pop() {
            Some(state) => state,
            None => {
                proof {
                    assert forall|other: Seq<EdgeView>| !#[trigger] reaches(
                        *graph,
                        *start_node,
                        *end_node,
                        other,
                    ) by {
                        if is_walk(*graph, anchor, other) {
                            lemma_walk_meets_frontier(*graph, anchor, dist@, visited@, other);
                            if frontier_below(dist@, visited@, walk_weight(other)) {
                                let y = choose|y: i64| #[trigger]
                                    dist@.contains_key(y) && !visited@.contains(y) && dist@[y]
                                        <= walk_weight(other);
                                assert(queue_before.count(State { node_id: y, distance: dist@[y] })
                                    > 0);
                            }
                        }
                    }
                }
                return (None, None);
            },
        };
        let u: i64 = state.node_id;
        let d: u128 = state.distance;
        assert(dist@.contains_key(u) && dist@[u] <= d && floor <= d);
        if u == *end_node || u == target {
            proof {
                assert(queue_before.count(State { node_id: u, distance: dist@[u] }) > 0);
                assert(d == dist@[u]);
            }
            let (nodes, edges) = rebuild(
                anchor,
                *start_node,
                u,
                &prev_nodes,
                &prev_edges,
                Ghost(*graph),
                Ghost(dist@),
                Ghost(visited@),
                Ghost(found),
                Ghost(floor),
            );
            proof {
                let best = found.walks[u];
                assert(reaches(*graph, *start_node, *end_node, best));
                assert forall|other: Seq<EdgeView>| #[trigger]
                    reaches(*graph, *start_node, *end_node, other) implies walk_weight(best)
                    <= walk_weight(other) by {
                    lemma_walk_meets_frontier(*graph, anchor, dist@, visited@, other);
                    let y = choose|y: i64| #[trigger]
                        dist@.contains_key(y) && !visited@.contains(y) && dist@[y] <= walk_weight(
                            other,
                        );
                    assert(queue_before.count(State { node_id: y, distance: dist@[y] }) > 0);
                }
            }
            return (Some(nodes), Some(edges));
        }
        if visited.contains(&u) {
            proof {
                assert forall|v: i64| #[trigger]
                    dist@.contains_key(v) && !visited@.contains(v) implies heap.entries().count(
                    State { node_id: v, distance: dist@[v] },
                ) > 0 by {
                    assert(queue_before.count(State { node_id: v, distance: dist@[v] }) > 0);
                }
            }
            continue ;
        }
        proof {
            assert(queue_before.count(State { node_id: u, distance: dist@[u] }) > 0);
            assert(d == dist@[u]);
        }
        visited.insert(u);
        proof {
            found = Found { walks: found.walks, rank: found.rank.insert(u, settled_before.len()) };
            floor = d as int;
            lemma_settled_bound(visited@);
            assert(settled_hold(dist@, visited@, found, floor)) by {
                assert forall|x: i64| #[trigger] visited@.contains(x) implies dist@.contains_key(x)
                    && found.rank[x] < visited@.len() && dist@[x] <= floor by {
                    if x != u {
                        assert(settled_before.contains(x));
                    }
                }
                assert forall|v: i64| #[trigger] dist@.contains_key(v) implies dist@[v]
                    <= visited@.len() * u64::MAX by {
                    assert(settled_before.len() * u64::MAX <= visited@.len() * u64::MAX)
                        by (nonlinear_arith)
                        requires
                            settled_before.len() <= visited@.len(),
                    ;
                }
            }
            assert(links_hold(anchor, dist@, visited@, prev_nodes@, prev_edges@, found)) by {
                assert forall|v: i64|
                    #[trigger] linked(v) && dist@.contains_key(v) && v != anchor implies {
                    &&& prev_nodes@.contains_key(v)
                    &&& prev_edges@.contains_key(v)
                    &&& visited@.contains(prev_nodes@[v])
                    &&& found.walks[v] == found.walks[prev_nodes@[v]].push(prev_edges@[v]@)
                    &&& (visited@.contains(v) ==> found.rank[prev_nodes@[v]] < found.rank[v])
                } by {
                    assert(settled_before.contains(prev_nodes@[v]));
                    assert(rank_before[prev_nodes@[v]] < settled_before.len());
                }
            }
            assert(queue_holds(dist@, visited@, heap.entries(), floor)) by {
                assert forall|v: i64| #[trigger]
                    dist@.contains_key(v) && !visited@.contains(v) implies heap.entries().count(
                    State { node_id: v, distance: dist@[v] },
                ) > 0 by {
                    assert(queue_before.count(State { node_id: v, distance: dist@[v] }) > 0);
                }
            }
            assert(relaxed_but(*graph, dist@, visited@, u, 0)) by {
                assert forall|x: i64, e: EdgeView|
                    visited@.contains(x) && x != u && #[trigger] graph.edges_from(x).contains(
                        e,
                    ) implies dist@.contains_key(e.to) && dist@[e.to] <= dist@[x] + e.weight by {
                    assert(settled_before.contains(x));
                }
            }
            assert(d <= (visited@.len() - 1) * u64::MAX);
        }
        let filed = graph.get_edges_filed_under(u);
        let edges = match filed {
            Some(edges) => edges,
            None => {
                proof {
                    assert(relaxed(*graph, dist@, visited@)) by {
                        assert forall|x: i64, e: EdgeView|
                            visited@.contains(x) && #[trigger] graph.edges_from(x).contains(
                                e,
                            ) implies dist@.contains_key(e.to) && dist@[e.to] <= dist@[x]
                            + e.weight by {
                            assert(x != u);
                        }
                    }
                }
                continue ;
            },
        };
        let mut k: usize = 0;
        while k < edges.len()
            invariant
                k <= edges.len(),
                edge_views(edges@) == graph.edges_from(u),
                heap.wf(),
                visited@.contains(u),
                visited@.contains(anchor),
                dist@.contains_key(u),
                dist@[u] == d,
                floor == d,
                d <= (visited@.len() - 1) * u64::MAX,
                visited@.len() <= 0x1_0000_0000_0000_0000,
                walks_hold(*graph, anchor, dist@, found),
                links_hold(anchor, dist@, visited@, prev_nodes@, prev_edges@, found),
                settled_hold(dist@, visited@, found, floor),
                queue_holds(dist@, visited@, heap.entries(), floor),
                relaxed_but(*graph, dist@, visited@, u, k as int),
                visited@ == settled_before.insert(u),
            decreases edges.len() - k,
        {
            let edge = &edges[k];
            assert(edge@ == graph.edges_from(u)[k as int]);
            assert(graph.edges_from(u).contains(edge@));
            let ghost dist_before = dist@;
            if !visited.contains(&edge.to) {
                assert(d + edge.weight <= visited@.len() * u64::MAX && visited@.len() * u64::MAX
                    <= u128::MAX) by (nonlinear_arith)
                    requires
                        d <= (visited@.len() - 1) * u64::MAX,
                        edge.weight <= u64::MAX,
                        visited@.len() <= 0x1_0000_0000_0000_0000,
                        u64::MAX == 0xffff_ffff_ffff_ffff,
                        u128::MAX == 0xffff_ffff_ffff_ffff_ffff_ffff_ffff_ffff,
                ;
                let new_dist: u128 = d + edge.weight as u128;
                let better = match dist.get(&edge.to) {
                    Some(known) => new_dist < *known,
                    None => true,
                };
                if better {
                    let ghost queue_mid = heap.entries();
                    let ghost links_before = prev_nodes@;
                    let ghost edges_before = prev_edges@;
                    let ghost walks_before = found.walks;
                    let to: i64 = edge.to;
                    heap.push(State::new(to, new_dist));
                    dist.insert(to, new_dist);
                    prev_nodes.insert(to, u);
                    prev_edges.insert(to, edge.duplicate());
                    proof {
                        let pushed = State { node_id: to, distance: new_dist };
                        found =
                        Found {
                            walks: found.walks.insert(to, walks_before[u].push(edge@)),
                            rank: found.rank,
                        };
                        lemma_walk_push(*graph, anchor, walks_before[u], edge@);
                        assert(walks_hold(*graph, anchor, dist@, found)) by {
                            assert forall|v: i64| #[trigger] dist@.contains_key(v) implies {
                                &&& is_walk(*graph, anchor, found.walks[v])
                                &&& walk_end(anchor, found.walks[v]) == v
                                &&& walk_weight(found.walks[v]) == dist@[v]
                            } by {
                                if v != to {
                                    assert(dist_before.contains_key(v));
                                }
                            }
                        }
                        assert(links_hold(anchor, dist@, visited@, prev_nodes@, prev_edges@, found))
                            by {
                            assert forall|v: i64|
                                #[trigger] linked(v) && dist@.contains_key(v) && v
                                    != anchor implies {
                                &&& prev_nodes@.contains_key(v)
                                &&& prev_edges@.contains_key(v)
                                &&& visited@.contains(prev_nodes@[v])
                                &&& found.walks[v] == found.walks[prev_nodes@[v]].push(
                                    prev_edges@[v]@,
                                )
                                &&& (visited@.contains(v) ==> found.rank[prev_nodes@[v]]
                                    < found.rank[v])
                            } by {
                                if v != to {
                                    assert(dist_before.contains_key(v));
                                    assert(visited@.contains(links_before[v]));
                                }
                            }
                        }
                        assert(settled_hold(dist@, visited@, found, floor)) by {
                            assert forall|x: i64| #[trigger]
                                visited@.contains(x) implies dist@.contains_key(x)
                                && found.rank[x] < visited@.len() && dist@[x] <= floor by {
                                assert(dist_before.contains_key(x));
                            }
                            assert forall|v: i64| #[trigger] dist@.contains_key(v) implies dist@[v]
                                <= visited@.len() * u64::MAX by {
                                if v != to {
                                    assert(dist_before.contains_key(v));
                                }
                            }
                        }
                        assert(queue_holds(dist@, visited@, heap.entries(), floor)) by {
                            assert forall|v: i64| #[trigger]
                                dist@.contains_key(v) && !visited@.contains(
                                    v,
                                ) implies heap.entries().count(
                                State { node_id: v, distance: dist@[v] },
                            ) > 0 by {
                                if v != to {
                                    assert(dist_before.contains_key(v));
                                    assert(queue_mid.count(
                                        State { node_id: v, distance: dist_before[v] },
                                    ) > 0);
                                }
                            }
                            assert forall|s: State| #[trigger]
                                heap.entries().count(s) > 0 implies dist@.contains_key(s.node_id)
                                && dist@[s.node_id] <= s.distance && floor <= s.distance by {
                                if s != pushed {
                                    assert(queue_mid.count(s) > 0);
                                }
                            }
                        }
                    }
                }
            }
            proof {
                assert(relaxed_but(*graph, dist@, visited@, u, k + 1)) by {
                    assert forall|x: i64, e: EdgeView|
                        visited@.contains(x) && x != u && #[trigger] graph.edges_from(x).contains(
                            e,
                        ) implies dist@.contains_key(e.to) && dist@[e.to] <= dist@[x]
                        + e.weight by {
                        assert(dist_before.contains_key(e.to) && dist_before[e.to]
                            <= dist_before[x] + e.weight);
                        assert(dist_before.contains_key(x));
                    }
                    assert forall|j: int| 0 <= j < k + 1 implies dist@.contains_key(
                        (#[trigger] graph.edges_from(u)[j]).to,
                    ) && dist@[graph.edges_from(u)[j].to] <= dist@[u] + graph.edges_from(
                        u,
                    )[j].weight by {
                        if j < k {
                            assert(dist_before.contains_key(graph.edges_from(u)[j].to));
                        }
                    }
                }
            }
            k = k + 1;
        }
        proof {
            assert(relaxed(*graph, dist@, visited@)) by {
                assert forall|x: i64, e: EdgeView|
                    visited@.contains(x) && #[trigger] graph.edges_from(x).contains(
                        e,
                    ) implies dist@.contains_key(e.to) && dist@[e.to] <= dist@[x] + e.weight by {
                    if x == u {
                        let j = choose|j: int|
                            0 <= j < graph.edges_from(u).len() && graph.edges_from(u)[j] == e;
                        assert(dist@.contains_key(graph.edges_from(u)[j].to));
                    }
                }
            }
        }
    }
}

/// The least number of waypoints of a loop.
pub const WAYPOINTS_MIN: usize = 2;

/// The number that the waypoints of a loop stay below.
pub const WAYPOINTS_END: usize = 3;

/// A number from `low` up to, but not including, `high`, drawn at random by
/// `rand::Rng::gen_range` on the generator of `rand::thread_rng`. Of the
/// outcome only its range is known; an empty range is left out, on which
/// `gen_range` panics.
#[verifier::external_body]
fn draw_below(low: usize, high: usize) -> (n: usize)
    requires
        low < high,
    ensures
        low <= n < high,
{
    rand::Rng::gen_range(&mut rand::thread_rng(), low..high)
}

/// The nodes nearest to the first `count` probes, in order: `None` where
/// there are fewer probes or one of them has no nearest node. A probe is the
/// list of the distances from a place to each node, in the order of the
/// nodes `order`.
pub open spec fn snapped(order: Seq<i64>, probes: Seq<Vec<u128>>, count: int) -> Option<Seq<i64>>
    decreases count,
{
    if count <= 0 {
        Some(Seq::empty())
    } else if count > probes.len() {
        None
    } else {
        match (snapped(order, probes, count - 1), nearest_of(order, probes[count - 1]@)) {
            (Some(before), Some(node)) => Some(before.push(node)),
            _ => None,
        }
    }
}

/// The nodes nearest to the first `count` probes, in order.
pub fn snap_waypoints(graph: &OSMGraph, probes: &Vec<Vec<u128>>, count: usize) -> (points: Option<
    Vec<i64>,
>)
    ensures
        match points {
            Some(p) => snapped(graph.node_order(), probes@, count as int) == Some(p@),
            None => snapped(graph.node_order(), probes@, count as int).is_none(),
        },
{
    if count > probes.len() {
        return None;
    }
    let mut points: Vec<i64> = Vec::new();
    let mut i: usize = 0;
    while i < count
        invariant
            i <= count <= probes.len(),
            snapped(graph.node_order(), probes@, i as int) == Some(points@),
        decreases count - i,
    {
        match graph.get_nearest_node(&probes[i]) {
            Some(node) => {
                points.push(node);
            },
            None => {
                proof {
                    lemma_snapped_stays_none(graph.node_order(), probes@, i + 1, count as int);
                }
                return None;
            },
        }
        i = i + 1;
    }
    Some(points)
}

/// Where the first probes cannot be snapped, more of them cannot either.
proof fn lemma_snapped_stays_none(order: Seq<i64>, probes: Seq<Vec<u128>>, few: int, many: int)
    requires
        0 <= few <= many,
        snapped(order, probes, few).is_none(),
    ensures
        snapped(order, probes, many).is_none(),
    decreases many - few,
{
    if few < many {
        lemma_snapped_stays_none(order, probes, few, many - 1);
    }
}

/// The waypoints of a loop: the nodes nearest to the first probes, as many
/// of them as are drawn at random, from `WAYPOINTS_MIN` up to, but not
/// including, `WAYPOINTS_END`. `None` where there are fewer probes than
/// were drawn or one of them has no nearest node.
pub fn generate_random_points(graph: &OSMGraph, probes: &Vec<Vec<u128>>) -> (points: Option<
    Vec<i64>,
>)
    ensures
        exists|count: int|
            WAYPOINTS_MIN <= count < WAYPOINTS_END && match points {
                Some(p) => #[trigger] snapped(graph.node_order(), probes@, count) == Some(p@),
                None => snapped(graph.node_order(), probes@, count).is_none(),
            },
{
    let count = draw_below(WAYPOINTS_MIN, WAYPOINTS_END);
    let points = snap_waypoints(graph, probes, count);
    proof {
        let drawn = count as int;
        assert(WAYPOINTS_MIN <= drawn < WAYPOINTS_END && match points {
            Some(p) => #[trigger] snapped(graph.node_order(), probes@, drawn) == Some(p@),
            None => snapped(graph.node_order(), probes@, drawn).is_none(),
        });
    }
    points
}

/// The position of the first of the first `upto` points that none of them
/// is nearer to `from` than.
pub open spec fn closest_index(graph: OSMGraph, from: i64, points: Seq<i64>, upto: int) -> int
    decreases upto,
{
    if upto <= 1 {
        0
    } else if graph.gap(points[upto - 1], from) < graph.gap(
        points[closest_index(graph, from, points, upto - 1)],
        from,
    ) {
        upto - 1
    } else {
        closest_index(graph, from, points, upto - 1)
    }
}

/// The points in the order of a round that always goes on to the nearest
/// point not yet called at, beginning from `from`.
pub open spec fn visiting_order(graph: OSMGraph, from: i64, points: Seq<i64>) -> Seq<i64>
    decreases points.len(),
{
    let next = closest_index(graph, from, points, points.len() as int);
    if points.len() == 0 || !(0 <= next < points.len()) {
        Seq::empty()
    } else {
        seq![points[next]] + visiting_order(graph, points[next], points.remove(next))
    }
}

/// The round of a loop: from `start` to each point in the order of
/// `visiting_order` and back to `start`.
pub open spec fn circuit(graph: OSMGraph, start: i64, points: Seq<i64>) -> Seq<i64> {
    seq![start] + visiting_order(graph, start, points) + seq![start]
}

/// The graph holds `start` and each of the points.
pub open spec fn waypoints_known(graph: OSMGraph, start: i64, points: Seq<i64>) -> bool {
    &&& graph.nodes().contains_key(start)
    &&& forall|k: int| 0 <= k < points.len() ==> graph.nodes().contains_key(#[trigger] points[k])
}

/// The position that `closest_index` gives is among the first `upto`; none
/// of the points there is nearer to `from` than the point at it, and each
/// one before it is farther away.
pub proof fn lemma_closest_index(graph: OSMGraph, from: i64, points: Seq<i64>, upto: int)
    requires
        1 <= upto <= points.len(),
    ensures
        0 <= closest_index(graph, from, points, upto) < upto,
        forall|j: int|
            0 <= j < upto ==> graph.gap(points[closest_index(graph, from, points, upto)], from)
                <= graph.gap(#[trigger] points[j], from),
        forall|j: int|
            0 <= j < closest_index(graph, from, points, upto) ==> graph.gap(
                points[closest_index(graph, from, points, upto)],
                from,
            ) < graph.gap(#[trigger] points[j], from),
    decreases upto,
{
    if upto > 1 {
        lemma_closest_index(graph, from, points, upto - 1);
    }
}

/// The round of a loop from `start` through `points`: `None` where the
/// graph does not hold `start` or one of the points.
pub fn plan_circuit(graph: &OSMGraph, start: i64, points: Vec<i64>) -> (round: Option<Vec<i64>>)
    ensures
        match round {
            Some(c) => waypoints_known(*graph, start, points@) && c@ == circuit(
                *graph,
                start,
                points@,
            ),
            None => !waypoints_known(*graph, start, points@),
        },
{
    if graph.get_node(start).is_none() {
        return None;
    }
    let mut c: usize = 0;
    while c < points.len()
        invariant
            c <= points.len(),
            forall|k: int| 0 <= k < c ==> graph.nodes().contains_key(#[trigger] points@[k]),
        decreases points.len() - c,
    {
        if graph.get_node(points[c]).is_none() {
            return None;
        }
        c = c + 1;
    }
    let ghost all = points@;
    let mut remaining = points;
    let mut round: Vec<i64> = Vec::new();
    round.push(start);
    let mut last: i64 = start;
    assert(round@ + visiting_order(*graph, last, remaining@) =~= seq![start] + visiting_order(
        *graph,
        start,
        all,
    ));
    while remaining.len() > 0
        invariant
            graph.nodes().contains_key(last),
            forall|k: int|
                0 <= k < remaining@.len() ==> graph.nodes().contains_key(#[trigger] remaining@[k]),
            round@ + visiting_order(*graph, last, remaining@) == seq![start] + visiting_order(
                *graph,
                start,
                all,
            ),
        decreases remaining.len(),
    {
        let mut best: usize = 0;
        let mut best_gap: u128 = 0;
        let mut k: usize = 0;
        while k < remaining.len()
            invariant
                k <= remaining.len(),
                remaining.len() > 0,
                graph.nodes().contains_key(last),
                forall|j: int|
                    0 <= j < remaining@.len() ==> graph.nodes().contains_key(
                        #[trigger] remaining@[j],
                    ),
                k > 0 ==> best == closest_index(*graph, last, remaining@, k as int),
                k > 0 ==> best_gap == graph.gap(remaining@[best as int], last),
                k == 0 ==> best == 0,
                best < remaining.len(),
            decreases remaining.len() - k,
        {
            let here: u128 = graph.get_distance(remaining[k], last).unwrap();
            if k == 0 || here < best_gap {
                best = k;
                best_gap = here;
            }
            k = k + 1;
        }
        proof {
            lemma_closest_index(*graph, last, remaining@, remaining@.len() as int);
        }
        let ghost before = remaining@;
        let next = remaining.remove(best);
        proof {
            assert(visiting_order(*graph, last, before) == seq![next] + visiting_order(
                *graph,
                next,
                before.remove(best as int),
            ));
            assert(round@.push(next) + visiting_order(*graph, next, remaining@) =~= round@
                + visiting_order(*graph, last, before));
            assert forall|j: int| 0 <= j < remaining@.len() implies graph.nodes().contains_key(
                #[trigger] remaining@[j],
            ) by {
                if j < best {
                    assert(remaining@[j] == before[j]);
                } else {
                    assert(remaining@[j] == before[j + 1]);
                }
            }
        }
        round.push(next);
        last = next;
    }
    round.push(start);
    assert(round@ =~= circuit(*graph, start, all));
    Some(round)
}

/// One leg of a loop: the nodes and the edges of a route.
pub type Leg = (Vec<i64>, Vec<Edge>);

/// There is one leg for each two neighbours of the round, and each is a
/// shortest route from the one to the other.
pub open spec fn legs_are_shortest(graph: OSMGraph, round: Seq<i64>, legs: Seq<Leg>) -> bool {
    &&& legs.len() == if round.len() == 0 {
        0
    } else {
        round.len() - 1
    }
    &&& forall|i: int|
        0 <= i < legs.len() ==> is_shortest_route(
            graph,
            round[i],
            round[i + 1],
            (#[trigger] legs[i]).0@,
            edge_views(legs[i].1@),
        )
}

/// Between some two neighbours of the round there is no route.
pub open spec fn some_leg_fails(graph: OSMGraph, round: Seq<i64>) -> bool {
    exists|i: int| 0 <= i < round.len() - 1 && #[trigger] no_route(graph, round[i], round[i + 1])
}

/// A loop begins at `start` and comes back to it as far as a search can
/// tell: the first leg lists `start` first, and the last leg is a walk that
/// ends at `start` or at the node that a search for `start` accepts beside
/// it. Where the last leg has an edge, the last node it lists is that end;
/// so it is `start` wherever the search accepts no other node.
pub proof fn lemma_loop_closes(graph: OSMGraph, start: i64, points: Seq<i64>, legs: Seq<Leg>)
    requires
        legs_are_shortest(graph, circuit(graph, start, points), legs),
    ensures
        legs.len() == visiting_order(graph, start, points).len() + 1,
        legs.first().0@.first() == start,
        search_target(graph, start).is_some(),
        edge_views(legs.last().1@).len() > 0 ==> {
            ||| legs.last().0@.last() == start
            ||| Some(legs.last().0@.last()) == search_target(graph, start)
        },
        edge_views(legs.last().1@).len() > 0 && search_target(graph, start) == Some(start)
            ==> legs.last().0@.last() == start,
{
    let round = circuit(graph, start, points);
    let n = legs.len() as int;
    assert(round.len() == visiting_order(graph, start, points).len() + 2);
    assert(round[0] == start);
    assert(round[n] == start);
    let first = legs[0];
    assert(is_shortest_route(graph, round[0], round[1], first.0@, edge_views(first.1@)));
    let last = legs[n - 1];
    assert(is_shortest_route(graph, round[n - 1], round[n], last.0@, edge_views(last.1@)));
    let edges = edge_views(last.1@);
    if edges.len() > 0 {
        assert(last.0@.last() == edges.last().to);
    }
}

/// The legs of a round: a shortest route between each two neighbours, or
/// nothing where between some two there is no route.
pub fn route_circuit(graph: &OSMGraph, round: &Vec<i64>) -> (legs: Option<Vec<Leg>>)
    ensures
        match legs {
            Some(l) => legs_are_shortest(*graph, round@, l@),
            None => some_leg_fails(*graph, round@),
        },
{
    let mut legs: Vec<Leg> = Vec::new();
    if round.len() == 0 {
        return Some(legs);
    }
    let mut i: usize = 0;
    while i < round.len() - 1
        invariant
            round.len() > 0,
            i <= round.len() - 1,
            legs@.len() == i,
            forall|j: int|
                0 <= j < i ==> is_shortest_route(
                    *graph,
                    round@[j],
                    round@[j + 1],
                    (#[trigger] legs@[j]).0@,
                    edge_views(legs@[j].1@),
                ),
        decreases round.len() - 1 - i,
    {
        match dijkstra(graph, &round[i], &round[i + 1]) {
            (Some(nodes), Some(edges)) => {
                legs.push((nodes, edges));
            },
            _ => {
                assert(no_route(*graph, round@[i as int], round@[i + 1]));
                return None;
            },
        }
        i = i + 1;
    }
    Some(legs)
}

/// What a loop from `start` through the waypoints `points` comes to: with
/// no waypoints, nothing; else the legs of its round, or nothing where the
/// graph does not hold `start` or a waypoint, or some leg has no route.
pub open spec fn loop_outcome(
    graph: OSMGraph,
    start: i64,
    points: Option<Seq<i64>>,
    legs: Option<Vec<Leg>>,
) -> bool {
    match points {
        None => legs.is_none(),
        Some(ps) => match legs {
            Some(l) => waypoints_known(graph, start, ps) && legs_are_shortest(
                graph,
                circuit(graph, start, ps),
                l@,
            ),
            None => !waypoints_known(graph, start, ps) || some_leg_fails(
                graph,
                circuit(graph, start, ps),
            ),
        },
    }
}

/// The loop from `start` through `points`: the legs of its round.
pub fn loop_through(graph: &OSMGraph, start: i64, points: Vec<i64>) -> (legs: Option<Vec<Leg>>)
    ensures
        loop_outcome(*graph, start, Some(points@), legs),
{
    match plan_circuit(graph, start, points) {
        Some(round) => route_circuit(graph, &round),
        None => None,
    }
}

/// A loop from `start_node` through waypoints drawn at random: the legs of
/// the round through the waypoints that `generate_random_points` gives for
/// `probes`. Nothing where it gives none, the graph does not hold
/// `start_node`, or some leg has no route.
pub fn generate_random_loop(graph: &OSMGraph, start_node: &i64, probes: &Vec<Vec<u128>>) -> (legs:
    Option<Vec<Leg>>)
    ensures
        exists|count: int|
            WAYPOINTS_MIN <= count < WAYPOINTS_END && loop_outcome(
                *graph,
                *start_node,
                #[trigger] snapped(graph.node_order(), probes@, count),
                legs,
            ),
{
    let points = generate_random_points(graph, probes);
    let ghost count = choose|count: int|
        WAYPOINTS_MIN <= count < WAYPOINTS_END && match points {
            Some(p) => #[trigger] snapped(graph.node_order(), probes@, count) == Some(p@),
            None => snapped(graph.node_order(), probes@, count).is_none(),
        };
    match points {
        Some(p) => {
            let legs = loop_through(graph, *start_node, p);
            assert(loop_outcome(
                *graph,
                *start_node,
                snapped(graph.node_order(), probes@, count),
                legs,
            ));
            legs
        },
        None => {
            assert(loop_outcome(
                *graph,
                *start_node,
                snapped(graph.node_order(), probes@, count),
                None,
            ));
            None
        },
    }
}

} // verus!
