//! The event graph: a `petgraph` stable graph, seen through two maps.
//!
//! Verus does not look inside the graph. Its contents are named by
//! `graph_nodes` and `graph_links`, and every function below states what the
//! `petgraph` method it calls does to those two maps.

use vstd::prelude::*;
use crate::event::{DAGEdge, Event};

verus! {

/// `petgraph::stable_graph::StableGraph`, taken as opaque.
#[verifier::external_type_specification]
#[verifier::external_body]
#[verifier::reject_recursive_types(N)]
#[verifier::reject_recursive_types(E)]
#[verifier::reject_recursive_types(Ty)]
#[verifier::reject_recursive_types(Ix)]
pub struct ExStableGraph<N, E, Ty, Ix>(petgraph::stable_graph::StableGraph<N, E, Ty, Ix>);

/// `petgraph::Directed`, the marker of graphs whose edges have a direction.
#[verifier::external_type_specification]
#[verifier::external_body]
pub struct ExDirected(petgraph::Directed);

/// The graph of one request: events joined by timed edges.
pub type EventGraph = petgraph::stable_graph::StableGraph<Event, DAGEdge>;

/// Which edges of a node are meant.
#[derive(Clone, Copy, Debug, PartialEq, Eq, Structural)]
pub enum Direction {
    Outgoing,
    Incoming,
}

/// An edge as contracts see it.
pub struct Link {
    pub src: int,
    pub dst: int,
    pub weight: DAGEdge,
}

/// No events.
pub open spec fn empty_nodes() -> Map<int, Event> {
    Map::empty()
}

/// No edges.
pub open spec fn empty_links() -> Map<int, Link> {
    Map::empty()
}

/// The indices of the edges of `links` that start or end in node `a`.
pub open spec fn incident(links: Map<int, Link>, a: int) -> Set<int> {
    Set::new(|e: int| links.contains_key(e) && (links[e].src == a || links[e].dst == a))
}

/// The events of a graph by node index.
pub uninterp spec fn graph_nodes(g: EventGraph) -> Map<int, Event>;

/// The edges of a graph by edge index.
pub uninterp spec fn graph_links(g: EventGraph) -> Map<int, Link>;

/// `StableGraph::new`: the graph without nodes or edges.
#[verifier::external_body]
pub(crate) fn graph_new() -> (fresh: EventGraph)
    ensures
        graph_nodes(fresh) == empty_nodes(),
        graph_links(fresh) == empty_links(),
{
    petgraph::stable_graph::StableGraph::new()
}

/// `StableGraph::clone`: a graph with the same nodes and edges under the
/// same indices.
#[verifier::external_body]
pub(crate) fn graph_clone(g: &EventGraph) -> (copy: EventGraph)
    ensures
        graph_nodes(copy) == graph_nodes(*g),
        graph_links(copy) == graph_links(*g),
{
    g.clone()
}

/// What holds of every graph: both maps are finite, indices fit the index
/// type, and every edge joins two nodes of the graph.
pub open spec fn graph_sound(g: EventGraph) -> bool {
    &&& graph_nodes(g).dom().finite()
    &&& graph_links(g).dom().finite()
    &&& forall|n: int| #[trigger] graph_nodes(g).contains_key(n) ==> 0 <= n < u32::MAX
    &&& forall|e: int| #[trigger] graph_links(g).contains_key(e) ==> 0 <= e < u32::MAX
    &&& forall|e: int| #[trigger]
        graph_links(g).contains_key(e) ==> graph_nodes(g).contains_key(graph_links(g)[e].src)
            && graph_nodes(g).contains_key(graph_links(g)[e].dst)
}

/// Whether edge `e` of `links` leaves (`Outgoing`) or enters (`Incoming`) node `a`.
pub open spec fn touches(links: Map<int, Link>, e: int, a: int, dir: Direction) -> bool {
    links.contains_key(e) && match dir {
        Direction::Outgoing => links[e].src == a,
        Direction::Incoming => links[e].dst == a,
    }
}

/// `StableGraph::node_count`: how many nodes the graph holds.
#[verifier::external_body]
pub(crate) fn graph_node_count(g: &EventGraph) -> (n: usize)
    ensures
        n == graph_nodes(*g).dom().len(),
{
    g.node_count()
}

/// `StableGraph::edge_count`: how many edges the graph holds.
#[verifier::external_body]
pub(crate) fn graph_edge_count(g: &EventGraph) -> (n: usize)
    ensures
        n == graph_links(*g).dom().len(),
{
    g.edge_count()
}

/// `StableGraph::add_node`: stores `event` under an index that was free and
/// returns that index. The edges stay as they were. The call panics only in
/// a graph that is full, which `requires` leaves out.
#[verifier::external_body]
pub(crate) fn graph_add_node(g: &mut EventGraph, event: Event) -> (idx: u32)
    requires
        graph_nodes(*old(g)).dom().finite(),
        graph_nodes(*old(g)).dom().len() < u32::MAX,
    ensures
        idx < u32::MAX,
        !graph_nodes(*old(g)).contains_key(idx as int),
        graph_nodes(*final(g)) == graph_nodes(*old(g)).insert(idx as int, event),
        graph_links(*final(g)) == graph_links(*old(g)),
{
    g.add_node(event).index() as u32
}

/// `StableGraph::add_edge`: stores an edge from `a` to `b` under an index
/// that was free and returns that index. The nodes stay as they were. The
/// call panics where an endpoint is missing or the graph is full, which
/// `requires` leaves out.
#[verifier::external_body]
pub(crate) fn graph_add_edge(g: &mut EventGraph, a: u32, b: u32, weight: DAGEdge) -> (idx: u32)
    requires
        graph_nodes(*old(g)).contains_key(a as int),
        graph_nodes(*old(g)).contains_key(b as int),
        graph_links(*old(g)).dom().finite(),
        graph_links(*old(g)).dom().len() < u32::MAX,
    ensures
        idx < u32::MAX,
        !graph_links(*old(g)).contains_key(idx as int),
        graph_links(*final(g)) == graph_links(*old(g)).insert(
            idx as int,
            (Link { src: a as int, dst: b as int, weight }),
        ),
        graph_nodes(*final(g)) == graph_nodes(*old(g)),
{
    g.add_edge(petgraph::stable_graph::NodeIndex::from(a), petgraph::stable_graph::NodeIndex::from(b), weight)
        .index() as u32
}

/// `StableGraph::remove_edge`: takes edge `e` out, if there is one, and
/// returns its weight. The nodes and the other edges stay as they were.
#[verifier::external_body]
pub(crate) fn graph_remove_edge(g: &mut EventGraph, e: u32) -> (removed: Option<DAGEdge>)
    ensures
        removed == (if graph_links(*old(g)).contains_key(e as int) {
            Some(graph_links(*old(g))[e as int].weight)
        } else {
            None
        }),
        graph_links(*final(g)) == graph_links(*old(g)).remove(e as int),
        graph_nodes(*final(g)) == graph_nodes(*old(g)),
{
    g.remove_edge(petgraph::stable_graph::EdgeIndex::from(e))
}

/// `StableGraph::remove_node`: takes node `a` out, if there is one, together
/// with every edge that starts or ends in it, and returns its event. The
/// other nodes and edges stay as they were.
#[verifier::external_body]
pub(crate) fn graph_remove_node(g: &mut EventGraph, a: u32) -> (removed: Option<Event>)
    ensures
        removed == (if graph_nodes(*old(g)).contains_key(a as int) {
            Some(graph_nodes(*old(g))[a as int])
        } else {
            None
        }),
        graph_nodes(*final(g)) == graph_nodes(*old(g)).remove(a as int),
        graph_links(*final(g)) == graph_links(*old(g)).remove_keys(
            incident(graph_links(*old(g)), a as int),
        ),
{
    g.remove_node(petgraph::stable_graph::NodeIndex::from(a))
}

/// `StableGraph::node_weight`: the event stored at node `a`, if there is one.
#[verifier::external_body]
pub(crate) fn graph_node_weight(g: &EventGraph, a: u32) -> (event: Option<Event>)
    ensures
        event == (if graph_nodes(*g).contains_key(a as int) {
            Some(graph_nodes(*g)[a as int])
        } else {
            None
        }),
{
    g.node_weight(petgraph::stable_graph::NodeIndex::from(a)).cloned()
}

/// `StableGraph::edge_weight`: the weight of edge `e`, if there is one.
#[verifier::external_body]
pub(crate) fn graph_edge_weight(g: &EventGraph, e: u32) -> (weight: Option<DAGEdge>)
    ensures
        weight == (if graph_links(*g).contains_key(e as int) {
            Some(graph_links(*g)[e as int].weight)
        } else {
            None
        }),
{
    g.edge_weight(petgraph::stable_graph::EdgeIndex::from(e)).cloned()
}

/// `StableGraph::edge_endpoints`: source and destination of edge `e`, if
/// there is one.
#[verifier::external_body]
pub(crate) fn graph_edge_endpoints(g: &EventGraph, e: u32) -> (ends: Option<(u32, u32)>)
    ensures
        match ends {
            Some(pair) => graph_links(*g).contains_key(e as int) && pair.0 == graph_links(
                *g,
            )[e as int].src && pair.1 == graph_links(*g)[e as int].dst,
            None => !graph_links(*g).contains_key(e as int),
        },
{
    g.edge_endpoints(petgraph::stable_graph::EdgeIndex::from(e)).map(
        |ends| (ends.0.index() as u32, ends.1.index() as u32),
    )
}

/// `StableGraph::edges_directed`: the indices of the edges that leave or
/// enter node `a`, each once. Nothing is said of their order.
#[verifier::external_body]
pub(crate) fn graph_edges_directed(g: &EventGraph, a: u32, dir: Direction) -> (edges: Vec<u32>)
    ensures
        edges@.no_duplicates(),
        forall|e: u32| #[trigger] edges@.contains(e) <==> touches(graph_links(*g), e as int, a as int, dir),
{
    let towards = match dir {
        Direction::Outgoing => petgraph::Direction::Outgoing,
        Direction::Incoming => petgraph::Direction::Incoming,
    };
    g.edges_directed(petgraph::stable_graph::NodeIndex::from(a), towards)
        .map(|edge| petgraph::visit::EdgeRef::id(&edge).index() as u32)
        .collect()
}

/// `StableGraph::node_indices`: the indices of all nodes, each once, from
/// the smallest to the largest.
#[verifier::external_body]
pub(crate) fn graph_node_indices(g: &EventGraph) -> (nodes: Vec<u32>)
    ensures
        nodes@.no_duplicates(),
        forall|n: u32| #[trigger] nodes@.contains(n) <==> graph_nodes(*g).contains_key(n as int),
        forall|i: int, j: int| 0 <= i < j < nodes@.len() ==> nodes@[i] < nodes@[j],
{
    g.node_indices().map(|n| n.index() as u32).collect()
}

/// `StableGraph::edge_indices`: the indices of all edges, each once, from
/// the smallest to the largest.
#[verifier::external_body]
pub(crate) fn graph_edge_indices(g: &EventGraph) -> (edges: Vec<u32>)
    ensures
        edges@.no_duplicates(),
        forall|e: u32| #[trigger] edges@.contains(e) <==> graph_links(*g).contains_key(e as int),
        forall|i: int, j: int| 0 <= i < j < edges@.len() ==> edges@[i] < edges@[j],
{
    g.edge_indices().map(|e| e.index() as u32).collect()
}

} // verus!
