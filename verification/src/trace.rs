//! The trace of one request: a graph of events with a first and a last node.

use vstd::prelude::*;
use crate::error::ExtractError;
use crate::event::{DAGEdge, Event, IDType, IdKey, TracepointID};
use crate::registry::TracepointRegistry;
use crate::graph::{
    graph_add_edge, graph_add_node, graph_edge_count, graph_edge_endpoints, graph_edges_directed,
    graph_clone, graph_edge_indices, graph_links, graph_new, graph_node_count, graph_node_indices,
    graph_node_weight, graph_remove_node, incident, graph_nodes, graph_sound, touches,
    Direction, EventGraph, Link,
};
use crate::reqtype::RequestType;

verus! {

/// The index that stands for "no node".
pub const NO_NODE: u32 = 0xFFFF_FFFF;

/// A trace that knows nothing of the application it came from.
pub struct Trace {
    pub g: EventGraph,
    pub base_id: IDType,
    pub start_node: u32,
    pub end_node: u32,
    pub request_type: RequestType,
    /// Nanoseconds from the first event to the last.
    pub duration: u64,
    /// Storage keys that the events were read from.
    pub keys: Vec<String>,
}

/// An edge of a trace, told by the tracepoints and times of its two ends.
#[derive(Clone, Debug)]
pub struct TraceEdge {
    pub id: IDType,
    pub request_type: RequestType,
    pub tid_start: TracepointID,
    pub tp_start: String,
    /// Nanoseconds since the Unix epoch.
    pub start: i64,
    pub tid_end: TracepointID,
    pub tp_end: String,
    /// Nanoseconds since the Unix epoch.
    pub end: i64,
}

impl TraceEdge {
    /// Whether the two edges share some time: each starts before the other
    /// ends.
    pub fn overlaps_with(&self, te: &TraceEdge) -> (shared: bool)
        ensures
            shared == (self.start < te.end && self.end > te.start),
    {
        (self.start < te.end) && (self.end > te.start)
    }
}

/// What is kept twice is kept.
pub proof fn lemma_kept_events(a: Map<int, Event>, b: Map<int, Event>, c: Map<int, Event>)
    requires
        a.submap_of(b),
        b.submap_of(c),
    ensures
        a.submap_of(c),
{
    assert forall|k: int| #[trigger] a.dom().contains(k) implies c.dom().contains(k) && a[k] == c[k] by {
        if b.dom().contains(k) && a[k] == b[k] {
            if c.dom().contains(k) && b[k] == c[k] {
            }
        }
    }
}

/// What is kept twice is kept.
pub proof fn lemma_kept_links(a: Map<int, Link>, b: Map<int, Link>, c: Map<int, Link>)
    requires
        a.submap_of(b),
        b.submap_of(c),
    ensures
        a.submap_of(c),
{
    assert forall|k: int| #[trigger] a.dom().contains(k) implies c.dom().contains(k) && a[k] == c[k] by {
        if b.dom().contains(k) && a[k] == b[k] {
            if c.dom().contains(k) && b[k] == c[k] {
            }
        }
    }
}

impl Trace {
    /// The events by node index.
    pub open spec fn nodes(&self) -> Map<int, Event> {
        graph_nodes(self.g)
    }

    /// The edges by edge index.
    pub open spec fn links(&self) -> Map<int, Link> {
        graph_links(self.g)
    }

    /// The graph is finite and every edge joins two of its nodes.
    pub open spec fn wf(&self) -> bool {
        graph_sound(self.g)
    }

    /// The timestamp of node `n`.
    pub open spec fn time_of(&self, n: int) -> int {
        self.nodes()[n].timestamp as int
    }

    /// Whether no edge into the node that edge `e` enters comes from a
    /// later event than `e` does.
    pub open spec fn is_latest(&self, e: int) -> bool {
        forall|other: int| #[trigger]
            touches(self.links(), other, self.links()[e].dst, Direction::Incoming)
                ==> self.time_of(self.links()[other].src) <= self.time_of(self.links()[e].src)
    }

    /// Whether every edge lasts exactly as long as the timestamps of its
    /// two ends are apart.
    pub open spec fn timed(&self) -> bool {
        forall|e: int| #[trigger]
            self.links().contains_key(e) ==> self.links()[e].weight.duration == self.time_of(
                self.links()[e].dst,
            ) - self.time_of(self.links()[e].src)
    }

    /// Whether `rank` grows along every edge.
    pub open spec fn ranked_by(&self, rank: Map<int, int>) -> bool {
        forall|e: int| #[trigger]
            self.links().contains_key(e) ==> rank[self.links()[e].src] < rank[self.links()[e].dst]
    }

    /// Whether the graph has no cycle: its nodes can be ranked so that
    /// every edge leads from a lower rank to a higher one.
    pub open spec fn acyclic(&self) -> bool {
        exists|rank: Map<int, int>| self.ranked_by(rank)
    }

    /// Whether the first and the last node exist and every node but the
    /// first has an edge that enters it.
    pub open spec fn rooted(&self) -> bool {
        &&& self.nodes().contains_key(self.start_node as int)
        &&& self.nodes().contains_key(self.end_node as int)
        &&& forall|n: int| #[trigger]
            self.nodes().contains_key(n) && n != self.start_node ==> exists|e: int|
                touches(self.links(), e, n, Direction::Incoming)
    }

    /// Whether an event of span `id` is met from node `n` along at most
    /// `steps` edges, all followed in direction `dir`.
    pub open spec fn found_within(&self, id: IdKey, n: int, dir: Direction, steps: nat) -> bool
        decreases steps,
    {
        self.nodes()[n].trace_id@ == id || (steps > 0 && exists|e: int|
            #[trigger] touches(self.links(), e, n, dir) && self.found_within(
                id,
                self.far_end(e, dir),
                dir,
                (steps - 1) as nat,
            ))
    }

    /// The node at which edge `e` arrives when it is followed in direction
    /// `dir`.
    pub open spec fn far_end(&self, e: int, dir: Direction) -> int {
        match dir {
            Direction::Outgoing => self.links()[e].dst,
            Direction::Incoming => self.links()[e].src,
        }
    }

    /// Whether `n` is, of the nodes with the latest timestamp (`latest`)
    /// or of those with the earliest, the one with the smallest index.
    pub open spec fn is_first_extreme(&self, n: int, latest: bool) -> bool {
        &&& self.nodes().contains_key(n)
        &&& forall|m: int| #[trigger]
            self.nodes().contains_key(m) ==> (if latest {
                self.time_of(m) <= self.time_of(n)
            } else {
                self.time_of(m) >= self.time_of(n)
            }) && (self.time_of(m) == self.time_of(n) ==> n <= m)
    }

    /// Whether `edge` describes the link `link` of this trace: the trace's
    /// id and request type, and tracepoint, name and timestamp of each end.
    pub open spec fn describes(&self, registry: TracepointRegistry, edge: TraceEdge, link: Link) -> bool {
        &&& edge.id == self.base_id
        &&& edge.request_type == self.request_type
        &&& edge.tid_start == self.nodes()[link.src].tracepoint_id
        &&& edge.tp_start@ == registry.name_of(edge.tid_start)
        &&& edge.start == self.nodes()[link.src].timestamp
        &&& edge.tid_end == self.nodes()[link.dst].tracepoint_id
        &&& edge.tp_end@ == registry.name_of(edge.tid_end)
        &&& edge.end == self.nodes()[link.dst].timestamp
    }

    /// Whether `edge` describes some link of this trace.
    pub open spec fn described(&self, registry: TracepointRegistry, edge: TraceEdge) -> bool {
        exists|e: int| #[trigger]
            self.links().contains_key(e) && self.describes(registry, edge, self.links()[e])
    }

    /// Whether every node that no edge leaves is the last node.
    pub open spec fn ends_only_at_last(&self) -> bool {
        forall|n: int|
            self.nodes().contains_key(n) && #[trigger] self.is_sink(n) ==> n == self.end_node
    }

    /// Whether the two traces agree in all but their graphs.
    pub open spec fn same_head(&self, other: Trace) -> bool {
        &&& self.base_id == other.base_id
        &&& self.start_node == other.start_node
        &&& self.end_node == other.end_node
        &&& self.request_type == other.request_type
        &&& self.duration == other.duration
        &&& self.keys@ == other.keys@
    }

    /// This trace with `end` as its last node.
    pub open spec fn ending_at(self, end: u32) -> Trace {
        Trace { end_node: end, ..self }
    }

    /// Whether no edge leaves node `n`.
    pub open spec fn is_sink(&self, n: int) -> bool {
        forall|e: int| !touches(self.links(), e, n, Direction::Outgoing)
    }

    /// A trace without events. Its first and last node are unset.
    pub fn new(base_id: &IDType) -> (trace: Trace)
        ensures
            trace.wf(),
            trace.nodes() == Map::<int, Event>::empty(),
            trace.links() == Map::<int, Link>::empty(),
            trace.base_id == *base_id,
            trace.start_node == NO_NODE,
            trace.end_node == NO_NODE,
            trace.request_type == RequestType::Unknown,
            trace.duration == 0,
            trace.keys@.len() == 0,
    {
        Trace {
            g: graph_new(),
            base_id: base_id.duplicate(),
            start_node: NO_NODE,
            end_node: NO_NODE,
            request_type: RequestType::Unknown,
            duration: 0,
            keys: Vec::new(),
        }
    }

    /// A copy of this trace, with the same indices for its nodes and edges.
    pub fn duplicate(&self) -> (copy: Trace)
        ensures
            copy.nodes() == self.nodes(),
            copy.links() == self.links(),
            copy.same_head(*self),
            self.wf() ==> copy.wf(),
    {
        let mut keys: Vec<String> = Vec::new();
        let mut k: usize = 0;
        while k < self.keys.len()
            invariant
                0 <= k <= self.keys@.len(),
                keys@ == self.keys@.take(k as int),
            decreases self.keys@.len() - k,
        {
            keys.push(self.keys[k].clone());
            assert(keys@ =~= self.keys@.take(k + 1));
            k += 1;
        }
        assert(keys@ =~= self.keys@);
        Trace {
            g: graph_clone(&self.g),
            base_id: self.base_id.duplicate(),
            start_node: self.start_node,
            end_node: self.end_node,
            request_type: self.request_type.duplicate(),
            duration: self.duration,
            keys,
        }
    }

    /// Sets the request type and nothing else.
    pub fn set_req_type(&mut self, r: RequestType)
        ensures
            final(self).request_type == r,
            final(self).g == old(self).g,
            final(self).base_id == old(self).base_id,
            final(self).start_node == old(self).start_node,
            final(self).end_node == old(self).end_node,
            final(self).duration == old(self).duration,
            final(self).keys == old(self).keys,
    {
        self.request_type = r;
    }

    /// Adds an event as a new node and returns its index. Fails with
    /// `TooLarge`, and changes nothing, exactly when the graph is full.
    pub fn add_event(&mut self, event: Event) -> (added: Result<u32, ExtractError>)
        requires
            old(self).wf(),
        ensures
            final(self).wf(),
            final(self).links() == old(self).links(),
            final(self).same_head(*old(self)),
            match added {
                Ok(idx) => old(self).nodes().dom().len() < u32::MAX && !old(
                    self,
                ).nodes().contains_key(idx as int) && final(self).nodes() == old(
                    self,
                ).nodes().insert(idx as int, event),
                Err(e) => e == ExtractError::TooLarge && old(self).nodes().dom().len()
                    >= u32::MAX && final(self).nodes() == old(self).nodes(),
            },
    {
        if graph_node_count(&self.g) >= 0xFFFF_FFFF {
            return Err(ExtractError::TooLarge);
        }
        let idx = graph_add_node(&mut self.g, event);
        Ok(idx)
    }

    /// Adds an edge from node `a` to node `b` and returns its index. Fails
    /// with `MalformedTrace` exactly when `a` or `b` is no node, else with
    /// `TooLarge` exactly when the graph is full; a failure changes nothing.
    pub fn add_edge(&mut self, a: u32, b: u32, weight: DAGEdge) -> (added: Result<u32, ExtractError>)
        requires
            old(self).wf(),
        ensures
            final(self).wf(),
            final(self).nodes() == old(self).nodes(),
            final(self).same_head(*old(self)),
            match added {
                Ok(idx) => old(self).nodes().contains_key(a as int) && old(
                    self,
                ).nodes().contains_key(b as int) && old(self).links().dom().len() < u32::MAX
                    && !old(self).links().contains_key(idx as int)
                    && final(self).links() == old(self).links().insert(
                    idx as int,
                    Link { src: a as int, dst: b as int, weight },
                ),
                Err(e) => final(self).links() == old(self).links() && if old(
                    self,
                ).nodes().contains_key(a as int) && old(self).nodes().contains_key(b as int) {
                    e == ExtractError::TooLarge && old(self).links().dom().len() >= u32::MAX
                } else {
                    e == ExtractError::MalformedTrace
                },
            },
    {
        if !self.has_node(a) || !self.has_node(b) {
            return Err(ExtractError::MalformedTrace);
        }
        if graph_edge_count(&self.g) >= 0xFFFF_FFFF {
            return Err(ExtractError::TooLarge);
        }
        let idx = graph_add_edge(&mut self.g, a, b, weight);
        Ok(idx)
    }

    /// The event at node `n`, if `n` is a node.
    pub fn event_at(&self, n: u32) -> (event: Option<Event>)
        ensures
            event == (if self.nodes().contains_key(n as int) {
                Some(self.nodes()[n as int])
            } else {
                None
            }),
    {
        graph_node_weight(&self.g, n)
    }

    /// The two ends of edge `e`, if `e` is an edge.
    pub fn endpoints(&self, e: u32) -> (ends: Option<(u32, u32)>)
        requires
            self.wf(),
        ensures
            match ends {
                Some(pair) => self.links().contains_key(e as int) && pair.0 == self.links()[e as int].src
                    && pair.1 == self.links()[e as int].dst && self.nodes().contains_key(
                    pair.0 as int,
                ) && self.nodes().contains_key(pair.1 as int),
                None => !self.links().contains_key(e as int),
            },
    {
        graph_edge_endpoints(&self.g, e)
    }

    /// The edges that leave node `n` (`Outgoing`) or enter it (`Incoming`),
    /// each once.
    pub fn edges_at(&self, n: u32, dir: Direction) -> (edges: Vec<u32>)
        ensures
            edges@.no_duplicates(),
            forall|e: u32| #[trigger]
                edges@.contains(e) <==> touches(self.links(), e as int, n as int, dir),
    {
        graph_edges_directed(&self.g, n, dir)
    }

    /// Among the edges that enter `node`, one that comes from the event
    /// with the latest timestamp; `None` exactly when no edge enters it.
    pub fn latest_incoming(&self, node: u32) -> (latest: Option<u32>)
        requires
            self.wf(),
        ensures
            match latest {
                Some(e) => touches(self.links(), e as int, node as int, Direction::Incoming)
                    && self.is_latest(e as int),
                None => forall|e: int| !touches(self.links(), e, node as int, Direction::Incoming),
            },
    {
        let incoming = self.edges_at(node, Direction::Incoming);
        let mut best: Option<u32> = None;
        let mut best_time: i64 = 0;
        let mut k: usize = 0;
        while k < incoming.len()
            invariant
                self.wf(),
                0 <= k <= incoming.len(),
                forall|e: u32| #[trigger]
                    incoming@.contains(e) <==> touches(
                        self.links(),
                        e as int,
                        node as int,
                        Direction::Incoming,
                    ),
                k == 0 <==> best is None,
                best is Some ==> incoming@.contains(best->0) && best_time == self.time_of(
                    self.links()[best->0 as int].src,
                ),
                forall|j: int|
                    0 <= j < k ==> self.time_of(self.links()[(#[trigger] incoming@[j]) as int].src)
                        <= best_time,
            decreases incoming.len() - k,
        {
            let e = incoming[k];
            assert(incoming@.contains(incoming@[k as int]));
            let stamp = match self.endpoints(e) {
                Some(pair) => match self.event_at(pair.0) {
                    Some(event) => event.timestamp,
                    None => 0,
                },
                None => 0,
            };
            if best.is_none() || stamp >= best_time {
                best = Some(e);
                best_time = stamp;
            }
            k += 1;
        }
        proof {
            match best {
                Some(e) => {
                    assert forall|other: int| #[trigger]
                        touches(
                            self.links(),
                            other,
                            self.links()[e as int].dst,
                            Direction::Incoming,
                        ) implies self.time_of(self.links()[other].src) <= self.time_of(
                        self.links()[e as int].src,
                    ) by {
                        assert(touches(
                            self.links(),
                            (other as u32) as int,
                            node as int,
                            Direction::Incoming,
                        ));
                        assert(incoming@.contains(other as u32));
                        let j = choose|j: int| 0 <= j < incoming@.len() && incoming@[j] == other as u32;
                        assert(self.time_of(self.links()[incoming@[j] as int].src) <= best_time);
                    }
                },
                None => {
                    assert forall|e: int| !touches(
                        self.links(),
                        e,
                        node as int,
                        Direction::Incoming,
                    ) by {
                        if touches(self.links(), e, node as int, Direction::Incoming) {
                            assert(touches(
                                self.links(),
                                (e as u32) as int,
                                node as int,
                                Direction::Incoming,
                            ));
                            assert(incoming@.contains(e as u32));
                        }
                    }
                },
            }
        }
        best
    }

    /// Searches from node `nidx` in direction `dir` for an event of span
    /// `trace_id`, along at most `steps` edges.
    pub fn search(&self, trace_id: &IDType, nidx: u32, dir: Direction, steps: usize) -> (found: bool)
        requires
            self.wf(),
            self.nodes().contains_key(nidx as int),
        ensures
            found == self.found_within(trace_id@, nidx as int, dir, steps as nat),
        decreases steps,
    {
        let here = match self.event_at(nidx) {
            Some(event) => event.trace_id.same_as(trace_id),
            None => false,
        };
        if here {
            return true;
        }
        if steps == 0 {
            return false;
        }
        let edges = self.edges_at(nidx, dir);
        let mut k: usize = 0;
        while k < edges.len()
            invariant
                self.wf(),
                steps > 0,
                0 <= k <= edges.len(),
                forall|e: u32| #[trigger]
                    edges@.contains(e) <==> touches(self.links(), e as int, nidx as int, dir),
                forall|j: int|
                    0 <= j < k ==> !self.found_within(
                        trace_id@,
                        self.far_end((#[trigger] edges@[j]) as int, dir),
                        dir,
                        (steps - 1) as nat,
                    ),
            decreases edges.len() - k,
        {
            let e = edges[k];
            assert(edges@.contains(edges@[k as int]));
            let far = match self.endpoints(e) {
                Some(pair) => match dir {
                    Direction::Outgoing => pair.1,
                    Direction::Incoming => pair.0,
                },
                None => nidx,
            };
            if self.search(trace_id, far, dir, steps - 1) {
                proof {
                    assert(touches(self.links(), e as int, nidx as int, dir));
                    assert(self.far_end(e as int, dir) == far);
                }
                return true;
            }
            k += 1;
        }
        proof {
            assert forall|e: int| touches(self.links(), e, nidx as int, dir) implies !self.found_within(
                trace_id@,
                self.far_end(e, dir),
                dir,
                (steps - 1) as nat,
            ) by {
                assert(touches(self.links(), (e as u32) as int, nidx as int, dir));
                assert(edges@.contains(e as u32));
                let j = choose|j: int| 0 <= j < edges@.len() && edges@[j] == e as u32;
                assert(!self.found_within(
                    trace_id@,
                    self.far_end(edges@[j] as int, dir),
                    dir,
                    (steps - 1) as nat,
                ));
            }
        }
        false
    }

    /// Whether an event of span `trace_id` can be reached from node `nidx`
    /// along the edges. No walk without a repeated node is longer than the
    /// number of nodes, so the search goes that deep.
    pub fn can_reach_from_node(&self, trace_id: &IDType, nidx: u32) -> (reached: bool)
        requires
            self.wf(),
            self.nodes().contains_key(nidx as int),
        ensures
            reached == self.found_within(
                trace_id@,
                nidx as int,
                Direction::Outgoing,
                self.nodes().dom().len(),
            ),
    {
        let depth = graph_node_count(&self.g);
        self.search(trace_id, nidx, Direction::Outgoing, depth)
    }

    /// The nodes that no edge leaves, each once.
    pub fn possible_end_nodes(&self) -> (ends: Vec<u32>)
        requires
            self.wf(),
        ensures
            ends@.no_duplicates(),
            forall|n: u32| #[trigger]
                ends@.contains(n) <==> self.nodes().contains_key(n as int) && self.is_sink(n as int),
    {
        let all = graph_node_indices(&self.g);
        let mut ends: Vec<u32> = Vec::new();
        let mut k: usize = 0;
        while k < all.len()
            invariant
                self.wf(),
                0 <= k <= all.len(),
                all@.no_duplicates(),
                forall|n: u32| #[trigger] all@.contains(n) <==> self.nodes().contains_key(n as int),
                ends@.no_duplicates(),
                forall|n: u32| #[trigger]
                    ends@.contains(n) <==> (exists|j: int| 0 <= j < k && all@[j] == n) && self.is_sink(
                        n as int,
                    ),
            decreases all.len() - k,
        {
            let n = all[k];
            let out = self.edges_at(n, Direction::Outgoing);
            let ghost before = ends@;
            if out.len() == 0 {
                proof {
                    assert forall|e: int| !touches(
                        self.links(),
                        e,
                        n as int,
                        Direction::Outgoing,
                    ) by {
                        if touches(self.links(), e, n as int, Direction::Outgoing) {
                            assert(touches(
                                self.links(),
                                (e as u32) as int,
                                n as int,
                                Direction::Outgoing,
                            ));
                            assert(out@.contains(e as u32));
                        }
                    }
                    if before.contains(n) {
                        let j = choose|j: int| 0 <= j < k && all@[j] == n;
                        assert(all@[j] == all@[k as int]);
                    }
                }
                ends.push(n);
                proof {
                    assert forall|m: u32| #[trigger] ends@.contains(m) <==> (exists|j: int|
                        0 <= j < k + 1 && all@[j] == m) && self.is_sink(m as int) by {
                        if ends@.contains(m) {
                            let i = choose|i: int| 0 <= i < ends@.len() && ends@[i] == m;
                            if i < before.len() {
                                assert(before[i] == m);
                                assert(before.contains(m));
                                let j = choose|j: int| 0 <= j < k && all@[j] == m;
                                assert(0 <= j < k + 1 && all@[j] == m);
                            } else {
                                assert(all@[k as int] == m);
                            }
                        }
                        if (exists|j: int| 0 <= j < k + 1 && all@[j] == m) && self.is_sink(m as int) {
                            let j = choose|j: int| 0 <= j < k + 1 && all@[j] == m;
                            if j < k {
                                assert(before.contains(m));
                                let i = choose|i: int| 0 <= i < before.len() && before[i] == m;
                                assert(ends@[i] == m);
                            } else {
                                assert(ends@[before.len() as int] == m);
                            }
                        }
                    }
                }
            } else {
                proof {
                    assert(out@.contains(out@[0]));
                    assert(touches(self.links(), out@[0] as int, n as int, Direction::Outgoing));
                    assert(!self.is_sink(n as int));
                    assert forall|m: u32| #[trigger] ends@.contains(m) <==> (exists|j: int|
                        0 <= j < k + 1 && all@[j] == m) && self.is_sink(m as int) by {
                        if ends@.contains(m) {
                            let j = choose|j: int| 0 <= j < k && all@[j] == m;
                            assert(0 <= j < k + 1 && all@[j] == m);
                        }
                        if (exists|j: int| 0 <= j < k + 1 && all@[j] == m) && self.is_sink(m as int) {
                            let j = choose|j: int| 0 <= j < k + 1 && all@[j] == m;
                            assert(j < k);
                        }
                    }
                }
            }
            k += 1;
        }
        proof {
            assert forall|n: u32| #[trigger] ends@.contains(n) <==> self.nodes().contains_key(n as int)
                && self.is_sink(n as int) by {
                if ends@.contains(n) {
                    let j = choose|j: int| 0 <= j < k && all@[j] == n;
                    assert(all@.contains(all@[j]));
                }
                if self.nodes().contains_key(n as int) && self.is_sink(n as int) {
                    assert(all@.contains(n));
                    let j = choose|j: int| 0 <= j < all@.len() && all@[j] == n;
                    assert(0 <= j < k && all@[j] == n);
                }
            }
        }
        ends
    }

    /// The node with the earliest timestamp and the node with the latest,
    /// and of several such nodes the one with the smallest index; `NO_NODE`
    /// twice for a trace without nodes.
    pub fn get_start_end_nodes(&self) -> (ends: (u32, u32))
        requires
            self.wf(),
        ensures
            self.nodes().dom().len() == 0 ==> ends.0 == NO_NODE && ends.1 == NO_NODE,
            self.nodes().dom().len() > 0 ==> self.is_first_extreme(ends.0 as int, false)
                && self.is_first_extreme(ends.1 as int, true),
    {
        let all = graph_node_indices(&self.g);
        if all.len() == 0 {
            proof {
                assert forall|n: int| !self.nodes().dom().contains(n) by {
                    if self.nodes().contains_key(n) {
                        assert(self.nodes().contains_key((n as u32) as int));
                        assert(all@.contains(n as u32));
                    }
                }
                assert(self.nodes().dom() =~= Set::empty());
            }
            return (NO_NODE, NO_NODE);
        }
        proof {
            assert(all@.contains(all@[0]));
            assert(self.nodes().dom().contains(all@[0] as int));
        }
        let mut start = all[0];
        let mut end = all[0];
        let mut smallest = self.stamp_at(start);
        let mut largest = smallest;
        let mut k: usize = 1;
        while k < all.len()
            invariant
                self.wf(),
                1 <= k <= all@.len(),
                forall|n: u32| #[trigger] all@.contains(n) <==> self.nodes().contains_key(n as int),
                forall|i: int, j: int| 0 <= i < j < all@.len() ==> all@[i] < all@[j],
                exists|i: int| 0 <= i < k && all@[i] == start,
                exists|i: int| 0 <= i < k && all@[i] == end,
                smallest == self.time_of(start as int),
                largest == self.time_of(end as int),
                forall|i: int|
                    0 <= i < k ==> smallest <= self.time_of((#[trigger] all@[i]) as int) && (
                    self.time_of(all@[i] as int) == smallest ==> start <= all@[i]),
                forall|i: int|
                    0 <= i < k ==> largest >= self.time_of((#[trigger] all@[i]) as int) && (
                    self.time_of(all@[i] as int) == largest ==> end <= all@[i]),
            decreases all@.len() - k,
        {
            let n = all[k];
            assert(all@.contains(all@[k as int]));
            let stamp = self.stamp_at(n);
            if stamp > largest {
                end = n;
                largest = stamp;
            }
            if stamp < smallest {
                start = n;
                smallest = stamp;
            }
            k += 1;
        }
        proof {
            assert(all@.contains(start) && all@.contains(end));
            assert forall|n: int| #[trigger] self.nodes().contains_key(n) implies self.time_of(n)
                >= smallest && (self.time_of(n) == smallest ==> start <= n) && self.time_of(n)
                <= largest && (self.time_of(n) == largest ==> end <= n) by {
                assert(self.nodes().contains_key((n as u32) as int));
                assert(all@.contains(n as u32));
                let i = choose|i: int| 0 <= i < all@.len() && all@[i] == n as u32;
                assert(smallest <= self.time_of(all@[i] as int));
                assert(largest >= self.time_of(all@[i] as int));
            }
        }
        (start, end)
    }

    /// The timestamp of node `n`.
    pub fn stamp_at(&self, n: u32) -> (stamp: i64)
        requires
            self.nodes().contains_key(n as int),
        ensures
            stamp == self.time_of(n as int),
    {
        match graph_node_weight(&self.g, n) {
            Some(event) => event.timestamp,
            None => 0,
        }
    }

    /// One `TraceEdge` for each edge of the trace, by edge index. Each
    /// names the tracepoints and the timestamps of the edge's two ends.
    /// `None` where `registry` does not know a tracepoint.
    pub fn get_edges(&self, registry: &TracepointRegistry) -> (edges: Option<Vec<TraceEdge>>)
        requires
            self.wf(),
            registry.wf(),
        ensures
            match edges {
                Some(list) => {
                    &&& list@.len() == self.links().dom().len()
                    &&& forall|k: int|
                        0 <= k < list@.len() ==> self.described(*registry, #[trigger] list@[k])
                },
                None => exists|n: int| #[trigger]
                    self.nodes().contains_key(n) && !registry.knows(self.nodes()[n].tracepoint_id),
            },
    {
        let all = graph_edge_indices(&self.g);
        let mut list: Vec<TraceEdge> = Vec::new();
        let mut k: usize = 0;
        proof {
            assert forall|j: int| 0 <= j < all@.len() implies self.links().dom().contains(
                #[trigger] all@[j] as int,
            ) by {
                assert(all@.contains(all@[j]));
            }
            let wide = all@.map_values(|e: u32| e as int);
            assert(wide.no_duplicates()) by {
                assert forall|i: int, j: int| 0 <= i < wide.len() && 0 <= j < wide.len() && i
                    != j implies wide[i] != wide[j] by {
                    assert(all@[i] != all@[j]);
                }
            }
            assert(wide.to_set() =~= self.links().dom()) by {
                assert forall|e: int| wide.to_set().contains(e) <==> self.links().dom().contains(
                    e,
                ) by {
                    if wide.to_set().contains(e) {
                        assert(wide.contains(e));
                        let j = choose|j: int| 0 <= j < wide.len() && wide[j] == e;
                        assert(all@.contains(all@[j]));
                    }
                    if self.links().dom().contains(e) {
                        assert(self.links().contains_key((e as u32) as int));
                        assert(all@.contains(e as u32));
                        let j = choose|j: int| 0 <= j < all@.len() && all@[j] == e as u32;
                        assert(wide[j] == e);
                    }
                }
            }
            wide.unique_seq_to_set();
        }
        while k < all.len()
            invariant
                self.wf(),
                registry.wf(),
                0 <= k <= all@.len(),
                list@.len() == k,
                forall|e: u32| #[trigger] all@.contains(e) <==> self.links().contains_key(e as int),
                forall|j: int| 0 <= j < list@.len() ==> self.described(*registry, #[trigger] list@[j]),
            decreases all@.len() - k,
        {
            let e = all[k];
            assert(all@.contains(all@[k as int]));
            let ghost before = list@;
            if let Some(pair) = self.endpoints(e) {
                let from = match self.event_at(pair.0) {
                    Some(event) => event,
                    None => {
                        return None;
                    },
                };
                let to = match self.event_at(pair.1) {
                    Some(event) => event,
                    None => {
                        return None;
                    },
                };
                let tp_start = match registry.lookup(from.tracepoint_id) {
                    Some(name) => name,
                    None => {
                        assert(self.nodes().contains_key(pair.0 as int));
                        return None;
                    },
                };
                let tp_end = match registry.lookup(to.tracepoint_id) {
                    Some(name) => name,
                    None => {
                        assert(self.nodes().contains_key(pair.1 as int));
                        return None;
                    },
                };
                list.push(
                    TraceEdge {
                        id: self.base_id.duplicate(),
                        request_type: self.request_type.duplicate(),
                        tid_start: from.tracepoint_id,
                        tp_start,
                        start: from.timestamp,
                        tid_end: to.tracepoint_id,
                        tp_end,
                        end: to.timestamp,
                    },
                );
                proof {
                    assert(self.links().contains_key(e as int) && self.describes(
                        *registry,
                        list@[k as int],
                        self.links()[e as int],
                    ));
                    assert forall|j: int| 0 <= j < list@.len() implies self.described(
                        *registry,
                        #[trigger] list@[j],
                    ) by {
                        if j < k {
                            assert(list@[j] == before[j]);
                        }
                    }
                }
            }
            k += 1;
        }
        Some(list)
    }

    /// Removes the branches that do not end in the last node: as long as
    /// a node other than the last has no outgoing edge, it is removed with
    /// the edges that entered it. Returns how many nodes were removed.
    /// Afterwards no edge leaves the last node only, of all nodes.
    pub fn prune(&mut self) -> (removed: usize)
        requires
            old(self).wf(),
        ensures
            final(self).wf(),
            final(self).start_node == old(self).start_node,
            final(self).end_node == old(self).end_node,
            final(self).nodes().submap_of(old(self).nodes()),
            final(self).links().submap_of(old(self).links()),
            removed == old(self).nodes().dom().len() - final(self).nodes().dom().len(),
            old(self).nodes().contains_key(old(self).end_node as int)
                ==> final(self).nodes().contains_key(old(self).end_node as int),
            final(self).ends_only_at_last(),
    {
        let total = graph_node_count(&self.g);
        let mut removed: usize = 0;
        let mut more = true;
        while more
            invariant
                total == old(self).nodes().dom().len(),
                self.wf(),
                self.start_node == old(self).start_node,
                self.end_node == old(self).end_node,
                self.nodes().submap_of(old(self).nodes()),
                self.links().submap_of(old(self).links()),
                old(self).nodes().dom().finite(),
                removed == old(self).nodes().dom().len() - self.nodes().dom().len(),
                old(self).nodes().contains_key(old(self).end_node as int)
                    ==> self.nodes().contains_key(old(self).end_node as int),
                !more ==> self.ends_only_at_last(),
            decreases self.nodes().dom().len() + (if more { 1int } else { 0int }),
        {
            let sinks = self.possible_end_nodes();
            let mut victim: Option<u32> = None;
            let mut k: usize = 0;
            while k < sinks.len()
                invariant
                    0 <= k <= sinks@.len(),
                    forall|j: int| 0 <= j < k ==> (#[trigger] sinks@[j]) == self.end_node || victim is Some,
                    victim is Some ==> sinks@.contains(victim->0) && victim->0 != self.end_node,
                decreases sinks@.len() - k,
            {
                if sinks[k] != self.end_node && victim.is_none() {
                    victim = Some(sinks[k]);
                    assert(sinks@.contains(sinks@[k as int]));
                }
                k += 1;
            }
            match victim {
                Some(n) => {
                    let ghost nodes0 = self.nodes();
                    let ghost links0 = self.links();
                    proof {
                        assert(nodes0.dom().contains(n as int));
                        assert(nodes0.dom().len() >= 1) by {
                            if nodes0.dom().len() == 0 {
                                assert(nodes0.dom() =~= Set::empty());
                            }
                        }
                    }
                    graph_remove_node(&mut self.g, n);
                    proof {
                        assert(self.links().dom().subset_of(links0.dom()));
                        vstd::set_lib::lemma_len_subset(self.links().dom(), links0.dom());
                        assert(self.nodes().submap_of(nodes0));
                        assert(self.links().submap_of(links0));
                        lemma_kept_events(self.nodes(), nodes0, old(self).nodes());
                        lemma_kept_links(self.links(), links0, old(self).links());
                        assert forall|e: int| #[trigger]
                            self.links().contains_key(e) implies self.nodes().contains_key(
                            self.links()[e].src,
                        ) && self.nodes().contains_key(self.links()[e].dst) by {
                            assert(links0.contains_key(e));
                            assert(!incident(links0, n as int).contains(e));
                        }
                    }
                    removed = removed + 1;
                },
                None => {
                    more = false;
                    proof {
                        assert forall|n: int|
                            self.nodes().contains_key(n) && #[trigger] self.is_sink(n) implies n
                            == self.end_node by {
                            assert(self.nodes().contains_key((n as u32) as int));
                            assert(sinks@.contains(n as u32));
                            let j = choose|j: int| 0 <= j < sinks@.len() && sinks@[j] == n as u32;
                            assert(sinks@[j] == self.end_node);
                        }
                    }
                },
            }
        }
        removed
    }

    /// Whether `n` is a node of the trace.
    pub fn has_node(&self, n: u32) -> (present: bool)
        ensures
            present == self.nodes().contains_key(n as int),
    {
        crate::graph::graph_node_weight(&self.g, n).is_some()
    }
}

} // verus!
