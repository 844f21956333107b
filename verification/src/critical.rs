//! Critical paths: the chain of events that explains a request's latency,
//! and the surgery that keeps it a chain.

use vstd::prelude::*;
use crate::chain::{
    bridged, chain_events, chain_exact, chain_times, is_chain, joined, lemma_chain_closed,
    lemma_chain_sizes, lemma_cut_end, lemma_cut_middle, lemma_events_insert, lemma_exact_prefix,
    lemma_index_of, lemma_room_after_removal, lemma_splice_end, lemma_splice_middle,
    lemma_total_concat, spliced, spliced_weights, chain_weights, total, Chain,
};
use crate::error::ExtractError;
use crate::event::{DAGEdge, EdgeType, Event, EventType};
use crate::graph::{
    graph_add_edge, graph_add_node, graph_edge_endpoints, graph_edge_weight, graph_edges_directed,
    graph_node_count, graph_node_weight, graph_remove_edge, graph_remove_node, incident, touches,
    Direction, Link,
};
use crate::pairing::mirrors;
use crate::trace::Trace;

verus! {

/// The linear chain of events that determines a request's latency.
pub struct CriticalPath {
    pub g: Trace,
    pub start_node: u32,
    pub end_node: u32,
    /// Nanoseconds from the first event to the last.
    pub duration: u64,
    /// Set on a path that is one of several candidates.
    pub is_hypothetical: bool,
    /// The fingerprint, once it has been computed.
    pub hash: Option<String>,
    /// The nodes and edges of `g` in path order.
    pub chain: Ghost<Chain>,
}

impl CriticalPath {
    /// The events by node index.
    pub open spec fn nodes(&self) -> Map<int, Event> {
        self.g.nodes()
    }

    /// The edges by edge index.
    pub open spec fn links(&self) -> Map<int, Link> {
        self.g.links()
    }

    /// The node indices from first to last.
    pub open spec fn order(&self) -> Seq<int> {
        self.chain@.order
    }

    /// The edge indices from first to last.
    pub open spec fn hops(&self) -> Seq<int> {
        self.chain@.hops
    }

    /// The path is a simple chain from `start_node` to `end_node`: every
    /// node but the last has exactly one outgoing edge, which leads to the
    /// next node, and the last has none.
    pub open spec fn wf(&self) -> bool {
        &&& self.g.wf()
        &&& is_chain(self.nodes(), self.links(), self.chain@)
        &&& self.start_node == self.order()[0]
        &&& self.end_node == self.order().last()
    }

    /// Where node `n` stands on the path.
    pub open spec fn position(&self, n: int) -> int {
        self.order().index_of(n)
    }

    /// The events from first to last.
    pub open spec fn events(&self) -> Seq<Event> {
        chain_events(self.nodes(), self.order())
    }

    /// The weights of the edges from first to last.
    pub open spec fn hop_weights(&self) -> Seq<DAGEdge> {
        chain_weights(self.links(), self.chain@)
    }

    /// The durations of the edges from first to last.
    pub open spec fn hop_times(&self) -> Seq<int> {
        chain_times(self.links(), self.chain@)
    }

    /// The time from the first event to the last, by their timestamps.
    pub open spec fn span(&self) -> int {
        self.nodes()[self.end_node as int].timestamp - self.nodes()[self.start_node as int].timestamp
    }

    /// Every edge lasts exactly as long as the timestamps of its two ends
    /// are apart.
    pub open spec fn exact(&self) -> bool {
        chain_exact(self.nodes(), self.links(), self.chain@)
    }

    /// The node after `n` on the path, if `n` is not the last.
    pub open spec fn successor(&self, n: int) -> Option<u32> {
        if self.position(n) + 1 < self.order().len() {
            Some(self.order()[self.position(n) + 1] as u32)
        } else {
            None
        }
    }

    /// The node before `n` on the path, if `n` is not the first.
    pub open spec fn predecessor(&self, n: int) -> Option<u32> {
        if self.position(n) > 0 {
            Some(self.order()[self.position(n) - 1] as u32)
        } else {
            None
        }
    }

    /// The edge that leaves `nidx` and the node it leads to.
    pub(crate) fn next_hop(&self, nidx: u32) -> (hop: Option<(u32, u32)>)
        requires
            self.wf(),
            self.nodes().contains_key(nidx as int),
        ensures
            match hop {
                Some(pair) => self.position(nidx as int) + 1 < self.order().len() && pair.0
                    == self.hops()[self.position(nidx as int)] && pair.1 == self.order()[self.position(
                    nidx as int,
                ) + 1],
                None => self.position(nidx as int) + 1 == self.order().len(),
            },
    {
        let ghost i = self.position(nidx as int);
        proof {
            assert(self.order().contains(nidx as int));
            assert(0 <= i < self.order().len() && self.order()[i] == nidx);
        }
        let out = graph_edges_directed(&self.g.g, nidx, Direction::Outgoing);
        if out.len() == 0 {
            proof {
                if i + 1 < self.order().len() {
                    let e = self.hops()[i];
                    assert(self.links().contains_key(e));
                    assert(self.links()[self.hops()[i]].src == nidx);
                    assert(touches(self.links(), (e as u32) as int, nidx as int, Direction::Outgoing));
                    assert(out@.contains(e as u32));
                }
            }
            None
        } else {
            let e = out[0];
            proof {
                assert(out@.contains(out@[0]));
                assert(touches(self.links(), e as int, nidx as int, Direction::Outgoing));
                assert(self.hops().contains(e as int));
                let j = choose|j: int| 0 <= j < self.hops().len() && self.hops()[j] == e as int;
                assert(self.links()[self.hops()[j]].src == self.order()[j]);
                assert(j == i);
            }
            match graph_edge_endpoints(&self.g.g, e) {
                Some(ends) => Some((e, ends.1)),
                None => None,
            }
        }
    }

    /// The edge that enters `nidx` and the node it comes from.
    pub(crate) fn prev_hop(&self, nidx: u32) -> (hop: Option<(u32, u32)>)
        requires
            self.wf(),
            self.nodes().contains_key(nidx as int),
        ensures
            match hop {
                Some(pair) => self.position(nidx as int) > 0 && pair.0 == self.hops()[self.position(
                    nidx as int,
                ) - 1] && pair.1 == self.order()[self.position(nidx as int) - 1],
                None => self.position(nidx as int) == 0,
            },
    {
        let ghost i = self.position(nidx as int);
        proof {
            assert(self.order().contains(nidx as int));
            assert(0 <= i < self.order().len() && self.order()[i] == nidx);
        }
        let inc = graph_edges_directed(&self.g.g, nidx, Direction::Incoming);
        if inc.len() == 0 {
            proof {
                if i > 0 {
                    let e = self.hops()[i - 1];
                    assert(self.links().contains_key(e));
                    assert(self.links()[self.hops()[i - 1]].dst == nidx);
                    assert(touches(self.links(), (e as u32) as int, nidx as int, Direction::Incoming));
                    assert(inc@.contains(e as u32));
                }
            }
            None
        } else {
            let e = inc[0];
            proof {
                assert(inc@.contains(inc@[0]));
                assert(touches(self.links(), e as int, nidx as int, Direction::Incoming));
                assert(self.hops().contains(e as int));
                let j = choose|j: int| 0 <= j < self.hops().len() && self.hops()[j] == e as int;
                assert(self.links()[self.hops()[j]].dst == self.order()[j + 1]);
                assert(j + 1 == i);
            }
            match graph_edge_endpoints(&self.g.g, e) {
                Some(ends) => Some((e, ends.0)),
                None => None,
            }
        }
    }

    /// A copy of this path, with the same indices for its nodes and edges.
    pub fn duplicate(&self) -> (copy: CriticalPath)
        ensures
            copy.nodes() == self.nodes(),
            copy.links() == self.links(),
            copy.chain == self.chain,
            copy.start_node == self.start_node,
            copy.end_node == self.end_node,
            copy.duration == self.duration,
            copy.is_hypothetical == self.is_hypothetical,
            copy.hash == self.hash,
            self.wf() ==> copy.wf() && copy.events() == self.events(),
    {
        CriticalPath {
            g: self.g.duplicate(),
            start_node: self.start_node,
            end_node: self.end_node,
            duration: self.duration,
            is_hypothetical: self.is_hypothetical,
            hash: match &self.hash {
                Some(h) => Some(h.clone()),
                None => None,
            },
            chain: Ghost(self.chain@),
        }
    }

    /// The node that follows `nidx`, or `None` at the end of the path.
    pub fn next_node(&self, nidx: u32) -> (next: Option<u32>)
        requires
            self.wf(),
            self.nodes().contains_key(nidx as int),
        ensures
            next == self.successor(nidx as int),
    {
        match self.next_hop(nidx) {
            Some(pair) => Some(pair.1),
            None => None,
        }
    }

    /// The node that precedes `nidx`, or `None` at the start of the path.
    pub fn prev_node(&self, nidx: u32) -> (prev: Option<u32>)
        requires
            self.wf(),
            self.nodes().contains_key(nidx as int),
        ensures
            prev == self.predecessor(nidx as int),
    {
        match self.prev_hop(nidx) {
            Some(pair) => Some(pair.1),
            None => None,
        }
    }

    /// Puts a synthetic event right behind node `after`. The event mirrors
    /// `node`: same span and tracepoint, the opposite variant, one
    /// nanosecond later than `after`. The edge that led on from `after` now
    /// leads on from the new node with its old duration, and a new edge of
    /// one nanosecond leads from `after` to the new node. Fails with
    /// `TooLarge`, and changes nothing, exactly when `after` has the largest
    /// timestamp there is or the graph is full.
    pub fn add_node_after(&mut self, after: u32, node: &Event) -> (added: Result<u32, ExtractError>)
        requires
            old(self).wf(),
            old(self).nodes().contains_key(after as int),
            node.variant != EventType::Annotation,
        ensures
            final(self).wf(),
            final(self).start_node == old(self).start_node,
            final(self).duration == old(self).duration,
            final(self).is_hypothetical == old(self).is_hypothetical,
            match added {
                Ok(idx) => {
                    &&& old(self).nodes()[after as int].timestamp < i64::MAX
                    &&& old(self).order().len() < u32::MAX
                    &&& !old(self).nodes().contains_key(idx as int)
                    &&& final(self).order() == old(self).order().insert(
                        old(self).position(after as int) + 1,
                        idx as int,
                    )
                    &&& final(self).nodes().contains_key(idx as int)
                    &&& final(self).nodes().remove(idx as int) == old(self).nodes()
                    &&& mirrors(
                        final(self).nodes()[idx as int],
                        *node,
                        old(self).nodes()[after as int].timestamp + 1,
                    )
                    &&& final(self).hop_times() == old(self).hop_times().insert(
                        old(self).position(after as int),
                        1,
                    )
                    &&& final(self).events() == old(self).events().insert(
                        old(self).position(after as int) + 1,
                        final(self).nodes()[idx as int],
                    )
                    &&& final(self).hop_weights() == spliced_weights(
                        old(self).hop_weights(),
                        old(self).position(after as int),
                    )
                    &&& final(self).end_node == (if after == old(self).end_node {
                        idx
                    } else {
                        old(self).end_node
                    })
                    &&& after == old(self).end_node && old(self).exact() ==> final(self).exact()
                    &&& final(self).hash is None
                },
                Err(e) => {
                    &&& e == ExtractError::TooLarge
                    &&& old(self).nodes()[after as int].timestamp == i64::MAX || old(
                        self,
                    ).order().len() >= u32::MAX
                    &&& *final(self) == *old(self)
                },
            },
    {
        let ghost c = self.chain@;
        let ghost i = self.position(after as int);
        let ghost nodes0 = self.nodes();
        let ghost links0 = self.links();
        proof {
            lemma_chain_sizes(nodes0, links0, c);
            assert(c.order.contains(after as int));
            assert(0 <= i < c.order.len() && c.order[i] == after);
        }
        let stamp = match graph_node_weight(&self.g.g, after) {
            Some(event) => event.timestamp,
            None => 0,
        };
        if stamp == i64::MAX || graph_node_count(&self.g.g) >= 0xFFFF_FFFF {
            return Err(ExtractError::TooLarge);
        }
        let next = self.next_hop(after);
        let twin = Event {
            trace_id: node.trace_id.duplicate(),
            tracepoint_id: node.tracepoint_id,
            timestamp: stamp + 1,
            is_synthetic: true,
            variant: match node.variant {
                EventType::Entry => EventType::Exit,
                _ => EventType::Entry,
            },
            key_value_pair: Vec::new(),
        };
        let ghost twin_spec = twin;
        let idx = graph_add_node(&mut self.g.g, twin);
        let first = graph_add_edge(
            &mut self.g.g,
            after,
            idx,
            DAGEdge { duration: 1, variant: EdgeType::ChildOf, service: None, host: None },
        );
        let ghost l1 = self.links()[first as int];
        match next {
            Some(pair) => {
                let old_edge = pair.0;
                let carried = match graph_remove_edge(&mut self.g.g, old_edge) {
                    Some(weight) => weight.duration,
                    None => 0,
                };
                let second = graph_add_edge(
                    &mut self.g.g,
                    idx,
                    pair.1,
                    DAGEdge {
                        duration: carried,
                        variant: EdgeType::ChildOf,
                        service: None,
                        host: None,
                    },
                );
                proof {
                    let l2 = self.links()[second as int];
                    lemma_splice_middle(
                        nodes0,
                        links0,
                        c,
                        i,
                        idx as int,
                        twin_spec,
                        first as int,
                        l1,
                        second as int,
                        l2,
                    );
                    self.chain = Ghost(spliced(c, i, idx as int, first as int, second as int));
                    assert(self.order() =~= c.order.insert(i + 1, idx as int));
                    assert(self.hop_times() =~= old(self).hop_times().insert(i, 1));
                    assert(self.hop_weights() =~= spliced_weights(old(self).hop_weights(), i));
                }
            },
            None => {
                self.end_node = idx;
                proof {
                    lemma_splice_end(nodes0, links0, c, idx as int, twin_spec, first as int, l1);
                    self.chain = Ghost(
                        Chain { order: c.order.push(idx as int), hops: c.hops.push(first as int) },
                    );
                    assert(self.order() =~= c.order.insert(i + 1, idx as int));
                    assert(self.hop_times() =~= old(self).hop_times().insert(i, 1));
                    assert(self.hop_weights() =~= spliced_weights(old(self).hop_weights(), i));
                    if old(self).exact() {
                        assert forall|k: int| 0 <= k < self.hops().len() implies #[trigger] self.hop_times()[k]
                            == self.nodes()[self.order()[k + 1]].timestamp - self.nodes()[self.order()[k]].timestamp by {
                            if k < c.hops.len() {
                                assert(nodes0.contains_key(c.order[k]));
                                assert(nodes0.contains_key(c.order[k + 1]));
                                assert(old(self).hop_times()[k] == nodes0[c.order[k + 1]].timestamp
                                    - nodes0[c.order[k]].timestamp);
                            } else {
                                assert(nodes0.contains_key(c.order[k]));
                            }
                        }
                    }
                }
            },
        }
        self.hash = None;
        proof {
            assert(self.nodes().remove(idx as int) =~= nodes0);
            lemma_index_of(c.order, i);
            lemma_events_insert(nodes0, c.order, i + 1, idx as int, twin_spec);
        }
        Ok(idx)
    }

    /// The timestamp of node `nidx`.
    pub fn stamp_of(&self, nidx: u32) -> (stamp: i64)
        requires
            self.nodes().contains_key(nidx as int),
        ensures
            stamp == self.nodes()[nidx as int].timestamp,
    {
        match graph_node_weight(&self.g.g, nidx) {
            Some(event) => event.timestamp,
            None => 0,
        }
    }

    /// Takes node `nidx` out of a path of two or more nodes. An inner node's
    /// neighbours are joined by a new edge that lasts as long as their
    /// timestamps are apart; without the first node the path starts at the
    /// second, and without the last it ends at the one before. Fails with
    /// `MalformedTrace`, and changes nothing, exactly when `nidx` is an
    /// inner node whose successor is timestamped before its predecessor.
    pub fn remove_node(&mut self, nidx: u32) -> (removed: Result<(), ExtractError>)
        requires
            old(self).wf(),
            old(self).nodes().contains_key(nidx as int),
            old(self).order().len() >= 2,
        ensures
            final(self).wf(),
            final(self).duration == old(self).duration,
            final(self).is_hypothetical == old(self).is_hypothetical,
            match removed {
                Ok(()) => {
                    let i = old(self).position(nidx as int);
                    let gap = old(self).nodes()[old(self).order()[i + 1]].timestamp - old(
                        self,
                    ).nodes()[old(self).order()[i - 1]].timestamp;
                    &&& final(self).order() == old(self).order().remove(i)
                    &&& final(self).nodes() == old(self).nodes().remove(nidx as int)
                    &&& 0 < i < old(self).order().len() - 1 ==> gap >= 0
                    &&& final(self).hop_times() == joined(old(self).hop_times(), i, gap)
                    &&& old(self).exact() ==> final(self).exact()
                    &&& final(self).hash is None
                },
                Err(e) => {
                    let i = old(self).position(nidx as int);
                    &&& e == ExtractError::MalformedTrace
                    &&& 0 < i < old(self).order().len() - 1
                    &&& old(self).nodes()[old(self).order()[i + 1]].timestamp < old(
                        self,
                    ).nodes()[old(self).order()[i - 1]].timestamp
                    &&& *final(self) == *old(self)
                },
            },
    {
        let ghost c = self.chain@;
        let ghost i = self.position(nidx as int);
        let ghost nodes0 = self.nodes();
        let ghost links0 = self.links();
        proof {
            lemma_chain_sizes(nodes0, links0, c);
            assert(c.order.contains(nidx as int));
            assert(0 <= i < c.order.len() && c.order[i] == nidx);
        }
        let next = self.next_hop(nidx);
        let prev = self.prev_hop(nidx);
        match next {
            Some(after) => match prev {
                Some(before) => {
                    proof {
                        assert(nodes0.contains_key(c.order[i - 1]));
                        assert(nodes0.contains_key(c.order[i + 1]));
                        assert(c.order[i - 1] != c.order[i] && c.order[i + 1] != c.order[i]);
                    }
                    let from = self.stamp_of(before.1);
                    let to = self.stamp_of(after.1);
                    if to < from {
                        return Err(ExtractError::MalformedTrace);
                    }
                    let gap: u64 = (to as i128 - from as i128) as u64;
                    graph_remove_node(&mut self.g.g, nidx);
                    proof {
                        assert(links0.contains_key(c.hops[i]));
                        assert(links0[c.hops[i]].src == c.order[i]);
                        assert(incident(links0, nidx as int).contains(c.hops[i]));
                        lemma_room_after_removal(links0, self.links(), c.hops[i]);
                    }
                    let bridge = graph_add_edge(
                        &mut self.g.g,
                        before.1,
                        after.1,
                        DAGEdge {
                            duration: gap,
                            variant: EdgeType::ChildOf,
                            service: None,
                            host: None,
                        },
                    );
                    proof {
                        lemma_cut_middle(
                            nodes0,
                            links0,
                            c,
                            i,
                            bridge as int,
                            self.links()[bridge as int],
                        );
                        self.chain = Ghost(bridged(c, i, bridge as int));
                    }
                },
                None => {
                    graph_remove_node(&mut self.g.g, nidx);
                    self.start_node = after.1;
                    proof {
                        lemma_cut_end(nodes0, links0, c, i);
                        self.chain = Ghost(bridged(c, i, 0));
                    }
                },
            },
            None => match prev {
                Some(before) => {
                    graph_remove_node(&mut self.g.g, nidx);
                    self.end_node = before.1;
                    proof {
                        lemma_cut_end(nodes0, links0, c, i);
                        self.chain = Ghost(bridged(c, i, 0));
                    }
                },
                None => {
                    proof {
                        assert(false);
                    }
                },
            },
        }
        self.hash = None;
        proof {
            lemma_index_of(c.order, i);
            lemma_chain_closed(self.nodes(), self.links(), self.chain@);
            lemma_chain_sizes(self.nodes(), self.links(), self.chain@);
        }
        Ok(())
    }

    /// The nodes of the path from first to last.
    pub fn node_order(&self) -> (nodes: Vec<u32>)
        requires
            self.wf(),
        ensures
            nodes@.len() == self.order().len(),
            forall|j: int| 0 <= j < nodes@.len() ==> (#[trigger] nodes@[j]) as int == self.order()[j],
    {
        let mut nodes: Vec<u32> = Vec::new();
        let mut cur = self.start_node;
        let mut more = true;
        while more
            invariant
                self.wf(),
                more ==> nodes@.len() < self.order().len() && cur == self.order()[nodes@.len() as int],
                !more ==> nodes@.len() == self.order().len(),
                forall|j: int| 0 <= j < nodes@.len() ==> (#[trigger] nodes@[j]) as int == self.order()[j],
            decreases self.order().len() - nodes@.len() + (if more { 1int } else { 0int }),
        {
            proof {
                lemma_index_of(self.order(), nodes@.len() as int);
                assert(self.nodes().contains_key(self.order()[nodes@.len() as int]));
            }
            let next = self.next_node(cur);
            nodes.push(cur);
            match next {
                Some(n) => {
                    cur = n;
                },
                None => {
                    more = false;
                },
            }
        }
        nodes
    }

    /// The events of the path from first to last.
    pub fn events_in_order(&self) -> (events: Vec<Event>)
        requires
            self.wf(),
        ensures
            events@ == self.events(),
    {
        let nodes = self.node_order();
        let mut events: Vec<Event> = Vec::new();
        let mut k: usize = 0;
        while k < nodes.len()
            invariant
                self.wf(),
                0 <= k <= nodes@.len(),
                nodes@.len() == self.order().len(),
                forall|j: int| 0 <= j < nodes@.len() ==> (#[trigger] nodes@[j]) as int == self.order()[j],
                events@.len() == k,
                forall|j: int| 0 <= j < k ==> #[trigger] events@[j] == self.nodes()[self.order()[j]],
            decreases nodes@.len() - k,
        {
            proof {
                assert(nodes@[k as int] as int == self.order()[k as int]);
                assert(self.nodes().contains_key(self.order()[k as int]));
            }
            match graph_node_weight(&self.g.g, nodes[k]) {
                Some(event) => {
                    events.push(event);
                },
                None => {},
            }
            k += 1;
        }
        proof {
            assert(events@ =~= self.events());
        }
        events
    }

    /// Where every edge lasts as long as its ends are apart, the durations
    /// of the edges add up to the time from the first event to the last.
    pub proof fn lemma_duration_additivity(self)
        requires
            self.wf(),
            self.exact(),
        ensures
            total(self.hop_times()) == self.span(),
    {
        lemma_exact_prefix(self.nodes(), self.links(), self.chain@, self.hops().len() as int);
        assert(self.hop_times().take(self.hops().len() as int) =~= self.hop_times());
    }

    /// After `add_node_after` the durations add up to one nanosecond more
    /// than before.
    pub proof fn lemma_total_after_insert(times: Seq<int>, at: int)
        requires
            0 <= at <= times.len(),
        ensures
            total(times.insert(at, 1)) == total(times) + 1,
    {
        let left = times.subrange(0, at);
        let right = times.subrange(at, times.len() as int);
        assert(times =~= left + right);
        assert(times.insert(at, 1) =~= left.push(1) + right);
        lemma_total_concat(left, right);
        lemma_total_concat(left.push(1), right);
        assert(left.push(1).drop_last() =~= left);
    }

    /// The durations of the edges from first to last, in nanoseconds.
    pub fn hop_durations(&self) -> (times: Vec<u64>)
        requires
            self.wf(),
        ensures
            times@.len() == self.hops().len(),
            forall|j: int| 0 <= j < times@.len() ==> (#[trigger] times@[j]) as int == self.hop_times()[j],
    {
        let nodes = self.node_order();
        let mut times: Vec<u64> = Vec::new();
        let mut k: usize = 0;
        let hops = nodes.len() - 1;
        while k < hops
            invariant
                self.wf(),
                0 <= k <= hops == nodes@.len() - 1,
                nodes@.len() == self.order().len(),
                forall|j: int| 0 <= j < nodes@.len() ==> (#[trigger] nodes@[j]) as int == self.order()[j],
                times@.len() == k,
                forall|j: int| 0 <= j < k ==> (#[trigger] times@[j]) as int == self.hop_times()[j],
            decreases hops - k,
        {
            proof {
                assert(nodes@[k as int] as int == self.order()[k as int]);
                assert(self.nodes().contains_key(self.order()[k as int]));
                lemma_index_of(self.order(), k as int);
                assert(self.links().contains_key(self.hops()[k as int]));
            }
            let weight = match self.next_hop(nodes[k]) {
                Some(pair) => match graph_edge_weight(&self.g.g, pair.0) {
                    Some(weight) => weight.duration,
                    None => 0,
                },
                None => 0,
            };
            times.push(weight);
            k += 1;
        }
        times
    }

    /// A node has at most one outgoing edge, and the last node has none.
    pub fn out_degree(&self, nidx: u32) -> (degree: usize)
        requires
            self.wf(),
            self.nodes().contains_key(nidx as int),
        ensures
            degree == (if nidx == self.end_node { 0usize } else { 1usize }),
    {
        let ghost i = self.position(nidx as int);
        proof {
            assert(self.order().contains(nidx as int));
            assert(0 <= i < self.order().len() && self.order()[i] == nidx);
        }
        let out = graph_edges_directed(&self.g.g, nidx, Direction::Outgoing);
        proof {
            assert forall|k: int| 0 <= k < out@.len() implies i + 1 < self.order().len() && (
            #[trigger] out@[k]) as int == self.hops()[i] by {
                assert(out@.contains(out@[k]));
                assert(touches(self.links(), out@[k] as int, nidx as int, Direction::Outgoing));
                assert(self.hops().contains(out@[k] as int));
                let j = choose|j: int| 0 <= j < self.hops().len() && self.hops()[j] == out@[k] as int;
                assert(self.links()[self.hops()[j]].src == self.order()[j]);
                assert(j == i);
            }
            if out@.len() >= 2 {
                assert(out@[0] as int == self.hops()[i] && out@[1] as int == self.hops()[i]);
                assert(out@[0] != out@[1]);
            }
            if out@.len() >= 1 {
                assert(out@[0] as int == self.hops()[i]);
                assert(i + 1 < self.order().len());
                lemma_index_of(self.order(), i);
            }
            if i + 1 < self.order().len() {
                let e = self.hops()[i];
                assert(self.links().contains_key(e));
                assert(self.links()[self.hops()[i]].src == nidx);
                assert(touches(self.links(), (e as u32) as int, nidx as int, Direction::Outgoing));
                assert(out@.contains(e as u32));
                assert(self.order()[i] != self.order()[self.order().len() - 1]);
            }
        }
        out.len()
    }
}

/// The first and the last node of a path are nodes of it.
pub proof fn lemma_last_is_end(path: CriticalPath)
    requires
        path.wf(),
    ensures
        path.nodes().contains_key(path.start_node as int),
        path.nodes().contains_key(path.end_node as int),
{
    assert(path.nodes().contains_key(path.order()[0]));
    assert(path.nodes().contains_key(path.order()[path.order().len() - 1]));
}

} // verus!
