//! Extraction of critical paths from a trace: the dominant one, and every
//! possible one.

use vstd::prelude::*;
use crate::chain::{lemma_chain_closed, lemma_chain_sizes, lemma_prepend, Chain};
use crate::critical::{lemma_last_is_end, CriticalPath};
use crate::error::ExtractError;
use crate::event::Event;
use crate::reconcile::{
    has_lost_exit, is_full, lemma_join_in_range, nearest_join, needs_splice, orphan, quiet, repair_at,
    repaired, repaired_at, splice_at, steady, walk_steps,
};
use crate::graph::{
    graph_add_edge, graph_add_node, graph_edge_weight, graph_node_count, touches, Direction,
};
use crate::pairing::{
    adds_twins, check_pairing, drawn_from, is_paired, lemma_drawn, observed, sweep, twin_of,
};
use crate::trace::Trace;
use crate::walk::{
    all_latest, all_reach, continues, continues_via, copy_edges, enumerates, is_origin, is_partial_trail,
    is_trail, lemma_at_start, lemma_branch_complete, lemma_branch_sound, lemma_distinct_fit,
    lemma_must_step, lists, trail_events, trail_node,
};

verus! {

/// Whether `paths` holds one path for each walk of `dag`: `origins` are
/// the walks of `dag`, each once, and each path stems from the walk at its
/// position.
pub open spec fn one_per_walk(dag: Trace, paths: Seq<CriticalPath>, origins: Seq<(u32, Seq<u32>)>) -> bool {
    &&& origins.len() == paths.len()
    &&& origins.no_duplicates()
    &&& forall|i: int| 0 <= i < origins.len() ==> is_origin(dag, #[trigger] origins[i])
    &&& forall|i: int| 0 <= i < paths.len() ==> (#[trigger] paths[i]).stems_from(dag, origins[i])
    &&& forall|end: u32, back: Seq<u32>|
        dag.nodes().contains_key(end as int) && dag.is_sink(end as int) && #[trigger] continues(
            dag.ending_at(end),
            Seq::empty(),
            back,
        ) ==> origins.contains((end, back))
}

/// Whether `paths` holds one path for each walk of `dag`.
pub open spec fn has_one_per_walk(dag: Trace, paths: Seq<CriticalPath>) -> bool {
    exists|origins: Seq<(u32, Seq<u32>)>| one_per_walk(dag, paths, origins)
}

/// Whether the walk `back` from node `end` needs nothing done to it: it is
/// short enough for a graph, needs no synthetic event, and no event of it
/// is to be removed.
pub open spec fn calm(dag: Trace, end: u32, back: Seq<u32>) -> bool {
    &&& back.len() + 1 < u32::MAX
    &&& quiet(dag, trail_events(dag.ending_at(end), back), walk_steps(dag.ending_at(end), back))
    &&& !sweep(trail_events(dag.ending_at(end), back), back.len() + 1 as int).failed
    &&& sweep(trail_events(dag.ending_at(end), back), back.len() + 1 as int).doomed.len() == 0
}

/// Whether `e` tells why no path comes back for the walk `back` from node
/// `end`: `TooLarge` for a walk that is too long or needs repair; `UnreconcilableSpan` for one with an Exit that nothing
/// explains, or that calls for synthetic events, or fails the scan for
/// incomplete spans; `MalformedTrace` for one that calls for synthetic
/// events or is not steady in time.
pub open spec fn walk_fails(dag: Trace, end: u32, back: Seq<u32>, e: ExtractError) -> bool {
    let events = trail_events(dag.ending_at(end), back);
    let dsteps = walk_steps(dag.ending_at(end), back);
    match e {
        ExtractError::TooLarge => back.len() + 1 >= u32::MAX || has_lost_exit(dag, events, dsteps)
            || needs_splice(dag, events, dsteps),
        ExtractError::UnreconcilableSpan => has_lost_exit(dag, events, dsteps) || needs_splice(
            dag,
            events,
            dsteps,
        ) || sweep(events, events.len() as int).failed,
        ExtractError::MalformedTrace => needs_splice(dag, events, dsteps) || !steady(events),
        ExtractError::CycleDetected => false,
    }
}

/// What is left of nodes that are drawn from events is drawn from them.
pub proof fn lemma_drawn_part(all: Map<int, Event>, part: Map<int, Event>, events: Seq<Event>)
    requires
        drawn_from(all, events),
        part.submap_of(all),
    ensures
        drawn_from(part, events),
{
    assert forall|n: int| #[trigger] part.contains_key(n) implies exists|k: int|
        0 <= k < events.len() && (part[n] == #[trigger] events[k] || twin_of(part[n], events[k])) by {
        assert(part.dom().contains(n));
        assert(all.dom().contains(n));
        assert(all.contains_key(n) && all[n] == part[n]);
        let k = choose|k: int|
            0 <= k < events.len() && (all[n] == #[trigger] events[k] || twin_of(all[n], events[k]));
        assert(part[n] == events[k] || twin_of(part[n], events[k]));
    }
}

/// Whether every walk of `dag` is calm.
pub open spec fn all_walks_calm(dag: Trace) -> bool {
    &&& all_sinks_reach(dag)
    &&& forall|end: u32, back: Seq<u32>|
        #![trigger is_origin(dag, (end, back))]
        is_origin(dag, (end, back)) ==> calm(dag, end, back)
}

/// Whether from every node that no edge leaves every walk against the
/// edges leads to the first node.
pub open spec fn all_sinks_reach(dag: Trace) -> bool {
    forall|end: u32| #[trigger]
        dag.nodes().contains_key(end as int) && dag.is_sink(end as int) ==> all_reach(
            dag,
            end as int,
            dag.nodes().dom().len(),
        )
}

/// Whether the walk `back` cannot be settled as it is: it has an Exit
/// that nothing explains, or calls for synthetic events, or is not paired.
pub open spec fn unsettled(dag: Trace, back: Seq<u32>) -> bool {
    has_lost_exit(dag, trail_events(dag, back), walk_steps(dag, back)) || needs_splice(
        dag,
        trail_events(dag, back),
        walk_steps(dag, back),
    ) || !is_paired(trail_events(dag, back))
}

/// Whether every walk of `dag` along latest predecessors fits a graph,
/// needs no synthetic event, and is paired.
pub open spec fn all_latest_calm(dag: Trace) -> bool {
    forall|back: Seq<u32>|
        #![trigger is_trail(dag, back)]
        is_trail(dag, back) && all_latest(dag, back) ==> back.len() + 1 < u32::MAX && quiet(
            dag,
            trail_events(dag, back),
            walk_steps(dag, back),
        ) && is_paired(trail_events(dag, back))
}

/// A path that needs repair has an Exit that nothing explains or calls for
/// a synthetic event; a path that needs none has neither.
pub proof fn lemma_repair_kinds(dag: Trace, events: Seq<Event>, dsteps: Seq<u32>)
    ensures
        !quiet(dag, events, dsteps) ==> has_lost_exit(dag, events, dsteps) || needs_splice(
            dag,
            events,
            dsteps,
        ),
        quiet(dag, events, dsteps) ==> !has_lost_exit(dag, events, dsteps) && !needs_splice(
            dag,
            events,
            dsteps,
        ),
{
    if !quiet(dag, events, dsteps) {
        let j = choose|j: int| 0 <= j < events.len() && #[trigger] repair_at(dag, events, dsteps, j);
        lemma_join_in_range(dag, dsteps, j, events[j].trace_id@);
        if orphan(events, j) && nearest_join(dag, dsteps, j, events[j].trace_id@) == 0 {
            assert(has_lost_exit(dag, events, dsteps));
        } else {
            assert(splice_at(dag, events, dsteps, j));
        }
    } else {
        if has_lost_exit(dag, events, dsteps) {
            let j = choose|j: int|
                0 <= j < events.len() && #[trigger] orphan(events, j) && nearest_join(
                    dag,
                    dsteps,
                    j,
                    events[j].trace_id@,
                ) == 0;
            assert(repair_at(dag, events, dsteps, j));
        }
        if needs_splice(dag, events, dsteps) {
            let j = choose|j: int| 0 <= j < events.len() && #[trigger] splice_at(dag, events, dsteps, j);
            assert(repair_at(dag, events, dsteps, j));
        }
    }
}

/// The copy of a walk spans the time between the trace's first and last
/// event.
pub proof fn lemma_copy_span(copy: CriticalPath, dag: Trace, back: Seq<u32>)
    requires
        copy.wf(),
        is_trail(dag, back),
        copy.copies(dag, back),
    ensures
        copy.span() == dag.time_of(dag.end_node as int) - dag.time_of(dag.start_node as int),
{
    assert(copy.nodes()[copy.order()[0]] == dag.nodes()[trail_node(dag, back, back.len() - 0)]);
    assert(copy.nodes()[copy.order()[back.len() as int]] == dag.nodes()[trail_node(
        dag,
        back,
        back.len() - back.len(),
    )]);
}

/// A path that was finished from the copy of a walk without an Exit that
/// nothing explains settles the walk.
pub proof fn lemma_settles(copy: CriticalPath, path: CriticalPath, dag: Trace, back: Seq<u32>)
    requires
        copy.copies(dag, back),
        copy.events() == trail_events(dag, back),
        dag.timed() ==> copy.exact(),
        !has_lost_exit(dag, copy.events(), walk_steps(dag, back)),
        quiet(dag, copy.events(), walk_steps(dag, back)) ==> path.g == copy.g && path.chain
            == copy.chain,
    ensures
        path.settles(dag, back),
{
}

/// Where every position has got what it needs, none holds an Exit that
/// nothing explains.
pub proof fn lemma_none_lost(dag: Trace, dsteps: Seq<u32>, before: CriticalPath, after: CriticalPath)
    requires
        repaired(dag, dsteps, before, after, before.events().len() as int),
    ensures
        !has_lost_exit(dag, before.events(), dsteps),
{
    let events = before.events();
    if has_lost_exit(dag, events, dsteps) {
        let j = choose|j: int|
            0 <= j < events.len() && #[trigger] orphan(events, j) && nearest_join(
                dag,
                dsteps,
                j,
                events[j].trace_id@,
            ) == 0;
        assert(repaired_at(dag, dsteps, before, after, j));
    }
}

impl CriticalPath {
    /// Whether this path holds copies of what the walk `back` passed in
    /// `dag`: its events are those of the nodes on the walk, from the
    /// trace's first node to its last, and its edges weigh what the edges
    /// of the walk weigh.
    pub open spec fn copies(&self, dag: Trace, back: Seq<u32>) -> bool {
        &&& self.order().len() == back.len() + 1
        &&& forall|j: int|
            0 <= j <= back.len() ==> self.nodes()[#[trigger] self.order()[j]] == dag.nodes()[trail_node(
                dag,
                back,
                back.len() - j,
            )]
        &&& forall|j: int|
            0 <= j < back.len() ==> self.links()[#[trigger] self.hops()[j]].weight
                == dag.links()[back[back.len() - 1 - j] as int].weight
    }

    /// Walks from the last node of `dag` against its edges to the first
    /// node, at each node along an edge from a latest predecessor, and
    /// returns the edges in the order walked. Fails with `MalformedTrace`
    /// where the first or last node is missing or the walk reaches a node
    /// that no edge enters, and with `CycleDetected` after more steps than
    /// the graph has nodes. A trace that is rooted and acyclic has a walk.
    pub fn critical_trail(dag: &Trace) -> (walk: Result<Vec<u32>, ExtractError>)
        requires
            dag.wf(),
        ensures
            match walk {
                Ok(back) => is_trail(*dag, back@) && all_latest(*dag, back@) && back@.len()
                    <= dag.nodes().dom().len(),
                Err(e) => match e {
                    ExtractError::MalformedTrace => !dag.rooted(),
                    ExtractError::CycleDetected => !dag.acyclic(),
                    _ => false,
                },
            },
    {
        if !dag.has_node(dag.start_node) || !dag.has_node(dag.end_node) {
            return Err(ExtractError::MalformedTrace);
        }
        let limit = graph_node_count(&dag.g);
        let mut back: Vec<u32> = Vec::new();
        let mut cur = dag.end_node;
        let ghost rank = choose|rank: Map<int, int>| dag.ranked_by(rank);
        let ghost mut seen: Seq<int> = seq![dag.end_node as int];
        while cur != dag.start_node
            invariant
                dag.wf(),
                limit == dag.nodes().dom().len(),
                dag.nodes().contains_key(dag.start_node as int),
                dag.nodes().contains_key(cur as int),
                is_partial_trail(*dag, back@),
                all_latest(*dag, back@),
                cur == trail_node(*dag, back@, back@.len() as int),
                back@.len() <= limit,
                seen.len() == back@.len() + 1,
                seen.last() == cur,
                forall|j: int| 0 <= j < seen.len() ==> dag.nodes().contains_key(#[trigger] seen[j]),
                dag.acyclic() ==> dag.ranked_by(rank),
                dag.acyclic() ==> forall|a: int, b: int|
                    0 <= a < b < seen.len() ==> rank[#[trigger] seen[a]] > rank[#[trigger] seen[b]],
            ensures
                cur == dag.start_node,
            decreases limit - back@.len(),
        {
            if back.len() >= limit {
                proof {
                    if dag.acyclic() {
                        lemma_distinct_fit(seen, dag.nodes().dom());
                    }
                }
                return Err(ExtractError::CycleDetected);
            }
            let step = match dag.latest_incoming(cur) {
                Some(e) => e,
                None => {
                    return Err(ExtractError::MalformedTrace);
                },
            };
            let from = match dag.endpoints(step) {
                Some(pair) => pair.0,
                None => cur,
            };
            let ghost before = back@;
            back.push(step);
            proof {
                assert forall|t: int| 0 <= t < back@.len() implies dag.links().contains_key(
                    #[trigger] back@[t] as int,
                ) && dag.links()[back@[t] as int].dst == trail_node(*dag, back@, t) by {
                    if t < before.len() {
                        assert(back@[t] == before[t]);
                        assert(trail_node(*dag, back@, t) == trail_node(*dag, before, t));
                    }
                }
                assert forall|t: int| 0 <= t < back@.len() implies dag.is_latest(
                    #[trigger] back@[t] as int,
                ) by {
                    if t < before.len() {
                        assert(back@[t] == before[t]);
                    }
                }
                let grown = seen.push(from as int);
                if dag.acyclic() {
                    assert(rank[from as int] < rank[cur as int]);
                    assert forall|a: int, b: int| 0 <= a < b < grown.len() implies rank[#[trigger] grown[a]]
                        > rank[#[trigger] grown[b]] by {
                        if b < seen.len() {
                        } else if a < seen.len() - 1 {
                            assert(rank[seen[a]] > rank[seen[seen.len() - 1]]);
                        }
                    }
                }
                seen = grown;
            }
            cur = from;
        }
        Ok(back)
    }

    /// Builds the path that holds a copy of each node and edge on the walk
    /// `back` through `dag`, which starts at node `end`. Fails with `TooLarge` only for a walk of more
    /// edges than a graph can index.
    pub fn from_trail(dag: &Trace, end: u32, back: &Vec<u32>, hypothetical: bool) -> (built: Result<
        CriticalPath,
        ExtractError,
    >)
        requires
            dag.wf(),
            is_trail(dag.ending_at(end), back@),
        ensures
            match built {
                Ok(path) => {
                    &&& path.wf()
                    &&& path.copies(dag.ending_at(end), back@)
                    &&& path.is_hypothetical == hypothetical
                    &&& path.hash is None
                    &&& path.duration == 0
                    &&& dag.timed() ==> path.exact()
                    &&& back@.len() + 1 < u32::MAX
                },
                Err(e) => e == ExtractError::TooLarge && back@.len() + 1 >= u32::MAX,
            },
    {
        let mut g = Trace::new(&dag.base_id);
        let last = match dag.event_at(end) {
            Some(event) => event,
            None => {
                proof {
                    assert(false);
                }
                return Err(ExtractError::TooLarge);
            },
        };
        let end_idx = graph_add_node(&mut g.g, last);
        let mut path = CriticalPath {
            g,
            start_node: end_idx,
            end_node: end_idx,
            duration: 0,
            is_hypothetical: hypothetical,
            hash: None,
            chain: Ghost(Chain { order: seq![end_idx as int], hops: Seq::empty() }),
        };
        proof {
            assert(path.order()[0] == end_idx as int);
            assert forall|n: int| #[trigger] path.nodes().contains_key(n) implies path.order().contains(
                n,
            ) by {
                assert(path.order()[0] == n);
            }
        }
        let mut k: usize = 0;
        while k < back.len()
            invariant
                dag.wf(),
                is_trail(dag.ending_at(end), back@),
                0 <= k <= back@.len(),
                path.wf(),
                path.order().len() == k + 1,
                k + 1 < u32::MAX,
                path.is_hypothetical == hypothetical,
                path.hash is None,
                path.duration == 0,
                forall|j: int|
                    0 <= j <= k ==> path.nodes()[#[trigger] path.order()[j]] == dag.nodes()[trail_node(dag.ending_at(end),
                        back@,
                        k - j,
                    )],
                forall|j: int|
                    0 <= j < k ==> path.links()[#[trigger] path.hops()[j]].weight
                        == dag.links()[back@[k - 1 - j] as int].weight,
            decreases back@.len() - k,
        {
            let ghost c = path.chain@;
            let ghost nodes0 = path.nodes();
            let ghost links0 = path.links();
            proof {
                lemma_chain_sizes(nodes0, links0, c);
                assert(path.hops() == c.hops && path.order() == c.order);
                assert(forall|j: int|
                    0 <= j < k ==> links0[#[trigger] c.hops[j]].weight == dag.links()[back@[k - 1
                        - j] as int].weight);
                assert(forall|j: int|
                    0 <= j <= k ==> nodes0[#[trigger] c.order[j]] == dag.nodes()[trail_node(dag.ending_at(end),
                        back@,
                        k - j,
                    )]);
            }
            if graph_node_count(&path.g.g) >= 0xFFFF_FFFE {
                return Err(ExtractError::TooLarge);
            }
            let e = back[k];
            assert(dag.links().contains_key(back@[k as int] as int));
            let from = match dag.endpoints(e) {
                Some(pair) => pair.0,
                None => 0,
            };
            let event = match dag.event_at(from) {
                Some(event) => event,
                None => {
                    proof {
                        assert(false);
                    }
                    return Err(ExtractError::TooLarge);
                },
            };
            let weight = match graph_edge_weight(&dag.g, e) {
                Some(weight) => weight,
                None => {
                    proof {
                        assert(false);
                    }
                    return Err(ExtractError::TooLarge);
                },
            };
            let ghost event_spec = event;
            let idx = graph_add_node(&mut path.g.g, event);
            let hop = graph_add_edge(&mut path.g.g, idx, path.start_node, weight);
            path.start_node = idx;
            proof {
                lemma_prepend(
                    nodes0,
                    links0,
                    c,
                    idx as int,
                    event_spec,
                    hop as int,
                    path.links()[hop as int],
                );
            }
            path.chain = Ghost(
                Chain { order: seq![idx as int] + c.order, hops: seq![hop as int] + c.hops },
            );
            proof {
                lemma_chain_closed(path.nodes(), path.links(), path.chain@);
                lemma_chain_sizes(path.nodes(), path.links(), path.chain@);
                assert forall|j: int| 0 <= j <= k + 1 implies path.nodes()[#[trigger] path.order()[j]]
                    == dag.nodes()[trail_node(dag.ending_at(end), back@, k + 1 - j)] by {
                    if j > 0 {
                        assert(path.order()[j] == c.order[j - 1]);
                        assert(nodes0.contains_key(c.order[j - 1]));
                    }
                }
                assert forall|j: int| 0 <= j < k + 1 implies path.links()[#[trigger] path.hops()[j]].weight
                    == dag.links()[back@[k - j] as int].weight by {
                    if j > 0 {
                        assert(path.hops()[j] == c.hops[j - 1]);
                        assert(links0.contains_key(c.hops[j - 1]));
                        assert(links0[c.hops[j - 1]].weight == dag.links()[back@[k - 1 - (j - 1)] as int].weight);
                    } else {
                        assert(path.hops()[0] == hop as int);
                    }
                }
            }
            k += 1;
        }
        proof {
            if dag.timed() {
                assert forall|i: int| 0 <= i < path.hops().len() implies #[trigger] path.hop_times()[i]
                    == path.nodes()[path.order()[i + 1]].timestamp - path.nodes()[path.order()[i]].timestamp by {
                    let t = back@.len() - 1 - i;
                    assert(dag.links().contains_key(back@[t] as int));
                    assert(path.links()[path.hops()[i]].weight == dag.links()[back@[t] as int].weight);
                    assert(path.nodes()[path.order()[i]] == dag.nodes()[trail_node(dag.ending_at(end), back@, t + 1)]);
                    assert(path.nodes()[path.order()[i + 1]] == dag.nodes()[trail_node(dag.ending_at(end), back@, t)]);
                }
            }
        }
        Ok(path)
    }

    /// The nodes that the walk `back` passed in `dag` on its way back from
    /// node `end`, from the trace's first node to `end`.
    pub fn trail_nodes(dag: &Trace, end: u32, back: &Vec<u32>) -> (nodes: Vec<u32>)
        requires
            dag.wf(),
            is_partial_trail(dag.ending_at(end), back@),
        ensures
            nodes@.len() == back@.len() + 1,
            forall|j: int|
                0 <= j < nodes@.len() ==> (#[trigger] nodes@[j]) as int == trail_node(dag.ending_at(end),
                    back@,
                    back@.len() - j,
                ) && dag.nodes().contains_key(nodes@[j] as int),
    {
        let mut nodes: Vec<u32> = Vec::new();
        let mut t: usize = back.len();
        while t > 0
            invariant
                dag.wf(),
                is_partial_trail(dag.ending_at(end), back@),
                0 <= t <= back@.len(),
                nodes@.len() == back@.len() - t,
                forall|j: int|
                    0 <= j < nodes@.len() ==> (#[trigger] nodes@[j]) as int == trail_node(dag.ending_at(end),
                        back@,
                        back@.len() - j,
                    ) && dag.nodes().contains_key(nodes@[j] as int),
            decreases t,
        {
            assert(dag.links().contains_key(back@[t - 1] as int));
            let from = match dag.endpoints(back[t - 1]) {
                Some(pair) => pair.0,
                None => 0,
            };
            nodes.push(from);
            t -= 1;
        }
        nodes.push(end);
        nodes
    }

    /// The single critical path of `dag`: the walk from its last node back
    /// to its first along latest predecessors, copied into a chain, with
    /// the nesting of spans restored by synthetic events. A path that comes
    /// back is a simple chain whose every Entry has a later Exit of its
    /// span and whose every Exit has an earlier Entry of its span; its
    /// observed events are those on the walk; its duration is the time
    /// between its first and last event.
    pub fn from_trace(dag: &Trace) -> (extracted: Result<CriticalPath, ExtractError>)
        requires
            dag.wf(),
        ensures
            match extracted {
                Ok(path) => {
                    &&& path.wf()
                    &&& is_paired(path.events())
                    &&& !path.is_hypothetical
                    &&& path.duration == path.span()
                    &&& path.hash is None
                    &&& exists|back: Seq<u32>| #[trigger]
                        path.follows(*dag, back) && all_latest(*dag, back) && path.settles(*dag, back)
                },
                Err(e) => match e {
                    ExtractError::CycleDetected => !dag.acyclic(),
                    ExtractError::MalformedTrace => !dag.rooted() || dag.time_of(dag.end_node as int)
                        < dag.time_of(dag.start_node as int),
                    ExtractError::UnreconcilableSpan => exists|back: Seq<u32>| #[trigger]
                        is_trail(*dag, back) && all_latest(*dag, back) && unsettled(*dag, back),
                    ExtractError::TooLarge => exists|back: Seq<u32>| #[trigger]
                        is_trail(*dag, back) && all_latest(*dag, back) && (back.len() + 1 >= u32::MAX
                            || has_lost_exit(*dag, trail_events(*dag, back), walk_steps(*dag, back))
                            || needs_splice(*dag, trail_events(*dag, back), walk_steps(*dag, back))),
                },
            },
            dag.rooted() && dag.acyclic() && dag.time_of(dag.end_node as int) >= dag.time_of(
                dag.start_node as int,
            ) && all_latest_calm(*dag) ==> extracted is Ok,
    {
        let back = match CriticalPath::critical_trail(dag) {
            Ok(back) => back,
            Err(e) => {
                return Err(e);
            },
        };
        proof {
            assert(dag.ending_at(dag.end_node) == *dag);
        }
        let mut path = match CriticalPath::from_trail(dag, dag.end_node, &back, false) {
            Ok(path) => path,
            Err(e) => {
                return Err(e);
            },
        };
        let ghost copied = path.nodes();
        let ghost copy = path;
        proof {
            path.lemma_copies_follows(*dag, back@);
            path.lemma_copies_events(*dag, back@);
            path.lemma_copies_all(*dag, back@);
            lemma_repair_kinds(*dag, trail_events(*dag, back@), walk_steps(*dag, back@));
            lemma_copy_span(copy, *dag, back@);
        }
        match path.finish(dag, dag.end_node, &back) {
            Ok(()) => {
                proof {
                    lemma_drawn(copied, path.nodes(), trail_events(*dag, back@));
                    assert(path.follows(*dag, back@));
                    lemma_settles(copy, path, *dag, back@);
                }
                Ok(path)
            },
            Err(e) => {
                proof {
                    assert(is_trail(*dag, back@) && all_latest(*dag, back@));
                    if e == ExtractError::UnreconcilableSpan {
                        assert(unsettled(*dag, back@));
                    }
                }
                Err(e)
            },
        }
    }

    /// Whether this path has settled the walk `back`: the walk has no Exit
    /// that nothing explains, and a walk that needs no synthetic event is
    /// copied as it is, edge by edge.
    pub open spec fn settles(&self, dag: Trace, back: Seq<u32>) -> bool {
        &&& !has_lost_exit(dag, trail_events(dag, back), walk_steps(dag, back))
        &&& quiet(dag, trail_events(dag, back), walk_steps(dag, back)) ==> self.copies(dag, back) && (
        dag.timed() ==> self.exact())
    }

    /// Whether the observed events of this path are the events that the
    /// walk `back` passed in `dag`, from the trace's first node to its last,
    /// every other event is the synthetic counterpart of one of them, and
    /// the path starts and ends with the first and the last of them.
    pub open spec fn follows(&self, dag: Trace, back: Seq<u32>) -> bool {
        &&& is_trail(dag, back)
        &&& observed(self.events()) == observed(trail_events(dag, back))
        &&& drawn_from(self.nodes(), trail_events(dag, back))
        &&& self.nodes()[self.start_node as int] == dag.nodes()[dag.start_node as int]
        &&& self.nodes()[self.end_node as int] == dag.nodes()[dag.end_node as int]
    }

    /// The events of a path that holds copies of a walk are the events on
    /// the walk.
    pub proof fn lemma_copies_all(self, dag: Trace, back: Seq<u32>)
        requires
            self.wf(),
            self.copies(dag, back),
        ensures
            self.events() == trail_events(dag, back),
    {
        assert(self.events() =~= trail_events(dag, back)) by {
            assert forall|j: int| 0 <= j < self.events().len() implies self.events()[j]
                == trail_events(dag, back)[j] by {
                assert(self.nodes()[self.order()[j]] == dag.nodes()[trail_node(
                    dag,
                    back,
                    back.len() - j,
                )]);
            }
        }
    }

    /// Every event of a path that holds copies of a walk is an event on the
    /// walk.
    pub proof fn lemma_copies_events(self, dag: Trace, back: Seq<u32>)
        requires
            self.wf(),
            self.copies(dag, back),
        ensures
            forall|n: int| #[trigger]
                self.nodes().contains_key(n) ==> exists|k: int|
                    0 <= k < trail_events(dag, back).len() && self.nodes()[n] == #[trigger] trail_events(
                        dag,
                        back,
                    )[k],
    {
        let walked = trail_events(dag, back);
        assert forall|n: int| #[trigger] self.nodes().contains_key(n) implies exists|k: int|
            0 <= k < walked.len() && self.nodes()[n] == #[trigger] walked[k] by {
            assert(self.order().contains(n));
            let k = choose|k: int| 0 <= k < self.order().len() && self.order()[k] == n;
            assert(self.nodes()[self.order()[k]] == walked[k]);
        }
    }

    /// A path that holds copies of a walk follows it.
    pub proof fn lemma_copies_follows(self, dag: Trace, back: Seq<u32>)
        requires
            self.wf(),
            is_trail(dag, back),
            self.copies(dag, back),
        ensures
            self.follows(dag, back),
    {
        assert(self.events() =~= trail_events(dag, back)) by {
            assert forall|j: int| 0 <= j < self.events().len() implies self.events()[j]
                == trail_events(dag, back)[j] by {
                assert(self.nodes()[self.order()[j]] == dag.nodes()[trail_node(
                    dag,
                    back,
                    back.len() - j,
                )]);
            }
        }
        assert(self.nodes()[self.order()[0]] == dag.nodes()[trail_node(dag, back, back.len() - 0)]);
        assert(self.nodes()[self.order()[back.len() as int]] == dag.nodes()[trail_node(
            dag,
            back,
            back.len() - back.len(),
        )]);
        self.lemma_copies_events(dag, back);
    }

    /// Restores the nesting of spans, checks it, sets the duration and
    /// forgets the hash. Fails as `add_synthetic_nodes` does; else with
    /// `UnreconcilableSpan` where an Entry or Exit stays without its
    /// partner; else with `MalformedTrace` where the last event is
    /// timestamped before the first. A path that needs no repair and is
    /// paired comes back as it is, with its duration.
    pub fn finish(&mut self, dag: &Trace, end: u32, back: &Vec<u32>) -> (done: Result<(), ExtractError>)
        requires
            old(self).wf(),
            dag.wf(),
            is_partial_trail(dag.ending_at(end), back@),
            old(self).order().len() == back@.len() + 1,
        ensures
            final(self).wf(),
            final(self).start_node == old(self).start_node,
            final(self).end_node == old(self).end_node,
            final(self).is_hypothetical == old(self).is_hypothetical,
            observed(final(self).events()) == observed(old(self).events()),
            old(self).nodes().submap_of(final(self).nodes()),
            adds_twins(old(self).nodes(), final(self).nodes()),
            final(self).nodes()[final(self).start_node as int] == old(self).nodes()[old(
                self,
            ).start_node as int],
            final(self).nodes()[final(self).end_node as int] == old(self).nodes()[old(
                self,
            ).end_node as int],
            done is Ok ==> final(self).hash is None,
            quiet(*dag, old(self).events(), walk_steps(dag.ending_at(end), back@)) ==> final(self).g
                == old(self).g && final(self).chain == old(self).chain,
            quiet(*dag, old(self).events(), walk_steps(dag.ending_at(end), back@)) && is_paired(
                old(self).events(),
            ) && old(self).span() >= 0 ==> done is Ok,
            match done {
                Ok(()) => is_paired(final(self).events()) && final(self).duration == final(self).span()
                    && !has_lost_exit(
                    *dag,
                    old(self).events(),
                    walk_steps(dag.ending_at(end), back@),
                ),
                Err(e) => match e {
                    ExtractError::UnreconcilableSpan => has_lost_exit(
                        *dag,
                        old(self).events(),
                        walk_steps(dag.ending_at(end), back@),
                    ) || (repaired(
                        *dag,
                        walk_steps(dag.ending_at(end), back@),
                        *old(self),
                        *final(self),
                        old(self).events().len() as int,
                    ) && !is_paired(final(self).events())),
                    ExtractError::TooLarge => is_full(*final(self)) && (has_lost_exit(
                        *dag,
                        old(self).events(),
                        walk_steps(dag.ending_at(end), back@),
                    ) || needs_splice(
                        *dag,
                        old(self).events(),
                        walk_steps(dag.ending_at(end), back@),
                    )),
                    ExtractError::MalformedTrace => old(self).span() < 0 && is_paired(
                        final(self).events(),
                    ),
                    ExtractError::CycleDetected => false,
                },
            },
    {
        proof {
            lemma_last_is_end(*self);
        }
        let ghost nodes0 = self.nodes();
        let first = self.stamp_of(self.start_node);
        let last = self.stamp_of(self.end_node);
        let ghost before = *self;
        proof {
            lemma_repair_kinds(*dag, self.events(), walk_steps(dag.ending_at(end), back@));
        }
        match self.add_synthetic_nodes(dag, end, back) {
            Ok(()) => {
                proof {
                    lemma_none_lost(*dag, walk_steps(dag.ending_at(end), back@), before, *self);
                }
            },
            Err(e) => {
                proof {
                    lemma_last_is_end(*self);
                }
                return Err(e);
            },
        }
        proof {
            lemma_last_is_end(*self);
        }
        let events = self.events_in_order();
        if !check_pairing(&events) {
            return Err(ExtractError::UnreconcilableSpan);
        }
        if last < first {
            return Err(ExtractError::MalformedTrace);
        }
        self.duration = (last as i128 - first as i128) as u64;
        self.hash = None;
        Ok(())
    }

    /// Walks from node `cur` of `dag` against its edges to the first node
    /// in every possible way and adds each walk found, with `partial` in
    /// front of it, to `found`. `partial` is the walk from `end` that led to
    /// `cur`. A walk ends where it meets the first node. Fails with
    /// `MalformedTrace` at a node other than the first that no edge enters,
    /// and with `CycleDetected` when a walk would take more than `steps`
    /// edges from `cur`. Otherwise the walks added are those that continue
    /// `partial`, each once.
    pub fn possible_paths_helper(
        dag: &Trace,
        end: u32,
        cur: u32,
        partial: &Vec<u32>,
        steps: usize,
        found: &mut Vec<Vec<u32>>,
    ) -> (done: Result<(), ExtractError>)
        requires
            dag.wf(),
            is_partial_trail(dag.ending_at(end), partial@),
            cur == trail_node(dag.ending_at(end), partial@, partial@.len() as int),
            forall|i: int|
                0 <= i < old(found)@.len() ==> is_trail(dag.ending_at(end), (#[trigger] old(found)@[i])@),
        ensures
            final(found)@.len() >= old(found)@.len(),
            forall|i: int|
                0 <= i < final(found)@.len() ==> is_trail(
                    dag.ending_at(end),
                    (#[trigger] final(found)@[i])@,
                ),
            forall|i: int| 0 <= i < old(found)@.len() ==> final(found)@[i] == old(found)@[i],
            done is Ok ==> enumerates(
                dag.ending_at(end),
                partial@,
                final(found)@,
                old(found)@.len() as int,
            ),
            done is Ok <==> all_reach(*dag, cur as int, steps as nat),
            done is Err ==> done->Err_0 == ExtractError::MalformedTrace || done->Err_0
                == ExtractError::CycleDetected,
        decreases steps,
    {
        let ghost d = dag.ending_at(end);
        let ghost base = found@.len() as int;
        if cur == dag.start_node {
            let whole = copy_edges(partial);
            found.push(whole);
            proof {
                assert(found@[base]@ == partial@);
                assert(partial@.is_prefix_of(partial@)) by {
                    assert(partial@ =~= partial@.subrange(0, partial@.len() as int));
                }
                assert forall|back: Seq<u32>| #[trigger] continues(d, partial@, back) implies lists(
                    found@,
                    base,
                    back,
                ) by {
                    lemma_at_start(d, partial@, back);
                    assert(found@[base]@ == back);
                }
            }
            return Ok(());
        }
        if steps == 0 {
            return Err(ExtractError::CycleDetected);
        }
        let incoming = dag.edges_at(cur, Direction::Incoming);
        if incoming.len() == 0 {
            proof {
                assert forall|e: int| !touches(dag.links(), e, cur as int, Direction::Incoming) by {
                    if touches(dag.links(), e, cur as int, Direction::Incoming) {
                        assert(touches(
                            dag.links(),
                            (e as u32) as int,
                            cur as int,
                            Direction::Incoming,
                        ));
                        assert(incoming@.contains(e as u32));
                    }
                }
            }
            return Err(ExtractError::MalformedTrace);
        }
        let mut k: usize = 0;
        while k < incoming.len()
            invariant
                dag.wf(),
                steps > 0,
                incoming@.len() > 0,
                forall|j: int|
                    0 <= j < k ==> all_reach(
                        *dag,
                        dag.links()[(#[trigger] incoming@[j]) as int].src,
                        (steps - 1) as nat,
                    ),
                d == dag.ending_at(end),
                base == old(found)@.len(),
                cur != dag.start_node,
                is_partial_trail(d, partial@),
                cur == trail_node(d, partial@, partial@.len() as int),
                0 <= k <= incoming@.len(),
                incoming@.no_duplicates(),
                forall|e: u32| #[trigger]
                    incoming@.contains(e) <==> touches(
                        dag.links(),
                        e as int,
                        cur as int,
                        Direction::Incoming,
                    ),
                found@.len() >= old(found)@.len(),
                forall|i: int| 0 <= i < found@.len() ==> is_trail(d, (#[trigger] found@[i])@),
                forall|i: int| 0 <= i < old(found)@.len() ==> found@[i] == old(found)@[i],
                forall|i: int|
                    base <= i < found@.len() ==> continues_via(
                        d,
                        partial@,
                        (#[trigger] found@[i])@,
                        incoming@,
                        k as int,
                    ),
                forall|back: Seq<u32>| #[trigger]
                    continues_via(d, partial@, back, incoming@, k as int) ==> lists(found@, base, back),
                forall|i: int, j: int|
                    base <= i < j < found@.len() ==> (#[trigger] found@[i])@ != (#[trigger] found@[j])@,
            decreases incoming@.len() - k,
        {
            let e = incoming[k];
            assert(incoming@.contains(incoming@[k as int]));
            let from = match dag.endpoints(e) {
                Some(pair) => pair.0,
                None => cur,
            };
            let mut longer = copy_edges(partial);
            longer.push(e);
            proof {
                assert forall|t: int| 0 <= t < longer@.len() implies d.links().contains_key(
                    #[trigger] longer@[t] as int,
                ) && d.links()[longer@[t] as int].dst == trail_node(d, longer@, t) by {
                    if t < partial@.len() {
                        assert(longer@[t] == partial@[t]);
                        assert(trail_node(d, longer@, t) == trail_node(d, partial@, t));
                    }
                }
                assert(longer@ == partial@.push(e));
            }
            let ghost before = found@;
            let ghost mid = found@.len() as int;
            match CriticalPath::possible_paths_helper(dag, end, from, &longer, steps - 1, found) {
                Ok(()) => {},
                Err(err) => {
                    proof {
                        assert(touches(dag.links(), e as int, cur as int, Direction::Incoming));
                        assert(!all_reach(*dag, dag.links()[e as int].src, (steps - 1) as nat));
                    }
                    return Err(err);
                },
            }
            proof {
                let after = found@;
                assert forall|i: int| base <= i < after.len() implies continues_via(
                    d,
                    partial@,
                    (#[trigger] after[i])@,
                    incoming@,
                    k + 1,
                ) by {
                    if i < mid {
                        assert(after[i] == before[i]);
                        assert(continues_via(d, partial@, before[i]@, incoming@, k as int));
                        let j = choose|j: int|
                            0 <= j < k && #[trigger] incoming@[j] == before[i]@[partial@.len() as int];
                        assert(0 <= j < k + 1 && incoming@[j] == after[i]@[partial@.len() as int]);
                    } else {
                        assert(continues(d, longer@, after[i]@));
                        lemma_branch_sound(d, partial@, e, after[i]@);
                        assert(incoming@[k as int] == after[i]@[partial@.len() as int]);
                    }
                }
                assert forall|back: Seq<u32>| #[trigger]
                    continues_via(d, partial@, back, incoming@, k + 1) implies lists(
                    after,
                    base,
                    back,
                ) by {
                    let j = choose|j: int|
                        0 <= j < k + 1 && #[trigger] incoming@[j] == back[partial@.len() as int];
                    if j < k {
                        assert(continues_via(d, partial@, back, incoming@, k as int));
                        assert(lists(before, base, back));
                        let i = choose|i: int| base <= i < before.len() && (#[trigger] before[i])@ == back;
                        assert(after[i] == before[i]);
                    } else {
                        lemma_branch_complete(d, partial@, back);
                        assert(continues(d, longer@, back));
                        assert(lists(after, mid, back));
                        let i = choose|i: int| mid <= i < after.len() && (#[trigger] after[i])@ == back;
                        assert(base <= i < after.len() && after[i]@ == back);
                    }
                }
                assert forall|i: int, j: int| base <= i < j < after.len() implies (#[trigger] after[i])@
                    != (#[trigger] after[j])@ by {
                    if j < mid {
                        assert(after[i] == before[i] && after[j] == before[j]);
                    } else if i < mid {
                        assert(after[i] == before[i]);
                        assert(continues_via(d, partial@, before[i]@, incoming@, k as int));
                        let x = choose|x: int|
                            0 <= x < k && #[trigger] incoming@[x] == before[i]@[partial@.len() as int];
                        assert(continues(d, longer@, after[j]@));
                        lemma_branch_sound(d, partial@, e, after[j]@);
                        assert(incoming@[x] != incoming@[k as int]);
                    }
                }
            }
            k += 1;
        }
        proof {
            assert forall|back: Seq<u32>| #[trigger] continues(d, partial@, back) implies lists(
                found@,
                base,
                back,
            ) by {
                lemma_must_step(d, partial@, back);
                let step = back[partial@.len() as int];
                assert(incoming@.contains(step));
                let j = choose|j: int| 0 <= j < incoming@.len() && incoming@[j] == step;
                assert(0 <= j < k && incoming@[j] == back[partial@.len() as int]);
                assert(continues_via(d, partial@, back, incoming@, k as int));
            }
            assert(incoming@.contains(incoming@[0]));
            assert(touches(dag.links(), incoming@[0] as int, cur as int, Direction::Incoming));
            assert forall|e: int| #[trigger]
                touches(dag.links(), e, cur as int, Direction::Incoming) implies all_reach(
                *dag,
                dag.links()[e].src,
                (steps - 1) as nat,
            ) by {
                assert(touches(dag.links(), (e as u32) as int, cur as int, Direction::Incoming));
                assert(incoming@.contains(e as u32));
                let j = choose|j: int| 0 <= j < incoming@.len() && incoming@[j] == e as u32;
                assert(all_reach(*dag, dag.links()[incoming@[j] as int].src, (steps - 1) as nat));
            }
        }
        Ok(())
    }

    /// Every walk from node `end` of `dag` against its edges to the first
    /// node, each once. A walk ends where it meets the first node.
    pub fn trails_to(dag: &Trace, end: u32) -> (trails: Result<Vec<Vec<u32>>, ExtractError>)
        requires
            dag.wf(),
            dag.nodes().contains_key(end as int),
        ensures
            match trails {
                Ok(found) => enumerates(dag.ending_at(end), Seq::empty(), found@, 0),
                Err(e) => e == ExtractError::MalformedTrace || e == ExtractError::CycleDetected,
            },
            trails is Ok <==> all_reach(*dag, end as int, dag.nodes().dom().len()),
    {
        let depth = graph_node_count(&dag.g);
        let mut found: Vec<Vec<u32>> = Vec::new();
        let empty: Vec<u32> = Vec::new();
        match CriticalPath::possible_paths_helper(dag, end, end, &empty, depth, &mut found) {
            Ok(()) => Ok(found),
            Err(e) => Err(e),
        }
    }

    /// Whether this path stems from the walk `origin.1` that `dag` has from
    /// its node `origin.0`: it is a simple chain, marked as hypothetical,
    /// each of its events is an event on the walk or the synthetic
    /// counterpart of one, the walk has no Exit that nothing explains, and
    /// the path of a calm walk is its copy, node by node and edge by edge.
    pub open spec fn stems_from(&self, dag: Trace, origin: (u32, Seq<u32>)) -> bool {
        &&& self.wf()
        &&& self.is_hypothetical
        &&& drawn_from(self.nodes(), trail_events(dag.ending_at(origin.0), origin.1))
        &&& !has_lost_exit(
            dag,
            trail_events(dag.ending_at(origin.0), origin.1),
            walk_steps(dag.ending_at(origin.0), origin.1),
        )
        &&& calm(dag, origin.0, origin.1) ==> self.copies(dag.ending_at(origin.0), origin.1)
            && self.hash is None && (dag.timed() ==> self.exact())
    }

    /// The hypothetical path along the walk `back` that `dag` has from its
    /// node `end`: the copy of the walk, with the nesting of spans restored
    /// and what stays unpaired removed. A walk that is calm comes back as
    /// its copy. No path comes back for a walk that is too long, that has
    /// an Exit which nothing explains, or that needs no synthetic event and
    /// fails the scan for incomplete spans.
    #[verifier::rlimit(100)]
    pub fn possible_path(dag: &Trace, end: u32, back: &Vec<u32>) -> (built: Result<
        CriticalPath,
        ExtractError,
    >)
        requires
            dag.wf(),
            is_trail(dag.ending_at(end), back@),
        ensures
            built is Ok ==> built->Ok_0.stems_from(*dag, (end, back@)),
            calm(*dag, end, back@) ==> built is Ok && built->Ok_0.copies(dag.ending_at(end), back@)
                && built->Ok_0.hash is None && (dag.timed() ==> built->Ok_0.exact()),
            back@.len() + 1 >= u32::MAX ==> built is Err,
            has_lost_exit(
                *dag,
                trail_events(dag.ending_at(end), back@),
                walk_steps(dag.ending_at(end), back@),
            ) ==> built is Err,
            quiet(
                *dag,
                trail_events(dag.ending_at(end), back@),
                walk_steps(dag.ending_at(end), back@),
            ) && sweep(trail_events(dag.ending_at(end), back@), back@.len() + 1 as int).failed
                ==> built is Err,
            built is Err ==> walk_fails(*dag, end, back@, built->Err_0),
    {
        let mut path = match CriticalPath::from_trail(dag, end, back, true) {
            Ok(path) => path,
            Err(e) => {
                return Err(e);
            },
        };
        let ghost walked = trail_events(dag.ending_at(end), back@);
        let ghost copied = path.nodes();
        proof {
            path.lemma_copies_events(dag.ending_at(end), back@);
            path.lemma_copies_all(dag.ending_at(end), back@);
            lemma_repair_kinds(*dag, walked, walk_steps(dag.ending_at(end), back@));
        }
        let ghost copy = path;
        match path.add_synthetic_nodes(dag, end, back) {
            Ok(()) => {
                proof {
                    lemma_none_lost(*dag, walk_steps(dag.ending_at(end), back@), copy, path);
                }
            },
            Err(e) => {
                return Err(e);
            },
        }
        let ghost repaired = path.nodes();
        proof {
            lemma_drawn(copied, repaired, walked);
            lemma_repair_kinds(*dag, walked, walk_steps(dag.ending_at(end), back@));
        }
        match path.filter_incomplete_spans() {
            Ok(()) => {},
            Err(e) => {
                return Err(e);
            },
        }
        proof {
            lemma_drawn_part(repaired, path.nodes(), walked);
        }
        Ok(path)
    }

    /// Every critical path that `dag` could have: from each node that no
    /// edge leaves, every walk against the edges to the first node becomes
    /// a path, with the nesting of spans restored and what stays unpaired
    /// removed. The number of walks can grow exponentially with the number
    /// of joins; callers bound the trace. The paths that come back stem
    /// from those walks, one from each. They come back only where every
    /// walk from such a node leads to the first node, and whenever in
    /// addition every walk is calm.
    pub fn all_possible_paths(dag: &Trace) -> (paths: Result<Vec<CriticalPath>, ExtractError>)
        requires
            dag.wf(),
        ensures
            paths is Ok ==> has_one_per_walk(*dag, paths->Ok_0@),
            all_walks_calm(*dag) ==> paths is Ok,
            paths is Ok ==> all_sinks_reach(*dag),
            paths is Err ==> !all_sinks_reach(*dag) || exists|end: u32, back: Seq<u32>|
                #![trigger is_origin(*dag, (end, back))]
                is_origin(*dag, (end, back)) && walk_fails(*dag, end, back, paths->Err_0),
    {
        let mut result: Vec<CriticalPath> = Vec::new();
        let ghost mut origins: Seq<(u32, Seq<u32>)> = Seq::empty();
        let ends = dag.possible_end_nodes();
        let mut n: usize = 0;
        while n < ends.len()
            invariant
                dag.wf(),
                0 <= n <= ends@.len(),
                ends@.no_duplicates(),
                forall|m: u32| #[trigger]
                    ends@.contains(m) <==> dag.nodes().contains_key(m as int) && dag.is_sink(m as int),
                forall|x: int|
                    0 <= x < n ==> all_reach(
                        *dag,
                        (#[trigger] ends@[x]) as int,
                        dag.nodes().dom().len(),
                    ),
                origins.len() == result@.len(),
                forall|i: int|
                    0 <= i < result@.len() ==> (#[trigger] result@[i]).stems_from(*dag, origins[i]),
                forall|i: int|
                    0 <= i < origins.len() ==> is_origin(*dag, #[trigger] origins[i]) && exists|x: int|
                        0 <= x < n && #[trigger] ends@[x] == origins[i].0,
                forall|x: int, back: Seq<u32>|
                    0 <= x < n && #[trigger] continues(dag.ending_at(ends@[x]), Seq::empty(), back)
                        ==> origins.contains((ends@[x], back)),
                origins.no_duplicates(),
            decreases ends@.len() - n,
        {
            let end = ends[n];
            assert(ends@.contains(ends@[n as int]));
            let trails = match CriticalPath::trails_to(dag, end) {
                Ok(trails) => trails,
                Err(e) => {
                    proof {
                        assert(dag.nodes().contains_key(end as int) && dag.is_sink(end as int));
                        assert(!all_sinks_reach(*dag));
                    }
                    return Err(e);
                },
            };
            let ghost base = origins.len() as int;
            let ghost first = origins;
            let mut t: usize = 0;
            while t < trails.len()
                invariant
                    dag.wf(),
                    0 <= t <= trails@.len(),
                    0 <= n < ends@.len(),
                    end == ends@[n as int],
                    dag.nodes().contains_key(end as int) && dag.is_sink(end as int),
                    enumerates(dag.ending_at(end), Seq::empty(), trails@, 0),
                    origins.len() == result@.len(),
                    origins.len() == base + t,
                    base == first.len(),
                    forall|i: int| 0 <= i < base ==> origins[i] == first[i],
                    forall|i: int|
                        base <= i < base + t ==> #[trigger] origins[i] == (end, trails@[i - base]@),
                    forall|i: int|
                        0 <= i < result@.len() ==> (#[trigger] result@[i]).stems_from(*dag, origins[i]),
                decreases trails@.len() - t,
            {
                assert(continues(dag.ending_at(end), Seq::empty(), trails@[t as int]@));
                let path = match CriticalPath::possible_path(dag, end, &trails[t]) {
                    Ok(path) => path,
                    Err(e) => {
                        proof {
                            assert(is_origin(*dag, (end, trails@[t as int]@)));
                            assert(!calm(*dag, end, trails@[t as int]@));
                        }
                        return Err(e);
                    },
                };
                result.push(path);
                proof {
                    origins = origins.push((end, trails@[t as int]@));
                }
                t += 1;
            }
            proof {
                assert forall|i: int| 0 <= i < origins.len() implies is_origin(
                    *dag,
                    #[trigger] origins[i],
                ) && exists|x: int| 0 <= x < n + 1 && #[trigger] ends@[x] == origins[i].0 by {
                    if i < base {
                        assert(origins[i] == first[i]);
                        let x = choose|x: int| 0 <= x < n && #[trigger] ends@[x] == first[i].0;
                        assert(0 <= x < n + 1 && ends@[x] == origins[i].0);
                    } else {
                        assert(origins[i] == (end, trails@[i - base]@));
                        assert(continues(dag.ending_at(end), Seq::empty(), trails@[i - base]@));
                        assert(ends@[n as int] == origins[i].0);
                    }
                }
                assert forall|x: int, back: Seq<u32>|
                    0 <= x < n + 1 && #[trigger] continues(
                        dag.ending_at(ends@[x]),
                        Seq::empty(),
                        back,
                    ) implies origins.contains((ends@[x], back)) by {
                    if x < n {
                        assert(first.contains((ends@[x], back)));
                        let i = choose|i: int| 0 <= i < first.len() && first[i] == (ends@[x], back);
                        assert(origins[i] == (ends@[x], back));
                    } else {
                        assert(lists(trails@, 0, back));
                        let q = choose|q: int| 0 <= q < trails@.len() && (#[trigger] trails@[q])@ == back;
                        assert(origins[base + q] == (end, trails@[q]@));
                    }
                }
                assert forall|i: int, j: int|
                    0 <= i < origins.len() && 0 <= j < origins.len() && i != j implies origins[i]
                    != origins[j] by {
                    if i < base && j < base {
                        assert(first[i] != first[j]);
                    } else if i >= base && j >= base {
                        assert(origins[i] == (end, trails@[i - base]@));
                        assert(origins[j] == (end, trails@[j - base]@));
                        if i < j {
                            assert(trails@[i - base]@ != trails@[j - base]@);
                        } else {
                            assert(trails@[j - base]@ != trails@[i - base]@);
                        }
                    } else {
                        let lo = if i < base { i } else { j };
                        let hi = if i < base { j } else { i };
                        assert(origins[lo] == first[lo]);
                        let x = choose|x: int| 0 <= x < n && #[trigger] ends@[x] == first[lo].0;
                        assert(origins[hi] == (end, trails@[hi - base]@));
                        assert(ends@[x] != ends@[n as int]);
                    }
                }
            }
            n += 1;
        }
        proof {
            assert forall|end: u32, back: Seq<u32>|
                dag.nodes().contains_key(end as int) && dag.is_sink(end as int) && #[trigger] continues(
                    dag.ending_at(end),
                    Seq::empty(),
                    back,
                ) implies origins.contains((end, back)) by {
                assert(ends@.contains(end));
                let x = choose|x: int| 0 <= x < ends@.len() && ends@[x] == end;
                assert(continues(dag.ending_at(ends@[x]), Seq::empty(), back));
            }
            assert(one_per_walk(*dag, result@, origins));
            assert(has_one_per_walk(*dag, result@));
            assert forall|end: u32| #[trigger]
                dag.nodes().contains_key(end as int) && dag.is_sink(end as int) implies all_reach(
                *dag,
                end as int,
                dag.nodes().dom().len(),
            ) by {
                assert(ends@.contains(end));
                let x = choose|x: int| 0 <= x < ends@.len() && ends@[x] == end;
                assert(all_reach(*dag, ends@[x] as int, dag.nodes().dom().len()));
            }
        }
        Ok(result)
    }
}

} // verus!
