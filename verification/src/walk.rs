//! Walks through a trace against its edges, from a last node to the first.

use vstd::prelude::*;
use crate::event::Event;
use crate::graph::{touches, Direction};
use crate::trace::Trace;

verus! {

/// The node that a backward walk over the edges `back` has reached after
/// `t` of them, starting from the trace's last node.
pub open spec fn trail_node(dag: Trace, back: Seq<u32>, t: int) -> int {
    if t <= 0 {
        dag.end_node as int
    } else {
        dag.links()[back[t - 1] as int].src
    }
}

/// Whether `back` is a walk against the edges of `dag` that starts at its
/// last node: each edge enters the node that the walk has reached.
pub open spec fn is_partial_trail(dag: Trace, back: Seq<u32>) -> bool {
    &&& dag.nodes().contains_key(dag.end_node as int)
    &&& forall|t: int|
        0 <= t < back.len() ==> dag.links().contains_key(#[trigger] back[t] as int)
            && dag.links()[back[t] as int].dst == trail_node(dag, back, t)
}

/// Whether `back` is a walk against the edges of `dag` from its last node
/// to its first.
pub open spec fn is_trail(dag: Trace, back: Seq<u32>) -> bool {
    &&& is_partial_trail(dag, back)
    &&& trail_node(dag, back, back.len() as int) == dag.start_node
}

/// The events that the walk `back` passed in `dag`, from the trace's first
/// node to its last.
pub open spec fn trail_events(dag: Trace, back: Seq<u32>) -> Seq<Event> {
    Seq::new(back.len() + 1, |j: int| dag.nodes()[trail_node(dag, back, back.len() - j)])
}

/// Whether every edge of `back` comes from a latest predecessor.
pub open spec fn all_latest(dag: Trace, back: Seq<u32>) -> bool {
    forall|t: int| 0 <= t < back.len() ==> dag.is_latest(#[trigger] back[t] as int)
}

/// Distinct elements of a finite set are no more than the set holds.
pub proof fn lemma_distinct_fit(seen: Seq<int>, all: Set<int>)
    requires
        seen.no_duplicates(),
        all.finite(),
        forall|j: int| 0 <= j < seen.len() ==> all.contains(#[trigger] seen[j]),
    ensures
        seen.len() <= all.len(),
{
    vstd::seq_lib::seq_to_set_is_finite(seen);
    seen.unique_seq_to_set();
    assert(seen.to_set().subset_of(all)) by {
        assert forall|x: int| seen.to_set().contains(x) implies all.contains(x) by {
            assert(seen.contains(x));
            let j = choose|j: int| 0 <= j < seen.len() && seen[j] == x;
            assert(all.contains(seen[j]));
        }
    }
    vstd::set_lib::lemma_len_subset(seen.to_set(), all);
}

/// A copy of a list of edges.
pub fn copy_edges(edges: &Vec<u32>) -> (copy: Vec<u32>)
    ensures
        copy@ == edges@,
{
    let mut copy: Vec<u32> = Vec::new();
    let mut k: usize = 0;
    while k < edges.len()
        invariant
            0 <= k <= edges@.len(),
            copy@ == edges@.subrange(0, k as int),
        decreases edges@.len() - k,
    {
        copy.push(edges[k]);
        assert(copy@ =~= edges@.subrange(0, k + 1));
        k += 1;
    }
    assert(copy@ =~= edges@);
    copy
}

/// Whether every walk from node `cur` against the edges meets the first
/// node, after `steps` edges at most, and never ends before it at a node
/// that no edge enters.
pub open spec fn all_reach(dag: Trace, cur: int, steps: nat) -> bool
    decreases steps,
{
    cur == dag.start_node || (steps > 0 && (exists|e: int| #[trigger]
        touches(dag.links(), e, cur, Direction::Incoming)) && forall|e: int| #[trigger]
        touches(dag.links(), e, cur, Direction::Incoming) ==> all_reach(
            dag,
            dag.links()[e].src,
            (steps - 1) as nat,
        ))
}

/// Whether `back` is a walk from the last node to the first that begins
/// with `partial` and, behind `partial`, meets the first node only where
/// it ends.
pub open spec fn continues(dag: Trace, partial: Seq<u32>, back: Seq<u32>) -> bool {
    &&& is_trail(dag, back)
    &&& partial.is_prefix_of(back)
    &&& forall|t: int|
        partial.len() <= t < back.len() ==> #[trigger] trail_node(dag, back, t) != dag.start_node
}

/// Whether `back` is among the walks of `found` from position `from` on.
pub open spec fn lists(found: Seq<Vec<u32>>, from: int, back: Seq<u32>) -> bool {
    exists|i: int| from <= i < found.len() && (#[trigger] found[i])@ == back
}

/// Whether `back` continues `partial` with one of the first `k` edges of
/// `edges`.
pub open spec fn continues_via(
    dag: Trace,
    partial: Seq<u32>,
    back: Seq<u32>,
    edges: Seq<u32>,
    k: int,
) -> bool {
    &&& continues(dag, partial, back)
    &&& back.len() > partial.len()
    &&& exists|j: int| 0 <= j < k && #[trigger] edges[j] == back[partial.len() as int]
}

/// Whether the walks of `found` from position `from` on are the walks that
/// continue `partial`: each of them, and each once.
pub open spec fn enumerates(dag: Trace, partial: Seq<u32>, found: Seq<Vec<u32>>, from: int) -> bool {
    &&& forall|i: int| from <= i < found.len() ==> continues(dag, partial, (#[trigger] found[i])@)
    &&& forall|back: Seq<u32>| #[trigger] continues(dag, partial, back) ==> lists(found, from, back)
    &&& forall|i: int, j: int|
        from <= i < j < found.len() ==> (#[trigger] found[i])@ != (#[trigger] found[j])@
}

/// A walk that continues `partial` with edge `e` continues `partial`.
pub proof fn lemma_branch_sound(dag: Trace, partial: Seq<u32>, e: u32, back: Seq<u32>)
    requires
        is_partial_trail(dag, partial),
        trail_node(dag, partial, partial.len() as int) != dag.start_node,
        continues(dag, partial.push(e), back),
    ensures
        continues(dag, partial, back),
        back.len() > partial.len(),
        back[partial.len() as int] == e,
{
    let longer = partial.push(e);
    let n = partial.len() as int;
    assert(longer =~= back.subrange(0, n + 1));
    assert(back[n] == longer[n]);
    assert(partial =~= back.subrange(0, n)) by {
        assert forall|t: int| 0 <= t < n implies partial[t] == back.subrange(0, n)[t] by {
            assert(longer[t] == back.subrange(0, n + 1)[t]);
        }
    }
    assert forall|t: int| n <= t < back.len() implies #[trigger] trail_node(dag, back, t)
        != dag.start_node by {
        if t == n {
            if n > 0 {
                assert(back[n - 1] == longer[n - 1]);
            }
            assert(trail_node(dag, back, n) == trail_node(dag, partial, n));
        }
    }
}

/// A walk that continues `partial` and goes on with edge `e` continues
/// `partial` with `e`.
pub proof fn lemma_branch_complete(dag: Trace, partial: Seq<u32>, back: Seq<u32>)
    requires
        continues(dag, partial, back),
        back.len() > partial.len(),
    ensures
        continues(dag, partial.push(back[partial.len() as int]), back),
{
    let n = partial.len() as int;
    let longer = partial.push(back[n]);
    assert(longer =~= back.subrange(0, n + 1)) by {
        assert forall|t: int| 0 <= t < n + 1 implies longer[t] == back.subrange(0, n + 1)[t] by {
            if t < n {
                assert(partial[t] == back.subrange(0, n)[t]);
            }
        }
    }
}

/// A walk that continues `partial` from a node other than the first goes
/// on with an edge that enters that node.
pub proof fn lemma_must_step(dag: Trace, partial: Seq<u32>, back: Seq<u32>)
    requires
        continues(dag, partial, back),
        trail_node(dag, partial, partial.len() as int) != dag.start_node,
    ensures
        back.len() > partial.len(),
        touches(
            dag.links(),
            back[partial.len() as int] as int,
            trail_node(dag, partial, partial.len() as int),
            Direction::Incoming,
        ),
{
    let n = partial.len() as int;
    if n > 0 {
        assert(partial[n - 1] == back.subrange(0, n)[n - 1]);
    }
    assert(trail_node(dag, back, n) == trail_node(dag, partial, n));
    if back.len() == n {
        assert(false);
    }
    assert(dag.links().contains_key(back[n] as int));
}

/// At the first node the only walk that continues `partial` is `partial`.
pub proof fn lemma_at_start(dag: Trace, partial: Seq<u32>, back: Seq<u32>)
    requires
        continues(dag, partial, back),
        trail_node(dag, partial, partial.len() as int) == dag.start_node,
    ensures
        back == partial,
{
    let n = partial.len() as int;
    if back.len() > n {
        if n > 0 {
            assert(partial[n - 1] == back.subrange(0, n)[n - 1]);
        }
        assert(trail_node(dag, back, n) == trail_node(dag, partial, n));
        assert(false);
    }
    assert(back =~= partial);
}

/// Whether `origin` is a walk of `dag`: from a node that no edge leaves,
/// against the edges, to the first node and no further.
pub open spec fn is_origin(dag: Trace, origin: (u32, Seq<u32>)) -> bool {
    &&& dag.nodes().contains_key(origin.0 as int)
    &&& dag.is_sink(origin.0 as int)
    &&& continues(dag.ending_at(origin.0), Seq::empty(), origin.1)
}

} // verus!
