//! Repair of span nesting on a critical path: synthetic events for spans
//! that begin or end off the path, and removal of what stays unpaired.

use vstd::prelude::*;
use crate::chain::{
    between, spliced_weights, cut, keeps_order, lemma_between_new, lemma_between_stays, lemma_chain_sizes,
    lemma_insert_index, lemma_order_grows, lemma_order_kept, lemma_order_same,
};
use crate::critical::{lemma_last_is_end, CriticalPath};
use crate::error::ExtractError;
use crate::event::{Event, EventType, IDType, IdKey};
use crate::graph::{graph_node_count, graph_node_weight, touches, Direction};
use crate::pairing::{
    adds_twins, close_first, incomplete_spans, lemma_close_at, lemma_close_none,
    lemma_observed_insert, lemma_twin_added, mirrors, observed, sweep, taken_from, twin_of,
};
use crate::trace::{lemma_kept_events, Trace};
use crate::walk::{is_partial_trail, trail_node};

verus! {

/// The positions of `open` that are left when the events with the ids
/// `rest` have each closed the first span of their id.
pub open spec fn open_after(spans: Seq<Event>, open: Seq<usize>, rest: Seq<IdKey>) -> Seq<usize>
    decreases rest.len(),
{
    if rest.len() == 0 {
        open
    } else {
        open_after(spans, close_first(spans, open, rest[0]), rest.drop_first())
    }
}

/// The positions of `open` whose span can be reached from node `n` of
/// `dag`, in order.
pub open spec fn reaching(dag: Trace, spans: Seq<Event>, open: Seq<usize>, n: int) -> Seq<usize>
    decreases open.len(),
{
    if open.len() == 0 {
        open
    } else if dag.found_within(
        spans[open.last() as int].trace_id@,
        n,
        Direction::Outgoing,
        dag.nodes().dom().len(),
    ) {
        reaching(dag, spans, open.drop_last(), n).push(open.last())
    } else {
        reaching(dag, spans, open.drop_last(), n)
    }
}

/// Whether edge `e` of `dag` does not come from node `prev` and leads back
/// to an event of span `id`.
pub open spec fn branches_back(dag: Trace, e: int, prev: u32, id: IdKey) -> bool {
    dag.links()[e].src != prev && dag.found_within(
        id,
        dag.links()[e].src,
        Direction::Incoming,
        dag.nodes().dom().len(),
    )
}

/// Whether a branch that is not on the path joins it at position `t` and
/// leads back to an event of span `id`.
pub open spec fn joins_span(dag: Trace, dag_steps: Seq<u32>, t: int, id: IdKey) -> bool {
    exists|e: int| #[trigger]
        touches(dag.links(), e, dag_steps[t] as int, Direction::Incoming) && branches_back(
            dag,
            e,
            dag_steps[t - 1],
            id,
        )
}

/// The last position up to `at` at which a branch joins that leads back to
/// span `id`; 0 where there is none.
pub open spec fn nearest_join(dag: Trace, dag_steps: Seq<u32>, at: int, id: IdKey) -> int
    decreases at,
{
    if at <= 0 {
        0
    } else if joins_span(dag, dag_steps, at, id) {
        at
    } else {
        nearest_join(dag, dag_steps, at - 1, id)
    }
}

/// Whether an event of `stack` belongs to span `id`.
pub open spec fn has_open(stack: Seq<Event>, id: IdKey) -> bool {
    exists|k: int| 0 <= k < stack.len() && (#[trigger] stack[k]).trace_id@ == id
}

/// `stack` without the last of its events that belongs to span `id`.
pub open spec fn close_last(stack: Seq<Event>, id: IdKey) -> Seq<Event>
    decreases stack.len(),
{
    if stack.len() == 0 {
        stack
    } else if stack.last().trace_id@ == id {
        stack.drop_last()
    } else {
        close_last(stack.drop_last(), id).push(stack.last())
    }
}

/// Where the event at position `k` is the last of span `id`, closing the
/// last of that span takes it out.
pub proof fn lemma_close_last_at(stack: Seq<Event>, id: IdKey, k: int)
    requires
        0 <= k < stack.len(),
        stack[k].trace_id@ == id,
        forall|x: int| k < x < stack.len() ==> (#[trigger] stack[x]).trace_id@ != id,
    ensures
        close_last(stack, id) == stack.remove(k),
    decreases stack.len(),
{
    if k == stack.len() - 1 {
        assert(stack.remove(k) =~= stack.drop_last());
    } else {
        lemma_close_last_at(stack.drop_last(), id, k);
        assert(stack.drop_last().remove(k).push(stack.last()) =~= stack.remove(k));
    }
}

/// Where no event belongs to span `id`, closing the last of that span
/// changes nothing.
pub proof fn lemma_close_last_none(stack: Seq<Event>, id: IdKey)
    requires
        forall|x: int| 0 <= x < stack.len() ==> (#[trigger] stack[x]).trace_id@ != id,
    ensures
        close_last(stack, id) == stack,
    decreases stack.len(),
{
    if stack.len() > 0 {
        lemma_close_last_none(stack.drop_last(), id);
        assert(stack.drop_last().push(stack.last()) =~= stack);
    }
}

/// Closes the latest open Entry of span `id`: takes the last event of that
/// span off the stack. Returns whether there was one.
pub fn close_latest(active: &mut Vec<Event>, id: &IDType) -> (closed: bool)
    ensures
        closed == has_open(old(active)@, id@),
        final(active)@ == close_last(old(active)@, id@),
        forall|x: int|
            0 <= x < final(active)@.len() ==> exists|y: int|
                0 <= y < old(active)@.len() && #[trigger] old(active)@[y] == #[trigger] final(active)@[x],
{
    let ghost stack = active@;
    let mut k: usize = active.len();
    while k > 0
        invariant
            0 <= k <= active@.len(),
            active@ == stack,
            stack == old(active)@,
            forall|x: int| k <= x < stack.len() ==> (#[trigger] stack[x]).trace_id@ != id@,
        decreases k,
    {
        k -= 1;
        if active[k].trace_id.same_as(id) {
            proof {
                lemma_close_last_at(stack, id@, k as int);
                assert(stack[k as int].trace_id@ == id@);
            }
            active.remove(k);
            proof {
                assert forall|x: int| 0 <= x < active@.len() implies exists|y: int|
                    0 <= y < stack.len() && #[trigger] stack[y] == #[trigger] active@[x] by {
                    let y = if x < k { x } else { x + 1 };
                    assert(stack[y] == active@[x]);
                }
            }
            return true;
        }
    }
    proof {
        lemma_close_last_none(stack, id@);
        assert forall|x: int| 0 <= x < active@.len() implies exists|y: int|
            0 <= y < stack.len() && #[trigger] stack[y] == #[trigger] active@[x] by {
            assert(stack[x] == active@[x]);
        }
    }
    false
}

/// The Entries that are open before the event at position `j`: each Entry
/// before it opened its span, and each Exit before it closed the latest
/// open Entry of its span.
pub open spec fn active_at(events: Seq<Event>, j: int) -> Seq<Event>
    decreases j,
{
    if j <= 0 {
        Seq::empty()
    } else {
        match events[j - 1].variant {
            EventType::Entry => active_at(events, j - 1).push(events[j - 1]),
            EventType::Exit => close_last(active_at(events, j - 1), events[j - 1].trace_id@),
            EventType::Annotation => active_at(events, j - 1),
        }
    }
}

/// Whether the event at position `j` is an Exit whose span is not open.
pub open spec fn orphan(events: Seq<Event>, j: int) -> bool {
    events[j].variant == EventType::Exit && !has_open(active_at(events, j), events[j].trace_id@)
}

/// The span ids of the events from position `j` on.
pub open spec fn ids_behind(events: Seq<Event>, j: int) -> Seq<IdKey> {
    Seq::new((events.len() - j) as nat, |t: int| events[j + t].trace_id@)
}

/// Of the spans `active`, by position, those that the events with the ids
/// `rest` leave open and that can be reached from node `dst` of `dag`.
pub open spec fn unfinished_behind(dag: Trace, active: Seq<Event>, rest: Seq<IdKey>, dst: int) -> Seq<
    usize,
> {
    reaching(dag, active, open_after(active, Seq::new(active.len(), |q: int| q as usize), rest), dst)
}

/// Of the spans that are open behind position `j`, those that the rest of
/// the path leaves open and that can be reached from node `dst` of `dag`.
pub open spec fn unfinished_at(dag: Trace, events: Seq<Event>, j: int, dst: int) -> Seq<usize> {
    unfinished_behind(dag, active_at(events, j + 1), ids_behind(events, j + 1), dst)
}

/// Whether edge `e` leaves the trace's node at position `j` of the walk
/// and does not lead to the walk's next node.
pub open spec fn is_sibling(dag: Trace, dsteps: Seq<u32>, j: int, e: int) -> bool {
    touches(dag.links(), e, dsteps[j] as int, Direction::Outgoing) && dag.links()[e].dst
        != dsteps[j + 1]
}

/// Whether a branch off the path at position `j` leads to a span that is
/// open there and that the rest of the path leaves open.
pub open spec fn needs_exit(dag: Trace, events: Seq<Event>, dsteps: Seq<u32>, j: int) -> bool {
    exists|e: int|
        is_sibling(dag, dsteps, j, e) && #[trigger] unfinished_at(
            dag,
            events,
            j,
            dag.links()[e].dst,
        ).len() > 0
}

/// Whether the path needs a synthetic event at position `j`: an Entry for
/// an Exit whose span is not open, or an Exit for a span that a branch
/// leads to.
pub open spec fn repair_at(dag: Trace, events: Seq<Event>, dsteps: Seq<u32>, j: int) -> bool {
    orphan(events, j) || (j + 1 < events.len() && needs_exit(dag, events, dsteps, j))
}

/// Whether the path needs no synthetic event.
pub open spec fn quiet(dag: Trace, events: Seq<Event>, dsteps: Seq<u32>) -> bool {
    forall|j: int| 0 <= j < events.len() ==> !#[trigger] repair_at(dag, events, dsteps, j)
}

/// The nodes of `dag` that the walk `back` passes, from the first node to
/// the node that the walk starts from.
pub open spec fn walk_steps(dag: Trace, back: Seq<u32>) -> Seq<u32> {
    Seq::new(back.len() + 1, |j: int| trail_node(dag, back, back.len() - j) as u32)
}

/// Whether `after` holds, on a node that `before` lacks, the synthetic
/// counterpart of `template`, between the nodes that stand at the positions
/// `at` and `at + 1` of `before`.
pub open spec fn twin_added(before: CriticalPath, after: CriticalPath, at: int, template: Event) -> bool {
    exists|n: int| #[trigger]
        after.nodes().contains_key(n) && !before.nodes().contains_key(n) && twin_of(
            after.nodes()[n],
            template,
        ) && between(after.order(), before.order()[at], n, before.order()[at + 1])
}

/// A counterpart that was added stays where it is when one more node is
/// put into the path.
pub proof fn lemma_twin_stays(
    before: CriticalPath,
    mid: CriticalPath,
    after: CriticalPath,
    at: int,
    template: Event,
    p: int,
    idx: int,
)
    requires
        twin_added(before, mid, at, template),
        mid.nodes().submap_of(after.nodes()),
        mid.order().no_duplicates(),
        after.order().no_duplicates(),
        0 <= p <= mid.order().len(),
        after.order() == mid.order().insert(p, idx),
    ensures
        twin_added(before, after, at, template),
{
    let n = choose|n: int| #[trigger]
        mid.nodes().contains_key(n) && !before.nodes().contains_key(n) && twin_of(
            mid.nodes()[n],
            template,
        ) && between(mid.order(), before.order()[at], n, before.order()[at + 1]);
    assert(mid.nodes().dom().contains(n));
    assert(after.nodes().dom().contains(n) && after.nodes()[n] == mid.nodes()[n]);
    lemma_between_stays(mid.order(), p, idx, before.order()[at], n, before.order()[at + 1]);
    assert(after.nodes().contains_key(n) && !before.nodes().contains_key(n) && twin_of(
        after.nodes()[n],
        template,
    ) && between(after.order(), before.order()[at], n, before.order()[at + 1]));
}

/// Whether position `j` has got what it needs: an Exit whose span is not
/// open has a joining branch that explains it and a synthetic Entry
/// between the node before that join and the node at it; each span that a
/// branch off the path leads to has a synthetic Exit between the node at
/// `j` and the next.
pub open spec fn repaired_at(
    dag: Trace,
    dsteps: Seq<u32>,
    before: CriticalPath,
    after: CriticalPath,
    j: int,
) -> bool {
    &&& orphan(before.events(), j) ==> nearest_join(
        dag,
        dsteps,
        j,
        before.events()[j].trace_id@,
    ) > 0 && twin_added(
        before,
        after,
        nearest_join(dag, dsteps, j, before.events()[j].trace_id@) - 1,
        before.events()[j],
    )
    &&& j + 1 < before.events().len() ==> forall|e: int, x: int|
        is_sibling(dag, dsteps, j, e) && 0 <= x < unfinished_at(
            dag,
            before.events(),
            j,
            dag.links()[e].dst,
        ).len() ==> twin_added(
            before,
            after,
            j,
            active_at(before.events(), j + 1)[(#[trigger] unfinished_at(
                dag,
                before.events(),
                j,
                dag.links()[e].dst,
            )[x]) as int],
        )
}

/// Whether each of the first `n` positions has got what it needs.
pub open spec fn repaired(
    dag: Trace,
    dsteps: Seq<u32>,
    before: CriticalPath,
    after: CriticalPath,
    n: int,
) -> bool {
    forall|j: int| 0 <= j < n ==> #[trigger] repaired_at(dag, dsteps, before, after, j)
}

/// What positions have got stays when one more node is put into the path.
pub proof fn lemma_repaired_grows(
    dag: Trace,
    dsteps: Seq<u32>,
    before: CriticalPath,
    mid: CriticalPath,
    after: CriticalPath,
    n: int,
    p: int,
    idx: int,
)
    requires
        repaired(dag, dsteps, before, mid, n),
        mid.nodes().submap_of(after.nodes()),
        mid.order().no_duplicates(),
        after.order().no_duplicates(),
        0 <= p <= mid.order().len(),
        after.order() == mid.order().insert(p, idx),
    ensures
        repaired(dag, dsteps, before, after, n),
{
    let events = before.events();
    assert forall|j: int| 0 <= j < n implies #[trigger] repaired_at(dag, dsteps, before, after, j) by {
        assert(repaired_at(dag, dsteps, before, mid, j));
        if orphan(events, j) {
            lemma_twin_stays(
                before,
                mid,
                after,
                nearest_join(dag, dsteps, j, events[j].trace_id@) - 1,
                events[j],
                p,
                idx,
            );
        }
        if j + 1 < events.len() {
            assert forall|e: int, x: int|
                is_sibling(dag, dsteps, j, e) && 0 <= x < unfinished_at(
                    dag,
                    events,
                    j,
                    dag.links()[e].dst,
                ).len() implies twin_added(
                before,
                after,
                j,
                active_at(events, j + 1)[(#[trigger] unfinished_at(
                    dag,
                    events,
                    j,
                    dag.links()[e].dst,
                )[x]) as int],
            ) by {
                lemma_twin_stays(
                    before,
                    mid,
                    after,
                    j,
                    active_at(events, j + 1)[unfinished_at(dag, events, j, dag.links()[e].dst)[x] as int],
                    p,
                    idx,
                );
            }
        }
    }
}

/// Whether no event is timestamped before an event that stands before it.
pub open spec fn steady(events: Seq<Event>) -> bool {
    forall|a: int, b: int|
        0 <= a < b < events.len() ==> (#[trigger] events[a]).timestamp
            <= (#[trigger] events[b]).timestamp
}

/// A finite map that holds two keys holds two entries at least.
pub proof fn lemma_two_nodes(nodes: Map<int, Event>, a: int, b: int)
    requires
        nodes.dom().finite(),
        nodes.contains_key(a),
        nodes.contains_key(b),
        a != b,
    ensures
        nodes.dom().len() >= 2,
{
    let rest = nodes.dom().remove(a);
    assert(rest.contains(b));
    assert(rest.len() >= 1) by {
        if rest.len() == 0 {
            assert(rest =~= Set::empty());
        }
    }
}

/// Where two neighbours on what is left of a path stand in the wrong order
/// of time, the path was not steady.
pub proof fn lemma_not_steady(first: CriticalPath, now: CriticalPath, at: int)
    requires
        first.wf(),
        now.wf(),
        now.nodes().submap_of(first.nodes()),
        keeps_order(now.order(), first.order()),
        0 < at < now.order().len() - 1,
        now.nodes()[now.order()[at + 1]].timestamp < now.nodes()[now.order()[at - 1]].timestamp,
    ensures
        !steady(first.events()),
{
    let x = now.order()[at - 1];
    let y = now.order()[at + 1];
    assert(now.nodes().contains_key(x) && now.nodes().contains_key(y));
    assert(now.nodes().dom().contains(x) && now.nodes().dom().contains(y));
    assert(first.order().contains(x) && first.order().contains(y));
    let a = first.order().index_of(x);
    let b = first.order().index_of(y);
    assert(0 <= a < first.order().len() && first.order()[a] == x);
    assert(0 <= b < first.order().len() && first.order()[b] == y);
    assert(a < b);
    assert(first.events()[a] == first.nodes()[x]);
    assert(first.events()[b] == first.nodes()[y]);
    assert(first.events()[a].timestamp > first.events()[b].timestamp);
}

/// Whether some position of the path calls for a synthetic event that can
/// be placed: an Exit without open Entry that a joining branch explains,
/// or a span that a branch off the path leads to.
pub open spec fn needs_splice(dag: Trace, events: Seq<Event>, dsteps: Seq<u32>) -> bool {
    exists|j: int| 0 <= j < events.len() && #[trigger] splice_at(dag, events, dsteps, j)
}

/// Whether position `j` calls for a synthetic event that can be placed.
pub open spec fn splice_at(dag: Trace, events: Seq<Event>, dsteps: Seq<u32>, j: int) -> bool {
    (orphan(events, j) && nearest_join(dag, dsteps, j, events[j].trace_id@) > 0) || (j + 1
        < events.len() && needs_exit(dag, events, dsteps, j))
}

/// Whether some Exit of the path has no open Entry and no joining branch
/// that explains it.
pub open spec fn has_lost_exit(dag: Trace, events: Seq<Event>, dsteps: Seq<u32>) -> bool {
    exists|j: int|
        0 <= j < events.len() && #[trigger] orphan(events, j) && nearest_join(
            dag,
            dsteps,
            j,
            events[j].trace_id@,
        ) == 0
}

/// Whether the path cannot take a synthetic event behind each of its
/// nodes: it has as many nodes as a graph can index, or one of its events
/// has the largest timestamp there is.
pub open spec fn is_full(path: CriticalPath) -> bool {
    path.order().len() >= u32::MAX || exists|n: int| #[trigger]
        path.nodes().contains_key(n) && path.nodes()[n].timestamp == i64::MAX
}

/// The nearest join lies at a position of the walk, or is 0.
pub proof fn lemma_join_in_range(dag: Trace, dsteps: Seq<u32>, at: int, id: IdKey)
    requires
        0 <= at,
    ensures
        0 <= nearest_join(dag, dsteps, at, id) <= at,
    decreases at,
{
    if at > 0 && !joins_span(dag, dsteps, at, id) {
        lemma_join_in_range(dag, dsteps, at - 1, id);
    }
}

impl CriticalPath {
    /// Whether every node of `steps` is a node of the path.
    pub open spec fn holds(&self, steps: Seq<u32>) -> bool {
        forall|t: int| 0 <= t < steps.len() ==> self.nodes().contains_key(#[trigger] steps[t] as int)
    }

    /// Whether no node of `steps` but the last is the path's last node.
    pub open spec fn ends_after(&self, steps: Seq<u32>) -> bool {
        forall|t: int| 0 <= t < steps.len() - 1 ==> #[trigger] steps[t] != self.end_node
    }

    /// The span ids of the events at the nodes `steps` from position `from`
    /// on.
    pub open spec fn ids_from(&self, steps: Seq<u32>, from: int) -> Seq<IdKey> {
        Seq::new(
            (steps.len() - from) as nat,
            |t: int| self.nodes()[steps[from + t] as int].trace_id@,
        )
    }

    /// Of the spans in `spans`, by position, those that are still open after
    /// the rest of the path, `steps` from position `from` on, has closed
    /// what it closes, and whose span can be reached from node `dag_nidx`
    /// of `dag`. Each event on the rest of the path closes the first span
    /// that is still open and shares its span id.
    pub fn get_unfinished(
        &self,
        spans: &Vec<Event>,
        steps: &Vec<u32>,
        from: usize,
        dag_nidx: u32,
        dag: &Trace,
    ) -> (unfinished: Vec<usize>)
        requires
            self.holds(steps@),
            from <= steps@.len(),
            dag.wf(),
            dag.nodes().contains_key(dag_nidx as int),
        ensures
            unfinished@ == reaching(
                *dag,
                spans@,
                open_after(
                    spans@,
                    Seq::new(spans@.len(), |q: int| q as usize),
                    self.ids_from(steps@, from as int),
                ),
                dag_nidx as int,
            ),
            forall|k: int| 0 <= k < unfinished@.len() ==> (#[trigger] unfinished@[k]) < spans@.len(),
    {
        let mut open: Vec<usize> = Vec::new();
        let mut q: usize = 0;
        while q < spans.len()
            invariant
                0 <= q <= spans@.len(),
                open@ == Seq::new(q as nat, |q: int| q as usize),
            decreases spans@.len() - q,
        {
            open.push(q);
            assert(open@ =~= Seq::new((q + 1) as nat, |q: int| q as usize));
            q += 1;
        }
        let ghost all = open@;
        let ghost rest = self.ids_from(steps@, from as int);
        proof {
            assert(rest.skip(0) =~= rest);
        }
        let mut t: usize = from;
        while t < steps.len()
            invariant
                self.holds(steps@),
                from <= t <= steps@.len(),
                rest == self.ids_from(steps@, from as int),
                forall|k: int| 0 <= k < open@.len() ==> (#[trigger] open@[k]) < spans@.len(),
                open_after(spans@, all, rest) == open_after(spans@, open@, rest.skip(t - from)),
            decreases steps@.len() - t,
        {
            assert(self.nodes().contains_key(steps@[t as int] as int));
            let ghost before = open@;
            let ghost id = self.nodes()[steps@[t as int] as int].trace_id@;
            proof {
                assert(rest.skip(t - from)[0] == id);
                assert(rest.skip(t - from).drop_first() =~= rest.skip(t + 1 - from));
            }
            if let Some(event) = graph_node_weight(&self.g.g, steps[t]) {
                let mut k: usize = 0;
                let mut closed = false;
                while k < open.len() && !closed
                    invariant
                        0 <= k <= open@.len(),
                        event.trace_id@ == id,
                        !closed ==> open@ == before,
                        !closed ==> forall|j: int|
                            0 <= j < k ==> spans@[(#[trigger] before[j]) as int].trace_id@ != id,
                        closed ==> open@ == close_first(spans@, before, id),
                        forall|k: int| 0 <= k < before.len() ==> (#[trigger] before[k]) < spans@.len(),
                        forall|k: int| 0 <= k < open@.len() ==> (#[trigger] open@[k]) < spans@.len(),
                    decreases open@.len() - k + (if closed { 0int } else { 1int }),
                {
                    if spans[open[k]].trace_id.same_as(&event.trace_id) {
                        proof {
                            lemma_close_at(spans@, before, id, k as int);
                        }
                        open.remove(k);
                        closed = true;
                    } else {
                        k += 1;
                    }
                }
                proof {
                    if !closed {
                        lemma_close_none(spans@, before, id);
                    }
                }
            }
            t += 1;
        }
        proof {
            assert(rest.skip(t - from).len() == 0);
        }
        let mut unfinished: Vec<usize> = Vec::new();
        let mut k: usize = 0;
        while k < open.len()
            invariant
                dag.wf(),
                dag.nodes().contains_key(dag_nidx as int),
                0 <= k <= open@.len(),
                forall|k: int| 0 <= k < open@.len() ==> (#[trigger] open@[k]) < spans@.len(),
                forall|k: int| 0 <= k < unfinished@.len() ==> (#[trigger] unfinished@[k]) < spans@.len(),
                unfinished@ == reaching(*dag, spans@, open@.take(k as int), dag_nidx as int),
            decreases open@.len() - k,
        {
            let u = open[k];
            proof {
                assert(open@.take(k + 1).drop_last() =~= open@.take(k as int));
                assert(open@.take(k + 1).last() == u);
            }
            if dag.can_reach_from_node(&spans[u].trace_id, dag_nidx) {
                unfinished.push(u);
            }
            k += 1;
        }
        proof {
            assert(open@.take(k as int) =~= open@);
        }
        unfinished
    }

    /// Whether an event of the span of `span` lies on some way back from
    /// node `start_nidx` of `dag`, `start_nidx` included.
    pub fn find_start_node(span: &Event, start_nidx: u32, dag: &Trace) -> (found: bool)
        requires
            dag.wf(),
            dag.nodes().contains_key(start_nidx as int),
        ensures
            found == dag.found_within(
                span.trace_id@,
                start_nidx as int,
                Direction::Incoming,
                dag.nodes().dom().len(),
            ),
    {
        let depth = graph_node_count(&dag.g);
        dag.search(&span.trace_id, start_nidx, Direction::Incoming, depth)
    }

    /// Repairs an Exit whose Entry is not on the path. `steps` are the
    /// path's observed nodes and `dag_steps` the nodes of `dag` they were
    /// copied from; the Exit stands at position `at`. The search goes back
    /// from there to the nearest join at which a branch that is not on the
    /// path leads back to an event of the Exit's span, and puts a synthetic
    /// Entry behind the path's node before that join. Fails with
    /// `UnreconcilableSpan`, and changes nothing, exactly when no such join
    /// exists, and with `TooLarge` when the Entry cannot be added.
    pub fn add_synthetic_start_node(
        &mut self,
        at: usize,
        steps: &Vec<u32>,
        dag_steps: &Vec<u32>,
        dag: &Trace,
        span: &Event,
    ) -> (added: Result<u32, ExtractError>)
        requires
            old(self).wf(),
            old(self).holds(steps@),
            old(self).ends_after(steps@),
            dag.wf(),
            steps@.len() == dag_steps@.len(),
            at < steps@.len(),
            forall|t: int| 0 <= t < dag_steps@.len() ==> dag.nodes().contains_key(
                #[trigger] dag_steps@[t] as int,
            ),
            span.variant != EventType::Annotation,
        ensures
            final(self).wf(),
            final(self).holds(steps@),
            final(self).start_node == old(self).start_node,
            final(self).end_node == old(self).end_node,
            final(self).duration == old(self).duration,
            final(self).is_hypothetical == old(self).is_hypothetical,
            observed(final(self).events()) == observed(old(self).events()),
            old(self).nodes().submap_of(final(self).nodes()),
            match added {
                Ok(idx) => {
                    let t = nearest_join(*dag, dag_steps@, at as int, span.trace_id@);
                    &&& t > 0
                    &&& !old(self).nodes().contains_key(idx as int)
                    &&& final(self).nodes().contains_key(idx as int)
                    &&& final(self).nodes().remove(idx as int) == old(self).nodes()
                    &&& mirrors(
                        final(self).nodes()[idx as int],
                        *span,
                        old(self).nodes()[steps@[t - 1] as int].timestamp + 1,
                    )
                    &&& final(self).order() == old(self).order().insert(
                        old(self).position(steps@[t - 1] as int) + 1,
                        idx as int,
                    )
                    &&& final(self).order().len() == old(self).order().len() + 1
                    &&& final(self).hop_times() == old(self).hop_times().insert(
                        old(self).position(steps@[t - 1] as int),
                        1,
                    )
                    &&& final(self).hop_weights() == spliced_weights(
                        old(self).hop_weights(),
                        old(self).position(steps@[t - 1] as int),
                    )
                    &&& final(self).hash is None
                },
                Err(e) => {
                    let t = nearest_join(*dag, dag_steps@, at as int, span.trace_id@);
                    &&& *final(self) == *old(self)
                    &&& if t == 0 {
                        e == ExtractError::UnreconcilableSpan
                    } else {
                        e == ExtractError::TooLarge && (old(self).nodes()[steps@[t
                            - 1] as int].timestamp == i64::MAX || old(self).order().len()
                            >= u32::MAX)
                    }
                },
            },
    {
        let ghost id = span.trace_id@;
        let depth = graph_node_count(&dag.g);
        let mut t: usize = at;
        while t > 0
            invariant
                self.wf(),
                *self == *old(self),
                self.holds(steps@),
                self.ends_after(steps@),
                dag.wf(),
                id == span.trace_id@,
                depth == dag.nodes().dom().len(),
                steps@.len() == dag_steps@.len(),
                0 <= t <= at < steps@.len(),
                forall|t: int| 0 <= t < dag_steps@.len() ==> dag.nodes().contains_key(
                    #[trigger] dag_steps@[t] as int,
                ),
                span.variant != EventType::Annotation,
                nearest_join(*dag, dag_steps@, at as int, id) == nearest_join(
                    *dag,
                    dag_steps@,
                    t as int,
                    id,
                ),
            decreases t,
        {
            assert(dag.nodes().contains_key(dag_steps@[t as int] as int));
            let incoming = dag.edges_at(dag_steps[t], Direction::Incoming);
            let prev_dag = dag_steps[t - 1];
            let mut found = false;
            let mut k: usize = 0;
            while k < incoming.len()
                invariant
                    dag.wf(),
                    id == span.trace_id@,
                    depth == dag.nodes().dom().len(),
                    0 <= k <= incoming@.len(),
                    forall|e: u32| #[trigger]
                        incoming@.contains(e) <==> touches(
                            dag.links(),
                            e as int,
                            dag_steps@[t as int] as int,
                            Direction::Incoming,
                        ),
                    found <==> exists|j: int|
                        0 <= j < k && branches_back(*dag, (#[trigger] incoming@[j]) as int, prev_dag, id),
                decreases incoming@.len() - k,
            {
                assert(incoming@.contains(incoming@[k as int]));
                if let Some(pair) = dag.endpoints(incoming[k]) {
                    if pair.0 != prev_dag && CriticalPath::find_start_node(span, pair.0, dag) {
                        found = true;
                        assert(branches_back(*dag, incoming@[k as int] as int, prev_dag, id));
                    }
                }
                proof {
                    if !found {
                        assert forall|j: int| 0 <= j < k + 1 implies !branches_back(
                            *dag,
                            (#[trigger] incoming@[j]) as int,
                            prev_dag,
                            id,
                        ) by {}
                    }
                }
                k += 1;
            }
            proof {
                let here = joins_span(*dag, dag_steps@, t as int, id);
                if found {
                    let j = choose|j: int|
                        0 <= j < k && branches_back(*dag, (#[trigger] incoming@[j]) as int, prev_dag, id);
                    assert(incoming@.contains(incoming@[j]));
                    assert(touches(
                        dag.links(),
                        incoming@[j] as int,
                        dag_steps@[t as int] as int,
                        Direction::Incoming,
                    ));
                    assert(here);
                } else if here {
                    let e = choose|e: int| #[trigger]
                        touches(dag.links(), e, dag_steps@[t as int] as int, Direction::Incoming)
                            && branches_back(*dag, e, dag_steps@[t - 1], id);
                    assert(touches(
                        dag.links(),
                        (e as u32) as int,
                        dag_steps@[t as int] as int,
                        Direction::Incoming,
                    ));
                    assert(incoming@.contains(e as u32));
                    let j = choose|j: int| 0 <= j < incoming@.len() && incoming@[j] == e as u32;
                    assert(branches_back(*dag, incoming@[j] as int, prev_dag, id));
                    assert(false);
                }
            }
            if found {
                let anchor = steps[t - 1];
                proof {
                    assert(self.nodes().contains_key(steps@[t - 1] as int));
                    assert(steps@[t - 1] != self.end_node);
                    assert(self.order().contains(anchor as int));
                }
                let ghost before = self.events();
                let ghost p = self.position(anchor as int);
                match self.add_node_after(anchor, span) {
                    Ok(idx) => {
                        proof {
                            lemma_observed_insert(before, p + 1, self.nodes()[idx as int]);
                            assert forall|t: int| 0 <= t < steps@.len() implies self.nodes().contains_key(
                                #[trigger] steps@[t] as int,
                            ) by {
                                assert(old(self).nodes().contains_key(steps@[t] as int));
                                assert(self.nodes().remove(idx as int).contains_key(steps@[t] as int));
                            }
                        }
                        return Ok(idx);
                    },
                    Err(e) => {
                        return Err(e);
                    },
                }
            }
            t -= 1;
        }
        Err(ExtractError::UnreconcilableSpan)
    }

    /// The spans of `active`, by position, that get a synthetic Exit behind
    /// the path's position `at`: for each edge that leaves the trace's node
    /// there and does not lead to the walk's next node, what
    /// `get_unfinished` finds behind that edge.
    pub fn pending_exits(
        &self,
        active: &Vec<Event>,
        steps: &Vec<u32>,
        dag_steps: &Vec<u32>,
        at: usize,
        dag: &Trace,
    ) -> (pending: Vec<usize>)
        requires
            self.holds(steps@),
            dag.wf(),
            steps@.len() == dag_steps@.len(),
            at + 1 < steps@.len(),
            forall|t: int|
                0 <= t < dag_steps@.len() ==> dag.nodes().contains_key(#[trigger] dag_steps@[t] as int),
        ensures
            forall|x: int| 0 <= x < pending@.len() ==> (#[trigger] pending@[x]) < active@.len(),
            forall|e: int, x: int|
                is_sibling(*dag, dag_steps@, at as int, e) && 0 <= x < unfinished_behind(
                    *dag,
                    active@,
                    self.ids_from(steps@, at + 1),
                    dag.links()[e].dst,
                ).len() ==> pending@.contains(
                    #[trigger] unfinished_behind(
                        *dag,
                        active@,
                        self.ids_from(steps@, at + 1),
                        dag.links()[e].dst,
                    )[x],
                ),
            pending@.len() > 0 ==> exists|e: int|
                is_sibling(*dag, dag_steps@, at as int, e) && #[trigger] unfinished_behind(
                    *dag,
                    active@,
                    self.ids_from(steps@, at + 1),
                    dag.links()[e].dst,
                ).len() > 0,
    {
        let count = steps.len();
        let rest: usize = at + 1;
        let next_dag = dag_steps[rest];
        assert(dag.nodes().contains_key(dag_steps@[at as int] as int));
        let leaving = dag.edges_at(dag_steps[at], Direction::Outgoing);
        let ghost ids = self.ids_from(steps@, at + 1);
        let mut pending: Vec<usize> = Vec::new();
        let mut k: usize = 0;
        while k < leaving.len()
            invariant
                dag.wf(),
                self.holds(steps@),
                rest == at + 1,
                rest < steps@.len(),
                steps@.len() == dag_steps@.len(),
                next_dag == dag_steps@[at + 1],
                ids == self.ids_from(steps@, at + 1),
                0 <= k <= leaving@.len(),
                forall|e: u32| #[trigger]
                    leaving@.contains(e) <==> touches(
                        dag.links(),
                        e as int,
                        dag_steps@[at as int] as int,
                        Direction::Outgoing,
                    ),
                forall|x: int| 0 <= x < pending@.len() ==> (#[trigger] pending@[x]) < active@.len(),
                forall|i: int, x: int|
                    0 <= i < k && dag.links()[leaving@[i] as int].dst != next_dag && 0 <= x
                        < unfinished_behind(
                        *dag,
                        active@,
                        ids,
                        dag.links()[leaving@[i] as int].dst,
                    ).len() ==> pending@.contains(
                        #[trigger] unfinished_behind(
                            *dag,
                            active@,
                            ids,
                            dag.links()[leaving@[i] as int].dst,
                        )[x],
                    ),
                pending@.len() > 0 ==> exists|e: int|
                    is_sibling(*dag, dag_steps@, at as int, e) && #[trigger] unfinished_behind(
                        *dag,
                        active@,
                        ids,
                        dag.links()[e].dst,
                    ).len() > 0,
            decreases leaving@.len() - k,
        {
            assert(leaving@.contains(leaving@[k as int]));
            if let Some(pair) = dag.endpoints(leaving[k]) {
                if pair.1 != next_dag {
                    let more = self.get_unfinished(active, steps, rest, pair.1, dag);
                    let ghost before = pending@;
                    let ghost here = leaving@[k as int] as int;
                    let mut x: usize = 0;
                    while x < more.len()
                        invariant
                            0 <= x <= more@.len(),
                            forall|y: int| 0 <= y < more@.len() ==> (#[trigger] more@[y]) < active@.len(),
                            forall|y: int|
                                0 <= y < pending@.len() ==> (#[trigger] pending@[y]) < active@.len(),
                            pending@ == before + more@.take(x as int),
                        decreases more@.len() - x,
                    {
                        pending.push(more[x]);
                        assert(pending@ =~= before + more@.take(x + 1));
                        x += 1;
                    }
                    proof {
                        assert(more@.take(x as int) =~= more@);
                        let found = unfinished_behind(*dag, active@, ids, dag.links()[here].dst);
                        assert(more@ == found);
                        assert forall|i: int, y: int|
                            0 <= i < k + 1 && dag.links()[leaving@[i] as int].dst != next_dag && 0 <= y
                                < unfinished_behind(
                                *dag,
                                active@,
                                ids,
                                dag.links()[leaving@[i] as int].dst,
                            ).len() implies pending@.contains(
                            #[trigger] unfinished_behind(
                                *dag,
                                active@,
                                ids,
                                dag.links()[leaving@[i] as int].dst,
                            )[y],
                        ) by {
                            let list = unfinished_behind(
                                *dag,
                                active@,
                                ids,
                                dag.links()[leaving@[i] as int].dst,
                            );
                            if i < k {
                                assert(before.contains(list[y]));
                                let z = choose|z: int| 0 <= z < before.len() && before[z] == list[y];
                                assert(pending@[z] == list[y]);
                            } else {
                                assert(pending@[before.len() + y] == list[y]);
                            }
                        }
                        if more@.len() > 0 {
                            assert(is_sibling(*dag, dag_steps@, at as int, here));
                            assert(unfinished_behind(*dag, active@, ids, dag.links()[here].dst).len() > 0);
                        }
                    }
                }
            }
            k += 1;
        }
        proof {
            assert forall|e: int, x: int|
                is_sibling(*dag, dag_steps@, at as int, e) && 0 <= x < unfinished_behind(
                    *dag,
                    active@,
                    ids,
                    dag.links()[e].dst,
                ).len() implies pending@.contains(
                #[trigger] unfinished_behind(*dag, active@, ids, dag.links()[e].dst)[x],
            ) by {
                assert(touches(
                    dag.links(),
                    (e as u32) as int,
                    dag_steps@[at as int] as int,
                    Direction::Outgoing,
                ));
                assert(leaving@.contains(e as u32));
                let i = choose|i: int| 0 <= i < leaving@.len() && leaving@[i] == e as u32;
                assert(leaving@[i] as int == e);
            }
        }
        pending
    }

    /// Restores the nesting of spans on a path that was copied from the
    /// walk `back` through `dag` from node `end`. The path is scanned from
    /// its first node with a stack of the Entries that are open. An Exit
    /// closes the latest open Entry of its span; an Exit without one gets a
    /// synthetic Entry (`add_synthetic_start_node`). Where the trace
    /// branches at a node of the path, the open spans that the rest of the
    /// path does not close but a branch off the path leads to
    /// (`get_unfinished`) get synthetic Exits right behind that node,
    /// innermost first. Only synthetic counterparts of events of the path
    /// are added, and none behind the last node; the nodes of the path keep
    /// their order. A path that needs no repair stays as it is. Fails with
    /// `UnreconcilableSpan` only at an Exit without open Entry that no
    /// joining branch explains, and with `TooLarge` only where a synthetic
    /// event cannot be added; a path with such an Exit always fails.
    #[verifier::rlimit(100)]
    pub fn add_synthetic_nodes(&mut self, dag: &Trace, end: u32, back: &Vec<u32>) -> (done: Result<
        (),
        ExtractError,
    >)
        requires
            old(self).wf(),
            dag.wf(),
            is_partial_trail(dag.ending_at(end), back@),
            old(self).order().len() == back@.len() + 1,
        ensures
            final(self).wf(),
            final(self).start_node == old(self).start_node,
            final(self).end_node == old(self).end_node,
            final(self).duration == old(self).duration,
            final(self).is_hypothetical == old(self).is_hypothetical,
            observed(final(self).events()) == observed(old(self).events()),
            old(self).nodes().submap_of(final(self).nodes()),
            adds_twins(old(self).nodes(), final(self).nodes()),
            final(self).order().len() >= old(self).order().len(),
            quiet(*dag, old(self).events(), walk_steps(dag.ending_at(end), back@)) ==> done is Ok
                && *final(self) == *old(self),
            keeps_order(old(self).order(), final(self).order()),
            has_lost_exit(*dag, old(self).events(), walk_steps(dag.ending_at(end), back@))
                ==> done is Err,
            done is Ok ==> repaired(
                *dag,
                walk_steps(dag.ending_at(end), back@),
                *old(self),
                *final(self),
                old(self).events().len() as int,
            ),
            match done {
                Ok(()) => true,
                Err(e) => match e {
                    ExtractError::UnreconcilableSpan => has_lost_exit(
                        *dag,
                        old(self).events(),
                        walk_steps(dag.ending_at(end), back@),
                    ),
                    ExtractError::TooLarge => is_full(*final(self)),
                    _ => false,
                },
            },
    {
        let steps = self.node_order();
        let dag_steps = CriticalPath::trail_nodes(dag, end, back);
        let mut active: Vec<Event> = Vec::new();
        let ghost events0 = self.events();
        let ghost dsteps = walk_steps(dag.ending_at(end), back@);
        let ghost mut changed = false;
        proof {
            assert(dag_steps@ =~= dsteps);
            assert forall|t: int| 0 <= t < steps@.len() implies self.nodes().contains_key(
                #[trigger] steps@[t] as int,
            ) && self.nodes()[steps@[t] as int] == events0[t] by {
                assert(steps@[t] as int == self.order()[t]);
                assert(self.nodes().contains_key(self.order()[t]));
            }
            assert forall|t: int| 0 <= t < steps@.len() - 1 implies #[trigger] steps@[t]
                != self.end_node by {
                assert(steps@[t] as int == self.order()[t]);
                assert(self.order()[t] != self.order()[self.order().len() - 1]);
            }
            lemma_order_same(self.order());
        }
        let mut j: usize = 0;
        while j < steps.len()
            invariant
                self.wf(),
                dag.wf(),
                self.holds(steps@),
                self.ends_after(steps@),
                steps@.len() == dag_steps@.len(),
                steps@.len() == events0.len(),
                events0 == old(self).events(),
                dag_steps@ == dsteps,
                dsteps == walk_steps(dag.ending_at(end), back@),
                0 <= j <= steps@.len(),
                forall|t: int|
                    0 <= t < dag_steps@.len() ==> dag.nodes().contains_key(
                        #[trigger] dag_steps@[t] as int,
                    ),
                active@ == active_at(events0, j as int),
                forall|k: int| 0 <= k < active@.len() ==> (#[trigger] active@[k]).variant == EventType::Entry,
                self.start_node == old(self).start_node,
                self.end_node == old(self).end_node,
                self.duration == old(self).duration,
                self.is_hypothetical == old(self).is_hypothetical,
                observed(self.events()) == observed(old(self).events()),
                old(self).nodes().submap_of(self.nodes()),
                adds_twins(old(self).nodes(), self.nodes()),
                taken_from(active@, old(self).nodes()),
                forall|t: int|
                    0 <= t < steps@.len() ==> old(self).nodes().contains_key(#[trigger] steps@[t] as int)
                        && old(self).nodes()[steps@[t] as int] == events0[t],
                self.order().len() >= old(self).order().len(),
                !changed ==> *self == *old(self),
                changed ==> exists|i: int| 0 <= i < j && #[trigger] repair_at(*dag, events0, dsteps, i),
                repaired(*dag, dsteps, *old(self), *self, j as int),
                keeps_order(old(self).order(), self.order()),
                forall|t: int|
                    0 <= t < steps@.len() ==> (#[trigger] steps@[t]) as int == old(self).order()[t],
            decreases steps@.len() - j,
        {
            let cur = steps[j];
            assert(self.nodes().contains_key(steps@[j as int] as int));
            let ghost stack = active@;
            let ghost was = changed;
            let mut lost = false;
            if let Some(event) = graph_node_weight(&self.g.g, cur) {
                proof {
                    assert(old(self).nodes().contains_key(steps@[j as int] as int));
                    assert(old(self).nodes().dom().contains(steps@[j as int] as int));
                    assert(event == events0[j as int]);
                }
                match event.variant {
                    EventType::Entry => {
                        active.push(event);
                        proof {
                            assert forall|k: int| 0 <= k < active@.len() implies exists|m: int| #[trigger]
                                old(self).nodes().contains_key(m) && (#[trigger] active@[k])
                                    == old(self).nodes()[m] by {
                                if k < stack.len() {
                                    assert(active@[k] == stack[k]);
                                    let m = choose|m: int| #[trigger]
                                        old(self).nodes().contains_key(m) && stack[k] == old(
                                            self,
                                        ).nodes()[m];
                                    assert(old(self).nodes().contains_key(m) && active@[k] == old(
                                        self,
                                    ).nodes()[m]);
                                } else {
                                    assert(old(self).nodes().contains_key(cur as int));
                                }
                            }
                        }
                    },
                    EventType::Annotation => {},
                    EventType::Exit => {
                        let closed = close_latest(&mut active, &event.trace_id);
                        proof {
                            assert forall|x: int| 0 <= x < active@.len() implies (#[trigger] active@[x]).variant
                                == EventType::Entry && exists|m: int| #[trigger]
                                old(self).nodes().contains_key(m) && active@[x] == old(
                                    self,
                                ).nodes()[m] by {
                                let y = choose|y: int| 0 <= y < stack.len() && stack[y] == active@[x];
                                let m = choose|m: int| #[trigger]
                                    old(self).nodes().contains_key(m) && stack[y] == old(self).nodes()[m];
                                assert(old(self).nodes().contains_key(m) && active@[x] == old(
                                    self,
                                ).nodes()[m]);
                            }
                        }
                        lost = !closed;
                        if !closed {
                            let ghost nodes0 = self.nodes();
                            let ghost mid = *self;
                            proof {
                                assert(orphan(events0, j as int));
                                assert(repair_at(*dag, events0, dsteps, j as int));
                            }
                            match self.add_synthetic_start_node(j, &steps, &dag_steps, dag, &event) {
                                Ok(idx) => {
                                    proof {
                                        changed = true;
                                        lemma_kept_events(old(self).nodes(), nodes0, self.nodes());
                                        lemma_twin_added(
                                            old(self).nodes(),
                                            nodes0,
                                            self.nodes(),
                                            idx as int,
                                            cur as int,
                                        );
                                        let t = nearest_join(
                                            *dag,
                                            dag_steps@,
                                            j as int,
                                            event.trace_id@,
                                        );
                                        lemma_join_in_range(*dag, dag_steps@, j as int, event.trace_id@);
                                        let left = steps@[t - 1] as int;
                                        let right = steps@[t] as int;
                                        let p = mid.position(left) + 1;
                                        assert(mid.order().contains(left) && mid.order().contains(right));
                                        assert(0 <= mid.order().index_of(left) < mid.order().len());
                                        lemma_repaired_grows(
                                            *dag,
                                            dsteps,
                                            *old(self),
                                            mid,
                                            *self,
                                            j as int,
                                            p,
                                            idx as int,
                                        );
                                        lemma_order_grows(
                                            old(self).order(),
                                            mid.order(),
                                            p,
                                            idx as int,
                                        );
                                        assert(old(self).nodes().dom().contains(idx as int)
                                            ==> nodes0.dom().contains(idx as int));
                                        lemma_between_new(mid.order(), idx as int, left, right);
                                        assert(twin_added(
                                            *old(self),
                                            *self,
                                            t - 1,
                                            events0[j as int],
                                        )) by {
                                            assert(self.nodes().contains_key(idx as int)
                                                && !old(self).nodes().contains_key(idx as int)
                                                && twin_of(self.nodes()[idx as int], events0[j as int])
                                                && between(
                                                self.order(),
                                                old(self).order()[t - 1],
                                                idx as int,
                                                old(self).order()[t],
                                            ));
                                        }
                                    }
                                },
                                Err(e) => {
                                    proof {
                                        if e == ExtractError::TooLarge {
                                            lemma_chain_sizes(self.nodes(), self.links(), self.chain@);
                                            let t = nearest_join(
                                                *dag,
                                                dag_steps@,
                                                j as int,
                                                event.trace_id@,
                                            );
                                            lemma_join_in_range(*dag, dag_steps@, j as int, event.trace_id@);
                                            assert(self.nodes().contains_key(steps@[t - 1] as int));
                                        }
                                    }
                                    return Err(e);
                                },
                            }
                        }
                    },
                }
            }
            proof {
                assert(active@ == active_at(events0, j + 1));
                assert(lost == orphan(events0, j as int));
                assert(changed ==> was || lost);
            }
            let ghost nodes1 = self.nodes();
            if j + 1 < steps.len() {
                let pending = self.pending_exits(&active, &steps, &dag_steps, j, dag);
                proof {
                    assert(self.ids_from(steps@, j + 1) =~= ids_behind(events0, j + 1)) by {
                        let mine = self.ids_from(steps@, j + 1);
                        let theirs = ids_behind(events0, j + 1);
                        assert(mine.len() == theirs.len());
                        assert forall|t: int| 0 <= t < mine.len() implies #[trigger] mine[t]
                            == theirs[t] by {
                            assert(old(self).nodes().contains_key(steps@[j + 1 + t] as int));
                            assert(old(self).nodes().dom().contains(steps@[j + 1 + t] as int));
                        }
                    }
                    if pending@.len() > 0 {
                        let e = choose|e: int|
                            is_sibling(*dag, dag_steps@, j as int, e) && #[trigger] unfinished_behind(
                                *dag,
                                active@,
                                self.ids_from(steps@, j + 1),
                                dag.links()[e].dst,
                            ).len() > 0;
                        assert(unfinished_at(*dag, events0, j as int, dag.links()[e].dst).len() > 0);
                        assert(needs_exit(*dag, events0, dsteps, j as int));
                        assert(repair_at(*dag, events0, dsteps, j as int));
                    }
                }
                proof {
                    assert(self.order().contains(steps@[j as int] as int));
                    assert(self.order().contains(steps@[j + 1] as int));
                    assert(self.order().index_of(old(self).order()[j as int]) < self.order().index_of(
                        old(self).order()[j + 1],
                    ));
                }
                let mut anchor = cur;
                let mut r: usize = pending.len();
                while r > 0
                    invariant
                        self.wf(),
                        self.holds(steps@),
                        self.ends_after(steps@),
                        0 <= r <= pending@.len(),
                        forall|x: int| 0 <= x < pending@.len() ==> (#[trigger] pending@[x]) < active@.len(),
                        forall|k: int|
                            0 <= k < active@.len() ==> (#[trigger] active@[k]).variant == EventType::Entry,
                        self.nodes().contains_key(anchor as int),
                        anchor != self.end_node,
                        self.start_node == old(self).start_node,
                        self.end_node == old(self).end_node,
                        self.duration == old(self).duration,
                        self.is_hypothetical == old(self).is_hypothetical,
                        observed(self.events()) == observed(old(self).events()),
                        old(self).nodes().submap_of(self.nodes()),
                        nodes1.submap_of(self.nodes()),
                        adds_twins(old(self).nodes(), self.nodes()),
                        taken_from(active@, old(self).nodes()),
                        self.order().len() >= old(self).order().len(),
                        keeps_order(old(self).order(), self.order()),
                        forall|t: int|
                            0 <= t < steps@.len() ==> (#[trigger] steps@[t]) as int == old(self).order()[t],
                        steps@.len() == events0.len(),
                        j + 1 < steps@.len(),
                        old(self).order().len() == steps@.len(),
                        cur == steps@[j as int],
                        self.order().contains(anchor as int),
                        self.order().index_of(cur as int) <= self.order().index_of(anchor as int)
                            < self.order().index_of(steps@[j + 1] as int),
                        repaired(*dag, dsteps, *old(self), *self, j as int),
                        lost ==> twin_added(
                            *old(self),
                            *self,
                            nearest_join(*dag, dsteps, j as int, events0[j as int].trace_id@) - 1,
                            events0[j as int],
                        ),
                        r == pending@.len() && !changed ==> *self == *old(self),
                        r < pending@.len() ==> changed,
                        changed ==> was || lost || pending@.len() > 0,
                        0 <= j < events0.len(),
                        events0 == old(self).events(),
                        dsteps == walk_steps(dag.ending_at(end), back@),
                        pending@.len() > 0 ==> repair_at(*dag, events0, dsteps, j as int),
                        forall|y: int|
                            r <= y < pending@.len() ==> twin_added(
                                *old(self),
                                *self,
                                j as int,
                                active@[(#[trigger] pending@[y]) as int],
                            ),
                    decreases r,
                {
                    r -= 1;
                    let ghost before = self.events();
                    let ghost nodes0 = self.nodes();
                    let ghost mid = *self;
                    let ghost p = self.position(anchor as int);
                    proof {
                        assert(self.order().contains(anchor as int));
                        assert(active@[pending@[r as int] as int].variant == EventType::Entry);
                        lemma_last_is_end(*self);
                        assert(steps@[j as int] as int == old(self).order()[j as int]);
                        assert(steps@[j + 1] as int == old(self).order()[j + 1]);
                        assert(self.order().contains(old(self).order()[j as int]));
                        assert(self.order().contains(old(self).order()[j + 1]));
                    }
                    match self.add_node_after(anchor, &active[pending[r]]) {
                        Ok(idx) => {
                            proof {
                                changed = true;
                                lemma_observed_insert(before, p + 1, self.nodes()[idx as int]);
                                assert forall|t: int| 0 <= t < steps@.len() implies self.nodes().contains_key(
                                    #[trigger] steps@[t] as int,
                                ) by {
                                    assert(nodes0.contains_key(steps@[t] as int));
                                    assert(self.nodes().remove(idx as int).contains_key(
                                        steps@[t] as int,
                                    ));
                                }
                                assert(nodes0.submap_of(self.nodes())) by {
                                    assert(self.nodes().remove(idx as int) == nodes0);
                                }
                                lemma_kept_events(old(self).nodes(), nodes0, self.nodes());
                                lemma_kept_events(nodes1, nodes0, self.nodes());
                                let m = choose|m: int| #[trigger]
                                    old(self).nodes().contains_key(m) && active@[pending@[r as int] as int]
                                        == old(self).nodes()[m];
                                lemma_twin_added(
                                    old(self).nodes(),
                                    nodes0,
                                    self.nodes(),
                                    idx as int,
                                    m,
                                );
                                assert(old(self).nodes().dom().contains(idx as int)
                                    ==> nodes0.dom().contains(idx as int));
                                let left = cur as int;
                                let right = steps@[j + 1] as int;
                                assert(mid.order().contains(left) && mid.order().contains(right));
                                lemma_insert_index(mid.order(), p + 1, idx as int, left);
                                lemma_insert_index(mid.order(), p + 1, idx as int, right);
                                lemma_insert_index(mid.order(), p + 1, idx as int, anchor as int);
                                assert(between(self.order(), left, idx as int, right));
                                lemma_order_grows(old(self).order(), mid.order(), p + 1, idx as int);
                                lemma_repaired_grows(
                                    *dag,
                                    dsteps,
                                    *old(self),
                                    mid,
                                    *self,
                                    j as int,
                                    p + 1,
                                    idx as int,
                                );
                                if lost {
                                    lemma_twin_stays(
                                        *old(self),
                                        mid,
                                        *self,
                                        nearest_join(*dag, dsteps, j as int, events0[j as int].trace_id@)
                                            - 1,
                                        events0[j as int],
                                        p + 1,
                                        idx as int,
                                    );
                                }
                                assert forall|y: int| r <= y < pending@.len() implies twin_added(
                                    *old(self),
                                    *self,
                                    j as int,
                                    active@[(#[trigger] pending@[y]) as int],
                                ) by {
                                    if y == r {
                                        assert(self.nodes().contains_key(idx as int) && !old(
                                            self,
                                        ).nodes().contains_key(idx as int) && twin_of(
                                            self.nodes()[idx as int],
                                            active@[pending@[y] as int],
                                        ) && between(
                                            self.order(),
                                            old(self).order()[j as int],
                                            idx as int,
                                            old(self).order()[j + 1],
                                        ));
                                    } else {
                                        lemma_twin_stays(
                                            *old(self),
                                            mid,
                                            *self,
                                            j as int,
                                            active@[pending@[y] as int],
                                            p + 1,
                                            idx as int,
                                        );
                                    }
                                }
                            }
                            anchor = idx;
                        },
                        Err(e) => {
                            proof {
                                lemma_chain_sizes(self.nodes(), self.links(), self.chain@);
                            }
                            return Err(e);
                        },
                    }
                }
                proof {
                    assert forall|e: int, x: int|
                        is_sibling(*dag, dsteps, j as int, e) && 0 <= x < unfinished_at(
                            *dag,
                            events0,
                            j as int,
                            dag.links()[e].dst,
                        ).len() implies twin_added(
                        *old(self),
                        *self,
                        j as int,
                        active_at(events0, j + 1)[(#[trigger] unfinished_at(
                            *dag,
                            events0,
                            j as int,
                            dag.links()[e].dst,
                        )[x]) as int],
                    ) by {
                        let q = unfinished_behind(
                            *dag,
                            active@,
                            ids_behind(events0, j + 1),
                            dag.links()[e].dst,
                        )[x];
                        assert(pending@.contains(q));
                        let y = choose|y: int| 0 <= y < pending@.len() && pending@[y] == q;
                        assert(twin_added(
                            *old(self),
                            *self,
                            j as int,
                            active@[pending@[y] as int],
                        ));
                    }
                }
            }
            proof {
                if lost {
                    lemma_join_in_range(*dag, dsteps, j as int, events0[j as int].trace_id@);
                }
                assert(repaired_at(*dag, dsteps, *old(self), *self, j as int));
                if changed {
                    if was {
                        let i = choose|i: int| 0 <= i < j && #[trigger] repair_at(*dag, events0, dsteps, i);
                        assert(0 <= i < j + 1 && repair_at(*dag, events0, dsteps, i));
                    } else {
                        assert(repair_at(*dag, events0, dsteps, j as int));
                    }
                }
            }
            j += 1;
        }
        proof {
            if has_lost_exit(*dag, events0, dsteps) {
                let i = choose|i: int|
                    0 <= i < events0.len() && #[trigger] orphan(events0, i) && nearest_join(
                        *dag,
                        dsteps,
                        i,
                        events0[i].trace_id@,
                    ) == 0;
                assert(repaired_at(*dag, dsteps, *old(self), *self, i));
            }
            if quiet(*dag, events0, dsteps) {
                if changed {
                    let i = choose|i: int| 0 <= i < j && #[trigger] repair_at(*dag, events0, dsteps, i);
                    assert(!repair_at(*dag, events0, dsteps, i));
                }
            }
        }
        Ok(())
    }

    /// Removes what still cannot be paired: the nodes at the positions that
    /// `incomplete_spans` names, one after the other. Fails with
    /// `UnreconcilableSpan`, and changes nothing, where `incomplete_spans`
    /// fails. Nodes are only removed, never changed, and an Annotation is
    /// never removed.
    pub fn filter_incomplete_spans(&mut self) -> (done: Result<(), ExtractError>)
        requires
            old(self).wf(),
        ensures
            final(self).wf(),
            final(self).is_hypothetical == old(self).is_hypothetical,
            final(self).nodes().submap_of(old(self).nodes()),
            final(self).order().len() <= old(self).order().len(),
            keeps_order(final(self).order(), old(self).order()),
            forall|n: int| #[trigger]
                old(self).nodes().contains_key(n) && old(self).nodes()[n].variant
                    == EventType::Annotation ==> final(self).nodes().contains_key(n),
            sweep(old(self).events(), old(self).events().len() as int).failed ==> done == Err::<
                (),
                ExtractError,
            >(ExtractError::UnreconcilableSpan) && *final(self) == *old(self),
            !sweep(old(self).events(), old(self).events().len() as int).failed && sweep(
                old(self).events(),
                old(self).events().len() as int,
            ).doomed.len() == 0 ==> done is Ok && *final(self) == *old(self),
            done is Ok ==> final(self).order() == cut(
                old(self).order(),
                sweep(old(self).events(), old(self).events().len() as int).doomed,
                sweep(old(self).events(), old(self).events().len() as int).doomed.len() as int,
            ),
            old(self).exact() ==> final(self).exact(),
            match done {
                Ok(()) => true,
                Err(e) => match e {
                    ExtractError::UnreconcilableSpan => sweep(
                        old(self).events(),
                        old(self).events().len() as int,
                    ).failed,
                    ExtractError::MalformedTrace => !steady(old(self).events()),
                    _ => false,
                },
            },
            !sweep(old(self).events(), old(self).events().len() as int).failed && steady(
                old(self).events(),
            ) ==> done is Ok,
    {
        let nodes = self.node_order();
        let events = self.events_in_order();
        let doomed = match incomplete_spans(&events) {
            Ok(doomed) => doomed,
            Err(e) => {
                return Err(e);
            },
        };
        proof {
            assert(self.nodes().contains_key(self.order()[0]));
            lemma_order_same(self.order());
            assert forall|k: int| 0 <= k < doomed@.len() implies old(self).nodes().contains_key(
                self.order()[(#[trigger] doomed@[k]) as int],
            ) && old(self).nodes()[self.order()[doomed@[k] as int]].variant
                != EventType::Annotation by {
                assert(self.nodes().contains_key(self.order()[doomed@[k] as int]));
                assert(events@[doomed@[k] as int] == self.nodes()[self.order()[doomed@[k] as int]]);
            }
        }
        let mut d: usize = 0;
        while d < doomed.len()
            invariant
                self.wf(),
                0 <= d <= doomed@.len(),
                nodes@.len() == old(self).order().len(),
                forall|j: int|
                    0 <= j < nodes@.len() ==> (#[trigger] nodes@[j]) as int == old(self).order()[j],
                forall|k: int| 0 <= k < doomed@.len() ==> 1 <= (#[trigger] doomed@[k]) < nodes@.len(),
                self.nodes().contains_key(old(self).order()[0]),
                old(self).wf(),
                old(self).exact() ==> self.exact(),
                self.is_hypothetical == old(self).is_hypothetical,
                self.nodes().submap_of(old(self).nodes()),
                self.order().len() <= old(self).order().len(),
                keeps_order(self.order(), old(self).order()),
                self.order() == cut(old(self).order(), doomed@, d as int),
                doomed@.len() == 0 ==> *self == *old(self),
                !sweep(old(self).events(), old(self).events().len() as int).failed,
                doomed@ == sweep(old(self).events(), old(self).events().len() as int).doomed,
                forall|k: int|
                    0 <= k < doomed@.len() ==> old(self).nodes().contains_key(
                        old(self).order()[(#[trigger] doomed@[k]) as int],
                    ) && old(self).nodes()[old(self).order()[doomed@[k] as int]].variant
                        != EventType::Annotation,
                forall|n: int| #[trigger]
                    old(self).nodes().contains_key(n) && old(self).nodes()[n].variant
                        == EventType::Annotation ==> self.nodes().contains_key(n),
            decreases doomed@.len() - d,
        {
            let ghost nodes0 = self.nodes();
            let ghost order0 = self.order();
            let victim = nodes[doomed[d]];
            proof {
                lemma_chain_sizes(self.nodes(), self.links(), self.chain@);
                assert(victim as int == old(self).order()[doomed@[d as int] as int]);
                if self.nodes().contains_key(victim as int) {
                    assert(order0.contains(victim as int));
                } else {
                    if order0.contains(victim as int) {
                        let x = choose|x: int| 0 <= x < order0.len() && order0[x] == victim as int;
                        assert(self.nodes().contains_key(order0[x]));
                    }
                }
            }
            if graph_node_weight(&self.g.g, victim).is_some() {
                proof {
                    assert(old(self).order()[doomed@[d as int] as int] != old(self).order()[0]);
                    lemma_two_nodes(self.nodes(), victim as int, old(self).order()[0]);
                }
                if graph_node_count(&self.g.g) < 2 {
                    return Err(ExtractError::UnreconcilableSpan);
                }
                let ghost at = order0.index_of(victim as int);
                match self.remove_node(victim) {
                    Ok(()) => {
                        proof {
                            lemma_kept_events(self.nodes(), nodes0, old(self).nodes());
                            lemma_order_kept(order0, order0.index_of(victim as int), old(self).order());
                        }
                    },
                    Err(e) => {
                        proof {
                            lemma_not_steady(*old(self), *self, at);
                        }
                        return Err(e);
                    },
                }
            }
            d += 1;
        }
        Ok(())
    }
}

} // verus!
