//! Spans as tracing backends report them, and a cache of their times.

use vstd::prelude::*;
use vstd::string::StringExecFns;
use crate::chain::{is_chain, lemma_prepend, Chain};
use crate::error::ExtractError;
use crate::event::{DAGEdge, EdgeType, Event, EventType, IDType};
use crate::registry::TracepointRegistry;
use crate::reqtype::{JaegerRequestType, RequestType};
use crate::text::{owned, same_text};
use crate::trace::{lemma_kept_events, lemma_kept_links, Trace};

verus! {

/// A named property of a span.
#[derive(Clone, Debug, PartialEq, Eq, Hash)]
pub struct Feature {
    pub name: String,
    pub value: String,
}

/// One timed unit of work.
#[derive(Clone, Debug)]
pub struct Span {
    pub span_id: String,
    /// The id of the parent span; empty for a root.
    pub parent: String,
    pub service: String,
    pub host: String,
    pub operation: String,
    /// Nanoseconds since the Unix epoch.
    pub start: i64,
    /// Nanoseconds from start to end.
    pub duration: u64,
}

impl Span {
    /// Whether the end of the span can be written as a timestamp.
    pub open spec fn bounded(&self) -> bool {
        self.start + self.duration <= i64::MAX
    }

    /// A span without parent and of no duration.
    pub fn from_data(sid: String, service: String, host: String, oper: String, start: i64) -> (span:
        Span)
        ensures
            span.span_id == sid,
            span.parent@.len() == 0,
            span.service == service,
            span.host == host,
            span.operation == oper,
            span.start == start,
            span.duration == 0,
    {
        Span {
            span_id: sid,
            parent: String::new(),
            service,
            host,
            operation: oper,
            start,
            duration: 0,
        }
    }

    /// Sets the parent and nothing else.
    pub fn add_parent(&mut self, parent: String)
        ensures
            final(self).parent == parent,
            final(self).span_id == old(self).span_id,
            final(self).service == old(self).service,
            final(self).host == old(self).host,
            final(self).operation == old(self).operation,
            final(self).start == old(self).start,
            final(self).duration == old(self).duration,
    {
        self.parent = parent;
    }

    /// The timestamp at which the span ends.
    pub fn end(&self) -> (end: i64)
        requires
            self.bounded(),
        ensures
            end == self.start + self.duration,
    {
        (self.start as i128 + self.duration as i128) as i64
    }

    /// Whether the two spans share some time: each starts before the other
    /// ends.
    pub fn overlaps(&self, with: &Span) -> (shared: bool)
        requires
            self.bounded(),
            with.bounded(),
        ensures
            shared == (with.start < self.start + self.duration && with.start + with.duration
                > self.start),
    {
        with.start < self.end() && with.end() > self.start
    }

    /// A copy of this span.
    pub fn duplicate(&self) -> (copy: Span)
        ensures
            copy == *self,
    {
        Span {
            span_id: self.span_id.clone(),
            parent: self.parent.clone(),
            service: self.service.clone(),
            host: self.host.clone(),
            operation: self.operation.clone(),
            start: self.start,
            duration: self.duration,
        }
    }

    /// The name under which the span's events are traced: service, a
    /// colon, operation.
    pub open spec fn label(&self) -> Seq<char> {
        self.service@ + ":"@ + self.operation@
    }

    /// The name under which the span's events are traced.
    pub fn label_text(&self) -> (text: String)
        ensures
            text@ == self.label(),
    {
        let mut text = self.service.clone();
        text.append(":");
        text.append(self.operation.as_str());
        text
    }

    /// Whether `event` marks the beginning (`Entry`) or the end (`Exit`) of
    /// this span: it carries the span's label as its span id, the label
    /// with `_start` or `_end` as its tracepoint, and the span's start or
    /// end as its time.
    pub open spec fn marked_by(&self, event: Event, variant: EventType, registry: TracepointRegistry) -> bool {
        &&& event.variant == variant
        &&& event.trace_id@ == crate::event::IdKey::Text(self.label())
        &&& !event.is_synthetic
        &&& event.key_value_pair@.len() == 0
        &&& registry.ids().contains_key(
            self.label() + (if variant == EventType::Entry {
                "_start"@
            } else {
                "_end"@
            }),
        )
        &&& registry.ids()[self.label() + (if variant == EventType::Entry {
            "_start"@
        } else {
            "_end"@
        })] == event.tracepoint_id.id
        &&& event.timestamp == (if variant == EventType::Entry {
            self.start as int
        } else {
            self.start + self.duration
        })
    }

    /// The event that marks the beginning or the end of this span.
    pub fn mark(&self, variant: EventType, registry: &mut TracepointRegistry) -> (event: Event)
        requires
            self.bounded(),
            variant != EventType::Annotation,
            old(registry).wf(),
        ensures
            final(registry).wf(),
            old(registry).ids().submap_of(final(registry).ids()),
            self.marked_by(event, variant, *final(registry)),
    {
        let mut name = self.label_text();
        let timestamp = match variant {
            EventType::Entry => {
                name.append("_start");
                self.start
            },
            _ => {
                name.append("_end");
                self.end()
            },
        };
        let ghost before = registry.ids();
        let tracepoint_id = registry.intern(name.as_str());
        proof {
            if !before.contains_key(name@) {
                assert(registry.ids() == before.insert(name@, tracepoint_id.id));
            }
            assert(before.submap_of(registry.ids()));
        }
        Event {
            trace_id: IDType::STRING(self.label_text()),
            tracepoint_id,
            timestamp,
            is_synthetic: false,
            variant,
            key_value_pair: Vec::new(),
        }
    }

    /// Among `children`, the position of the one that ends last before
    /// `bound`, and of several such the first; `None` where none ends
    /// before `bound`.
    pub fn latest_before(children: &Vec<Span>, bound: i128) -> (pick: Option<usize>)
        requires
            forall|k: int| 0 <= k < children@.len() ==> (#[trigger] children@[k]).bounded(),
        ensures
            match pick {
                Some(p) => {
                    &&& p < children@.len()
                    &&& children@[p as int].start + children@[p as int].duration < bound
                    &&& forall|k: int|
                        0 <= k < children@.len() && (#[trigger] children@[k]).start
                            + children@[k].duration < bound ==> children@[k].start
                            + children@[k].duration <= children@[p as int].start
                            + children@[p as int].duration
                    &&& forall|k: int|
                        0 <= k < p ==> (#[trigger] children@[k]).start + children@[k].duration
                            != children@[p as int].start + children@[p as int].duration
                },
                None => forall|k: int|
                    0 <= k < children@.len() ==> (#[trigger] children@[k]).start
                        + children@[k].duration >= bound,
            },
            pick_before(children@, bound as int) == (match pick {
                Some(p) => Some(p as int),
                None => None,
            }),
    {
        let mut pick: Option<usize> = None;
        let mut best: i64 = 0;
        let mut k: usize = 0;
        while k < children.len()
            invariant
                0 <= k <= children@.len(),
                forall|k: int| 0 <= k < children@.len() ==> (#[trigger] children@[k]).bounded(),
                match pick {
                    Some(p) => {
                        &&& p < k
                        &&& best == children@[p as int].start + children@[p as int].duration
                        &&& best < bound
                        &&& forall|j: int|
                            0 <= j < k && (#[trigger] children@[j]).start + children@[j].duration
                                < bound ==> children@[j].start + children@[j].duration <= best
                        &&& forall|j: int|
                            0 <= j < p ==> (#[trigger] children@[j]).start + children@[j].duration
                                != best
                    },
                    None => forall|j: int|
                        0 <= j < k ==> (#[trigger] children@[j]).start + children@[j].duration
                            >= bound,
                },
            decreases children@.len() - k,
        {
            let end = children[k].end();
            if (end as i128) < bound && (pick.is_none() || end > best) {
                pick = Some(k);
                best = end;
            }
            k += 1;
        }
        proof {
            match pick {
                Some(p) => {
                    assert(is_pick(children@, bound as int, p as int));
                    lemma_pick(children@, bound as int, p as int);
                },
                None => {
                    assert forall|p: int| !is_pick(children@, bound as int, p) by {
                        if is_pick(children@, bound as int, p) {
                            assert(end_of(children@[p]) >= bound);
                        }
                    }
                },
            }
        }
        pick
    }

    /// Puts this span in front of the chain in `res`: first the event of
    /// its end, then, from the latest to the earliest, its children that
    /// do not overlap (each the latest-ending child that ends before the
    /// one chosen before it starts), each with its own children in the same
    /// way, and at last the event of its start, which becomes the first
    /// node. `parent_host` and `parent_service` label the edge from the
    /// span's end to what follows it. The chain grows at its front only.
    /// Fails with `MalformedTrace` for a span whose end has no timestamp or
    /// whose children are not recorded, with `CycleDetected` where spans
    /// nest deeper than `depth`, and with `TooLarge` where the graph is
    /// full.
    pub fn to_critical_path(
        &self,
        st: &SpanTrace,
        res: &mut Trace,
        parent_host: String,
        parent_service: String,
        registry: &mut TracepointRegistry,
        depth: usize,
    ) -> (done: Result<(), ExtractError>)
        requires
            old(res).wf(),
            old(registry).wf(),
            old(res).nodes().dom().len() > 0 ==> old(res).nodes().contains_key(
                old(res).start_node as int,
            ),
        ensures
            final(res).wf(),
            final(registry).wf(),
            old(registry).ids().submap_of(final(registry).ids()),
            old(res).nodes().submap_of(final(res).nodes()),
            old(res).links().submap_of(final(res).links()),
            old(res).nodes().dom().len() > 0 ==> final(res).end_node == old(res).end_node,
            final(res).base_id == old(res).base_id,
            final(res).request_type == old(res).request_type,
            final(res).duration == old(res).duration,
            final(res).keys@ == old(res).keys@,
            done is Ok ==> final(res).nodes().contains_key(final(res).start_node as int)
                && self.marked_by(
                final(res).nodes()[final(res).start_node as int],
                EventType::Entry,
                *final(registry),
            ),
            done is Ok && old(res).nodes().dom().len() == 0 ==> final(res).nodes().contains_key(
                final(res).end_node as int,
            ) && final(res).nodes()[final(res).end_node as int].variant == EventType::Exit
                && final(res).nodes()[final(res).end_node as int].trace_id@
                == crate::event::IdKey::Text(self.label()),
            done is Ok && is_path(*old(res)) ==> is_path(*final(res)),
            match converted_count(*st, *self, depth as nat) {
                Some(count) => {
                    &&& done is Ok <==> has_room(
                        old(res).nodes().dom().len(),
                        old(res).links().dom().len(),
                        count,
                    )
                    &&& done is Ok ==> final(res).nodes().dom().len() == old(res).nodes().dom().len()
                        + 2 * count && final(res).links().dom().len() == old(
                        res,
                    ).links().dom().len() + 2 * count - (if old(res).nodes().dom().len() == 0 {
                        1int
                    } else {
                        0int
                    })
                },
                None => done is Err,
            },
        decreases depth,
    {
        if depth == 0 {
            return Err(ExtractError::CycleDetected);
        }
        if self.start as i128 + self.duration as i128 > i64::MAX as i128 {
            return Err(ExtractError::MalformedTrace);
        }
        let place = match st.children_at(self.span_id.as_str()) {
            Some(place) => place,
            None => {
                return Err(ExtractError::MalformedTrace);
            },
        };
        let ghost nodes0 = res.nodes();
        let ghost links0 = res.links();
        let ghost names0 = registry.ids();
        let ghost total = converted_count(*st, *self, depth as nat);
        let ghost n0 = res.nodes().dom().len();
        let ghost l0 = res.links().dom().len();
        let ghost z: int = if n0 == 0 { 1 } else { 0 };
        let ghost kin = st.children@[place as int].1@;
        proof {
            assert(kids(st.children@, self.span_id@, 0) == Some(kin));
            if total is Some {
                assert(total->0 >= 1);
            }
        }
        let ghost pathy = is_path(*res);
        let ghost mut c: Chain = if pathy && n0 > 0 {
            choose|c: Chain| chain_of(*res, c)
        } else {
            Chain { order: Seq::empty(), hops: Seq::empty() }
        };
        let was_empty = crate::graph::graph_node_count(&res.g) == 0;
        let closing = self.mark(EventType::Exit, registry);
        let ghost closing_event = closing;
        if was_empty {
            let idx = match res.add_event(closing) {
                Ok(idx) => idx,
                Err(e) => {
                    return Err(e);
                },
            };
            res.end_node = idx;
            res.start_node = idx;
            proof {
                assert(nodes0.dom() =~= Set::empty());
                assert(res.nodes().dom() =~= set![idx as int]);
                assert forall|e: int| !links0.dom().contains(e) by {
                    if links0.contains_key(e) {
                        assert(nodes0.contains_key(links0[e].src));
                        assert(nodes0.dom().contains(links0[e].src));
                    }
                }
                assert(res.links().dom() =~= Set::empty());
                lemma_single(*res, idx as int);
                c = Chain { order: seq![idx as int], hops: Seq::empty() };
            }
        } else {
            let next = res.start_node;
            let duration = #[verifier::truncate]
            (res.stamp_at(next).wrapping_sub(self.end()) as u64);
            let idx = match res.add_event(closing) {
                Ok(idx) => idx,
                Err(e) => {
                    return Err(e);
                },
            };
            res.start_node = idx;
            match res.add_edge(
                idx,
                next,
                DAGEdge {
                    duration,
                    variant: EdgeType::ChildOf,
                    host: Some(parent_host),
                    service: Some(parent_service),
                },
            ) {
                Ok(hop) => {
                    proof {
                        if pathy {
                            lemma_prepend(
                                nodes0,
                                links0,
                                c,
                                idx as int,
                                closing_event,
                                hop as int,
                                res.links()[hop as int],
                            );
                            c = Chain { order: seq![idx as int] + c.order, hops: seq![hop as int] + c.hops };
                        }
                    }
                },
                Err(e) => {
                    return Err(e);
                },
            }
        }
        let ghost end_idx = res.start_node;
        let children = &st.children[place].1;
        let mut bound: i128 = i64::MAX as i128 + 1;
        let mut more = true;
        let mut fuel: usize = children.len();
        let ghost mut put: nat = 0;
        proof {
            assert(res.nodes().dom().len() == n0 + 1);
            assert(res.links().dom().len() == l0 + 1 - z);
        }
        let mut bounded = true;
        let mut k: usize = 0;
        while k < children.len()
            invariant
                0 <= k <= children@.len(),
                bounded ==> forall|j: int| 0 <= j < k ==> (#[trigger] children@[j]).bounded(),
                !bounded ==> exists|j: int| 0 <= j < k && !(#[trigger] children@[j]).bounded(),
            decreases children@.len() - k,
        {
            if children[k].start as i128 + children[k].duration as i128 > i64::MAX as i128 {
                bounded = false;
            }
            k += 1;
        }
        if !bounded {
            proof {
                if all_bounded(kin) {
                    let j = choose|j: int| 0 <= j < k && !(#[trigger] children@[j]).bounded();
                    assert(kin[j].bounded());
                }
            }
            return Err(ExtractError::MalformedTrace);
        }
        proof {
            assert(all_bounded(kin));
        }
        while more && fuel > 0
            invariant
                res.wf(),
                registry.wf(),
                depth > 0,
                kin == children@,
                n0 == old(res).nodes().dom().len(),
                l0 == old(res).links().dom().len(),
                z == (if n0 == 0 { 1int } else { 0int }),
                total == converted_count(*st, *self, depth as nat),
                res.nodes().dom().len() == n0 + 1 + 2 * put,
                res.links().dom().len() == l0 + 1 - z + 2 * put,
                pathy ==> chain_of(*res, c),
                !more ==> rest_count(*st, kin, bound as int, (depth - 1) as nat, fuel as nat) == Some(
                    0nat,
                ),
                total == (match rest_count(*st, kin, bound as int, (depth - 1) as nat, fuel as nat) {
                    Some(r) => Some(1 + put + r),
                    None => None,
                }),
                forall|j: int| 0 <= j < children@.len() ==> (#[trigger] children@[j]).bounded(),
                i64::MIN <= bound <= i64::MAX + 1,
                nodes0 == old(res).nodes(),
                links0 == old(res).links(),
                names0 == old(registry).ids(),
                res.base_id == old(res).base_id,
                res.request_type == old(res).request_type,
                res.duration == old(res).duration,
                res.keys@ == old(res).keys@,
                names0.submap_of(registry.ids()),
                nodes0.submap_of(res.nodes()),
                links0.submap_of(res.links()),
                res.nodes().contains_key(res.start_node as int),
                res.nodes().contains_key(end_idx as int),
                res.nodes()[end_idx as int] == closing_event,
                res.nodes().dom().len() > 0,
                nodes0.dom().len() > 0 ==> res.end_node == old(res).end_node,
                nodes0.dom().len() == 0 ==> res.end_node == end_idx,
            decreases fuel + (if more { 1int } else { 0int }),
        {
            match Span::latest_before(children, bound) {
                Some(p) => {
                    let child = &children[p];
                    let ghost nodes1 = res.nodes();
                    let ghost links1 = res.links();
                    let ghost names1 = registry.ids();
                    let ghost inner = converted_count(*st, *child, (depth - 1) as nat);
                    let ghost after = rest_count(
                        *st,
                        kin,
                        child.start as int,
                        (depth - 1) as nat,
                        (fuel - 1) as nat,
                    );
                    proof {
                        lemma_some_nodes(res.nodes(), end_idx as int);
                        if pathy {
                            assert(is_path(*res));
                        }
                    }
                    match child.to_critical_path(
                        st,
                        res,
                        self.host.clone(),
                        self.service.clone(),
                        registry,
                        depth - 1,
                    ) {
                        Ok(()) => {
                            proof {
                                put = put + inner->0;
                                if pathy {
                                    lemma_some_nodes(res.nodes(), end_idx as int);
                                    c = choose|c: Chain| chain_of(*res, c);
                                }
                            }
                        },
                        Err(e) => {
                            proof {
                                lemma_kept_events(nodes0, nodes1, res.nodes());
                                lemma_kept_links(links0, links1, res.links());
                                lemma_kept_names(names0, names1, registry.ids());
                            }
                            return Err(e);
                        },
                    }
                    proof {
                        lemma_kept_events(nodes0, nodes1, res.nodes());
                        lemma_kept_links(links0, links1, res.links());
                        lemma_kept_names(names0, names1, registry.ids());
                        assert(nodes1.dom().contains(end_idx as int));
                        assert(res.nodes().dom().contains(end_idx as int));
                        assert(res.nodes()[end_idx as int] == nodes1[end_idx as int]);
                        lemma_some_nodes(res.nodes(), end_idx as int);
                    }
                    bound = child.start as i128;
                    fuel = fuel - 1;
                },
                None => {
                    more = false;
                },
            }
        }
        proof {
            assert(rest_count(*st, kin, bound as int, (depth - 1) as nat, fuel as nat) == Some(0nat));
            assert(total == Some(1 + put));
        }
        let next = res.start_node;
        let ghost nodes2 = res.nodes();
        let ghost links2 = res.links();
        let ghost names2 = registry.ids();
        let duration = #[verifier::truncate]
        (res.stamp_at(next).wrapping_sub(self.start) as u64);
        let opening = self.mark(EventType::Entry, registry);
        let ghost opening_event = opening;
        proof {
            lemma_kept_names(names0, names2, registry.ids());
        }
        let idx = match res.add_event(opening) {
            Ok(idx) => idx,
            Err(e) => {
                return Err(e);
            },
        };
        res.start_node = idx;
        proof {
            assert(nodes2.submap_of(res.nodes()));
            lemma_kept_events(nodes0, nodes2, res.nodes());
            assert(nodes2.dom().len() == n0 + 1 + 2 * put);
            assert(res.nodes().dom() =~= nodes2.dom().insert(idx as int));
            assert(res.nodes().dom().len() == n0 + 2 + 2 * put);
            assert(links2.dom().len() == l0 + 1 - z + 2 * put);
        }
        match res.add_edge(
            idx,
            next,
            DAGEdge {
                duration,
                variant: EdgeType::ChildOf,
                host: Some(self.host.clone()),
                service: Some(self.service.clone()),
            },
        ) {
            Ok(hop) => {
                proof {
                    if pathy {
                        lemma_prepend(
                            nodes2,
                            links2,
                            c,
                            idx as int,
                            opening_event,
                            hop as int,
                            res.links()[hop as int],
                        );
                        c = Chain { order: seq![idx as int] + c.order, hops: seq![hop as int] + c.hops };
                        assert(chain_of(*res, c));
                    }
                }
            },
            Err(e) => {
                proof {
                    lemma_kept_links(links0, links2, res.links());
                }
                return Err(e);
            },
        }
        proof {
            assert(links2.submap_of(res.links()));
            lemma_kept_links(links0, links2, res.links());
            assert(nodes2.dom().contains(end_idx as int));
            assert(res.links().dom().len() == links2.dom().len() + 1);
            assert(nodes2.dom().len() < u32::MAX);
            assert(links2.dom().len() < u32::MAX);
            assert(res.nodes().dom().len() == n0 + 2 * (1 + put));
            assert(res.links().dom().len() == l0 + 2 * (1 + put) - z);
            assert(has_room(n0, l0, 1 + put));
        }
        Ok(())
    }

    /// The service and the endpoint of the span, as features.
    pub fn get_features(&self) -> (features: Vec<Feature>)
        ensures
            features@.len() == 2,
            features@[0].name@ == "service"@,
            features@[0].value == self.service,
            features@[1].name@ == "endpoint"@,
            features@[1].value == self.operation,
    {
        let mut features = Vec::new();
        features.push(Feature { name: owned("service"), value: self.service.clone() });
        features.push(Feature { name: owned("endpoint"), value: self.operation.clone() });
        features
    }
}

/// When a span ends.
pub open spec fn end_of(span: Span) -> int {
    span.start + span.duration
}

/// Whether position `p` holds the child that ends last before `bound`,
/// and of several such the first.
pub open spec fn is_pick(children: Seq<Span>, bound: int, p: int) -> bool {
    &&& 0 <= p < children.len()
    &&& end_of(children[p]) < bound
    &&& forall|k: int|
        0 <= k < children.len() && end_of(#[trigger] children[k]) < bound ==> end_of(children[k])
            <= end_of(children[p])
    &&& forall|k: int| 0 <= k < p ==> end_of(#[trigger] children[k]) != end_of(children[p])
}

/// The position of the child that ends last before `bound`, and of several
/// such the first; `None` where none ends before `bound`.
pub open spec fn pick_before(children: Seq<Span>, bound: int) -> Option<int> {
    if exists|p: int| is_pick(children, bound, p) {
        Some(choose|p: int| is_pick(children, bound, p))
    } else {
        None
    }
}

/// There is one pick at most.
pub proof fn lemma_pick(children: Seq<Span>, bound: int, p: int)
    requires
        is_pick(children, bound, p),
    ensures
        pick_before(children, bound) == Some(p),
{
    let q = choose|q: int| is_pick(children, bound, q);
    assert(is_pick(children, bound, q));
    assert(end_of(children[q]) <= end_of(children[p]));
    assert(end_of(children[p]) <= end_of(children[q]));
    if q < p {
        assert(end_of(children[q]) != end_of(children[p]));
    } else if p < q {
        assert(end_of(children[p]) != end_of(children[q]));
    }
}

/// The children recorded for span `id`: those of the first entry with
/// that id from position `from` on.
pub open spec fn kids(children: Seq<(String, Vec<Span>)>, id: Seq<char>, from: int) -> Option<
    Seq<Span>,
>
    decreases children.len() - from,
{
    if from < 0 || from >= children.len() {
        None
    } else if children[from].0@ == id {
        Some(children[from].1@)
    } else {
        kids(children, id, from + 1)
    }
}

/// Whether every span of `spans` ends at a time that has a timestamp.
pub open spec fn all_bounded(spans: Seq<Span>) -> bool {
    forall|k: int| 0 <= k < spans.len() ==> (#[trigger] spans[k]).bounded()
}

/// How many spans `Span::to_critical_path` puts into the chain for `span`
/// at nesting depth `depth`: the span itself and what its chosen children
/// put in. `None` where the span cannot be converted: the depth is used
/// up, the span or one of its children ends at no timestamp, its children
/// are not recorded, or a chosen child cannot be converted.
pub open spec fn converted_count(st: SpanTrace, span: Span, depth: nat) -> Option<nat>
    decreases depth, 0nat,
{
    if depth == 0 || !span.bounded() {
        None
    } else {
        match kids(st.children@, span.span_id@, 0) {
            None => None,
            Some(children) => if !all_bounded(children) {
                None
            } else {
                match rest_count(st, children, i64::MAX + 1, (depth - 1) as nat, children.len()) {
                    Some(c) => Some(c + 1),
                    None => None,
                }
            },
        }
    }
}

/// How many spans the children chosen below `bound` put into the chain,
/// `fuel` of them at most: the child that ends last before `bound`, then
/// the one that ends last before that child starts, and so on.
pub open spec fn rest_count(st: SpanTrace, children: Seq<Span>, bound: int, depth: nat, fuel: nat) -> Option<
    nat,
>
    decreases depth, fuel + 1,
{
    if fuel == 0 {
        Some(0)
    } else {
        match pick_before(children, bound) {
            None => Some(0),
            Some(p) => match converted_count(st, children[p], depth) {
                None => None,
                Some(c) => match rest_count(
                    st,
                    children,
                    children[p].start as int,
                    depth,
                    (fuel - 1) as nat,
                ) {
                    None => None,
                    Some(r) => Some(c + r),
                },
            },
        }
    }
}

/// Whether a graph with `nodes` nodes and `links` edges has room for the
/// chain of `count` spans: two nodes for each span, and an edge in front of
/// each node but the last of an empty graph.
pub open spec fn has_room(nodes: nat, links: nat, count: nat) -> bool {
    nodes + 2 * count <= u32::MAX && links + 2 * count - (if nodes == 0 { 1int } else { 0int })
        <= u32::MAX
}

/// The last span of `spans` with the id `id`, below position `upto`.
pub open spec fn last_span(spans: Seq<Span>, id: Seq<char>, upto: int) -> Option<Span>
    decreases upto,
{
    if upto <= 0 || upto > spans.len() {
        None
    } else if spans[upto - 1].span_id@ == id {
        Some(spans[upto - 1])
    } else {
        last_span(spans, id, upto - 1)
    }
}

/// Whether the graph of `res` is the simple chain `c` from the first node
/// of `res` to its last.
pub open spec fn chain_of(res: Trace, c: Chain) -> bool {
    &&& is_chain(res.nodes(), res.links(), c)
    &&& c.order[0] == res.start_node
    &&& c.order.last() == res.end_node
}

/// Whether `res` is empty or a simple chain from its first node to its
/// last.
pub open spec fn is_path(res: Trace) -> bool {
    res.nodes().dom().len() == 0 || exists|c: Chain| chain_of(res, c)
}

/// A graph of one node and no edge is a chain.
pub proof fn lemma_single(res: Trace, idx: int)
    requires
        res.wf(),
        res.nodes().dom() =~= set![idx],
        res.links().dom() =~= Set::empty(),
        res.start_node == idx,
        res.end_node == idx,
    ensures
        chain_of(res, Chain { order: seq![idx], hops: Seq::empty() }),
{
    let c = Chain { order: seq![idx], hops: Seq::empty() };
    assert(c.order[0] == idx);
    assert(res.nodes().contains_key(idx));
    assert forall|n: int| #[trigger] res.nodes().contains_key(n) implies c.order.contains(n) by {
        assert(res.nodes().dom().contains(n));
        assert(c.order[0] == n);
    }
    assert forall|e: int| #[trigger] res.links().contains_key(e) implies c.hops.contains(e) by {
        assert(res.links().dom().contains(e));
    }
}

/// What is kept twice is kept.
pub proof fn lemma_kept_names(
    a: Map<Seq<char>, usize>,
    b: Map<Seq<char>, usize>,
    c: Map<Seq<char>, usize>,
)
    requires
        a.submap_of(b),
        b.submap_of(c),
    ensures
        a.submap_of(c),
{
    assert forall|k: Seq<char>| #[trigger] a.dom().contains(k) implies c.dom().contains(k) && a[k]
        == c[k] by {
        if b.dom().contains(k) && a[k] == b[k] {
            if c.dom().contains(k) && b[k] == c[k] {
            }
        }
    }
}

/// A finite map that holds a key is not empty.
pub proof fn lemma_some_nodes(nodes: Map<int, Event>, n: int)
    requires
        nodes.dom().finite(),
        nodes.contains_key(n),
    ensures
        nodes.dom().len() > 0,
{
    if nodes.dom().len() == 0 {
        assert(nodes.dom() =~= Set::empty());
        assert(nodes.dom().contains(n));
    }
}

/// The spans of one request, with the children of each.
pub struct SpanTrace {
    pub endpoint_type: String,
    pub req_id: String,
    pub root_span_id: String,
    /// The spans; of several with one id the last one counts.
    pub spans: Vec<Span>,
    /// For each span id that is known, the spans that name it as their
    /// parent, in the order they arrived.
    pub children: Vec<(String, Vec<Span>)>,
}

impl SpanTrace {
    /// The position in `children` of the entry for span `id`: the first
    /// with that id.
    pub fn children_at(&self, id: &str) -> (place: Option<usize>)
        ensures
            match place {
                Some(p) => p < self.children@.len() && self.children@[p as int].0@ == id@
                    && forall|k: int| 0 <= k < p ==> (#[trigger] self.children@[k]).0@ != id@,
                None => forall|k: int|
                    0 <= k < self.children@.len() ==> (#[trigger] self.children@[k]).0@ != id@,
            },
            kids(self.children@, id@, 0) == (match place {
                Some(p) => Some(self.children@[p as int].1@),
                None => None,
            }),
    {
        let mut k: usize = 0;
        while k < self.children.len()
            invariant
                0 <= k <= self.children@.len(),
                forall|j: int| 0 <= j < k ==> (#[trigger] self.children@[j]).0@ != id@,
                kids(self.children@, id@, 0) == kids(self.children@, id@, k as int),
            decreases self.children@.len() - k,
        {
            if same_text(self.children[k].0.as_str(), id) {
                return Some(k);
            }
            k += 1;
        }
        None
    }

    /// The position in `spans` of the span `id`: the last with that id.
    pub fn span_at(&self, id: &str) -> (place: Option<usize>)
        ensures
            match place {
                Some(p) => p < self.spans@.len() && self.spans@[p as int].span_id@ == id@
                    && forall|k: int|
                    p < k < self.spans@.len() ==> (#[trigger] self.spans@[k]).span_id@ != id@,
                None => forall|k: int|
                    0 <= k < self.spans@.len() ==> (#[trigger] self.spans@[k]).span_id@ != id@,
            },
            last_span(self.spans@, id@, self.spans@.len() as int) == (match place {
                Some(p) => Some(self.spans@[p as int]),
                None => None,
            }),
    {
        let mut k: usize = self.spans.len();
        while k > 0
            invariant
                0 <= k <= self.spans@.len(),
                forall|j: int| k <= j < self.spans@.len() ==> (#[trigger] self.spans@[j]).span_id@ != id@,
                last_span(self.spans@, id@, self.spans@.len() as int) == last_span(
                    self.spans@,
                    id@,
                    k as int,
                ),
            decreases k,
        {
            k -= 1;
            if same_text(self.spans[k].span_id.as_str(), id) {
                return Some(k);
            }
        }
        None
    }

    /// Records a span: it is added to the spans, to the children of
    /// `parent` unless `parent` is empty, and gets an entry for children of
    /// its own unless it has one.
    pub fn add_span(&mut self, to_add: Span, parent: String)
        ensures
            final(self).endpoint_type == old(self).endpoint_type,
            final(self).req_id == old(self).req_id,
            final(self).root_span_id == old(self).root_span_id,
            final(self).spans@ == old(self).spans@.push(to_add),
            final(self).children@.len() >= old(self).children@.len(),
            forall|k: int|
                0 <= k < old(self).children@.len() ==> (#[trigger] final(self).children@[k]).0
                    == old(self).children@[k].0,
            exists|k: int|
                0 <= k < final(self).children@.len() && (#[trigger] final(self).children@[k]).0@
                    == to_add.span_id@,
            parent@.len() > 0 ==> exists|k: int|
                0 <= k < final(self).children@.len() && (#[trigger] final(self).children@[k]).0@
                    == parent@ && final(self).children@[k].1@.len() > 0
                    && final(self).children@[k].1@.last() == to_add,
    {
        let copy = to_add.duplicate();
        let own_id = to_add.span_id.clone();
        self.spans.push(to_add);
        let ghost before = self.children@;
        let ghost mut pk: int = 0;
        if !parent.as_str().is_empty() {
            match self.children_at(parent.as_str()) {
                Some(p) => {
                    let mut entry = self.children.remove(p);
                    entry.1.push(copy);
                    self.children.insert(p, entry);
                    assert(self.children@[p as int].0@ == parent@);
                    assert(self.children@[p as int].1@.last() == to_add);
                    assert forall|k: int| 0 <= k < before.len() implies (#[trigger] self.children@[k]).0
                        == before[k].0 by {}
                },
                None => {
                    let mut list = Vec::new();
                    list.push(copy);
                    self.children.push((parent, list));
                    assert(self.children@[before.len() as int].0@ == parent@);
                    assert(self.children@[before.len() as int].1@.last() == to_add);
                },
            }
        }
        let ghost middle = self.children@;
        proof {
            if parent@.len() > 0 {
                let k = choose|k: int|
                    0 <= k < middle.len() && (#[trigger] middle[k]).0@ == parent@ && middle[k].1@.len()
                        > 0 && middle[k].1@.last() == to_add;
                pk = k;
            }
        }
        match self.children_at(own_id.as_str()) {
            Some(p) => {
                assert(self.children@[p as int].0@ == own_id@);
            },
            None => {
                self.children.push((own_id, Vec::new()));
                assert(self.children@[middle.len() as int].0@ == to_add.span_id@);
                assert forall|k: int| 0 <= k < middle.len() implies (#[trigger] self.children@[k])
                    == middle[k] by {}
            },
        }
        proof {
            if parent@.len() > 0 {
                assert(self.children@[pk] == middle[pk]);
            }
        }
    }

    /// The trace of the spans in `spans`, each recorded under the parent
    /// that it names.
    pub fn from_span_list(spans: Vec<Span>, oper_name: String, root_span_id: String, trace_id: String) -> (trace:
        SpanTrace)
        ensures
            trace.endpoint_type == oper_name,
            trace.req_id == trace_id,
            trace.root_span_id == root_span_id,
            trace.spans@ == spans@,
    {
        let mut trace = SpanTrace {
            endpoint_type: oper_name,
            req_id: trace_id,
            root_span_id,
            spans: Vec::new(),
            children: Vec::new(),
        };
        let mut k: usize = 0;
        while k < spans.len()
            invariant
                0 <= k <= spans@.len(),
                trace.endpoint_type == oper_name,
                trace.req_id == trace_id,
                trace.root_span_id == root_span_id,
                trace.spans@ == spans@.take(k as int),
            decreases spans@.len() - k,
        {
            let span = spans[k].duplicate();
            let parent = spans[k].parent.clone();
            trace.add_span(span, parent);
            assert(spans@.take(k + 1) =~= spans@.take(k as int).push(spans@[k as int]));
            k += 1;
        }
        assert(spans@.take(k as int) =~= spans@);
        trace
    }

    /// How many spans the chain of the request holds: what the root span,
    /// the last span with the root's id, puts into it when spans may nest
    /// as deep as there are spans. `None` where the root is not recorded or
    /// cannot be converted.
    pub open spec fn chain_count(&self) -> Option<nat> {
        match last_span(self.spans@, self.root_span_id@, self.spans@.len() as int) {
            Some(root) => converted_count(*self, root, self.spans@.len()),
            None => None,
        }
    }

    /// The chain of events of the request: the root span's, put together
    /// by `Span::to_critical_path`. It comes back exactly when the root
    /// can be converted and the chain fits a graph, and then holds two
    /// events for each span converted. The trace carries the request's id and
    /// its endpoint as request type. Fails with `MalformedTrace` where the
    /// root span is not recorded.
    pub fn to_critical_path(&self, registry: &mut TracepointRegistry) -> (built: Result<
        Trace,
        ExtractError,
    >)
        requires
            old(registry).wf(),
        ensures
            final(registry).wf(),
            old(registry).ids().submap_of(final(registry).ids()),
            match built {
                Ok(trace) => {
                    &&& trace.wf()
                    &&& trace.base_id@ == crate::event::IdKey::Text(self.req_id@)
                    &&& trace.request_type == RequestType::Jaeger(
                        JaegerRequestType { rt: self.endpoint_type },
                    )
                    &&& trace.nodes().contains_key(trace.start_node as int)
                    &&& trace.nodes().contains_key(trace.end_node as int)
                    &&& trace.nodes()[trace.start_node as int].variant == EventType::Entry
                    &&& trace.nodes()[trace.end_node as int].variant == EventType::Exit
                    &&& is_path(trace)
                },
                Err(e) => true,
            },
            match self.chain_count() {
                Some(count) => {
                    &&& built is Ok <==> 2 * count <= u32::MAX
                    &&& built is Ok ==> built->Ok_0.nodes().dom().len() == 2 * count
                        && built->Ok_0.links().dom().len() == 2 * count - 1
                },
                None => built is Err,
            },
    {
        let mut trace = Trace::new(&IDType::STRING(self.req_id.clone()));
        trace.set_req_type(RequestType::Jaeger(JaegerRequestType { rt: self.endpoint_type.clone() }));
        let root = match self.span_at(self.root_span_id.as_str()) {
            Some(p) => p,
            None => {
                return Err(ExtractError::MalformedTrace);
            },
        };
        let depth = self.spans.len();
        assert(trace.nodes().dom() =~= Set::empty());
        assert(trace.links().dom() =~= Set::empty());
        match self.spans[root].to_critical_path(
            self,
            &mut trace,
            String::new(),
            String::new(),
            registry,
            depth,
        ) {
            Ok(()) => {
                assert(trace.nodes().contains_key(trace.start_node as int));
                assert(trace.nodes().contains_key(trace.end_node as int));
                assert(trace.nodes()[trace.start_node as int].variant == EventType::Entry);
                assert(trace.nodes()[trace.end_node as int].variant == EventType::Exit);
                assert(trace.base_id@ == crate::event::IdKey::Text(self.req_id@));
                assert(trace.request_type == RequestType::Jaeger(
                    JaegerRequestType { rt: self.endpoint_type },
                ));
                Ok(trace)
            },
            Err(e) => Err(e),
        }
    }

    /// The span `from` and its ancestors, from `from` upwards. `None` where
    /// a span on the way is not recorded or the way up does not end.
    pub fn get_backtrace(&self, from: String) -> (way: Option<Vec<Span>>)
        ensures
            match way {
                Some(list) => {
                    &&& list@.len() <= self.spans@.len()
                    &&& from@.len() == 0 <==> list@.len() == 0
                    &&& list@.len() > 0 ==> list@[0].span_id@ == from@ && list@.last().parent@.len()
                        == 0
                    &&& forall|k: int|
                        0 <= k < list@.len() ==> self.spans@.contains(#[trigger] list@[k])
                    &&& forall|k: int|
                        0 <= k < list@.len() - 1 ==> (#[trigger] list@[k]).parent@ == list@[k
                            + 1].span_id@
                },
                None => from@.len() > 0,
            },
    {
        let mut list: Vec<Span> = Vec::new();
        let mut cur = from;
        while !cur.as_str().is_empty()
            invariant
                list@.len() <= self.spans@.len(),
                list@.len() == 0 ==> cur@ == from@,
                list@.len() > 0 ==> list@[0].span_id@ == from@ && list@.last().parent@ == cur@,
                from@.len() == 0 ==> list@.len() == 0,
                forall|k: int| 0 <= k < list@.len() ==> self.spans@.contains(#[trigger] list@[k]),
                forall|k: int|
                    0 <= k < list@.len() - 1 ==> (#[trigger] list@[k]).parent@ == list@[k + 1].span_id@,
            decreases self.spans@.len() - list@.len(),
        {
            if list.len() >= self.spans.len() {
                return None;
            }
            let place = match self.span_at(cur.as_str()) {
                Some(p) => p,
                None => {
                    return None;
                },
            };
            let span = self.spans[place].duplicate();
            let ghost before = list@;
            cur = span.parent.clone();
            list.push(span);
            proof {
                assert(self.spans@.contains(self.spans@[place as int]));
                assert forall|k: int| 0 <= k < list@.len() - 1 implies (#[trigger] list@[k]).parent@
                    == list@[k + 1].span_id@ by {
                    if k < before.len() - 1 {
                        assert(list@[k] == before[k]);
                    }
                }
            }
        }
        Some(list)
    }

    /// The features of the span `from` and of its ancestors, upwards.
    pub fn backtrace_features(&self, from: String) -> (features: Option<Vec<Feature>>)
        ensures
            match features {
                Some(list) => from@.len() == 0 <==> list@.len() == 0,
                None => from@.len() > 0,
            },
    {
        let way = match self.get_backtrace(from) {
            Some(way) => way,
            None => {
                return None;
            },
        };
        let mut features: Vec<Feature> = Vec::new();
        let mut k: usize = 0;
        while k < way.len()
            invariant
                0 <= k <= way@.len(),
                features@.len() == 2 * k,
            decreases way@.len() - k,
        {
            let mut own = way[k].get_features();
            let second = own.pop();
            let first = own.pop();
            if let Some(f) = first {
                features.push(f);
            }
            if let Some(f) = second {
                features.push(f);
            }
            k += 1;
        }
        Some(features)
    }
}

/// The spans seen on one host: when each ran, and which trace and span it
/// was.
pub struct HostSpans {
    pub host: String,
    pub times: Vec<(u64, u64)>,
    pub refs: Vec<(String, String)>,
}

/// The spans seen so far, host by host, in the order they arrived.
pub struct SpanCache {
    pub hosts: Vec<HostSpans>,
}

/// When a span ran, as the cache records it: start and end in nanoseconds,
/// as unsigned numbers.
pub open spec fn span_time(span: Span) -> (u64, u64) {
    (span.start as u64, (span.start as u64).wrapping_add(span.duration))
}

/// The times of the spans of `spans` that ran on `host`, in order.
pub open spec fn span_times(spans: Seq<Span>, host: Seq<char>) -> Seq<(u64, u64)>
    decreases spans.len(),
{
    if spans.len() == 0 {
        Seq::empty()
    } else if spans.last().host@ == host {
        span_times(spans.drop_last(), host).push(span_time(spans.last()))
    } else {
        span_times(spans.drop_last(), host)
    }
}

/// The references to the spans of `spans` that ran on `host`, in order:
/// the id of their trace, `id`, and their own.
pub open spec fn span_refs(spans: Seq<Span>, id: String, host: Seq<char>) -> Seq<(String, String)>
    decreases spans.len(),
{
    if spans.len() == 0 {
        Seq::empty()
    } else if spans.last().host@ == host {
        span_refs(spans.drop_last(), id, host).push((id, spans.last().span_id))
    } else {
        span_refs(spans.drop_last(), id, host)
    }
}

/// Whether a time window shares some time with a span that ran over `time`.
pub open spec fn shares_time(target_start: u64, target_end: u64, time: (u64, u64)) -> bool {
    target_end > time.0 && target_start < time.1
}

/// Of the first `n` spans, the references of those that share time with
/// the window, in order.
pub open spec fn overlapping(
    times: Seq<(u64, u64)>,
    refs: Seq<(String, String)>,
    target_start: u64,
    target_end: u64,
    n: int,
) -> Seq<(String, String)>
    decreases n,
{
    if n <= 0 {
        Seq::empty()
    } else if shares_time(target_start, target_end, times[n - 1]) {
        overlapping(times, refs, target_start, target_end, n - 1).push(refs[n - 1])
    } else {
        overlapping(times, refs, target_start, target_end, n - 1)
    }
}

impl SpanCache {
    /// Every host occurs once, and has a reference for each time.
    pub open spec fn wf(&self) -> bool {
        &&& forall|i: int|
            0 <= i < self.hosts@.len() ==> (#[trigger] self.hosts@[i]).times@.len()
                == self.hosts@[i].refs@.len()
        &&& forall|i: int, j: int|
            0 <= i < j < self.hosts@.len() ==> (#[trigger] self.hosts@[i]).host@
                != (#[trigger] self.hosts@[j]).host@
    }

    /// Where `host` stands in the cache, if it does.
    pub open spec fn place_of(&self, host: Seq<char>) -> Option<int> {
        if exists|i: int| 0 <= i < self.hosts@.len() && (#[trigger] self.hosts@[i]).host@ == host {
            Some(choose|i: int| 0 <= i < self.hosts@.len() && (#[trigger] self.hosts@[i]).host@ == host)
        } else {
            None
        }
    }

    /// Whether this cache is `before` with one more span on `host`: at the
    /// host's place where `before` knows the host, else at a new place
    /// behind all others.
    pub open spec fn extends(
        &self,
        before: SpanCache,
        host: Seq<char>,
        time: (u64, u64),
        reference: (String, String),
    ) -> bool {
        match before.place_of(host) {
            Some(i) => {
                &&& self.hosts@.len() == before.hosts@.len()
                &&& self.hosts@[i].host == before.hosts@[i].host
                &&& self.hosts@[i].times@ == before.hosts@[i].times@.push(time)
                &&& self.hosts@[i].refs@ == before.hosts@[i].refs@.push(reference)
                &&& forall|j: int|
                    0 <= j < before.hosts@.len() && j != i ==> self.hosts@[j] == before.hosts@[j]
            },
            None => {
                &&& self.hosts@.len() == before.hosts@.len() + 1
                &&& self.hosts@.last().host@ == host
                &&& self.hosts@.last().times@ == seq![time]
                &&& self.hosts@.last().refs@ == seq![reference]
                &&& forall|j: int| 0 <= j < before.hosts@.len() ==> self.hosts@[j] == before.hosts@[j]
            },
        }
    }

    /// A cache without spans.
    pub fn init_cache() -> (cache: SpanCache)
        ensures
            cache.wf(),
            cache.hosts@.len() == 0,
    {
        SpanCache { hosts: Vec::new() }
    }

    /// The position of `host` in the cache.
    pub fn find_host(&self, host: &str) -> (place: Option<usize>)
        requires
            self.wf(),
        ensures
            match place {
                Some(i) => self.place_of(host@) == Some(i as int) && i < self.hosts@.len()
                    && self.hosts@[i as int].host@ == host@,
                None => self.place_of(host@) is None,
            },
    {
        let wanted = owned(host);
        let mut i: usize = 0;
        while i < self.hosts.len()
            invariant
                self.wf(),
                wanted@ == host@,
                0 <= i <= self.hosts@.len(),
                forall|j: int| 0 <= j < i ==> (#[trigger] self.hosts@[j]).host@ != host@,
            decreases self.hosts@.len() - i,
        {
            if self.hosts[i].host == wanted {
                proof {
                    let found = choose|j: int|
                        0 <= j < self.hosts@.len() && (#[trigger] self.hosts@[j]).host@ == host@;
                    if found < i {
                        assert(self.hosts@[found].host@ != self.hosts@[i as int].host@);
                    } else if found > i {
                        assert(self.hosts@[i as int].host@ != self.hosts@[found].host@);
                    }
                }
                return Some(i);
            }
            i += 1;
        }
        None
    }

    /// Records that span `span_id` of trace `trace_id` ran on `host` from
    /// `start` to `end`. The other hosts stay as they were.
    pub fn add_span_raw(&mut self, host: String, trace_id: String, span_id: String, start: u64, end: u64)
        requires
            old(self).wf(),
        ensures
            final(self).wf(),
            final(self).place_of(host@) is Some,
            final(self).extends(*old(self), host@, (start, end), (trace_id, span_id)),
    {
        match self.find_host(host.as_str()) {
            Some(i) => {
                let mut entry = self.hosts.remove(i);
                entry.times.push((start, end));
                entry.refs.push((trace_id, span_id));
                self.hosts.insert(i, entry);
                proof {
                    assert(self.hosts@.len() == old(self).hosts@.len());
                    assert forall|j: int| 0 <= j < self.hosts@.len() implies (
                    #[trigger] self.hosts@[j]).host@ == old(self).hosts@[j].host@ by {}
                    assert(self.hosts@[i as int].host@ == host@);
                }
            },
            None => {
                let mut times = Vec::new();
                times.push((start, end));
                let mut refs = Vec::new();
                refs.push((trace_id, span_id));
                let ghost name = host@;
                self.hosts.push(HostSpans { host, times, refs });
                proof {
                    assert(self.hosts@[old(self).hosts@.len() as int].host@ == name);
                    assert forall|i: int, j: int| 0 <= i < j < self.hosts@.len() implies (
                    #[trigger] self.hosts@[i]).host@ != (#[trigger] self.hosts@[j]).host@ by {
                        if j < old(self).hosts@.len() {
                            assert(old(self).hosts@[i].host@ != old(self).hosts@[j].host@);
                        } else {
                            assert(old(self).hosts@[i].host@ != name);
                        }
                    }
                }
            },
        }
    }

    /// Records a span of trace `trace_id` on the span's host, from its
    /// start to its end. Negative timestamps and ends past the largest
    /// number wrap round, as unsigned 64-bit arithmetic does.
    pub fn add_span(&mut self, to_add: Span, trace_id: String)
        requires
            old(self).wf(),
        ensures
            final(self).wf(),
            final(self).place_of(to_add.host@) is Some,
            final(self).extends(
                *old(self),
                to_add.host@,
                span_time(to_add),
                (trace_id, to_add.span_id),
            ),
    {
        let start_time = to_add.start as u64;
        let end_time = start_time.wrapping_add(to_add.duration);
        self.add_span_raw(to_add.host, trace_id, to_add.span_id, start_time, end_time);
    }

    /// The times recorded for `host`, in the order they arrived; none for a
    /// host that the cache has not seen.
    pub open spec fn times_on(&self, host: Seq<char>) -> Seq<(u64, u64)> {
        match self.place_of(host) {
            Some(i) => self.hosts@[i].times@,
            None => Seq::empty(),
        }
    }

    /// The trace and span ids recorded for `host`, in the order they
    /// arrived; none for a host that the cache has not seen.
    pub open spec fn refs_on(&self, host: Seq<char>) -> Seq<(String, String)> {
        match self.place_of(host) {
            Some(i) => self.hosts@[i].refs@,
            None => Seq::empty(),
        }
    }

    /// Whether this cache is `before` with the spans `spans` of the trace
    /// `id` recorded behind what `before` holds: on every host, the times
    /// and references of its spans, in their order.
    pub open spec fn grown_by(&self, before: SpanCache, spans: Seq<Span>, id: String) -> bool {
        forall|host: Seq<char>|
            #![trigger self.times_on(host)]
            #![trigger self.refs_on(host)]
            self.times_on(host) == before.times_on(host) + span_times(spans, host) && self.refs_on(
                host,
            ) == before.refs_on(host) + span_refs(spans, id, host)
    }

    /// Where a host stands in a cache, there it is found.
    pub proof fn lemma_place(self, i: int)
        requires
            self.wf(),
            0 <= i < self.hosts@.len(),
        ensures
            self.place_of(self.hosts@[i].host@) == Some(i),
    {
        let host = self.hosts@[i].host@;
        let found = choose|j: int| 0 <= j < self.hosts@.len() && (#[trigger] self.hosts@[j]).host@ == host;
        if found < i {
            assert(self.hosts@[found].host@ != self.hosts@[i].host@);
        } else if found > i {
            assert(self.hosts@[i].host@ != self.hosts@[found].host@);
        }
    }

    /// One more span on `host` adds its time and reference behind what the
    /// host has, and leaves the other hosts as they are.
    pub proof fn lemma_extended(
        self,
        before: SpanCache,
        host: Seq<char>,
        time: (u64, u64),
        reference: (String, String),
        other: Seq<char>,
    )
        requires
            before.wf(),
            self.wf(),
            self.extends(before, host, time, reference),
        ensures
            self.times_on(other) == (if other == host {
                before.times_on(other).push(time)
            } else {
                before.times_on(other)
            }),
            self.refs_on(other) == (if other == host {
                before.refs_on(other).push(reference)
            } else {
                before.refs_on(other)
            }),
    {
        match before.place_of(host) {
            Some(i) => {
                assert(before.hosts@[i].host@ == host);
                assert forall|j: int| 0 <= j < self.hosts@.len() implies (#[trigger] self.hosts@[j]).host@
                    == before.hosts@[j].host@ by {
                    if j != i {
                        assert(self.hosts@[j] == before.hosts@[j]);
                    }
                }
                match before.place_of(other) {
                    Some(j) => {
                        assert(before.hosts@[j].host@ == other);
                        assert(self.hosts@[j].host@ == other);
                        self.lemma_place(j);
                    },
                    None => {
                        if self.place_of(other) is Some {
                            let j = self.place_of(other)->0;
                            assert(self.hosts@[j].host@ == other);
                            assert(before.hosts@[j].host@ == other);
                            before.lemma_place(j);
                        }
                    },
                }
            },
            None => {
                let n = before.hosts@.len() as int;
                assert(self.hosts@[n].host@ == host);
                match before.place_of(other) {
                    Some(j) => {
                        assert(before.hosts@[j].host@ == other);
                        assert(self.hosts@[j] == before.hosts@[j]);
                        self.lemma_place(j);
                    },
                    None => {
                        if other == host {
                            self.lemma_place(n);
                            assert(Seq::<(u64, u64)>::empty().push(time) =~= seq![time]);
                            assert(Seq::<(String, String)>::empty().push(reference) =~= seq![reference]);
                        } else if self.place_of(other) is Some {
                            let j = self.place_of(other)->0;
                            assert(self.hosts@[j].host@ == other);
                            assert(j < n);
                            assert(self.hosts@[j] == before.hosts@[j]);
                            before.lemma_place(j);
                        }
                    },
                }
            },
        }
    }

    /// Records every span of `to_add` under the trace's request id, in the
    /// order in which the trace holds them.
    pub fn add_trace(&mut self, to_add: SpanTrace)
        requires
            old(self).wf(),
        ensures
            final(self).wf(),
            final(self).grown_by(*old(self), to_add.spans@, to_add.req_id),
    {
        let mut k: usize = 0;
        proof {
            assert forall|host: Seq<char>|
                #![trigger self.times_on(host)]
                #![trigger self.refs_on(host)]
                self.times_on(host) == self.times_on(host) + span_times(
                    to_add.spans@.take(0),
                    host,
                ) && self.refs_on(host) == self.refs_on(host) + span_refs(
                    to_add.spans@.take(0),
                    to_add.req_id,
                    host,
                ) by {
                assert(self.times_on(host) + Seq::<(u64, u64)>::empty() =~= self.times_on(host));
                assert(self.refs_on(host) + Seq::<(String, String)>::empty() =~= self.refs_on(host));
            }
        }
        while k < to_add.spans.len()
            invariant
                self.wf(),
                old(self).wf(),
                0 <= k <= to_add.spans@.len(),
                self.grown_by(*old(self), to_add.spans@.take(k as int), to_add.req_id),
            decreases to_add.spans@.len() - k,
        {
            let ghost mid = *self;
            let ghost span = to_add.spans@[k as int];
            self.add_span(to_add.spans[k].duplicate(), to_add.req_id.clone());
            proof {
                let done = to_add.spans@.take(k as int);
                let next = to_add.spans@.take(k + 1);
                assert(next.drop_last() =~= done);
                assert(next.last() == span);
                assert forall|host: Seq<char>|
                    #![trigger self.times_on(host)]
                    #![trigger self.refs_on(host)]
                    self.times_on(host) == old(self).times_on(host) + span_times(next, host)
                        && self.refs_on(host) == old(self).refs_on(host) + span_refs(
                        next,
                        to_add.req_id,
                        host,
                    ) by {
                    self.lemma_extended(
                        mid,
                        span.host@,
                        span_time(span),
                        (to_add.req_id, span.span_id),
                        host,
                    );
                    assert(mid.times_on(host) == old(self).times_on(host) + span_times(done, host));
                    assert(mid.refs_on(host) == old(self).refs_on(host) + span_refs(
                        done,
                        to_add.req_id,
                        host,
                    ));
                    if host == span.host@ {
                        assert((old(self).times_on(host) + span_times(done, host)).push(
                            span_time(span),
                        ) =~= old(self).times_on(host) + span_times(done, host).push(
                            span_time(span),
                        ));
                        assert((old(self).refs_on(host) + span_refs(done, to_add.req_id, host)).push(
                            (to_add.req_id, span.span_id),
                        ) =~= old(self).refs_on(host) + span_refs(done, to_add.req_id, host).push(
                            (to_add.req_id, span.span_id),
                        ));
                    }
                }
            }
            k += 1;
        }
        proof {
            assert(to_add.spans@.take(k as int) =~= to_add.spans@);
        }
    }

    /// The trace and span ids of the spans on `host` that share time with
    /// the window from `target_start` to `target_end`, in the order they
    /// arrived; none for a host that the cache has not seen.
    pub fn find_overlaps_raw(&self, target_start: u64, target_end: u64, host: String) -> (found: Vec<
        (String, String),
    >)
        requires
            self.wf(),
        ensures
            match self.place_of(host@) {
                Some(i) => found@ == overlapping(
                    self.hosts@[i].times@,
                    self.hosts@[i].refs@,
                    target_start,
                    target_end,
                    self.hosts@[i].times@.len() as int,
                ),
                None => found@.len() == 0,
            },
    {
        let mut found: Vec<(String, String)> = Vec::new();
        match self.find_host(host.as_str()) {
            Some(i) => {
                let entry = &self.hosts[i];
                let mut k: usize = 0;
                while k < entry.times.len()
                    invariant
                        entry.times@.len() == entry.refs@.len(),
                        0 <= k <= entry.times@.len(),
                        found@ == overlapping(
                            entry.times@,
                            entry.refs@,
                            target_start,
                            target_end,
                            k as int,
                        ),
                    decreases entry.times@.len() - k,
                {
                    let time = entry.times[k];
                    if target_end > time.0 && target_start < time.1 {
                        let pair = &entry.refs[k];
                        found.push((pair.0.clone(), pair.1.clone()));
                    }
                    k += 1;
                }
                found
            },
            None => found,
        }
    }

    /// The trace and span ids of the spans on the target's host that share
    /// time with the target.
    pub fn find_overlaps(&self, target: &Span) -> (found: Vec<(String, String)>)
        requires
            self.wf(),
        ensures
            match self.place_of(target.host@) {
                Some(i) => found@ == overlapping(
                    self.hosts@[i].times@,
                    self.hosts@[i].refs@,
                    target.start as u64,
                    (target.start as u64).wrapping_add(target.duration),
                    self.hosts@[i].times@.len() as int,
                ),
                None => found@.len() == 0,
            },
    {
        let target_start = target.start as u64;
        let target_end = target_start.wrapping_add(target.duration);
        self.find_overlaps_raw(target_start, target_end, target.host.clone())
    }
}

} // verus!
