//! Simple chains: what it means for a graph to be one, and what splicing
//! does to one.

use vstd::prelude::*;
use crate::event::{DAGEdge, EdgeType, Event};
use crate::graph::{incident, Link};

verus! {


/// The shape of a path: its nodes from first to last, and the edge between
/// each node and the next.
pub struct Chain {
    pub order: Seq<int>,
    pub hops: Seq<int>,
}

/// Whether the graph made of `nodes` and `links` is exactly the simple chain
/// `c`: every node occurs once in `c.order`, every edge once in `c.hops`,
/// and edge `c.hops[i]` leads from `c.order[i]` to `c.order[i + 1]`.
pub open spec fn is_chain(nodes: Map<int, Event>, links: Map<int, Link>, c: Chain) -> bool {
    &&& c.order.len() == c.hops.len() + 1
    &&& c.order.no_duplicates()
    &&& c.hops.no_duplicates()
    &&& forall|i: int| 0 <= i < c.order.len() ==> nodes.contains_key(#[trigger] c.order[i])
    &&& forall|n: int| #[trigger] nodes.contains_key(n) ==> c.order.contains(n)
    &&& forall|i: int| 0 <= i < c.hops.len() ==> links.contains_key(#[trigger] c.hops[i])
    &&& forall|e: int| #[trigger] links.contains_key(e) ==> c.hops.contains(e)
    &&& forall|i: int|
        0 <= i < c.hops.len() ==> (#[trigger] links[c.hops[i]]).src == c.order[i]
            && links[c.hops[i]].dst == c.order[i + 1]
}

/// The durations of the edges of chain `c`, from first to last.
pub open spec fn chain_times(links: Map<int, Link>, c: Chain) -> Seq<int> {
    Seq::new(c.hops.len(), |i: int| links[c.hops[i]].weight.duration as int)
}

/// The weights of the edges of chain `c`, from first to last.
pub open spec fn chain_weights(links: Map<int, Link>, c: Chain) -> Seq<DAGEdge> {
    Seq::new(c.hops.len(), |i: int| links[c.hops[i]].weight)
}

/// The edge that leads to a synthetic event: one nanosecond, without
/// labels.
pub open spec fn unit_edge() -> DAGEdge {
    DAGEdge { duration: 1, variant: EdgeType::ChildOf, service: None, host: None }
}

/// The edge that leads on from a synthetic event: as long as the edge it
/// stands for, without labels.
pub open spec fn carried_edge(edge: DAGEdge) -> DAGEdge {
    DAGEdge { duration: edge.duration, variant: EdgeType::ChildOf, service: None, host: None }
}

/// The weights of the edges after a synthetic event was put behind
/// position `i`: the edge to it takes the place of the edge that left
/// position `i`, which leads on from it; the other edges keep their
/// weights.
pub open spec fn spliced_weights(weights: Seq<DAGEdge>, i: int) -> Seq<DAGEdge> {
    Seq::new(
        weights.len() + 1,
        |k: int|
            if k < i {
                weights[k]
            } else if k == i {
                unit_edge()
            } else if k == i + 1 {
                carried_edge(weights[i])
            } else {
                weights[k - 1]
            },
    )
}

/// Whether every edge of chain `c` lasts exactly as long as the timestamps
/// of its two ends are apart.
pub open spec fn chain_exact(nodes: Map<int, Event>, links: Map<int, Link>, c: Chain) -> bool {
    forall|i: int|
        0 <= i < c.hops.len() ==> #[trigger] chain_times(links, c)[i] == nodes[c.order[i
            + 1]].timestamp - nodes[c.order[i]].timestamp
}

/// The events of the nodes `order`, in that order.
pub open spec fn chain_events(nodes: Map<int, Event>, order: Seq<int>) -> Seq<Event> {
    Seq::new(order.len(), |k: int| nodes[order[k]])
}

/// Where a new node is put into a chain, its event is put into the
/// chain's events.
pub proof fn lemma_events_insert(
    nodes: Map<int, Event>,
    order: Seq<int>,
    at: int,
    nw: int,
    ev: Event,
)
    requires
        0 <= at <= order.len(),
        !nodes.contains_key(nw),
        forall|k: int| 0 <= k < order.len() ==> nodes.contains_key(#[trigger] order[k]),
    ensures
        chain_events(nodes.insert(nw, ev), order.insert(at, nw)) == chain_events(
            nodes,
            order,
        ).insert(at, ev),
{
    let left = chain_events(nodes.insert(nw, ev), order.insert(at, nw));
    let right = chain_events(nodes, order).insert(at, ev);
    assert(left.len() == right.len());
    assert forall|k: int| 0 <= k < left.len() implies left[k] == right[k] by {
        if k < at {
            assert(nodes.contains_key(order[k]));
        } else if k > at {
            assert(nodes.contains_key(order[k - 1]));
        }
    }
    assert(left =~= right);
}

/// The sum of a sequence of integers.
pub open spec fn total(s: Seq<int>) -> int
    decreases s.len(),
{
    if s.len() == 0 {
        0
    } else {
        total(s.drop_last()) + s.last()
    }
}

/// The sum of two sequences joined is the sum of their sums.
pub proof fn lemma_total_concat(a: Seq<int>, b: Seq<int>)
    ensures
        total(a + b) == total(a) + total(b),
    decreases b.len(),
{
    if b.len() == 0 {
        assert(a + b =~= a);
    } else {
        assert((a + b).drop_last() =~= a + b.drop_last());
        lemma_total_concat(a, b.drop_last());
    }
}

/// In a sequence without repetition an element is found where it stands.
pub proof fn lemma_index_of<A>(s: Seq<A>, i: int)
    requires
        s.no_duplicates(),
        0 <= i < s.len(),
    ensures
        s.index_of(s[i]) == i,
{
    let j = s.index_of(s[i]);
    assert(0 <= j < s.len() && s[j] == s[i]);
}

/// A chain has as many nodes as `order` is long and as many edges as `hops`.
pub proof fn lemma_chain_sizes(nodes: Map<int, Event>, links: Map<int, Link>, c: Chain)
    requires
        is_chain(nodes, links, c),
    ensures
        nodes.dom().finite(),
        links.dom().finite(),
        nodes.dom().len() == c.order.len(),
        links.dom().len() == c.hops.len(),
{
    assert forall|n: int| nodes.dom().contains(n) <==> c.order.to_set().contains(n) by {
        if nodes.dom().contains(n) {
            assert(nodes.contains_key(n));
            assert(c.order.contains(n));
        }
        if c.order.to_set().contains(n) {
            assert(c.order.contains(n));
            let i = choose|i: int| 0 <= i < c.order.len() && c.order[i] == n;
            assert(nodes.contains_key(c.order[i]));
        }
    }
    assert(nodes.dom() =~= c.order.to_set());
    assert forall|e: int| links.dom().contains(e) <==> c.hops.to_set().contains(e) by {
        if links.dom().contains(e) {
            assert(links.contains_key(e));
            assert(c.hops.contains(e));
        }
        if c.hops.to_set().contains(e) {
            assert(c.hops.contains(e));
            let i = choose|i: int| 0 <= i < c.hops.len() && c.hops[i] == e;
            assert(links.contains_key(c.hops[i]));
        }
    }
    assert(links.dom() =~= c.hops.to_set());
    vstd::seq_lib::seq_to_set_is_finite(c.order);
    vstd::seq_lib::seq_to_set_is_finite(c.hops);
    c.order.unique_seq_to_set();
    c.hops.unique_seq_to_set();
}

/// Every edge of a chain joins two of its nodes.
pub proof fn lemma_chain_closed(nodes: Map<int, Event>, links: Map<int, Link>, c: Chain)
    requires
        is_chain(nodes, links, c),
    ensures
        forall|e: int| #[trigger]
            links.contains_key(e) ==> nodes.contains_key(links[e].src) && nodes.contains_key(
                links[e].dst,
            ),
{
    assert forall|e: int| #[trigger] links.contains_key(e) implies nodes.contains_key(links[e].src)
        && nodes.contains_key(links[e].dst) by {
        assert(c.hops.contains(e));
        let j = choose|j: int| 0 <= j < c.hops.len() && c.hops[j] == e;
        assert(links[c.hops[j]].src == c.order[j]);
        assert(nodes.contains_key(c.order[j]));
        assert(nodes.contains_key(c.order[j + 1]));
    }
}

/// The chain that results when node `nw` is put behind position `i`, edge
/// `e1` leads to it and, where `i` was not the last position, edge `e2`
/// leads on from it in place of the edge that left position `i`.
pub open spec fn spliced(c: Chain, i: int, nw: int, e1: int, e2: int) -> Chain {
    Chain {
        order: Seq::new(
            c.order.len() + 1,
            |k: int|
                if k <= i {
                    c.order[k]
                } else if k == i + 1 {
                    nw
                } else {
                    c.order[k - 1]
                },
        ),
        hops: Seq::new(
            c.hops.len() + 1,
            |k: int|
                if k < i {
                    c.hops[k]
                } else if k == i {
                    e1
                } else if k == i + 1 {
                    e2
                } else {
                    c.hops[k - 1]
                },
        ),
    }
}

/// Splicing a new node into the middle of a chain gives a chain.
pub proof fn lemma_splice_middle(
    nodes: Map<int, Event>,
    links: Map<int, Link>,
    c: Chain,
    i: int,
    nw: int,
    ev: Event,
    e1: int,
    l1: Link,
    e2: int,
    l2: Link,
)
    requires
        is_chain(nodes, links, c),
        0 <= i < c.hops.len(),
        !nodes.contains_key(nw),
        !links.contains_key(e1),
        e2 != e1,
        e2 == c.hops[i] || !links.contains_key(e2),
        l1.src == c.order[i],
        l1.dst == nw,
        l2.src == nw,
        l2.dst == c.order[i + 1],
    ensures
        is_chain(
            nodes.insert(nw, ev),
            links.insert(e1, l1).remove(c.hops[i]).insert(e2, l2),
            spliced(c, i, nw, e1, e2),
        ),
{
    let nodes2 = nodes.insert(nw, ev);
    let links2 = links.insert(e1, l1).remove(c.hops[i]).insert(e2, l2);
    let c2 = spliced(c, i, nw, e1, e2);
    assert forall|a: int, b: int|
        0 <= a < c2.order.len() && 0 <= b < c2.order.len() && a != b implies c2.order[a]
        != c2.order[b] by {
        let a0 = if a <= i { a } else { a - 1 };
        let b0 = if b <= i { b } else { b - 1 };
        if a != i + 1 && b != i + 1 {
            assert(c.order[a0] != c.order[b0]);
        } else if a == i + 1 {
            assert(nodes.contains_key(c.order[b0]));
        } else {
            assert(nodes.contains_key(c.order[a0]));
        }
    }
    assert forall|a: int, b: int|
        0 <= a < c2.hops.len() && 0 <= b < c2.hops.len() && a != b implies c2.hops[a]
        != c2.hops[b] by {
        let old_at = |k: int| if k < i { k } else { k - 1 };
        if a != i && a != i + 1 {
            assert(links.contains_key(c.hops[old_at(a)]));
            assert(c.hops[old_at(a)] != c.hops[i]);
        }
        if b != i && b != i + 1 {
            assert(links.contains_key(c.hops[old_at(b)]));
            assert(c.hops[old_at(b)] != c.hops[i]);
        }
        if a != i && a != i + 1 && b != i && b != i + 1 {
            assert(c.hops[old_at(a)] != c.hops[old_at(b)]);
        }
    }
    assert forall|n: int| #[trigger] nodes2.contains_key(n) implies c2.order.contains(n) by {
        if n == nw {
            assert(c2.order[i + 1] == nw);
        } else {
            assert(nodes.contains_key(n));
            assert(c.order.contains(n));
            let j = choose|j: int| 0 <= j < c.order.len() && c.order[j] == n;
            if j <= i {
                assert(c2.order[j] == n);
            } else {
                assert(c2.order[j + 1] == n);
            }
        }
    }
    assert forall|e: int| #[trigger] links2.contains_key(e) implies c2.hops.contains(e) by {
        if e == e2 {
            assert(c2.hops[i + 1] == e2);
        } else if e == e1 {
            assert(c2.hops[i] == e1);
        } else {
            assert(links.contains_key(e));
            assert(c.hops.contains(e));
            let j = choose|j: int| 0 <= j < c.hops.len() && c.hops[j] == e;
            if j < i {
                assert(c2.hops[j] == e);
            } else {
                assert(c2.hops[j + 1] == e);
            }
        }
    }
    assert forall|k: int| 0 <= k < c2.order.len() implies nodes2.contains_key(
        #[trigger] c2.order[k],
    ) by {
        if k <= i {
            assert(nodes.contains_key(c.order[k]));
        } else if k > i + 1 {
            assert(nodes.contains_key(c.order[k - 1]));
        }
    }
    assert forall|k: int| 0 <= k < c2.hops.len() implies links2.contains_key(#[trigger] c2.hops[k])
        && links2[c2.hops[k]].src == c2.order[k] && links2[c2.hops[k]].dst == c2.order[k + 1] by {
        if k < i {
            assert(links.contains_key(c.hops[k]));
            assert(c.hops[k] != c.hops[i]);
            assert(links[c.hops[k]].src == c.order[k]);
        } else if k > i + 1 {
            assert(links.contains_key(c.hops[k - 1]));
            assert(c.hops[k - 1] != c.hops[i]);
            assert(links[c.hops[k - 1]].src == c.order[k - 1]);
        }
    }
}

/// Appending a new node to a chain gives a chain.
pub proof fn lemma_splice_end(
    nodes: Map<int, Event>,
    links: Map<int, Link>,
    c: Chain,
    nw: int,
    ev: Event,
    e1: int,
    l1: Link,
)
    requires
        is_chain(nodes, links, c),
        !nodes.contains_key(nw),
        !links.contains_key(e1),
        l1.src == c.order.last(),
        l1.dst == nw,
    ensures
        is_chain(
            nodes.insert(nw, ev),
            links.insert(e1, l1),
            Chain { order: c.order.push(nw), hops: c.hops.push(e1) },
        ),
{
    let nodes2 = nodes.insert(nw, ev);
    let links2 = links.insert(e1, l1);
    let c2 = Chain { order: c.order.push(nw), hops: c.hops.push(e1) };
    assert forall|a: int, b: int|
        0 <= a < c2.order.len() && 0 <= b < c2.order.len() && a != b implies c2.order[a]
        != c2.order[b] by {
        if a < c.order.len() {
            assert(nodes.contains_key(c.order[a]));
        }
        if b < c.order.len() {
            assert(nodes.contains_key(c.order[b]));
        }
    }
    assert forall|a: int, b: int|
        0 <= a < c2.hops.len() && 0 <= b < c2.hops.len() && a != b implies c2.hops[a]
        != c2.hops[b] by {
        if a < c.hops.len() {
            assert(links.contains_key(c.hops[a]));
        }
        if b < c.hops.len() {
            assert(links.contains_key(c.hops[b]));
        }
    }
    assert forall|n: int| #[trigger] nodes2.contains_key(n) implies c2.order.contains(n) by {
        if n == nw {
            assert(c2.order[c.order.len() as int] == nw);
        } else {
            assert(nodes.contains_key(n));
            assert(c.order.contains(n));
            let j = choose|j: int| 0 <= j < c.order.len() && c.order[j] == n;
            assert(c2.order[j] == n);
        }
    }
    assert forall|e: int| #[trigger] links2.contains_key(e) implies c2.hops.contains(e) by {
        if e == e1 {
            assert(c2.hops[c.hops.len() as int] == e1);
        } else {
            assert(links.contains_key(e));
            assert(c.hops.contains(e));
            let j = choose|j: int| 0 <= j < c.hops.len() && c.hops[j] == e;
            assert(c2.hops[j] == e);
        }
    }
    assert forall|k: int| 0 <= k < c2.order.len() implies nodes2.contains_key(
        #[trigger] c2.order[k],
    ) by {
        if k < c.order.len() {
            assert(nodes.contains_key(c.order[k]));
        }
    }
    assert forall|k: int| 0 <= k < c2.hops.len() implies links2.contains_key(#[trigger] c2.hops[k])
        && links2[c2.hops[k]].src == c2.order[k] && links2[c2.hops[k]].dst == c2.order[k + 1] by {
        if k < c.hops.len() {
            assert(links.contains_key(c.hops[k]));
            assert(links[c.hops[k]].src == c.order[k]);
        }
    }
}

/// The chain without its node at position `i`, where edge `e` takes the
/// place of the two edges that met there. At either end of the chain no
/// edge takes a place and `e` is not looked at.
pub open spec fn bridged(c: Chain, i: int, e: int) -> Chain {
    Chain {
        order: Seq::new(
            (c.order.len() - 1) as nat,
            |k: int|
                if k < i {
                    c.order[k]
                } else {
                    c.order[k + 1]
                },
        ),
        hops: Seq::new(
            (c.hops.len() - 1) as nat,
            |k: int|
                if i == 0 {
                    c.hops[k + 1]
                } else if k < i - 1 {
                    c.hops[k]
                } else if k == i - 1 && i < c.hops.len() {
                    e
                } else {
                    c.hops[k + 1]
                },
        ),
    }
}

/// Taking an inner node out of a chain and joining its neighbours gives a
/// chain.
pub proof fn lemma_cut_middle(
    nodes: Map<int, Event>,
    links: Map<int, Link>,
    c: Chain,
    i: int,
    e: int,
    l: Link,
)
    requires
        is_chain(nodes, links, c),
        0 < i < c.hops.len(),
        !links.remove_keys(incident(links, c.order[i])).contains_key(e),
        l.src == c.order[i - 1],
        l.dst == c.order[i + 1],
    ensures
        is_chain(
            nodes.remove(c.order[i]),
            links.remove_keys(incident(links, c.order[i])).insert(e, l),
            bridged(c, i, e),
        ),
        bridged(c, i, e).order == c.order.remove(i),
        chain_times(
            links.remove_keys(incident(links, c.order[i])).insert(e, l),
            bridged(c, i, e),
        ) == joined(chain_times(links, c), i, l.weight.duration as int),
        chain_exact(nodes, links, c) && l.weight.duration == nodes[c.order[i + 1]].timestamp
            - nodes[c.order[i - 1]].timestamp ==> chain_exact(
            nodes.remove(c.order[i]),
            links.remove_keys(incident(links, c.order[i])).insert(e, l),
            bridged(c, i, e),
        ),
{
    let n = c.order[i];
    let nodes2 = nodes.remove(n);
    let links1 = links.remove_keys(incident(links, n));
    let links2 = links1.insert(e, l);
    let c2 = bridged(c, i, e);
    assert(c2.order =~= c.order.remove(i));
    assert forall|k: int| 0 <= k < c.hops.len() implies (#[trigger] links1.contains_key(c.hops[k])
        <==> k != i - 1 && k != i) by {
        assert(links.contains_key(c.hops[k]));
        assert(links[c.hops[k]].src == c.order[k]);
        assert(links[c.hops[k]].dst == c.order[k + 1]);
        if k != i - 1 && k != i {
            assert(c.order[k] != c.order[i]);
            assert(c.order[k + 1] != c.order[i]);
            assert(!incident(links, n).contains(c.hops[k]));
        } else {
            assert(incident(links, n).contains(c.hops[k]));
        }
    }
    assert forall|a: int, b: int|
        0 <= a < c2.order.len() && 0 <= b < c2.order.len() && a != b implies c2.order[a]
        != c2.order[b] by {
        let a0 = if a < i { a } else { a + 1 };
        let b0 = if b < i { b } else { b + 1 };
        assert(c.order[a0] != c.order[b0]);
    }
    assert forall|a: int, b: int|
        0 <= a < c2.hops.len() && 0 <= b < c2.hops.len() && a != b implies c2.hops[a]
        != c2.hops[b] by {
        let a0 = if a < i - 1 { a } else { a + 1 };
        let b0 = if b < i - 1 { b } else { b + 1 };
        if a != i - 1 && b != i - 1 {
            assert(c.hops[a0] != c.hops[b0]);
        } else if a == i - 1 {
            assert(links1.contains_key(c.hops[b0]));
        } else {
            assert(links1.contains_key(c.hops[a0]));
        }
    }
    assert forall|m: int| #[trigger] nodes2.contains_key(m) implies c2.order.contains(m) by {
        assert(nodes.contains_key(m));
        assert(c.order.contains(m));
        let j = choose|j: int| 0 <= j < c.order.len() && c.order[j] == m;
        if j < i {
            assert(c2.order[j] == m);
        } else {
            assert(c2.order[j - 1] == m);
        }
    }
    assert forall|x: int| #[trigger] links2.contains_key(x) implies c2.hops.contains(x) by {
        if x == e {
            assert(c2.hops[i - 1] == e);
        } else {
            assert(links.contains_key(x));
            assert(c.hops.contains(x));
            let j = choose|j: int| 0 <= j < c.hops.len() && c.hops[j] == x;
            assert(links1.contains_key(c.hops[j]));
            if j < i - 1 {
                assert(c2.hops[j] == x);
            } else {
                assert(c2.hops[j - 1] == x);
            }
        }
    }
    assert forall|k: int| 0 <= k < c2.order.len() implies nodes2.contains_key(
        #[trigger] c2.order[k],
    ) by {
        let k0 = if k < i { k } else { k + 1 };
        assert(nodes.contains_key(c.order[k0]));
        assert(c.order[k0] != c.order[i]);
    }
    assert forall|k: int| 0 <= k < c2.hops.len() implies links2.contains_key(#[trigger] c2.hops[k])
        && links2[c2.hops[k]].src == c2.order[k] && links2[c2.hops[k]].dst == c2.order[k + 1]
        && (k != i - 1 ==> links2[c2.hops[k]] == links[c.hops[if k < i - 1 {
        k
    } else {
        k + 1
    }]]) by {
        if k != i - 1 {
            let k0 = if k < i - 1 { k } else { k + 1 };
            assert(links1.contains_key(c.hops[k0]));
            assert(links[c.hops[k0]].src == c.order[k0]);
        }
    }
    let times = chain_times(links, c);
    let times2 = chain_times(links2, c2);
    assert(times2 =~= joined(times, i, l.weight.duration as int)) by {
        assert forall|k: int| 0 <= k < times2.len() implies times2[k] == joined(
            times,
            i,
            l.weight.duration as int,
        )[k] by {
            assert(links2.contains_key(c2.hops[k]));
        }
    }
    if chain_exact(nodes, links, c) && l.weight.duration == nodes[c.order[i + 1]].timestamp
        - nodes[c.order[i - 1]].timestamp {
        assert forall|k: int| 0 <= k < c2.hops.len() implies #[trigger] times2[k]
            == nodes2[c2.order[k + 1]].timestamp - nodes2[c2.order[k]].timestamp by {
            assert(nodes2.contains_key(c2.order[k]));
            assert(nodes2.contains_key(c2.order[k + 1]));
            if k != i - 1 {
                let k0 = if k < i - 1 { k } else { k + 1 };
                assert(times[k0] == nodes[c.order[k0 + 1]].timestamp - nodes[c.order[k0]].timestamp);
            }
        }
    }
}

/// Taking the first or the last node off a chain of two or more nodes gives
/// a chain.
pub proof fn lemma_cut_end(nodes: Map<int, Event>, links: Map<int, Link>, c: Chain, i: int)
    requires
        is_chain(nodes, links, c),
        c.order.len() >= 2,
        i == 0 || i == c.order.len() - 1,
    ensures
        is_chain(
            nodes.remove(c.order[i]),
            links.remove_keys(incident(links, c.order[i])),
            bridged(c, i, 0),
        ),
        bridged(c, i, 0).order == c.order.remove(i),
        forall|gap: int|
            chain_times(links.remove_keys(incident(links, c.order[i])), bridged(c, i, 0))
                == #[trigger] joined(chain_times(links, c), i, gap),
        chain_exact(nodes, links, c) ==> chain_exact(
            nodes.remove(c.order[i]),
            links.remove_keys(incident(links, c.order[i])),
            bridged(c, i, 0),
        ),
{
    let n = c.order[i];
    let gone = if i == 0 { 0 } else { i - 1 };
    let nodes2 = nodes.remove(n);
    let links2 = links.remove_keys(incident(links, n));
    let c2 = bridged(c, i, 0);
    assert(c2.order =~= c.order.remove(i));
    assert forall|k: int| 0 <= k < c.hops.len() implies (#[trigger] links2.contains_key(c.hops[k])
        <==> k != gone) by {
        assert(links.contains_key(c.hops[k]));
        assert(links[c.hops[k]].src == c.order[k]);
        assert(links[c.hops[k]].dst == c.order[k + 1]);
        if k != gone {
            assert(c.order[k] != c.order[i]);
            assert(c.order[k + 1] != c.order[i]);
            assert(!incident(links, n).contains(c.hops[k]));
        } else {
            assert(incident(links, n).contains(c.hops[k]));
        }
    }
    assert forall|a: int, b: int|
        0 <= a < c2.order.len() && 0 <= b < c2.order.len() && a != b implies c2.order[a]
        != c2.order[b] by {
        let a0 = if a < i { a } else { a + 1 };
        let b0 = if b < i { b } else { b + 1 };
        assert(c.order[a0] != c.order[b0]);
    }
    assert forall|a: int, b: int|
        0 <= a < c2.hops.len() && 0 <= b < c2.hops.len() && a != b implies c2.hops[a]
        != c2.hops[b] by {
        let a0 = if i == 0 { a + 1 } else { a };
        let b0 = if i == 0 { b + 1 } else { b };
        assert(c.hops[a0] != c.hops[b0]);
    }
    assert forall|m: int| #[trigger] nodes2.contains_key(m) implies c2.order.contains(m) by {
        assert(nodes.contains_key(m));
        assert(c.order.contains(m));
        let j = choose|j: int| 0 <= j < c.order.len() && c.order[j] == m;
        if j < i {
            assert(c2.order[j] == m);
        } else {
            assert(c2.order[j - 1] == m);
        }
    }
    assert forall|x: int| #[trigger] links2.contains_key(x) implies c2.hops.contains(x) by {
        assert(links.contains_key(x));
        assert(c.hops.contains(x));
        let j = choose|j: int| 0 <= j < c.hops.len() && c.hops[j] == x;
        assert(links2.contains_key(c.hops[j]));
        if i == 0 {
            assert(c2.hops[j - 1] == x);
        } else {
            assert(c2.hops[j] == x);
        }
    }
    assert forall|k: int| 0 <= k < c2.order.len() implies nodes2.contains_key(
        #[trigger] c2.order[k],
    ) by {
        let k0 = if k < i { k } else { k + 1 };
        assert(nodes.contains_key(c.order[k0]));
        assert(c.order[k0] != c.order[i]);
    }
    assert forall|k: int| 0 <= k < c2.hops.len() implies links2.contains_key(#[trigger] c2.hops[k])
        && links2[c2.hops[k]].src == c2.order[k] && links2[c2.hops[k]].dst == c2.order[k + 1] by {
        let k0 = if i == 0 { k + 1 } else { k };
        assert(links2.contains_key(c.hops[k0]));
        assert(links[c.hops[k0]].src == c.order[k0]);
    }
    let times = chain_times(links, c);
    let times2 = chain_times(links2, c2);
    assert forall|gap: int| times2 == #[trigger] joined(times, i, gap) by {
        assert forall|k: int| 0 <= k < times2.len() implies times2[k] == joined(times, i, gap)[k] by {
            assert(links2.contains_key(c2.hops[k]));
        }
        assert(times2 =~= joined(times, i, gap));
    }
    if chain_exact(nodes, links, c) {
        assert forall|k: int| 0 <= k < c2.hops.len() implies #[trigger] times2[k]
            == nodes2[c2.order[k + 1]].timestamp - nodes2[c2.order[k]].timestamp by {
            assert(nodes2.contains_key(c2.order[k]));
            assert(nodes2.contains_key(c2.order[k + 1]));
            assert(links2.contains_key(c2.hops[k]));
            let k0 = if i == 0 { k + 1 } else { k };
            assert(times[k0] == nodes[c.order[k0 + 1]].timestamp - nodes[c.order[k0]].timestamp);
        }
    }
}

/// A map of edges that lost at least one edge of a sound graph has room
/// for another edge.
pub proof fn lemma_room_after_removal(links: Map<int, Link>, rest: Map<int, Link>, gone: int)
    requires
        links.dom().finite(),
        forall|e: int| #[trigger] links.contains_key(e) ==> 0 <= e < u32::MAX,
        links.contains_key(gone),
        !rest.contains_key(gone),
        forall|e: int| #[trigger] rest.contains_key(e) ==> links.contains_key(e),
    ensures
        rest.dom().finite(),
        rest.dom().len() < u32::MAX,
{
    vstd::set_lib::lemma_int_range(0, u32::MAX as int);
    let all = vstd::set_lib::set_int_range(0, u32::MAX as int);
    assert(links.dom().subset_of(all)) by {
        assert forall|e: int| links.dom().contains(e) implies all.contains(e) by {
            assert(links.contains_key(e));
        }
    }
    vstd::set_lib::lemma_len_subset(links.dom(), all);
    let fewer = links.dom().remove(gone);
    assert(rest.dom().subset_of(fewer)) by {
        assert forall|e: int| rest.dom().contains(e) implies fewer.contains(e) by {
            assert(rest.contains_key(e));
        }
    }
    vstd::set_lib::lemma_len_subset(rest.dom(), fewer);
}

/// The edge durations of a chain after the node at position `i` left it:
/// at either end one duration is gone; in the middle two durations gave
/// way to `gap`.
pub open spec fn joined(times: Seq<int>, i: int, gap: int) -> Seq<int> {
    if i == 0 {
        times.remove(0)
    } else if i == times.len() {
        times.remove(i - 1)
    } else {
        times.remove(i).update(i - 1, gap)
    }
}

/// Putting a new node in front of a chain gives a chain.
pub proof fn lemma_prepend(
    nodes: Map<int, Event>,
    links: Map<int, Link>,
    c: Chain,
    nw: int,
    ev: Event,
    e1: int,
    l1: Link,
)
    requires
        is_chain(nodes, links, c),
        !nodes.contains_key(nw),
        !links.contains_key(e1),
        l1.src == nw,
        l1.dst == c.order[0],
    ensures
        is_chain(
            nodes.insert(nw, ev),
            links.insert(e1, l1),
            Chain { order: seq![nw] + c.order, hops: seq![e1] + c.hops },
        ),
{
    let nodes2 = nodes.insert(nw, ev);
    let links2 = links.insert(e1, l1);
    let c2 = Chain { order: seq![nw] + c.order, hops: seq![e1] + c.hops };
    assert forall|a: int, b: int|
        0 <= a < c2.order.len() && 0 <= b < c2.order.len() && a != b implies c2.order[a]
        != c2.order[b] by {
        if a > 0 {
            assert(nodes.contains_key(c.order[a - 1]));
        }
        if b > 0 {
            assert(nodes.contains_key(c.order[b - 1]));
        }
    }
    assert forall|a: int, b: int|
        0 <= a < c2.hops.len() && 0 <= b < c2.hops.len() && a != b implies c2.hops[a]
        != c2.hops[b] by {
        if a > 0 {
            assert(links.contains_key(c.hops[a - 1]));
        }
        if b > 0 {
            assert(links.contains_key(c.hops[b - 1]));
        }
    }
    assert forall|n: int| #[trigger] nodes2.contains_key(n) implies c2.order.contains(n) by {
        if n == nw {
            assert(c2.order[0] == nw);
        } else {
            assert(nodes.contains_key(n));
            assert(c.order.contains(n));
            let j = choose|j: int| 0 <= j < c.order.len() && c.order[j] == n;
            assert(c2.order[j + 1] == n);
        }
    }
    assert forall|e: int| #[trigger] links2.contains_key(e) implies c2.hops.contains(e) by {
        if e == e1 {
            assert(c2.hops[0] == e1);
        } else {
            assert(links.contains_key(e));
            assert(c.hops.contains(e));
            let j = choose|j: int| 0 <= j < c.hops.len() && c.hops[j] == e;
            assert(c2.hops[j + 1] == e);
        }
    }
    assert forall|k: int| 0 <= k < c2.order.len() implies nodes2.contains_key(
        #[trigger] c2.order[k],
    ) by {
        if k > 0 {
            assert(nodes.contains_key(c.order[k - 1]));
        }
    }
    assert forall|k: int| 0 <= k < c2.hops.len() implies links2.contains_key(#[trigger] c2.hops[k])
        && links2[c2.hops[k]].src == c2.order[k] && links2[c2.hops[k]].dst == c2.order[k + 1] by {
        if k > 0 {
            assert(links.contains_key(c.hops[k - 1]));
            assert(links[c.hops[k - 1]].src == c.order[k - 1]);
        }
    }
}

/// Along an exact chain the durations of the first `k` edges add up to the
/// time between the first node and the node at position `k`.
pub proof fn lemma_exact_prefix(nodes: Map<int, Event>, links: Map<int, Link>, c: Chain, k: int)
    requires
        is_chain(nodes, links, c),
        chain_exact(nodes, links, c),
        0 <= k <= c.hops.len(),
    ensures
        total(chain_times(links, c).take(k)) == nodes[c.order[k]].timestamp
            - nodes[c.order[0]].timestamp,
    decreases k,
{
    let times = chain_times(links, c);
    if k > 0 {
        lemma_exact_prefix(nodes, links, c, k - 1);
        assert(times.take(k).drop_last() =~= times.take(k - 1));
        assert(times.take(k).last() == times[k - 1]);
    }
}

/// Whether the elements of `now` are elements of `before` and stand in
/// `now` in the order in which they stand in `before`.
pub open spec fn keeps_order(now: Seq<int>, before: Seq<int>) -> bool {
    &&& forall|i: int| 0 <= i < now.len() ==> before.contains(#[trigger] now[i])
    &&& forall|i: int, j: int|
        0 <= i < j < now.len() ==> before.index_of(#[trigger] now[i]) < before.index_of(
            #[trigger] now[j],
        )
}

/// A sequence without repetition keeps its own order.
pub proof fn lemma_order_same(order: Seq<int>)
    requires
        order.no_duplicates(),
    ensures
        keeps_order(order, order),
{
    assert forall|i: int, j: int| 0 <= i < j < order.len() implies order.index_of(
        #[trigger] order[i],
    ) < order.index_of(#[trigger] order[j]) by {
        lemma_index_of(order, i);
        lemma_index_of(order, j);
    }
}

/// A sequence that keeps an order keeps it without one of its elements.
pub proof fn lemma_order_kept(now: Seq<int>, gone: int, before: Seq<int>)
    requires
        keeps_order(now, before),
        0 <= gone < now.len(),
    ensures
        keeps_order(now.remove(gone), before),
{
    let less = now.remove(gone);
    assert forall|i: int| 0 <= i < less.len() implies before.contains(#[trigger] less[i]) by {
        let i0 = if i < gone { i } else { i + 1 };
        assert(less[i] == now[i0]);
    }
    assert forall|i: int, j: int| 0 <= i < j < less.len() implies before.index_of(
        #[trigger] less[i],
    ) < before.index_of(#[trigger] less[j]) by {
        let i0 = if i < gone { i } else { i + 1 };
        let j0 = if j < gone { j } else { j + 1 };
        assert(less[i] == now[i0]);
        assert(less[j] == now[j0]);
    }
}

/// `order` after the nodes at the first `d` positions of `doomed` have
/// been taken out, as far as they were still there.
pub open spec fn cut(order: Seq<int>, doomed: Seq<usize>, d: int) -> Seq<int>
    decreases d,
{
    if d <= 0 {
        order
    } else {
        let before = cut(order, doomed, d - 1);
        let gone = order[doomed[d - 1] as int];
        if before.contains(gone) {
            before.remove(before.index_of(gone))
        } else {
            before
        }
    }
}

/// Whether `mid` stands in `order` behind `left` and before `right`.
pub open spec fn between(order: Seq<int>, left: int, mid: int, right: int) -> bool {
    &&& order.contains(left)
    &&& order.contains(mid)
    &&& order.contains(right)
    &&& order.index_of(left) < order.index_of(mid) < order.index_of(right)
}

/// Where an element is put into a sequence at position `p`, it stands at
/// `p`, what stood before `p` stands where it stood, and what stood at `p`
/// or behind it stands one place further back.
pub proof fn lemma_insert_index(order: Seq<int>, p: int, idx: int, x: int)
    requires
        order.no_duplicates(),
        order.insert(p, idx).no_duplicates(),
        0 <= p <= order.len(),
        order.contains(x),
    ensures
        order.insert(p, idx).contains(x),
        order.insert(p, idx).contains(idx),
        order.insert(p, idx).index_of(idx) == p,
        order.insert(p, idx).index_of(x) == (if order.index_of(x) < p {
            order.index_of(x)
        } else {
            order.index_of(x) + 1
        }),
{
    let big = order.insert(p, idx);
    let i = order.index_of(x);
    assert(0 <= i < order.len() && order[i] == x);
    let at = if i < p { i } else { i + 1 };
    assert(big[at] == x);
    assert(big[p] == idx);
    lemma_index_of(big, at);
    lemma_index_of(big, p);
}

/// A sequence keeps the order of another when an element is put into it.
pub proof fn lemma_order_grows(now: Seq<int>, before: Seq<int>, p: int, idx: int)
    requires
        keeps_order(now, before),
        before.no_duplicates(),
        before.insert(p, idx).no_duplicates(),
        0 <= p <= before.len(),
    ensures
        keeps_order(now, before.insert(p, idx)),
{
    let big = before.insert(p, idx);
    assert forall|i: int| 0 <= i < now.len() implies big.contains(#[trigger] now[i]) by {
        lemma_insert_index(before, p, idx, now[i]);
    }
    assert forall|i: int, j: int| 0 <= i < j < now.len() implies big.index_of(#[trigger] now[i])
        < big.index_of(#[trigger] now[j]) by {
        lemma_insert_index(before, p, idx, now[i]);
        lemma_insert_index(before, p, idx, now[j]);
    }
}

/// What stands between two elements stays between them when an element is
/// put into the sequence.
pub proof fn lemma_between_stays(order: Seq<int>, p: int, idx: int, left: int, mid: int, right: int)
    requires
        between(order, left, mid, right),
        order.no_duplicates(),
        order.insert(p, idx).no_duplicates(),
        0 <= p <= order.len(),
    ensures
        between(order.insert(p, idx), left, mid, right),
{
    lemma_insert_index(order, p, idx, left);
    lemma_insert_index(order, p, idx, mid);
    lemma_insert_index(order, p, idx, right);
}

/// An element that is put right behind `left` stands between `left` and
/// whatever stood behind `left`.
pub proof fn lemma_between_new(order: Seq<int>, idx: int, left: int, right: int)
    requires
        order.no_duplicates(),
        order.insert(order.index_of(left) + 1, idx).no_duplicates(),
        order.contains(left),
        order.contains(right),
        order.index_of(left) < order.index_of(right),
    ensures
        between(order.insert(order.index_of(left) + 1, idx), left, idx, right),
{
    let i = order.index_of(left);
    assert(0 <= i < order.len());
    lemma_insert_index(order, i + 1, idx, left);
    lemma_insert_index(order, i + 1, idx, right);
}

} // verus!
