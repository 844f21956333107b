//! Entries and Exits that belong together, and the events that were
//! observed as against those that were inserted.

use vstd::prelude::*;
use crate::error::ExtractError;
use crate::event::{Event, EventType, IDType, IdKey};

verus! {

/// The events of `events` that were observed, not inserted, in order.
pub open spec fn observed(events: Seq<Event>) -> Seq<Event>
    decreases events.len(),
{
    if events.len() == 0 {
        Seq::empty()
    } else if events.last().is_synthetic {
        observed(events.drop_last())
    } else {
        observed(events.drop_last()).push(events.last())
    }
}

/// A synthetic event that is put into a sequence leaves the observed
/// events as they were.
pub proof fn lemma_observed_insert(events: Seq<Event>, at: int, twin: Event)
    requires
        0 <= at <= events.len(),
        twin.is_synthetic,
    ensures
        observed(events.insert(at, twin)) == observed(events),
    decreases events.len() - at,
{
    let grown = events.insert(at, twin);
    if at == events.len() {
        assert(grown.drop_last() =~= events);
    } else {
        assert(grown.drop_last() =~= events.drop_last().insert(at, twin));
        assert(grown.last() == events.last());
        lemma_observed_insert(events.drop_last(), at, twin);
    }
}

/// Whether some event of `events` at a position from `lo` up to, but not
/// including, `hi` has variant `variant` and span id `id`.
pub open spec fn has_partner(events: Seq<Event>, lo: int, hi: int, variant: EventType, id: IdKey) -> bool {
    exists|j: int|
        lo <= j < hi && 0 <= j < events.len() && (#[trigger] events[j]).variant == variant
            && events[j].trace_id@ == id
}

/// Whether the event at position `i` is paired: an Entry has an Exit of
/// its span behind it, an Exit has an Entry of its span before it, and an
/// Annotation needs no partner.
pub open spec fn paired_at(events: Seq<Event>, i: int) -> bool {
    match events[i].variant {
        EventType::Entry => has_partner(
            events,
            i + 1,
            events.len() as int,
            EventType::Exit,
            events[i].trace_id@,
        ),
        EventType::Exit => has_partner(events, 0, i, EventType::Entry, events[i].trace_id@),
        EventType::Annotation => true,
    }
}

/// Whether every Entry has a later Exit of its span, and every Exit an
/// earlier Entry of its span.
pub open spec fn is_paired(events: Seq<Event>) -> bool {
    forall|i: int| 0 <= i < events.len() ==> #[trigger] paired_at(events, i)
}

/// Whether an event between positions `lo` and `hi` has the given variant
/// and span id.
pub fn find_partner(events: &Vec<Event>, lo: usize, hi: usize, variant: EventType, id: &IDType) -> (found:
    bool)
    requires
        lo <= hi <= events@.len(),
    ensures
        found == has_partner(events@, lo as int, hi as int, variant, id@),
{
    let mut j: usize = lo;
    while j < hi
        invariant
            lo <= j <= hi <= events@.len(),
            forall|x: int|
                lo <= x < j ==> !((#[trigger] events@[x]).variant == variant && events@[x].trace_id@
                    == id@),
        decreases hi - j,
    {
        if events[j].variant == variant && events[j].trace_id.same_as(id) {
            return true;
        }
        j += 1;
    }
    false
}

/// Whether every Entry in `events` has a later Exit of its span, and every
/// Exit an earlier Entry of its span.
pub fn check_pairing(events: &Vec<Event>) -> (paired: bool)
    ensures
        paired == is_paired(events@),
{
    let mut i: usize = 0;
    while i < events.len()
        invariant
            0 <= i <= events@.len(),
            forall|x: int| 0 <= x < i ==> #[trigger] paired_at(events@, x),
        decreases events@.len() - i,
    {
        let ok = match events[i].variant {
            EventType::Entry => find_partner(
                events,
                i + 1,
                events.len(),
                EventType::Exit,
                &events[i].trace_id,
            ),
            EventType::Exit => find_partner(events, 0, i, EventType::Entry, &events[i].trace_id),
            EventType::Annotation => true,
        };
        if !ok {
            assert(!paired_at(events@, i as int));
            return false;
        }
        i += 1;
    }
    true
}

/// The first position in `marks` that points at an event of span `id`.
pub fn position_of_span(events: &Vec<Event>, marks: &Vec<usize>, id: &IDType) -> (at: Option<usize>)
    requires
        forall|k: int| 0 <= k < marks@.len() ==> (#[trigger] marks@[k]) < events@.len(),
    ensures
        match at {
            Some(q) => q < marks@.len() && events@[marks@[q as int] as int].trace_id@ == id@
                && forall|k: int|
                0 <= k < q ==> events@[(#[trigger] marks@[k]) as int].trace_id@ != id@,
            None => forall|k: int|
                0 <= k < marks@.len() ==> events@[(#[trigger] marks@[k]) as int].trace_id@ != id@,
        },
{
    let mut q: usize = 0;
    while q < marks.len()
        invariant
            0 <= q <= marks@.len(),
            forall|k: int| 0 <= k < marks@.len() ==> (#[trigger] marks@[k]) < events@.len(),
            forall|k: int| 0 <= k < q ==> events@[(#[trigger] marks@[k]) as int].trace_id@ != id@,
        decreases marks@.len() - q,
    {
        if events[marks[q]].trace_id.same_as(id) {
            return Some(q);
        }
        q += 1;
    }
    None
}

/// The positions `open` without the first one whose span has id `id`.
pub open spec fn close_first(spans: Seq<Event>, open: Seq<usize>, id: IdKey) -> Seq<usize>
    decreases open.len(),
{
    if open.len() == 0 {
        open
    } else if spans[open[0] as int].trace_id@ == id {
        open.drop_first()
    } else {
        seq![open[0]] + close_first(spans, open.drop_first(), id)
    }
}

/// Where the span at position `k` of `open` is the first of id `id`,
/// closing the first span of that id takes out position `k`.
pub proof fn lemma_close_at(spans: Seq<Event>, open: Seq<usize>, id: IdKey, k: int)
    requires
        0 <= k < open.len(),
        spans[open[k] as int].trace_id@ == id,
        forall|j: int| 0 <= j < k ==> spans[(#[trigger] open[j]) as int].trace_id@ != id,
    ensures
        close_first(spans, open, id) == open.remove(k),
    decreases k,
{
    if k == 0 {
        assert(open.remove(0) =~= open.drop_first());
    } else {
        let tail = open.drop_first();
        assert forall|j: int| 0 <= j < k - 1 implies spans[(#[trigger] tail[j]) as int].trace_id@
            != id by {
            assert(tail[j] == open[j + 1]);
        }
        lemma_close_at(spans, tail, id, k - 1);
        assert(seq![open[0]] + tail.remove(k - 1) =~= open.remove(k));
    }
}

/// Where no span of `open` has id `id`, closing the first span of that id
/// changes nothing.
pub proof fn lemma_close_none(spans: Seq<Event>, open: Seq<usize>, id: IdKey)
    requires
        forall|j: int| 0 <= j < open.len() ==> spans[(#[trigger] open[j]) as int].trace_id@ != id,
    ensures
        close_first(spans, open, id) == open,
    decreases open.len(),
{
    if open.len() > 0 {
        let tail = open.drop_first();
        assert forall|j: int| 0 <= j < tail.len() implies spans[(#[trigger] tail[j]) as int].trace_id@
            != id by {
            assert(tail[j] == open[j + 1]);
        }
        lemma_close_none(spans, tail, id);
        assert(seq![open[0]] + tail =~= open);
    }
}

/// Whether `twin` is the synthetic counterpart of `template` at time
/// `stamp`: same span and tracepoint, the opposite variant, no payload.
pub open spec fn mirrors(twin: Event, template: Event, stamp: int) -> bool {
    &&& twin.trace_id == template.trace_id
    &&& twin.tracepoint_id == template.tracepoint_id
    &&& twin.timestamp == stamp
    &&& twin.is_synthetic
    &&& twin.variant == template.variant.mirrored()
    &&& twin.key_value_pair@.len() == 0
}

/// Whether `twin` is the synthetic counterpart of `template`, whatever its
/// time.
pub open spec fn twin_of(twin: Event, template: Event) -> bool {
    mirrors(twin, template, twin.timestamp as int)
}

/// Whether every node of `after` that `before` lacks holds the synthetic
/// counterpart of an event of `before`.
pub open spec fn adds_twins(before: Map<int, Event>, after: Map<int, Event>) -> bool {
    forall|n: int| #[trigger]
        after.contains_key(n) && !before.contains_key(n) ==> exists|m: int| #[trigger]
            before.contains_key(m) && twin_of(after[n], before[m])
}

/// Whether every event of `events` is an event of `nodes`.
pub open spec fn taken_from(events: Seq<Event>, nodes: Map<int, Event>) -> bool {
    forall|k: int|
        0 <= k < events.len() ==> exists|m: int| #[trigger]
            nodes.contains_key(m) && (#[trigger] events[k]) == nodes[m]
}

/// One more twin of an event of `first` keeps `adds_twins`.
pub proof fn lemma_twin_added(
    first: Map<int, Event>,
    before: Map<int, Event>,
    after: Map<int, Event>,
    idx: int,
    m: int,
)
    requires
        adds_twins(first, before),
        after.contains_key(idx),
        after.remove(idx) == before,
        first.contains_key(m),
        twin_of(after[idx], first[m]),
    ensures
        adds_twins(first, after),
{
    assert forall|n: int| #[trigger] after.contains_key(n) && !first.contains_key(n) implies exists|
        x: int,
    | #[trigger] first.contains_key(x) && twin_of(after[n], first[x]) by {
        if n == idx {
            assert(first.contains_key(m) && twin_of(after[n], first[m]));
        } else {
            assert(after.remove(idx).contains_key(n));
            assert(before.contains_key(n) && before[n] == after[n]);
            let x = choose|x: int| #[trigger] first.contains_key(x) && twin_of(before[n], first[x]);
            assert(first.contains_key(x) && twin_of(after[n], first[x]));
        }
    }
}

/// Whether a position of `marks` points at an event of span `id`.
pub open spec fn has_span(events: Seq<Event>, marks: Seq<usize>, id: IdKey) -> bool {
    exists|q: int| 0 <= q < marks.len() && events[(#[trigger] marks[q]) as int].trace_id@ == id
}

/// The first position of `marks` that points at an event of span `id`.
pub open spec fn first_mark(events: Seq<Event>, marks: Seq<usize>, id: IdKey) -> usize
    decreases marks.len(),
{
    if marks.len() == 0 {
        0
    } else if events[marks[0] as int].trace_id@ == id {
        marks[0]
    } else {
        first_mark(events, marks.drop_first(), id)
    }
}

/// `marks` with `by` in place of the first position that points at an
/// event of span `id`.
pub open spec fn replace_first(events: Seq<Event>, marks: Seq<usize>, id: IdKey, by: usize) -> Seq<
    usize,
>
    decreases marks.len(),
{
    if marks.len() == 0 {
        marks
    } else if events[marks[0] as int].trace_id@ == id {
        marks.update(0, by)
    } else {
        seq![marks[0]] + replace_first(events, marks.drop_first(), id, by)
    }
}

/// Where position `k` of `marks` is the first of span `id`, it is the
/// first mark and the one that is replaced.
pub proof fn lemma_first_at(events: Seq<Event>, marks: Seq<usize>, id: IdKey, k: int, by: usize)
    requires
        0 <= k < marks.len(),
        events[marks[k] as int].trace_id@ == id,
        forall|j: int| 0 <= j < k ==> events[(#[trigger] marks[j]) as int].trace_id@ != id,
    ensures
        first_mark(events, marks, id) == marks[k],
        replace_first(events, marks, id, by) == marks.update(k, by),
    decreases k,
{
    if k > 0 {
        let tail = marks.drop_first();
        assert forall|j: int| 0 <= j < k - 1 implies events[(#[trigger] tail[j]) as int].trace_id@
            != id by {
            assert(tail[j] == marks[j + 1]);
        }
        lemma_first_at(events, tail, id, k - 1, by);
        assert(seq![marks[0]] + tail.update(k - 1, by) =~= marks.update(k, by));
    }
}

/// What a scan for incomplete spans knows: the positions of the Entries
/// that are open, of the latest Exit of each span, and of the events to
/// remove, and whether the scan has failed.
pub struct Sweep {
    pub open: Seq<usize>,
    pub exits: Seq<usize>,
    pub doomed: Seq<usize>,
    pub failed: bool,
}

/// The scan after the event at position `i`. An Entry of a span that is
/// open is to be removed, and fails the scan where the span has had an
/// Exit; any other Entry opens its span. An Exit closes its span where it
/// is open; else the latest Exit of the span is to be removed, and where
/// there is none the scan fails. An Exit becomes the latest of its span.
pub open spec fn sweep_step(events: Seq<Event>, s: Sweep, i: int) -> Sweep {
    let id = events[i].trace_id@;
    match events[i].variant {
        EventType::Entry => if has_span(events, s.open, id) {
            if has_span(events, s.exits, id) {
                Sweep { failed: true, ..s }
            } else {
                Sweep { doomed: s.doomed.push(i as usize), ..s }
            }
        } else {
            Sweep { open: s.open.push(i as usize), ..s }
        },
        EventType::Annotation => s,
        EventType::Exit => if has_span(events, s.open, id) {
            Sweep {
                open: close_first(events, s.open, id),
                exits: if has_span(events, s.exits, id) {
                    replace_first(events, s.exits, id, i as usize)
                } else {
                    s.exits.push(i as usize)
                },
                ..s
            }
        } else if has_span(events, s.exits, id) {
            Sweep {
                doomed: s.doomed.push(first_mark(events, s.exits, id)),
                exits: replace_first(events, s.exits, id, i as usize),
                ..s
            }
        } else {
            Sweep { failed: true, ..s }
        },
    }
}

/// The scan after the first `n` events; a scan that has failed stays as it
/// is.
pub open spec fn sweep(events: Seq<Event>, n: int) -> Sweep
    decreases n,
{
    if n <= 0 {
        Sweep { open: Seq::empty(), exits: Seq::empty(), doomed: Seq::empty(), failed: false }
    } else if sweep(events, n - 1).failed {
        sweep(events, n - 1)
    } else {
        sweep_step(events, sweep(events, n - 1), n - 1)
    }
}

/// A scan that has failed stays failed.
pub proof fn lemma_sweep_stays_failed(events: Seq<Event>, n: int, m: int)
    requires
        0 <= n <= m,
        sweep(events, n).failed,
    ensures
        sweep(events, m).failed,
    decreases m - n,
{
    if n < m {
        lemma_sweep_stays_failed(events, n, m - 1);
    }
}

/// Scans `events` for spans that cannot be paired and returns the
/// positions of the events to remove, in the order found. Fails with
/// `UnreconcilableSpan` exactly when the scan fails.
pub fn incomplete_spans(events: &Vec<Event>) -> (found: Result<Vec<usize>, ExtractError>)
    ensures
        match found {
            Ok(doomed) => !sweep(events@, events@.len() as int).failed && doomed@ == sweep(
                events@,
                events@.len() as int,
            ).doomed && forall|k: int|
                0 <= k < doomed@.len() ==> 1 <= (#[trigger] doomed@[k]) < events@.len()
                    && events@[doomed@[k] as int].variant != EventType::Annotation,
            Err(e) => e == ExtractError::UnreconcilableSpan && sweep(
                events@,
                events@.len() as int,
            ).failed,
        },
{
    let mut open: Vec<usize> = Vec::new();
    let mut exits: Vec<usize> = Vec::new();
    let mut doomed: Vec<usize> = Vec::new();
    let mut i: usize = 0;
    while i < events.len()
        invariant
            0 <= i <= events@.len(),
            forall|k: int| 0 <= k < open@.len() ==> (#[trigger] open@[k]) < events@.len(),
            forall|k: int| 0 <= k < exits@.len() ==> (#[trigger] exits@[k]) < events@.len(),
            forall|k: int|
                0 <= k < exits@.len() ==> events@[(#[trigger] exits@[k]) as int].variant
                    == EventType::Exit,
            forall|k: int|
                0 <= k < doomed@.len() ==> 1 <= (#[trigger] doomed@[k]) < events@.len()
                    && events@[doomed@[k] as int].variant != EventType::Annotation,
            forall|k: int| 0 <= k < exits@.len() ==> 1 <= (#[trigger] exits@[k]),
            forall|k: int| 0 <= k < open@.len() ==> (#[trigger] open@[k]) < i,
            i == 0 ==> exits@.len() == 0,
            sweep(events@, i as int) == (Sweep {
                open: open@,
                exits: exits@,
                doomed: doomed@,
                failed: false,
            }),
        decreases events@.len() - i,
    {
        let ghost id = events@[i as int].trace_id@;
        let ghost before = sweep(events@, i as int);
        let is_open = position_of_span(events, &open, &events[i].trace_id);
        let earlier = position_of_span(events, &exits, &events[i].trace_id);
        proof {
            assert(sweep(events@, i + 1) == sweep_step(events@, before, i as int));
            match is_open {
                Some(q) => {
                    assert(has_span(events@, open@, id));
                    lemma_close_at(events@, open@, id, q as int);
                },
                None => {
                    assert(!has_span(events@, open@, id));
                },
            }
            match earlier {
                Some(x) => {
                    assert(has_span(events@, exits@, id));
                    lemma_first_at(events@, exits@, id, x as int, i);
                },
                None => {
                    assert(!has_span(events@, exits@, id));
                },
            }
        }
        match events[i].variant {
            EventType::Entry => {
                match is_open {
                    Some(_) => {
                        if earlier.is_some() {
                            proof {
                                lemma_sweep_stays_failed(events@, i + 1, events@.len() as int);
                            }
                            return Err(ExtractError::UnreconcilableSpan);
                        }
                        doomed.push(i);
                    },
                    None => {
                        open.push(i);
                    },
                }
            },
            EventType::Annotation => {},
            EventType::Exit => {
                match is_open {
                    Some(q) => {
                        open.remove(q);
                    },
                    None => {
                        match earlier {
                            Some(x) => {
                                doomed.push(exits[x]);
                            },
                            None => {
                                proof {
                                    lemma_sweep_stays_failed(events@, i + 1, events@.len() as int);
                                }
                                return Err(ExtractError::UnreconcilableSpan);
                            },
                        }
                    },
                }
                match earlier {
                    Some(x) => {
                        exits.set(x, i);
                    },
                    None => {
                        exits.push(i);
                    },
                }
            },
        }
        i += 1;
    }
    Ok(doomed)
}


/// Whether every event of `nodes` is one of `events` or the synthetic
/// counterpart of one.
pub open spec fn drawn_from(nodes: Map<int, Event>, events: Seq<Event>) -> bool {
    forall|n: int| #[trigger]
        nodes.contains_key(n) ==> exists|k: int|
            0 <= k < events.len() && (nodes[n] == #[trigger] events[k] || twin_of(nodes[n], events[k]))
}

/// Where every event of `copied` is one of `events` and `repaired` is
/// `copied` with synthetic counterparts added, `repaired` is drawn from
/// `events`.
pub proof fn lemma_drawn(copied: Map<int, Event>, repaired: Map<int, Event>, events: Seq<Event>)
    requires
        forall|n: int| #[trigger]
            copied.contains_key(n) ==> exists|k: int|
                0 <= k < events.len() && copied[n] == #[trigger] events[k],
        copied.submap_of(repaired),
        adds_twins(copied, repaired),
    ensures
        drawn_from(repaired, events),
{
    assert forall|n: int| #[trigger] repaired.contains_key(n) implies exists|k: int|
        0 <= k < events.len() && (repaired[n] == #[trigger] events[k] || twin_of(
            repaired[n],
            events[k],
        )) by {
        if copied.contains_key(n) {
            assert(copied.dom().contains(n));
            assert(repaired[n] == copied[n]);
            let k = choose|k: int| 0 <= k < events.len() && copied[n] == #[trigger] events[k];
            assert(repaired[n] == events[k] || twin_of(repaired[n], events[k]));
        } else {
            let m = choose|m: int| #[trigger] copied.contains_key(m) && twin_of(repaired[n], copied[m]);
            let k = choose|k: int| 0 <= k < events.len() && copied[m] == #[trigger] events[k];
            assert(twin_of(repaired[n], events[k]));
        }
    }
}

} // verus!
