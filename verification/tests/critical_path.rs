use pythia::critical::CriticalPath;
use pythia::pairing::{check_pairing, find_partner, incomplete_spans};
use pythia::reconcile::close_latest;
use pythia::error::ExtractError;
use pythia::event::{DAGEdge, EdgeType, Event, EventType, IDType, TracepointID};
use pythia::graph::Direction;
use pythia::registry::TracepointRegistry;
use pythia::trace::Trace;

fn event(reg: &mut TracepointRegistry, name: &str, span: u128, at: i64, variant: EventType) -> Event {
    Event {
        trace_id: IDType::UUID(span),
        tracepoint_id: reg.intern(name),
        timestamp: at,
        is_synthetic: false,
        variant,
        key_value_pair: Vec::new(),
    }
}

fn edge(duration: u64) -> DAGEdge {
    DAGEdge { duration, variant: EdgeType::ChildOf, service: None, host: None }
}

fn connect(trace: &mut Trace, a: u32, b: u32) {
    let from = trace.event_at(a).unwrap().timestamp;
    let to = trace.event_at(b).unwrap().timestamp;
    trace.add_edge(a, b, edge((to - from) as u64)).unwrap();
}

/// A ⊃ B ⊃ C on the path; B and A end on a branch that leaves at B's start.
fn nested_trace(reg: &mut TracepointRegistry) -> Trace {
    let mut t = Trace::new(&IDType::UUID(1));
    let a_start = t.add_event(event(reg, "A", 10, 0, EventType::Entry)).unwrap();
    let b_start = t.add_event(event(reg, "B", 11, 1, EventType::Entry)).unwrap();
    let c_start = t.add_event(event(reg, "C", 12, 2, EventType::Entry)).unwrap();
    let c_end = t.add_event(event(reg, "C", 12, 3, EventType::Exit)).unwrap();
    let d_start = t.add_event(event(reg, "D", 13, 2, EventType::Entry)).unwrap();
    let d_end = t.add_event(event(reg, "D", 13, 4, EventType::Exit)).unwrap();
    let b_end = t.add_event(event(reg, "B", 11, 5, EventType::Exit)).unwrap();
    let a_end = t.add_event(event(reg, "A", 10, 6, EventType::Exit)).unwrap();
    connect(&mut t, a_start, b_start);
    connect(&mut t, b_start, c_start);
    connect(&mut t, c_start, c_end);
    connect(&mut t, b_start, d_start);
    connect(&mut t, d_start, d_end);
    connect(&mut t, d_end, b_end);
    connect(&mut t, b_end, a_end);
    t.start_node = a_start;
    t.end_node = c_end;
    t
}

/// One Entry, two parallel annotations, one Exit.
fn diamond(reg: &mut TracepointRegistry) -> (Trace, u32, u32) {
    let mut t = Trace::new(&IDType::STRING("diamond".to_string()));
    let source = t.add_event(event(reg, "request", 1, 0, EventType::Entry)).unwrap();
    let left = t.add_event(event(reg, "left", 2, 1, EventType::Annotation)).unwrap();
    let right = t.add_event(event(reg, "right", 3, 2, EventType::Annotation)).unwrap();
    let sink = t.add_event(event(reg, "request", 1, 5, EventType::Exit)).unwrap();
    connect(&mut t, source, left);
    connect(&mut t, source, right);
    connect(&mut t, left, sink);
    connect(&mut t, right, sink);
    t.start_node = source;
    t.end_node = sink;
    (t, left, right)
}

fn names(path: &CriticalPath, reg: &TracepointRegistry) -> Vec<String> {
    path.events_in_order().iter().map(|e| reg.resolve(e.tracepoint_id)).collect()
}

#[test]
fn synthetic_exits_close_spans_before_the_branch_taken() {
    let mut reg = TracepointRegistry::new();
    let trace = nested_trace(&mut reg);
    let path = CriticalPath::from_trace(&trace).unwrap();
    let events = path.events_in_order();
    let shape: Vec<(String, EventType, bool)> = events
        .iter()
        .map(|e| (reg.resolve(e.tracepoint_id), e.variant, e.is_synthetic))
        .collect();
    assert_eq!(
        shape,
        vec![
            ("A".to_string(), EventType::Entry, false),
            ("B".to_string(), EventType::Entry, false),
            ("B".to_string(), EventType::Exit, true),
            ("A".to_string(), EventType::Exit, true),
            ("C".to_string(), EventType::Entry, false),
            ("C".to_string(), EventType::Exit, false),
        ]
    );
    assert_eq!(events[2].trace_id, IDType::UUID(11));
    assert_eq!(events[3].trace_id, IDType::UUID(10));
    assert_eq!(events[2].timestamp, 2);
    assert_eq!(events[3].timestamp, 3);
    assert!(check_pairing(&events));
    assert_eq!(path.duration, 3);
    assert!(!path.is_hypothetical);
}

#[test]
fn extracted_path_is_a_simple_chain() {
    let mut reg = TracepointRegistry::new();
    let trace = nested_trace(&mut reg);
    let path = CriticalPath::from_trace(&trace).unwrap();
    let order = path.node_order();
    assert_eq!(order.len(), 6);
    assert_eq!(order[0], path.start_node);
    assert_eq!(order[5], path.end_node);
    for (i, n) in order.iter().enumerate() {
        let expected = if i + 1 == order.len() { 0 } else { 1 };
        assert_eq!(path.out_degree(*n), expected);
        assert_eq!(path.next_node(*n), order.get(i + 1).copied());
        assert_eq!(path.prev_node(*n), if i == 0 { None } else { Some(order[i - 1]) });
    }
    let mut unique = order.clone();
    unique.sort();
    unique.dedup();
    assert_eq!(unique.len(), order.len());
}

#[test]
fn walk_takes_the_latest_predecessor() {
    let mut reg = TracepointRegistry::new();
    let (trace, _left, right) = diamond(&mut reg);
    let back = CriticalPath::critical_trail(&trace).unwrap();
    assert_eq!(back.len(), 2);
    assert_eq!(trace.endpoints(back[0]).unwrap(), (right, trace.end_node));
    assert_eq!(trace.endpoints(back[1]).unwrap(), (trace.start_node, right));
    let latest = trace.latest_incoming(trace.end_node).unwrap();
    assert_eq!(latest, back[0]);
    assert_eq!(trace.latest_incoming(trace.start_node), None);
    let path = CriticalPath::from_trace(&trace).unwrap();
    assert_eq!(names(&path, &reg), vec!["request", "right", "request"]);
    assert_eq!(path.hop_durations(), vec![2, 3]);
    assert_eq!(path.duration, 5);
}

#[test]
fn durations_add_up_before_and_after_surgery() {
    let mut reg = TracepointRegistry::new();
    let (trace, _, _) = diamond(&mut reg);
    let back = CriticalPath::critical_trail(&trace).unwrap();
    let mut path = CriticalPath::from_trail(&trace, trace.end_node, &back, false).unwrap();
    let span = |p: &CriticalPath| p.stamp_of(p.end_node) - p.stamp_of(p.start_node);
    assert_eq!(path.hop_durations().iter().sum::<u64>() as i64, span(&path));

    // Removing the inner node joins its neighbours by their timestamps.
    let order = path.node_order();
    path.remove_node(order[1]).unwrap();
    assert_eq!(path.node_order(), vec![order[0], order[2]]);
    assert_eq!(path.hop_durations(), vec![5]);
    assert_eq!(path.hop_durations().iter().sum::<u64>() as i64, span(&path));

    // A node added behind the last one extends the path by a nanosecond.
    let template = path.events_in_order()[0].clone();
    let last = path.end_node;
    let added = path.add_node_after(last, &template).unwrap();
    assert_eq!(path.end_node, added);
    assert_eq!(path.hop_durations(), vec![5, 1]);
    assert_eq!(span(&path), 6);
    assert_eq!(path.hop_durations().iter().sum::<u64>() as i64, span(&path));
    let twin = path.events_in_order()[2].clone();
    assert_eq!(twin.variant, EventType::Exit);
    assert_eq!(twin.trace_id, template.trace_id);
    assert_eq!(twin.tracepoint_id, template.tracepoint_id);
    assert_eq!(twin.timestamp, 6);
    assert!(twin.is_synthetic);

    // Removing the first node moves the start; removing the last moves the end.
    let order = path.node_order();
    path.remove_node(order[0]).unwrap();
    assert_eq!(path.start_node, order[1]);
    assert_eq!(path.hop_durations(), vec![1]);
    path.remove_node(order[2]).unwrap();
    assert_eq!(path.end_node, order[1]);
    assert_eq!(path.node_order(), vec![order[1]]);
    assert!(path.hop_durations().is_empty());
}

#[test]
fn node_added_in_the_middle_keeps_the_old_duration_on_the_second_edge() {
    let mut reg = TracepointRegistry::new();
    let (trace, _, _) = diamond(&mut reg);
    let back = CriticalPath::critical_trail(&trace).unwrap();
    let mut path = CriticalPath::from_trail(&trace, trace.end_node, &back, false).unwrap();
    let order = path.node_order();
    let template = path.events_in_order()[2].clone();
    let added = path.add_node_after(order[0], &template).unwrap();
    assert_eq!(path.node_order(), vec![order[0], added, order[1], order[2]]);
    assert_eq!(path.hop_durations(), vec![1, 2, 3]);
    let twin = path.events_in_order()[1].clone();
    assert_eq!(twin.variant, EventType::Entry);
    assert_eq!(twin.timestamp, 1);
    assert_eq!(path.end_node, order[2]);
}

#[test]
fn remove_node_refuses_neighbours_out_of_order() {
    let mut reg = TracepointRegistry::new();
    let mut t = Trace::new(&IDType::UUID(9));
    let a = t.add_event(event(&mut reg, "a", 1, 10, EventType::Annotation)).unwrap();
    let b = t.add_event(event(&mut reg, "b", 2, 20, EventType::Annotation)).unwrap();
    let c = t.add_event(event(&mut reg, "c", 3, 5, EventType::Annotation)).unwrap();
    t.add_edge(a, b, edge(10)).unwrap();
    t.add_edge(b, c, edge(0)).unwrap();
    t.start_node = a;
    t.end_node = c;
    let back = CriticalPath::critical_trail(&t).unwrap();
    let mut path = CriticalPath::from_trail(&t, c, &back, false).unwrap();
    let order = path.node_order();
    assert_eq!(path.remove_node(order[1]), Err(ExtractError::MalformedTrace));
    assert_eq!(path.node_order(), order);
    assert_eq!(CriticalPath::from_trace(&t).err(), Some(ExtractError::MalformedTrace));
}

#[test]
fn hash_depends_on_tracepoints_only() {
    let mut reg = TracepointRegistry::new();
    let build = |reg: &mut TracepointRegistry, names: [&str; 3], base: i64| {
        let mut t = Trace::new(&IDType::UUID(7));
        let a = t.add_event(event(reg, names[0], 1, base, EventType::Entry)).unwrap();
        let b = t.add_event(event(reg, names[1], 2, base + 10, EventType::Annotation)).unwrap();
        let c = t.add_event(event(reg, names[2], 1, base + 25, EventType::Exit)).unwrap();
        connect(&mut t, a, b);
        connect(&mut t, b, c);
        t.start_node = a;
        t.end_node = c;
        CriticalPath::from_trace(&t).unwrap()
    };
    let mut first = build(&mut reg, ["a", "b", "c"], 0);
    let mut shifted = build(&mut reg, ["a", "b", "c"], 1_000_000);
    let mut other = build(&mut reg, ["a", "x", "c"], 0);
    let h = first.hash(&reg).unwrap();
    assert_eq!(h, "ba7816bf8f01cfea414140de5dae2223b00361a396177a9cb410ff61f20015ad");
    assert_eq!(shifted.hash(&reg).unwrap(), h);
    assert_ne!(other.hash(&reg).unwrap(), h);
    assert_eq!(first.calculate_hash(&reg).unwrap(), h);
    // The second call returns what the first one kept.
    assert_eq!(first.hash, Some(h.clone()));
    assert_eq!(first.hash(&reg).unwrap(), h);
}

#[test]
fn hash_of_unknown_tracepoint_is_none() {
    let mut reg = TracepointRegistry::new();
    let (trace, _, _) = diamond(&mut reg);
    let mut path = CriticalPath::from_trace(&trace).unwrap();
    let empty = TracepointRegistry::new();
    assert_eq!(path.calculate_hash(&empty), None);
    assert_eq!(path.hash(&empty), None);
}

#[test]
fn diamond_has_two_possible_paths() {
    let mut reg = TracepointRegistry::new();
    let (trace, left, right) = diamond(&mut reg);
    let paths = CriticalPath::all_possible_paths(&trace).unwrap();
    assert_eq!(paths.len(), 2);
    let left_event = trace.event_at(left).unwrap();
    let right_event = trace.event_at(right).unwrap();
    let mut through_left = 0;
    let mut through_right = 0;
    for path in &paths {
        assert!(path.is_hypothetical);
        let order = path.node_order();
        assert_eq!(order.len(), 3);
        for (i, n) in order.iter().enumerate() {
            assert_eq!(path.out_degree(*n), if i == 2 { 0 } else { 1 });
        }
        let events = path.events_in_order();
        let has_left = events.iter().any(|e| e.tracepoint_id == left_event.tracepoint_id);
        let has_right = events.iter().any(|e| e.tracepoint_id == right_event.tracepoint_id);
        assert!(has_left != has_right);
        if has_left {
            through_left += 1;
        } else {
            through_right += 1;
        }
    }
    assert_eq!((through_left, through_right), (1, 1));
}

#[test]
fn exit_without_entry_is_unreconcilable() {
    let mut reg = TracepointRegistry::new();
    let mut t = Trace::new(&IDType::UUID(3));
    let a = t.add_event(event(&mut reg, "x", 1, 0, EventType::Entry)).unwrap();
    let b = t.add_event(event(&mut reg, "y", 2, 1, EventType::Exit)).unwrap();
    let c = t.add_event(event(&mut reg, "x", 1, 2, EventType::Exit)).unwrap();
    connect(&mut t, a, b);
    connect(&mut t, b, c);
    t.start_node = a;
    t.end_node = c;
    assert_eq!(CriticalPath::from_trace(&t).err(), Some(ExtractError::UnreconcilableSpan));
    assert_eq!(CriticalPath::all_possible_paths(&t).err(), Some(ExtractError::UnreconcilableSpan));
}

#[test]
fn entry_off_the_path_gets_a_synthetic_entry_behind_the_join() {
    // S -> P -> J -> Q_end -> S_end, and S -> Q_start -> J: the walk goes
    // through P (later than Q_start), so Q's Entry is off the path.
    let mut reg = TracepointRegistry::new();
    let mut t = Trace::new(&IDType::UUID(4));
    let s = t.add_event(event(&mut reg, "s", 1, 0, EventType::Entry)).unwrap();
    let p = t.add_event(event(&mut reg, "p", 2, 5, EventType::Annotation)).unwrap();
    let q_start = t.add_event(event(&mut reg, "q", 3, 1, EventType::Entry)).unwrap();
    let j = t.add_event(event(&mut reg, "j", 4, 6, EventType::Annotation)).unwrap();
    let q_end = t.add_event(event(&mut reg, "q", 3, 7, EventType::Exit)).unwrap();
    let s_end = t.add_event(event(&mut reg, "s", 1, 8, EventType::Exit)).unwrap();
    connect(&mut t, s, p);
    connect(&mut t, s, q_start);
    connect(&mut t, p, j);
    connect(&mut t, q_start, j);
    connect(&mut t, j, q_end);
    connect(&mut t, q_end, s_end);
    t.start_node = s;
    t.end_node = s_end;
    let path = CriticalPath::from_trace(&t).unwrap();
    let shape: Vec<(String, EventType, bool)> = path
        .events_in_order()
        .iter()
        .map(|e| (reg.resolve(e.tracepoint_id), e.variant, e.is_synthetic))
        .collect();
    assert_eq!(
        shape,
        vec![
            ("s".to_string(), EventType::Entry, false),
            ("p".to_string(), EventType::Annotation, false),
            ("q".to_string(), EventType::Entry, true),
            ("j".to_string(), EventType::Annotation, false),
            ("q".to_string(), EventType::Exit, false),
            ("s".to_string(), EventType::Exit, false),
        ]
    );
    assert!(check_pairing(&path.events_in_order()));
}

#[test]
fn malformed_and_cyclic_traces_are_errors() {
    let mut reg = TracepointRegistry::new();
    // No first or last node set.
    let empty = Trace::new(&IDType::UUID(5));
    assert_eq!(CriticalPath::from_trace(&empty).err(), Some(ExtractError::MalformedTrace));
    // The last node cannot be reached from the first.
    let mut apart = Trace::new(&IDType::UUID(5));
    let a = apart.add_event(event(&mut reg, "a", 1, 0, EventType::Annotation)).unwrap();
    let b = apart.add_event(event(&mut reg, "b", 2, 1, EventType::Annotation)).unwrap();
    apart.start_node = a;
    apart.end_node = b;
    assert_eq!(CriticalPath::critical_trail(&apart).err(), Some(ExtractError::MalformedTrace));
    assert_eq!(CriticalPath::all_possible_paths(&apart).err(), Some(ExtractError::MalformedTrace));
    // A cycle that the walk cannot leave.
    let mut ring = Trace::new(&IDType::UUID(6));
    let s = ring.add_event(event(&mut reg, "s", 1, 0, EventType::Annotation)).unwrap();
    let x = ring.add_event(event(&mut reg, "x", 2, 1, EventType::Annotation)).unwrap();
    let y = ring.add_event(event(&mut reg, "y", 3, 2, EventType::Annotation)).unwrap();
    ring.add_edge(x, y, edge(1)).unwrap();
    ring.add_edge(y, x, edge(1)).unwrap();
    ring.start_node = s;
    ring.end_node = y;
    assert_eq!(CriticalPath::from_trace(&ring).err(), Some(ExtractError::CycleDetected));
    // The only node that no edge leaves is the first one: one path of one node.
    let alone = CriticalPath::all_possible_paths(&ring).unwrap();
    assert_eq!(alone.len(), 1);
    assert_eq!(alone[0].node_order().len(), 1);
    // With a way out of the cycle, the walk back from there never ends.
    let z = ring.add_event(event(&mut reg, "z", 4, 3, EventType::Annotation)).unwrap();
    ring.add_edge(y, z, edge(1)).unwrap();
    assert_eq!(CriticalPath::all_possible_paths(&ring).err(), Some(ExtractError::CycleDetected));
}

#[test]
fn single_node_trace_is_its_own_path() {
    let mut reg = TracepointRegistry::new();
    let mut t = Trace::new(&IDType::UUID(8));
    let only = t.add_event(event(&mut reg, "only", 1, 42, EventType::Annotation)).unwrap();
    t.start_node = only;
    t.end_node = only;
    let path = CriticalPath::from_trace(&t).unwrap();
    assert_eq!(path.node_order().len(), 1);
    assert_eq!(path.start_node, path.end_node);
    assert_eq!(path.duration, 0);
    assert_eq!(path.next_node(path.start_node), None);
    assert_eq!(path.prev_node(path.start_node), None);
}

#[test]
fn reachability_and_end_nodes() {
    let mut reg = TracepointRegistry::new();
    let trace = nested_trace(&mut reg);
    let mut ends = trace.possible_end_nodes();
    ends.sort();
    assert_eq!(ends, vec![3, 7]);
    // From D's start the ends of B and A are reached, C is not.
    assert!(trace.can_reach_from_node(&IDType::UUID(11), 4));
    assert!(trace.can_reach_from_node(&IDType::UUID(10), 4));
    assert!(!trace.can_reach_from_node(&IDType::UUID(12), 4));
    assert!(trace.search(&IDType::UUID(10), 4, Direction::Incoming, 8));
    assert!(!trace.search(&IDType::UUID(10), 4, Direction::Incoming, 1));
    assert!(!trace.search(&IDType::UUID(12), 4, Direction::Incoming, 8));
    assert_eq!(trace.edges_at(1, Direction::Outgoing).len(), 2);
    assert_eq!(trace.edges_at(1, Direction::Incoming).len(), 1);
}

#[test]
fn filter_removes_a_repeated_entry() {
    let mut reg = TracepointRegistry::new();
    let mut t = Trace::new(&IDType::UUID(2));
    let a = t.add_event(event(&mut reg, "a", 1, 0, EventType::Entry)).unwrap();
    let again = t.add_event(event(&mut reg, "a", 1, 1, EventType::Entry)).unwrap();
    let z = t.add_event(event(&mut reg, "a", 1, 4, EventType::Exit)).unwrap();
    connect(&mut t, a, again);
    connect(&mut t, again, z);
    t.start_node = a;
    t.end_node = z;
    let back = CriticalPath::critical_trail(&t).unwrap();
    let mut path = CriticalPath::from_trail(&t, z, &back, true).unwrap();
    let order = path.node_order();
    path.filter_incomplete_spans().unwrap();
    assert_eq!(path.node_order(), vec![order[0], order[2]]);
    assert_eq!(path.hop_durations(), vec![4]);
    // An Exit that nothing opened and no earlier Exit of its span is a fault.
    let mut bad = Trace::new(&IDType::UUID(2));
    let x = bad.add_event(event(&mut reg, "x", 5, 0, EventType::Exit)).unwrap();
    bad.start_node = x;
    bad.end_node = x;
    let back = CriticalPath::critical_trail(&bad).unwrap();
    let mut path = CriticalPath::from_trail(&bad, x, &back, true).unwrap();
    assert_eq!(path.filter_incomplete_spans(), Err(ExtractError::UnreconcilableSpan));
}

#[test]
fn trace_builder_reports_missing_nodes() {
    let mut reg = TracepointRegistry::new();
    let mut t = Trace::new(&IDType::UUID(1));
    assert_eq!(t.start_node, 0xFFFF_FFFF);
    assert_eq!(t.end_node, 0xFFFF_FFFF);
    let a = t.add_event(event(&mut reg, "a", 1, 0, EventType::Entry)).unwrap();
    assert!(t.has_node(a));
    assert!(!t.has_node(a + 1));
    assert_eq!(t.add_edge(a, a + 1, edge(1)), Err(ExtractError::MalformedTrace));
    assert_eq!(t.event_at(a + 1).map(|e| e.timestamp), None);
    assert_eq!(t.endpoints(0), None);
    let _ = TracepointID { id: 0 };
}

#[test]
fn every_walk_is_listed_once() {
    let mut reg = TracepointRegistry::new();
    let (trace, left, right) = diamond(&mut reg);
    let trails = CriticalPath::trails_to(&trace, trace.end_node).unwrap();
    assert_eq!(trails.len(), 2);
    assert_ne!(trails[0], trails[1]);
    let mut middles = Vec::new();
    for trail in &trails {
        assert_eq!(trail.len(), 2);
        let (from, to) = trace.endpoints(trail[0]).unwrap();
        assert_eq!(to, trace.end_node);
        assert_eq!(trace.endpoints(trail[1]).unwrap(), (trace.start_node, from));
        assert_eq!(CriticalPath::trail_nodes(&trace, trace.end_node, trail), vec![trace.start_node, from, to]);
        middles.push(from);
        let path = CriticalPath::possible_path(&trace, trace.end_node, trail).unwrap();
        assert!(path.is_hypothetical);
        assert_eq!(path.node_order().len(), 3);
    }
    middles.sort();
    assert_eq!(middles, vec![left, right]);
    // From the first node the only walk is the empty one.
    assert_eq!(
        CriticalPath::trails_to(&trace, trace.start_node).unwrap(),
        vec![Vec::<u32>::new()]
    );
}

#[test]
fn unfinished_spans_are_those_a_branch_leads_to() {
    let mut reg = TracepointRegistry::new();
    let trace = nested_trace(&mut reg);
    let back = CriticalPath::critical_trail(&trace).unwrap();
    let path = CriticalPath::from_trail(&trace, trace.end_node, &back, false).unwrap();
    let steps = path.node_order();
    let events = path.events_in_order();
    // A and B are open behind B's start; the rest of the path closes neither.
    let open = vec![events[0].clone(), events[1].clone()];
    assert_eq!(path.get_unfinished(&open, &steps, 2, 4, &trace), vec![0, 1]);
    // From C's start no end of A or B can be reached.
    assert_eq!(path.get_unfinished(&open, &steps, 2, 2, &trace), Vec::<usize>::new());
    // C is closed by the rest of the path.
    let with_c = vec![events[0].clone(), events[2].clone()];
    assert_eq!(path.get_unfinished(&with_c, &steps, 3, 4, &trace), vec![0]);
    assert!(CriticalPath::find_start_node(&events[1], 6, &trace));
    assert!(!CriticalPath::find_start_node(&events[2], 6, &trace));
}

#[test]
fn scan_names_repeated_entries_and_stale_exits() {
    let mut reg = TracepointRegistry::new();
    let mut ev = |span: u128, variant: EventType| event(&mut reg, "t", span, 0, variant);
    // Entry, Entry again, Exit, Exit again, Exit again: the second Entry goes,
    // and each Exit that a later one follows.
    let events = vec![
        ev(1, EventType::Entry),
        ev(2, EventType::Annotation),
        ev(1, EventType::Entry),
        ev(1, EventType::Exit),
        ev(1, EventType::Exit),
        ev(1, EventType::Exit),
    ];
    assert_eq!(incomplete_spans(&events), Ok(vec![2, 3, 4]));
    // A span may open again once it is closed, but not twice.
    let reopened = vec![
        ev(1, EventType::Entry),
        ev(1, EventType::Exit),
        ev(1, EventType::Entry),
        ev(1, EventType::Exit),
    ];
    assert_eq!(incomplete_spans(&reopened), Ok(vec![]));
    let twice = vec![
        ev(1, EventType::Entry),
        ev(1, EventType::Exit),
        ev(1, EventType::Entry),
        ev(1, EventType::Entry),
    ];
    assert_eq!(incomplete_spans(&twice), Err(ExtractError::UnreconcilableSpan));
    assert_eq!(incomplete_spans(&vec![ev(3, EventType::Exit)]), Err(ExtractError::UnreconcilableSpan));
    assert_eq!(incomplete_spans(&Vec::new()), Ok(vec![]));
    // Pairing asks only for some partner on the right side.
    assert!(check_pairing(&events));
    assert!(check_pairing(&reopened));
    assert!(!check_pairing(&twice));
    assert!(find_partner(&reopened, 1, 4, EventType::Exit, &IDType::UUID(1)));
    assert!(!find_partner(&reopened, 0, 1, EventType::Exit, &IDType::UUID(1)));
}

#[test]
fn copies_share_nothing_with_what_they_copy() {
    let mut reg = TracepointRegistry::new();
    let (trace, _, _) = diamond(&mut reg);
    let mut copy = trace.duplicate();
    assert_eq!(copy.get_start_end_nodes(), trace.get_start_end_nodes());
    assert_eq!(copy.base_id, trace.base_id);
    assert_eq!((copy.start_node, copy.end_node), (trace.start_node, trace.end_node));
    assert_eq!(copy.endpoints(0), trace.endpoints(0));
    copy.add_event(event(&mut reg, "more", 9, 9, EventType::Annotation)).unwrap();
    assert!(copy.has_node(4));
    assert!(!trace.has_node(4));

    let path = CriticalPath::from_trace(&trace).unwrap();
    let mut twin = path.duplicate();
    assert_eq!(twin.node_order(), path.node_order());
    assert_eq!(twin.hop_durations(), path.hop_durations());
    assert_eq!(twin.duration, path.duration);
    let first = twin.start_node;
    twin.remove_node(first).unwrap();
    assert_eq!(twin.node_order().len(), 2);
    assert_eq!(path.node_order().len(), 3);
}

#[test]
fn path_that_needs_no_repair_stays_as_it_is() {
    let mut reg = TracepointRegistry::new();
    let (trace, _, _) = diamond(&mut reg);
    let back = CriticalPath::critical_trail(&trace).unwrap();
    let mut path = CriticalPath::from_trail(&trace, trace.end_node, &back, false).unwrap();
    let before = path.node_order();
    assert_eq!(path.add_synthetic_nodes(&trace, trace.end_node, &back), Ok(()));
    assert_eq!(path.node_order(), before);
    assert!(path.events_in_order().iter().all(|e| !e.is_synthetic));
    let steps = path.node_order();
    let dag_steps = CriticalPath::trail_nodes(&trace, trace.end_node, &back);
    let open = vec![path.events_in_order()[0].clone()];
    assert_eq!(path.pending_exits(&open, &steps, &dag_steps, 0, &trace), Vec::<usize>::new());
}

#[test]
fn repair_adds_what_each_position_needs() {
    let mut reg = TracepointRegistry::new();
    let trace = nested_trace(&mut reg);
    let back = CriticalPath::critical_trail(&trace).unwrap();
    let mut path = CriticalPath::from_trail(&trace, trace.end_node, &back, false).unwrap();
    let steps = path.node_order();
    let dag_steps = CriticalPath::trail_nodes(&trace, trace.end_node, &back);
    let events = path.events_in_order();
    let open = vec![events[0].clone(), events[1].clone()];
    assert_eq!(path.pending_exits(&open, &steps, &dag_steps, 1, &trace), vec![0, 1]);
    assert_eq!(path.pending_exits(&open, &steps, &dag_steps, 0, &trace), Vec::<usize>::new());
    assert_eq!(path.add_synthetic_nodes(&trace, trace.end_node, &back), Ok(()));
    let after = path.events_in_order();
    assert_eq!(after.len(), 6);
    let added: Vec<(IDType, EventType)> =
        after.iter().filter(|e| e.is_synthetic).map(|e| (e.trace_id.clone(), e.variant)).collect();
    assert_eq!(
        added,
        vec![(IDType::UUID(11), EventType::Exit), (IDType::UUID(10), EventType::Exit)]
    );
    let kept: Vec<i64> = after.iter().filter(|e| !e.is_synthetic).map(|e| e.timestamp).collect();
    assert_eq!(kept, vec![0, 1, 2, 3]);
}

#[test]
fn closing_takes_the_latest_entry_of_the_span() {
    let mut reg = TracepointRegistry::new();
    let mut stack = vec![
        event(&mut reg, "a", 1, 0, EventType::Entry),
        event(&mut reg, "b", 2, 1, EventType::Entry),
        event(&mut reg, "a", 1, 2, EventType::Entry),
        event(&mut reg, "c", 3, 3, EventType::Entry),
    ];
    assert!(close_latest(&mut stack, &IDType::UUID(1)));
    let left: Vec<i64> = stack.iter().map(|e| e.timestamp).collect();
    assert_eq!(left, vec![0, 1, 3]);
    assert!(!close_latest(&mut stack, &IDType::UUID(9)));
    assert_eq!(stack.len(), 3);
}

#[test]
fn paths_come_back_where_every_walk_is_calm() {
    let mut reg = TracepointRegistry::new();
    let (trace, _, _) = diamond(&mut reg);
    // Both walks of the diamond need no repair: each path is the copy of its walk.
    for trail in CriticalPath::trails_to(&trace, trace.end_node).unwrap() {
        let path = CriticalPath::possible_path(&trace, trace.end_node, &trail).unwrap();
        let copy = CriticalPath::from_trail(&trace, trace.end_node, &trail, true).unwrap();
        let stamps = |p: &CriticalPath| -> Vec<i64> {
            p.events_in_order().iter().map(|e| e.timestamp).collect()
        };
        assert_eq!(stamps(&path), stamps(&copy));
        assert_eq!(path.hop_durations(), copy.hop_durations());
        assert!(path.hash.is_none());
    }
    assert_eq!(CriticalPath::all_possible_paths(&trace).unwrap().len(), 2);
}
