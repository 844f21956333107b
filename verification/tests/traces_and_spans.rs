use std::collections::HashMap;

use pythia::controller::{point_by_name, Controller, OTelController};
use pythia::event::{DAGEdge, EdgeType, Event, EventType, IDType, TraceNode, TracepointID, Value};
use pythia::jaeger::{JPTag, JaegerProcess, JaegerReference, JaegerSpan, JaegerTrace};
use pythia::osprofiler::{
    AnnotationEnum, ExitEnum, FunctionEntryFunction, FunctionEntryInfo, NormalExitInfo,
    OSProfilerEnum, OSProfilerSpan, PlainAnnotationInfo,
};
use pythia::registry::TracepointRegistry;
use pythia::reqtype::{OSPRequestType, RequestType};
use pythia::critical::CriticalPath;
use pythia::error::ExtractError;
use pythia::spantrace::{Feature, Span, SpanCache, SpanTrace};
use pythia::candidate::{bytes_of, hash_id_and_edge};
use pythia::digest::{fingerprint, Fingerprinter};
use pythia::trace::{Trace, TraceEdge};

fn event(reg: &mut TracepointRegistry, name: &str, span: u128, at: i64, variant: EventType) -> Event {
    Event {
        trace_id: IDType::UUID(span),
        tracepoint_id: reg.intern(name),
        timestamp: at,
        is_synthetic: false,
        variant,
        key_value_pair: Vec::new(),
    }
}

fn edge(duration: u64) -> DAGEdge {
    DAGEdge { duration, variant: EdgeType::FollowsFrom, service: None, host: None }
}

#[test]
fn start_and_end_are_the_earliest_and_the_latest_node() {
    let mut reg = TracepointRegistry::new();
    let mut t = Trace::new(&IDType::UUID(1));
    assert_eq!(t.get_start_end_nodes(), (0xFFFF_FFFF, 0xFFFF_FFFF));
    let a = t.add_event(event(&mut reg, "a", 1, 50, EventType::Annotation)).unwrap();
    let b = t.add_event(event(&mut reg, "b", 2, 10, EventType::Annotation)).unwrap();
    let c = t.add_event(event(&mut reg, "c", 3, 90, EventType::Annotation)).unwrap();
    let d = t.add_event(event(&mut reg, "d", 4, 90, EventType::Annotation)).unwrap();
    let e = t.add_event(event(&mut reg, "e", 5, 10, EventType::Annotation)).unwrap();
    assert_eq!((a, b, c, d, e), (0, 1, 2, 3, 4));
    assert_eq!(t.get_start_end_nodes(), (b, c));
    assert_eq!(t.stamp_at(c), 90);
}

#[test]
fn prune_removes_branches_that_miss_the_end() {
    let mut reg = TracepointRegistry::new();
    let mut t = Trace::new(&IDType::UUID(1));
    let s = t.add_event(event(&mut reg, "s", 1, 0, EventType::Entry)).unwrap();
    let m = t.add_event(event(&mut reg, "m", 2, 1, EventType::Annotation)).unwrap();
    let z = t.add_event(event(&mut reg, "s", 1, 9, EventType::Exit)).unwrap();
    let dead1 = t.add_event(event(&mut reg, "x", 3, 2, EventType::Annotation)).unwrap();
    let dead2 = t.add_event(event(&mut reg, "y", 4, 3, EventType::Annotation)).unwrap();
    t.add_edge(s, m, edge(1)).unwrap();
    t.add_edge(m, z, edge(8)).unwrap();
    t.add_edge(m, dead1, edge(1)).unwrap();
    t.add_edge(dead1, dead2, edge(1)).unwrap();
    t.start_node = s;
    t.end_node = z;
    assert_eq!(t.prune(), 2);
    assert!(t.has_node(s) && t.has_node(m) && t.has_node(z));
    assert!(!t.has_node(dead1) && !t.has_node(dead2));
    assert_eq!(t.possible_end_nodes(), vec![z]);
    assert_eq!(t.prune(), 0);
}

#[test]
fn edges_name_both_ends() {
    let mut reg = TracepointRegistry::new();
    let mut t = Trace::new(&IDType::STRING("req".to_string()));
    t.set_req_type(RequestType::OSP(OSPRequestType::ServerList));
    let a = t.add_event(event(&mut reg, "a", 1, 5, EventType::Entry)).unwrap();
    let b = t.add_event(event(&mut reg, "b", 2, 7, EventType::Exit)).unwrap();
    t.add_edge(a, b, edge(2)).unwrap();
    let edges = t.get_edges(&reg).unwrap();
    assert_eq!(edges.len(), 1);
    assert_eq!(edges[0].id, IDType::STRING("req".to_string()));
    assert_eq!(edges[0].request_type, RequestType::OSP(OSPRequestType::ServerList));
    assert_eq!((edges[0].tp_start.as_str(), edges[0].start), ("a", 5));
    assert_eq!((edges[0].tp_end.as_str(), edges[0].end), ("b", 7));
    assert_eq!(edges[0].tid_start, TracepointID { id: 0 });
    assert_eq!(edges[0].tid_end, TracepointID { id: 1 });
    assert!(t.get_edges(&TracepointRegistry::new()).is_none());
    let mut later = edges[0].clone();
    later.start = 7;
    later.end = 9;
    assert!(!edges[0].overlaps_with(&later));
    later.start = 6;
    assert!(edges[0].overlaps_with(&later));
    assert!(later.overlaps_with(&edges[0]));
}

#[test]
fn trace_node_keeps_lock_queue_and_host() {
    let mut reg = TracepointRegistry::new();
    let mut e = event(&mut reg, "a", 1, 0, EventType::Entry);
    e.key_value_pair = vec![
        ("host".to_string(), Value::Str("h1".to_string())),
        ("lock_queue".to_string(), Value::UnsignedInt(3)),
        ("agent".to_string(), Value::Str("x".to_string())),
        ("lock_queue".to_string(), Value::SignedInt(-1)),
    ];
    let node = TraceNode::from_event(&e);
    assert_eq!(node.tracepoint_id, e.tracepoint_id);
    assert_eq!(node.variant, EventType::Entry);
    assert_eq!(
        node.key_value_pair,
        vec![
            ("lock_queue".to_string(), vec![Value::UnsignedInt(3), Value::SignedInt(-1)]),
            ("host".to_string(), vec![Value::Str("h1".to_string())]),
        ]
    );
    assert!(e.matches(&node));
    let other = TraceNode::from_event(&event(&mut reg, "a", 9, 7, EventType::Exit));
    assert!(!node.same_as(&other));
    assert!(node.same_as(&node.clone()));
    assert_eq!(TracepointID { id: 1 }.bytes(), 1u64.to_ne_bytes());
}

fn span(id: &str, host: &str, start: i64, duration: u64) -> Span {
    let mut s = Span::from_data(
        id.to_string(),
        "svc".to_string(),
        host.to_string(),
        "op".to_string(),
        start,
    );
    s.duration = duration;
    s
}

#[test]
fn spans_overlap_when_each_starts_before_the_other_ends() {
    let a = span("a", "h", 100, 50);
    let b = span("b", "h", 149, 10);
    let c = span("c", "h", 150, 10);
    assert_eq!(a.end(), 150);
    assert!(a.overlaps(&b) && b.overlaps(&a));
    assert!(!a.overlaps(&c) && !c.overlaps(&a));
    let mut child = span("k", "h", 0, 0);
    assert_eq!(child.parent, "");
    child.add_parent("a".to_string());
    assert_eq!(child.parent, "a");
    assert_eq!(
        a.get_features(),
        vec![
            Feature { name: "service".to_string(), value: "svc".to_string() },
            Feature { name: "endpoint".to_string(), value: "op".to_string() },
        ]
    );
}

#[test]
fn cache_finds_overlaps_per_host() {
    let mut cache = SpanCache::init_cache();
    assert!(cache.find_overlaps_raw(0, 100, "h1".to_string()).is_empty());
    cache.add_span(span("a", "h1", 100, 50), "t1".to_string());
    cache.add_span(span("b", "h2", 100, 50), "t1".to_string());
    cache.add_span(span("c", "h1", 200, 50), "t2".to_string());
    cache.add_span_raw("h1".to_string(), "t3".to_string(), "d".to_string(), 120, 130);
    assert_eq!(cache.hosts.len(), 2);
    assert_eq!(cache.find_host("h2"), Some(1));
    assert_eq!(cache.find_host("h3"), None);
    assert_eq!(
        cache.find_overlaps_raw(125, 210, "h1".to_string()),
        vec![
            ("t1".to_string(), "a".to_string()),
            ("t2".to_string(), "c".to_string()),
            ("t3".to_string(), "d".to_string()),
        ]
    );
    assert_eq!(
        cache.find_overlaps_raw(150, 200, "h1".to_string()),
        Vec::<(String, String)>::new()
    );
    assert_eq!(
        cache.find_overlaps(&span("x", "h2", 149, 1)),
        vec![("t1".to_string(), "b".to_string())]
    );
    assert!(cache.find_overlaps(&span("x", "h9", 149, 1)).is_empty());
}

fn osp(name: &str, trace_id: u128, tracepoint: &str, info: OSProfilerEnum) -> OSProfilerSpan {
    OSProfilerSpan {
        trace_id,
        parent_id: 0,
        project: "nova".to_string(),
        name: name.to_string(),
        base_id: 1,
        service: "nova".to_string(),
        tracepoint_id: tracepoint.to_string(),
        timestamp: 0,
        info,
    }
}

#[test]
fn exits_take_the_tracepoint_of_their_entry() {
    let entry = OSProfilerEnum::FunctionEntry(FunctionEntryInfo {
        function: FunctionEntryFunction { name: "f".to_string() },
        thread_id: 1,
        host: "h".to_string(),
        tracepoint_id: "t".to_string(),
        pid: 2,
    });
    let exit = OSProfilerEnum::Exit(ExitEnum::Normal(NormalExitInfo { host: "h".to_string() }));
    let note = OSProfilerEnum::Annotation(AnnotationEnum::Plain(PlainAnnotationInfo {
        thread_id: 1,
        host: "h".to_string(),
        tracepoint_id: "t".to_string(),
        pid: 2,
    }));
    let mut map: HashMap<u128, String> = HashMap::new();
    assert_eq!(osp("f", 7, "nova/f.py:1", entry).get_tracepoint_id(&mut map).unwrap(), "nova/f.py:1");
    assert_eq!(map.get(&7), Some(&"nova/f.py:1".to_string()));
    assert_eq!(osp("n", 8, "nova/n.py:2", note).get_tracepoint_id(&mut map).unwrap(), "nova/n.py:2");
    assert_eq!(map.len(), 1);
    assert_eq!(osp("f", 7, "", exit.clone()).get_tracepoint_id(&mut map).unwrap(), "nova/f.py:1");
    assert!(map.is_empty());
    assert_eq!(
        osp("asynch_wait_1", 9, "own", exit.clone()).get_tracepoint_id(&mut map).unwrap(),
        "own"
    );
    let missing = osp("f", 9, "own", exit).get_tracepoint_id(&mut map);
    assert!(missing.unwrap_err().0.starts_with("Couldn't find trace id for "));
}

#[test]
fn otel_controller_switches_nothing() {
    let mut reg = TracepointRegistry::new();
    let controller = OTelController::from_clients(vec!["client:3030".to_string()]);
    let points = point_by_name("nova/f.py:1", &mut reg);
    assert_eq!(points, vec![(TracepointID { id: 0 }, None)]);
    controller.enable(&points);
    controller.disable(&points);
    controller.disable_all();
    controller.enable_all();
    assert!(controller.is_enabled(&points[0]));
    assert!(controller.enabled_tracepoints().is_empty());
    assert_eq!(controller.client_list, vec!["client:3030".to_string()]);
}

#[test]
fn edge_key_is_the_digest_of_id_and_tracepoints() {
    let edge = |id: IDType| TraceEdge {
        id,
        request_type: RequestType::Unknown,
        tid_start: TracepointID { id: 0 },
        tp_start: "b".to_string(),
        start: 0,
        tid_end: TracepointID { id: 1 },
        tp_end: "c".to_string(),
        end: 1,
    };
    let text = IDType::STRING("a".to_string());
    assert_eq!(
        hash_id_and_edge(text.clone(), edge(text)).unwrap(),
        "ba7816bf8f01cfea414140de5dae2223b00361a396177a9cb410ff61f20015ad"
    );
    let uuid = IDType::UUID(0x6162_6364_6566_6768_696a_6b6c_6d6e_6f70);
    assert_eq!(bytes_of(0x6162_6364_6566_6768_696a_6b6c_6d6e_6f70), b"abcdefghijklmnop".to_vec());
    assert_eq!(bytes_of(1), vec![0, 0, 0, 0, 0, 0, 0, 0, 0, 0, 0, 0, 0, 0, 0, 1]);
    assert_eq!(hash_id_and_edge(uuid.clone(), edge(uuid)), fingerprint("abcdefghijklmnopbc"));
    let mut printer = Fingerprinter::new();
    assert!(printer.feed("a"));
    assert!(printer.feed_bytes(b"bc"));
    assert_eq!(printer.fed, 3);
    assert_eq!(Some(printer.finish()), fingerprint("abc"));
}

fn child(id: &str, service: &str, parent: &str, start: i64, duration: u64) -> Span {
    let mut s = Span::from_data(
        id.to_string(),
        service.to_string(),
        "host-1".to_string(),
        "op".to_string(),
        start,
    );
    s.duration = duration;
    s.add_parent(parent.to_string());
    s
}

fn request() -> SpanTrace {
    SpanTrace::from_span_list(
        vec![
            child("r", "front", "", 0, 100),
            child("a", "auth", "r", 10, 20),
            child("b", "cart", "r", 40, 50),
            child("c", "ads", "r", 35, 10),
            child("d", "db", "b", 50, 30),
        ],
        "front:op".to_string(),
        "r".to_string(),
        "req-1".to_string(),
    )
}

#[test]
fn span_tree_becomes_a_chain_of_children_that_do_not_overlap() {
    let st = request();
    assert_eq!(st.spans.len(), 5);
    assert_eq!(st.span_at("b"), Some(2));
    assert_eq!(st.span_at("x"), None);
    let r = st.children_at("r").unwrap();
    let kids: Vec<&str> = st.children[r].1.iter().map(|s| s.span_id.as_str()).collect();
    assert_eq!(kids, vec!["a", "b", "c"]);
    assert!(st.children[st.children_at("a").unwrap()].1.is_empty());
    assert_eq!(Span::latest_before(&st.children[r].1, 1 << 70), Some(1));
    assert_eq!(Span::latest_before(&st.children[r].1, 40), Some(0));
    assert_eq!(Span::latest_before(&st.children[r].1, 30), None);

    let mut reg = TracepointRegistry::new();
    let trace = st.to_critical_path(&mut reg).unwrap();
    assert_eq!(trace.base_id, IDType::STRING("req-1".to_string()));
    assert_eq!(trace.request_type.to_string(), "front:op");
    let path = CriticalPath::from_trace(&trace).unwrap();
    let shown: Vec<(String, i64)> = path
        .events_in_order()
        .iter()
        .map(|e| (reg.resolve(e.tracepoint_id), e.timestamp))
        .collect();
    let expect = |name: &str, at: i64| (name.to_string(), at);
    assert_eq!(
        shown,
        vec![
            expect("front:op_start", 0),
            expect("auth:op_start", 10),
            expect("auth:op_end", 30),
            expect("cart:op_start", 40),
            expect("db:op_start", 50),
            expect("db:op_end", 80),
            expect("cart:op_end", 90),
            expect("front:op_end", 100),
        ]
    );
    assert_eq!(path.hop_durations(), vec![10, 20, 10, 10, 30, 10, 10]);
    assert_eq!(path.duration, 100);
    assert!(path.events_in_order().iter().all(|e| !e.is_synthetic));
    assert_eq!(path.events_in_order()[1].trace_id, IDType::STRING("auth:op".to_string()));
    // The edge behind a span's end is labelled with the span's parent.
    let last = trace.edges_at(trace.end_node, pythia::graph::Direction::Incoming);
    assert_eq!(last.len(), 1);
}

#[test]
fn span_tree_errors() {
    let mut reg = TracepointRegistry::new();
    let no_root = SpanTrace::from_span_list(
        vec![child("a", "s", "", 0, 1)],
        "e".to_string(),
        "missing".to_string(),
        "req".to_string(),
    );
    assert_eq!(no_root.to_critical_path(&mut reg).err(), Some(ExtractError::MalformedTrace));
    // A span that is its own parent nests without end.
    let looped = SpanTrace::from_span_list(
        vec![child("a", "s", "a", 5, 1)],
        "e".to_string(),
        "a".to_string(),
        "req".to_string(),
    );
    assert_eq!(looped.to_critical_path(&mut reg).err(), Some(ExtractError::CycleDetected));
    assert_eq!(looped.get_backtrace("a".to_string()).map(|w| w.len()), None);
    let late = SpanTrace::from_span_list(
        vec![child("a", "s", "", i64::MAX, 1)],
        "e".to_string(),
        "a".to_string(),
        "req".to_string(),
    );
    assert_eq!(late.to_critical_path(&mut reg).err(), Some(ExtractError::MalformedTrace));
}

#[test]
fn backtrace_climbs_to_the_root() {
    let st = request();
    let way = st.get_backtrace("d".to_string()).unwrap();
    let ids: Vec<&str> = way.iter().map(|s| s.span_id.as_str()).collect();
    assert_eq!(ids, vec!["d", "b", "r"]);
    assert_eq!(st.get_backtrace(String::new()).unwrap().len(), 0);
    assert!(st.get_backtrace("nobody".to_string()).is_none());
    let features = st.backtrace_features("b".to_string()).unwrap();
    let shown: Vec<(&str, &str)> =
        features.iter().map(|f| (f.name.as_str(), f.value.as_str())).collect();
    assert_eq!(
        shown,
        vec![("service", "cart"), ("endpoint", "op"), ("service", "front"), ("endpoint", "op")]
    );
    let mut cache = SpanCache::init_cache();
    cache.add_trace(request());
    assert_eq!(cache.hosts.len(), 1);
    assert_eq!(
        cache.find_overlaps_raw(85, 95, "host-1".to_string()),
        vec![("req-1".to_string(), "r".to_string()), ("req-1".to_string(), "b".to_string())]
    );
}

fn jaeger_span(id: &str, parent: Option<&str>, process: &str, start: i64, duration: i64) -> JaegerSpan {
    JaegerSpan {
        trace_id: "t-1".to_string(),
        span_id: id.to_string(),
        flags: None,
        operation_name: format!("op-{}", id),
        start_time: start,
        duration,
        references: parent
            .map(|p| JaegerReference {
                ref_type: "CHILD_OF".to_string(),
                trace_id: "t-1".to_string(),
                span_id: p.to_string(),
            })
            .into_iter()
            .collect(),
        process_id: process.to_string(),
    }
}

fn jaeger_process(service: &str, tags: &[(&str, &str)]) -> JaegerProcess {
    JaegerProcess {
        service_name: service.to_string(),
        tags: tags.iter().map(|(k, v)| JPTag { key: k.to_string(), value: v.to_string() }).collect(),
    }
}

#[test]
fn jaeger_trace_becomes_a_span_trace() {
    let trace = JaegerTrace {
        trace_id: "t-1".to_string(),
        spans: vec![
            jaeger_span("kid", Some("top"), "p2", 1_010, 20),
            jaeger_span("top", None, "p1", 1_000, 100),
        ],
        processes: vec![
            ("p1".to_string(), jaeger_process("front", &[("hostname", "h0"), ("ip", "x"), ("hostname", "h1")])),
            ("p2".to_string(), jaeger_process("db", &[("ip", "y")])),
        ],
    };
    assert_eq!(trace.processes[0].1.host(), "h1");
    assert_eq!(trace.processes[1].1.host(), "");
    let kid = trace.spans[0].to_span(&trace.processes).unwrap();
    assert_eq!(kid.span_id, "kid");
    assert_eq!(kid.parent, "top");
    assert_eq!(kid.service, "db");
    assert_eq!(kid.host, "");
    assert_eq!(kid.operation, "op-kid");
    assert_eq!((kid.start, kid.duration), (1_010_000, 20_000));

    let mut cache = SpanCache::init_cache();
    let st = trace.to_trace(&mut cache).unwrap();
    assert_eq!(st.endpoint_type, "front:op-top");
    assert_eq!(st.root_span_id, "top");
    assert_eq!(st.req_id, "t-1");
    assert_eq!(st.spans.len(), 2);
    assert_eq!(
        cache.find_overlaps_raw(1_000_000, 1_000_001, "h1".to_string()),
        vec![("t-1".to_string(), "top".to_string())]
    );
    let mut reg = TracepointRegistry::new();
    let chain = st.to_critical_path(&mut reg).unwrap();
    let path = CriticalPath::from_trace(&chain).unwrap();
    assert_eq!(path.node_order().len(), 4);
    assert_eq!(path.hop_durations(), vec![10_000, 20_000, 70_000]);
}

#[test]
fn jaeger_trace_errors() {
    let mut cache = SpanCache::init_cache();
    let rootless = JaegerTrace {
        trace_id: "t".to_string(),
        spans: vec![jaeger_span("a", Some("b"), "p", 0, 1)],
        processes: vec![("p".to_string(), jaeger_process("s", &[]))],
    };
    assert_eq!(rootless.to_trace(&mut cache).err(), Some("Could not find a root span!".to_string()));
    assert!(cache.hosts.is_empty());
    let homeless = JaegerTrace {
        trace_id: "t".to_string(),
        spans: vec![jaeger_span("a", None, "q", 0, 1)],
        processes: vec![("p".to_string(), jaeger_process("s", &[]))],
    };
    assert!(homeless.spans[0].to_span(&homeless.processes).is_none());
    assert_eq!(homeless.to_trace(&mut cache).err(), Some("Could not convert a span!".to_string()));
    assert!(jaeger_span("a", None, "p", i64::MAX / 1000 + 1, 1).to_span(&rootless.processes).is_none());
    assert!(jaeger_span("a", None, "p", 0, -1).to_span(&rootless.processes).is_none());
    assert!(jaeger_span("a", None, "p", i64::MAX / 1000, 1).to_span(&rootless.processes).is_some());
}

#[test]
fn asynch_spans_have_to_be_annotations() {
    let exit = OSProfilerEnum::Exit(ExitEnum::Normal(NormalExitInfo { host: "h".to_string() }));
    let note = OSProfilerEnum::Annotation(AnnotationEnum::Plain(PlainAnnotationInfo {
        thread_id: 1,
        host: "h".to_string(),
        tracepoint_id: "t".to_string(),
        pid: 2,
    }));
    assert_eq!(osp("asynch_wait", 1, "t", exit.clone()).accept(), Err(String::new()));
    assert_eq!(osp("asynch_request", 1, "t", exit.clone()).accept(), Err(String::new()));
    let kept = osp("asynch_wait", 1, "t", note.clone());
    assert_eq!(kept.clone().accept(), Ok(kept));
    let other = osp("asynch_wait_more", 1, "t", exit);
    assert_eq!(other.clone().accept(), Ok(other));
}

#[test]
fn id_bytes_are_the_number_in_one_of_two_orders() {
    let bytes = TracepointID { id: 0x0102_0304_0506_0708 }.bytes();
    let little = [8u8, 7, 6, 5, 4, 3, 2, 1];
    let big = [1u8, 2, 3, 4, 5, 6, 7, 8];
    assert!(bytes == little || bytes == big);
    assert_eq!(bytes, 0x0102_0304_0506_0708u64.to_ne_bytes());
}

#[test]
fn cache_takes_the_spans_of_a_trace_in_their_order() {
    let mut cache = SpanCache::init_cache();
    cache.add_span(span("old", "host-1", 1, 1), "t0".to_string());
    cache.add_trace(request());
    assert_eq!(cache.hosts.len(), 1);
    assert_eq!(cache.hosts[0].host, "host-1");
    assert_eq!(
        cache.hosts[0].times,
        vec![(1, 2), (0, 100), (10, 30), (40, 90), (35, 45), (50, 80)]
    );
    let ids: Vec<(&str, &str)> =
        cache.hosts[0].refs.iter().map(|r| (r.0.as_str(), r.1.as_str())).collect();
    assert_eq!(
        ids,
        vec![("t0", "old"), ("req-1", "r"), ("req-1", "a"), ("req-1", "b"), ("req-1", "c"), ("req-1", "d")]
    );
}

#[test]
fn span_chain_holds_two_events_for_each_span_converted() {
    let st = request();
    let mut reg = TracepointRegistry::new();
    let trace = st.to_critical_path(&mut reg).unwrap();
    // r, a, b and d are converted; c overlaps b and is left out.
    assert_eq!(trace.possible_end_nodes().len(), 1);
    let mut nodes = 0;
    while trace.has_node(nodes) {
        nodes += 1;
    }
    assert_eq!(nodes, 8);
    assert_eq!(trace.get_edges(&reg).unwrap().len(), 7);
    // One level of nesting is not enough for the root and its children.
    let root = &st.spans[0];
    let mut shallow = Trace::new(&IDType::UUID(0));
    assert_eq!(
        root.to_critical_path(&st, &mut shallow, String::new(), String::new(), &mut reg, 1),
        Err(ExtractError::CycleDetected)
    );
    let mut deep = Trace::new(&IDType::UUID(0));
    assert_eq!(
        root.to_critical_path(&st, &mut deep, String::new(), String::new(), &mut reg, 3),
        Ok(())
    );
    assert!(deep.has_node(7) && !deep.has_node(8));
}
