use pythia::control_msg::ControlMessage;
use pythia::digest::fingerprint;
use pythia::error::PythiaError;
use pythia::event::{EventType, IDType, TracepointID};
use pythia::registry::TracepointRegistry;
use pythia::reqtype::{JaegerRequestType, OSPRequestType, RequestType, SWRequestType};
use pythia::settings::ApplicationType;
use pythia::text::same_text;

#[test]
fn registry_interns_in_order_and_resolves() {
    let mut reg = TracepointRegistry::new();
    assert_eq!(reg.len(), 0);
    let a = reg.intern("nova/manager.py:1");
    let b = reg.intern("nova/api.py:7");
    let again = reg.intern("nova/manager.py:1");
    assert_eq!(a, TracepointID { id: 0 });
    assert_eq!(b, TracepointID { id: 1 });
    assert_eq!(again, a);
    assert_eq!(reg.len(), 2);
    assert_eq!(reg.resolve(a), "nova/manager.py:1");
    assert_eq!(reg.resolve(b), "nova/api.py:7");
    assert_eq!(reg.lookup(TracepointID { id: 2 }), None);
    assert_eq!(reg.lookup(b), Some("nova/api.py:7".to_string()));
    let c = TracepointID::from_str("x", &mut reg);
    assert_eq!(c.id, 2);
    assert_eq!(c.to_string(&reg), "x");
    assert_eq!(b.to_string(&reg), "nova/api.py:7");
}

#[test]
fn fingerprint_is_sha256_in_hex() {
    assert_eq!(
        fingerprint("").unwrap(),
        "e3b0c44298fc1c149afbf4c8996fb92427ae41e4649b934ca495991b7852b855"
    );
    assert_eq!(
        fingerprint("abc").unwrap(),
        "ba7816bf8f01cfea414140de5dae2223b00361a396177a9cb410ff61f20015ad"
    );
    assert_ne!(fingerprint("abd"), fingerprint("abc"));
}

#[test]
fn osp_request_types_parse_by_name() {
    assert_eq!(OSPRequestType::from_str("ServerCreate"), Ok(OSPRequestType::ServerCreate));
    assert_eq!(OSPRequestType::from_str("ServerDelete"), Ok(OSPRequestType::ServerDelete));
    assert_eq!(OSPRequestType::from_str("ServerList"), Ok(OSPRequestType::ServerList));
    assert_eq!(OSPRequestType::from_str("FloatingIPCreate"), Ok(OSPRequestType::FloatingIPCreate));
    assert_eq!(OSPRequestType::from_str("FloatingIPDelete"), Ok(OSPRequestType::FloatingIPDelete));
    assert_eq!(OSPRequestType::from_str("FloatingIPList"), Ok(OSPRequestType::FloatingIPList));
    assert_eq!(OSPRequestType::from_str("UsageList"), Ok(OSPRequestType::UsageList));
    assert_eq!(OSPRequestType::from_str("Unknown"), Ok(OSPRequestType::Unknown));
    assert_eq!(OSPRequestType::from_str("servercreate"), Err("Unknown request type".to_string()));
    assert_eq!(OSPRequestType::UsageList.to_string(), "UsageList");
    assert_eq!(
        OSPRequestType::all_types(),
        vec![
            OSPRequestType::ServerCreate,
            OSPRequestType::ServerList,
            OSPRequestType::ServerDelete,
            OSPRequestType::UsageList,
            OSPRequestType::Unknown,
        ]
    );
}

#[test]
fn request_types_parse_by_application() {
    assert_eq!(
        RequestType::from_str("ServerList", "OpenStack"),
        Ok(RequestType::OSP(OSPRequestType::ServerList))
    );
    assert_eq!(
        RequestType::from_str("nope", "OpenStack"),
        Err("Unknown request type".to_string())
    );
    assert_eq!(
        RequestType::from_str("GET /cart", "Jaeger"),
        Ok(RequestType::Jaeger(JaegerRequestType { rt: "GET /cart".to_string() }))
    );
    assert_eq!(
        RequestType::from_str("GET /cart", "SkyWalking"),
        Ok(RequestType::SW(SWRequestType { rt: "GET /cart".to_string() }))
    );
    assert_eq!(
        RequestType::from_str("GET /cart", "HDFS"),
        Err("Unknown request type!".to_string())
    );
    assert_eq!(RequestType::OSP(OSPRequestType::ServerList).to_string(), "ServerList");
    assert_eq!(RequestType::Jaeger(JaegerRequestType { rt: "op".to_string() }).to_string(), "op");
    assert_eq!(RequestType::SW(SWRequestType { rt: "ep".to_string() }).to_string(), "ep");
    assert_eq!(RequestType::Unknown.to_string(), "");
    let t = RequestType::SW(SWRequestType { rt: "ep".to_string() });
    assert_eq!(t.duplicate(), t);
}

#[test]
fn application_names() {
    assert_eq!(ApplicationType::HDFS.as_str(), "HDFS");
    assert_eq!(ApplicationType::OpenStack.as_str(), "OpenStack");
    assert_eq!(ApplicationType::DEATHSTAR.as_str(), "DEATHSTAR");
    assert_eq!(ApplicationType::Uber.as_str(), "Uber");
    assert_eq!(ApplicationType::Jaeger.as_str(), "Jaeger");
    assert_eq!(ApplicationType::Zipkin.as_str(), "Zipkin");
    assert_eq!(ApplicationType::SkyWalking.as_str(), "SkyWalking");
}

#[test]
fn control_message_keeps_both_lists() {
    let on = vec![TracepointID { id: 1 }, TracepointID { id: 2 }];
    let off = vec![TracepointID { id: 3 }];
    let msg = ControlMessage::from_tracepoints(on.clone(), off.clone());
    assert_eq!(msg.enable, on);
    assert_eq!(msg.disable, off);
}

#[test]
fn ids_compare_by_kind_and_content() {
    assert!(IDType::UUID(5).same_as(&IDType::UUID(5)));
    assert!(!IDType::UUID(5).same_as(&IDType::UUID(6)));
    assert!(IDType::STRING("a".to_string()).same_as(&IDType::STRING("a".to_string())));
    assert!(!IDType::STRING("a".to_string()).same_as(&IDType::STRING("b".to_string())));
    assert!(!IDType::STRING("5".to_string()).same_as(&IDType::UUID(5)));
    assert_eq!(IDType::STRING("a".to_string()).duplicate(), IDType::STRING("a".to_string()));
    assert!(same_text("abc", "abc"));
    assert!(!same_text("abc", "abd"));
    assert_ne!(EventType::Entry, EventType::Exit);
}

#[test]
fn error_message_has_its_prefix() {
    assert_eq!(PythiaError("no trace".to_string()).to_string(), "Uber error: no trace");
}
