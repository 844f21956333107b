//! Request types of the traced applications.

use vstd::prelude::*;
use crate::text::{owned, same_text};

verus! {

/// A request type of OpenStack.
#[derive(Clone, Copy, Debug, PartialEq, Eq, Hash, Structural)]
pub enum OSPRequestType {
    ServerCreate,
    ServerDelete,
    ServerList,
    FloatingIPCreate,
    FloatingIPDelete,
    FloatingIPList,
    UsageList,
    Unknown,
}

/// A request type of Jaeger: the operation's name.
#[derive(Clone, Debug, PartialEq, Eq, Hash)]
pub struct JaegerRequestType {
    pub rt: String,
}

/// A request type of SkyWalking: the endpoint's name.
#[derive(Clone, Debug, PartialEq, Eq, Hash)]
pub struct SWRequestType {
    pub rt: String,
}

/// The request type of a trace, by the application that produced it.
#[derive(Clone, Debug, PartialEq, Eq, Hash)]
pub enum RequestType {
    OSP(OSPRequestType),
    Jaeger(JaegerRequestType),
    SW(SWRequestType),
    Unknown,
}

/// The name of an OpenStack request type.
pub open spec fn osp_name(t: OSPRequestType) -> Seq<char> {
    match t {
        OSPRequestType::ServerCreate => "ServerCreate"@,
        OSPRequestType::ServerDelete => "ServerDelete"@,
        OSPRequestType::ServerList => "ServerList"@,
        OSPRequestType::FloatingIPCreate => "FloatingIPCreate"@,
        OSPRequestType::FloatingIPDelete => "FloatingIPDelete"@,
        OSPRequestType::FloatingIPList => "FloatingIPList"@,
        OSPRequestType::UsageList => "UsageList"@,
        OSPRequestType::Unknown => "Unknown"@,
    }
}

/// The OpenStack request type that a name stands for, if any.
pub open spec fn osp_named(name: Seq<char>) -> Option<OSPRequestType> {
    if name == "ServerCreate"@ {
        Some(OSPRequestType::ServerCreate)
    } else if name == "ServerDelete"@ {
        Some(OSPRequestType::ServerDelete)
    } else if name == "ServerList"@ {
        Some(OSPRequestType::ServerList)
    } else if name == "FloatingIPCreate"@ {
        Some(OSPRequestType::FloatingIPCreate)
    } else if name == "FloatingIPDelete"@ {
        Some(OSPRequestType::FloatingIPDelete)
    } else if name == "FloatingIPList"@ {
        Some(OSPRequestType::FloatingIPList)
    } else if name == "UsageList"@ {
        Some(OSPRequestType::UsageList)
    } else if name == "Unknown"@ {
        Some(OSPRequestType::Unknown)
    } else {
        None
    }
}

impl OSPRequestType {
    /// Reads a request type from its name. Any other text is an error.
    pub fn from_str(typ: &str) -> (parsed: Result<OSPRequestType, String>)
        ensures
            match parsed {
                Ok(t) => osp_named(typ@) == Some(t),
                Err(msg) => osp_named(typ@) is None && msg@ == "Unknown request type"@,
            },
    {
        if same_text(typ, "ServerCreate") {
            Ok(OSPRequestType::ServerCreate)
        } else if same_text(typ, "ServerDelete") {
            Ok(OSPRequestType::ServerDelete)
        } else if same_text(typ, "ServerList") {
            Ok(OSPRequestType::ServerList)
        } else if same_text(typ, "FloatingIPCreate") {
            Ok(OSPRequestType::FloatingIPCreate)
        } else if same_text(typ, "FloatingIPDelete") {
            Ok(OSPRequestType::FloatingIPDelete)
        } else if same_text(typ, "FloatingIPList") {
            Ok(OSPRequestType::FloatingIPList)
        } else if same_text(typ, "UsageList") {
            Ok(OSPRequestType::UsageList)
        } else if same_text(typ, "Unknown") {
            Ok(OSPRequestType::Unknown)
        } else {
            Err(owned("Unknown request type"))
        }
    }

    /// The request types that are searched by default, in a fixed order.
    pub fn all_types() -> (types: Vec<OSPRequestType>)
        ensures
            types@ == seq![
                OSPRequestType::ServerCreate,
                OSPRequestType::ServerList,
                OSPRequestType::ServerDelete,
                OSPRequestType::UsageList,
                OSPRequestType::Unknown,
            ],
    {
        let mut types = Vec::new();
        types.push(OSPRequestType::ServerCreate);
        types.push(OSPRequestType::ServerList);
        types.push(OSPRequestType::ServerDelete);
        types.push(OSPRequestType::UsageList);
        types.push(OSPRequestType::Unknown);
        assert(types@ =~= seq![
            OSPRequestType::ServerCreate,
            OSPRequestType::ServerList,
            OSPRequestType::ServerDelete,
            OSPRequestType::UsageList,
            OSPRequestType::Unknown,
        ]);
        types
    }

    /// The name of this request type.
    pub fn to_string(&self) -> (name: String)
        ensures
            name@ == osp_name(*self),
    {
        match self {
            OSPRequestType::ServerCreate => owned("ServerCreate"),
            OSPRequestType::ServerDelete => owned("ServerDelete"),
            OSPRequestType::ServerList => owned("ServerList"),
            OSPRequestType::FloatingIPCreate => owned("FloatingIPCreate"),
            OSPRequestType::FloatingIPDelete => owned("FloatingIPDelete"),
            OSPRequestType::FloatingIPList => owned("FloatingIPList"),
            OSPRequestType::UsageList => owned("UsageList"),
            OSPRequestType::Unknown => owned("Unknown"),
        }
    }
}

/// What `RequestType::to_string` shows.
pub open spec fn request_name(t: RequestType) -> Seq<char> {
    match t {
        RequestType::OSP(o) => osp_name(o),
        RequestType::Jaeger(j) => j.rt@,
        RequestType::SW(s) => s.rt@,
        RequestType::Unknown => Seq::empty(),
    }
}

impl RequestType {
    /// Reads the request type `typ` of application `app`. OpenStack knows a
    /// fixed set of names; Jaeger and SkyWalking take any name; any other
    /// application is an error.
    pub fn from_str(typ: &str, app: &str) -> (parsed: Result<RequestType, String>)
        ensures
            app@ == "OpenStack"@ ==> match parsed {
                Ok(t) => osp_named(typ@) is Some && t == RequestType::OSP(osp_named(typ@)->0),
                Err(msg) => osp_named(typ@) is None && msg@ == "Unknown request type"@,
            },
            app@ != "OpenStack"@ && app@ == "Jaeger"@ ==> parsed is Ok && parsed->Ok_0 is Jaeger
                && request_name(parsed->Ok_0) == typ@,
            app@ != "OpenStack"@ && app@ != "Jaeger"@ && app@ == "SkyWalking"@ ==> parsed is Ok
                && parsed->Ok_0 is SW && request_name(parsed->Ok_0) == typ@,
            app@ != "OpenStack"@ && app@ != "Jaeger"@ && app@ != "SkyWalking"@ ==> parsed is Err
                && parsed->Err_0@ == "Unknown request type!"@,
    {
        if same_text(app, "OpenStack") {
            match OSPRequestType::from_str(typ) {
                Ok(osprt) => Ok(RequestType::OSP(osprt)),
                Err(err) => Err(err),
            }
        } else if same_text(app, "Jaeger") {
            Ok(RequestType::Jaeger(JaegerRequestType { rt: owned(typ) }))
        } else if same_text(app, "SkyWalking") {
            Ok(RequestType::SW(SWRequestType { rt: owned(typ) }))
        } else {
            Err(owned("Unknown request type!"))
        }
    }

    /// The name of the request type; empty for `Unknown`.
    pub fn to_string(&self) -> (name: String)
        ensures
            name@ == request_name(*self),
    {
        match self {
            RequestType::OSP(osprt) => osprt.to_string(),
            RequestType::Jaeger(jrt) => jrt.rt.clone(),
            RequestType::SW(swrt) => swrt.rt.clone(),
            RequestType::Unknown => String::new(),
        }
    }

    /// A copy of this request type.
    pub fn duplicate(&self) -> (copy: RequestType)
        ensures
            copy == *self,
    {
        match self {
            RequestType::OSP(osprt) => RequestType::OSP(*osprt),
            RequestType::Jaeger(jrt) => RequestType::Jaeger(JaegerRequestType { rt: jrt.rt.clone() }),
            RequestType::SW(swrt) => RequestType::SW(SWRequestType { rt: swrt.rt.clone() }),
            RequestType::Unknown => RequestType::Unknown,
        }
    }
}

} // verus!
