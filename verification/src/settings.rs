//! The applications whose traces can be read.

use vstd::prelude::*;

verus! {

/// The application that produced the traces.
#[derive(Clone, Copy, Debug, PartialEq, Eq, Structural)]
pub enum ApplicationType {
    HDFS,
    OpenStack,
    Uber,
    DEATHSTAR,
    Zipkin,
    Jaeger,
    SkyWalking,
}

/// The name of an application, as settings spell it.
pub open spec fn application_name(app: ApplicationType) -> Seq<char> {
    match app {
        ApplicationType::HDFS => "HDFS"@,
        ApplicationType::OpenStack => "OpenStack"@,
        ApplicationType::DEATHSTAR => "DEATHSTAR"@,
        ApplicationType::Uber => "Uber"@,
        ApplicationType::Jaeger => "Jaeger"@,
        ApplicationType::Zipkin => "Zipkin"@,
        ApplicationType::SkyWalking => "SkyWalking"@,
    }
}

impl ApplicationType {
    /// The name of this application.
    pub fn as_str(&self) -> (name: &'static str)
        ensures
            name@ == application_name(*self),
    {
        match self {
            ApplicationType::HDFS => "HDFS",
            ApplicationType::OpenStack => "OpenStack",
            ApplicationType::DEATHSTAR => "DEATHSTAR",
            ApplicationType::Uber => "Uber",
            ApplicationType::Jaeger => "Jaeger",
            ApplicationType::Zipkin => "Zipkin",
            ApplicationType::SkyWalking => "SkyWalking",
        }
    }
}

} // verus!
