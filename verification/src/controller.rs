//! Controllers switch the tracepoints of a traced application on and off.

use vstd::prelude::*;
use crate::event::TracepointID;
use crate::registry::TracepointRegistry;
use crate::reqtype::RequestType;

verus! {

/// What a controller of tracepoints offers. A point is a tracepoint,
/// optionally for one request type only.
pub trait Controller {
    fn enable(&self, points: &Vec<(TracepointID, Option<RequestType>)>);

    fn disable(&self, points: &Vec<(TracepointID, Option<RequestType>)>);

    fn is_enabled(&self, point: &(TracepointID, Option<RequestType>)) -> bool;

    fn disable_all(&self);

    fn enable_all(&self);
}

/// The single point that stands for the tracepoint `point` for every
/// request type. The registry learns the name if it is new.
pub fn point_by_name(point: &str, registry: &mut TracepointRegistry) -> (points: Vec<
    (TracepointID, Option<RequestType>),
>)
    requires
        old(registry).wf(),
    ensures
        final(registry).wf(),
        points@.len() == 1,
        points@[0].1 is None,
        final(registry).ids().contains_key(point@),
        final(registry).ids()[point@] == points@[0].0.id,
{
    let id = registry.intern(point);
    let mut points = Vec::new();
    points.push((id, None));
    points
}

/// A controller for OpenTelemetry clients. It knows its clients and
/// switches nothing yet: every point counts as enabled.
pub struct OTelController {
    pub client_list: Vec<String>,
}

impl Controller for OTelController {
    fn enable(&self, points: &Vec<(TracepointID, Option<RequestType>)>) {
    }

    fn disable(&self, points: &Vec<(TracepointID, Option<RequestType>)>) {
    }

    /// Every point counts as enabled.
    fn is_enabled(&self, point: &(TracepointID, Option<RequestType>)) -> (enabled: bool)
        ensures
            enabled,
    {
        true
    }

    fn disable_all(&self) {
    }

    fn enable_all(&self) {
    }
}

impl OTelController {
    /// A controller for the given clients.
    pub fn from_clients(clients: Vec<String>) -> (controller: OTelController)
        ensures
            controller.client_list == clients,
    {
        OTelController { client_list: clients }
    }

    /// The points that are switched on: none is recorded.
    pub fn enabled_tracepoints(&self) -> (points: Vec<(TracepointID, Option<RequestType>)>)
        ensures
            points@.len() == 0,
    {
        Vec::new()
    }
}

} // verus!
