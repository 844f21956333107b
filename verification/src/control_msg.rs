//! Control-plane messages that switch tracepoints on and off.

use vstd::prelude::*;
use crate::event::TracepointID;

verus! {

/// The tracepoints to switch on and those to switch off.
#[derive(Clone, Debug)]
pub struct ControlMessage {
    pub enable: Vec<TracepointID>,
    pub disable: Vec<TracepointID>,
}

impl ControlMessage {
    /// A message that switches `to_enable` on and `to_disable` off.
    pub fn from_tracepoints(to_enable: Vec<TracepointID>, to_disable: Vec<TracepointID>) -> (msg:
        ControlMessage)
        ensures
            msg.enable == to_enable,
            msg.disable == to_disable,
    {
        ControlMessage { enable: to_enable, disable: to_disable }
    }
}

} // verus!
