//! What can go wrong.

use vstd::prelude::*;

verus! {

/// A failure with a message for the operator.
#[derive(Clone, Debug)]
pub struct PythiaError(pub String);

impl PythiaError {
    /// The message as it is shown: the text behind a fixed prefix.
    pub fn to_string(&self) -> (shown: String)
        ensures
            shown@ == "Uber error: "@ + self.0@,
    {
        let mut shown = crate::text::owned("Uber error: ");
        vstd::string::StringExecFns::append(&mut shown, self.0.as_str());
        shown
    }
}

/// Why no critical path came out of a trace.
#[derive(Clone, Copy, Debug, PartialEq, Eq, Structural)]
pub enum ExtractError {
    /// A node or an edge that the walk asked for is not in the graph.
    MalformedTrace,
    /// An Entry or an Exit has no partner on the path, even after the
    /// search for the point where its branch joined.
    UnreconcilableSpan,
    /// The walk took more steps than the graph has nodes.
    CycleDetected,
    /// The graph has no index left for another node or edge, or a
    /// timestamp has no successor.
    TooLarge,
}

} // verus!
