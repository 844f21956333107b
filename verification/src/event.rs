//! Events, edges and the identifiers they carry.

use vstd::prelude::*;

verus! {

/// A value attached to an event under some key.
#[derive(Clone, Debug, PartialEq, Eq)]
pub enum Value {
    UnsignedInt(u64),
    Str(String),
    SignedInt(i64),
}

/// The correlation id of a span: a 128-bit UUID or an opaque string.
#[derive(Clone, Debug, PartialEq, Eq, Hash)]
pub enum IDType {
    UUID(u128),
    STRING(String),
}

/// What an `IDType` stands for in contracts.
pub enum IdKey {
    Uuid(u128),
    Text(Seq<char>),
}

impl View for IDType {
    type V = IdKey;

    open spec fn view(&self) -> IdKey {
        match *self {
            IDType::UUID(u) => IdKey::Uuid(u),
            IDType::STRING(s) => IdKey::Text(s@),
        }
    }
}

impl IDType {
    /// Whether two ids name the same span.
    pub fn same_as(&self, other: &IDType) -> (same: bool)
        ensures
            same == (self@ == other@),
    {
        match self {
            IDType::UUID(a) => match other {
                IDType::UUID(b) => *a == *b,
                IDType::STRING(_) => false,
            },
            IDType::STRING(a) => match other {
                IDType::UUID(_) => false,
                IDType::STRING(b) => *a == *b,
            },
        }
    }

    /// A copy of this id.
    pub fn duplicate(&self) -> (copy: IDType)
        ensures
            copy == *self,
    {
        match self {
            IDType::UUID(a) => IDType::UUID(*a),
            IDType::STRING(a) => IDType::STRING(a.clone()),
        }
    }
}

/// An interned code location. Ids are handed out by a `TracepointRegistry`.
#[derive(Clone, Copy, Debug, PartialEq, Eq, Hash, Structural)]
pub struct TracepointID {
    pub id: usize,
}

/// The role of an event within its span.
#[derive(Clone, Copy, Debug, PartialEq, Eq, Hash, Structural)]
pub enum EventType {
    Entry,
    Exit,
    /// A free-standing event that belongs to no Entry/Exit pair.
    Annotation,
}

impl EventType {
    /// The other end of a span: `Exit` for `Entry` and `Entry` for `Exit`.
    pub open spec fn mirrored(self) -> EventType {
        match self {
            EventType::Entry => EventType::Exit,
            EventType::Exit => EventType::Entry,
            EventType::Annotation => EventType::Annotation,
        }
    }
}

/// A point in the execution of one span.
#[derive(Clone, Debug)]
pub struct Event {
    /// Shared by the two ends of a span, and by no other span.
    pub trace_id: IDType,
    pub tracepoint_id: TracepointID,
    /// Nanoseconds since the Unix epoch.
    pub timestamp: i64,
    /// Set on events that were inserted to repair nesting, not observed.
    pub is_synthetic: bool,
    pub variant: EventType,
    /// Annotation payload, in the order it was recorded.
    pub key_value_pair: Vec<(String, Value)>,
}

impl Value {
    /// A copy of this value.
    pub fn duplicate(&self) -> (copy: Value)
        ensures
            copy == *self,
    {
        match self {
            Value::UnsignedInt(v) => Value::UnsignedInt(*v),
            Value::Str(s) => Value::Str(s.clone()),
            Value::SignedInt(v) => Value::SignedInt(*v),
        }
    }
}

/// The values that `pairs` holds under `key`, in order.
pub open spec fn values_under(pairs: Seq<(String, Value)>, key: Seq<char>) -> Seq<Value>
    decreases pairs.len(),
{
    if pairs.len() == 0 {
        Seq::empty()
    } else if pairs.last().0@ == key {
        values_under(pairs.drop_last(), key).push(pairs.last().1)
    } else {
        values_under(pairs.drop_last(), key)
    }
}

/// An event without its time and span: a tracepoint, a variant, and the
/// values that matter for grouping.
#[derive(Clone, Debug)]
pub struct TraceNode {
    pub tracepoint_id: TracepointID,
    pub variant: EventType,
    /// The values of the event under the keys `lock_queue` and `host`, in
    /// that order.
    pub key_value_pair: Vec<(String, Vec<Value>)>,
}

impl TraceNode {
    /// Two nodes are the same when tracepoint and variant agree.
    pub fn same_as(&self, other: &TraceNode) -> (same: bool)
        ensures
            same == (self.tracepoint_id == other.tracepoint_id && self.variant == other.variant),
    {
        self.tracepoint_id.id == other.tracepoint_id.id && self.variant == other.variant
    }

    /// The node of an event: its tracepoint and variant, with the values
    /// that the event holds under `lock_queue` and under `host`.
    pub fn from_event(event: &Event) -> (node: TraceNode)
        ensures
            node.tracepoint_id == event.tracepoint_id,
            node.variant == event.variant,
            node.key_value_pair@.len() == 2,
            node.key_value_pair@[0].0@ == "lock_queue"@,
            node.key_value_pair@[0].1@ == values_under(event.key_value_pair@, "lock_queue"@),
            node.key_value_pair@[1].0@ == "host"@,
            node.key_value_pair@[1].1@ == values_under(event.key_value_pair@, "host"@),
    {
        let mut queued: Vec<Value> = Vec::new();
        let mut hosts: Vec<Value> = Vec::new();
        let mut k: usize = 0;
        while k < event.key_value_pair.len()
            invariant
                0 <= k <= event.key_value_pair@.len(),
                queued@ == values_under(event.key_value_pair@.take(k as int), "lock_queue"@),
                hosts@ == values_under(event.key_value_pair@.take(k as int), "host"@),
            decreases event.key_value_pair@.len() - k,
        {
            let pair = &event.key_value_pair[k];
            proof {
                let next = event.key_value_pair@.take(k + 1);
                assert(next.drop_last() =~= event.key_value_pair@.take(k as int));
                assert(next.last() == event.key_value_pair@[k as int]);
            }
            if crate::text::same_text(pair.0.as_str(), "lock_queue") {
                queued.push(pair.1.duplicate());
            }
            if crate::text::same_text(pair.0.as_str(), "host") {
                hosts.push(pair.1.duplicate());
            }
            k += 1;
        }
        proof {
            assert(event.key_value_pair@.take(k as int) =~= event.key_value_pair@);
        }
        let mut pairs: Vec<(String, Vec<Value>)> = Vec::new();
        pairs.push((crate::text::owned("lock_queue"), queued));
        pairs.push((crate::text::owned("host"), hosts));
        TraceNode { tracepoint_id: event.tracepoint_id, variant: event.variant, key_value_pair: pairs }
    }
}

impl Event {
    /// Whether this event is the occurrence of `node`: tracepoint and
    /// variant agree.
    pub fn matches(&self, node: &TraceNode) -> (same: bool)
        ensures
            same == (self.tracepoint_id == node.tracepoint_id && self.variant == node.variant),
    {
        self.tracepoint_id.id == node.tracepoint_id.id && self.variant == node.variant
    }
}

/// The eight bytes of `value`, the least significant first.
pub open spec fn le_bytes(value: u64) -> Seq<u8> {
    Seq::new(8, |i: int| ((value >> ((8 * i) as u64)) & 0xff) as u8)
}

/// The eight bytes of `value`, the most significant first.
pub open spec fn be_bytes(value: u64) -> Seq<u8> {
    Seq::new(8, |i: int| ((value >> ((8 * (7 - i)) as u64)) & 0xff) as u8)
}

/// Whether `bytes` are the eight bytes of `value` in one of the two orders
/// in which a machine stores a number.
pub open spec fn stores(bytes: Seq<u8>, value: u64) -> bool {
    bytes == le_bytes(value) || bytes == be_bytes(value)
}

/// `u64::to_ne_bytes`: the bytes of a number in the order in which this
/// machine stores them, which is the least significant byte first or the
/// most significant byte first. Which of the two is not claimed.
#[verifier::external_body]
fn native_bytes(value: u64) -> (bytes: [u8; 8])
    ensures
        stores(bytes@, value),
{
    value.to_ne_bytes()
}

impl TracepointID {
    /// The id as eight bytes, in the order in which this machine stores
    /// them: the least significant byte first, or the most significant.
    pub fn bytes(&self) -> (bytes: [u8; 8])
        ensures
            stores(bytes@, self.id as u64),
    {
        native_bytes(self.id as u64)
    }
}

/// How the destination of an edge relates to its source.
#[derive(Clone, Copy, Debug, PartialEq, Eq, Structural)]
pub enum EdgeType {
    ChildOf,
    FollowsFrom,
}

/// An edge between two events, with the time that passed between them.
#[derive(Clone, Debug, PartialEq, Eq)]
pub struct DAGEdge {
    /// Nanoseconds from the source event to the destination event.
    pub duration: u64,
    pub variant: EdgeType,
    pub service: Option<String>,
    pub host: Option<String>,
}

} // verus!
