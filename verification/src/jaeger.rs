//! Traces as Jaeger's query service reports them.

use vstd::prelude::*;
use vstd::string::StringExecFns;
use crate::spantrace::{Span, SpanCache, SpanTrace};
use crate::text::{owned, same_text};

verus! {

/// A reference from a span to another.
#[derive(Clone, Debug)]
pub struct JaegerReference {
    pub ref_type: String,
    pub trace_id: String,
    pub span_id: String,
}

/// A tag of a process.
#[derive(Clone, Debug)]
pub struct JPTag {
    pub key: String,
    pub value: String,
}

/// A process that spans ran in.
#[derive(Clone, Debug)]
pub struct JaegerProcess {
    pub service_name: String,
    pub tags: Vec<JPTag>,
}

/// A span as Jaeger reports it. Times are in microseconds.
#[derive(Clone, Debug)]
pub struct JaegerSpan {
    pub trace_id: String,
    pub span_id: String,
    pub flags: Option<i32>,
    pub operation_name: String,
    pub start_time: i64,
    pub duration: i64,
    pub references: Vec<JaegerReference>,
    pub process_id: String,
}

/// A trace as Jaeger reports it: its spans, and its processes by their
/// ids.
#[derive(Clone, Debug)]
pub struct JaegerTrace {
    pub trace_id: String,
    pub spans: Vec<JaegerSpan>,
    pub processes: Vec<(String, JaegerProcess)>,
}

/// The value of the last tag with the key `hostname`; empty where there is
/// none.
pub open spec fn host_of(tags: Seq<JPTag>) -> Seq<char>
    decreases tags.len(),
{
    if tags.len() == 0 {
        Seq::empty()
    } else if tags.last().key@ == "hostname"@ {
        tags.last().value@
    } else {
        host_of(tags.drop_last())
    }
}

/// The position of the first process with the id `id`.
pub open spec fn process_place(processes: Seq<(String, JaegerProcess)>, id: Seq<char>, from: int) -> Option<
    int,
>
    decreases processes.len() - from,
{
    if from >= processes.len() || from < 0 {
        None
    } else if processes[from].0@ == id {
        Some(from)
    } else {
        process_place(processes, id, from + 1)
    }
}

/// The position of the first span without references.
pub open spec fn root_place(spans: Seq<JaegerSpan>, from: int) -> Option<int>
    decreases spans.len() - from,
{
    if from >= spans.len() || from < 0 {
        None
    } else if spans[from].references@.len() == 0 {
        Some(from)
    } else {
        root_place(spans, from + 1)
    }
}

impl JaegerProcess {
    /// The host that the process ran on, by its tags.
    pub fn host(&self) -> (name: String)
        ensures
            name@ == host_of(self.tags@),
    {
        let mut k: usize = self.tags.len();
        proof {
            assert(self.tags@.take(k as int) =~= self.tags@);
        }
        while k > 0
            invariant
                0 <= k <= self.tags@.len(),
                host_of(self.tags@) == host_of(self.tags@.take(k as int)),
            decreases k,
        {
            k -= 1;
            proof {
                assert(self.tags@.take(k + 1).drop_last() =~= self.tags@.take(k as int));
                assert(self.tags@.take(k + 1).last() == self.tags@[k as int]);
            }
            if same_text(self.tags[k].key.as_str(), "hostname") {
                return self.tags[k].value.clone();
            }
        }
        proof {
            assert(self.tags@.take(0).len() == 0);
        }
        String::new()
    }
}

impl JaegerSpan {
    /// Whether the span's times can be written in nanoseconds.
    pub open spec fn in_range(&self) -> bool {
        i64::MIN <= self.start_time * 1000 <= i64::MAX && 0 <= self.duration && self.duration * 1000
            <= u64::MAX
    }

    /// Whether `span` is this span in the process `process`: ids, names
    /// and host are taken over, the first reference names the parent, and
    /// microseconds become nanoseconds.
    pub open spec fn converts_to(&self, process: JaegerProcess, span: Span) -> bool {
        &&& span.span_id@ == self.span_id@
        &&& span.parent@ == (if self.references@.len() == 0 {
            Seq::<char>::empty()
        } else {
            self.references@[0].span_id@
        })
        &&& span.service@ == process.service_name@
        &&& span.host@ == host_of(process.tags@)
        &&& span.operation@ == self.operation_name@
        &&& span.start == self.start_time * 1000
        &&& span.duration == self.duration * 1000
    }

    /// Whether `span` is this span as converted with `processes`: its times
    /// are in range, its process is the first with its process id, and
    /// `converts_to` holds.
    pub open spec fn converted(&self, processes: Seq<(String, JaegerProcess)>, span: Span) -> bool {
        &&& self.in_range()
        &&& process_place(processes, self.process_id@, 0) is Some
        &&& self.converts_to(processes[process_place(processes, self.process_id@, 0)->0].1, span)
    }

    /// The span in the library's terms. `None` exactly when the span's
    /// process is not among `processes` or its times are out of range.
    pub fn to_span(&self, processes: &Vec<(String, JaegerProcess)>) -> (span: Option<Span>)
        ensures
            match span {
                Some(s) => self.converted(processes@, s),
                None => !self.in_range() || process_place(processes@, self.process_id@, 0) is None,
            },
    {
        let mut k: usize = 0;
        let mut found = false;
        while k < processes.len() && !found
            invariant
                0 <= k <= processes@.len(),
                found ==> k < processes@.len() && processes@[k as int].0@ == self.process_id@,
                process_place(processes@, self.process_id@, 0) == process_place(
                    processes@,
                    self.process_id@,
                    k as int,
                ),
            decreases processes@.len() - k + (if found { 0int } else { 1int }),
        {
            if same_text(processes[k].0.as_str(), self.process_id.as_str()) {
                found = true;
            } else {
                k += 1;
            }
        }
        if !found {
            return None;
        }
        let process = &processes[k].1;
        if self.duration < 0 || self.duration > 18_446_744_073_709_551 || self.start_time
            > 9_223_372_036_854_775 || self.start_time < -9_223_372_036_854_775 {
            return None;
        }
        let parent = if self.references.len() == 0 {
            String::new()
        } else {
            self.references[0].span_id.clone()
        };
        Some(
            Span {
                span_id: self.span_id.clone(),
                parent,
                service: process.service_name.clone(),
                host: process.host(),
                operation: self.operation_name.clone(),
                start: self.start_time * 1000,
                duration: (self.duration as u64) * 1000,
            },
        )
    }
}

impl JaegerTrace {
    /// The spans of the trace in the library's terms, recorded in `cache`
    /// and put together under the first span without references as their
    /// root. The request is named by the root's service, a colon, and its
    /// operation. Fails where no span is without references, and where a
    /// span cannot be converted.
    pub fn to_trace(&self, cache: &mut SpanCache) -> (built: Result<SpanTrace, String>)
        requires
            old(cache).wf(),
        ensures
            final(cache).wf(),
            match built {
                Ok(st) => {
                    let root = root_place(self.spans@, 0);
                    &&& root is Some
                    &&& st.req_id@ == self.trace_id@
                    &&& st.root_span_id@ == self.spans@[root->0].span_id@
                    &&& st.spans@.len() == self.spans@.len()
                    &&& forall|k: int|
                        0 <= k < st.spans@.len() ==> self.spans@[k].converted(
                            self.processes@,
                            #[trigger] st.spans@[k],
                        )
                    &&& st.endpoint_type@ == st.spans@[root->0].service@ + ":"@
                        + st.spans@[root->0].operation@
                },
                Err(message) => if root_place(self.spans@, 0) is None {
                    message@ == "Could not find a root span!"@ && *final(cache) == *old(cache)
                } else {
                    message@ == "Could not convert a span!"@
                },
            },
    {
        let mut r: usize = 0;
        let mut found = false;
        while r < self.spans.len() && !found
            invariant
                0 <= r <= self.spans@.len(),
                found ==> r < self.spans@.len() && self.spans@[r as int].references@.len() == 0,
                root_place(self.spans@, 0) == root_place(self.spans@, r as int),
            decreases self.spans@.len() - r + (if found { 0int } else { 1int }),
        {
            if self.spans[r].references.len() == 0 {
                found = true;
            } else {
                r += 1;
            }
        }
        if !found {
            return Err(owned("Could not find a root span!"));
        }
        let mut spans: Vec<Span> = Vec::new();
        let mut k: usize = 0;
        while k < self.spans.len()
            invariant
                cache.wf(),
                0 <= k <= self.spans@.len(),
                r < self.spans@.len(),
                root_place(self.spans@, 0) == Some(r as int),
                spans@.len() == k,
                forall|j: int|
                    0 <= j < k ==> self.spans@[j].converted(self.processes@, #[trigger] spans@[j]),
            decreases self.spans@.len() - k,
        {
            let span = match self.spans[k].to_span(&self.processes) {
                Some(span) => span,
                None => {
                    return Err(owned("Could not convert a span!"));
                },
            };
            cache.add_span(span.duplicate(), self.trace_id.clone());
            let ghost before = spans@;
            spans.push(span);
            proof {
                assert forall|j: int| 0 <= j < k + 1 implies self.spans@[j].converted(
                    self.processes@,
                    #[trigger] spans@[j],
                ) by {
                    if j < k {
                        assert(spans@[j] == before[j]);
                    }
                }
            }
            k += 1;
        }
        let mut name = spans[r].service.clone();
        name.append(":");
        name.append(spans[r].operation.as_str());
        Ok(
            SpanTrace::from_span_list(
                spans,
                name,
                self.spans[r].span_id.clone(),
                self.trace_id.clone(),
            ),
        )
    }
}

} // verus!
