//! What OSProfiler records for an event.

use vstd::prelude::*;
use std::collections::HashMap;
use crate::error::PythiaError;

verus! {

broadcast use vstd::std_specs::hash::group_hash_axioms;

/// One event as OSProfiler stores it.
#[derive(Clone, Debug, PartialEq, Eq)]
pub struct OSProfilerSpan {
    pub trace_id: u128,
    pub parent_id: u128,
    pub project: String,
    pub name: String,
    pub base_id: u128,
    pub service: String,
    pub tracepoint_id: String,
    /// Nanoseconds since the Unix epoch.
    pub timestamp: i64,
    pub info: OSProfilerEnum,
}

/// The payload of an event, by its kind.
#[derive(Clone, Debug, PartialEq, Eq)]
pub enum OSProfilerEnum {
    Annotation(AnnotationEnum),
    FunctionEntry(FunctionEntryInfo),
    RequestEntry(RequestEntryInfo),
    Exit(ExitEnum),
}

/// The payload of an annotation, by its kind.
#[derive(Clone, Debug, PartialEq, Eq)]
pub enum AnnotationEnum {
    WaitFor(WaitAnnotationInfo),
    Child(ChildAnnotationInfo),
    Plain(PlainAnnotationInfo),
    Log(LogAnnotationInfo),
    KeyValue(KeyValueAnnotationInfo),
    Args(ArgsKeyValueInfo),
    Results(ResultKeyValueInfo),
    WaitForKeyValue(WaitForKeyValueAnnotation),
}

#[derive(Clone, Debug, PartialEq, Eq)]
pub struct WaitForKeyValueAnnotation {
    pub wait_for: u128,
    pub function: ArgsKeyValueFunction,
    pub tracepoint_id: String,
    pub host: String,
    pub thread_id: u64,
    pub pid: u64,
}

#[derive(Clone, Debug, PartialEq, Eq)]
pub struct ArgsKeyValueInfo {
    pub function: ArgsKeyValueFunction,
    pub tracepoint_id: String,
    pub host: String,
    pub thread_id: u64,
    pub pid: u64,
}

#[derive(Clone, Debug, PartialEq, Eq)]
pub struct ArgsKeyValueFunction {
    pub name: String,
    pub args: String,
    pub kwargs: String,
}

#[derive(Clone, Debug, PartialEq, Eq)]
pub struct ResultKeyValueInfo {
    pub function: ResultFunction,
    pub host: String,
}

#[derive(Clone, Debug, PartialEq, Eq)]
pub struct ResultFunction {
    pub result: String,
}

#[derive(Clone, Debug, PartialEq, Eq)]
pub struct KeyValueAnnotationInfo {
    pub value: u64,
    pub tracepoint_id: String,
    pub host: String,
    pub thread_id: u64,
    pub pid: u64,
}

#[derive(Clone, Debug, PartialEq, Eq)]
pub struct WaitAnnotationInfo {
    pub function: FunctionEntryFunction,
    pub thread_id: u64,
    pub host: String,
    pub tracepoint_id: String,
    pub pid: u64,
    pub wait_for: u128,
}

#[derive(Clone, Debug, PartialEq, Eq)]
pub struct LogAnnotationInfo {
    pub thread_id: u64,
    pub host: String,
    pub tracepoint_id: String,
    pub pid: u64,
    pub msg: String,
}

#[derive(Clone, Debug, PartialEq, Eq)]
pub struct PlainAnnotationInfo {
    pub thread_id: u64,
    pub host: String,
    pub tracepoint_id: String,
    pub pid: u64,
}

#[derive(Clone, Debug, PartialEq, Eq)]
pub struct ChildAnnotationInfo {
    pub thread_id: u64,
    pub host: String,
    pub tracepoint_id: String,
    pub child_id: u128,
    pub pid: u64,
}

#[derive(Clone, Debug, PartialEq, Eq)]
pub struct RequestEntryInfo {
    pub request: RequestEntryRequest,
    pub thread_id: u64,
    pub host: String,
    pub tracepoint_id: String,
    pub pid: u64,
}

#[derive(Clone, Debug, PartialEq, Eq)]
pub struct RequestEntryRequest {
    pub path: String,
    pub scheme: String,
    pub method: String,
    pub query: String,
}

/// How a span ended.
#[derive(Clone, Debug, PartialEq, Eq)]
pub enum ExitEnum {
    Normal(NormalExitInfo),
    Error(ErrorExitInfo),
}

#[derive(Clone, Debug, PartialEq, Eq)]
pub struct NormalExitInfo {
    pub host: String,
}

#[derive(Clone, Debug, PartialEq, Eq)]
pub struct ErrorExitInfo {
    pub etype: String,
    pub message: String,
    pub host: String,
}

#[derive(Clone, Debug, PartialEq, Eq)]
pub struct FunctionEntryInfo {
    pub function: FunctionEntryFunction,
    pub thread_id: u64,
    pub host: String,
    pub tracepoint_id: String,
    pub pid: u64,
}

#[derive(Clone, Debug, PartialEq, Eq)]
pub struct FunctionEntryFunction {
    pub name: String,
}

/// `str::starts_with`: whether `prefix` matches the beginning of `text`.
#[verifier::external_body]
fn starts_with(text: &str, prefix: &str) -> (starts: bool)
    ensures
        starts == prefix@.is_prefix_of(text@),
{
    text.starts_with(prefix)
}

/// `format!` with the span's derived `Debug`: the message for a span whose
/// Exit has no Entry. Nothing is claimed of the text.
#[verifier::external_body]
fn no_entry_message(span: &OSProfilerSpan) -> (message: String) {
    format!("Couldn't find trace id for {:?}", span)
}

impl OSProfilerSpan {
    /// Whether the span's name marks it as part of an asynchronous call.
    pub open spec fn is_asynch(&self) -> bool {
        self.name@ == "asynch_request"@ || self.name@ == "asynch_wait"@
    }

    /// Accepts a span as it was read: a span named `asynch_request` or
    /// `asynch_wait` has to be an annotation, any other span passes. What
    /// is refused comes back as an error with an empty message.
    pub fn accept(self) -> (checked: Result<OSProfilerSpan, String>)
        ensures
            match checked {
                Ok(span) => span == self && (self.is_asynch() ==> self.info is Annotation),
                Err(message) => self.is_asynch() && !(self.info is Annotation) && message@.len() == 0,
            },
    {
        if crate::text::same_text(self.name.as_str(), "asynch_request") || crate::text::same_text(
            self.name.as_str(),
            "asynch_wait",
        ) {
            let noted = match &self.info {
                OSProfilerEnum::Annotation(_) => true,
                _ => false,
            };
            if !noted {
                return Err(String::new());
            }
        }
        Ok(self)
    }

    /// Whether the event opens a span.
    pub open spec fn opens(&self) -> bool {
        self.info is FunctionEntry || self.info is RequestEntry
    }

    /// The tracepoint of this event. The end of a span carries none, so
    /// `map` remembers for each open span the tracepoint of its beginning:
    /// an Entry stores its own there, and an Exit takes out what its span
    /// stored. An Exit whose span stored nothing keeps its own tracepoint
    /// where its name begins with `asynch_wait`, and is an error otherwise.
    pub fn get_tracepoint_id(&self, map: &mut HashMap<u128, String>) -> (found: Result<
        String,
        PythiaError,
    >)
        ensures
            self.opens() ==> found is Ok && found->Ok_0@ == self.tracepoint_id@ && final(map)@
                == old(map)@.insert(self.trace_id, found->Ok_0),
            self.info is Annotation ==> found is Ok && found->Ok_0@ == self.tracepoint_id@
                && final(map)@ == old(map)@,
            self.info is Exit ==> final(map)@ == old(map)@.remove(self.trace_id),
            self.info is Exit && old(map)@.contains_key(self.trace_id) ==> found == Ok::<
                String,
                PythiaError,
            >(old(map)@[self.trace_id]),
            self.info is Exit && !old(map)@.contains_key(self.trace_id) ==> (if "asynch_wait"@.is_prefix_of(
                self.name@,
            ) {
                found is Ok && found->Ok_0@ == self.tracepoint_id@
            } else {
                found is Err
            }),
    {
        match &self.info {
            OSProfilerEnum::FunctionEntry(_) | OSProfilerEnum::RequestEntry(_) => {
                let own = self.tracepoint_id.clone();
                map.insert(self.trace_id, own.clone());
                Ok(own)
            },
            OSProfilerEnum::Annotation(_) => Ok(self.tracepoint_id.clone()),
            OSProfilerEnum::Exit(_) => match map.remove(&self.trace_id) {
                Some(stored) => Ok(stored),
                None => {
                    if starts_with(self.name.as_str(), "asynch_wait") {
                        Ok(self.tracepoint_id.clone())
                    } else {
                        Err(PythiaError(no_entry_message(self)))
                    }
                },
            },
        }
    }
}

} // verus!
