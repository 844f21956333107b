//! Critical-path extraction for request traces of distributed systems.
//!
//! A request is recorded as a directed acyclic graph of events (`trace`).
//! This crate reduces such a graph to the linear chain of events that
//! explains the request's latency (`extract`, `critical`), repairs the span
//! nesting of that chain with synthetic events (`reconcile`, `pairing`), and
//! fingerprints its shape (`fingerprint`). Code locations are interned by a
//! `registry`. Around that core stand the request types, the span trees of
//! tracing backends and their conversion into traces, and a few types of
//! the control plane.

pub mod candidate;
pub mod chain;
pub mod control_msg;
pub mod controller;
pub mod critical;
pub mod digest;
pub mod error;
pub mod event;
pub mod extract;
pub mod fingerprint;
pub mod graph;
pub mod jaeger;
pub mod osprofiler;
pub mod pairing;
pub mod reconcile;
pub mod registry;
pub mod reqtype;
pub mod settings;
pub mod spantrace;
pub mod text;
pub mod trace;
pub mod walk;
