//! Discovery of a directly-follows graph (DFG) from an event log.
//!
//! An event log is a set of cases, each a time-ordered sequence of activity
//! occurrences.  The crate groups raw rows into per-case traces, aggregates
//! directly-follows activity pairs together with the whole-second latency
//! between consecutive events, reduces each pair's latencies to their median,
//! and encodes the result as a bounded graph description: at most thirty
//! edges, each with a pen width scaled into `[1.0, 2.6]`, and one node per
//! retained activity with a grayscale-toward-cyan fill color.
//!
//! Activity labels and case identifiers are byte strings (`Vec<u8>`); callers
//! that start from `String` values pass their UTF-8 bytes.  Reading tabular
//! input and rendering the graph description are left to the caller.

pub mod dfg;
pub mod event_log;
pub mod graph;
pub mod order;
pub mod stats;
