//! Origin statistics over a provenance graph.
//!
//! For every origin of the graph: its latest snapshot, the head revisions
//! that snapshot leads to, the number of revisions and of distinct
//! committers in its whole history, and the date of its latest commit.
//! Statistics are computed once and memoized per record; the records live
//! in an ordered store that is populated from a cache or by a scan of the
//! graph, and a server answers requests by identifier from that store.
//!
//! - [`accessor`]: the graph as the engine sees it, a trait and its model.
//! - [`memory`]: a graph held in memory.
//! - [`stats`]: the statistics as mathematical functions of a graph.
//! - [`origin`]: one record and its memoized computations.
//! - [`graph`]: the store of records.
//! - [`server`]: what the server answers.
//! - [`utils`]: scans by node kind, and the text file of node identifiers.
//! - [`text`]: numbers as decimal text.
//! - [`laws`]: what holds of every graph, record and store.

pub mod accessor;
pub mod graph;
pub mod laws;
pub mod memory;
pub mod origin;
pub mod server;
pub mod stats;
pub mod text;
pub mod utils;
