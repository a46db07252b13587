//! A content-addressed block store with named aliases, temporary pins and a
//! reachability-aware, least-recently-used garbage collector.

pub mod bytes;
pub mod config;
pub mod graph;
pub mod store;
pub mod laws;
