//! Metrics for a small cluster: a compressed in-memory store of time
//! series, the subset of PromQL that reads it, and its snapshots.

pub mod api;
pub mod big;
pub mod bounds;
pub mod bytes;
pub mod chunk;
pub mod collect;
pub mod config;
pub mod decimal;
pub mod discovery;
pub mod double;
pub mod figures;
pub mod keyed;
pub mod kube;
pub mod listing;
pub mod loader;
pub mod offers;
pub mod packing;
pub mod promql;
pub mod readings;
pub mod restoring;
pub mod room;
pub mod series;
pub mod snapshot;
pub mod store;
pub mod text;
pub mod textmap;
