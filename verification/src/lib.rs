//! A batch query engine for OpenStreetMap data: a small query language is
//! parsed, traced into a data-flow graph, planned into scan passes and
//! evaluated over the items of a dump.

pub mod text;
pub mod item;
pub mod set;
pub mod pattern;
pub mod ql;
pub mod filter;
pub mod query;
pub mod process_node;
pub mod trace_node;
pub mod trace;
pub mod planner;
pub mod process;
pub mod recurse;
pub mod pbf_source;
