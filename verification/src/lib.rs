//! Query evaluation engine for object-centric event logs.
//!
//! Given an indexed log of typed events and objects connected by qualified
//! relationships, and a query expressed as a tree of binding boxes, the
//! engine enumerates the bindings of query variables to concrete events and
//! objects that satisfy the query's filters, evaluates per-node constraints,
//! and reports satisfied and violated situations with per-node counts.
#![verifier::loop_isolation(false)]
pub mod binding;
pub mod cel;
pub mod cel_values;
pub mod data_source;
pub mod extras;
pub mod evaluate;
pub mod expand;
pub mod filter_log;
pub mod filters;
pub mod log;
pub mod blueprint;
pub mod outside;
pub mod planner;
pub mod query;
pub mod size_filters;
pub mod text;
pub mod values;
