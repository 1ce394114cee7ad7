//! A local-first workflow engine: workflows are JSON documents of knots
//! connected by typed ports, checked by `validate` and run in topological
//! order.
use vstd::prelude::*;

pub mod text;
pub mod number;
pub mod json;
pub mod item;
pub mod templ;
pub mod error;
pub mod model;
pub mod schema;
pub mod knot;
pub mod knots;
pub mod graph;
pub mod validate;
pub mod engine;
pub mod run;
pub mod builder;
pub mod api;

verus! {
} // verus!
