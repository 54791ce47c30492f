//! Query matching: JSON values, the operators of query filters, and
//! matching a document against a filter.
use vstd::prelude::*;

pub mod value;
pub mod operators;
pub mod text_search;
pub mod filter;
pub mod expr;
