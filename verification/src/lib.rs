//! Indexing and query-matching core of the IronBase document store.
use vstd::prelude::*;

pub mod assoc;
pub mod document;
pub mod error;
pub mod index;
pub mod limits;
pub mod logging;
pub mod query;
pub mod table;
pub mod text;
