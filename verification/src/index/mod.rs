//! Index structures: key ordering, the B+ tree and the smaller index kinds.
use vstd::prelude::*;

pub mod btree;
pub mod extract;
pub mod fuzzy;
pub mod key;
pub mod legacy;
pub mod manager;
pub mod page;
pub mod plan_ranges;
pub mod scan;
pub mod traits;
pub mod vector_manager;
