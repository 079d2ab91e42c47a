use vstd::prelude::*;

pub mod bytes;
pub mod types;
pub mod lexer;
pub mod parser;
pub mod order;
pub mod tree_map;
pub mod tree_set;
pub mod store;
pub mod bitmap;
pub mod scan;
pub mod refine;
pub mod mock_memory;
pub mod region;
pub mod controller;
pub mod freeze;

verus! {
}
