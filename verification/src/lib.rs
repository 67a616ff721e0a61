use vstd::prelude::*;

pub mod counting;
pub mod field;
pub mod feistel;
pub mod graph;
pub mod replicate;

verus! {

/// Number of bytes in one stored node value.
pub const NODE_SIZE: usize = 32;

} // verus!
