use vstd::prelude::*;

pub mod edges;
pub mod error;
pub mod label;
pub mod path;

verus! {

} // verus!
