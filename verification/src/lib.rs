use vstd::prelude::*;

pub mod cli;
pub mod labels;
pub mod reconcile;
pub mod text;
pub mod vfio;

verus! {

} // verus!
