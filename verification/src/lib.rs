use vstd::prelude::*;

pub mod collector;
pub mod discovery;
pub mod display;
pub mod git;
pub mod model;
pub mod names;
pub mod rollout;
pub mod titles;
pub mod util;

verus! {

} // verus!
