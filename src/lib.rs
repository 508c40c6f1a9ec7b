use vstd::prelude::*;

pub mod board;
pub mod movement;
pub mod position;

verus! {

} // verus!
