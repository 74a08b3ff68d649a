use vstd::prelude::*;

pub mod board;
pub mod clock;
pub mod moves;
pub mod area_control;
pub mod eval;
pub mod search;
pub mod game;
pub mod floodfill;

verus! {

} // verus!
