//! Rules engine of a hex-island strategy game: territories, a gold
//! economy and strict combat on an odd-r hex board.
use vstd::prelude::*;

pub mod ai;
pub mod combat;
pub mod cuts;
pub mod economy;
pub mod game;
pub mod hexgrid;
pub mod mapgen;
pub mod play;
pub mod rng;
pub mod rules;
pub mod setup;
pub mod territory;
pub mod ui;
pub mod text;
pub mod theme;

verus! {

} // verus!
