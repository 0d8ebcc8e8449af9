//! A race-and-capture board game in the family of the Royal Game of Ur: the
//! rules (`game`), an expectiminimax move search over the dice (`ai`, and
//! `minmax` with pruning, both computing the value defined in `search`), and
//! the byte layout of a learned action-value table (`table`).
use vstd::prelude::*;

pub mod game;
pub mod search;
pub mod ai;
pub mod minmax;
pub mod table;

verus! {

} // verus!
