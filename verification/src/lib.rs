//! Search heuristics and scoring for the "walking on tiles" grid game:
//! a walker starts on a cell of a 50 x 50 grid covered by tiles, may step on
//! each tile at most once, and collects the points of the cells it visits.

pub mod clock;
pub mod grid;

pub mod random;
pub mod sample;
pub mod team2;
pub mod laws;
