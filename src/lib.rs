//! An evacuation simulation: agents walk across a shared grid towards exit
//! cells, one greedy step at a time, until every agent has left the grid.

pub mod domain;
pub mod simulation;
pub mod pixels;
