//! An incremental A* search on a fixed square grid, one expansion or one
//! trace-back step per tick, with the grid and search state modelled for proof.

pub mod astar;
pub mod node;
