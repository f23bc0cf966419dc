//! Digging water channels from sources to houses through rock of unknown strength.

pub mod geometry;
pub mod sub01;
pub mod sub06;
pub mod sets;
pub mod sub15;
pub mod shortest;
pub mod sub20;
