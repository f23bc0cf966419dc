//! Verified building blocks of a set of heuristic-contest solvers:
//! grid smoothing and pattern matching (`ahc022`), a construction-schedule
//! graph (`ahc017`) and the planning logic of an excavation game (`ahc018`).
#![allow(non_snake_case)]

pub mod ahc022;
pub mod random;
pub mod ahc017;
pub mod ahc018;
