//! Scheduling road construction over `D` days with at most `K` works a day.

pub mod schedule;
pub mod sub02;
pub mod sub04;
pub mod sub01;
