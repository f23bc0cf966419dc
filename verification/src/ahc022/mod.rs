//! Temperature-field placement: smoothing filters, pattern matching and solvers.

pub mod usize_tools;
pub mod sums;
pub mod gaussian_filter;
pub mod temperature_field;
pub mod judge;
pub mod placement;
pub mod sub03;
pub mod sub06;
pub mod sub08;
pub mod sub11;
pub mod flat_field;
