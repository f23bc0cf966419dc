//! Labels every landing position with a distinct temperature and answers by
//! the closest label to the median of three measurements.
use vstd::prelude::*;
use crate::ahc022::gaussian_filter::grid_view;
use crate::ahc022::temperature_field::{Pos, is_first_min};
use crate::ahc022::placement::{
    labelled,
    labels_fit,
    label_gaps,
    median_spec,
    place_labels,
    median,
    closest_label,
    filled_grid,
};

verus! {

/// # Solver
#[derive(Debug)]
pub struct Solver {
    /// side of the torus
    pub L: usize,
    /// number of exits
    pub N: usize,
    /// measurement noise
    pub S: usize,
    /// the exits
    pub landing_pos: Vec<Pos>,
    /// the temperatures to set
    pub temperature: Vec<Vec<usize>>,
}

impl Solver {
    /// A solver with an `l x l` field of zeros.
    pub fn new(l: usize, n: usize, s: usize, landing_pos: Vec<Pos>) -> (solver: Self)
        ensures
            solver.L == l,
            solver.N == n,
            solver.S == s,
            solver.landing_pos@ == landing_pos@,
            solver.temperature.len() == l,
            forall|x: int| 0 <= x < l ==> #[trigger] solver.temperature@[x]@ == Seq::new(l as nat, |y: int| 0usize),
    {
        let temperature = filled_grid(l, 0);
        Solver { L: l, N: n, S: s, landing_pos, temperature }
    }

    /// Sets the temperature of landing position `i` to `10 * i`.
    pub fn create_temperature(&mut self)
        requires
            labels_fit(grid_view(old(self).temperature@), old(self).landing_pos@),
        ensures
            grid_view(final(self).temperature@) == labelled(grid_view(old(self).temperature@), old(self).landing_pos@),
            final(self).L == old(self).L,
            final(self).N == old(self).N,
            final(self).S == old(self).S,
            final(self).landing_pos == old(self).landing_pos,
    {
        place_labels(&mut self.temperature, &self.landing_pos);
    }

    /// The exit whose temperature is closest to the median of three
    /// measurements (the first such exit on ties).
    pub fn choose_exit(&self, measured: [usize; 3]) -> (exit: usize)
        requires
            0 < self.N <= self.landing_pos.len(),
            forall|i: int|
                0 <= i < self.N ==> #[trigger] self.landing_pos@[i].0 < self.temperature.len()
                    && self.landing_pos@[i].1 < self.temperature@[self.landing_pos@[i].0 as int].len(),
        ensures
            is_first_min(
                label_gaps(
                    grid_view(self.temperature@),
                    self.landing_pos@,
                    self.N as int,
                    median_spec(measured[0] as int, measured[1] as int, measured[2] as int),
                ),
                exit as int,
            ),
    {
        let mid = median(measured);
        closest_label(&self.temperature, &self.landing_pos, self.N, mid)
    }
}

} // verus!
