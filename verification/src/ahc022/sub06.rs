//! Labels the landing positions, spreads the labels with a ring-shaped
//! filter, labels them again and answers by the closest label to the median
//! of three measurements.
use vstd::prelude::*;
use crate::ahc022::gaussian_filter::{
    grid_view,
    grid_sum,
    row_sum,
    row_sum_to,
    grid_sum_to,
    convolution_defined,
    smoothing_grid,
    lemma_smoothing_unique,
};

pub use crate::ahc022::gaussian_filter::GaussianFilter;
use crate::ahc022::temperature_field::{Pos, is_first_min};
use crate::ahc022::placement::{
    labelled,
    labels_fit,
    label_gaps,
    median_spec,
    place_labels,
    median,
    closest_label,
    filled_grid,
};

verus! {

/// The 5x5 kernel with an empty centre used to spread the labels.
pub open spec fn ring_kernel() -> Seq<Seq<usize>> {
    seq![
        seq![1usize, 5, 8, 5, 1],
        seq![5usize, 18, 27, 18, 5],
        seq![8usize, 27, 0, 27, 8],
        seq![5usize, 18, 27, 18, 5],
        seq![1usize, 5, 8, 5, 1],
    ]
}

/// The ring kernel weighs 256.
pub proof fn lemma_ring_kernel_weight()
    ensures
        grid_sum(ring_kernel()) == 256,
{
    let k = ring_kernel();
    reveal_with_fuel(row_sum_to, 6);
    reveal_with_fuel(grid_sum_to, 6);
    assert(row_sum(k[0]) == 20);
    assert(row_sum(k[1]) == 73);
    assert(row_sum(k[2]) == 70);
    assert(row_sum(k[3]) == 73);
    assert(row_sum(k[4]) == 20);
}

/// # Solver
#[derive(Debug)]
pub struct Solver {
    /// side of the torus
    pub L: usize,
    /// number of exits
    pub N: usize,
    /// measurement noise
    pub S: usize,
    /// the exits
    pub landing_pos: Vec<Pos>,
    /// the temperatures to set
    pub temperature: Vec<Vec<usize>>,
}

impl Solver {
    /// A solver with an `l x l` field at the middle temperature `10 * (n / 2)`.
    pub fn new(l: usize, n: usize, s: usize, landing_pos: Vec<Pos>) -> (solver: Self)
        requires
            10 * (n / 2) <= usize::MAX,
        ensures
            solver.L == l,
            solver.N == n,
            solver.S == s,
            solver.landing_pos@ == landing_pos@,
            solver.temperature.len() == l,
            forall|x: int| 0 <= x < l ==> #[trigger] solver.temperature@[x]@ == Seq::new(
                l as nat,
                |y: int| (10 * (n / 2)) as usize,
            ),
    {
        let temperature = filled_grid(l, 10 * (n / 2));
        Solver { L: l, N: n, S: s, landing_pos, temperature }
    }

    /// Sets the temperature of landing position `i` to `10 * i`, smooths the
    /// field with `ring_kernel`, then sets the labels again.
    pub fn create_temperature(&mut self)
        requires
            labels_fit(grid_view(old(self).temperature@), old(self).landing_pos@),
            convolution_defined(
                labelled(grid_view(old(self).temperature@), old(self).landing_pos@),
                ring_kernel(),
            ),
            labels_fit(
                smoothing_grid(
                    labelled(grid_view(old(self).temperature@), old(self).landing_pos@),
                    ring_kernel(),
                ),
                old(self).landing_pos@,
            ),
        ensures
            grid_view(final(self).temperature@) == labelled(
                smoothing_grid(
                    labelled(grid_view(old(self).temperature@), old(self).landing_pos@),
                    ring_kernel(),
                ),
                old(self).landing_pos@,
            ),
            final(self).L == old(self).L,
            final(self).N == old(self).N,
            final(self).S == old(self).S,
            final(self).landing_pos == old(self).landing_pos,
    {
        place_labels(&mut self.temperature, &self.landing_pos);
        let kernel = vec![
            vec![1, 5, 8, 5, 1],
            vec![5, 18, 27, 18, 5],
            vec![8, 27, 0, 27, 8],
            vec![5, 18, 27, 18, 5],
            vec![1, 5, 8, 5, 1],
        ];
        proof {
            assert(kernel@[0]@ =~= ring_kernel()[0]);
            assert(kernel@[1]@ =~= ring_kernel()[1]);
            assert(kernel@[2]@ =~= ring_kernel()[2]);
            assert(kernel@[3]@ =~= ring_kernel()[3]);
            assert(kernel@[4]@ =~= ring_kernel()[4]);
            assert(grid_view(kernel@) =~= ring_kernel());
            lemma_ring_kernel_weight();
        }
        let filter = GaussianFilter::new(kernel);
        let smoothed = filter.convolution(&self.temperature);
        proof {
            lemma_smoothing_unique(grid_view(smoothed@), grid_view(self.temperature@), ring_kernel());
        }
        self.temperature = smoothed;
        place_labels(&mut self.temperature, &self.landing_pos);
    }

    /// The exit whose temperature is closest to the median of three
    /// measurements (the first such exit on ties).
    pub fn choose_exit(&self, measured: [usize; 3]) -> (exit: usize)
        requires
            0 < self.N <= self.landing_pos.len(),
            forall|i: int|
                0 <= i < self.N ==> #[trigger] self.landing_pos@[i].0 < self.temperature.len()
                    && self.landing_pos@[i].1 < self.temperature@[self.landing_pos@[i].0 as int].len(),
        ensures
            is_first_min(
                label_gaps(
                    grid_view(self.temperature@),
                    self.landing_pos@,
                    self.N as int,
                    median_spec(measured[0] as int, measured[1] as int, measured[2] as int),
                ),
                exit as int,
            ),
    {
        let mid = median(measured);
        closest_label(&self.temperature, &self.landing_pos, self.N, mid)
    }
}

} // verus!
