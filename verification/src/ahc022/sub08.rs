//! Smooths a random field and answers by matching a measured 3x5 pattern.
use vstd::prelude::*;
use crate::ahc022::gaussian_filter::{
    grid_view,
    convolution_defined,
    smoothing_grid,
    kernel5x5,
    lemma_kernel5x5_weight,
    lemma_smoothing_unique,
    lemma_window_bound,
    window_sum,
    grid_sum,
};
use crate::ahc022::temperature_field::{
    Pos,
    TemperatureField,
    is_first_min,
    is_random_field,
    FIELD_MAX,
};

verus! {

/// # Solver
#[derive(Debug)]
pub struct Solver {
    /// side of the torus
    pub L: usize,
    /// number of exits
    pub N: usize,
    /// measurement noise
    pub S: usize,
    /// the temperatures and the exits
    pub temperature: TemperatureField,
}

/// A random `l x l` field may be smoothed with the 5x5 kernel.
pub proof fn lemma_random_field_smoothable(g: Seq<Seq<usize>>, l: int)
    requires
        is_random_field(g, l),
        2 <= l,
    ensures
        convolution_defined(g, kernel5x5()),
{
    let f = kernel5x5();
    lemma_kernel5x5_weight();
    assert forall|rr: int, cc: int|
        0 <= rr < g.len() && 0 <= cc < g[0].len() implies #[trigger] window_sum(g, f, rr, cc) + grid_sum(
        f,
    ) - 1 <= usize::MAX by {
        assert forall|r: int| 0 <= r < g.len() implies #[trigger] g[r].len() >= g[0].len() by {
            assert(g[r].len() == l);
        }
        assert forall|r: int, c: int| 0 <= r < g.len() && 0 <= c < g[0].len() implies #[trigger] g[r][c]
            <= 999 by {
            assert(g[r][c] < FIELD_MAX);
        }
        assert forall|i: int| 0 <= i < f.len() implies #[trigger] f[i].len() >= f[0].len() by {}
        lemma_window_bound(g, f, rr, cc, 999);
    }
    assert forall|r: int| 0 <= r < g.len() implies #[trigger] g[r].len() >= g[0].len() by {
        assert(g[r].len() == l);
    }
}

impl Solver {
    /// A solver with an `l x l` field of zeros.
    pub fn new(l: usize, n: usize, s: usize, landing_pos: Vec<Pos>) -> (solver: Self)
        ensures
            solver.L == l,
            solver.N == n,
            solver.S == s,
            solver.temperature.L == l,
            solver.temperature.landing_pos@ == landing_pos@,
            solver.temperature.is_square(),
    {
        let temperature = TemperatureField::new(l, landing_pos);
        Solver { L: l, N: n, S: s, temperature }
    }

    /// Fills the field at random and smooths it with the 5x5 kernel.
    pub fn create_temperature(&mut self)
        requires
            old(self).temperature.is_square(),
            2 <= old(self).temperature.L,
        ensures
            final(self).L == old(self).L,
            final(self).N == old(self).N,
            final(self).S == old(self).S,
            final(self).temperature.L == old(self).temperature.L,
            final(self).temperature.landing_pos == old(self).temperature.landing_pos,
            exists|g: Seq<Seq<usize>>|
                is_random_field(g, old(self).temperature.L as int) && #[trigger] smoothing_grid(
                    g,
                    kernel5x5(),
                ) == final(self).temperature.grid(),
    {
        let l = self.temperature.L;
        self.temperature.generate_random_field();
        let ghost g = self.temperature.grid();
        proof {
            assert forall|x: int| 0 <= x < l implies #[trigger] g[x].len() == l by {
                assert(self.temperature.field@[x].len() == l);
            }
            assert forall|x: int, y: int| 0 <= x < l && 0 <= y < l implies #[trigger] g[x][y] < FIELD_MAX by {
                assert(self.temperature.field@[x]@[y] < FIELD_MAX);
            }
            assert(is_random_field(g, l as int));
            lemma_random_field_smoothable(g, l as int);
        }
        self.temperature.smoothing5x5();
        proof {
            lemma_smoothing_unique(self.temperature.grid(), g, kernel5x5());
        }
    }

    /// The exit around which the measured `pattern` matches the field best.
    pub fn locate(&self, pattern: &Vec<Vec<usize>>) -> (exit: usize)
        requires
            pattern.len() > 0,
            forall|i: int| 0 <= i < pattern.len() ==> #[trigger] pattern@[i].len() >= pattern@[0].len(),
            self.temperature.pattern_fits(pattern.len() as int, pattern@[0].len() as int),
            forall|q: int|
                0 <= q < self.temperature.landing_pos.len() ==> #[trigger] self.temperature.scores(
                    grid_view(pattern@),
                )[q] <= usize::MAX,
        ensures
            is_first_min(self.temperature.scores(grid_view(pattern@)), exit as int),
    {
        self.temperature.find_nearest_pattern(pattern)
    }
}

} // verus!
