//! A temperature field on an `L x L` torus and the search for the landing
//! position whose surroundings best match a measured pattern.
use vstd::prelude::*;
use crate::ahc022::usize_tools::{UsizeTools, dist_spec};
use crate::ahc022::gaussian_filter::{
    GaussianFilter,
    grid_view,
    torus_index,
    convolution_defined,
    is_smoothing_of,
    kernel3x3,
    kernel5x5,
};
use crate::ahc022::sums::sum_to;
use crate::random::{small_rng_from_seed, small_rng_gen_range};

verus! {

/// A cell `(row, column)`.
pub type Pos = (usize, usize);

/// Seed of the generator of random fields.
pub const FIELD_SEED: u64 = 20021213;

/// Values of a random field lie in `0..FIELD_MAX`.
pub const FIELD_MAX: usize = 1000;

/// The square of the distance of two values.
pub open spec fn sq_err_spec(a: int, b: int) -> int {
    dist_spec(a, b) * dist_spec(a, b)
}

/// Mismatch, over pattern row `i` and its columns `0..n`, of the pattern laid
/// around `(r, c)` on the `l x l` torus `field`.
spec fn score_j(
    field: Seq<Seq<usize>>,
    l: int,
    r: int,
    c: int,
    pattern: Seq<Seq<usize>>,
    i: int,
    n: int,
) -> int
    decreases n,
{
    if n <= 0 {
        0
    } else {
        score_j(field, l, r, c, pattern, i, n - 1) + sq_err_spec(
            field[torus_index(l, pattern.len() as int, r, i)][torus_index(
                l,
                pattern[0].len() as int,
                c,
                n - 1,
            )] as int,
            pattern[i][n - 1] as int,
        )
    }
}

/// Mismatch over the pattern rows `0..n`.
spec fn score_i(
    field: Seq<Seq<usize>>,
    l: int,
    r: int,
    c: int,
    pattern: Seq<Seq<usize>>,
    n: int,
) -> int
    decreases n,
{
    if n <= 0 {
        0
    } else {
        score_i(field, l, r, c, pattern, n - 1) + score_j(
            field,
            l,
            r,
            c,
            pattern,
            n - 1,
            pattern[0].len() as int,
        )
    }
}

/// The squared difference between pattern entry `(i, j)` and the field cell
/// it covers when the pattern is centred on `(r, c)` of the torus `field` of
/// side `l`: `(r + i - rows / 2, c + j - cols / 2)` modulo `l`.
pub open spec fn score_term(
    field: Seq<Seq<usize>>,
    l: int,
    r: int,
    c: int,
    pattern: Seq<Seq<usize>>,
    i: int,
    j: int,
) -> int {
    sq_err_spec(
        field[torus_index(l, pattern.len() as int, r, i)][torus_index(l, pattern[0].len() as int, c, j)] as int,
        pattern[i][j] as int,
    )
}

/// The sum of squared differences between `pattern`, centred on `(r, c)`,
/// and the torus `field` of side `l`: `score_term` summed over the rows
/// `i < pattern.len()` and the columns `j < pattern[0].len()`.
pub open spec fn pattern_score(
    field: Seq<Seq<usize>>,
    l: int,
    r: int,
    c: int,
    pattern: Seq<Seq<usize>>,
) -> int {
    sum_to(
        |i: int| sum_to(|j: int| score_term(field, l, r, c, pattern, i, j), pattern[0].len() as int),
        pattern.len() as int,
    )
}

proof fn lemma_score_j_sum(
    field: Seq<Seq<usize>>,
    l: int,
    r: int,
    c: int,
    pattern: Seq<Seq<usize>>,
    i: int,
    n: int,
)
    ensures
        score_j(field, l, r, c, pattern, i, n) == sum_to(|j: int| score_term(field, l, r, c, pattern, i, j), n),
    decreases n,
{
    if n > 0 {
        lemma_score_j_sum(field, l, r, c, pattern, i, n - 1);
    }
}

proof fn lemma_score_i_sum(field: Seq<Seq<usize>>, l: int, r: int, c: int, pattern: Seq<Seq<usize>>, n: int)
    ensures
        score_i(field, l, r, c, pattern, n) == sum_to(
            |i: int| sum_to(|j: int| score_term(field, l, r, c, pattern, i, j), pattern[0].len() as int),
            n,
        ),
    decreases n,
{
    if n > 0 {
        lemma_score_i_sum(field, l, r, c, pattern, n - 1);
        lemma_score_j_sum(field, l, r, c, pattern, n - 1, pattern[0].len() as int);
    }
}

/// The pattern score as the row-by-row sum that the search computes.
proof fn lemma_pattern_score_rows(field: Seq<Seq<usize>>, l: int, r: int, c: int, pattern: Seq<Seq<usize>>)
    ensures
        pattern_score(field, l, r, c, pattern) == score_i(field, l, r, c, pattern, pattern.len() as int),
{
    lemma_score_i_sum(field, l, r, c, pattern, pattern.len() as int);
}

/// The same mismatch where `None` entries of the pattern count for nothing.
spec fn flex_score_j(
    field: Seq<Seq<usize>>,
    l: int,
    r: int,
    c: int,
    pattern: Seq<Seq<Option<usize>>>,
    i: int,
    n: int,
) -> int
    decreases n,
{
    if n <= 0 {
        0
    } else {
        flex_score_j(field, l, r, c, pattern, i, n - 1) + match pattern[i][n - 1] {
            Some(v) => sq_err_spec(
                field[torus_index(l, pattern.len() as int, r, i)][torus_index(
                    l,
                    pattern[0].len() as int,
                    c,
                    n - 1,
                )] as int,
                v as int,
            ),
            None => 0,
        }
    }
}

/// Mismatch over the pattern rows `0..n`, skipping `None` entries.
spec fn flex_score_i(
    field: Seq<Seq<usize>>,
    l: int,
    r: int,
    c: int,
    pattern: Seq<Seq<Option<usize>>>,
    n: int,
) -> int
    decreases n,
{
    if n <= 0 {
        0
    } else {
        flex_score_i(field, l, r, c, pattern, n - 1) + flex_score_j(
            field,
            l,
            r,
            c,
            pattern,
            n - 1,
            pattern[0].len() as int,
        )
    }
}

/// The squared difference of pattern entry `(i, j)`, as in `score_term`,
/// or `0` when the entry is `None`.
pub open spec fn flex_score_term(
    field: Seq<Seq<usize>>,
    l: int,
    r: int,
    c: int,
    pattern: Seq<Seq<Option<usize>>>,
    i: int,
    j: int,
) -> int {
    match pattern[i][j] {
        Some(v) => sq_err_spec(
            field[torus_index(l, pattern.len() as int, r, i)][torus_index(l, pattern[0].len() as int, c, j)] as int,
            v as int,
        ),
        None => 0,
    }
}

/// The mismatch of a partial pattern centred on `(r, c)`: `flex_score_term`
/// summed over the rows `i < pattern.len()` and the columns
/// `j < pattern[0].len()`.
pub open spec fn flex_pattern_score(
    field: Seq<Seq<usize>>,
    l: int,
    r: int,
    c: int,
    pattern: Seq<Seq<Option<usize>>>,
) -> int {
    sum_to(
        |i: int| sum_to(|j: int| flex_score_term(field, l, r, c, pattern, i, j), pattern[0].len() as int),
        pattern.len() as int,
    )
}

proof fn lemma_flex_score_j_sum(
    field: Seq<Seq<usize>>,
    l: int,
    r: int,
    c: int,
    pattern: Seq<Seq<Option<usize>>>,
    i: int,
    n: int,
)
    ensures
        flex_score_j(field, l, r, c, pattern, i, n) == sum_to(|j: int| flex_score_term(field, l, r, c, pattern, i, j), n),
    decreases n,
{
    if n > 0 {
        lemma_flex_score_j_sum(field, l, r, c, pattern, i, n - 1);
    }
}

proof fn lemma_flex_score_i_sum(
    field: Seq<Seq<usize>>,
    l: int,
    r: int,
    c: int,
    pattern: Seq<Seq<Option<usize>>>,
    n: int,
)
    ensures
        flex_score_i(field, l, r, c, pattern, n) == sum_to(
            |i: int| sum_to(|j: int| flex_score_term(field, l, r, c, pattern, i, j), pattern[0].len() as int),
            n,
        ),
    decreases n,
{
    if n > 0 {
        lemma_flex_score_i_sum(field, l, r, c, pattern, n - 1);
        lemma_flex_score_j_sum(field, l, r, c, pattern, n - 1, pattern[0].len() as int);
    }
}

/// The partial pattern score as the row-by-row sum that the search computes.
proof fn lemma_flex_pattern_score_rows(
    field: Seq<Seq<usize>>,
    l: int,
    r: int,
    c: int,
    pattern: Seq<Seq<Option<usize>>>,
)
    ensures
        flex_pattern_score(field, l, r, c, pattern) == flex_score_i(field, l, r, c, pattern, pattern.len() as int),
{
    lemma_flex_score_i_sum(field, l, r, c, pattern, pattern.len() as int);
}

/// A grid of optional entries seen as a sequence of sequences.
pub open spec fn partial_grid_view(g: Seq<Vec<Option<usize>>>) -> Seq<Seq<Option<usize>>> {
    Seq::new(g.len(), |i: int| g[i]@)
}

/// `g` is an `l x l` grid of values below `FIELD_MAX`.
pub open spec fn is_random_field(g: Seq<Seq<usize>>, l: int) -> bool {
    &&& g.len() == l
    &&& forall|x: int| 0 <= x < l ==> #[trigger] g[x].len() == l
    &&& forall|x: int, y: int| 0 <= x < l && 0 <= y < l ==> #[trigger] g[x][y] < FIELD_MAX
}

/// `k` is the first position of a least value of `scores` (`0` when empty).
pub open spec fn is_first_min(scores: Seq<int>, k: int) -> bool {
    &&& scores.len() == 0 ==> k == 0
    &&& scores.len() > 0 ==> {
        &&& 0 <= k < scores.len()
        &&& forall|q: int| 0 <= q < scores.len() ==> scores[k] <= #[trigger] scores[q]
        &&& forall|q: int| 0 <= q < k ==> scores[k] < #[trigger] scores[q]
    }
}

proof fn lemma_sq_nonneg(a: int, b: int)
    ensures
        sq_err_spec(a, b) >= 0,
{
    let d = dist_spec(a, b);
    assert(d * d >= 0) by (nonlinear_arith);
}

proof fn lemma_score_j_mono(
    field: Seq<Seq<usize>>,
    l: int,
    r: int,
    c: int,
    pattern: Seq<Seq<usize>>,
    i: int,
    a: int,
    b: int,
)
    requires
        0 <= a <= b,
    ensures
        0 <= score_j(field, l, r, c, pattern, i, a) <= score_j(field, l, r, c, pattern, i, b),
    decreases b,
{
    if b > 0 {
        lemma_sq_nonneg(
            field[torus_index(l, pattern.len() as int, r, i)][torus_index(
                l,
                pattern[0].len() as int,
                c,
                b - 1,
            )] as int,
            pattern[i][b - 1] as int,
        );
        if b > a {
            lemma_score_j_mono(field, l, r, c, pattern, i, a, b - 1);
        } else {
            lemma_score_j_mono(field, l, r, c, pattern, i, 0, b - 1);
        }
    }
}

proof fn lemma_score_i_mono(
    field: Seq<Seq<usize>>,
    l: int,
    r: int,
    c: int,
    pattern: Seq<Seq<usize>>,
    a: int,
    b: int,
)
    requires
        0 <= a <= b,
    ensures
        0 <= score_i(field, l, r, c, pattern, a) <= score_i(field, l, r, c, pattern, b),
    decreases b,
{
    if b > 0 {
        lemma_score_j_mono(field, l, r, c, pattern, b - 1, 0, pattern[0].len() as int);
        if b > a {
            lemma_score_i_mono(field, l, r, c, pattern, a, b - 1);
        } else {
            lemma_score_i_mono(field, l, r, c, pattern, 0, b - 1);
        }
    }
}

proof fn lemma_flex_score_j_mono(
    field: Seq<Seq<usize>>,
    l: int,
    r: int,
    c: int,
    pattern: Seq<Seq<Option<usize>>>,
    i: int,
    a: int,
    b: int,
)
    requires
        0 <= a <= b,
    ensures
        0 <= flex_score_j(field, l, r, c, pattern, i, a) <= flex_score_j(field, l, r, c, pattern, i, b),
    decreases b,
{
    if b > 0 {
        if let Some(v) = pattern[i][b - 1] {
            lemma_sq_nonneg(
                field[torus_index(l, pattern.len() as int, r, i)][torus_index(
                    l,
                    pattern[0].len() as int,
                    c,
                    b - 1,
                )] as int,
                v as int,
            );
        }
        if b > a {
            lemma_flex_score_j_mono(field, l, r, c, pattern, i, a, b - 1);
        } else {
            lemma_flex_score_j_mono(field, l, r, c, pattern, i, 0, b - 1);
        }
    }
}

proof fn lemma_flex_score_i_mono(
    field: Seq<Seq<usize>>,
    l: int,
    r: int,
    c: int,
    pattern: Seq<Seq<Option<usize>>>,
    a: int,
    b: int,
)
    requires
        0 <= a <= b,
    ensures
        0 <= flex_score_i(field, l, r, c, pattern, a) <= flex_score_i(field, l, r, c, pattern, b),
    decreases b,
{
    if b > 0 {
        lemma_flex_score_j_mono(field, l, r, c, pattern, b - 1, 0, pattern[0].len() as int);
        if b > a {
            lemma_flex_score_i_mono(field, l, r, c, pattern, a, b - 1);
        } else {
            lemma_flex_score_i_mono(field, l, r, c, pattern, 0, b - 1);
        }
    }
}

/// `pattern` is what the torus `field` of side `l` shows around `(r, c)`:
/// every entry equals the field cell it is laid on.
pub open spec fn window_matches(field: Seq<Seq<usize>>, l: int, r: int, c: int, pattern: Seq<Seq<usize>>) -> bool {
    forall|i: int, j: int|
        0 <= i < pattern.len() && 0 <= j < pattern[0].len() ==> #[trigger] pattern[i][j] == field[torus_index(
            l,
            pattern.len() as int,
            r,
            i,
        )][torus_index(l, pattern[0].len() as int, c, j)]
}

proof fn lemma_score_j_zero(
    field: Seq<Seq<usize>>,
    l: int,
    r: int,
    c: int,
    pattern: Seq<Seq<usize>>,
    i: int,
    n: int,
)
    requires
        window_matches(field, l, r, c, pattern),
        0 <= i < pattern.len(),
        n <= pattern[0].len(),
    ensures
        score_j(field, l, r, c, pattern, i, n) == 0,
    decreases n,
{
    if n > 0 {
        lemma_score_j_zero(field, l, r, c, pattern, i, n - 1);
        let v = pattern[i][n - 1] as int;
        assert(v == field[torus_index(l, pattern.len() as int, r, i)][torus_index(
            l,
            pattern[0].len() as int,
            c,
            n - 1,
        )]);
        assert(dist_spec(v, v) == 0);
        assert(sq_err_spec(v, v) == 0);
    }
}

proof fn lemma_score_i_zero(field: Seq<Seq<usize>>, l: int, r: int, c: int, pattern: Seq<Seq<usize>>, n: int)
    requires
        window_matches(field, l, r, c, pattern),
        n <= pattern.len(),
    ensures
        score_i(field, l, r, c, pattern, n) == 0,
    decreases n,
{
    if n > 0 {
        lemma_score_i_zero(field, l, r, c, pattern, n - 1);
        lemma_score_j_zero(field, l, r, c, pattern, n - 1, pattern[0].len() as int);
    }
}

/// Every known entry of the partial `pattern` equals the field cell it is
/// laid on around `(r, c)`.
pub open spec fn flex_window_matches(
    field: Seq<Seq<usize>>,
    l: int,
    r: int,
    c: int,
    pattern: Seq<Seq<Option<usize>>>,
) -> bool {
    forall|i: int, j: int|
        0 <= i < pattern.len() && 0 <= j < pattern[0].len() && (#[trigger] pattern[i][j]) is Some ==> pattern[i][j]->0
            == field[torus_index(l, pattern.len() as int, r, i)][torus_index(l, pattern[0].len() as int, c, j)]
}

proof fn lemma_flex_score_j_zero(
    field: Seq<Seq<usize>>,
    l: int,
    r: int,
    c: int,
    pattern: Seq<Seq<Option<usize>>>,
    i: int,
    n: int,
)
    requires
        flex_window_matches(field, l, r, c, pattern),
        0 <= i < pattern.len(),
        n <= pattern[0].len(),
    ensures
        flex_score_j(field, l, r, c, pattern, i, n) == 0,
    decreases n,
{
    if n > 0 {
        lemma_flex_score_j_zero(field, l, r, c, pattern, i, n - 1);
        if let Some(v) = pattern[i][n - 1] {
            assert(dist_spec(v as int, v as int) == 0);
            assert(sq_err_spec(v as int, v as int) == 0);
        }
    }
}

proof fn lemma_flex_score_i_zero(
    field: Seq<Seq<usize>>,
    l: int,
    r: int,
    c: int,
    pattern: Seq<Seq<Option<usize>>>,
    n: int,
)
    requires
        flex_window_matches(field, l, r, c, pattern),
        n <= pattern.len(),
    ensures
        flex_score_i(field, l, r, c, pattern, n) == 0,
    decreases n,
{
    if n > 0 {
        lemma_flex_score_i_zero(field, l, r, c, pattern, n - 1);
        lemma_flex_score_j_zero(field, l, r, c, pattern, n - 1, pattern[0].len() as int);
    }
}

/// # TemperatureField
/// The temperatures of an `L x L` torus and the candidate landing positions.
#[derive(Debug)]
pub struct TemperatureField {
    /// side of the torus
    pub L: usize,
    /// the candidate positions
    pub landing_pos: Vec<Pos>,
    /// the temperatures
    pub field: Vec<Vec<usize>>,
}

impl TemperatureField {
    /// The temperatures as a grid.
    pub open spec fn grid(&self) -> Seq<Seq<usize>> {
        grid_view(self.field@)
    }

    /// The field is exactly the `L x L` torus.
    pub open spec fn is_square(&self) -> bool {
        &&& self.field.len() == self.L
        &&& forall|x: int| 0 <= x < self.L ==> #[trigger] self.field@[x].len() == self.L
    }

    /// The field holds the whole `L x L` torus.
    pub open spec fn covers_torus(&self) -> bool {
        &&& self.field.len() >= self.L
        &&& forall|x: int| 0 <= x < self.L ==> #[trigger] self.field@[x].len() >= self.L
    }

    /// The field may be laid around every landing position with a
    /// `rows x cols` pattern without a panic or an overflow.
    pub open spec fn pattern_fits(&self, rows: int, cols: int) -> bool {
        (self.landing_pos.len() > 0 && rows > 0 && cols > 0) ==> {
            &&& self.L > 0
            &&& rows / 2 <= self.L
            &&& cols / 2 <= self.L
            &&& self.covers_torus()
            &&& forall|q: int|
                0 <= q < self.landing_pos.len() ==> #[trigger] self.landing_pos@[q].0 + self.L + rows
                    <= usize::MAX && self.landing_pos@[q].1 + self.L + cols <= usize::MAX
        }
    }

    /// The mismatch of `pattern` at each landing position.
    pub open spec fn scores(&self, pattern: Seq<Seq<usize>>) -> Seq<int> {
        Seq::new(
            self.landing_pos@.len(),
            |q: int|
                pattern_score(
                    self.grid(),
                    self.L as int,
                    self.landing_pos@[q].0 as int,
                    self.landing_pos@[q].1 as int,
                    pattern,
                ),
        )
    }

    /// The mismatch of a partial pattern at each landing position.
    pub open spec fn flex_scores(&self, pattern: Seq<Seq<Option<usize>>>) -> Seq<int> {
        Seq::new(
            self.landing_pos@.len(),
            |q: int|
                flex_pattern_score(
                    self.grid(),
                    self.L as int,
                    self.landing_pos@[q].0 as int,
                    self.landing_pos@[q].1 as int,
                    pattern,
                ),
        )
    }

    /// An `l x l` field of zeros.
    pub fn new(l: usize, landing_pos: Vec<Pos>) -> (tf: Self)
        ensures
            tf.L == l,
            tf.landing_pos@ == landing_pos@,
            tf.field.len() == l,
            forall|x: int| 0 <= x < l ==> #[trigger] tf.field@[x]@ == Seq::new(l as nat, |y: int| 0usize),
    {
        let mut field: Vec<Vec<usize>> = Vec::new();
        let mut x: usize = 0;
        while x < l
            invariant
                0 <= x <= l,
                field.len() == x,
                forall|y: int| 0 <= y < x ==> #[trigger] field@[y]@ == Seq::new(l as nat, |z: int| 0usize),
            decreases l - x,
        {
            field.push(vec![0usize; l]);
            x += 1;
        }
        TemperatureField { L: l, landing_pos, field }
    }

    /// Fills the `L x L` torus with values of `0..1000` drawn from a generator
    /// seeded with `FIELD_SEED`; the rest of the field is kept.
    pub fn generate_random_field(&mut self)
        requires
            old(self).covers_torus(),
        ensures
            final(self).L == old(self).L,
            final(self).landing_pos == old(self).landing_pos,
            final(self).field.len() == old(self).field.len(),
            forall|x: int| 0 <= x < final(self).field.len() ==> #[trigger] final(self).field@[x].len() == old(self).field@[x].len(),
            forall|x: int, y: int|
                0 <= x < final(self).field.len() && 0 <= y < final(self).field@[x].len() ==> if x < final(self).L && y < final(self).L {
                    #[trigger] final(self).field@[x]@[y] < FIELD_MAX
                } else {
                    final(self).field@[x]@[y] == old(self).field@[x]@[y]
                },
    {
        let mut rng = small_rng_from_seed(FIELD_SEED);
        let l = self.L;
        let ghost f0 = self.field@;
        let mut r: usize = 0;
        while r < l
            invariant
                l == self.L,
                self.landing_pos == old(self).landing_pos,
                0 <= r <= l,
                self.field.len() == f0.len(),
                f0.len() >= l,
                forall|x: int| 0 <= x < l ==> #[trigger] f0[x].len() >= l,
                forall|x: int| 0 <= x < f0.len() ==> #[trigger] self.field@[x].len() == f0[x].len(),
                forall|x: int, y: int|
                    0 <= x < f0.len() && 0 <= y < f0[x].len() ==> if x < r && y < l {
                        #[trigger] self.field@[x]@[y] < FIELD_MAX
                    } else {
                        self.field@[x]@[y] == f0[x]@[y]
                    },
            decreases l - r,
        {
            let mut c: usize = 0;
            while c < l
                invariant
                    l == self.L,
                    self.landing_pos == old(self).landing_pos,
                    0 <= r < l,
                    0 <= c <= l,
                    self.field.len() == f0.len(),
                    f0.len() >= l,
                    forall|x: int| 0 <= x < l ==> #[trigger] f0[x].len() >= l,
                    forall|x: int| 0 <= x < f0.len() ==> #[trigger] self.field@[x].len() == f0[x].len(),
                    forall|x: int, y: int|
                        0 <= x < f0.len() && 0 <= y < f0[x].len() ==> if x < r && y < l || x == r && y < c {
                            #[trigger] self.field@[x]@[y] < FIELD_MAX
                        } else {
                            self.field@[x]@[y] == f0[x]@[y]
                        },
                decreases l - c,
            {
                let v = small_rng_gen_range(&mut rng, 0, FIELD_MAX);
                proof {
                    assert(self.field@[r as int].len() == f0[r as int].len());
                    assert(f0[r as int].len() >= l);
                }
                let ghost before = self.field@;
                self.field[r][c] = v;
                proof {
                    assert forall|x: int| 0 <= x < f0.len() implies #[trigger] self.field@[x].len() == f0[x].len() by {
                        if x != r {
                            assert(self.field@[x] == before[x]);
                        }
                    }
                    assert forall|x: int, y: int|
                        0 <= x < f0.len() && 0 <= y < f0[x].len() implies if x < r && y < l || x == r && y < c + 1 {
                            #[trigger] self.field@[x]@[y] < FIELD_MAX
                        } else {
                            self.field@[x]@[y] == f0[x]@[y]
                        } by {
                        if x != r {
                            assert(self.field@[x] == before[x]);
                        }
                    }
                }
                c += 1;
            }
            r += 1;
        }
    }

    /// Smooths the field with the 3x3 Gaussian kernel.
    pub fn smoothing3x3(&mut self)
        requires
            convolution_defined(old(self).grid(), kernel3x3()),
        ensures
            final(self).L == old(self).L,
            final(self).landing_pos == old(self).landing_pos,
            is_smoothing_of(final(self).grid(), old(self).grid(), kernel3x3()),
    {
        self.field = GaussianFilter::smoothing3x3(&self.field);
    }

    /// Smooths the field with the 5x5 Gaussian kernel `kernel5x5` (the wider
    /// of the two smoothings; `smoothing3x3` uses the 3x3 one).
    pub fn smoothing5x5(&mut self)
        requires
            convolution_defined(old(self).grid(), kernel5x5()),
        ensures
            final(self).L == old(self).L,
            final(self).landing_pos == old(self).landing_pos,
            is_smoothing_of(final(self).grid(), old(self).grid(), kernel5x5()),
    {
        self.field = GaussianFilter::smoothing5x5(&self.field);
    }

    /// The mismatch of `pattern` centred on `(r, c)`.
    fn score_at(&self, r: usize, c: usize, pattern: &Vec<Vec<usize>>) -> (score: usize)
        requires
            pattern.len() > 0,
            forall|i: int| 0 <= i < pattern.len() ==> #[trigger] pattern@[i].len() >= pattern@[0].len(),
            pattern@[0].len() > 0 ==> {
                &&& self.L > 0
                &&& pattern.len() / 2 <= self.L
                &&& pattern@[0].len() / 2 <= self.L
                &&& self.covers_torus()
                &&& r + self.L + pattern.len() <= usize::MAX
                &&& c + self.L + pattern@[0].len() <= usize::MAX
            },
            pattern_score(self.grid(), self.L as int, r as int, c as int, grid_view(pattern@))
                <= usize::MAX,
        ensures
            score == pattern_score(self.grid(), self.L as int, r as int, c as int, grid_view(pattern@)),
    {
        let ghost f = self.grid();
        let ghost p = grid_view(pattern@);
        let ghost l = self.L as int;
        proof {
            lemma_pattern_score_rows(f, l, r as int, c as int, p);
        }
        let row = pattern.len();
        let col = pattern[0].len();
        let mut tmp: usize = 0;
        let mut i: usize = 0;
        while i < row
            invariant
                0 <= i <= row,
                row == pattern.len(),
                col == pattern@[0].len(),
                f == self.grid(),
                p == grid_view(pattern@),
                l == self.L,
                forall|q: int| 0 <= q < pattern.len() ==> #[trigger] pattern@[q].len() >= pattern@[0].len(),
                col > 0 ==> {
                    &&& self.L > 0
                    &&& row / 2 <= self.L
                    &&& col / 2 <= self.L
                    &&& self.covers_torus()
                    &&& r + self.L + row <= usize::MAX
                    &&& c + self.L + col <= usize::MAX
                },
                score_i(f, l, r as int, c as int, p, row as int) <= usize::MAX,
                tmp == score_i(f, l, r as int, c as int, p, i as int),
            decreases row - i,
        {
            let mut j: usize = 0;
            while j < col
                invariant
                    0 <= i < row,
                    0 <= j <= col,
                    row == pattern.len(),
                    col == pattern@[0].len(),
                    f == self.grid(),
                    p == grid_view(pattern@),
                    l == self.L,
                    forall|q: int| 0 <= q < pattern.len() ==> #[trigger] pattern@[q].len() >= pattern@[0].len(),
                    col > 0 ==> {
                        &&& self.L > 0
                        &&& row / 2 <= self.L
                        &&& col / 2 <= self.L
                        &&& self.covers_torus()
                        &&& r + self.L + row <= usize::MAX
                        &&& c + self.L + col <= usize::MAX
                    },
                    score_i(f, l, r as int, c as int, p, row as int) <= usize::MAX,
                    tmp == score_i(f, l, r as int, c as int, p, i as int) + score_j(
                        f,
                        l,
                        r as int,
                        c as int,
                        p,
                        i as int,
                        j as int,
                    ),
                decreases col - j,
            {
                let new_r = (self.L - row / 2 + r + i) % self.L;
                let new_c = (self.L - col / 2 + c + j) % self.L;
                proof {
                    lemma_score_j_mono(f, l, r as int, c as int, p, i as int, j as int, (j + 1) as int);
                    lemma_score_j_mono(f, l, r as int, c as int, p, i as int, (j + 1) as int, col as int);
                    lemma_score_i_mono(f, l, r as int, c as int, p, i as int, (i + 1) as int);
                    lemma_score_i_mono(f, l, r as int, c as int, p, (i + 1) as int, row as int);
                    lemma_sq_nonneg(self.field@[new_r as int]@[new_c as int] as int, pattern@[i as int]@[j as int] as int);
                    assert(self.field@[new_r as int].len() >= self.L);
                    assert(pattern@[i as int].len() >= col);
                }
                let e = UsizeTools::sq_err(&self.field[new_r][new_c], pattern[i][j]);
                tmp = tmp + e;
                j += 1;
            }
            i += 1;
        }
        tmp
    }

    /// The landing position (its index) around which `pattern` matches the
    /// field best: the least sum of squared differences, the first such
    /// position on ties, and `0` when no position scores below `usize::MAX`.
    pub fn find_nearest_pattern(&self, pattern: &Vec<Vec<usize>>) -> (nearest: usize)
        requires
            pattern.len() > 0,
            forall|i: int| 0 <= i < pattern.len() ==> #[trigger] pattern@[i].len() >= pattern@[0].len(),
            self.pattern_fits(pattern.len() as int, pattern@[0].len() as int),
            forall|q: int| 0 <= q < self.landing_pos.len() ==> #[trigger] self.scores(grid_view(pattern@))[q] <= usize::MAX,
        ensures
            is_first_min(self.scores(grid_view(pattern@)), nearest as int),
    {
        let ghost sc = self.scores(grid_view(pattern@));
        let mut nearest: usize = 0;
        let mut score: usize = usize::MAX;
        let mut idx: usize = 0;
        while idx < self.landing_pos.len()
            invariant
                0 <= idx <= self.landing_pos.len(),
                sc == self.scores(grid_view(pattern@)),
                pattern.len() > 0,
                forall|i: int| 0 <= i < pattern.len() ==> #[trigger] pattern@[i].len() >= pattern@[0].len(),
                self.pattern_fits(pattern.len() as int, pattern@[0].len() as int),
                forall|q: int| 0 <= q < self.landing_pos.len() ==> #[trigger] sc[q] <= usize::MAX,
                idx == 0 ==> nearest == 0 && score == usize::MAX,
                idx > 0 ==> {
                    &&& 0 <= nearest < idx
                    &&& (score == sc[nearest as int] || (score == usize::MAX && nearest == 0))
                    &&& forall|q: int| 0 <= q < idx ==> score <= #[trigger] sc[q]
                    &&& forall|q: int| 0 <= q < nearest ==> sc[nearest as int] < #[trigger] sc[q]
                    &&& sc[nearest as int] <= usize::MAX
                    &&& score < usize::MAX ==> score == sc[nearest as int]
                    &&& score == usize::MAX ==> nearest == 0
                },
            decreases self.landing_pos.len() - idx,
        {
            let (r, c) = self.landing_pos[idx];
            proof {
                assert(sc[idx as int] <= usize::MAX);
            }
            let tmp = self.score_at(r, c, pattern);
            if score > tmp {
                score = tmp;
                nearest = idx;
            }
            idx += 1;
        }
        nearest
    }
    /// The mismatch of a partial `pattern` centred on `(r, c)`.
    fn flex_score_at(&self, r: usize, c: usize, pattern: &Vec<Vec<Option<usize>>>) -> (score: usize)
        requires
            pattern.len() > 0,
            forall|i: int| 0 <= i < pattern.len() ==> #[trigger] pattern@[i].len() >= pattern@[0].len(),
            pattern@[0].len() > 0 ==> {
                &&& self.L > 0
                &&& pattern.len() / 2 <= self.L
                &&& pattern@[0].len() / 2 <= self.L
                &&& self.covers_torus()
                &&& r + self.L + pattern.len() <= usize::MAX
                &&& c + self.L + pattern@[0].len() <= usize::MAX
            },
            flex_pattern_score(self.grid(), self.L as int, r as int, c as int, partial_grid_view(pattern@))
                <= usize::MAX,
        ensures
            score == flex_pattern_score(self.grid(), self.L as int, r as int, c as int, partial_grid_view(pattern@)),
    {
        let ghost f = self.grid();
        let ghost p = partial_grid_view(pattern@);
        let ghost l = self.L as int;
        proof {
            lemma_flex_pattern_score_rows(f, l, r as int, c as int, p);
        }
        let row = pattern.len();
        let col = pattern[0].len();
        let mut tmp: usize = 0;
        let mut i: usize = 0;
        while i < row
            invariant
                0 <= i <= row,
                row == pattern.len(),
                col == pattern@[0].len(),
                f == self.grid(),
                p == partial_grid_view(pattern@),
                l == self.L,
                forall|q: int| 0 <= q < pattern.len() ==> #[trigger] pattern@[q].len() >= pattern@[0].len(),
                col > 0 ==> {
                    &&& self.L > 0
                    &&& row / 2 <= self.L
                    &&& col / 2 <= self.L
                    &&& self.covers_torus()
                    &&& r + self.L + row <= usize::MAX
                    &&& c + self.L + col <= usize::MAX
                },
                flex_score_i(f, l, r as int, c as int, p, row as int) <= usize::MAX,
                tmp == flex_score_i(f, l, r as int, c as int, p, i as int),
            decreases row - i,
        {
            let mut j: usize = 0;
            while j < col
                invariant
                    0 <= i < row,
                    0 <= j <= col,
                    row == pattern.len(),
                    col == pattern@[0].len(),
                    f == self.grid(),
                    p == partial_grid_view(pattern@),
                    l == self.L,
                    forall|q: int| 0 <= q < pattern.len() ==> #[trigger] pattern@[q].len() >= pattern@[0].len(),
                    col > 0 ==> {
                        &&& self.L > 0
                        &&& row / 2 <= self.L
                        &&& col / 2 <= self.L
                        &&& self.covers_torus()
                        &&& r + self.L + row <= usize::MAX
                        &&& c + self.L + col <= usize::MAX
                    },
                    flex_score_i(f, l, r as int, c as int, p, row as int) <= usize::MAX,
                    tmp == flex_score_i(f, l, r as int, c as int, p, i as int) + flex_score_j(
                        f,
                        l,
                        r as int,
                        c as int,
                        p,
                        i as int,
                        j as int,
                    ),
                decreases col - j,
            {
                let new_r = (self.L - row / 2 + r + i) % self.L;
                let new_c = (self.L - col / 2 + c + j) % self.L;
                proof {
                    lemma_flex_score_j_mono(f, l, r as int, c as int, p, i as int, j as int, (j + 1) as int);
                    lemma_flex_score_j_mono(f, l, r as int, c as int, p, i as int, (j + 1) as int, col as int);
                    lemma_flex_score_i_mono(f, l, r as int, c as int, p, i as int, (i + 1) as int);
                    lemma_flex_score_i_mono(f, l, r as int, c as int, p, (i + 1) as int, row as int);
                    assert(self.field@[new_r as int].len() >= self.L);
                    assert(pattern@[i as int].len() >= col);
                }
                if let Some(val) = pattern[i][j] {
                    proof {
                        lemma_sq_nonneg(self.field@[new_r as int]@[new_c as int] as int, val as int);
                    }
                    let e = UsizeTools::sq_err(&self.field[new_r][new_c], val);
                    tmp = tmp + e;
                }
                j += 1;
            }
            i += 1;
        }
        tmp
    }

    /// The landing position (its index) around which the known entries of
    /// `pattern` match the field best: the least sum of squared differences, the first such
    /// position on ties, and `0` when no position scores below `usize::MAX`.
    pub fn find_nearest_pattern_flexible(&self, pattern: &Vec<Vec<Option<usize>>>) -> (nearest: usize)
        requires
            pattern.len() > 0,
            forall|i: int| 0 <= i < pattern.len() ==> #[trigger] pattern@[i].len() >= pattern@[0].len(),
            self.pattern_fits(pattern.len() as int, pattern@[0].len() as int),
            forall|q: int| 0 <= q < self.landing_pos.len() ==> #[trigger] self.flex_scores(partial_grid_view(pattern@))[q] <= usize::MAX,
        ensures
            is_first_min(self.flex_scores(partial_grid_view(pattern@)), nearest as int),
    {
        let ghost sc = self.flex_scores(partial_grid_view(pattern@));
        let mut nearest: usize = 0;
        let mut score: usize = usize::MAX;
        let mut idx: usize = 0;
        while idx < self.landing_pos.len()
            invariant
                0 <= idx <= self.landing_pos.len(),
                sc == self.flex_scores(partial_grid_view(pattern@)),
                pattern.len() > 0,
                forall|i: int| 0 <= i < pattern.len() ==> #[trigger] pattern@[i].len() >= pattern@[0].len(),
                self.pattern_fits(pattern.len() as int, pattern@[0].len() as int),
                forall|q: int| 0 <= q < self.landing_pos.len() ==> #[trigger] sc[q] <= usize::MAX,
                idx == 0 ==> nearest == 0 && score == usize::MAX,
                idx > 0 ==> {
                    &&& 0 <= nearest < idx
                    &&& (score == sc[nearest as int] || (score == usize::MAX && nearest == 0))
                    &&& forall|q: int| 0 <= q < idx ==> score <= #[trigger] sc[q]
                    &&& forall|q: int| 0 <= q < nearest ==> sc[nearest as int] < #[trigger] sc[q]
                    &&& sc[nearest as int] <= usize::MAX
                    &&& score < usize::MAX ==> score == sc[nearest as int]
                    &&& score == usize::MAX ==> nearest == 0
                },
            decreases self.landing_pos.len() - idx,
        {
            let (r, c) = self.landing_pos[idx];
            proof {
                assert(sc[idx as int] <= usize::MAX);
            }
            let tmp = self.flex_score_at(r, c, pattern);
            if score > tmp {
                score = tmp;
                nearest = idx;
            }
            idx += 1;
        }
        nearest
    }
}


/// A pattern cut from the field around landing position `k` is matched with
/// no mismatch at all: the position `find_nearest_pattern` picks shows the
/// same pattern, and it is `k` or a position listed before `k`.
pub proof fn lemma_exact_pattern_found(tf: &TemperatureField, pattern: Seq<Seq<usize>>, k: int, nearest: int)
    requires
        0 <= k < tf.landing_pos.len(),
        window_matches(
            tf.grid(),
            tf.L as int,
            tf.landing_pos@[k].0 as int,
            tf.landing_pos@[k].1 as int,
            pattern,
        ),
        is_first_min(tf.scores(pattern), nearest),
    ensures
        tf.scores(pattern)[nearest] == 0,
        nearest <= k,
{
    let sc = tf.scores(pattern);
    lemma_pattern_score_rows(tf.grid(), tf.L as int, tf.landing_pos@[k].0 as int, tf.landing_pos@[k].1 as int, pattern);
    lemma_pattern_score_rows(
        tf.grid(),
        tf.L as int,
        tf.landing_pos@[nearest].0 as int,
        tf.landing_pos@[nearest].1 as int,
        pattern,
    );
    lemma_score_i_zero(
        tf.grid(),
        tf.L as int,
        tf.landing_pos@[k].0 as int,
        tf.landing_pos@[k].1 as int,
        pattern,
        pattern.len() as int,
    );
    assert(sc[k] == 0);
    lemma_score_i_mono(
        tf.grid(),
        tf.L as int,
        tf.landing_pos@[nearest].0 as int,
        tf.landing_pos@[nearest].1 as int,
        pattern,
        0,
        pattern.len() as int,
    );
    assert(sc[nearest] <= sc[k]);
}


/// A partial pattern whose known entries were read around landing position
/// `k` is matched with no mismatch: the position
/// `find_nearest_pattern_flexible` picks agrees with every known entry, and
/// it is `k` or a position listed before `k`.
pub proof fn lemma_exact_flex_pattern_found(
    tf: &TemperatureField,
    pattern: Seq<Seq<Option<usize>>>,
    k: int,
    nearest: int,
)
    requires
        0 <= k < tf.landing_pos.len(),
        flex_window_matches(
            tf.grid(),
            tf.L as int,
            tf.landing_pos@[k].0 as int,
            tf.landing_pos@[k].1 as int,
            pattern,
        ),
        is_first_min(tf.flex_scores(pattern), nearest),
    ensures
        tf.flex_scores(pattern)[nearest] == 0,
        nearest <= k,
{
    let sc = tf.flex_scores(pattern);
    lemma_flex_pattern_score_rows(
        tf.grid(),
        tf.L as int,
        tf.landing_pos@[k].0 as int,
        tf.landing_pos@[k].1 as int,
        pattern,
    );
    lemma_flex_pattern_score_rows(
        tf.grid(),
        tf.L as int,
        tf.landing_pos@[nearest].0 as int,
        tf.landing_pos@[nearest].1 as int,
        pattern,
    );
    lemma_flex_score_i_zero(
        tf.grid(),
        tf.L as int,
        tf.landing_pos@[k].0 as int,
        tf.landing_pos@[k].1 as int,
        pattern,
        pattern.len() as int,
    );
    assert(sc[k] == 0);
    lemma_flex_score_i_mono(
        tf.grid(),
        tf.L as int,
        tf.landing_pos@[nearest].0 as int,
        tf.landing_pos@[nearest].1 as int,
        pattern,
        0,
        pattern.len() as int,
    );
    assert(sc[nearest] <= sc[k]);
}

/// `pattern` with every entry known.
pub open spec fn all_known(pattern: Seq<Seq<usize>>) -> Seq<Seq<Option<usize>>> {
    pattern.map_values(|row: Seq<usize>| row.map_values(|v: usize| Some(v)))
}

/// Over a row whose entries are all known, the partial mismatch is the plain one.
proof fn lemma_flex_score_j_known(
    field: Seq<Seq<usize>>,
    l: int,
    r: int,
    c: int,
    pattern: Seq<Seq<usize>>,
    i: int,
    n: int,
)
    requires
        pattern.len() > 0,
        0 <= i < pattern.len(),
        n <= pattern[i].len(),
    ensures
        flex_score_j(field, l, r, c, all_known(pattern), i, n) == score_j(field, l, r, c, pattern, i, n),
    decreases n,
{
    if n > 0 {
        lemma_flex_score_j_known(field, l, r, c, pattern, i, n - 1);
        assert(all_known(pattern)[i][n - 1] == Some(pattern[i][n - 1]));
        assert(all_known(pattern)[0].len() == pattern[0].len());
    }
}

/// Over rows whose entries are all known, the partial mismatch is the plain one.
proof fn lemma_flex_score_i_known(
    field: Seq<Seq<usize>>,
    l: int,
    r: int,
    c: int,
    pattern: Seq<Seq<usize>>,
    n: int,
)
    requires
        pattern.len() > 0,
        n <= pattern.len(),
        forall|i: int| 0 <= i < pattern.len() ==> #[trigger] pattern[i].len() >= pattern[0].len(),
    ensures
        flex_score_i(field, l, r, c, all_known(pattern), n) == score_i(field, l, r, c, pattern, n),
    decreases n,
{
    if n > 0 {
        lemma_flex_score_i_known(field, l, r, c, pattern, n - 1);
        assert(all_known(pattern)[0].len() == pattern[0].len());
        lemma_flex_score_j_known(field, l, r, c, pattern, n - 1, pattern[0].len() as int);
    }
}

/// A pattern with every entry known gets, at each landing position, the
/// same mismatch from the flexible search as from the plain search, so both
/// searches pick the same landing position.
pub proof fn lemma_flexible_all_known(tf: &TemperatureField, pattern: Seq<Seq<usize>>, a: int, b: int)
    requires
        pattern.len() > 0,
        forall|i: int| 0 <= i < pattern.len() ==> #[trigger] pattern[i].len() >= pattern[0].len(),
        is_first_min(tf.scores(pattern), a),
        is_first_min(tf.flex_scores(all_known(pattern)), b),
    ensures
        tf.flex_scores(all_known(pattern)) == tf.scores(pattern),
        a == b,
{
    let fs = tf.flex_scores(all_known(pattern));
    let ps = tf.scores(pattern);
    assert forall|q: int| 0 <= q < fs.len() implies fs[q] == ps[q] by {
        let (r, c) = tf.landing_pos@[q];
        lemma_pattern_score_rows(tf.grid(), tf.L as int, r as int, c as int, pattern);
        lemma_flex_pattern_score_rows(tf.grid(), tf.L as int, r as int, c as int, all_known(pattern));
        lemma_flex_score_i_known(
            tf.grid(),
            tf.L as int,
            tf.landing_pos@[q].0 as int,
            tf.landing_pos@[q].1 as int,
            pattern,
            pattern.len() as int,
        );
    }
    assert(fs =~= ps);
    if ps.len() > 0 {
        if a < b {
            assert(ps[b] < ps[a]);
        } else if b < a {
            assert(ps[a] < ps[b]);
        }
    }
}

} // verus!
