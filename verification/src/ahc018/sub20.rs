//! Joins each house, nearest first, to a source along a way planned through
//! randomly sampled cells: the cheapest way over the samples by the
//! Floyd–Warshall algorithm, each leg dug as close to a straight line as the
//! grid allows.
use vstd::prelude::*;
use std::collections::BTreeSet;
use crate::ahc018::geometry::{
    Pos,
    State,
    Reply,
    Vec2,
    UsizeTools,
    reply_of,
    cell,
    square_grid,
    rock_grid,
    record_dig,
    dig_outcome,
    NotRock,
    dist_fits,
    manhattan,
    gap,
    first_min_below,
    lemma_first_min_unique,
    tunnel_cells,
    is_chain,
    lemma_tunnel_chain,
    lemma_chain_concat,
    push_column,
    push_row,
    INF,
};
use crate::ahc018::sets::{set_of, set_min, nearest_member, is_set_min, is_nearest_member};
use crate::ahc018::sub15::{known_cost, p_init, p_delta, p_init_spec, p_delta_spec, pair_lt};
use crate::ahc018::shortest::{
    COST_MAX,
    cost_table,
    matrix,
    fw_matrix,
    hops,
    floyd_warshall,
    restore_path,
};
use crate::random::std_rng_gen_range;

verus! {

broadcast use vstd::std_specs::btree::group_btree_axioms;

/// Seed of the generator.
pub const SEED: u64 = 20021213;

/// One sample is taken for every this many steps between the ends.
pub const SAMPLING_SPAN: usize = 20;

/// The sampling window reaches beyond the ends by the span divided by this.
pub const SAMPLING_RANGE: usize = 2;

/// The field.
pub struct Field {
    /// the state of each cell
    pub state: Vec<Vec<State>>,
    /// the sources, and every cell of a dug channel
    pub sources: BTreeSet<Pos>,
    /// the houses still without water
    pub houses: BTreeSet<Pos>,
    /// side of the square
    pub n: usize,
    /// power of the first dig of a cell
    pub p_init: usize,
    /// growth of the power after each failed dig
    pub p_delta: usize,
}

impl Field {
    /// The grid is `n x n`.
    pub open spec fn well_formed(&self) -> bool {
        square_grid(self.state@, self.n as int)
    }

    /// A field of untouched rock; digs of cost `c` start at `p_init(c)` and
    /// grow by `p_delta(c)`.
    pub fn new(n: usize, c: usize, sources: &Vec<Pos>, houses: &Vec<Pos>) -> (f: Self)
        requires
            known_cost(c),
        ensures
            f.well_formed(),
            f.n == n,
            f.p_init == p_init_spec(c),
            f.p_delta == p_delta_spec(c),
            f.sources@ == sources@.to_set(),
            f.houses@ == houses@.to_set(),
            forall|r: int, k: int| 0 <= r < n && 0 <= k < n ==> #[trigger] f.state@[r]@[k] == State::Rock(0),
    {
        Field {
            state: rock_grid(n),
            sources: set_of(sources),
            houses: set_of(houses),
            n,
            p_init: p_init(c),
            p_delta: p_delta(c),
        }
    }

    /// Records the reply `code` to a dig of power `x` at `pos`; a dig of a
    /// broken cell is refused with `Err(NotRock)` and changes nothing.
    pub fn damage(&mut self, pos: Pos, x: usize, code: isize) -> (reply: Result<Reply, NotRock>)
        requires
            old(self).well_formed(),
            pos.0 < old(self).n,
            pos.1 < old(self).n,
            cell(old(self).state@, pos) is Rock ==> cell(old(self).state@, pos)->Rock_0 + x <= usize::MAX,
        ensures
            final(self).well_formed(),
            final(self).n == old(self).n,
            final(self).p_init == old(self).p_init,
            final(self).p_delta == old(self).p_delta,
            final(self).sources == old(self).sources,
            final(self).houses == old(self).houses,
            dig_outcome(old(self).state@, final(self).state@, pos, x, code, reply),
    {
        record_dig(&mut self.state, pos, x, code)
    }

    /// The next dig that breaking `pos` takes after `tries` failed digs:
    /// power `p_init + tries * p_delta` while the cell is rock, `None` once
    /// it is broken.
    pub fn destroy_step(&self, pos: Pos, tries: usize) -> (x: Option<usize>)
        requires
            self.well_formed(),
            pos.0 < self.n,
            pos.1 < self.n,
            self.p_init + tries * self.p_delta <= usize::MAX,
        ensures
            x == (if cell(self.state@, pos) is Rock {
                Some((self.p_init + tries * self.p_delta) as usize)
            } else {
                None
            }),
    {
        proof {
            assert(self.state@[pos.0 as int].len() == self.n);
            assert(tries * self.p_delta <= usize::MAX) by (nonlinear_arith)
                requires
                    self.p_init + tries * self.p_delta <= usize::MAX,
                    self.p_init >= 0,
            ;
        }
        match self.state[pos.0][pos.1] {
            State::Rock(_) => Some(self.p_init + tries * self.p_delta),
            State::Destroyed(_) => None,
        }
    }

    /// A dug cell of a channel joins the sources.
    pub fn mark_source(&mut self, pos: Pos)
        ensures
            final(self).sources@ == old(self).sources@.insert(pos),
            final(self).state == old(self).state,
            final(self).houses == old(self).houses,
            final(self).n == old(self).n,
            final(self).p_init == old(self).p_init,
            final(self).p_delta == old(self).p_delta,
    {
        self.sources.insert(pos);
    }

    /// The source nearest to `pos` (the smallest in row-major order among the
    /// nearest); `pos` itself when no source is nearer than `INF`.
    pub fn find_source(&self, pos: Pos) -> (src: Pos)
        requires
            forall|x: Pos| #[trigger] self.sources@.contains(x) ==> dist_fits(pos, x),
        ensures
            (exists|x: Pos| #[trigger] self.sources@.contains(x) && manhattan(pos, x) < INF) ==> is_nearest_member(
                self.sources@,
                pos,
                src,
            ),
            !(exists|x: Pos| #[trigger] self.sources@.contains(x) && manhattan(pos, x) < INF) ==> src == pos,
    {
        nearest_member(&self.sources, pos)
    }

    /// Some house is nearer than `INF` to some source.
    pub open spec fn some_pair_below_inf(&self) -> bool {
        exists|h: Pos, s: Pos|
            self.houses@.contains(h) && self.sources@.contains(s) && #[trigger] manhattan(h, s) < INF
    }

    /// `(h, s)` is the nearest house and source, the first such by house and
    /// then by source.
    pub open spec fn is_nearest_pair(&self, h: Pos, s: Pos) -> bool {
        &&& self.houses@.contains(h)
        &&& self.sources@.contains(s)
        &&& manhattan(h, s) < INF
        &&& forall|h2: Pos, s2: Pos|
            self.houses@.contains(h2) && self.sources@.contains(s2) ==> manhattan(h, s) <= #[trigger] manhattan(
                h2,
                s2,
            )
        &&& forall|h2: Pos, s2: Pos|
            self.houses@.contains(h2) && self.sources@.contains(s2) && pair_lt(h2, s2, h, s) ==> manhattan(h, s)
                < #[trigger] manhattan(h2, s2)
    }

    /// Picks the next `(source, house)` pair to join and takes the house off
    /// the list: the nearest house and source, or the first source and the
    /// first house when none is nearer than `INF`; `None` once no house is
    /// left.
    pub fn get_nearest_pair(&mut self) -> (pair: Option<(Pos, Pos)>)
        requires
            !old(self).houses@.is_empty() ==> !old(self).sources@.is_empty(),
            forall|h: Pos, s: Pos|
                old(self).houses@.contains(h) && old(self).sources@.contains(s) ==> #[trigger] dist_fits(h, s),
        ensures
            pair is None <==> old(self).houses@.is_empty(),
            pair is None ==> final(self).houses@ == old(self).houses@,
            pair matches Some((s, h)) ==> final(self).houses@ == old(self).houses@.remove(h),
            pair matches Some((s, h)) ==> (old(self).some_pair_below_inf() ==> old(self).is_nearest_pair(h, s)),
            pair matches Some((s, h)) ==> (!old(self).some_pair_below_inf() ==> is_set_min(old(self).sources@, s)
                && is_set_min(old(self).houses@, h)),
            final(self).state == old(self).state,
            final(self).sources == old(self).sources,
            final(self).n == old(self).n,
            final(self).p_init == old(self).p_init,
            final(self).p_delta == old(self).p_delta,
    {
        if self.houses.is_empty() {
            return None;
        }
        let first_src = set_min(&self.sources);
        let first_house = set_min(&self.houses);
        let mut res = (first_src, first_house);
        let mut min_dist: u64 = INF;
        for house in it: self.houses.iter()
            invariant
                it.seq().unref().to_set() == self.houses@,
                forall|h: Pos, s: Pos|
                    self.houses@.contains(h) && self.sources@.contains(s) ==> #[trigger] dist_fits(h, s),
                is_set_min(self.sources@, first_src),
                is_set_min(self.houses@, first_house),
                min_dist <= INF,
                min_dist == INF ==> res == (first_src, first_house) && forall|k: int, s: Pos|
                    0 <= k < it.index() && self.sources@.contains(s) ==> #[trigger] manhattan(*it.seq()[k], s)
                        >= INF,
                min_dist < INF ==> {
                    &&& self.houses@.contains(res.1)
                    &&& self.sources@.contains(res.0)
                    &&& manhattan(res.1, res.0) == min_dist
                    &&& forall|k: int, s: Pos|
                        0 <= k < it.index() && self.sources@.contains(s) ==> min_dist <= #[trigger] manhattan(
                            *it.seq()[k],
                            s,
                        )
                    &&& forall|k: int, s: Pos|
                        0 <= k < it.index() && self.sources@.contains(s) && pair_lt(*it.seq()[k], s, res.1, res.0)
                            ==> min_dist < #[trigger] manhattan(*it.seq()[k], s)
                },
        {
            proof {
                assert(it.seq().unref()[it.index() as int] == *house);
                assert(it.seq().unref().contains(*house));
            }
            let h = *house;
            for src in it2: self.sources.iter()
                invariant
                    it2.seq().unref().to_set() == self.sources@,
                    self.houses@.contains(h),
                    h == *it.seq()[it.index() as int],
                    0 <= it.index() < it.seq().len(),
                    forall|h: Pos, s: Pos|
                        self.houses@.contains(h) && self.sources@.contains(s) ==> #[trigger] dist_fits(h, s),
                    min_dist <= INF,
                    min_dist == INF ==> res == (first_src, first_house) && (forall|k: int, s: Pos|
                        0 <= k < it.index() && self.sources@.contains(s) ==> #[trigger] manhattan(*it.seq()[k], s)
                            >= INF) && (forall|k: int|
                        0 <= k < it2.index() ==> #[trigger] manhattan(h, *it2.seq()[k]) >= INF),
                    min_dist < INF ==> {
                        &&& self.houses@.contains(res.1)
                        &&& self.sources@.contains(res.0)
                        &&& manhattan(res.1, res.0) == min_dist
                        &&& forall|k: int, s: Pos|
                            0 <= k < it.index() && self.sources@.contains(s) ==> min_dist <= #[trigger] manhattan(
                                *it.seq()[k],
                                s,
                            )
                        &&& forall|k: int, s: Pos|
                            0 <= k < it.index() && self.sources@.contains(s) && pair_lt(*it.seq()[k], s, res.1, res.0)
                                ==> min_dist < #[trigger] manhattan(*it.seq()[k], s)
                        &&& forall|k: int| 0 <= k < it2.index() ==> min_dist <= #[trigger] manhattan(h, *it2.seq()[k])
                        &&& forall|k: int|
                            0 <= k < it2.index() && pair_lt(h, *it2.seq()[k], res.1, res.0) ==> min_dist
                                < #[trigger] manhattan(h, *it2.seq()[k])
                    },
            {
                proof {
                    assert(it2.seq().unref()[it2.index() as int] == *src);
                    assert(it2.seq().unref().contains(*src));
                    assert(dist_fits(h, *src));
                    assert(usize::MAX <= u64::MAX);
                }
                let s = *src;
                let d = Vec2::dist(&h, &s) as u64;
                let before_lt = h.0 < res.1.0 || (h.0 == res.1.0 && h.1 < res.1.1) || (h.0 == res.1.0 && h.1
                    == res.1.1 && (s.0 < res.0.0 || (s.0 == res.0.0 && s.1 < res.0.1)));
                let ghost old_res = res;
                let ghost old_min = min_dist;
                if d < min_dist || (d == min_dist && d < INF && before_lt) {
                    min_dist = d;
                    res = (s, h);
                    proof {
                        assert forall|k: int, ss: Pos|
                            0 <= k < it.index() && self.sources@.contains(ss) && pair_lt(*it.seq()[k], ss, h, s)
                                implies min_dist < #[trigger] manhattan(*it.seq()[k], ss) by {
                            if manhattan(*it.seq()[k], ss) == min_dist {
                                assert(old_min < INF);
                                assert(!pair_lt(*it.seq()[k], ss, old_res.1, old_res.0));
                            }
                        }
                        assert forall|k: int|
                            0 <= k < it2.index() + 1 && pair_lt(h, *it2.seq()[k], h, s) implies min_dist
                                < #[trigger] manhattan(h, *it2.seq()[k]) by {
                            if k < it2.index() && manhattan(h, *it2.seq()[k]) == min_dist {
                                assert(old_min < INF);
                                assert(!pair_lt(h, *it2.seq()[k], old_res.1, old_res.0));
                            }
                        }
                    }
                }
            }
            proof {
                assert forall|ss: Pos| #[trigger] self.sources@.contains(ss) implies (min_dist == INF ==> manhattan(
                    h,
                    ss,
                ) >= INF) && (min_dist < INF ==> min_dist <= manhattan(h, ss) && (pair_lt(h, ss, res.1, res.0)
                    ==> min_dist < manhattan(h, ss))) by {
                    assert(self.sources@.contains(ss));
                }
            }
        }
        proof {
            if self.some_pair_below_inf() {
                let (hh, ss) = choose|hh: Pos, ss: Pos|
                    self.houses@.contains(hh) && self.sources@.contains(ss) && #[trigger] manhattan(hh, ss) < INF;
                assert(self.houses@.contains(hh));
            }
        }
        self.houses.remove(&res.1);
        Some(res)
    }
}

/// One side of the sampling window over the coordinates `a` and `b` of a
/// square of side `n`: from `below` before the smaller to `above` after the
/// larger, kept on the board, and widened by one on each side (where the
/// board allows) when it holds a single coordinate.
pub open spec fn window_side(a: usize, b: usize, below: int, above: int, n: int) -> (int, int) {
    let lo: int = if a <= b { a as int } else { b as int };
    let hi: int = if a <= b { b as int } else { a as int };
    let s = if lo >= below { lo - below } else { 0 };
    let e = if hi + above <= n - 1 { hi + above } else { n - 1 };
    if s == e {
        (if s > 0 { s - 1 } else { s }, if e < n - 1 { e + 1 } else { e })
    } else {
        (s, e)
    }
}

/// The rows `top..bottom` and columns `left..right` in which the cells of
/// the way from `start` to `end` are sampled; the columns reach beyond the
/// ends by half the height, the rows by half the height and half the width
/// before.
pub open spec fn sampling_window(start: Pos, end: Pos, n: int) -> (int, int, int, int) {
    let height = gap(start.0 as int, end.0 as int);
    let width = gap(start.1 as int, end.1 as int);
    let rows = window_side(start.0, end.0, height / SAMPLING_RANGE as int, height / SAMPLING_RANGE as int, n);
    let cols = window_side(start.1, end.1, width / SAMPLING_RANGE as int, height / SAMPLING_RANGE as int, n);
    (rows.0, rows.1, cols.0, cols.1)
}

/// The number of cells sampled on the way from `start` to `end`.
pub open spec fn sampling_count(start: Pos, end: Pos) -> int {
    manhattan(start, end) / SAMPLING_SPAN as int
}

/// The cell lies in the sampling window of the way from `start` to `end`.
pub open spec fn in_window(start: Pos, end: Pos, n: int, p: Pos) -> bool {
    let w = sampling_window(start, end, n);
    w.0 <= p.0 < w.1 && w.2 <= p.1 < w.3
}

/// One side of the sampling window, as `window_side` states it.
fn window_bounds(a: usize, b: usize, below: usize, above: usize, n: usize) -> (r: (usize, usize))
    requires
        a < n,
        b < n,
    ensures
        (r.0 as int, r.1 as int) == window_side(a, b, below as int, above as int, n as int),
{
    let (lo, hi) = if a <= b { (a, b) } else { (b, a) };
    let mut s = if lo >= below { lo - below } else { 0 };
    let mut e = if above > (n - 1) - hi { n - 1 } else { hi + above };
    if s == e {
        if s > 0 {
            s -= 1;
        }
        if e < n - 1 {
            e += 1;
        }
    }
    (s, e)
}

impl Field {
    /// The cells to break before the way from `start` to `end` is planned:
    /// `sampling_count(start, end)` random cells of the sampling window
    /// (row, then column, drawn for each), and `end` last.
    pub fn sample_points(&self, start: Pos, end: Pos, rng: &mut rand::rngs::StdRng) -> (points: Vec<Pos>)
        requires
            start.0 < self.n,
            start.1 < self.n,
            end.0 < self.n,
            end.1 < self.n,
            dist_fits(start, end),
        ensures
            points.len() == sampling_count(start, end) + 1,
            points@.last() == end,
            forall|i: int| 0 <= i < points.len() - 1 ==> #[trigger] in_window(start, end, self.n as int, points@[i]),
    {
        let n = self.n;
        let height = if start.0 <= end.0 { end.0 - start.0 } else { start.0 - end.0 };
        let width = if start.1 <= end.1 { end.1 - start.1 } else { start.1 - end.1 };
        let count = Vec2::dist(&start, &end) / SAMPLING_SPAN;
        let (top, bottom) = window_bounds(start.0, end.0, height / SAMPLING_RANGE, height / SAMPLING_RANGE, n);
        let (left, right) = window_bounds(start.1, end.1, width / SAMPLING_RANGE, height / SAMPLING_RANGE, n);
        proof {
            assert(sampling_window(start, end, n as int) == (top as int, bottom as int, left as int, right as int));
            if count > 0 {
                assert(n >= 2);
                assert(top < bottom);
                assert(left < right);
            }
        }
        let mut points: Vec<Pos> = Vec::new();
        let mut k: usize = 0;
        while k < count
            invariant
                0 <= k <= count,
                count == sampling_count(start, end),
                points.len() == k,
                count > 0 ==> top < bottom && left < right,
                sampling_window(start, end, n as int) == (top as int, bottom as int, left as int, right as int),
                forall|i: int| 0 <= i < points.len() ==> #[trigger] in_window(start, end, n as int, points@[i]),
            decreases count - k,
        {
            let r = std_rng_gen_range(rng, top, bottom);
            let c = std_rng_gen_range(rng, left, right);
            points.push((r, c));
            k += 1;
        }
        points.push(end);
        points
    }
}

/// The strength of a broken cell.
pub open spec fn strength_in(state: Seq<Vec<State>>, p: Pos) -> int {
    cell(state, p)->Destroyed_0 as int
}

/// The predicted cost of digging between the points `i` and `j`: their
/// distance times the strength of the later of the two.
pub open spec fn edge_cost(state: Seq<Vec<State>>, pts: Seq<Pos>, i: int, j: int) -> int {
    manhattan(pts[i], pts[j]) * strength_in(state, pts[if i <= j { j } else { i }])
}

/// The matrix of predicted costs between every two points.
pub open spec fn cost_matrix_spec(state: Seq<Vec<State>>, pts: Seq<Pos>) -> Seq<Seq<u64>> {
    Seq::new(pts.len(), |i: int| Seq::new(pts.len(), |j: int| edge_cost(state, pts, i, j) as u64))
}

/// For each point, the cost of reaching it from its source and going on
/// along the cheapest way to the last point.
pub open spec fn start_scores(state: Seq<Vec<State>>, pts: Seq<Pos>, srcs: Seq<Pos>, dp: Seq<Seq<u64>>) -> Seq<
    int,
> {
    Seq::new(
        pts.len(),
        |i: int| manhattan(pts[i], srcs[i]) * strength_in(state, srcs[i]) + dp[i][pts.len() - 1],
    )
}

/// Some point can be reached from its source for less than `INF`.
pub open spec fn some_start_below_inf(scores: Seq<int>) -> bool {
    exists|i: int| 0 <= i < scores.len() && #[trigger] scores[i] < INF
}

/// The way planned over the points `pts` (the samples, then the house), each
/// with its nearest source in `srcs`: the source and the point where the
/// cheapest start is, the next points on the cheapest way from there (ten
/// steps at most), and the house; the first point and `start` when no start
/// costs less than `INF`.
pub open spec fn planned_path(state: Seq<Vec<State>>, start: Pos, pts: Seq<Pos>, srcs: Seq<Pos>) -> Seq<Pos> {
    let g = pts.len() - 1;
    let d = cost_matrix_spec(state, pts);
    let dp = fw_matrix(d);
    let scores = start_scores(state, pts, srcs, dp);
    let k = choose|k: int| first_min_below(scores, INF as int, k);
    let src = if some_start_below_inf(scores) {
        srcs[k]
    } else {
        start
    };
    seq![src, pts[k]] + hops(d, dp, pts, g, k, 10) + seq![pts[g]]
}

/// The cell is on the board and broken.
pub open spec fn broken_on_board(state: Seq<Vec<State>>, n: int, p: Pos) -> bool {
    p.0 < n && p.1 < n && cell(state, p) is Destroyed
}

impl Field {
    /// The distance between the points `i` and `j` fits in a `usize` and
    /// their predicted cost is at most `COST_MAX`.
    pub open spec fn edge_ok(&self, pts: Seq<Pos>, i: int, j: int) -> bool {
        dist_fits(pts[i], pts[j]) && edge_cost(self.state@, pts, i, j) <= COST_MAX
    }

    /// Every point and its source are broken, and every cost that planning
    /// over them adds up fits.
    pub open spec fn plan_ready(&self, pts: Seq<Pos>, srcs: Seq<Pos>) -> bool {
        &&& pts.len() > 0
        &&& srcs.len() == pts.len()
        &&& forall|i: int| 0 <= i < pts.len() ==> #[trigger] broken_on_board(self.state@, self.n as int, pts[i])
        &&& forall|i: int| 0 <= i < pts.len() ==> #[trigger] broken_on_board(self.state@, self.n as int, srcs[i])
        &&& forall|i: int, j: int| 0 <= i < pts.len() && 0 <= j < pts.len() ==> #[trigger] self.edge_ok(pts, i, j)
        &&& forall|i: int|
            0 <= i < pts.len() ==> dist_fits(pts[i], srcs[i]) && #[trigger] manhattan(pts[i], srcs[i]) * strength_in(
                self.state@,
                srcs[i],
            ) <= COST_MAX
    }

    /// The strength of `p` when it is a broken cell of the board.
    fn broken_at(&self, p: Pos) -> (w: Option<usize>)
        requires
            self.well_formed(),
        ensures
            w == (if broken_on_board(self.state@, self.n as int, p) {
                Some(strength_in(self.state@, p) as usize)
            } else {
                None
            }),
    {
        if p.0 < self.n && p.1 < self.n {
            proof {
                assert(self.state@[p.0 as int].len() == self.n);
            }
            match self.state[p.0][p.1] {
                State::Rock(_) => None,
                State::Destroyed(d) => Some(d),
            }
        } else {
            None
        }
    }

    /// `Some(manhattan(a, b) * strength)` when the distance fits in a `usize`
    /// and the product is at most `COST_MAX`, else `None`.
    fn weighted_dist(a: Pos, b: Pos, strength: usize) -> (c: Option<u64>)
        ensures
            c == (if dist_fits(a, b) && manhattan(a, b) * strength <= COST_MAX {
                Some((manhattan(a, b) * strength) as u64)
            } else {
                None
            }),
    {
        let dr = UsizeTools::abs_diff(&a.0, b.0) as u128;
        let dc = UsizeTools::abs_diff(&a.1, b.1) as u128;
        let d = dr + dc;
        if d > usize::MAX as u128 {
            return None;
        }
        proof {
            assert(d * strength <= usize::MAX * usize::MAX) by (nonlinear_arith)
                requires
                    d <= usize::MAX,
                    strength <= usize::MAX,
                    d >= 0,
                    strength >= 0,
            ;
            assert(usize::MAX * usize::MAX < u128::MAX) by (nonlinear_arith)
                requires
                    usize::MAX <= u64::MAX,
            ;
        }
        let cost = d * (strength as u128);
        if cost <= COST_MAX as u128 {
            Some(cost as u64)
        } else {
            None
        }
    }

    /// Whether planning over `points` and `srcs` can go ahead: `plan_ready`.
    pub fn plan_is_ready(&self, points: &Vec<Pos>, srcs: &Vec<Pos>) -> (ok: bool)
        requires
            self.well_formed(),
        ensures
            ok == self.plan_ready(points@, srcs@),
    {
        if points.len() == 0 || srcs.len() != points.len() {
            return false;
        }
        let siz = points.len();
        let mut i: usize = 0;
        while i < siz
            invariant
                siz == points.len(),
                siz == srcs.len(),
                0 <= i <= siz,
                self.well_formed(),
                forall|a: int| 0 <= a < i ==> #[trigger] broken_on_board(self.state@, self.n as int, points@[a]),
                forall|a: int| 0 <= a < i ==> #[trigger] broken_on_board(self.state@, self.n as int, srcs@[a]),
                forall|a: int|
                    0 <= a < i ==> dist_fits(points@[a], srcs@[a]) && #[trigger] manhattan(points@[a], srcs@[a])
                        * strength_in(self.state@, srcs@[a]) <= COST_MAX,
            decreases siz - i,
        {
            if self.broken_at(points[i]).is_none() {
                proof {
                    assert(!broken_on_board(self.state@, self.n as int, points@[i as int]));
                }
                return false;
            }
            match self.broken_at(srcs[i]) {
                None => {
                    proof {
                        assert(!broken_on_board(self.state@, self.n as int, srcs@[i as int]));
                    }
                    return false;
                },
                Some(w) => {
                    if Self::weighted_dist(points[i], srcs[i], w).is_none() {
                        proof {
                            assert(!(dist_fits(points@[i as int], srcs@[i as int]) && manhattan(
                                points@[i as int],
                                srcs@[i as int],
                            ) * strength_in(self.state@, srcs@[i as int]) <= COST_MAX));
                        }
                        return false;
                    }
                },
            }
            i += 1;
        }
        let mut u: usize = 0;
        while u < siz
            invariant
                siz == points.len(),
                siz == srcs.len(),
                0 <= u <= siz,
                self.well_formed(),
                forall|a: int| 0 <= a < siz ==> #[trigger] broken_on_board(self.state@, self.n as int, srcs@[a]),
                forall|a: int|
                    0 <= a < siz ==> dist_fits(points@[a], srcs@[a]) && #[trigger] manhattan(points@[a], srcs@[a])
                        * strength_in(self.state@, srcs@[a]) <= COST_MAX,
                forall|a: int| 0 <= a < siz ==> #[trigger] broken_on_board(self.state@, self.n as int, points@[a]),
                forall|a: int, b: int| 0 <= a < u && 0 <= b < siz ==> #[trigger] self.edge_ok(points@, a, b),
            decreases siz - u,
        {
            let mut v: usize = 0;
            while v < siz
                invariant
                    siz == points.len(),
                    0 <= u < siz,
                    0 <= v <= siz,
                    self.well_formed(),
                    forall|a: int| 0 <= a < siz ==> #[trigger] broken_on_board(self.state@, self.n as int, points@[a]),
                    forall|a: int, b: int| 0 <= a < u && 0 <= b < siz ==> #[trigger] self.edge_ok(points@, a, b),
                    forall|b: int| 0 <= b < v ==> #[trigger] self.edge_ok(points@, u as int, b),
                decreases siz - v,
            {
                let later = if u <= v { v } else { u };
                proof {
                    assert(broken_on_board(self.state@, self.n as int, points@[later as int]));
                }
                let w = match self.broken_at(points[later]) {
                    Some(w) => w,
                    None => 0,
                };
                if Self::weighted_dist(points[u], points[v], w).is_none() {
                    proof {
                        assert(!self.edge_ok(points@, u as int, v as int));
                    }
                    return false;
                }
                v += 1;
            }
            u += 1;
        }
        true
    }

    /// The source nearest to each point.
    pub fn point_sources(&self, points: &Vec<Pos>) -> (srcs: Vec<Pos>)
        requires
            forall|i: int, x: Pos|
                0 <= i < points.len() && self.sources@.contains(x) ==> #[trigger] dist_fits(points@[i], x),
        ensures
            srcs.len() == points.len(),
            forall|i: int|
                0 <= i < points.len() ==> ((exists|x: Pos| #[trigger] self.sources@.contains(x) && manhattan(
                    points@[i],
                    x,
                ) < INF) ==> is_nearest_member(self.sources@, points@[i], #[trigger] srcs@[i])),
            forall|i: int|
                0 <= i < points.len() ==> (!(exists|x: Pos| #[trigger] self.sources@.contains(x) && manhattan(
                    points@[i],
                    x,
                ) < INF) ==> #[trigger] srcs@[i] == points@[i]),
    {
        let mut srcs: Vec<Pos> = Vec::new();
        let mut i: usize = 0;
        while i < points.len()
            invariant
                0 <= i <= points.len(),
                srcs.len() == i,
                forall|a: int, x: Pos|
                    0 <= a < points.len() && self.sources@.contains(x) ==> #[trigger] dist_fits(points@[a], x),
                forall|a: int|
                    0 <= a < i ==> ((exists|x: Pos| #[trigger] self.sources@.contains(x) && manhattan(points@[a], x)
                        < INF) ==> is_nearest_member(self.sources@, points@[a], #[trigger] srcs@[a])),
                forall|a: int|
                    0 <= a < i ==> (!(exists|x: Pos| #[trigger] self.sources@.contains(x) && manhattan(
                        points@[a],
                        x,
                    ) < INF) ==> #[trigger] srcs@[a] == points@[a]),
            decreases points.len() - i,
        {
            let s = self.find_source(points[i]);
            srcs.push(s);
            i += 1;
        }
        srcs
    }

    /// The strength of a broken cell on the board.
    fn strength(&self, p: Pos) -> (s: usize)
        requires
            self.well_formed(),
            broken_on_board(self.state@, self.n as int, p),
        ensures
            s == strength_in(self.state@, p),
    {
        proof {
            assert(self.state@[p.0 as int].len() == self.n);
        }
        match self.state[p.0][p.1] {
            State::Rock(d) => d,
            State::Destroyed(d) => d,
        }
    }

    /// The predicted cost between every two points.
    pub fn cost_matrix(&self, points: &Vec<Pos>, srcs: &Vec<Pos>) -> (d: Vec<Vec<u64>>)
        requires
            self.well_formed(),
            self.plan_ready(points@, srcs@),
        ensures
            cost_table(d@, points.len() as int),
            matrix(d@) =~~= cost_matrix_spec(self.state@, points@),
    {
        let siz = points.len();
        let mut d: Vec<Vec<u64>> = Vec::new();
        let mut u: usize = 0;
        while u < siz
            invariant
                siz == points.len(),
                0 <= u <= siz,
                self.well_formed(),
                self.plan_ready(points@, srcs@),
                d.len() == u,
                forall|a: int| 0 <= a < u ==> #[trigger] d@[a]@.len() == siz,
                forall|a: int, b: int|
                    0 <= a < u && 0 <= b < siz ==> #[trigger] d@[a]@[b] == edge_cost(self.state@, points@, a, b),
            decreases siz - u,
        {
            let mut row: Vec<u64> = Vec::new();
            let mut v: usize = 0;
            while v < siz
                invariant
                    siz == points.len(),
                    u < siz,
                    0 <= v <= siz,
                    self.well_formed(),
                    self.plan_ready(points@, srcs@),
                    row.len() == v,
                    forall|b: int| 0 <= b < v ==> #[trigger] row@[b] == edge_cost(self.state@, points@, u as int, b),
                decreases siz - v,
            {
                let later = if u <= v { v } else { u };
                proof {
                    assert(broken_on_board(self.state@, self.n as int, points@[later as int]));
                    assert(self.edge_ok(points@, u as int, v as int));
                    assert(usize::MAX <= u64::MAX);
                }
                let w = self.strength(points[later]);
                let dist = Vec2::dist(&points[u], &points[v]);
                let cost = (dist as u64) * (w as u64);
                row.push(cost);
                v += 1;
            }
            d.push(row);
            u += 1;
        }
        proof {
            assert forall|a: int, b: int| 0 <= a < siz && 0 <= b < siz implies #[trigger] d@[a]@[b] <= COST_MAX by {
                assert(self.edge_ok(points@, a, b));
            }
            assert forall|a: int| 0 <= a < siz implies #[trigger] matrix(d@)[a] =~= cost_matrix_spec(
                self.state@,
                points@,
            )[a] by {
                assert forall|b: int| 0 <= b < siz implies matrix(d@)[a][b] == cost_matrix_spec(self.state@, points@)[a][b] by {
                    assert(self.edge_ok(points@, a, b));
                }
            }
        }
        d
    }

    /// The point where the cheapest start is (the first such), and whether
    /// any start costs less than `INF`.
    pub fn pick_start(&self, points: &Vec<Pos>, srcs: &Vec<Pos>, dp: &Vec<Vec<u64>>) -> (r: (usize, bool))
        requires
            self.well_formed(),
            self.plan_ready(points@, srcs@),
            cost_table(dp@, points.len() as int),
        ensures
            first_min_below(start_scores(self.state@, points@, srcs@, matrix(dp@)), INF as int, r.0 as int),
            r.1 == some_start_below_inf(start_scores(self.state@, points@, srcs@, matrix(dp@))),
    {
        let ghost ds = start_scores(self.state@, points@, srcs@, matrix(dp@));
        let g = points.len() - 1;
        let mut idx: usize = 0;
        let mut best: u64 = INF;
        let mut i: usize = 0;
        while i < points.len()
            invariant
                0 <= i <= points.len(),
                g == points.len() - 1,
                self.well_formed(),
                self.plan_ready(points@, srcs@),
                cost_table(dp@, points.len() as int),
                ds == start_scores(self.state@, points@, srcs@, matrix(dp@)),
                best <= INF,
                (exists|q: int| 0 <= q < i && #[trigger] ds[q] < INF) ==> {
                    &&& 0 <= idx < i
                    &&& best == ds[idx as int]
                    &&& forall|q: int| 0 <= q < i ==> best <= #[trigger] ds[q]
                    &&& forall|q: int| 0 <= q < idx ==> best < #[trigger] ds[q]
                },
                !(exists|q: int| 0 <= q < i && #[trigger] ds[q] < INF) ==> idx == 0 && best == INF,
            decreases points.len() - i,
        {
            proof {
                assert(broken_on_board(self.state@, self.n as int, srcs@[i as int]));
                assert(manhattan(points@[i as int], srcs@[i as int]) * strength_in(self.state@, srcs@[i as int])
                    <= COST_MAX);
                assert(dp@[i as int]@[g as int] <= COST_MAX);
                assert(matrix(dp@)[i as int][g as int] == dp@[i as int]@[g as int]);
                assert(usize::MAX <= u64::MAX);
            }
            let w = self.strength(srcs[i]);
            let dist = Vec2::dist(&points[i], &srcs[i]);
            let score = (dist as u64) * (w as u64) + dp[i][g];
            if best > score {
                best = score;
                idx = i;
            }
            proof {
                if !(exists|q: int| 0 <= q < i && #[trigger] ds[q] < INF) {
                    if ds[i as int] < INF {
                        assert(exists|q: int| 0 <= q < i + 1 && #[trigger] ds[q] < INF);
                    } else {
                        assert forall|q: int| 0 <= q < i + 1 implies !(#[trigger] ds[q] < INF) by {}
                    }
                } else {
                    let w = choose|q: int| 0 <= q < i && #[trigger] ds[q] < INF;
                    assert(0 <= w < i + 1 && ds[w] < INF);
                }
            }
            i += 1;
        }
        proof {
            assert(ds.len() == points.len());
        }
        (idx, best < INF)
    }

    /// Plans the way to dig from a source to the house, the last of
    /// `points` (the sampled cells, then the house), given the nearest
    /// source `srcs[i]` of each point: `planned_path`.
    pub fn get_shortest_path(&self, start: Pos, points: &Vec<Pos>, srcs: &Vec<Pos>) -> (path: Vec<Pos>)
        requires
            self.well_formed(),
            self.plan_ready(points@, srcs@),
        ensures
            path@ == planned_path(self.state@, start, points@, srcs@),
    {
        let g = points.len() - 1;
        let d = self.cost_matrix(points, srcs);
        let dp = floyd_warshall(&d);
        let (k, found) = self.pick_start(points, srcs, &dp);
        proof {
            assert(matrix(d@) == cost_matrix_spec(self.state@, points@));
            assert(matrix(dp@) == fw_matrix(cost_matrix_spec(self.state@, points@)));
            lemma_first_min_unique(
                start_scores(self.state@, points@, srcs@, matrix(dp@)),
                INF as int,
                k as int,
            );
            assert(0 <= k < points.len()) by {
                if !some_start_below_inf(start_scores(self.state@, points@, srcs@, matrix(dp@))) {
                    assert(k == 0);
                }
            }
        }
        let src = if found {
            srcs[k]
        } else {
            start
        };
        let mut mid = restore_path(&d, &dp, points, k, g);
        let mut path: Vec<Pos> = Vec::new();
        path.push(src);
        path.push(points[k]);
        path.append(&mut mid);
        path.push(points[g]);
        proof {
            assert(path@ =~= planned_path(self.state@, start, points@, srcs@));
        }
        path
    }
}

/// The cells dug, in order, when digging from `start` to `end` as straight as
/// the grid allows: while both the rows and the columns differ by more than
/// one, the way is halved at its middle cell; each piece is dug down its
/// column and then along its row.
pub open spec fn line_cells(start: Pos, end: Pos) -> Seq<Pos>
    decreases manhattan(start, end),
{
    if gap(start.0 as int, end.0 as int) <= 1 || gap(start.1 as int, end.1 as int) <= 1 {
        tunnel_cells(start, end)
    } else {
        let mid = (((start.0 + end.0) / 2) as usize, ((start.1 + end.1) / 2) as usize);
        line_cells(start, mid) + line_cells(mid, end)
    }
}

/// The cells dug for the legs of `path` that end at its points `1..=k`.
pub open spec fn legs_cells(path: Seq<Pos>, k: int) -> Seq<Pos>
    decreases k,
{
    if k <= 0 {
        seq![]
    } else {
        legs_cells(path, k - 1) + line_cells(path[k - 1], path[k])
    }
}

/// Appends the cells of a dig from `start` to `end` as straight as the grid
/// allows.
pub fn push_line(cells: &mut Vec<Pos>, start: Pos, end: Pos)
    ensures
        final(cells)@ == old(cells)@ + line_cells(start, end),
    decreases manhattan(start, end),
{
    let (sr, sc) = start;
    let (er, ec) = end;
    let dr = if sr <= er { er - sr } else { sr - er };
    let dc = if sc <= ec { ec - sc } else { sc - ec };
    if dr <= 1 || dc <= 1 {
        let ghost c0 = cells@;
        push_column(cells, sc, sr, er);
        push_row(cells, er, sc, ec);
        proof {
            assert(cells@ =~= c0 + line_cells(start, end));
        }
    } else {
        let mid = (sr / 2 + er / 2 + (sr % 2 + er % 2) / 2, sc / 2 + ec / 2 + (sc % 2 + ec % 2) / 2);
        proof {
            assert(mid == (((start.0 + end.0) / 2) as usize, ((start.1 + end.1) / 2) as usize));
        }
        let ghost c0 = cells@;
        push_line(cells, start, mid);
        push_line(cells, mid, end);
        proof {
            assert(cells@ =~= c0 + line_cells(start, end));
        }
    }
}

/// The cells to dig, in order, along the planned `path`: each leg from one
/// point to the next dug as straight as the grid allows.
pub fn route_cells(path: &Vec<Pos>) -> (cells: Vec<Pos>)
    ensures
        cells@ == legs_cells(path@, path@.len() - 1),
{
    let mut cells: Vec<Pos> = Vec::new();
    if path.len() == 0 {
        proof {
            assert(cells@ =~= legs_cells(path@, path@.len() - 1));
        }
        return cells;
    }
    let mut i: usize = 1;
    while i < path.len()
        invariant
            1 <= i <= path.len(),
            cells@ == legs_cells(path@, i - 1),
        decreases path.len() - i,
    {
        push_line(&mut cells, path[i - 1], path[i]);
        i += 1;
    }
    cells
}

/// Digging as straight as the grid allows gives a chain of cells from
/// `start` to `end`.
pub proof fn lemma_line_chain(start: Pos, end: Pos)
    ensures
        is_chain(line_cells(start, end), start, end),
    decreases manhattan(start, end),
{
    if gap(start.0 as int, end.0 as int) <= 1 || gap(start.1 as int, end.1 as int) <= 1 {
        lemma_tunnel_chain(start, end);
    } else {
        let mid = (((start.0 + end.0) / 2) as usize, ((start.1 + end.1) / 2) as usize);
        lemma_line_chain(start, mid);
        lemma_line_chain(mid, end);
        lemma_chain_concat(line_cells(start, mid), line_cells(mid, end), start, mid, mid, end);
    }
}

/// The cells dug along the legs of `path` up to its point `k` form a chain
/// from the first point of the path to the point `k`: the channel dug for a
/// planned path joins its source to its house.
pub proof fn lemma_route_chain(path: Seq<Pos>, k: int)
    requires
        1 <= k < path.len(),
    ensures
        is_chain(legs_cells(path, k), path[0], path[k]),
    decreases k,
{
    lemma_line_chain(path[k - 1], path[k]);
    if k == 1 {
        assert(legs_cells(path, 0) == Seq::<Pos>::empty());
        assert(legs_cells(path, 1) =~= line_cells(path[0], path[1]));
    } else {
        lemma_route_chain(path, k - 1);
        lemma_chain_concat(legs_cells(path, k - 1), line_cells(path[k - 1], path[k]), path[0], path[k - 1], path[k - 1], path[k]);
    }
}

} // verus!
