//! Digs from the nearest source to each house, detouring through the
//! cheapest of a few randomly sampled cells when the way is long.
use vstd::prelude::*;
use crate::ahc018::geometry::{
    Pos,
    State,
    Reply,
    Vec2,
    reply_of,
    cell,
    square_grid,
    rock_grid,
    record_dig,
    dig_outcome,
    NotRock,
    dist_fits,
    manhattan,
    distances,
    first_min_below,
    nearest_index,
    tunnel_cells,
    tunnel_route,
    lemma_first_min_unique,
    is_chain,
    lemma_tunnel_chain,
    lemma_chain_concat,
    gap,
    INF,
};
use crate::random::std_rng_gen_range;

verus! {

/// Seed of the generator.
pub const SEED: u64 = 20021213;

/// Segments shorter than this are dug straight; longer rectangles are sampled
/// once per `SAMPLING_THRESHOLD x SAMPLING_THRESHOLD` block.
pub const SAMPLING_THRESHOLD: usize = 20;

/// The power of each dig: `max(50, 2 * c)` for a dig cost of `c`.
pub fn power_for_cost(c: usize) -> (p: usize)
    requires
        2 * c <= usize::MAX,
    ensures
        p == if 2 * c > 50 { 2 * c } else { 50 },
{
    if 2 * c > 50 {
        2 * c
    } else {
        50
    }
}

/// The glyph that shows a cell: blank for rock, and for broken rock a bar
/// whose height grows with the strength it took.
pub open spec fn glyph_spec(s: State) -> char {
    match s {
        State::Rock(_) => ' ',
        State::Destroyed(strength) => if strength <= 625 {
            '▁'
        } else if strength <= 1250 {
            '▂'
        } else if strength <= 1875 {
            '▃'
        } else if strength <= 2500 {
            '▄'
        } else if strength <= 3175 {
            '▅'
        } else if strength <= 3750 {
            '▆'
        } else if strength <= 4375 {
            '▇'
        } else {
            '█'
        },
    }
}

/// The glyph of a cell.
pub fn glyph(s: State) -> (g: char)
    ensures
        g == glyph_spec(s),
{
    match s {
        State::Rock(_) => ' ',
        State::Destroyed(strength) => {
            if strength <= 625 {
                '▁'
            } else if strength <= 1250 {
                '▂'
            } else if strength <= 1875 {
                '▃'
            } else if strength <= 2500 {
                '▄'
            } else if strength <= 3175 {
                '▅'
            } else if strength <= 3750 {
                '▆'
            } else if strength <= 4375 {
                '▇'
            } else {
                '█'
            }
        },
    }
}

/// The field.
pub struct Field {
    /// the state of each cell
    pub state: Vec<Vec<State>>,
    /// the water sources
    pub sources: Vec<Pos>,
    /// side of the square
    pub n: usize,
    /// power of each dig
    pub power: usize,
}

impl Field {
    /// The grid is `n x n`.
    pub open spec fn well_formed(&self) -> bool {
        square_grid(self.state@, self.n as int)
    }

    /// A field of untouched rock with the given sources; digs of cost `c`
    /// are made with power `max(50, 2 * c)`.
    pub fn new(n: usize, c: usize, sources: &Vec<Pos>, houses: &Vec<Pos>) -> (f: Self)
        requires
            2 * c <= usize::MAX,
        ensures
            f.well_formed(),
            f.n == n,
            f.power == (if 2 * c > 50 { 2 * c } else { 50 }),
            f.sources@ == sources@,
            forall|r: int, k: int| 0 <= r < n && 0 <= k < n ==> #[trigger] f.state@[r]@[k] == State::Rock(0),
    {
        Field { state: rock_grid(n), sources: copy_cells(sources), n, power: power_for_cost(c) }
    }

    /// Records the reply `code` to a dig of power `x` at `pos`; a dig of a
    /// broken cell is refused with `Err(NotRock)` and changes nothing.
    pub fn damage(&mut self, pos: Pos, x: usize, code: isize) -> (reply: Result<Reply, NotRock>)
        requires
            old(self).well_formed(),
            pos.0 < old(self).n,
            pos.1 < old(self).n,
            cell(old(self).state@, pos) is Rock ==> cell(old(self).state@, pos)->Rock_0 + x <= usize::MAX,
        ensures
            final(self).well_formed(),
            final(self).n == old(self).n,
            final(self).power == old(self).power,
            final(self).sources == old(self).sources,
            dig_outcome(old(self).state@, final(self).state@, pos, x, code, reply),
    {
        record_dig(&mut self.state, pos, x, code)
    }

    /// The next dig that breaking `pos` takes: its power while the cell is
    /// rock, `None` once it is broken.
    pub fn destroy_step(&self, pos: Pos) -> (x: Option<usize>)
        requires
            self.well_formed(),
            pos.0 < self.n,
            pos.1 < self.n,
        ensures
            x == (if cell(self.state@, pos) is Rock { Some(self.power) } else { None }),
    {
        proof {
            assert(self.state@[pos.0 as int].len() == self.n);
        }
        match self.state[pos.0][pos.1] {
            State::Rock(_) => Some(self.power),
            State::Destroyed(_) => None,
        }
    }

    /// The strength of a broken cell.
    pub fn strength(&self, pos: Pos) -> (s: usize)
        requires
            self.well_formed(),
            pos.0 < self.n,
            pos.1 < self.n,
            cell(self.state@, pos) is Destroyed,
        ensures
            s == cell(self.state@, pos)->Destroyed_0,
    {
        proof {
            assert(self.state@[pos.0 as int].len() == self.n);
        }
        match self.state[pos.0][pos.1] {
            State::Rock(d) => d,
            State::Destroyed(d) => d,
        }
    }

    /// The source nearest to `pos` (the first on ties).
    pub fn find_source(&self, pos: Pos) -> (src: Pos)
        requires
            self.sources.len() > 0,
            forall|i: int| 0 <= i < self.sources.len() ==> #[trigger] dist_fits(pos, self.sources@[i]),
        ensures
            exists|k: int|
                first_min_below(distances(pos, self.sources@), INF as int, k) && 0 <= k < self.sources.len()
                    && src == #[trigger] self.sources@[k],
    {
        let k = nearest_index(pos, &self.sources);
        proof {
            if k > 0 {
                assert(k < self.sources.len());
            }
        }
        self.sources[k]
    }

    /// The picture of the field, one glyph per cell.
    pub fn show(&self) -> (rows: Vec<Vec<char>>)
        requires
            self.well_formed(),
        ensures
            rows.len() == self.n,
            forall|r: int| 0 <= r < self.n ==> #[trigger] rows@[r].len() == self.n,
            forall|r: int, c: int|
                0 <= r < self.n && 0 <= c < self.n ==> #[trigger] rows@[r]@[c] == glyph_spec(self.state@[r]@[c]),
    {
        let mut rows: Vec<Vec<char>> = Vec::new();
        let mut r: usize = 0;
        while r < self.n
            invariant
                self.well_formed(),
                0 <= r <= self.n,
                rows.len() == r,
                forall|q: int| 0 <= q < r ==> #[trigger] rows@[q].len() == self.n,
                forall|q: int, c: int|
                    0 <= q < r && 0 <= c < self.n ==> #[trigger] rows@[q]@[c] == glyph_spec(self.state@[q]@[c]),
            decreases self.n - r,
        {
            let mut line: Vec<char> = Vec::new();
            let mut c: usize = 0;
            proof {
                assert(self.state@[r as int].len() == self.n);
            }
            while c < self.n
                invariant
                    self.well_formed(),
                    0 <= r < self.n,
                    0 <= c <= self.n,
                    self.state@[r as int].len() == self.n,
                    line.len() == c,
                    forall|k: int| 0 <= k < c ==> #[trigger] line@[k] == glyph_spec(self.state@[r as int]@[k]),
                decreases self.n - c,
            {
                line.push(glyph(self.state[r][c]));
                c += 1;
            }
            rows.push(line);
            r += 1;
        }
        rows
    }
}

/// A copy of a list of cells.
pub fn copy_cells(cells: &Vec<Pos>) -> (out: Vec<Pos>)
    ensures
        out@ == cells@,
{
    let mut out: Vec<Pos> = Vec::new();
    let mut i: usize = 0;
    while i < cells.len()
        invariant
            0 <= i <= cells.len(),
            out@ == cells@.take(i as int),
        decreases cells.len() - i,
    {
        out.push(cells[i]);
        i += 1;
        proof {
            assert(out@ =~= cells@.take(i as int));
        }
    }
    proof {
        assert(cells@.take(i as int) =~= cells@);
    }
    out
}

/// The bounds `(rstart, rend, cstart, cend)` of the rectangle spanned by
/// `d1` and `d2` and the number of samples taken in it.
pub open spec fn sample_count(d1: Pos, d2: Pos) -> int {
    let h = gap(d1.0 as int, d2.0 as int);
    let w = gap(d1.1 as int, d2.1 as int);
    (h / SAMPLING_THRESHOLD as int) * (w / SAMPLING_THRESHOLD as int)
}

/// The cell lies in the rectangle spanned by `d1` and `d2`, last row and
/// column excluded.
pub open spec fn in_sampling_box(d1: Pos, d2: Pos, p: Pos) -> bool {
    let (rs, re) = if d1.0 <= d2.0 { (d1.0, d2.0) } else { (d2.0, d1.0) };
    let (cs, ce) = if d1.1 <= d2.1 { (d1.1, d2.1) } else { (d2.1, d1.1) };
    rs <= p.0 < re && cs <= p.1 < ce
}

/// Draws `sample_count(d1, d2)` random cells of the rectangle spanned by `d1`
/// and `d2` (row first, then column, for each cell).
pub fn sample_positions(d1: Pos, d2: Pos, rng: &mut rand::rngs::StdRng) -> (samples: Vec<Pos>)
    requires
        sample_count(d1, d2) <= usize::MAX,
    ensures
        samples.len() == sample_count(d1, d2),
        forall|i: int| 0 <= i < samples.len() ==> #[trigger] in_sampling_box(d1, d2, samples@[i]),
{
    let (rstart, rend) = if d1.0 <= d2.0 { (d1.0, d2.0) } else { (d2.0, d1.0) };
    let (cstart, cend) = if d1.1 <= d2.1 { (d1.1, d2.1) } else { (d2.1, d1.1) };
    let height = rend - rstart;
    let width = cend - cstart;
    let a = height / SAMPLING_THRESHOLD;
    let b = width / SAMPLING_THRESHOLD;
    proof {
        assert(a * b <= usize::MAX);
        assert(a * b > 0 ==> a > 0 && b > 0) by (nonlinear_arith)
            requires
                a >= 0,
                b >= 0,
        ;
    }
    let count = a * b;
    let mut samples: Vec<Pos> = Vec::new();
    let mut k: usize = 0;
    while k < count
        invariant
            0 <= k <= count,
            count == sample_count(d1, d2),
            samples.len() == k,
            count > 0 ==> rstart < rend && cstart < cend,
            forall|i: int| 0 <= i < samples.len() ==> #[trigger] in_sampling_box(d1, d2, samples@[i]),
            rstart == (if d1.0 <= d2.0 { d1.0 } else { d2.0 }),
            rend == (if d1.0 <= d2.0 { d2.0 } else { d1.0 }),
            cstart == (if d1.1 <= d2.1 { d1.1 } else { d2.1 }),
            cend == (if d1.1 <= d2.1 { d2.1 } else { d1.1 }),
        decreases count - k,
    {
        let r = std_rng_gen_range(rng, rstart, rend);
        let c = std_rng_gen_range(rng, cstart, cend);
        samples.push((r, c));
        k += 1;
    }
    samples
}

/// The strength of each sample (all of them broken).
pub open spec fn sample_costs(state: Seq<Vec<State>>, samples: Seq<Pos>) -> Seq<int> {
    Seq::new(samples.len(), |i: int| cell(state, samples[i])->Destroyed_0 as int)
}

/// The broken sample of least strength (the first on ties); `default` when
/// there is no sample or none is below `INF`.
pub fn pick_cheapest(field: &Field, default: Pos, samples: &Vec<Pos>) -> (best: Pos)
    requires
        field.well_formed(),
        forall|i: int|
            0 <= i < samples.len() ==> #[trigger] samples@[i].0 < field.n && samples@[i].1 < field.n
                && cell(field.state@, samples@[i]) is Destroyed,
    ensures
        exists|k: int|
            first_min_below(sample_costs(field.state@, samples@), INF as int, k) && best == (if (exists|i: int|
                0 <= i < samples.len() && #[trigger] sample_costs(field.state@, samples@)[i] < INF) {
                samples@[k]
            } else {
                default
            }),
{
    let ghost costs = sample_costs(field.state@, samples@);
    let mut best = default;
    let mut best_cost: u64 = INF;
    let mut idx: usize = 0;
    let mut i: usize = 0;
    while i < samples.len()
        invariant
            field.well_formed(),
            0 <= i <= samples.len(),
            costs == sample_costs(field.state@, samples@),
            forall|q: int|
                0 <= q < samples.len() ==> #[trigger] samples@[q].0 < field.n && samples@[q].1 < field.n
                    && cell(field.state@, samples@[q]) is Destroyed,
            best_cost <= INF,
            (exists|q: int| 0 <= q < i && #[trigger] costs[q] < INF) ==> {
                &&& 0 <= idx < i
                &&& best_cost == costs[idx as int]
                &&& best == samples@[idx as int]
                &&& forall|q: int| 0 <= q < i ==> best_cost <= #[trigger] costs[q]
                &&& forall|q: int| 0 <= q < idx ==> best_cost < #[trigger] costs[q]
            },
            !(exists|q: int| 0 <= q < i && #[trigger] costs[q] < INF) ==> idx == 0 && best_cost == INF
                && best == default,
        decreases samples.len() - i,
    {
        let p = samples[i];
        proof {
            assert(samples@[i as int].0 < field.n);
        }
        let cost = field.strength(p);
        proof {
            assert(usize::MAX <= u64::MAX);
        }
        if best_cost > cost as u64 {
            best_cost = cost as u64;
            best = p;
            idx = i;
        }
        proof {
            if !(exists|q: int| 0 <= q < i && #[trigger] costs[q] < INF) {
                if costs[i as int] < INF {
                    assert(exists|q: int| 0 <= q < i + 1 && #[trigger] costs[q] < INF);
                } else {
                    assert forall|q: int| 0 <= q < i + 1 implies !(#[trigger] costs[q] < INF) by {}
                }
            } else {
                let w = choose|q: int| 0 <= q < i && #[trigger] costs[q] < INF;
                assert(0 <= w < i + 1 && costs[w] < INF);
            }
        }
        i += 1;
    }
    proof {
        if !(exists|q: int| 0 <= q < samples.len() && #[trigger] costs[q] < INF) {
            assert(first_min_below(costs, INF as int, 0));
        } else {
            assert(first_min_below(costs, INF as int, idx as int));
        }
    }
    best
}

/// The sample that `pick_cheapest` chooses.
pub open spec fn cheapest(state: Seq<Vec<State>>, default: Pos, samples: Seq<Pos>) -> Pos {
    if exists|i: int| 0 <= i < samples.len() && #[trigger] sample_costs(state, samples)[i] < INF {
        samples[choose|k: int| first_min_below(sample_costs(state, samples), INF as int, k)]
    } else {
        default
    }
}

/// A segment whose rectangle is being sampled.
pub struct Sampling {
    pub start: Pos,
    pub end: Pos,
    pub samples: Vec<Pos>,
    /// whether this is the second sampling of the segment
    pub second: bool,
}

/// The dig from a source to a house, as a plan that hands out the cells to
/// break one batch at a time.
pub struct TunnelPlan {
    /// segments still to dig; the last one is next
    pub stack: Vec<(Pos, Pos)>,
    /// the segment whose samples were handed out last
    pub pending: Option<Sampling>,
}

/// The cell lies in the `n x n` square.
pub open spec fn on_board(p: Pos, n: int) -> bool {
    p.0 < n && p.1 < n
}

/// Segment `k` of `segs` ends where segment `k + 1` starts.
pub open spec fn seg_joins(segs: Seq<(Pos, Pos)>, k: int) -> bool {
    segs[k].1 == segs[k + 1].0
}

/// Each segment of `segs` starts where the one before it ends.
pub open spec fn segs_joined(segs: Seq<(Pos, Pos)>) -> bool {
    forall|k: int| 0 <= k < segs.len() - 1 ==> #[trigger] seg_joins(segs, k)
}

impl TunnelPlan {
    /// The segments still to dig, in the order they are dug: the pending
    /// one first, then the stack from its top.
    pub open spec fn remaining(&self) -> Seq<(Pos, Pos)> {
        let rest = self.stack@.reverse();
        match self.pending {
            Some(sp) => seq![(sp.start, sp.end)] + rest,
            None => rest,
        }
    }

    /// Every cell the plan knows lies in the `n x n` square.
    pub open spec fn on_board(&self, n: int) -> bool {
        &&& forall|i: int|
            0 <= i < self.stack.len() ==> on_board(#[trigger] self.stack@[i].0, n) && on_board(
                self.stack@[i].1,
                n,
            )
        &&& self.pending matches Some(sp) ==> {
            &&& on_board(sp.start, n)
            &&& on_board(sp.end, n)
            &&& forall|i: int| 0 <= i < sp.samples.len() ==> on_board(#[trigger] sp.samples@[i], n)
            &&& sp.samples.len() > 0
            &&& sp.samples.len() == sample_count(sp.start, sp.end)
        }
    }

    /// The pending samples are all broken in `field`.
    pub open spec fn samples_broken(&self, field: &Field) -> bool {
        self.pending matches Some(sp) ==> forall|i: int|
            0 <= i < sp.samples.len() ==> #[trigger] cell(field.state@, sp.samples@[i]) is Destroyed
    }

    /// The plan of the dig from `start` to `end`.
    pub fn new(start: Pos, end: Pos) -> (plan: Self)
        ensures
            plan.stack@ == seq![(start, end)],
            plan.pending is None,
            plan.remaining() == seq![(start, end)],
            segs_joined(plan.remaining()),
    {
        let plan = TunnelPlan { stack: vec![(start, end)], pending: None };
        proof {
            assert(plan.stack@.reverse() =~= seq![(start, end)]);
        }
        plan
    }

    /// Takes the next segment: `None` when there is none; its straight dig
    /// when it is short or its rectangle holds no sample; otherwise its
    /// samples, which become pending.
    pub fn start_segment(&mut self, n: usize, rng: &mut rand::rngs::StdRng) -> (cells: Vec<Pos>)
        requires
            old(self).pending is None,
            old(self).on_board(n as int),
            board_fits(n as int),
        ensures
            final(self).on_board(n as int),
            forall|i: int| 0 <= i < cells.len() ==> on_board(#[trigger] cells@[i], n as int),
            old(self).stack.len() == 0 ==> cells.len() == 0 && final(self).stack@ == old(self).stack@
                && final(self).pending is None,
            old(self).stack.len() > 0 ==> {
                let (s, e) = old(self).stack@.last();
                &&& final(self).stack@ == old(self).stack@.drop_last()
                &&& if manhattan(s, e) < SAMPLING_THRESHOLD || sample_count(s, e) == 0 {
                    cells@ == tunnel_cells(s, e) && final(self).pending is None
                } else {
                    final(self).pending matches Some(sp) && sp.start == s && sp.end == e && !sp.second
                        && cells@ == sp.samples@ && sp.samples.len() == sample_count(s, e)
                }
            },
            old(self).stack.len() > 0 && final(self).pending is None ==> final(self).remaining() == old(
                self,
            ).remaining().drop_first(),
            final(self).pending is Some ==> final(self).remaining() == old(self).remaining(),
            segs_joined(old(self).remaining()) ==> segs_joined(final(self).remaining()),
    {
        match self.stack.pop() {
            None => Vec::new(),
            Some((start, end)) => {
                proof {
                    lemma_remaining_pop(old(self).stack@);
                    if segs_joined(old(self).remaining()) {
                        lemma_joined_drop_first(old(self).remaining());
                    }
                    assert(on_board(old(self).stack@.last().0, n as int));
                    assert(start.0 < n && start.1 < n && end.0 < n && end.1 < n);
                    lemma_count_fits(start, end, n);
                    assert forall|i: int| 0 <= i < self.stack.len() implies on_board(#[trigger] self.stack@[i].0, n as int)
                        && on_board(self.stack@[i].1, n as int) by {
                        assert(self.stack@[i] == old(self).stack@[i]);
                    }
                }
                if Vec2::dist(&start, &end) < SAMPLING_THRESHOLD {
                    let cells = tunnel_route(start, end);
                    proof {
                        lemma_tunnel_on_board(start, end, n as int);
                    }
                    cells
                } else {
                    let samples = sample_positions(start, end, rng);
                    if samples.len() == 0 {
                        let cells = tunnel_route(start, end);
                        proof {
                            lemma_tunnel_on_board(start, end, n as int);
                        }
                        cells
                    } else {
                        let cells = copy_cells(&samples);
                        proof {
                            assert forall|i: int| 0 <= i < samples.len() implies on_board(#[trigger] samples@[i], n as int) by {
                                assert(in_sampling_box(start, end, samples@[i]));
                            }
                        }
                        self.pending = Some(Sampling { start, end, samples, second: false });
                        proof {
                            assert(self.remaining() =~= old(self).remaining());
                        }
                        cells
                    }
                }
            },
        }
    }

    /// Acts on the pending samples, all broken by now. After the first
    /// sampling: the straight dig of the segment when the cheapest sample is
    /// its start, else a second set of samples (then pending). After the
    /// second sampling: the segment is split at the cheapest sample, both
    /// halves are stacked (the first half on top) and `None` is returned.
    pub fn finish_sampling(&mut self, field: &Field, rng: &mut rand::rngs::StdRng) -> (cells: Option<Vec<Pos>>)
        requires
            old(self).pending is Some,
            old(self).on_board(field.n as int),
            old(self).samples_broken(field),
            field.well_formed(),
            board_fits(field.n as int),
        ensures
            final(self).on_board(field.n as int),
            cells matches Some(cs) ==> forall|i: int| 0 <= i < cs.len() ==> on_board(#[trigger] cs@[i], field.n as int),
            cells matches Some(cs) ==> cs.len() > 0,
            ({
                let sp = old(self).pending->0;
                let w = cheapest(field.state@, sp.start, sp.samples@);
                if !sp.second {
                    &&& final(self).stack@ == old(self).stack@
                    &&& w == sp.start ==> (cells matches Some(cs) && cs@ == tunnel_cells(sp.start, sp.end)
                        && final(self).pending is None)
                    &&& w != sp.start ==> (cells matches Some(cs) && final(self).pending matches Some(sp2)
                        && sp2.start == sp.start && sp2.end == sp.end && sp2.second && cs@ == sp2.samples@
                        && sp2.samples.len() == sample_count(sp.start, sp.end))
                } else {
                    &&& cells is None
                    &&& final(self).pending is None
                    &&& final(self).stack@ == old(self).stack@.push((w, sp.end)).push((sp.start, w))
                    &&& final(self).remaining() == seq![(sp.start, w), (w, sp.end)] + old(self).remaining().drop_first()
                }
            }),
            cells matches Some(_) && final(self).pending is None ==> final(self).remaining() == old(
                self,
            ).remaining().drop_first(),
            final(self).pending is Some ==> final(self).remaining() == old(self).remaining(),
            segs_joined(old(self).remaining()) ==> segs_joined(final(self).remaining()),
    {
        let sp = self.pending.take().unwrap();
        let n = field.n;
        let ghost rest = old(self).stack@.reverse();
        proof {
            assert(old(self).remaining() == seq![(sp.start, sp.end)] + rest);
            assert(old(self).remaining().drop_first() =~= rest);
            if segs_joined(old(self).remaining()) {
                lemma_joined_drop_first(old(self).remaining());
            }
        }
        proof {
            assert forall|i: int| 0 <= i < sp.samples.len() implies #[trigger] sp.samples@[i].0 < field.n
                && sp.samples@[i].1 < field.n && cell(field.state@, sp.samples@[i]) is Destroyed by {
                assert(on_board(sp.samples@[i], n as int));
            }
        }
        let chosen = pick_cheapest(field, sp.start, &sp.samples);
        proof {
            let costs = sample_costs(field.state@, sp.samples@);
            let k = choose|k: int| first_min_below(costs, INF as int, k) && chosen == (if (exists|i: int|
                0 <= i < sp.samples.len() && #[trigger] sample_costs(field.state@, sp.samples@)[i] < INF) {
                sp.samples@[k]
            } else {
                sp.start
            });
            lemma_first_min_unique(costs, INF as int, k);
            assert(chosen == cheapest(field.state@, sp.start, sp.samples@));
            assert(on_board(chosen, n as int)) by {
                if exists|i: int| 0 <= i < sp.samples.len() && #[trigger] costs[i] < INF {
                    assert(0 <= k < sp.samples.len());
                }
            }
        }
        if !sp.second {
            if chosen.0 == sp.start.0 && chosen.1 == sp.start.1 {
                proof {
                    lemma_tunnel_on_board(sp.start, sp.end, n as int);
                }
                Some(tunnel_route(sp.start, sp.end))
            } else {
                proof {
                    lemma_count_fits(sp.start, sp.end, n);
                }
                let samples = sample_positions(sp.start, sp.end, rng);
                let cells = copy_cells(&samples);
                proof {
                    assert forall|i: int| 0 <= i < samples.len() implies on_board(#[trigger] samples@[i], n as int) by {
                        assert(in_sampling_box(sp.start, sp.end, samples@[i]));
                    }
                }
                self.pending = Some(Sampling { start: sp.start, end: sp.end, samples, second: true });
                proof {
                    assert(self.remaining() =~= old(self).remaining());
                }
                Some(cells)
            }
        } else {
            self.stack.push((chosen, sp.end));
            self.stack.push((sp.start, chosen));
            proof {
                assert(self.stack@.reverse() =~= seq![(sp.start, chosen), (chosen, sp.end)] + rest);
                if segs_joined(old(self).remaining()) {
                    lemma_joined_split(old(self).remaining(), chosen);
                }
            }
            None
        }
    }

    /// The next cells to break: a straight dig or a set of samples; empty
    /// once the dig is complete.
    pub fn next_cells(&mut self, field: &Field, rng: &mut rand::rngs::StdRng) -> (cells: Vec<Pos>)
        requires
            old(self).on_board(field.n as int),
            old(self).samples_broken(field),
            field.well_formed(),
            board_fits(field.n as int),
        ensures
            final(self).on_board(field.n as int),
            forall|i: int| 0 <= i < cells.len() ==> on_board(#[trigger] cells@[i], field.n as int),
            final(self).pending matches Some(sp) ==> cells@ == sp.samples@,
            cells.len() == 0 ==> final(self).stack.len() == 0 && final(self).pending is None,
    {
        if self.pending.is_some() {
            match self.finish_sampling(field, rng) {
                Some(cells) => {
                    return cells;
                },
                None => {},
            }
        }
        self.start_segment(field.n, rng)
    }
}

/// The cells of a straight dig between two cells of the square stay in it.
proof fn lemma_tunnel_on_board(s: Pos, e: Pos, n: int)
    requires
        on_board(s, n),
        on_board(e, n),
    ensures
        forall|i: int| 0 <= i < tunnel_cells(s, e).len() ==> on_board(#[trigger] tunnel_cells(s, e)[i], n),
        tunnel_cells(s, e).len() > 0,
{
    let a = crate::ahc018::geometry::column_cells(s.1, s.0, e.0);
    let b = crate::ahc018::geometry::row_cells(e.0, s.1, e.1);
    assert forall|i: int| 0 <= i < tunnel_cells(s, e).len() implies on_board(#[trigger] tunnel_cells(s, e)[i], n) by {
        if i < a.len() {
            assert(tunnel_cells(s, e)[i] == a[i]);
        } else {
            assert(tunnel_cells(s, e)[i] == b[i - a.len()]);
        }
    }
}

/// The sample count and the distance of any two cells of the `n x n`
/// square fit in a `usize`.
pub open spec fn board_fits(n: int) -> bool {
    &&& 2 * (n - 1) <= usize::MAX
    &&& ((n - 1) / SAMPLING_THRESHOLD as int) * ((n - 1) / SAMPLING_THRESHOLD as int) <= usize::MAX
}

/// On a square that `board_fits`, the sample count and the distance of two
/// of its cells fit.
proof fn lemma_count_fits(s: Pos, e: Pos, n: usize)
    requires
        on_board(s, n as int),
        on_board(e, n as int),
        board_fits(n as int),
    ensures
        sample_count(s, e) <= usize::MAX,
        dist_fits(s, e),
{
    let h = gap(s.0 as int, e.0 as int);
    let w = gap(s.1 as int, e.1 as int);
    let t = SAMPLING_THRESHOLD as int;
    let a = h / t;
    let b = w / t;
    let q = (n - 1) / t;
    vstd::arithmetic::div_mod::lemma_div_is_ordered(h, n - 1, t);
    vstd::arithmetic::div_mod::lemma_div_is_ordered(w, n - 1, t);
    vstd::arithmetic::div_mod::lemma_div_pos_is_pos(h, t);
    vstd::arithmetic::div_mod::lemma_div_pos_is_pos(w, t);
    assert(a * b <= q * q) by (nonlinear_arith)
        requires
            0 <= a <= q,
            0 <= b <= q,
    ;
}

/// Popping the top of the stack takes the first segment still to dig.
proof fn lemma_remaining_pop(stack: Seq<(Pos, Pos)>)
    requires
        stack.len() > 0,
    ensures
        stack.drop_last().reverse() == stack.reverse().drop_first(),
        stack.reverse()[0] == stack.last(),
{
    assert(stack.drop_last().reverse() =~= stack.reverse().drop_first());
}

/// Dropping the first segment keeps the rest joined.
proof fn lemma_joined_drop_first(segs: Seq<(Pos, Pos)>)
    requires
        segs.len() > 0,
        segs_joined(segs),
    ensures
        segs_joined(segs.drop_first()),
{
    let t = segs.drop_first();
    assert forall|k: int| 0 <= k < t.len() - 1 implies #[trigger] seg_joins(t, k) by {
        assert(seg_joins(segs, k + 1));
    }
}

/// Splitting the first segment at a cell keeps the segments joined.
proof fn lemma_joined_split(segs: Seq<(Pos, Pos)>, w: Pos)
    requires
        segs.len() > 0,
        segs_joined(segs),
    ensures
        segs_joined(seq![(segs[0].0, w), (w, segs[0].1)] + segs.drop_first()),
{
    let t = seq![(segs[0].0, w), (w, segs[0].1)] + segs.drop_first();
    assert forall|k: int| 0 <= k < t.len() - 1 implies #[trigger] seg_joins(t, k) by {
        if k >= 1 {
            assert(seg_joins(segs, k - 1));
        }
    }
}

/// The straight digs of joined segments, one after the other.
pub open spec fn segs_cells(segs: Seq<(Pos, Pos)>) -> Seq<Pos>
    decreases segs.len(),
{
    if segs.len() == 0 {
        seq![]
    } else {
        tunnel_cells(segs[0].0, segs[0].1) + segs_cells(segs.drop_first())
    }
}

/// Digging joined segments straight, one after the other, gives a chain of
/// cells from the start of the first to the end of the last: the dig that a
/// plan hands out joins its source to its house.
pub proof fn lemma_segments_chain(segs: Seq<(Pos, Pos)>)
    requires
        segs.len() > 0,
        segs_joined(segs),
    ensures
        is_chain(segs_cells(segs), segs[0].0, segs.last().1),
    decreases segs.len(),
{
    lemma_tunnel_chain(segs[0].0, segs[0].1);
    if segs.len() == 1 {
        assert(segs_cells(segs.drop_first()) == Seq::<Pos>::empty());
        assert(segs_cells(segs) =~= tunnel_cells(segs[0].0, segs[0].1));
    } else {
        let rest = segs.drop_first();
        lemma_joined_drop_first(segs);
        lemma_segments_chain(rest);
        assert(seg_joins(segs, 0));
        lemma_chain_concat(
            tunnel_cells(segs[0].0, segs[0].1),
            segs_cells(rest),
            segs[0].0,
            segs[0].1,
            rest[0].0,
            rest.last().1,
        );
    }
}

} // verus!
