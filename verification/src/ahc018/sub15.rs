//! Repeatedly joins the house and source (or dug cell) whose way looks
//! cheapest, judged by three cells sampled on the way, digging each cell with
//! a power that grows with every failed dig.
use vstd::prelude::*;
use std::collections::BTreeSet;
use vstd::std_specs::iter::IteratorSpec;
use vstd::std_specs::cmp::OrdSpec;
use crate::ahc018::geometry::{
    Pos,
    State,
    Reply,
    Vec2,
    UsizeTools,
    reply_of,
    cell,
    square_grid,
    rock_grid,
    record_dig,
    dig_outcome,
    NotRock,
    dist_fits,
    manhattan,
    pos_lt,
    INF,
};
use crate::ahc018::sets::{set_of, set_min, nearest_member, is_set_min, is_nearest_member};

verus! {

broadcast use vstd::std_specs::btree::group_btree_axioms;

/// Seed of the generator.
pub const SEED: u64 = 20021213;

/// The dig costs the game uses.
pub open spec fn known_cost(c: usize) -> bool {
    c == 1 || c == 2 || c == 4 || c == 8 || c == 16 || c == 32 || c == 64 || c == 128
}

/// The power of the first dig of a cell, by dig cost.
pub open spec fn p_init_spec(c: usize) -> usize {
    if c == 1 {
        20
    } else if c == 2 {
        25
    } else if c == 4 {
        30
    } else if c == 8 {
        40
    } else if c == 16 {
        50
    } else if c == 32 {
        64
    } else if c == 64 {
        128
    } else {
        256
    }
}

/// How much the power grows after each failed dig, by dig cost.
pub open spec fn p_delta_spec(c: usize) -> usize {
    if c == 1 {
        0
    } else if c == 2 {
        0
    } else if c == 4 {
        2
    } else if c == 8 {
        10
    } else if c == 16 {
        10
    } else if c == 32 {
        32
    } else if c == 64 {
        50
    } else {
        64
    }
}

/// The power of the first dig of a cell.
pub fn p_init(c: usize) -> (p: usize)
    requires
        known_cost(c),
    ensures
        p == p_init_spec(c),
{
    match c {
        1 => 20,
        2 => 25,
        4 => 30,
        8 => 40,
        16 => 50,
        32 => 64,
        64 => 128,
        _ => 256,
    }
}

/// The growth of the power after each failed dig.
pub fn p_delta(c: usize) -> (p: usize)
    requires
        known_cost(c),
    ensures
        p == p_delta_spec(c),
{
    match c {
        1 => 0,
        2 => 0,
        4 => 2,
        8 => 10,
        16 => 10,
        32 => 32,
        64 => 50,
        _ => 64,
    }
}

/// The three cells whose strength predicts the cost of the way from `start`
/// to `end`: the middle of the column of `start`, the corner under `start`,
/// and the middle of the row of `end`.
pub open spec fn predict_cell(start: Pos, end: Pos, j: int) -> Pos {
    let (sr, sc) = start;
    let (er, ec) = end;
    if j == 0 {
        (((sr + er) / 2) as usize, sc)
    } else if j == 1 {
        (er, sc)
    } else {
        (er, ((sc + ec) / 2) as usize)
    }
}

/// The cell is a predicting cell of the way from some house to some source.
pub open spec fn is_predict_cell_of(houses: Set<Pos>, sources: Set<Pos>, p: Pos) -> bool {
    exists|h: Pos, s: Pos, j: int|
        houses.contains(h) && sources.contains(s) && 0 <= j < 3 && p == #[trigger] predict_cell(h, s, j)
}

/// `(h1, s1)` comes before `(h2, s2)`: by house, then by source.
pub open spec fn pair_lt(h1: Pos, s1: Pos, h2: Pos, s2: Pos) -> bool {
    pos_lt(h1, h2) || (h1 == h2 && pos_lt(s1, s2))
}

/// `s` lists the cells of `set` in increasing row-major order.
pub open spec fn sorted_listing(set: Set<Pos>, s: Seq<Pos>) -> bool {
    &&& s.to_set() == set
    &&& forall|i: int, j: int| 0 <= i < j < s.len() ==> #[trigger] pos_lt(s[i], s[j])
}

/// The rest of a sorted listing lists the rest of the set.
proof fn lemma_sorted_listing_rest(set: Set<Pos>, a: Seq<Pos>)
    requires
        sorted_listing(set, a),
        a.len() > 0,
    ensures
        sorted_listing(set.remove(a[0]), a.drop_first()),
        forall|x: Pos| set.contains(x) && x != a[0] ==> #[trigger] pos_lt(a[0], x),
{
    let t = a.drop_first();
    assert forall|x: Pos| set.contains(x) && x != a[0] implies #[trigger] pos_lt(a[0], x) by {
        assert(a.to_set().contains(x));
        let k = choose|k: int| 0 <= k < a.len() && a[k] == x;
        assert(k != 0);
        assert(pos_lt(a[0], a[k]));
    }
    assert forall|x: Pos| t.to_set().contains(x) <==> set.remove(a[0]).contains(x) by {
        if t.to_set().contains(x) {
            let k = choose|k: int| 0 <= k < t.len() && t[k] == x;
            assert(a[k + 1] == x);
            assert(pos_lt(a[0], a[k + 1]));
            assert(a.to_set().contains(x));
        }
        if set.remove(a[0]).contains(x) {
            assert(a.to_set().contains(x));
            let k = choose|k: int| 0 <= k < a.len() && a[k] == x;
            assert(k != 0);
            assert(t[k - 1] == x);
            assert(t.to_set().contains(x));
        }
    }
    assert(t.to_set() =~= set.remove(a[0]));
    assert forall|i: int, j: int| 0 <= i < j < t.len() implies #[trigger] pos_lt(t[i], t[j]) by {
        assert(pos_lt(a[i + 1], a[j + 1]));
    }
}

/// A set has one sorted listing.
pub proof fn lemma_sorted_listing_unique(set: Set<Pos>, a: Seq<Pos>, b: Seq<Pos>)
    requires
        sorted_listing(set, a),
        sorted_listing(set, b),
    ensures
        a == b,
    decreases a.len(),
{
    if a.len() == 0 {
        if b.len() > 0 {
            assert(b.to_set().contains(b[0]));
            assert(!a.to_set().contains(b[0]));
        }
        assert(a =~= b);
    } else {
        if b.len() == 0 {
            assert(a.to_set().contains(a[0]));
            assert(!b.to_set().contains(a[0]));
        }
        assert(a.to_set().contains(a[0]));
        assert(b.to_set().contains(b[0]));
        lemma_sorted_listing_rest(set, a);
        lemma_sorted_listing_rest(set, b);
        if a[0] != b[0] {
            assert(pos_lt(a[0], b[0]));
            assert(pos_lt(b[0], a[0]));
        }
        lemma_sorted_listing_unique(set.remove(a[0]), a.drop_first(), b.drop_first());
        assert(a =~= seq![a[0]] + a.drop_first());
        assert(b =~= seq![b[0]] + b.drop_first());
    }
}

/// The three predicting cells of the way from `h` to each of `ss`, in order.
pub open spec fn house_cells(h: Pos, ss: Seq<Pos>) -> Seq<Pos>
    decreases ss.len(),
{
    if ss.len() == 0 {
        seq![]
    } else {
        let s = ss.last();
        house_cells(h, ss.drop_last()) + seq![predict_cell(h, s, 0), predict_cell(h, s, 1), predict_cell(h, s, 2)]
    }
}

/// `house_cells` of each of `hs` with the sources `ss`, one house after the other.
pub open spec fn pair_cells(hs: Seq<Pos>, ss: Seq<Pos>) -> Seq<Pos>
    decreases hs.len(),
{
    if hs.len() == 0 {
        seq![]
    } else {
        pair_cells(hs.drop_last(), ss) + house_cells(hs.last(), ss)
    }
}

/// A set of cells is walked in increasing row-major order.
proof fn lemma_iter_sorted(m: &BTreeSet<Pos>)
    ensures
        sorted_listing(m@, vstd::std_specs::btree::spec_btree_keys_iter(m).remaining().unref()),
{
    broadcast use vstd::laws_cmp::group_laws_cmp;
    let r = vstd::std_specs::btree::spec_btree_keys_iter(m).remaining();
    let u = r.unref();
    assert(vstd::laws_cmp::obeys_cmp::<Pos>());
    assert(vstd::laws_cmp::obeys_cmp::<&Pos>());
    assert(vstd::std_specs::btree::increasing_seq(r));
    vstd::std_specs::btree::axiom_increasing_seq_meaning::<&Pos>(r);
    assert forall|i: int, j: int| 0 <= i < j < u.len() implies #[trigger] pos_lt(u[i], u[j]) by {
        let a: &Pos = r[i];
        let b: &Pos = r[j];
        assert(OrdSpec::cmp_spec(&a, &b) is Less);
        assert(u[i] == *r[i] && u[j] == *r[j]);
    }
}

/// The field.
pub struct Field {
    /// the state of each cell
    pub state: Vec<Vec<State>>,
    /// the sources, and every cell dug so far
    pub sources: BTreeSet<Pos>,
    /// the houses still without water
    pub houses: BTreeSet<Pos>,
    /// side of the square
    pub n: usize,
    /// power of the first dig of a cell
    pub p_init: usize,
    /// growth of the power after each failed dig
    pub p_delta: usize,
}

impl Field {
    /// The grid is `n x n`.
    pub open spec fn well_formed(&self) -> bool {
        square_grid(self.state@, self.n as int)
    }

    /// The strength of a broken cell.
    pub open spec fn strength_of(&self, p: Pos) -> int {
        cell(self.state@, p)->Destroyed_0 as int
    }

    /// The predicted cost of the way from `start` to `end`: the sum of the
    /// strengths of its three predicting cells times the distance.
    pub open spec fn predicted(&self, start: Pos, end: Pos) -> int {
        (self.strength_of(predict_cell(start, end, 0)) + self.strength_of(predict_cell(start, end, 1))
            + self.strength_of(predict_cell(start, end, 2))) * manhattan(start, end)
    }

    /// Two fields that agree on the strengths of the predicting cells of a
    /// way but one, `predict_cell(start, end, j)`, predict costs that differ
    /// by the change of that strength times the distance: each of the three
    /// cells counts once, so a stronger cell, whichever of the three it is,
    /// raises the prediction of a way of positive length.
    pub proof fn lemma_prediction_counts_each_cell(f1: &Field, f2: &Field, start: Pos, end: Pos, j: int)
        requires
            0 <= j < 3,
            forall|k: int|
                0 <= k < 3 && k != j ==> #[trigger] f2.strength_of(predict_cell(start, end, k)) == f1.strength_of(
                    predict_cell(start, end, k),
                ),
        ensures
            f2.predicted(start, end) - f1.predicted(start, end) == (f2.strength_of(predict_cell(start, end, j))
                - f1.strength_of(predict_cell(start, end, j))) * manhattan(start, end),
    {
        let d = manhattan(start, end);
        let a1 = f1.strength_of(predict_cell(start, end, 0));
        let b1 = f1.strength_of(predict_cell(start, end, 1));
        let c1 = f1.strength_of(predict_cell(start, end, 2));
        let a2 = f2.strength_of(predict_cell(start, end, 0));
        let b2 = f2.strength_of(predict_cell(start, end, 1));
        let c2 = f2.strength_of(predict_cell(start, end, 2));
        assert((a2 + b2 + c2) * d - (a1 + b1 + c1) * d == ((a2 - a1) + (b2 - b1) + (c2 - c1)) * d)
            by (nonlinear_arith);
        if j == 0 {
            assert(b2 == b1 && c2 == c1);
        } else if j == 1 {
            assert(a2 == a1 && c2 == c1);
        } else {
            assert(a2 == a1 && b2 == b1);
        }
    }

    /// A way of length zero, or one whose three predicting cells all broke
    /// at strength zero, is predicted to cost nothing.
    pub proof fn lemma_prediction_zero(&self, start: Pos, end: Pos)
        ensures
            manhattan(start, end) == 0 ==> self.predicted(start, end) == 0,
            (forall|k: int| 0 <= k < 3 ==> #[trigger] self.strength_of(predict_cell(start, end, k)) == 0)
                ==> self.predicted(start, end) == 0,
    {
        let d = manhattan(start, end);
        let w = self.strength_of(predict_cell(start, end, 0)) + self.strength_of(predict_cell(start, end, 1))
            + self.strength_of(predict_cell(start, end, 2));
        assert(d == 0 ==> w * d == 0) by (nonlinear_arith);
        if forall|k: int| 0 <= k < 3 ==> #[trigger] self.strength_of(predict_cell(start, end, k)) == 0 {
            assert(self.strength_of(predict_cell(start, end, 0)) == 0);
            assert(self.strength_of(predict_cell(start, end, 1)) == 0);
            assert(self.strength_of(predict_cell(start, end, 2)) == 0);
            assert(0 * d == 0) by (nonlinear_arith);
        }
    }

    /// The three predicting cells of a way are on the board and broken.
    pub open spec fn predictable(&self, start: Pos, end: Pos) -> bool {
        forall|j: int|
            0 <= j < 3 ==> #[trigger] predict_cell(start, end, j).0 < self.n && predict_cell(start, end, j).1
                < self.n && cell(self.state@, predict_cell(start, end, j)) is Destroyed
    }

    /// A field of untouched rock; digs of cost `c` start at `p_init(c)` and
    /// grow by `p_delta(c)`.
    pub fn new(n: usize, c: usize, sources: &Vec<Pos>, houses: &Vec<Pos>) -> (f: Self)
        requires
            known_cost(c),
        ensures
            f.well_formed(),
            f.n == n,
            f.p_init == p_init_spec(c),
            f.p_delta == p_delta_spec(c),
            f.sources@ == sources@.to_set(),
            f.houses@ == houses@.to_set(),
            forall|r: int, k: int| 0 <= r < n && 0 <= k < n ==> #[trigger] f.state@[r]@[k] == State::Rock(0),
    {
        Field {
            state: rock_grid(n),
            sources: set_of(sources),
            houses: set_of(houses),
            n,
            p_init: p_init(c),
            p_delta: p_delta(c),
        }
    }

    /// Records the reply `code` to a dig of power `x` at `pos`; a dig of a
    /// broken cell is refused with `Err(NotRock)` and changes nothing.
    pub fn damage(&mut self, pos: Pos, x: usize, code: isize) -> (reply: Result<Reply, NotRock>)
        requires
            old(self).well_formed(),
            pos.0 < old(self).n,
            pos.1 < old(self).n,
            cell(old(self).state@, pos) is Rock ==> cell(old(self).state@, pos)->Rock_0 + x <= usize::MAX,
        ensures
            final(self).well_formed(),
            final(self).n == old(self).n,
            final(self).p_init == old(self).p_init,
            final(self).p_delta == old(self).p_delta,
            final(self).sources == old(self).sources,
            final(self).houses == old(self).houses,
            dig_outcome(old(self).state@, final(self).state@, pos, x, code, reply),
    {
        record_dig(&mut self.state, pos, x, code)
    }

    /// The next dig that breaking `pos` takes after `tries` failed digs:
    /// power `p_init + tries * p_delta` while the cell is rock, `None` once
    /// it is broken.
    pub fn destroy_step(&self, pos: Pos, tries: usize) -> (x: Option<usize>)
        requires
            self.well_formed(),
            pos.0 < self.n,
            pos.1 < self.n,
            self.p_init + tries * self.p_delta <= usize::MAX,
        ensures
            x == (if cell(self.state@, pos) is Rock {
                Some((self.p_init + tries * self.p_delta) as usize)
            } else {
                None
            }),
    {
        proof {
            assert(self.state@[pos.0 as int].len() == self.n);
            assert(tries * self.p_delta <= usize::MAX) by (nonlinear_arith)
                requires
                    self.p_init + tries * self.p_delta <= usize::MAX,
                    self.p_init >= 0,
            ;
        }
        match self.state[pos.0][pos.1] {
            State::Rock(_) => Some(self.p_init + tries * self.p_delta),
            State::Destroyed(_) => None,
        }
    }

    /// Ends the breaking of `pos`: the cell joins the sources; returns its strength.
    pub fn finish_destroy(&mut self, pos: Pos) -> (s: usize)
        requires
            old(self).well_formed(),
            pos.0 < old(self).n,
            pos.1 < old(self).n,
            cell(old(self).state@, pos) is Destroyed,
        ensures
            s == cell(old(self).state@, pos)->Destroyed_0,
            final(self).sources@ == old(self).sources@.insert(pos),
            final(self).state == old(self).state,
            final(self).houses == old(self).houses,
            final(self).n == old(self).n,
            final(self).p_init == old(self).p_init,
            final(self).p_delta == old(self).p_delta,
    {
        proof {
            assert(self.state@[pos.0 as int].len() == self.n);
        }
        let s = match self.state[pos.0][pos.1] {
            State::Rock(d) => d,
            State::Destroyed(d) => d,
        };
        self.sources.insert(pos);
        s
    }

    /// The source nearest to `pos` (the smallest in row-major order among the
    /// nearest); `pos` itself when no source is nearer than `INF`.
    pub fn find_source(&self, pos: Pos) -> (src: Pos)
        requires
            forall|x: Pos| #[trigger] self.sources@.contains(x) ==> dist_fits(pos, x),
        ensures
            (exists|x: Pos| #[trigger] self.sources@.contains(x) && manhattan(pos, x) < INF) ==> is_nearest_member(
                self.sources@,
                pos,
                src,
            ),
            !(exists|x: Pos| #[trigger] self.sources@.contains(x) && manhattan(pos, x) < INF) ==> src == pos,
    {
        nearest_member(&self.sources, pos)
    }

    /// The predicted cost of the way from `start` to `end`, its three
    /// predicting cells being broken.
    pub fn predict_dist(&self, start: Pos, end: Pos) -> (d: usize)
        requires
            self.well_formed(),
            self.predictable(start, end),
            dist_fits(start, end),
            self.predicted(start, end) <= usize::MAX,
        ensures
            d == self.predicted(start, end),
    {
        let (sr, sc) = start;
        let (er, ec) = end;
        proof {
            assert(predict_cell(start, end, 0).0 < self.n);
            assert(predict_cell(start, end, 1).0 < self.n);
            assert(predict_cell(start, end, 2).0 < self.n);
            assert(self.state@[predict_cell(start, end, 0).0 as int].len() == self.n);
            assert(self.state@[predict_cell(start, end, 1).0 as int].len() == self.n);
            assert(self.state@[predict_cell(start, end, 2).0 as int].len() == self.n);
        }
        let p0 = (sr / 2 + er / 2 + (sr % 2 + er % 2) / 2, sc);
        let p1 = (er, sc);
        let p2 = (er, sc / 2 + ec / 2 + (sc % 2 + ec % 2) / 2);
        proof {
            assert(p0 == predict_cell(start, end, 0));
            assert(p2 == predict_cell(start, end, 2));
        }
        let w0 = strength_at(&self.state, p0);
        let w1 = strength_at(&self.state, p1);
        let w2 = strength_at(&self.state, p2);
        let dist = Vec2::dist(&start, &end);
        let sum = w0 as u128 + w1 as u128 + w2 as u128;
        proof {
            assert(self.predicted(start, end) == (w0 + w1 + w2) * dist);
            assert((w0 + w1 + w2) * dist <= usize::MAX);
            assert(dist > 0 ==> w0 + w1 + w2 <= usize::MAX) by (nonlinear_arith)
                requires
                    (w0 + w1 + w2) * dist <= usize::MAX,
                    w0 >= 0,
                    w1 >= 0,
                    w2 >= 0,
            ;
        }
        if dist == 0 {
            proof {
                assert((w0 + w1 + w2) * 0 == 0) by (nonlinear_arith);
            }
            0
        } else {
            (w0 + w1 + w2) * dist
        }
    }

    /// The predicting cells of the way from `h` to `s` are broken, and its
    /// distance and predicted cost fit in a `usize`.
    pub open spec fn pair_ready(&self, h: Pos, s: Pos) -> bool {
        self.predictable(h, s) && dist_fits(h, s) && self.predicted(h, s) <= usize::MAX
    }

    /// The strength of `p` when it is a broken cell of the board.
    fn broken_at(&self, p: Pos) -> (w: Option<usize>)
        requires
            self.well_formed(),
        ensures
            w == (if p.0 < self.n && p.1 < self.n && cell(self.state@, p) is Destroyed {
                Some(cell(self.state@, p)->Destroyed_0)
            } else {
                None
            }),
    {
        if p.0 < self.n && p.1 < self.n {
            proof {
                assert(self.state@[p.0 as int].len() == self.n);
            }
            match self.state[p.0][p.1] {
                State::Rock(_) => None,
                State::Destroyed(d) => Some(d),
            }
        } else {
            None
        }
    }

    /// Whether the way from `h` to `s` is ready to be predicted: `pair_ready`.
    pub fn pair_is_ready(&self, h: Pos, s: Pos) -> (ok: bool)
        requires
            self.well_formed(),
        ensures
            ok == self.pair_ready(h, s),
    {
        let (sr, sc) = h;
        let (er, ec) = s;
        let p0 = (sr / 2 + er / 2 + (sr % 2 + er % 2) / 2, sc);
        let p1 = (er, sc);
        let p2 = (er, sc / 2 + ec / 2 + (sc % 2 + ec % 2) / 2);
        proof {
            assert(p0 == predict_cell(h, s, 0));
            assert(p1 == predict_cell(h, s, 1));
            assert(p2 == predict_cell(h, s, 2));
        }
        let w0 = self.broken_at(p0);
        let w1 = self.broken_at(p1);
        let w2 = self.broken_at(p2);
        match (w0, w1, w2) {
            (Some(a), Some(b), Some(c)) => {
                proof {
                    assert forall|j: int| 0 <= j < 3 implies #[trigger] predict_cell(h, s, j).0 < self.n
                        && predict_cell(h, s, j).1 < self.n && cell(self.state@, predict_cell(h, s, j)) is Destroyed by {
                        if j == 0 {
                        } else if j == 1 {
                        } else {
                        }
                    }
                    assert(self.predictable(h, s));
                }
                let dr = UsizeTools::abs_diff(&sr, er);
                let dc = UsizeTools::abs_diff(&sc, ec);
                match dr.checked_add(dc) {
                    None => false,
                    Some(d) => {
                        let sum: u128 = a as u128 + b as u128 + c as u128;
                        proof {
                            assert(d == manhattan(h, s));
                            assert(self.predicted(h, s) == sum * d);
                        }
                        if d == 0 {
                            proof {
                                assert(sum * 0 == 0) by (nonlinear_arith);
                            }
                            true
                        } else if sum > usize::MAX as u128 {
                            proof {
                                assert(sum * d >= sum) by (nonlinear_arith)
                                    requires
                                        d >= 1,
                                        sum >= 0,
                                ;
                            }
                            false
                        } else {
                            (sum as usize).checked_mul(d).is_some()
                        }
                    },
                }
            },
            _ => {
                proof {
                    if w0 is None {
                        assert(!(predict_cell(h, s, 0).0 < self.n && predict_cell(h, s, 0).1 < self.n && cell(
                            self.state@,
                            predict_cell(h, s, 0),
                        ) is Destroyed));
                    } else if w1 is None {
                        assert(!(predict_cell(h, s, 1).0 < self.n && predict_cell(h, s, 1).1 < self.n && cell(
                            self.state@,
                            predict_cell(h, s, 1),
                        ) is Destroyed));
                    } else {
                        assert(!(predict_cell(h, s, 2).0 < self.n && predict_cell(h, s, 2).1 < self.n && cell(
                            self.state@,
                            predict_cell(h, s, 2),
                        ) is Destroyed));
                    }
                }
                false
            },
        }
    }

    /// Whether every way from a house to one of `sources` is ready to be
    /// predicted, as `get_nearest_pair` needs.
    pub fn pairs_ready(&self, sources: &BTreeSet<Pos>) -> (ok: bool)
        requires
            self.well_formed(),
        ensures
            ok == (forall|h: Pos, s: Pos|
                self.houses@.contains(h) && sources@.contains(s) ==> #[trigger] self.pair_ready(h, s)),
    {
        for house in it: self.houses.iter()
            invariant
                it.seq().unref().to_set() == self.houses@,
                self.well_formed(),
                forall|k: int, s: Pos|
                    0 <= k < it.index() && sources@.contains(s) ==> #[trigger] self.pair_ready(*it.seq()[k], s),
        {
            proof {
                assert(it.seq().unref()[it.index() as int] == *house);
                assert(it.seq().unref().contains(*house));
            }
            let h = *house;
            for src in it2: sources.iter()
                invariant
                    it2.seq().unref().to_set() == sources@,
                    self.well_formed(),
                    self.houses@.contains(h),
                    h == *it.seq()[it.index() as int],
                    0 <= it.index() < it.seq().len(),
                    forall|k: int, s: Pos|
                        0 <= k < it.index() && sources@.contains(s) ==> #[trigger] self.pair_ready(*it.seq()[k], s),
                    forall|k: int| 0 <= k < it2.index() ==> #[trigger] self.pair_ready(h, *it2.seq()[k]),
            {
                proof {
                    assert(it2.seq().unref()[it2.index() as int] == *src);
                    assert(it2.seq().unref().contains(*src));
                }
                if !self.pair_is_ready(h, *src) {
                    return false;
                }
            }
            proof {
                assert forall|ss: Pos| #[trigger] sources@.contains(ss) implies self.pair_ready(h, ss) by {
                    assert(sources@.contains(ss));
                }
            }
        }
        true
    }

    /// Some way from a house to a source of `sources` has a predicted cost
    /// under `INF`.
    pub open spec fn some_way_below_inf(&self, sources: Set<Pos>) -> bool {
        exists|h: Pos, s: Pos|
            self.houses@.contains(h) && sources.contains(s) && #[trigger] self.predicted(h, s) < INF
    }

    /// `(h, s)` is the way of least predicted cost from a house to a source
    /// of `sources`, the first such by house and then by source.
    pub open spec fn is_best_pair(&self, sources: Set<Pos>, h: Pos, s: Pos) -> bool {
        &&& self.houses@.contains(h)
        &&& sources.contains(s)
        &&& self.predicted(h, s) < INF
        &&& forall|h2: Pos, s2: Pos|
            self.houses@.contains(h2) && sources.contains(s2) ==> self.predicted(h, s)
                <= #[trigger] self.predicted(h2, s2)
        &&& forall|h2: Pos, s2: Pos|
            self.houses@.contains(h2) && sources.contains(s2) && pair_lt(h2, s2, h, s) ==> self.predicted(
                h,
                s,
            ) < #[trigger] self.predicted(h2, s2)
    }

    /// Picks the next `(source, house)` pair to join and takes the house off
    /// the list: the way of least predicted cost from a house to one of
    /// `sources` (the sources as they were before the predicting cells were
    /// broken), or the first source and the first house when every
    /// prediction reaches `INF`; `None` once no house is left.
    pub fn get_nearest_pair(&mut self, sources: &BTreeSet<Pos>) -> (pair: Option<(Pos, Pos)>)
        requires
            old(self).well_formed(),
            !old(self).houses@.is_empty() ==> !sources@.is_empty(),
            forall|h: Pos, s: Pos|
                old(self).houses@.contains(h) && sources@.contains(s) ==> #[trigger] old(self).pair_ready(h, s),
        ensures
            pair is None <==> old(self).houses@.is_empty(),
            pair is None ==> final(self).houses@ == old(self).houses@,
            pair matches Some((s, h)) ==> final(self).houses@ == old(self).houses@.remove(h),
            pair matches Some((s, h)) ==> (old(self).some_way_below_inf(sources@) ==> old(self).is_best_pair(
                sources@,
                h,
                s,
            )),
            pair matches Some((s, h)) ==> (!old(self).some_way_below_inf(sources@) ==> is_set_min(sources@, s)
                && is_set_min(old(self).houses@, h)),
            final(self).state == old(self).state,
            final(self).sources == old(self).sources,
            final(self).n == old(self).n,
            final(self).p_init == old(self).p_init,
            final(self).p_delta == old(self).p_delta,
    {
        if self.houses.is_empty() {
            return None;
        }
        let first_src = set_min(sources);
        let first_house = set_min(&self.houses);
        let mut res = (first_src, first_house);
        let mut min_dist: u64 = INF;
        for house in it: self.houses.iter()
            invariant
                it.seq().unref().to_set() == self.houses@,
                self.well_formed(),
                forall|h: Pos, s: Pos|
                    self.houses@.contains(h) && sources@.contains(s) ==> #[trigger] self.pair_ready(h, s),
                is_set_min(sources@, first_src),
                is_set_min(self.houses@, first_house),
                min_dist <= INF,
                min_dist == INF ==> res == (first_src, first_house) && forall|k: int, s: Pos|
                    0 <= k < it.index() && sources@.contains(s) ==> #[trigger] self.predicted(*it.seq()[k], s)
                        >= INF,
                min_dist < INF ==> {
                    &&& self.houses@.contains(res.1)
                    &&& sources@.contains(res.0)
                    &&& self.predicted(res.1, res.0) == min_dist
                    &&& forall|k: int, s: Pos|
                        0 <= k < it.index() && sources@.contains(s) ==> min_dist
                            <= #[trigger] self.predicted(*it.seq()[k], s)
                    &&& forall|k: int, s: Pos|
                        0 <= k < it.index() && sources@.contains(s) && pair_lt(*it.seq()[k], s, res.1, res.0)
                            ==> min_dist < #[trigger] self.predicted(*it.seq()[k], s)
                },
        {
            proof {
                assert(it.seq().unref()[it.index() as int] == *house);
                assert(it.seq().unref().contains(*house));
            }
            let h = *house;
            for src in it2: sources.iter()
                invariant
                    it2.seq().unref().to_set() == sources@,
                    self.houses@.contains(h),
                    h == *it.seq()[it.index() as int],
                    0 <= it.index() < it.seq().len(),
                    self.well_formed(),
                    forall|h: Pos, s: Pos|
                        self.houses@.contains(h) && sources@.contains(s) ==> #[trigger] self.pair_ready(h, s),
                    min_dist <= INF,
                    min_dist == INF ==> res == (first_src, first_house) && (forall|k: int, s: Pos|
                        0 <= k < it.index() && sources@.contains(s) ==> #[trigger] self.predicted(*it.seq()[k], s)
                            >= INF) && (forall|k: int|
                        0 <= k < it2.index() ==> #[trigger] self.predicted(h, *it2.seq()[k]) >= INF),
                    min_dist < INF ==> {
                        &&& self.houses@.contains(res.1)
                        &&& sources@.contains(res.0)
                        &&& self.predicted(res.1, res.0) == min_dist
                        &&& forall|k: int, s: Pos|
                            0 <= k < it.index() && sources@.contains(s) ==> min_dist
                                <= #[trigger] self.predicted(*it.seq()[k], s)
                        &&& forall|k: int, s: Pos|
                            0 <= k < it.index() && sources@.contains(s) && pair_lt(*it.seq()[k], s, res.1, res.0)
                                ==> min_dist < #[trigger] self.predicted(*it.seq()[k], s)
                        &&& forall|k: int|
                            0 <= k < it2.index() ==> min_dist <= #[trigger] self.predicted(h, *it2.seq()[k])
                        &&& forall|k: int|
                            0 <= k < it2.index() && pair_lt(h, *it2.seq()[k], res.1, res.0) ==> min_dist
                                < #[trigger] self.predicted(h, *it2.seq()[k])
                    },
            {
                proof {
                    assert(it2.seq().unref()[it2.index() as int] == *src);
                    assert(it2.seq().unref().contains(*src));
                    assert(self.pair_ready(h, *src));
                    assert(usize::MAX <= u64::MAX);
                }
                let s = *src;
                let d = self.predict_dist(h, s) as u64;
                let before_lt = h.0 < res.1.0 || (h.0 == res.1.0 && h.1 < res.1.1) || (h.0 == res.1.0 && h.1
                    == res.1.1 && (s.0 < res.0.0 || (s.0 == res.0.0 && s.1 < res.0.1)));
                let ghost old_res = res;
                let ghost old_min = min_dist;
                if d < min_dist || (d == min_dist && d < INF && before_lt) {
                    min_dist = d;
                    res = (s, h);
                    proof {
                        assert forall|k: int, ss: Pos|
                            0 <= k < it.index() && sources@.contains(ss) && pair_lt(*it.seq()[k], ss, h, s)
                                implies min_dist < #[trigger] self.predicted(*it.seq()[k], ss) by {
                            if self.predicted(*it.seq()[k], ss) == min_dist {
                                assert(old_min < INF);
                                assert(!pair_lt(*it.seq()[k], ss, old_res.1, old_res.0));
                            }
                        }
                        assert forall|k: int|
                            0 <= k < it2.index() + 1 && pair_lt(h, *it2.seq()[k], h, s) implies min_dist
                                < #[trigger] self.predicted(h, *it2.seq()[k]) by {
                            if k < it2.index() && self.predicted(h, *it2.seq()[k]) == min_dist {
                                assert(old_min < INF);
                                assert(!pair_lt(h, *it2.seq()[k], old_res.1, old_res.0));
                            }
                        }
                    }
                }
            }
            proof {
                assert forall|ss: Pos| #[trigger] sources@.contains(ss) implies (min_dist == INF ==> self.predicted(h, ss) >= INF) && (min_dist < INF ==> min_dist <= self.predicted(h, ss) && (pair_lt(h, ss, res.1, res.0) ==> min_dist < self.predicted(h, ss))) by {
                    assert(sources@.contains(ss));
                }
            }
        }
        proof {
            if self.some_way_below_inf(sources@) {
                let (hh, ss) = choose|hh: Pos, ss: Pos|
                    self.houses@.contains(hh) && sources@.contains(ss) && #[trigger] self.predicted(hh, ss) < INF;
                assert(self.houses@.contains(hh));
            }
        }
        self.houses.remove(&res.1);
        Some(res)
    }

    /// The cells whose strength the choice of the next pair needs: the three
    /// predicting cells of the way from each house to each source, houses and
    /// sources taken in increasing order, sources inside houses (a set has
    /// one sorted listing: `lemma_sorted_listing_unique`).
    pub fn nearest_pair_cells(&self) -> (cells: Vec<Pos>)
        ensures
            exists|hs: Seq<Pos>, ss: Seq<Pos>|
                sorted_listing(self.houses@, hs) && sorted_listing(self.sources@, ss) && cells@ == #[trigger] pair_cells(
                    hs,
                    ss,
                ),
            forall|h: Pos, s: Pos, j: int|
                self.houses@.contains(h) && self.sources@.contains(s) && 0 <= j < 3 ==> cells@.contains(
                    #[trigger] predict_cell(h, s, j),
                ),
            forall|i: int|
                0 <= i < cells.len() ==> is_predict_cell_of(self.houses@, self.sources@, #[trigger] cells@[i]),
    {
        let mut cells: Vec<Pos> = Vec::new();
        let ghost hs = vstd::std_specs::btree::spec_btree_keys_iter(&self.houses).remaining().unref();
        let ghost ss = vstd::std_specs::btree::spec_btree_keys_iter(&self.sources).remaining().unref();
        proof {
            lemma_iter_sorted(&self.houses);
            lemma_iter_sorted(&self.sources);
        }
        for house in it: self.houses.iter()
            invariant
                it.seq().unref() == hs,
                ss == vstd::std_specs::btree::spec_btree_keys_iter(&self.sources).remaining().unref(),
                cells@ == pair_cells(hs.take(it.index() as int), ss),
                it.seq().unref().to_set() == self.houses@,
                forall|k: int, s: Pos, j: int|
                    0 <= k < it.index() && self.sources@.contains(s) && 0 <= j < 3 ==> cells@.contains(
                        #[trigger] predict_cell(*it.seq()[k], s, j),
                    ),
                forall|i: int|
                    0 <= i < cells.len() ==> is_predict_cell_of(self.houses@, self.sources@, #[trigger] cells@[i]),
        {
            proof {
                assert(it.seq().unref()[it.index() as int] == *house);
                assert(it.seq().unref().contains(*house));
            }
            let h = *house;
            let ghost idx = it.index() as int;
            let ghost base = cells@;
            proof {
                assert(h == hs[idx]);
            }
            for src in it2: self.sources.iter()
                invariant
                    it2.seq().unref() == ss,
                    base == pair_cells(hs.take(idx), ss),
                    cells@ == base + house_cells(h, ss.take(it2.index() as int)),
                    it2.seq().unref().to_set() == self.sources@,
                    self.houses@.contains(h),
                    forall|k: int, s: Pos, j: int|
                        0 <= k < it.index() && self.sources@.contains(s) && 0 <= j < 3 ==> cells@.contains(
                            #[trigger] predict_cell(*it.seq()[k], s, j),
                        ),
                    forall|k: int, j: int|
                        0 <= k < it2.index() && 0 <= j < 3 ==> cells@.contains(
                            #[trigger] predict_cell(h, *it2.seq()[k], j),
                        ),
                    forall|i: int|
                        0 <= i < cells.len() ==> is_predict_cell_of(self.houses@, self.sources@, #[trigger] cells@[i]),
            {
                proof {
                    assert(it2.seq().unref()[it2.index() as int] == *src);
                    assert(it2.seq().unref().contains(*src));
                }
                let s = *src;
                let (sr, sc) = h;
                let (er, ec) = s;
                let ghost before = cells@;
                cells.push((sr / 2 + er / 2 + (sr % 2 + er % 2) / 2, sc));
                cells.push((er, sc));
                cells.push((er, sc / 2 + ec / 2 + (sc % 2 + ec % 2) / 2));
                proof {
                    let k2 = it2.index() as int;
                    assert(s == ss[k2]);
                    assert(ss.take(k2 + 1).drop_last() =~= ss.take(k2));
                    assert(cells@ =~= base + house_cells(h, ss.take(k2 + 1)));
                    assert(cells@[before.len() as int] == predict_cell(h, s, 0));
                    assert(cells@[before.len() + 1int] == predict_cell(h, s, 1));
                    assert(cells@[before.len() + 2int] == predict_cell(h, s, 2));
                    assert forall|i: int| 0 <= i < cells.len() implies is_predict_cell_of(self.houses@, self.sources@, #[trigger] cells@[i]) by {
                        if i < before.len() {
                            assert(cells@[i] == before[i]);
                        } else if i == before.len() {
                            assert(cells@[i] == predict_cell(h, s, 0));
                        } else if i == before.len() + 1 {
                            assert(cells@[i] == predict_cell(h, s, 1));
                        } else {
                            assert(cells@[i] == predict_cell(h, s, 2));
                        }
                    }
                    assert forall|k: int, ss: Pos, j: int|
                        0 <= k < it.index() && self.sources@.contains(ss) && 0 <= j < 3 implies cells@.contains(
                            #[trigger] predict_cell(*it.seq()[k], ss, j),
                        ) by {
                        let q = choose|q: int| 0 <= q < before.len() && before[q] == predict_cell(*it.seq()[k], ss, j);
                        assert(cells@[q] == before[q]);
                    }
                    assert forall|k: int, j: int|
                        0 <= k < it2.index() + 1 && 0 <= j < 3 implies cells@.contains(
                            #[trigger] predict_cell(h, *it2.seq()[k], j),
                        ) by {
                        if k < it2.index() {
                            let q = choose|q: int| 0 <= q < before.len() && before[q] == predict_cell(h, *it2.seq()[k], j);
                            assert(cells@[q] == before[q]);
                        } else {
                            assert(*it2.seq()[k] == s);
                            assert(cells@[before.len() + j] == predict_cell(h, s, j));
                        }
                    }
                }
            }
            proof {
                assert forall|sv: Pos, j: int| self.sources@.contains(sv) && 0 <= j < 3 implies cells@.contains(
                    #[trigger] predict_cell(h, sv, j),
                ) by {
                    assert(self.sources@.contains(sv));
                }
                assert(ss.take(ss.len() as int) =~= ss);
                assert(hs.take(idx + 1).drop_last() =~= hs.take(idx));
                assert(cells@ == pair_cells(hs.take(idx + 1), ss));
            }
        }
        proof {
            assert(hs.take(hs.len() as int) =~= hs);
        }
        cells
    }
}

/// The strength of a broken cell of a grid.
fn strength_at(state: &Vec<Vec<State>>, p: Pos) -> (s: usize)
    requires
        p.0 < state.len(),
        p.1 < state@[p.0 as int].len(),
        cell(state@, p) is Destroyed,
    ensures
        s == cell(state@, p)->Destroyed_0,
{
    match state[p.0][p.1] {
        State::Rock(d) => d,
        State::Destroyed(d) => d,
    }
}

} // verus!
