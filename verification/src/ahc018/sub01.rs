//! Every house is joined to its nearest source by a straight dig: down or
//! up the source's column, then along the house's row, each cell dug with
//! power 50 until it breaks.
use vstd::prelude::*;
use crate::ahc018::geometry::{
    Pos,
    State,
    Reply,
    reply_of,
    cell,
    square_grid,
    rock_grid,
    record_dig,
    dig_outcome,
    NotRock,
    dist_fits,
    distances,
    first_min_below,
    nearest_index,
    tunnel_cells,
    tunnel_route,
    lemma_first_min_unique,
    INF,
};

verus! {

/// Power of every dig.
pub const POWER: usize = 50;

/// The cells dug for the houses `houses[0..k]`, each joined to its nearest source.
pub open spec fn plan_prefix(sources: Seq<Pos>, houses: Seq<Pos>, k: int) -> Seq<Pos>
    decreases k,
{
    if k <= 0 {
        Seq::empty()
    } else {
        plan_prefix(sources, houses, k - 1) + tunnel_cells(
            sources[nearest_source(sources, houses[k - 1])],
            houses[k - 1],
        )
    }
}

/// The index of the source nearest to `house` (first on ties).
pub open spec fn nearest_source(sources: Seq<Pos>, house: Pos) -> int {
    choose|k: int| first_min_below(distances(house, sources), INF as int, k)
}

/// The field.
pub struct Field {
    /// the state of each cell
    pub state: Vec<Vec<State>>,
}

impl Field {
    /// An `n x n` field of untouched rock.
    pub fn new(n: usize, sources: &Vec<Pos>, houses: &Vec<Pos>) -> (f: Self)
        ensures
            square_grid(f.state@, n as int),
            forall|r: int, c: int| 0 <= r < n && 0 <= c < n ==> #[trigger] f.state@[r]@[c] == State::Rock(0),
    {
        Field { state: rock_grid(n) }
    }

    /// Records the reply `code` to a dig of power `x` at `(r, c)`; a dig of a
    /// broken cell is refused with `Err(NotRock)` and changes nothing.
    pub fn damage(&mut self, r: usize, c: usize, x: usize, code: isize) -> (reply: Result<Reply, NotRock>)
        requires
            r < old(self).state.len(),
            c < old(self).state@[r as int].len(),
            cell(old(self).state@, (r, c)) is Rock ==> cell(old(self).state@, (r, c))->Rock_0 + x <= usize::MAX,
        ensures
            dig_outcome(old(self).state@, final(self).state@, (r, c), x, code, reply),
    {
        record_dig(&mut self.state, (r, c), x, code)
    }

    /// The picture of the field: `*` for rock, `.` for broken rock.
    pub fn show(&self) -> (rows: Vec<Vec<char>>)
        ensures
            rows.len() == self.state.len(),
            forall|r: int| 0 <= r < rows.len() ==> #[trigger] rows@[r].len() == self.state@[r].len(),
            forall|r: int, c: int|
                0 <= r < rows.len() && 0 <= c < rows@[r].len() ==> #[trigger] rows@[r]@[c] == match self.state@[r]@[c] {
                    State::Rock(_) => '*',
                    State::Destroyed(_) => '.',
                },
    {
        let mut rows: Vec<Vec<char>> = Vec::new();
        let mut r: usize = 0;
        while r < self.state.len()
            invariant
                0 <= r <= self.state.len(),
                rows.len() == r,
                forall|q: int| 0 <= q < r ==> #[trigger] rows@[q].len() == self.state@[q].len(),
                forall|q: int, c: int|
                    0 <= q < r && 0 <= c < rows@[q].len() ==> #[trigger] rows@[q]@[c] == match self.state@[q]@[c] {
                        State::Rock(_) => '*',
                        State::Destroyed(_) => '.',
                    },
            decreases self.state.len() - r,
        {
            let mut line: Vec<char> = Vec::new();
            let mut c: usize = 0;
            while c < self.state[r].len()
                invariant
                    0 <= r < self.state.len(),
                    0 <= c <= self.state@[r as int].len(),
                    line.len() == c,
                    forall|k: int| 0 <= k < c ==> #[trigger] line@[k] == match self.state@[r as int]@[k] {
                        State::Rock(_) => '*',
                        State::Destroyed(_) => '.',
                    },
                decreases self.state@[r as int].len() - c,
            {
                let g = match self.state[r][c] {
                    State::Rock(_) => '*',
                    State::Destroyed(_) => '.',
                };
                line.push(g);
                c += 1;
            }
            rows.push(line);
            r += 1;
        }
        rows
    }
}

/// The cells to dig, in order: for each house in turn, the straight dig from
/// its nearest source (see `tunnel_cells`). Already broken cells on the way
/// are passed over by the digging.
pub fn plan(sources: &Vec<Pos>, houses: &Vec<Pos>) -> (cells: Vec<Pos>)
    requires
        houses.len() > 0 ==> sources.len() > 0,
        forall|h: int, s: int|
            0 <= h < houses.len() && 0 <= s < sources.len() ==> #[trigger] dist_fits(houses@[h], sources@[s]),
    ensures
        cells@ == plan_prefix(sources@, houses@, houses.len() as int),
{
    let mut cells: Vec<Pos> = Vec::new();
    let mut k: usize = 0;
    while k < houses.len()
        invariant
            0 <= k <= houses.len(),
            houses.len() > 0 ==> sources.len() > 0,
            forall|h: int, s: int|
                0 <= h < houses.len() && 0 <= s < sources.len() ==> #[trigger] dist_fits(houses@[h], sources@[s]),
            cells@ == plan_prefix(sources@, houses@, k as int),
        decreases houses.len() - k,
    {
        let house = houses[k];
        proof {
            assert forall|i: int| 0 <= i < sources.len() implies #[trigger] dist_fits(house, sources@[i]) by {
                assert(dist_fits(houses@[k as int], sources@[i]));
            }
        }
        let i = nearest_index(house, sources);
        proof {
            lemma_first_min_unique(distances(house, sources@), INF as int, i as int);
            assert(i == nearest_source(sources@, house));
            if sources.len() > 0 {
                assert(i < sources.len());
            }
        }
        let route = tunnel_route(sources[i], house);
        let ghost before = cells@;
        let mut j: usize = 0;
        while j < route.len()
            invariant
                0 <= j <= route.len(),
                cells@ == before + route@.take(j as int),
            decreases route.len() - j,
        {
            cells.push(route[j]);
            j += 1;
            proof {
                assert(cells@ =~= before + route@.take(j as int));
            }
        }
        proof {
            assert(route@.take(j as int) =~= route@);
        }
        k += 1;
    }
    cells
}

} // verus!
