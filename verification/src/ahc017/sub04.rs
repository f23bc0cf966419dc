//! Day changes guided by the per-day load around a vertex.
use vstd::prelude::*;
use crate::ahc017::schedule::{
    day_count,
    lemma_day_count_bounds,
    lemma_day_count_push,
    lemma_day_count_update,
    lemma_day_count_positive,
};
use crate::random::{small_rng_from_seed, small_rng_gen_range};

verus! {

/// Seed of the generator.
pub const SEED: u64 = 20021213;

/// Number of rounds of the improvement.
pub const REP_TIME: usize = 10000;

/// Number of days tried for one move.
pub const TRY_TIME: usize = 5;

/// # Edge
/// The road numbered `i`, between `u` and `v`, of weight `w`, built on `day`.
#[derive(Debug, Clone, Copy, PartialEq)]
pub struct Edge {
    pub i: usize,
    pub u: usize,
    pub v: usize,
    pub w: usize,
    pub day: usize,
}

/// The days of a sequence of edges.
pub open spec fn days_of(edges: Seq<Edge>) -> Seq<usize> {
    edges.map_values(|e: Edge| e.day)
}

/// A table indexed by day, then by the two endpoints.
pub type Table = Seq<Seq<Seq<Option<Edge>>>>;

/// `t` is a `days x n x n` table.
pub open spec fn shaped(t: Table, days: int, n: int) -> bool {
    &&& t.len() == days
    &&& forall|d: int| 0 <= d < days ==> #[trigger] t[d].len() == n
    &&& forall|d: int, x: int| 0 <= d < days && 0 <= x < n ==> #[trigger] t[d][x].len() == n
}

/// `t` with the entry at `(d, x, y)` set to `val`.
pub open spec fn set_entry(t: Table, d: int, x: int, y: int, val: Option<Edge>) -> Table {
    t.update(d, t[d].update(x, t[d][x].update(y, val)))
}

/// The nested vectors of a table as nested sequences.
pub open spec fn table_view(a: Seq<Vec<Vec<Option<Edge>>>>) -> Table {
    Seq::new(a.len(), |d: int| Seq::new(a[d]@.len(), |x: int| a[d]@[x]@))
}

/// A graph as plain values.
pub struct GraphView {
    pub N: usize,
    pub M: usize,
    pub D: usize,
    pub K: usize,
    pub edges: Seq<Edge>,
    pub adjacent: Table,
    pub cnt: Seq<usize>,
}

impl GraphView {
    /// The entry of `adjacent` at `(d, x, y)`.
    pub open spec fn slot(&self, d: int, x: int, y: int) -> Option<Edge> {
        self.adjacent[d][x][y]
    }

    /// The edges are numbered by position, their endpoints and days fit the
    /// `(D + 1) x N x N` table, every recorded edge exists, and `cnt` counts
    /// the edges of each day `0..=D`.
    pub open spec fn well_formed(&self) -> bool {
        &&& self.M == self.edges.len()
        &&& self.cnt.len() == self.D + 1
        &&& self.D < usize::MAX
        &&& shaped(self.adjacent, self.D + 1, self.N as int)
        &&& forall|j: int|
            0 <= j < self.edges.len() ==> {
                &&& #[trigger] self.edges[j].i == j
                &&& self.edges[j].u < self.N
                &&& self.edges[j].v < self.N
                &&& self.edges[j].day <= self.D
            }
        &&& forall|d: int, x: int, y: int|
            0 <= d <= self.D && 0 <= x < self.N && 0 <= y < self.N && #[trigger] self.slot(d, x, y)
                is Some ==> self.slot(d, x, y)->0.i < self.edges.len()
        &&& forall|d: int| 0 <= d < self.cnt.len() ==> #[trigger] self.cnt[d] == day_count(days_of(self.edges), d)
    }
}

/// `g` with edge number `M` added between `u` and `v` on `day`, recorded at
/// `[day][u][v]` and `[day][v][u]`.
pub open spec fn append_view(g: GraphView, u: usize, v: usize, w: usize, day: usize) -> GraphView {
    let e = Edge { i: g.M, u, v, w, day };
    GraphView {
        M: (g.M + 1) as usize,
        edges: g.edges.push(e),
        adjacent: set_entry(set_entry(g.adjacent, day as int, u as int, v as int, Some(e)), day as int, v as int, u as int, Some(e)),
        cnt: g.cnt.update(day as int, (g.cnt[day as int] + 1) as usize),
        ..g
    }
}

/// `g` with edge `i` moved to `new_day`: its day changes, one work moves
/// from its old day to `new_day`, the entries `[old day][u][v]` and
/// `[old day][v][u]` are cleared and the moved edge is recorded at
/// `[new_day][u][v]` and `[new_day][v][u]`.
pub open spec fn move_view(g: GraphView, i: int, new_day: usize) -> GraphView {
    let e = g.edges[i];
    let moved = Edge { day: new_day, ..e };
    let od = e.day as int;
    let nd = new_day as int;
    let c1 = g.cnt.update(od, (g.cnt[od] - 1) as usize);
    let t1 = set_entry(g.adjacent, od, e.u as int, e.v as int, None);
    let t2 = set_entry(t1, od, e.v as int, e.u as int, None);
    let t3 = set_entry(t2, nd, e.u as int, e.v as int, Some(moved));
    let t4 = set_entry(t3, nd, e.v as int, e.u as int, Some(moved));
    GraphView {
        edges: g.edges.update(i, moved),
        adjacent: t4,
        cnt: c1.update(nd, (c1[nd] + 1) as usize),
        ..g
    }
}

/// The graph on `n` vertices and days `0..=d` with no edge.
pub open spec fn empty_view(n: usize, d: usize, k: usize) -> GraphView {
    GraphView {
        N: n,
        M: 0,
        D: d,
        K: k,
        edges: Seq::empty(),
        adjacent: Seq::new(
            (d + 1) as nat,
            |p: int| Seq::new(n as nat, |x: int| Seq::new(n as nat, |y: int| None::<Edge>)),
        ),
        cnt: Seq::new((d + 1) as nat, |p: int| 0usize),
    }
}

/// Setting one entry keeps the shape of a table.
proof fn lemma_set_entry_shaped(t: Table, days: int, n: int, d: int, x: int, y: int, val: Option<Edge>)
    requires
        shaped(t, days, n),
        0 <= d < days,
        0 <= x < n,
        0 <= y < n,
    ensures
        shaped(set_entry(t, d, x, y, val), days, n),
        forall|p: int, q: int, r: int|
            0 <= p < days && 0 <= q < n && 0 <= r < n ==> #[trigger] set_entry(t, d, x, y, val)[p][q][r] == if p == d
                && q == x && r == y {
                val
            } else {
                t[p][q][r]
            },
{
    let s = set_entry(t, d, x, y, val);
    assert forall|p: int| 0 <= p < days implies #[trigger] s[p].len() == n by {
        if p != d {
            assert(s[p] == t[p]);
        }
    }
    assert forall|p: int, q: int| 0 <= p < days && 0 <= q < n implies #[trigger] s[p][q].len() == n by {
        if p != d {
            assert(s[p] == t[p]);
        } else if q != x {
            assert(s[p][q] == t[p][q]);
        }
    }
    assert forall|p: int, q: int, r: int| 0 <= p < days && 0 <= q < n && 0 <= r < n implies #[trigger] s[p][q][r]
        == if p == d && q == x && r == y {
        val
    } else {
        t[p][q][r]
    } by {
        if p != d {
            assert(s[p] == t[p]);
        } else if q != x {
            assert(s[p][q] == t[p][q]);
        }
    }
}

/// A write into the nested vectors is a `set_entry` of their view.
proof fn lemma_set_entry(
    before: Seq<Vec<Vec<Option<Edge>>>>,
    after: Seq<Vec<Vec<Option<Edge>>>>,
    d: int,
    x: int,
    y: int,
    val: Option<Edge>,
)
    requires
        0 <= d < before.len(),
        0 <= x < before[d]@.len(),
        0 <= y < before[d]@[x]@.len(),
        after.len() == before.len(),
        forall|p: int| 0 <= p < before.len() && p != d ==> after[p] == before[p],
        after[d]@.len() == before[d]@.len(),
        forall|q: int| 0 <= q < before[d]@.len() && q != x ==> after[d]@[q] == before[d]@[q],
        after[d]@[x]@ == before[d]@[x]@.update(y, val),
    ensures
        table_view(after) == set_entry(table_view(before), d, x, y, val),
{
    let l = table_view(after);
    let r = set_entry(table_view(before), d, x, y, val);
    assert forall|p: int| 0 <= p < l.len() implies l[p] == r[p] by {
        if p == d {
            assert(l[p] =~= r[p]);
        } else {
            assert(l[p] =~= r[p]);
        }
    }
    assert(l =~= r);
}

/// The vector lengths behind a shaped view.
proof fn lemma_table_dims(a: Seq<Vec<Vec<Option<Edge>>>>, days: int, n: int)
    requires
        shaped(table_view(a), days, n),
    ensures
        a.len() == days,
        forall|d: int| 0 <= d < days ==> #[trigger] a[d]@.len() == n,
        forall|d: int, x: int| 0 <= d < days && 0 <= x < n ==> #[trigger] a[d]@[x]@.len() == n,
{
    let t = table_view(a);
    assert forall|d: int| 0 <= d < days implies #[trigger] a[d]@.len() == n by {
        assert(t[d].len() == n);
    }
    assert forall|d: int, x: int| 0 <= d < days && 0 <= x < n implies #[trigger] a[d]@[x]@.len() == n by {
        assert(t[d].len() == n);
        assert(t[d][x].len() == n);
    }
}

/// Adding an edge keeps a graph well formed.
proof fn lemma_append_well_formed(g: GraphView, u: usize, v: usize, w: usize, day: usize)
    requires
        g.well_formed(),
        day <= g.D,
        u < g.N,
        v < g.N,
        g.M < usize::MAX,
    ensures
        append_view(g, u, v, w, day).well_formed(),
{
    let e = Edge { i: g.M, u, v, w, day };
    let h = append_view(g, u, v, w, day);
    let t1 = set_entry(g.adjacent, day as int, u as int, v as int, Some(e));
    lemma_set_entry_shaped(g.adjacent, g.D + 1, g.N as int, day as int, u as int, v as int, Some(e));
    lemma_set_entry_shaped(t1, g.D + 1, g.N as int, day as int, v as int, u as int, Some(e));
    let old_days = days_of(g.edges);
    lemma_day_count_bounds(old_days, day as int);
    assert(days_of(h.edges) =~= old_days.push(day));
    assert forall|d: int| 0 <= d < h.cnt.len() implies #[trigger] h.cnt[d] == day_count(days_of(h.edges), d) by {
        lemma_day_count_push(old_days, day, d);
    }
    assert forall|j: int| 0 <= j < h.edges.len() implies {
        &&& #[trigger] h.edges[j].i == j
        &&& h.edges[j].u < h.N
        &&& h.edges[j].v < h.N
        &&& h.edges[j].day <= h.D
    } by {
        if j < g.edges.len() {
            assert(h.edges[j] == g.edges[j]);
        }
    }
    assert forall|d: int, x: int, y: int|
        0 <= d <= h.D && 0 <= x < h.N && 0 <= y < h.N && #[trigger] h.slot(d, x, y) is Some implies h.slot(
        d,
        x,
        y,
    )->0.i < h.edges.len() by {
        assert(h.slot(d, x, y) == t1[d][x][y] || h.slot(d, x, y) == Some(e));
        assert(t1[d][x][y] == g.slot(d, x, y) || t1[d][x][y] == Some(e));
    }
}

/// Moving an edge keeps a graph well formed.
proof fn lemma_move_well_formed(g: GraphView, i: int, new_day: usize)
    requires
        g.well_formed(),
        0 <= i < g.M,
        new_day <= g.D,
    ensures
        g.cnt[g.edges[i].day as int] >= 1,
        move_view(g, i, new_day).well_formed(),
{
    let e = g.edges[i];
    let moved = Edge { day: new_day, ..e };
    let od = e.day as int;
    let nd = new_day as int;
    let h = move_view(g, i, new_day);
    let days = g.D + 1;
    let n = g.N as int;
    let t1 = set_entry(g.adjacent, od, e.u as int, e.v as int, None);
    let t2 = set_entry(t1, od, e.v as int, e.u as int, None);
    let t3 = set_entry(t2, nd, e.u as int, e.v as int, Some(moved));
    lemma_set_entry_shaped(g.adjacent, days, n, od, e.u as int, e.v as int, None);
    lemma_set_entry_shaped(t1, days, n, od, e.v as int, e.u as int, None);
    lemma_set_entry_shaped(t2, days, n, nd, e.u as int, e.v as int, Some(moved));
    lemma_set_entry_shaped(t3, days, n, nd, e.v as int, e.u as int, Some(moved));
    let old_days = days_of(g.edges);
    lemma_day_count_positive(old_days, i);
    assert(days_of(h.edges) =~= old_days.update(i, new_day));
    lemma_day_count_bounds(days_of(h.edges), nd);
    assert forall|d: int| 0 <= d < h.cnt.len() implies #[trigger] h.cnt[d] == day_count(days_of(h.edges), d) by {
        lemma_day_count_update(old_days, i, new_day, d);
    }
    assert forall|j: int| 0 <= j < h.edges.len() implies {
        &&& #[trigger] h.edges[j].i == j
        &&& h.edges[j].u < h.N
        &&& h.edges[j].v < h.N
        &&& h.edges[j].day <= h.D
    } by {
        if j != i {
            assert(h.edges[j] == g.edges[j]);
        }
    }
    assert forall|d: int, x: int, y: int|
        0 <= d <= h.D && 0 <= x < h.N && 0 <= y < h.N && #[trigger] h.slot(d, x, y) is Some implies h.slot(
        d,
        x,
        y,
    )->0.i < h.edges.len() by {
        assert(h.slot(d, x, y) == t3[d][x][y] || h.slot(d, x, y) == Some(moved));
        assert(t3[d][x][y] == t2[d][x][y] || t3[d][x][y] == Some(moved));
        assert(t2[d][x][y] == t1[d][x][y] || t2[d][x][y] == None::<Edge>);
        assert(t1[d][x][y] == g.slot(d, x, y) || t1[d][x][y] == None::<Edge>);
    }
}

/// # Graph
/// The roads, who is linked to whom on each day, and the load of each day.
#[derive(Debug)]
pub struct Graph {
    /// number of vertices
    pub N: usize,
    /// number of edges
    pub M: usize,
    /// number of days
    pub D: usize,
    /// most works a day
    pub K: usize,
    /// the edges
    pub edges: Vec<Edge>,
    /// `adjacent[day][u][v]`: the edge recorded between `u` and `v` on `day`
    pub adjacent: Vec<Vec<Vec<Option<Edge>>>>,
    /// `cnt[d]`: the number of edges under construction on day `d`
    pub cnt: Vec<usize>,
}

impl View for Graph {
    type V = GraphView;

    open spec fn view(&self) -> GraphView {
        GraphView {
            N: self.N,
            M: self.M,
            D: self.D,
            K: self.K,
            edges: self.edges@,
            adjacent: table_view(self.adjacent@),
            cnt: self.cnt@,
        }
    }
}

impl Graph {
    /// See `GraphView::well_formed`.
    pub open spec fn well_formed(&self) -> bool {
        self@.well_formed()
    }

    /// An empty graph on `n` vertices, with a counter and an empty `n x n`
    /// table for each day `0..=d`.
    pub fn new(n: usize, d: usize, k: usize) -> (g: Self)
        requires
            d < usize::MAX,
        ensures
            g.well_formed(),
            g@ == empty_view(n, d, k),
    {
        let mut adjacent: Vec<Vec<Vec<Option<Edge>>>> = Vec::new();
        let mut a: usize = 0;
        while a < d + 1
            invariant
                d < usize::MAX,
                0 <= a <= d + 1,
                adjacent.len() == a,
                forall|p: int| 0 <= p < a ==> #[trigger] adjacent@[p].len() == n,
                forall|p: int, x: int| 0 <= p < a && 0 <= x < n ==> #[trigger] adjacent@[p]@[x].len() == n,
                forall|p: int, x: int, y: int|
                    0 <= p < a && 0 <= x < n && 0 <= y < n ==> #[trigger] adjacent@[p]@[x]@[y] is None,
            decreases d + 1 - a,
        {
            let mut plane: Vec<Vec<Option<Edge>>> = Vec::new();
            let mut b: usize = 0;
            while b < n
                invariant
                    0 <= b <= n,
                    plane.len() == b,
                    forall|x: int| 0 <= x < b ==> #[trigger] plane@[x].len() == n,
                    forall|x: int, y: int| 0 <= x < b && 0 <= y < n ==> #[trigger] plane@[x]@[y] is None,
                decreases n - b,
            {
                let line: Vec<Option<Edge>> = vec![None; n];
                plane.push(line);
                b += 1;
            }
            adjacent.push(plane);
            a += 1;
        }
        let g = Graph { N: n, M: 0, D: d, K: k, edges: vec![], adjacent, cnt: vec![0; d + 1] };
        proof {
            assert(days_of(g.edges@) =~= Seq::<usize>::empty());
            let aa = g.adjacent@;
            assert(aa == adjacent@);
            assert(a == d + 1);
            let t = g@.adjacent;
            assert forall|p: int| 0 <= p <= d implies #[trigger] t[p].len() == n by {
                assert(aa[p].len() == n);
            }
            assert forall|p: int, x: int| 0 <= p <= d && 0 <= x < n implies #[trigger] t[p][x].len() == n by {
                assert(t[p] == Seq::new(aa[p]@.len(), |x: int| aa[p]@[x]@));
                assert(t[p][x] == aa[p]@[x]@);
                assert(aa[p]@[x].len() == n);
            }
            assert forall|p: int, x: int, y: int| 0 <= p <= d && 0 <= x < n && 0 <= y < n implies #[trigger] g@.slot(
                p,
                x,
                y,
            ) is None by {
                assert(t[p] == Seq::new(aa[p]@.len(), |x: int| aa[p]@[x]@));
                assert(t[p][x] == aa[p]@[x]@);
                assert(aa[p]@[x].len() == n);
                assert(aa[p]@[x]@[y] is None);
            }
            assert(t =~~= empty_view(n, d, k).adjacent);
            assert(g@.cnt =~= empty_view(n, d, k).cnt);
        }
        g
    }

    /// Adds edge number `M` planned on `day` and records it at `[day][u][v]`
    /// and `[day][v][u]`.
    pub fn append_edge(&mut self, u: usize, v: usize, w: usize, day: usize)
        requires
            old(self).well_formed(),
            day <= old(self).D,
            u < old(self).N,
            v < old(self).N,
            old(self).M < usize::MAX,
        ensures
            final(self).well_formed(),
            final(self)@ == append_view(old(self)@, u, v, w, day),
    {
        proof {
            lemma_table_dims(self.adjacent@, self.D + 1, self.N as int);
            lemma_day_count_bounds(days_of(self.edges@), day as int);
            lemma_append_well_formed(self@, u, v, w, day);
        }
        let i = self.M;
        self.edges.push(Edge { i, u, v, w, day });
        let ghost a0 = self.adjacent@;
        self.adjacent[day][u][v] = Some(Edge { i, u, v, w, day });
        proof {
            lemma_set_entry(a0, self.adjacent@, day as int, u as int, v as int, Some(Edge { i, u, v, w, day }));
            lemma_set_entry_shaped(table_view(a0), self.D + 1, self.N as int, day as int, u as int, v as int, Some(Edge { i, u, v, w, day }));
            lemma_table_dims(self.adjacent@, self.D + 1, self.N as int);
        }
        let ghost a1 = self.adjacent@;
        self.adjacent[day][v][u] = Some(Edge { i, u, v, w, day });
        proof {
            lemma_set_entry(a1, self.adjacent@, day as int, v as int, u as int, Some(Edge { i, u, v, w, day }));
        }
        self.cnt[day] += 1;
        self.M += 1;
    }

    /// Moves edge `i` to `new_day` unless that day already has `K` works; tells
    /// whether it moved (see `move_view`).
    pub fn change_day(&mut self, i: usize, new_day: usize) -> (moved: bool)
        requires
            old(self).well_formed(),
            new_day <= old(self).D,
            old(self).cnt@[new_day as int] < old(self).K ==> i < old(self).edges.len(),
        ensures
            final(self).well_formed(),
            moved == (old(self).cnt@[new_day as int] < old(self).K),
            moved ==> final(self)@ == move_view(old(self)@, i as int, new_day),
            moved ==> final(self).cnt@[new_day as int] <= final(self).K,
            !moved ==> final(self)@ == old(self)@,
    {
        if self.cnt[new_day] >= self.K {
            return false;
        }
        let ghost g0 = self@;
        let Edge { i: _, u, v, w: _, day: old_day } = self.edges[i];
        let ghost moved_edge = Edge { day: new_day, ..self.edges@[i as int] };
        proof {
            lemma_move_well_formed(g0, i as int, new_day);
            lemma_table_dims(self.adjacent@, self.D + 1, self.N as int);
        }
        let mut e = self.edges[i];
        e.day = new_day;
        self.edges.set(i, e);
        self.cnt[old_day] -= 1;
        self.cnt[new_day] += 1;
        let days = self.D + 1;
        let ghost n = self.N as int;
        let ghost a0 = self.adjacent@;
        self.adjacent[old_day][u][v] = None;
        proof {
            lemma_set_entry(a0, self.adjacent@, old_day as int, u as int, v as int, None);
            lemma_set_entry_shaped(table_view(a0), days as int, n, old_day as int, u as int, v as int, None);
            lemma_table_dims(self.adjacent@, days as int, n);
        }
        let ghost a1 = self.adjacent@;
        self.adjacent[old_day][v][u] = None;
        proof {
            lemma_set_entry(a1, self.adjacent@, old_day as int, v as int, u as int, None);
            lemma_set_entry_shaped(table_view(a1), days as int, n, old_day as int, v as int, u as int, None);
            lemma_table_dims(self.adjacent@, days as int, n);
        }
        let ghost a2 = self.adjacent@;
        self.adjacent[new_day][u][v] = Some(self.edges[i]);
        proof {
            lemma_set_entry(a2, self.adjacent@, new_day as int, u as int, v as int, Some(moved_edge));
            lemma_set_entry_shaped(table_view(a2), days as int, n, new_day as int, u as int, v as int, Some(moved_edge));
            lemma_table_dims(self.adjacent@, days as int, n);
        }
        let ghost a3 = self.adjacent@;
        self.adjacent[new_day][v][u] = Some(self.edges[i]);
        proof {
            lemma_set_entry(a3, self.adjacent@, new_day as int, v as int, u as int, Some(moved_edge));
            assert(self@ == move_view(g0, i as int, new_day));
        }
        true
    }

    /// The day of each edge, in order.
    pub fn days(&self) -> (days: Vec<usize>)
        ensures
            days@ == days_of(self.edges@),
    {
        let mut days: Vec<usize> = Vec::new();
        let mut i: usize = 0;
        while i < self.edges.len()
            invariant
                0 <= i <= self.edges.len(),
                days@ == days_of(self.edges@).take(i as int),
            decreases self.edges.len() - i,
        {
            days.push(self.edges[i].day);
            i += 1;
            proof {
                assert(days@ =~= days_of(self.edges@).take(i as int));
            }
        }
        proof {
            assert(days_of(self.edges@).take(i as int) =~= days_of(self.edges@));
        }
        days
    }
}

/// The first-come plan of the roads `uvw` (endpoints numbered from 1): the
/// `i`-th road is added on day `i / k + 1`.
pub open spec fn plan_view(n: usize, d: usize, k: usize, uvw: Seq<(usize, usize, usize)>) -> GraphView
    decreases uvw.len(),
{
    if uvw.len() == 0 {
        empty_view(n, d, k)
    } else {
        let i = uvw.len() - 1;
        let (u, v, w) = uvw.last();
        append_view(plan_view(n, d, k, uvw.drop_last()), (u - 1) as usize, (v - 1) as usize, w, (i / (k as int) + 1) as usize)
    }
}

/// The first-come plan: the `i`-th road (endpoints numbered from 1 in `uvw`)
/// is built on day `i / k + 1` and recorded in both directions.
pub fn build(n: usize, d: usize, k: usize, uvw: &Vec<(usize, usize, usize)>) -> (g: Graph)
    requires
        k > 0,
        d < usize::MAX,
        uvw.len() < usize::MAX,
        forall|i: int|
            0 <= i < uvw.len() ==> 1 <= #[trigger] uvw@[i].0 <= n && 1 <= uvw@[i].1 <= n,
        forall|i: int| 0 <= i < uvw.len() ==> #[trigger] (i / (k as int)) + 1 <= d,
    ensures
        g.well_formed(),
        g@ == plan_view(n, d, k, uvw@),
        g.N == n,
        g.D == d,
        g.K == k,
        g.M == uvw.len(),
        forall|i: int|
            0 <= i < uvw.len() ==> #[trigger] g.edges@[i] == (Edge {
                i: i as usize,
                u: (uvw@[i].0 - 1) as usize,
                v: (uvw@[i].1 - 1) as usize,
                w: uvw@[i].2,
                day: (i / (k as int) + 1) as usize,
            }),
        forall|x: int| 0 <= x < g.cnt.len() ==> #[trigger] g.cnt@[x] <= k,
{
    let mut g = Graph::new(n, d, k);
    let mut i: usize = 0;
    proof {
        assert(uvw@.take(0) =~= Seq::<(usize, usize, usize)>::empty());
    }
    while i < uvw.len()
        invariant
            k > 0,
            0 <= i <= uvw.len(),
            uvw.len() < usize::MAX,
            forall|j: int|
                0 <= j < uvw.len() ==> 1 <= #[trigger] uvw@[j].0 <= n && 1 <= uvw@[j].1 <= n,
            forall|j: int| 0 <= j < uvw.len() ==> #[trigger] (j / (k as int)) + 1 <= d,
            g.well_formed(),
            g@ == plan_view(n, d, k, uvw@.take(i as int)),
            g.N == n,
            g.D == d,
            g.K == k,
            g.M == i,
            forall|j: int|
                0 <= j < i ==> #[trigger] g.edges@[j] == (Edge {
                    i: j as usize,
                    u: (uvw@[j].0 - 1) as usize,
                    v: (uvw@[j].1 - 1) as usize,
                    w: uvw@[j].2,
                    day: (j / (k as int) + 1) as usize,
                }),
            forall|x: int| 0 <= x <= d ==> #[trigger] g.cnt@[x] <= k,
            forall|x: int| 0 <= x <= d && x > (i as int) / (k as int) + 1 ==> #[trigger] g.cnt@[x] == 0,
            (i as int) / (k as int) + 1 <= d ==> g.cnt@[(i as int) / (k as int) + 1] == (i as int) % (k as int),
        decreases uvw.len() - i,
    {
        let (u, v, w) = uvw[i];
        let day = i / k + 1;
        proof {
            assert((i as int) / (k as int) + 1 <= d);
        }
        g.append_edge(u - 1, v - 1, w, day);
        proof {
            let ii = i as int;
            let kk = k as int;
            assert(uvw@.take(ii + 1).drop_last() =~= uvw@.take(ii));
            assert(uvw@.take(ii + 1).last() == uvw@[ii]);
            assert(ii % kk < kk) by (nonlinear_arith)
                requires
                    kk > 0,
                    ii >= 0,
            ;
            assert(((ii + 1) % kk == 0 && (ii + 1) / kk == ii / kk + 1) || ((ii + 1) % kk == ii % kk
                + 1 && (ii + 1) / kk == ii / kk)) by (nonlinear_arith)
                requires
                    kk > 0,
                    ii >= 0,
            {
                vstd::arithmetic::div_mod::lemma_fundamental_div_mod(ii, kk);
                vstd::arithmetic::div_mod::lemma_fundamental_div_mod(ii + 1, kk);
                vstd::arithmetic::div_mod::lemma_mod_bound(ii, kk);
                vstd::arithmetic::div_mod::lemma_mod_bound(ii + 1, kk);
            }
        }
        i = i + 1;
    }
    proof {
        assert(uvw@.take(i as int) =~= uvw@);
    }
    g
}

/// The numbers of the edges recorded at `[day][vertex][0..n]`, in order.
pub open spec fn ids_around(g: GraphView, day: int, vertex: int, n: int) -> Seq<usize>
    decreases n,
{
    if n <= 0 {
        seq![]
    } else {
        let prev = ids_around(g, day, vertex, n - 1);
        match g.slot(day, vertex, n - 1) {
            Some(e) => prev.push(e.i),
            None => prev,
        }
    }
}

proof fn lemma_ids_around_bounds(g: GraphView, day: int, vertex: int, n: int)
    requires
        g.well_formed(),
        0 <= day <= g.D,
        0 <= vertex < g.N,
        n <= g.N,
    ensures
        ids_around(g, day, vertex, n).len() <= if n < 0 { 0 } else { n },
        forall|q: int| 0 <= q < ids_around(g, day, vertex, n).len() ==> #[trigger] ids_around(g, day, vertex, n)[q] < g.M,
    decreases n,
{
    if n > 0 {
        lemma_ids_around_bounds(g, day, vertex, n - 1);
    }
}

/// The numbers of the edges recorded at `[day][vertex][0..]`, in order.
fn edges_at(g: &Graph, day: usize, vertex: usize) -> (ids: Vec<usize>)
    requires
        g.well_formed(),
        day <= g.D,
        vertex < g.N,
    ensures
        ids@ == ids_around(g@, day as int, vertex as int, g.N as int),
{
    let mut ids: Vec<usize> = Vec::new();
    let mut j: usize = 0;
    proof {
        lemma_table_dims(g.adjacent@, g.D + 1, g.N as int);
    }
    while j < g.N
        invariant
            g.well_formed(),
            day <= g.D,
            vertex < g.N,
            0 <= j <= g.N,
            g.adjacent.len() == g.D + 1,
            g.adjacent@[day as int].len() == g.N,
            g.adjacent@[day as int]@[vertex as int].len() == g.N,
            ids@ == ids_around(g@, day as int, vertex as int, j as int),
        decreases g.N - j,
    {
        proof {
            assert(g@.slot(day as int, vertex as int, j as int) == g.adjacent@[day as int]@[vertex as int]@[j as int]);
        }
        if let Some(edge) = g.adjacent[day][vertex][j] {
            ids.push(edge.i);
        }
        j += 1;
    }
    ids
}

/// For every day `1..=D`, the numbers of the edges recorded around
/// `vertex` (day `0` is left empty).
pub fn edges_around(g: &Graph, vertex: usize) -> (cnt_day: Vec<Vec<usize>>)
    requires
        g.well_formed(),
        vertex < g.N,
    ensures
        cnt_day.len() == g.D + 1,
        cnt_day@[0]@ == Seq::<usize>::empty(),
        forall|d: int| 1 <= d <= g.D ==> #[trigger] cnt_day@[d]@ == ids_around(g@, d, vertex as int, g.N as int),
{
    let mut cnt_day: Vec<Vec<usize>> = Vec::new();
    cnt_day.push(Vec::new());
    let mut day: usize = 1;
    while day <= g.D
        invariant
            g.well_formed(),
            vertex < g.N,
            g.D < usize::MAX,
            1 <= day <= g.D + 1,
            cnt_day.len() == day,
            cnt_day@[0]@ == Seq::<usize>::empty(),
            forall|d: int| 1 <= d < day ==> #[trigger] cnt_day@[d]@ == ids_around(g@, d, vertex as int, g.N as int),
        decreases g.D + 1 - day,
    {
        let ids = edges_at(g, day, vertex);
        cnt_day.push(ids);
        day += 1;
    }
    cnt_day
}

/// `cnt_day` lists, for every day `0..=D` of `g`, at most `N` edge numbers,
/// each of an edge of `g`.
pub open spec fn day_lists_ok(g: GraphView, cnt_day: Seq<Vec<usize>>) -> bool {
    &&& cnt_day.len() == g.D + 1
    &&& forall|p: int| 0 <= p < cnt_day.len() ==> #[trigger] cnt_day[p].len() <= g.N
    &&& forall|p: int, q: int| 0 <= p < cnt_day.len() && 0 <= q < cnt_day[p].len() ==> #[trigger] cnt_day[p]@[q] < g.M
}

/// The lists that `edges_around` makes fit the graph.
proof fn lemma_edges_around_ok(g: GraphView, vertex: int, cnt_day: Seq<Vec<usize>>)
    requires
        g.well_formed(),
        0 <= vertex < g.N,
        cnt_day.len() == g.D + 1,
        cnt_day[0]@ == Seq::<usize>::empty(),
        forall|d: int| 1 <= d <= g.D ==> #[trigger] cnt_day[d]@ == ids_around(g, d, vertex, g.N as int),
    ensures
        day_lists_ok(g, cnt_day),
{
    assert forall|p: int| 0 <= p < cnt_day.len() implies #[trigger] cnt_day[p].len() <= g.N by {
        if p >= 1 {
            lemma_ids_around_bounds(g, p, vertex, g.N as int);
        }
    }
    assert forall|p: int, q: int| 0 <= p < cnt_day.len() && 0 <= q < cnt_day[p].len() implies #[trigger] cnt_day[p]@[q]
        < g.M by {
        lemma_ids_around_bounds(g, p, vertex, g.N as int);
    }
}

/// One try at spreading `old_day` (which lists two or more edges around the
/// chosen vertex): its first edge moves to `new_day` when that day lists at
/// least two fewer of them and `change_day` accepts; tells whether it moved.
pub fn try_spread(g: &mut Graph, cnt_day: &Vec<Vec<usize>>, old_day: usize, new_day: usize) -> (moved: bool)
    requires
        old(g).well_formed(),
        day_lists_ok(old(g)@, cnt_day@),
        1 <= old_day <= old(g).D,
        new_day <= old(g).D,
        cnt_day@[old_day as int].len() >= 2,
    ensures
        final(g).well_formed(),
        moved == (cnt_day@[new_day as int].len() + 1 <= cnt_day@[old_day as int].len() - 1 && old(g).cnt@[new_day as int]
            < old(g).K),
        moved ==> final(g)@ == move_view(old(g)@, cnt_day@[old_day as int]@[0] as int, new_day),
        moved ==> final(g).cnt@[new_day as int] <= final(g).K,
        !moved ==> final(g)@ == old(g)@,
{
    let choose_edge = cnt_day[old_day][0];
    if cnt_day[new_day].len() < cnt_day[old_day].len() - 1 {
        g.change_day(choose_edge, new_day)
    } else {
        false
    }
}

/// In a round begun at `start` around `vertex`, moving the first edge listed
/// on `old_day` to `new_day` is allowed in `cur`: `new_day` lists at least two
/// fewer edges around `vertex` in `start`, and has room for a work in `cur`.
pub open spec fn spread_ok(start: GraphView, cur: GraphView, vertex: int, old_day: int, new_day: usize) -> bool {
    let n = start.N as int;
    &&& ids_around(start, new_day as int, vertex, n).len() + 1 <= ids_around(start, old_day, vertex, n).len() - 1
    &&& cur.cnt[new_day as int] < cur.K
}

/// The position of the first of the drawn days `draws[k..]`, among the first
/// `TRY_TIME`, to which the move is allowed.
pub open spec fn first_ok(
    start: GraphView,
    cur: GraphView,
    vertex: int,
    old_day: int,
    draws: Seq<usize>,
    k: int,
) -> Option<int>
    decreases draws.len() - k,
{
    if k < 0 || k >= draws.len() || k >= TRY_TIME {
        None
    } else if spread_ok(start, cur, vertex, old_day, draws[k]) {
        Some(k)
    } else {
        first_ok(start, cur, vertex, old_day, draws, k + 1)
    }
}

/// What a round begun at `start` does to `cur` on `old_day`: when two or
/// more edges are listed around `vertex` on that day, the first of them moves
/// to the first allowed day of `draws`, if any.
pub open spec fn day_step(start: GraphView, cur: GraphView, vertex: int, old_day: int, draws: Seq<usize>) -> GraphView {
    let listed = ids_around(start, old_day, vertex, start.N as int);
    if listed.len() >= 2 {
        match first_ok(start, cur, vertex, old_day, draws, 0) {
            Some(k) => move_view(cur, listed[0] as int, draws[k]),
            None => cur,
        }
    } else {
        cur
    }
}

/// A round begun at `start` around `vertex`, after the days `1..=last`, with
/// `tries[d]` the days drawn for day `d`.
pub open spec fn days_upto(start: GraphView, vertex: int, tries: Seq<Seq<usize>>, last: int) -> GraphView
    decreases last,
{
    if last <= 0 {
        start
    } else {
        day_step(start, days_upto(start, vertex, tries, last - 1), vertex, last, tries[last])
    }
}

/// One round of the improvement on `g` around the first endpoint of edge
/// `e`, with `tries[d]` the days drawn for day `d`.
pub open spec fn round_spec(g: GraphView, e: int, tries: Seq<Seq<usize>>) -> GraphView {
    days_upto(g, g.edges[e].u as int, tries, g.D as int)
}

/// The rounds of edges `es` with drawn days `ts`, one after the other.
pub open spec fn rounds(g: GraphView, es: Seq<usize>, ts: Seq<Seq<Seq<usize>>>) -> GraphView
    decreases es.len(),
{
    if es.len() == 0 {
        g
    } else {
        round_spec(rounds(g, es.drop_last(), ts.drop_last()), es.last() as int, ts.last())
    }
}

/// The draws of the rounds fit `g`: an edge of `g` for each round, a list for
/// each day `0..=D`, at most `TRY_TIME` days in it, each in `1..=d_max`.
pub open spec fn draws_fit(g: GraphView, es: Seq<usize>, ts: Seq<Seq<Seq<usize>>>, d_max: usize) -> bool {
    &&& es.len() == ts.len()
    &&& forall|r: int| 0 <= r < es.len() ==> #[trigger] es[r] < g.M
    &&& forall|r: int| 0 <= r < ts.len() ==> #[trigger] ts[r].len() == g.D + 1
    &&& forall|r: int, p: int| 0 <= r < ts.len() && 0 <= p < ts[r].len() ==> #[trigger] ts[r][p].len() <= TRY_TIME
    &&& forall|r: int, p: int, q: int|
        0 <= r < ts.len() && 0 <= p < ts[r].len() && 0 <= q < ts[r][p].len() ==> 1 <= #[trigger] ts[r][p][q] <= d_max
}

/// The drawn days of each day as sequences.
pub open spec fn draws_view(tries: Seq<Vec<usize>>) -> Seq<Seq<usize>> {
    tries.map_values(|t: Vec<usize>| t@)
}

/// Draws that are all refused do not change which one is first allowed.
proof fn lemma_first_ok_scan(
    start: GraphView,
    cur: GraphView,
    vertex: int,
    old_day: int,
    draws: Seq<usize>,
    k: int,
    t: int,
)
    requires
        0 <= k <= t <= draws.len(),
        forall|j: int| k <= j < t ==> !#[trigger] spread_ok(start, cur, vertex, old_day, draws[j]),
    ensures
        first_ok(start, cur, vertex, old_day, draws, k) == first_ok(start, cur, vertex, old_day, draws, t),
    decreases t - k,
{
    if k < t {
        lemma_first_ok_scan(start, cur, vertex, old_day, draws, k + 1, t);
        if k >= TRY_TIME {
            assert(first_ok(start, cur, vertex, old_day, draws, k + 1) is None);
        }
    }
}

/// A round only reads the draws of the days it has passed.
proof fn lemma_days_upto_prefix(start: GraphView, vertex: int, t1: Seq<Seq<usize>>, t2: Seq<Seq<usize>>, last: int)
    requires
        forall|j: int| 1 <= j <= last ==> #[trigger] t1[j] == t2[j],
    ensures
        days_upto(start, vertex, t1, last) == days_upto(start, vertex, t2, last),
    decreases last,
{
    if last > 0 {
        lemma_days_upto_prefix(start, vertex, t1, t2, last - 1);
    }
}

/// A round of the improvement on `g` around the first endpoint `u` of edge
/// `e`, with the days drawn given: the edges recorded around `u` are listed
/// for each day `1..=D`; on each day (in order) with two or more of them, the
/// first moves to the first of `tries[day]` (at most `TRY_TIME` of them, each
/// in `1..=D`) that lists at least two fewer and that `change_day` accepts.
pub fn spread_round(g: &mut Graph, e: usize, tries: &Vec<Vec<usize>>)
    requires
        old(g).well_formed(),
        e < old(g).M,
        tries.len() == old(g).D + 1,
        forall|p: int, q: int| 0 <= p < tries.len() && 0 <= q < tries@[p].len() ==> 1 <= #[trigger] tries@[p]@[q] <= old(g).D,
    ensures
        final(g).well_formed(),
        final(g)@ == round_spec(old(g)@, e as int, draws_view(tries@)),
{
    let ghost start = g@;
    let ghost tv = draws_view(tries@);
    let dd = g.D;
    proof {
        assert(g.edges@[e as int].i == e);
    }
    let vertex = g.edges[e].u;
    let cnt_day = edges_around(g, vertex);
    proof {
        lemma_edges_around_ok(g@, vertex as int, cnt_day@);
    }
    let mut old_day: usize = 1;
    while old_day <= dd
        invariant
            g.well_formed(),
            g.N == start.N,
            g.D == dd,
            dd == start.D,
            dd < usize::MAX,
            g.M == start.M,
            g.K == start.K,
            1 <= old_day <= dd + 1,
            day_lists_ok(g@, cnt_day@),
            vertex == start.edges[e as int].u,
            tries.len() == dd + 1,
            tv == draws_view(tries@),
            forall|p: int, q: int| 0 <= p < tries.len() && 0 <= q < tries@[p].len() ==> 1 <= #[trigger] tries@[p]@[q] <= dd,
            forall|d: int| 1 <= d <= dd ==> #[trigger] cnt_day@[d]@ == ids_around(start, d, vertex as int, start.N as int),
            g@ == days_upto(start, vertex as int, tv, old_day - 1),
        decreases dd + 1 - old_day,
    {
        let ghost cur = g@;
        let ghost draws = tv[old_day as int];
        proof {
            assert(draws == tries@[old_day as int]@);
        }
        if cnt_day[old_day].len() >= 2 {
            let mut t: usize = 0;
            let mut done = false;
            while t < TRY_TIME && t < tries[old_day].len() && !done
                invariant
                    g.well_formed(),
                    g.N == start.N,
                    g.D == dd,
                    g.M == start.M,
                    g.K == start.K,
                    1 <= old_day <= dd,
                    day_lists_ok(g@, cnt_day@),
                    cnt_day@[old_day as int].len() >= 2,
                    tries.len() == dd + 1,
                    draws == tries@[old_day as int]@,
                    forall|q: int| 0 <= q < draws.len() ==> 1 <= #[trigger] draws[q] <= dd,
                    forall|d: int| 1 <= d <= dd ==> #[trigger] cnt_day@[d]@ == ids_around(start, d, vertex as int, start.N as int),
                    0 <= t <= TRY_TIME,
                    t <= draws.len(),
                    !done ==> g@ == cur,
                    !done ==> forall|j: int| 0 <= j < t ==> !#[trigger] spread_ok(start, cur, vertex as int, old_day as int, draws[j]),
                    done ==> t >= 1 && first_ok(start, cur, vertex as int, old_day as int, draws, 0) == Some(t - 1)
                        && g@ == move_view(cur, cnt_day@[old_day as int]@[0] as int, draws[t - 1]),
                decreases TRY_TIME - t,
            {
                let new_day = tries[old_day][t];
                let moved = try_spread(g, &cnt_day, old_day, new_day);
                proof {
                    assert(spread_ok(start, cur, vertex as int, old_day as int, draws[t as int]) == moved);
                    if moved {
                        lemma_first_ok_scan(start, cur, vertex as int, old_day as int, draws, 0, t as int);
                    }
                }
                done = moved;
                t += 1;
            }
            proof {
                if !done {
                    lemma_first_ok_scan(start, cur, vertex as int, old_day as int, draws, 0, t as int);
                }
            }
        }
        proof {
            assert(ids_around(start, old_day as int, vertex as int, start.N as int) == cnt_day@[old_day as int]@);
            assert(g@ == day_step(start, cur, vertex as int, old_day as int, draws));
        }
        old_day += 1;
    }
}

/// `g` has the sizes and the roads of `g0`, each road on its day in `g0` or
/// on a day of `1..=d_max`, and each day has at most `K` works or no more
/// than in `g0`.
pub open spec fn kept_within(g0: GraphView, g: GraphView, d_max: usize) -> bool {
    &&& g.N == g0.N
    &&& g.D == g0.D
    &&& g.K == g0.K
    &&& g.M == g0.M
    &&& forall|x: int| 0 <= x <= g.D ==> #[trigger] g.cnt[x] <= g.K || g.cnt[x] <= g0.cnt[x]
    &&& forall|j: int|
        0 <= j < g.M ==> {
            &&& (#[trigger] g.edges[j]).u == g0.edges[j].u
            &&& g.edges[j].v == g0.edges[j].v
            &&& g.edges[j].w == g0.edges[j].w
            &&& (g.edges[j].day == g0.edges[j].day || 1 <= g.edges[j].day <= d_max)
        }
}

/// A move to a day of `1..=d_max` with room keeps `kept_within`.
proof fn lemma_move_kept(g0: GraphView, g: GraphView, i: int, new_day: usize, d_max: usize)
    requires
        g.well_formed(),
        kept_within(g0, g, d_max),
        0 <= i < g.M,
        1 <= new_day <= d_max,
        new_day <= g.D,
        g.cnt[new_day as int] < g.K,
    ensures
        kept_within(g0, move_view(g, i, new_day), d_max),
{
    lemma_move_well_formed(g, i, new_day);
    let h = move_view(g, i, new_day);
    assert forall|x: int| 0 <= x <= h.D implies #[trigger] h.cnt[x] <= h.K || h.cnt[x] <= g0.cnt[x] by {
        if x != new_day as int {
            assert(h.cnt[x] <= g.cnt[x]);
        }
    }
    assert forall|j: int| 0 <= j < h.M implies {
        &&& (#[trigger] h.edges[j]).u == g0.edges[j].u
        &&& h.edges[j].v == g0.edges[j].v
        &&& h.edges[j].w == g0.edges[j].w
        &&& (h.edges[j].day == g0.edges[j].day || 1 <= h.edges[j].day <= d_max)
    } by {
        assert(g.edges[j] == g.edges[j]);
        if j != i {
            assert(h.edges[j] == g.edges[j]);
        }
    }
}

/// `REP_TIME` rounds of improvement, each around the first endpoint of a
/// random edge, with random days of `1..=d_max` drawn one at a time as the
/// round tries them (see `spread_round`): the graph that comes out is
/// `rounds` of the drawn edges and days.
pub fn improve(g: &mut Graph, rng: &mut rand::rngs::SmallRng, d_max: usize)
    requires
        old(g).well_formed(),
        old(g).M > 0,
        1 <= d_max <= old(g).D,
    ensures
        final(g).well_formed(),
        exists|es: Seq<usize>, ts: Seq<Seq<Seq<usize>>>|
            es.len() == REP_TIME && #[trigger] draws_fit(old(g)@, es, ts, d_max) && final(g)@ == rounds(
                old(g)@,
                es,
                ts,
            ),
        kept_within(old(g)@, final(g)@, d_max),
{
    let ghost g0 = g@;
    let ghost mut es: Seq<usize> = Seq::empty();
    let ghost mut ts: Seq<Seq<Seq<usize>>> = Seq::empty();
    let dd = g.D;
    let m = g.M;
    let mut rep: usize = 0;
    while rep < REP_TIME
        invariant
            g.well_formed(),
            kept_within(g0, g@, d_max),
            g.D == dd,
            g.M == m,
            m > 0,
            1 <= d_max <= dd,
            rep <= REP_TIME,
            es.len() == rep,
            draws_fit(g0, es, ts, d_max),
            g@ == rounds(g0, es, ts),
        decreases REP_TIME - rep,
    {
        let e = small_rng_gen_range(rng, 0, m);
        proof {
            assert(g@.edges[e as int].i == e);
        }
        let vertex = g.edges[e].u;
        let cnt_day = edges_around(g, vertex);
        let ghost start = g@;
        let ghost mut tr: Seq<Seq<usize>> = seq![Seq::<usize>::empty()];
        proof {
            lemma_edges_around_ok(g@, vertex as int, cnt_day@);
        }
        let mut old_day: usize = 1;
        while old_day <= dd
            invariant
                g.well_formed(),
                kept_within(g0, g@, d_max),
                g.D == dd,
                g.M == m,
                start.D == dd,
                start.N == g.N,
                dd < usize::MAX,
                1 <= d_max <= dd,
                1 <= old_day <= dd + 1,
                day_lists_ok(g@, cnt_day@),
                vertex == start.edges[e as int].u,
                forall|d: int| 1 <= d <= dd ==> #[trigger] cnt_day@[d]@ == ids_around(start, d, vertex as int, start.N as int),
                tr.len() == old_day,
                forall|p: int| 0 <= p < tr.len() ==> #[trigger] tr[p].len() <= TRY_TIME,
                forall|p: int, q: int| 0 <= p < tr.len() && 0 <= q < tr[p].len() ==> 1 <= #[trigger] tr[p][q] <= d_max,
                g@ == days_upto(start, vertex as int, tr, old_day - 1),
            decreases dd + 1 - old_day,
        {
            let ghost cur = g@;
            let ghost mut dr: Seq<usize> = Seq::empty();
            if cnt_day[old_day].len() >= 2 {
                let mut t: usize = 0;
                let mut done = false;
                while t < TRY_TIME && !done
                    invariant
                        g.well_formed(),
                        kept_within(g0, g@, d_max),
                        g.D == dd,
                        g.M == m,
                        start.N == g.N,
                        1 <= d_max <= dd,
                        1 <= old_day <= dd,
                        day_lists_ok(g@, cnt_day@),
                        cnt_day@[old_day as int].len() >= 2,
                        forall|d: int| 1 <= d <= dd ==> #[trigger] cnt_day@[d]@ == ids_around(start, d, vertex as int, start.N as int),
                        0 <= t <= TRY_TIME,
                        dr.len() == t,
                        forall|q: int| 0 <= q < dr.len() ==> 1 <= #[trigger] dr[q] <= d_max,
                        !done ==> g@ == cur,
                        !done ==> forall|j: int| 0 <= j < t ==> !#[trigger] spread_ok(start, cur, vertex as int, old_day as int, dr[j]),
                        done ==> t >= 1 && first_ok(start, cur, vertex as int, old_day as int, dr, 0) == Some(t - 1)
                            && g@ == move_view(cur, cnt_day@[old_day as int]@[0] as int, dr[t - 1]),
                    decreases TRY_TIME - t,
                {
                    let new_day = small_rng_gen_range(rng, 1, d_max + 1);
                    let ghost before = g@;
                    proof {
                        dr = dr.push(new_day);
                    }
                    let moved = try_spread(g, &cnt_day, old_day, new_day);
                    proof {
                        assert(dr[t as int] == new_day);
                        assert(spread_ok(start, cur, vertex as int, old_day as int, dr[t as int]) == moved);
                        if moved {
                            lemma_first_ok_scan(start, cur, vertex as int, old_day as int, dr, 0, t as int);
                            lemma_move_kept(g0, before, cnt_day@[old_day as int]@[0] as int, new_day, d_max);
                        }
                    }
                    done = moved;
                    t += 1;
                }
                proof {
                    if !done {
                        lemma_first_ok_scan(start, cur, vertex as int, old_day as int, dr, 0, t as int);
                    }
                }
            }
            proof {
                assert(ids_around(start, old_day as int, vertex as int, start.N as int) == cnt_day@[old_day as int]@);
                assert(g@ == day_step(start, cur, vertex as int, old_day as int, dr));
                let tr2 = tr.push(dr);
                lemma_days_upto_prefix(start, vertex as int, tr, tr2, old_day - 1);
                tr = tr2;
            }
            old_day += 1;
        }
        proof {
            let es2 = es.push(e);
            let ts2 = ts.push(tr);
            assert(es2.drop_last() =~= es);
            assert(ts2.drop_last() =~= ts);
            assert(g@ == round_spec(start, e as int, tr));
            assert(g@ == rounds(g0, es2, ts2));
            assert forall|r: int| 0 <= r < es2.len() implies #[trigger] es2[r] < g0.M by {
                if r < es.len() {
                    assert(es2[r] == es[r]);
                }
            }
            assert forall|r: int| 0 <= r < ts2.len() implies #[trigger] ts2[r].len() == g0.D + 1 by {
                if r < ts.len() {
                    assert(ts2[r] == ts[r]);
                }
            }
            assert forall|r: int, p: int| 0 <= r < ts2.len() && 0 <= p < ts2[r].len() implies #[trigger] ts2[r][p].len()
                <= TRY_TIME by {
                if r < ts.len() {
                    assert(ts2[r] == ts[r]);
                }
            }
            assert forall|r: int, p: int, q: int|
                0 <= r < ts2.len() && 0 <= p < ts2[r].len() && 0 <= q < ts2[r][p].len() implies 1 <= #[trigger] ts2[r][p][q]
                <= d_max by {
                if r < ts.len() {
                    assert(ts2[r] == ts[r]);
                }
            }
            es = es2;
            ts = ts2;
        }
        rep += 1;
    }
    proof {
        assert(es.len() == REP_TIME && draws_fit(g0, es, ts, d_max) && g@ == rounds(g0, es, ts));
    }
}

/// The last day of improvement: five past the last day of the first-come
/// plan of `m` roads, at most `d`.
pub open spec fn last_day(m: int, d: int, k: int) -> int {
    let planned = (m - 1) / k + 1;
    if d - planned < 5 {
        d
    } else {
        planned + 5
    }
}

/// The first-come plan, then `improve` with days up to five past the last
/// planned day (at most `d`). Returns the day of each road.
pub fn solve(n: usize, d: usize, k: usize, uvw: &Vec<(usize, usize, usize)>) -> (days: Vec<usize>)
    requires
        k > 0,
        0 < uvw.len() < usize::MAX,
        1 <= d < usize::MAX,
        forall|i: int|
            0 <= i < uvw.len() ==> 1 <= #[trigger] uvw@[i].0 <= n && 1 <= uvw@[i].1 <= n,
        forall|i: int| 0 <= i < uvw.len() ==> #[trigger] (i / (k as int)) + 1 <= d,
    ensures
        days.len() == uvw.len(),
        forall|i: int|
            0 <= i < days.len() ==> #[trigger] days@[i] == i / (k as int) + 1 || 1 <= days@[i] <= d,
        forall|x: int| #[trigger] day_count(days@, x) <= k,
        exists|es: Seq<usize>, ts: Seq<Seq<Seq<usize>>>|
            es.len() == REP_TIME && #[trigger] draws_fit(
                plan_view(n, d, k, uvw@),
                es,
                ts,
                last_day(uvw.len() as int, d as int, k as int) as usize,
            ) && days@ == days_of(rounds(plan_view(n, d, k, uvw@), es, ts).edges),
{
    let mut d_max: usize = 0;
    let mut i: usize = 0;
    while i < uvw.len()
        invariant
            k > 0,
            0 <= i <= uvw.len(),
            forall|j: int| 0 <= j < uvw.len() ==> #[trigger] (j / (k as int)) + 1 <= d,
            d_max <= d,
            i > 0 ==> d_max >= 1,
            i > 0 ==> d_max == (i - 1) / (k as int) + 1,
        decreases uvw.len() - i,
    {
        d_max = i / k + 1;
        i += 1;
    }
    let mut graph = build(n, d, k, uvw);
    d_max = if d - d_max < 5 {
        d
    } else {
        d_max + 5
    };
    let mut rng = small_rng_from_seed(SEED);
    let ghost g0 = graph@;
    improve(&mut graph, &mut rng, d_max);
    let days = graph.days();
    proof {
        assert forall|i: int| 0 <= i < days.len() implies #[trigger] days@[i] == i / (k as int) + 1 || 1
            <= days@[i] <= d by {
            assert(graph.edges@[i].day == g0.edges[i].day || 1 <= graph.edges@[i].day <= d_max);
        }
        assert forall|x: int| #[trigger] day_count(days@, x) <= k by {
            if 0 <= x <= d {
                assert(graph.cnt@[x] == day_count(days@, x));
                assert(g0.cnt[x] <= k);
            } else {
                lemma_day_count_absent(days@, x);
            }
        }
        assert(d_max == last_day(uvw.len() as int, d as int, k as int));
        let (es, ts) = choose|es: Seq<usize>, ts: Seq<Seq<Seq<usize>>>|
            es.len() == REP_TIME && #[trigger] draws_fit(g0, es, ts, d_max) && graph@ == rounds(g0, es, ts);
        assert(days@ == days_of(rounds(plan_view(n, d, k, uvw@), es, ts).edges));
        assert(draws_fit(plan_view(n, d, k, uvw@), es, ts, last_day(uvw.len() as int, d as int, k as int) as usize));
    }
    days
}

/// A day that no entry names has count zero.
proof fn lemma_day_count_absent(days: Seq<usize>, x: int)
    requires
        forall|i: int| 0 <= i < days.len() ==> #[trigger] days[i] != x,
    ensures
        day_count(days, x) == 0,
    decreases days.len(),
{
    if days.len() > 0 {
        lemma_day_count_absent(days.drop_last(), x);
    }
}

} // verus!
