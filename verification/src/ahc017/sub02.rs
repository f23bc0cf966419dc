//! Random day changes under a per-day cap.
use vstd::prelude::*;
use crate::ahc017::schedule::{
    day_count,
    lemma_day_count_push,
    lemma_day_count_update,
    lemma_day_count_positive,
};
use crate::random::{small_rng_from_seed, small_rng_gen_range};

verus! {

/// Seed of the generator.
pub const SEED: u64 = 20021213;

/// Number of random day changes tried.
pub const REP_TIME: usize = 1_000_000;

/// # Edge
/// A road `u`-`v` of weight `w`, under construction on `day`.
#[derive(Debug, Clone, Copy)]
pub struct Edge {
    pub u: usize,
    pub v: usize,
    pub w: usize,
    pub day: usize,
}

/// The days of a sequence of edges.
pub open spec fn days_of(edges: Seq<Edge>) -> Seq<usize> {
    edges.map_values(|e: Edge| e.day)
}

/// # Graph
/// The roads and, for each day, how many of them are under construction.
#[derive(Debug)]
pub struct Graph {
    /// number of vertices
    pub N: usize,
    /// number of edges
    pub M: usize,
    /// number of days
    pub D: usize,
    /// most works a day
    pub K: usize,
    /// the edges
    pub edges: Vec<Edge>,
    /// `cnt[d]`: the number of edges under construction on day `d`
    pub cnt: Vec<usize>,
}

impl Graph {
    /// `cnt` has a counter for each day `0..=D` and counts the edges of each
    /// day, and `M` counts the edges.
    pub open spec fn well_formed(&self) -> bool {
        &&& self.M == self.edges.len()
        &&& self.cnt.len() == self.D + 1
        &&& forall|i: int| 0 <= i < self.edges.len() ==> #[trigger] self.edges@[i].day < self.cnt.len()
        &&& forall|d: int| 0 <= d < self.cnt.len() ==> #[trigger] self.cnt@[d] == day_count(days_of(self.edges@), d)
    }

    /// An empty graph on `n` vertices with a zero counter for each day `0..=d`.
    pub fn new(n: usize, d: usize, k: usize) -> (g: Self)
        requires
            d < usize::MAX,
        ensures
            g.well_formed(),
            g.N == n,
            g.M == 0,
            g.D == d,
            g.K == k,
            g.edges@ == Seq::<Edge>::empty(),
            g.cnt@ == Seq::new((d + 1) as nat, |i: int| 0usize),
    {
        let g = Graph { N: n, M: 0, D: d, K: k, edges: vec![], cnt: vec![0; d + 1] };
        proof {
            assert(days_of(g.edges@) =~= Seq::<usize>::empty());
        }
        g
    }

    /// Adds an edge planned on `day`.
    pub fn append_edge(&mut self, u: usize, v: usize, w: usize, day: usize)
        requires
            old(self).well_formed(),
            day < old(self).cnt.len(),
            old(self).M < usize::MAX,
        ensures
            final(self).well_formed(),
            final(self).edges@ == old(self).edges@.push(Edge { u, v, w, day }),
            final(self).cnt@ == old(self).cnt@.update(day as int, (old(self).cnt@[day as int] + 1) as usize),
            final(self).M == old(self).M + 1,
            final(self).N == old(self).N,
            final(self).D == old(self).D,
            final(self).K == old(self).K,
    {
        let ghost old_days = days_of(self.edges@);
        proof {
            crate::ahc017::schedule::lemma_day_count_bounds(old_days, day as int);
        }
        self.edges.push(Edge { u, v, w, day });
        self.cnt[day] += 1;
        self.M += 1;
        proof {
            assert(days_of(self.edges@) =~= old_days.push(day));
            assert forall|d: int| 0 <= d < self.cnt.len() implies #[trigger] self.cnt@[d] == day_count(
                days_of(self.edges@),
                d,
            ) by {
                lemma_day_count_push(old_days, day, d);
            }
        }
    }

    /// Moves edge `edge` to `new_day` unless that day already has `K` works;
    /// tells whether it moved.
    pub fn change_day(&mut self, edge: usize, new_day: usize) -> (moved: bool)
        requires
            old(self).well_formed(),
            new_day < old(self).cnt.len(),
            old(self).cnt@[new_day as int] < old(self).K ==> edge < old(self).edges.len(),
        ensures
            final(self).well_formed(),
            moved == (old(self).cnt@[new_day as int] < old(self).K),
            moved ==> final(self).edges@ == old(self).edges@.update(
                edge as int,
                Edge { day: new_day, ..old(self).edges@[edge as int] },
            ),
            moved ==> final(self).cnt@ == ({
                let od = old(self).edges@[edge as int].day as int;
                let c1 = old(self).cnt@.update(od, (old(self).cnt@[od] - 1) as usize);
                c1.update(new_day as int, (c1[new_day as int] + 1) as usize)
            }),
            moved ==> final(self).cnt@[new_day as int] <= final(self).K,
            moved ==> old(self).cnt@[old(self).edges@[edge as int].day as int] >= 1,
            !moved ==> final(self).edges@ == old(self).edges@,
            !moved ==> final(self).cnt@ == old(self).cnt@,
            final(self).M == old(self).M,
            final(self).N == old(self).N,
            final(self).D == old(self).D,
            final(self).K == old(self).K,
    {
        if self.cnt[new_day] >= self.K {
            return false;
        }
        let ghost old_days = days_of(self.edges@);
        let old_day = self.edges[edge].day;
        proof {
            lemma_day_count_positive(old_days, edge as int);
        }
        let mut e = self.edges[edge];
        e.day = new_day;
        self.edges.set(edge, e);
        self.cnt[old_day] -= 1;
        self.cnt[new_day] += 1;
        proof {
            assert(days_of(self.edges@) =~= old_days.update(edge as int, new_day));
            assert forall|d: int| 0 <= d < self.cnt.len() implies #[trigger] self.cnt@[d] == day_count(
                days_of(self.edges@),
                d,
            ) by {
                lemma_day_count_update(old_days, edge as int, new_day, d);
            }
        }
        true
    }

    /// The day of each edge, in order.
    pub fn days(&self) -> (days: Vec<usize>)
        ensures
            days@ == days_of(self.edges@),
    {
        let mut days: Vec<usize> = Vec::new();
        let mut i: usize = 0;
        while i < self.edges.len()
            invariant
                0 <= i <= self.edges.len(),
                days@ == days_of(self.edges@).take(i as int),
            decreases self.edges.len() - i,
        {
            days.push(self.edges[i].day);
            i += 1;
            proof {
                assert(days@ =~= days_of(self.edges@).take(i as int));
            }
        }
        proof {
            assert(days_of(self.edges@).take(i as int) =~= days_of(self.edges@));
        }
        days
    }
}

/// The schedule of the first-come plan: the `i`-th road (endpoints numbered
/// from 1 in `uvw`) is built on day `i / k + 1`.
pub fn build(n: usize, d: usize, k: usize, uvw: &Vec<(usize, usize, usize)>) -> (g: Graph)
    requires
        k > 0,
        d < usize::MAX,
        uvw.len() < usize::MAX,
        forall|i: int| 0 <= i < uvw.len() ==> #[trigger] uvw@[i].0 >= 1 && uvw@[i].1 >= 1,
        forall|i: int| 0 <= i < uvw.len() ==> #[trigger] (i / (k as int)) + 1 <= d,
    ensures
        g.well_formed(),
        g.N == n,
        g.D == d,
        g.K == k,
        g.M == uvw.len(),
        g.cnt.len() == d + 1,
        forall|i: int|
            0 <= i < uvw.len() ==> #[trigger] g.edges@[i] == (Edge {
                u: (uvw@[i].0 - 1) as usize,
                v: (uvw@[i].1 - 1) as usize,
                w: uvw@[i].2,
                day: (i / (k as int) + 1) as usize,
            }),
        forall|x: int| 0 <= x < g.cnt.len() ==> #[trigger] g.cnt@[x] <= k,
{
    let mut g = Graph::new(n, d, k);
    let mut i: usize = 0;
    while i < uvw.len()
        invariant
            k > 0,
            0 <= i <= uvw.len(),
            uvw.len() < usize::MAX,
            forall|j: int| 0 <= j < uvw.len() ==> #[trigger] uvw@[j].0 >= 1 && uvw@[j].1 >= 1,
            forall|j: int| 0 <= j < uvw.len() ==> #[trigger] (j / (k as int)) + 1 <= d,
            g.well_formed(),
            g.N == n,
            g.D == d,
            g.K == k,
            g.M == i,
            g.cnt.len() == d + 1,
            forall|j: int|
                0 <= j < i ==> #[trigger] g.edges@[j] == (Edge {
                    u: (uvw@[j].0 - 1) as usize,
                    v: (uvw@[j].1 - 1) as usize,
                    w: uvw@[j].2,
                    day: (j / (k as int) + 1) as usize,
                }),
            forall|x: int| 0 <= x <= d ==> #[trigger] g.cnt@[x] <= k,
            forall|x: int| 0 <= x <= d && x > (i as int) / (k as int) + 1 ==> #[trigger] g.cnt@[x] == 0,
            (i as int) / (k as int) + 1 <= d ==> g.cnt@[(i as int) / (k as int) + 1] == (i as int) % (k as int),
        decreases uvw.len() - i,
    {
        let (u, v, w) = uvw[i];
        let day = i / k + 1;
        proof {
            assert((i as int) / (k as int) + 1 <= d);
        }
        g.append_edge(u - 1, v - 1, w, day);
        proof {
            let ii = i as int;
            let kk = k as int;
            assert(ii % kk < kk) by (nonlinear_arith)
                requires
                    kk > 0,
                    ii >= 0,
            ;
            assert(((ii + 1) % kk == 0 && (ii + 1) / kk == ii / kk + 1) || ((ii + 1) % kk == ii % kk
                + 1 && (ii + 1) / kk == ii / kk)) by (nonlinear_arith)
                requires
                    kk > 0,
                    ii >= 0,
            {
                vstd::arithmetic::div_mod::lemma_fundamental_div_mod(ii, kk);
                vstd::arithmetic::div_mod::lemma_fundamental_div_mod(ii + 1, kk);
                vstd::arithmetic::div_mod::lemma_mod_bound(ii, kk);
                vstd::arithmetic::div_mod::lemma_mod_bound(ii + 1, kk);
            }
        }
        i = i + 1;
    }
    g
}

/// The days of the first-come plan of `m` roads: road `i` on day `i / k + 1`.
pub open spec fn plan_days(m: int, k: int) -> Seq<usize> {
    Seq::new(m as nat, |i: int| (i / k + 1) as usize)
}

/// One move: road `edge` goes to `new_day` when that day has fewer than `k`
/// works.
pub open spec fn move_day(days: Seq<usize>, k: usize, edge: usize, new_day: usize) -> Seq<usize> {
    if day_count(days, new_day as int) < k {
        days.update(edge as int, new_day)
    } else {
        days
    }
}

/// The moves `draws` (a road and a day each), one after the other.
pub open spec fn moves(days: Seq<usize>, k: usize, draws: Seq<(usize, usize)>) -> Seq<usize>
    decreases draws.len(),
{
    if draws.len() == 0 {
        days
    } else {
        move_day(moves(days, k, draws.drop_last()), k, draws.last().0, draws.last().1)
    }
}

/// Each move names one of `m` roads and a day of `1..=d`.
pub open spec fn draws_in(draws: Seq<(usize, usize)>, m: int, d: int) -> bool {
    forall|r: int| 0 <= r < draws.len() ==> #[trigger] draws[r].0 < m && 1 <= draws[r].1 <= d
}

/// The first-come plan improved by `REP_TIME` random moves of a random edge
/// to a random day of `1..=d`; a move is made only when the day has fewer
/// than `k` works. Returns the day of each road.
pub fn solve(n: usize, d: usize, k: usize, uvw: &Vec<(usize, usize, usize)>) -> (days: Vec<usize>)
    requires
        k > 0,
        0 < uvw.len() < usize::MAX,
        1 <= d < usize::MAX,
        forall|i: int| 0 <= i < uvw.len() ==> #[trigger] uvw@[i].0 >= 1 && uvw@[i].1 >= 1,
        forall|i: int| 0 <= i < uvw.len() ==> #[trigger] (i / (k as int)) + 1 <= d,
    ensures
        days.len() == uvw.len(),
        forall|i: int|
            0 <= i < days.len() ==> #[trigger] days@[i] == i / (k as int) + 1 || 1 <= days@[i] <= d,
        forall|x: int| #[trigger] day_count(days@, x) <= k,
        exists|draws: Seq<(usize, usize)>|
            draws.len() == REP_TIME && #[trigger] draws_in(draws, uvw.len() as int, d as int) && days@ == moves(
                plan_days(uvw.len() as int, k as int),
                k,
                draws,
            ),
{
    let mut graph = build(n, d, k, uvw);
    let ghost mut draws: Seq<(usize, usize)> = Seq::empty();
    proof {
        assert(days_of(graph.edges@) =~= plan_days(uvw.len() as int, k as int));
    }
    let mut rng = small_rng_from_seed(SEED);
    let m = uvw.len();
    let mut t: usize = 0;
    while t < REP_TIME
        invariant
            graph.well_formed(),
            graph.N == n,
            graph.D == d,
            graph.K == k,
            graph.M == m,
            graph.cnt.len() == d + 1,
            0 < m,
            1 <= d < usize::MAX,
            forall|i: int|
                0 <= i < m ==> #[trigger] graph.edges@[i].day == i / (k as int) + 1 || 1
                    <= graph.edges@[i].day <= d,
            forall|x: int| 0 <= x <= d ==> #[trigger] graph.cnt@[x] <= k,
            t <= REP_TIME,
            draws.len() == t,
            draws_in(draws, m as int, d as int),
            days_of(graph.edges@) == moves(plan_days(m as int, k as int), k, draws),
        decreases REP_TIME - t,
    {
        let edge = small_rng_gen_range(&mut rng, 0, m);
        let new_day = small_rng_gen_range(&mut rng, 1, d + 1);
        let ghost before = graph;
        graph.change_day(edge, new_day);
        proof {
            let draws2 = draws.push((edge, new_day));
            assert(draws2.drop_last() =~= draws);
            assert(before.cnt@[new_day as int] == day_count(days_of(before.edges@), new_day as int));
            if before.cnt@[new_day as int] < k {
                assert(days_of(graph.edges@) =~= days_of(before.edges@).update(edge as int, new_day));
            } else {
                assert(days_of(graph.edges@) =~= days_of(before.edges@));
            }
            assert(days_of(graph.edges@) == moves(plan_days(m as int, k as int), k, draws2));
            assert forall|r: int| 0 <= r < draws2.len() implies #[trigger] draws2[r].0 < m && 1 <= draws2[r].1 <= d by {
                if r < draws.len() {
                    assert(draws2[r] == draws[r]);
                }
            }
            draws = draws2;
            assert forall|x: int| 0 <= x <= d implies #[trigger] graph.cnt@[x] <= k by {
                if x != new_day as int {
                    assert(graph.cnt@[x] <= before.cnt@[x]);
                }
            }
        }
        t += 1;
    }
    let days = graph.days();
    proof {
        assert forall|x: int| #[trigger] day_count(days@, x) <= k by {
            if 0 <= x <= d {
                assert(graph.cnt@[x] == day_count(days@, x));
            } else {
                lemma_day_count_absent(days@, x);
            }
        }
        assert(draws.len() == REP_TIME && draws_in(draws, uvw.len() as int, d as int));
    }
    days
}

/// A day that no entry names has count zero.
proof fn lemma_day_count_absent(days: Seq<usize>, x: int)
    requires
        forall|i: int| 0 <= i < days.len() ==> #[trigger] days[i] != x,
    ensures
        day_count(days, x) == 0,
    decreases days.len(),
{
    if days.len() > 0 {
        lemma_day_count_absent(days.drop_last(), x);
    }
}

} // verus!
