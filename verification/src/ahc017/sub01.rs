//! The first-come plan: `K` roads a day in input order.
use vstd::prelude::*;

verus! {

/// A neighbour `nxt` reached by a road of weight `wgt`.
#[derive(Debug, Clone, Copy)]
pub struct Node {
    pub nxt: usize,
    pub wgt: usize,
}

/// The neighbours of vertex `x` (numbered from 0) in the order in which the
/// roads `uvw` (endpoints numbered from 1) list them: for each road, first
/// the entry at `u`, then the one at `v`.
pub open spec fn incident(uvw: Seq<(usize, usize, usize)>, x: int) -> Seq<Node>
    decreases uvw.len(),
{
    if uvw.len() == 0 {
        Seq::empty()
    } else {
        let (u, v, w) = uvw.last();
        let rest = incident(uvw.drop_last(), x);
        let a = if u - 1 == x {
            rest.push(Node { nxt: (v - 1) as usize, wgt: w })
        } else {
            rest
        };
        if v - 1 == x {
            a.push(Node { nxt: (u - 1) as usize, wgt: w })
        } else {
            a
        }
    }
}

/// The adjacency lists of the road network on `n` vertices.
pub fn adjacency(n: usize, uvw: &Vec<(usize, usize, usize)>) -> (g: Vec<Vec<Node>>)
    requires
        forall|i: int|
            0 <= i < uvw.len() ==> 1 <= #[trigger] uvw@[i].0 <= n && 1 <= uvw@[i].1 <= n,
    ensures
        g.len() == n,
        forall|x: int| 0 <= x < n ==> #[trigger] g@[x]@ == incident(uvw@, x),
{
    let mut g: Vec<Vec<Node>> = Vec::new();
    let mut x: usize = 0;
    while x < n
        invariant
            0 <= x <= n,
            g.len() == x,
            forall|y: int| 0 <= y < x ==> #[trigger] g@[y]@ == Seq::<Node>::empty(),
        decreases n - x,
    {
        g.push(Vec::new());
        x += 1;
    }
    proof {
        assert forall|y: int| 0 <= y < n implies #[trigger] g@[y]@ == incident(uvw@.take(0), y) by {
            assert(uvw@.take(0).len() == 0);
        }
    }
    let mut i: usize = 0;
    while i < uvw.len()
        invariant
            0 <= i <= uvw.len(),
            g.len() == n,
            forall|j: int|
                0 <= j < uvw.len() ==> 1 <= #[trigger] uvw@[j].0 <= n && 1 <= uvw@[j].1 <= n,
            forall|y: int| 0 <= y < n ==> #[trigger] g@[y]@ == incident(uvw@.take(i as int), y),
        decreases uvw.len() - i,
    {
        let (u, v, w) = uvw[i];
        let ghost g0 = g@;
        g[u - 1].push(Node { nxt: v - 1, wgt: w });
        let ghost g1 = g@;
        g[v - 1].push(Node { nxt: u - 1, wgt: w });
        proof {
            let pre = uvw@.take(i as int);
            let post = uvw@.take(i + 1);
            assert(post.drop_last() =~= pre);
            assert(post.last() == uvw@[i as int]);
            assert forall|y: int| 0 <= y < n implies #[trigger] g@[y]@ == incident(post, y) by {
                if y != u - 1 {
                    assert(g1[y] == g0[y]);
                }
                if y != v - 1 {
                    assert(g@[y] == g1[y]);
                }
            }
        }
        i += 1;
    }
    proof {
        assert(uvw@.take(uvw.len() as int) =~= uvw@);
    }
    g
}

/// The day of each of `m` roads when `k` are built a day in order:
/// road `i` on day `i / k + 1`.
pub fn plan(m: usize, k: usize) -> (days: Vec<usize>)
    requires
        k > 0,
    ensures
        days.len() == m,
        forall|i: int| 0 <= i < m ==> #[trigger] days@[i] == i / (k as int) + 1,
{
    let mut days: Vec<usize> = Vec::new();
    let mut i: usize = 0;
    while i < m
        invariant
            k > 0,
            0 <= i <= m,
            days.len() == i,
            forall|j: int| 0 <= j < i ==> #[trigger] days@[j] == j / (k as int) + 1,
        decreases m - i,
    {
        proof {
            assert((i as int) / (k as int) <= i) by (nonlinear_arith)
                requires
                    k > 0,
            ;
        }
        days.push(i / k + 1);
        i += 1;
    }
    days
}

} // verus!
