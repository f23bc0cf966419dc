//! Cheapest costs between every two points of a small complete graph
//! (Floyd–Warshall), and the walk back along a cheapest way.
use vstd::prelude::*;
use crate::ahc018::geometry::Pos;

verus! {

/// The largest edge cost whose double still fits in a `u64`.
pub const COST_MAX: u64 = 9223372036854775807;

/// `d` is an `n x n` matrix whose entries are at most `COST_MAX`.
pub open spec fn cost_table(d: Seq<Vec<u64>>, n: int) -> bool {
    &&& d.len() == n
    &&& forall|i: int| 0 <= i < n ==> #[trigger] d[i]@.len() == n
    &&& forall|i: int, j: int| 0 <= i < n && 0 <= j < n ==> #[trigger] d[i]@[j] <= COST_MAX
}

/// The entries of a matrix held as a vector of rows.
pub open spec fn matrix(d: Seq<Vec<u64>>) -> Seq<Seq<u64>> {
    Seq::new(d.len(), |i: int| d[i]@)
}

/// The cheapest cost from `i` to `j` on ways whose inner points are among
/// the first `k` points: the recurrence of the Floyd–Warshall algorithm.
pub open spec fn fw(d: Seq<Seq<u64>>, k: nat, i: int, j: int) -> int
    decreases k,
{
    if k == 0 {
        d[i][j] as int
    } else {
        let m = (k - 1) as nat;
        let direct = fw(d, m, i, j);
        let via = fw(d, m, i, m as int) + fw(d, m, m as int, j);
        if via < direct {
            via
        } else {
            direct
        }
    }
}

/// A cheapest cost is never negative and never above the direct cost.
pub proof fn lemma_fw_bounds(d: Seq<Seq<u64>>, k: nat, i: int, j: int)
    ensures
        0 <= fw(d, k, i, j) <= d[i][j],
    decreases k,
{
    if k > 0 {
        let m = (k - 1) as nat;
        lemma_fw_bounds(d, m, i, j);
        lemma_fw_bounds(d, m, i, m as int);
        lemma_fw_bounds(d, m, m as int, j);
    }
}

/// Allowing the point `k` as an inner point changes no cost to or from `k`.
pub proof fn lemma_fw_pivot_stable(d: Seq<Seq<u64>>, k: nat, a: int)
    ensures
        fw(d, k + 1, a, k as int) == fw(d, k, a, k as int),
        fw(d, k + 1, k as int, a) == fw(d, k, k as int, a),
{
    lemma_fw_bounds(d, k, k as int, k as int);
    lemma_fw_bounds(d, k, a, k as int);
    lemma_fw_bounds(d, k, k as int, a);
    assert(fw(d, k + 1, a, k as int) == fw(d, k, a, k as int));
    assert(fw(d, k + 1, k as int, a) == fw(d, k, k as int, a));
}

/// Every cheapest cost is at most the cost of going through any single
/// point `m` of the first `k`: `fw(k, i, j) <= fw(k, i, m) + fw(k, m, j)`.
pub proof fn lemma_fw_triangle(d: Seq<Seq<u64>>, k: nat, i: int, m: int, j: int)
    requires
        0 <= m < k,
    ensures
        fw(d, k, i, j) <= fw(d, k, i, m) + fw(d, k, m, j),
    decreases k,
{
    let p = (k - 1) as nat;
    if m == p {
        lemma_fw_pivot_stable(d, p, i);
        lemma_fw_pivot_stable(d, p, j);
    } else {
        lemma_fw_triangle(d, p, i, m, j);
        lemma_fw_triangle(d, p, p as int, m, j);
        lemma_fw_triangle(d, p, i, m, p as int);
        lemma_fw_triangle_step(d, p, i, m, j);
    }
}

/// The inductive step of `lemma_fw_triangle` for a point `m` other than the
/// newly allowed one.
proof fn lemma_fw_triangle_step(d: Seq<Seq<u64>>, p: nat, i: int, m: int, j: int)
    requires
        m != p,
        fw(d, p, i, j) <= fw(d, p, i, m) + fw(d, p, m, j),
        fw(d, p, p as int, j) <= fw(d, p, p as int, m) + fw(d, p, m, j),
        fw(d, p, i, p as int) <= fw(d, p, i, m) + fw(d, p, m, p as int),
    ensures
        fw(d, p + 1, i, j) <= fw(d, p + 1, i, m) + fw(d, p + 1, m, j),
{
    let q = p as int;
    let ij = fw(d, p + 1, i, j);
    assert(ij <= fw(d, p, i, j));
    assert(ij <= fw(d, p, i, q) + fw(d, p, q, j));
    lemma_fw_bounds(d, p, q, m);
    lemma_fw_bounds(d, p, m, q);
}

/// A copy of a matrix.
fn copy_matrix(d: &Vec<Vec<u64>>) -> (out: Vec<Vec<u64>>)
    ensures
        out.len() == d.len(),
        forall|i: int| 0 <= i < d.len() ==> #[trigger] out@[i]@ == d@[i]@,
{
    let mut out: Vec<Vec<u64>> = Vec::new();
    let mut i: usize = 0;
    while i < d.len()
        invariant
            0 <= i <= d.len(),
            out.len() == i,
            forall|a: int| 0 <= a < i ==> #[trigger] out@[a]@ == d@[a]@,
        decreases d.len() - i,
    {
        let mut row: Vec<u64> = Vec::new();
        let mut j: usize = 0;
        while j < d[i].len()
            invariant
                i < d.len(),
                0 <= j <= d@[i as int].len(),
                row@ == d@[i as int]@.take(j as int),
            decreases d@[i as int].len() - j,
        {
            row.push(d[i][j]);
            proof {
                assert(d@[i as int]@.take(j + 1) =~= d@[i as int]@.take(j as int).push(d@[i as int]@[j as int]));
            }
            j += 1;
        }
        proof {
            assert(d@[i as int]@.take(j as int) =~= d@[i as int]@);
        }
        out.push(row);
        i += 1;
    }
    out
}

/// The matrix of cheapest costs between every two of the `d.len()` points.
pub open spec fn fw_matrix(d: Seq<Seq<u64>>) -> Seq<Seq<u64>> {
    Seq::new(d.len(), |i: int| Seq::new(d.len(), |j: int| fw(d, d.len() as nat, i, j) as u64))
}

/// The cheapest cost between every two points, by the Floyd–Warshall
/// algorithm on the matrix of direct costs `d`.
pub fn floyd_warshall(d: &Vec<Vec<u64>>) -> (dp: Vec<Vec<u64>>)
    requires
        cost_table(d@, d.len() as int),
    ensures
        dp.len() == d.len(),
        forall|i: int| 0 <= i < d.len() ==> #[trigger] dp@[i]@.len() == d.len(),
        forall|i: int, j: int|
            0 <= i < d.len() && 0 <= j < d.len() ==> #[trigger] dp@[i]@[j] == fw(matrix(d@), d.len() as nat, i, j),
        matrix(dp@) =~~= fw_matrix(matrix(d@)),
        cost_table(dp@, d.len() as int),
{
    let siz = d.len();
    let ghost m = matrix(d@);
    let mut dp = copy_matrix(d);
    proof {
        assert forall|a: int| 0 <= a < siz implies #[trigger] dp@[a]@.len() == siz by {
            assert(dp@[a]@ == d@[a]@);
        }
        assert forall|a: int, b: int| 0 <= a < siz && 0 <= b < siz implies #[trigger] dp@[a]@[b] == fw(m, 0, a, b) by {
            assert(dp@[a]@ == d@[a]@);
            assert(m[a] == d@[a]@);
        }
    }
    for k in 0..siz
        invariant
            siz == d.len(),
            cost_table(d@, siz as int),
            m == matrix(d@),
            dp.len() == siz,
            forall|a: int| 0 <= a < siz ==> #[trigger] dp@[a]@.len() == siz,
            forall|a: int, b: int| 0 <= a < siz && 0 <= b < siz ==> #[trigger] dp@[a]@[b] == fw(m, k as nat, a, b),
    {
        let ghost kk = k as nat;
        proof {
            assert forall|a: int| 0 <= a < siz implies fw(m, kk + 1, a, k as int) == fw(m, kk, a, k as int)
                && fw(m, kk + 1, k as int, a) == fw(m, kk, k as int, a) by {
                lemma_fw_pivot_stable(m, kk, a);
            }
        }
        for i in 0..siz
            invariant
                siz == d.len(),
                k < siz,
                kk == k as nat,
                cost_table(d@, siz as int),
                m == matrix(d@),
                dp.len() == siz,
                forall|a: int| 0 <= a < siz ==> #[trigger] dp@[a]@.len() == siz,
                forall|a: int| 0 <= a < siz ==> fw(m, kk + 1, a, k as int) == fw(m, kk, a, k as int),
                forall|a: int| 0 <= a < siz ==> fw(m, kk + 1, k as int, a) == fw(m, kk, k as int, a),
                forall|a: int, b: int|
                    0 <= a < siz && 0 <= b < siz ==> #[trigger] dp@[a]@[b] == (if a < i {
                        fw(m, kk + 1, a, b)
                    } else {
                        fw(m, kk, a, b)
                    }),
        {
            for j in 0..siz
                invariant
                    siz == d.len(),
                    k < siz,
                    i < siz,
                    kk == k as nat,
                    cost_table(d@, siz as int),
                    m == matrix(d@),
                    dp.len() == siz,
                    forall|a: int| 0 <= a < siz ==> #[trigger] dp@[a]@.len() == siz,
                    forall|a: int| 0 <= a < siz ==> fw(m, kk + 1, a, k as int) == fw(m, kk, a, k as int),
                    forall|a: int| 0 <= a < siz ==> fw(m, kk + 1, k as int, a) == fw(m, kk, k as int, a),
                    forall|a: int, b: int|
                        0 <= a < siz && 0 <= b < siz ==> #[trigger] dp@[a]@[b] == (if a < i || (a == i && b < j) {
                            fw(m, kk + 1, a, b)
                        } else {
                            fw(m, kk, a, b)
                        }),
            {
                proof {
                    assert(dp@[i as int]@[k as int] == fw(m, kk, i as int, k as int));
                    assert(dp@[k as int]@[j as int] == fw(m, kk, k as int, j as int));
                    lemma_fw_bounds(m, kk, i as int, k as int);
                    lemma_fw_bounds(m, kk, k as int, j as int);
                    assert(m[i as int][k as int] == d@[i as int]@[k as int]);
                    assert(m[k as int][j as int] == d@[k as int]@[j as int]);
                }
                let via = dp[i][k] + dp[k][j];
                if dp[i][j] > via {
                    let ghost before = dp@;
                    dp[i][j] = via;
                    proof {
                        assert forall|a: int| 0 <= a < siz implies #[trigger] dp@[a]@.len() == siz by {
                            if a != i {
                                assert(dp@[a] == before[a]);
                            }
                        }
                        assert forall|a: int, b: int| 0 <= a < siz && 0 <= b < siz implies #[trigger] dp@[a]@[b] == (if a < i || (a == i && b < j + 1) {
                            fw(m, kk + 1, a, b)
                        } else {
                            fw(m, kk, a, b)
                        }) by {
                            if a != i {
                                assert(dp@[a] == before[a]);
                                assert(before[a]@[b] == dp@[a]@[b]);
                            } else if b != j {
                                assert(dp@[a]@[b] == before[a]@[b]);
                            }
                        }
                    }
                } else {
                    proof {
                        assert forall|a: int, b: int| 0 <= a < siz && 0 <= b < siz implies #[trigger] dp@[a]@[b] == (if a < i || (a == i && b < j + 1) {
                            fw(m, kk + 1, a, b)
                        } else {
                            fw(m, kk, a, b)
                        }) by {
                            assert(dp@[a]@[b] == dp@[a]@[b]);
                        }
                    }
                }
            }
        }
    }
    proof {
        assert forall|a: int, b: int| 0 <= a < siz && 0 <= b < siz implies #[trigger] matrix(dp@)[a][b] == fw_matrix(m)[a][b] by {
            lemma_fw_bounds(m, siz as nat, a, b);
            assert(m[a][b] == d@[a]@[b]);
        }
        assert forall|a: int, b: int| 0 <= a < siz && 0 <= b < siz implies #[trigger] dp@[a]@[b] <= COST_MAX by {
            lemma_fw_bounds(m, siz as nat, a, b);
            assert(m[a][b] == d@[a]@[b]);
        }
        assert forall|a: int| 0 <= a < siz implies #[trigger] matrix(dp@)[a] =~= fw_matrix(m)[a] by {
            assert forall|b: int| 0 <= b < siz implies matrix(dp@)[a][b] == fw_matrix(m)[a][b] by {
                assert(matrix(dp@)[a][b] == fw_matrix(m)[a][b]);
            }
        }
    }
    dp
}

/// `i` is a next point on a cheapest way from `cur` to `g`: going to `i`
/// directly and then on cheapest costs no more than the cheapest from `cur`.
pub open spec fn is_hop(d: Seq<Seq<u64>>, dp: Seq<Seq<u64>>, g: int, cur: int, i: int) -> bool {
    i != cur && d[cur][i] + dp[i][g] == dp[cur][g]
}

/// The first `i` from `i0` on that is a next point from `cur`.
pub open spec fn hop_from(d: Seq<Seq<u64>>, dp: Seq<Seq<u64>>, g: int, cur: int, i0: int) -> Option<int>
    decreases d.len() - i0,
{
    if i0 < 0 || i0 >= d.len() {
        None
    } else if is_hop(d, dp, g, cur, i0) {
        Some(i0)
    } else {
        hop_from(d, dp, g, cur, i0 + 1)
    }
}

/// The points visited, in order, when following next points from `cur`
/// for at most `rounds` steps, stopping at `g` or where no next point is.
pub open spec fn hops(d: Seq<Seq<u64>>, dp: Seq<Seq<u64>>, pts: Seq<Pos>, g: int, cur: int, rounds: nat) -> Seq<Pos>
    decreases rounds,
{
    if rounds == 0 {
        seq![]
    } else {
        match hop_from(d, dp, g, cur, 0) {
            Some(i) => if i == g {
                seq![pts[i]]
            } else {
                seq![pts[i]] + hops(d, dp, pts, g, i, (rounds - 1) as nat)
            },
            None => seq![],
        }
    }
}

/// The first next point from `cur` toward `g`, if any.
fn next_hop(d: &Vec<Vec<u64>>, dp: &Vec<Vec<u64>>, g: usize, cur: usize) -> (h: Option<usize>)
    requires
        cost_table(d@, d.len() as int),
        cost_table(dp@, d.len() as int),
        g < d.len(),
        cur < d.len(),
    ensures
        h matches Some(i) ==> hop_from(matrix(d@), matrix(dp@), g as int, cur as int, 0) == Some(i as int) && i
            < d.len(),
        h is None ==> hop_from(matrix(d@), matrix(dp@), g as int, cur as int, 0) is None,
{
    let siz = d.len();
    let mut i: usize = 0;
    while i < siz
        invariant
            siz == d.len(),
            0 <= i <= siz,
            cost_table(d@, siz as int),
            cost_table(dp@, siz as int),
            g < siz,
            cur < siz,
            hop_from(matrix(d@), matrix(dp@), g as int, cur as int, 0) == hop_from(
                matrix(d@),
                matrix(dp@),
                g as int,
                cur as int,
                i as int,
            ),
        decreases siz - i,
    {
        proof {
            assert(matrix(d@)[cur as int][i as int] == d@[cur as int]@[i as int]);
            assert(matrix(dp@)[i as int][g as int] == dp@[i as int]@[g as int]);
            assert(matrix(dp@)[cur as int][g as int] == dp@[cur as int]@[g as int]);
        }
        if i != cur && d[cur][i] + dp[i][g] == dp[cur][g] {
            return Some(i);
        }
        i += 1;
    }
    None
}

/// The points visited when walking from `s` toward `g` along cheapest ways,
/// for at most ten steps.
pub fn restore_path(d: &Vec<Vec<u64>>, dp: &Vec<Vec<u64>>, points: &Vec<Pos>, s: usize, g: usize) -> (path: Vec<Pos>)
    requires
        cost_table(d@, d.len() as int),
        cost_table(dp@, d.len() as int),
        points.len() == d.len(),
        s < d.len(),
        g < d.len(),
    ensures
        path@ == hops(matrix(d@), matrix(dp@), points@, g as int, s as int, 10),
{
    let mut path: Vec<Pos> = Vec::new();
    let mut cur = s;
    let mut round: usize = 0;
    let mut done = false;
    while round < 10 && !done
        invariant
            cost_table(d@, d.len() as int),
            cost_table(dp@, d.len() as int),
            points.len() == d.len(),
            g < d.len(),
            cur < d.len(),
            round <= 10,
            done ==> path@ == hops(matrix(d@), matrix(dp@), points@, g as int, s as int, 10),
            !done ==> path@ + hops(matrix(d@), matrix(dp@), points@, g as int, cur as int, (10 - round) as nat) == hops(
                matrix(d@),
                matrix(dp@),
                points@,
                g as int,
                s as int,
                10,
            ),
        decreases 10 - round,
    {
        let ghost left = (10 - round) as nat;
        let ghost before = path@;
        match next_hop(d, dp, g, cur) {
            Some(i) => {
                path.push(points[i]);
                proof {
                    if i == g {
                        assert(path@ =~= before + hops(matrix(d@), matrix(dp@), points@, g as int, cur as int, left));
                    } else {
                        assert(path@ + hops(matrix(d@), matrix(dp@), points@, g as int, i as int, (left - 1) as nat) =~= before + hops(
                            matrix(d@),
                            matrix(dp@),
                            points@,
                            g as int,
                            cur as int,
                            left,
                        ));
                    }
                }
                cur = i;
                if cur == g {
                    done = true;
                }
            },
            None => {
                done = true;
                proof {
                    assert(path@ =~= before + hops(matrix(d@), matrix(dp@), points@, g as int, cur as int, left));
                }
            },
        }
        round += 1;
    }
    proof {
        if !done {
            assert(path@ =~= path@ + hops(matrix(d@), matrix(dp@), points@, g as int, cur as int, 0));
        }
    }
    path
}

} // verus!
