//! Sets of cells: the smallest member and the member nearest to a cell.
//!
//! A `BTreeSet` hands its members out in increasing order, so a running
//! minimum over it keeps the smallest of the tied members; the loops here
//! break ties by that order explicitly.
use vstd::prelude::*;
use std::collections::BTreeSet;
use crate::ahc018::geometry::{Pos, Vec2, pos_lt, manhattan, dist_fits, INF};

verus! {

broadcast use vstd::std_specs::btree::group_btree_axioms;

/// `m` is the smallest member of `s` in row-major order.
pub open spec fn is_set_min(s: Set<Pos>, m: Pos) -> bool {
    s.contains(m) && forall|x: Pos| #[trigger] s.contains(x) && x != m ==> pos_lt(m, x)
}

/// `m` is the member of `s` nearest to `p`, the smallest such in row-major
/// order.
pub open spec fn is_nearest_member(s: Set<Pos>, p: Pos, m: Pos) -> bool {
    &&& s.contains(m)
    &&& forall|x: Pos| #[trigger] s.contains(x) ==> manhattan(p, m) <= manhattan(p, x)
    &&& forall|x: Pos| #[trigger] s.contains(x) && pos_lt(x, m) ==> manhattan(p, m) < manhattan(p, x)
}

/// Row-major order is total on distinct cells.
pub proof fn lemma_pos_order(a: Pos, b: Pos)
    ensures
        a != b ==> pos_lt(a, b) || pos_lt(b, a),
        !(pos_lt(a, b) && pos_lt(b, a)),
        !pos_lt(a, a),
{
}

/// A set holding the given cells.
pub fn set_of(cells: &Vec<Pos>) -> (s: BTreeSet<Pos>)
    ensures
        s@ == cells@.to_set(),
{
    let mut s: BTreeSet<Pos> = BTreeSet::new();
    let mut i: usize = 0;
    while i < cells.len()
        invariant
            0 <= i <= cells.len(),
            s@ == cells@.take(i as int).to_set(),
        decreases cells.len() - i,
    {
        s.insert(cells[i]);
        proof {
            assert(cells@.take(i + 1) =~= cells@.take(i as int).push(cells@[i as int]));
            cells@.take(i as int).lemma_push_to_set_commute(cells@[i as int]);
        }
        i += 1;
    }
    proof {
        assert(cells@.take(i as int) =~= cells@);
    }
    s
}

/// The smallest member of a non-empty set.
pub fn set_min(s: &BTreeSet<Pos>) -> (m: Pos)
    requires
        !s@.is_empty(),
    ensures
        is_set_min(s@, m),
{
    let mut best: Option<Pos> = None;
    for x in it: s.iter()
        invariant
            it.seq().unref().to_set() == s@,
            best is None <==> it.index() == 0,
            best matches Some(b) ==> s@.contains(b) && (forall|k: int|
                0 <= k < it.index() && *it.seq()[k] != b ==> pos_lt(b, *#[trigger] it.seq()[k])),
    {
        proof {
            assert(it.seq().unref()[it.index() as int] == *x);
            assert(it.seq().unref().contains(*x));
        }
        match best {
            None => {
                best = Some(*x);
            },
            Some(b) => {
                if x.0 < b.0 || (x.0 == b.0 && x.1 < b.1) {
                    best = Some(*x);
                }
            },
        }
    }
    proof {
        if best is None {
            let x = choose|x: Pos| s@.contains(x);
            assert(s@.contains(x));
        }
    }
    best.unwrap()
}

/// The member of `s` nearest to `p` (the smallest in row-major order among
/// the nearest); `p` itself when no member is nearer than `INF`.
pub fn nearest_member(s: &BTreeSet<Pos>, p: Pos) -> (m: Pos)
    requires
        forall|x: Pos| #[trigger] s@.contains(x) ==> dist_fits(p, x),
    ensures
        (exists|x: Pos| #[trigger] s@.contains(x) && manhattan(p, x) < INF) ==> is_nearest_member(s@, p, m),
        !(exists|x: Pos| #[trigger] s@.contains(x) && manhattan(p, x) < INF) ==> m == p,
{
    let mut res = p;
    let mut dist: u64 = INF;
    for x in it: s.iter()
        invariant
            it.seq().unref().to_set() == s@,
            forall|y: Pos| #[trigger] s@.contains(y) ==> dist_fits(p, y),
            dist <= INF,
            dist < INF ==> s@.contains(res) && dist == manhattan(p, res) && (forall|k: int|
                0 <= k < it.index() ==> manhattan(p, res) <= manhattan(p, *#[trigger] it.seq()[k])) && (
            forall|k: int|
                0 <= k < it.index() && pos_lt(*it.seq()[k], res) ==> manhattan(p, res) < manhattan(
                    p,
                    *#[trigger] it.seq()[k],
                )),
            dist == INF ==> res == p && forall|k: int| 0 <= k < it.index() ==> manhattan(p, *#[trigger] it.seq()[k]) >= INF,
    {
        proof {
            assert(it.seq().unref()[it.index() as int] == *x);
            assert(it.seq().unref().contains(*x));
            assert(s@.contains(*x));
            assert(usize::MAX <= u64::MAX);
        }
        let d = Vec2::dist(&p, x) as u64;
        if dist > d || (dist == d && dist < INF && (x.0 < res.0 || (x.0 == res.0 && x.1 < res.1))) {
            dist = d;
            res = *x;
        }
    }
    proof {
        if exists|x: Pos| #[trigger] s@.contains(x) && manhattan(p, x) < INF {
            let x = choose|x: Pos| #[trigger] s@.contains(x) && manhattan(p, x) < INF;
            assert(s@.contains(x));
        }
    }
    res
}

} // verus!
