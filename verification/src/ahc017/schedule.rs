//! Facts shared by the schedules: counting the edges planned on a day.
use vstd::prelude::*;

verus! {

/// The number of entries of `days` equal to `d`.
pub open spec fn day_count(days: Seq<usize>, d: int) -> int
    decreases days.len(),
{
    if days.len() == 0 {
        0
    } else {
        day_count(days.drop_last(), d) + if days.last() == d {
            1int
        } else {
            0int
        }
    }
}

pub proof fn lemma_day_count_push(days: Seq<usize>, x: usize, d: int)
    ensures
        day_count(days.push(x), d) == day_count(days, d) + if x == d {
            1int
        } else {
            0int
        },
{
    assert(days.push(x).drop_last() =~= days);
}

pub proof fn lemma_day_count_bounds(days: Seq<usize>, d: int)
    ensures
        0 <= day_count(days, d) <= days.len(),
    decreases days.len(),
{
    if days.len() > 0 {
        lemma_day_count_bounds(days.drop_last(), d);
    }
}

pub proof fn lemma_day_count_update(days: Seq<usize>, i: int, x: usize, d: int)
    requires
        0 <= i < days.len(),
    ensures
        day_count(days.update(i, x), d) == day_count(days, d) - (if days[i] == d {
            1int
        } else {
            0int
        }) + (if x == d {
            1int
        } else {
            0int
        }),
    decreases days.len(),
{
    let s2 = days.update(i, x);
    if i == days.len() - 1 {
        assert(s2.drop_last() =~= days.drop_last());
    } else {
        lemma_day_count_update(days.drop_last(), i, x, d);
        assert(s2.drop_last() =~= days.drop_last().update(i, x));
    }
}

pub proof fn lemma_day_count_positive(days: Seq<usize>, i: int)
    requires
        0 <= i < days.len(),
    ensures
        day_count(days, days[i] as int) >= 1,
    decreases days.len(),
{
    if i < days.len() - 1 {
        lemma_day_count_positive(days.drop_last(), i);
    }
    lemma_day_count_bounds(days.drop_last(), days[i] as int);
}

} // verus!
