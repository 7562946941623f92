//! Evenly spaced sampling of a closed interval (linspace).
//!
//! The grid is built the way the profile generator needs it: the first
//! element is the start, each following element adds the step
//! `(end - start) / (count - 1)` to its predecessor, and the last element
//! is then assigned the end value itself. With exact rationals the
//! accumulated value already equals the end, so the final assignment only
//! normalizes the representative.

use vstd::prelude::*;

use crate::rat::rat_bounded;
use crate::rat::rat_eq;
use crate::rat::rat_le;
use crate::rat::Rat;

verus! {

/// Numerator of `grid[i]` over the common denominator
/// `start.den * end.den * (count - 1)`: the start plus `i` times the step.
pub open spec fn grid_num(start: Rat, end: Rat, count: int, i: int) -> int {
    start.num * end.den * (count - 1) + i * (end.num * start.den - start.num * end.den)
}

/// Common denominator of the accumulated grid elements.
pub open spec fn grid_den(start: Rat, end: Rat, count: int) -> int {
    start.den * end.den * (count - 1)
}

/// Produces `count` evenly spaced rationals from `start` to `end`.
///
/// Both interval bounds are hit exactly: the first element equals the
/// start and the last element is the end itself. When the start is at
/// most the end, consecutive elements are nondecreasing.
pub fn linspace(start: Rat, end: Rat, count: usize) -> (grid: Vec<Rat>)
    requires
        start.wf(),
        end.wf(),
        rat_bounded(start, 1_000_000_000_000),
        rat_bounded(end, 1_000_000_000_000),
        2 <= count <= 1_000_000,
    ensures
        grid@.len() == count,
        grid@[0] == start,
        forall|i: int|
            1 <= i < count - 1 ==> (#[trigger] grid@[i]).num == grid_num(start, end, count as int, i)
                && grid@[i].den == grid_den(start, end, count as int),
        grid@[count - 1] == end,
        forall|i: int| 0 <= i < count ==> (#[trigger] grid@[i]).wf(),
        rat_eq(grid@[0], start),
        rat_le(start, end) ==> forall|i: int|
            0 <= i < count - 1 ==> rat_le(#[trigger] grid@[i], grid@[i + 1]),
{
    let m: i128 = (count - 1) as i128;
    assert(-1_000_000_000_000_000_000_000_000_000_000int <= start.num * end.den * m
        <= 1_000_000_000_000_000_000_000_000_000_000int && 1 <= start.den * end.den * m
        <= 1_000_000_000_000_000_000_000_000_000_000int && -2_000_000_000_000_000_000_000_000int
        <= end.num * start.den - start.num * end.den <= 2_000_000_000_000_000_000_000_000int
        && -1_000_000_000_000_000_000_000_000int <= start.num * end.den
        <= 1_000_000_000_000_000_000_000_000int && 1 <= start.den * end.den
        <= 1_000_000_000_000_000_000_000_000int && -1_000_000_000_000_000_000_000_000int <= end.num
        * start.den <= 1_000_000_000_000_000_000_000_000int)
        by (nonlinear_arith)
        requires
            rat_bounded(start, 1_000_000_000_000),
            rat_bounded(end, 1_000_000_000_000),
            1 <= m <= 1_000_000,
    ;
    let den: i128 = start.den * end.den * m;
    let sn: i128 = end.num * start.den - start.num * end.den;
    let mut cur: i128 = start.num * end.den * m;
    let ghost base: int = cur as int;
    let mut grid: Vec<Rat> = Vec::new();
    grid.push(start);
    let mut j: usize = 1;
    proof {
        assert(cur == base + (j - 1) * sn) by {
            assert((j - 1) * sn == 0) by (nonlinear_arith)
                requires
                    j == 1,
            ;
        }
    }
    while j < count - 1
        invariant
            1 <= j <= count - 1,
            2 <= count <= 1_000_000,
            grid@.len() == j,
            den == grid_den(start, end, count as int),
            1 <= den,
            sn == end.num * start.den - start.num * end.den,
            -2_000_000_000_000_000_000_000_000 <= sn <= 2_000_000_000_000_000_000_000_000,
            base == start.num * end.den * (count - 1),
            -1_000_000_000_000_000_000_000_000_000_000 <= base
                <= 1_000_000_000_000_000_000_000_000_000_000,
            cur == base + (j - 1) * sn,
            grid@[0] == start,
            start.wf(),
            end.wf(),
            forall|t: int|
                1 <= t < j ==> (#[trigger] grid@[t]).num == grid_num(start, end, count as int, t)
                    && grid@[t].den == grid_den(start, end, count as int),
        decreases count - 1 - j,
    {
        assert(-4_000_000_000_000_000_000_000_000_000_000int <= base + j * sn
            <= 4_000_000_000_000_000_000_000_000_000_000int && base + j * sn == base + (j - 1)
            * sn + sn) by (nonlinear_arith)
            requires
                -1_000_000_000_000_000_000_000_000_000_000 <= base
                    <= 1_000_000_000_000_000_000_000_000_000_000,
                -2_000_000_000_000_000_000_000_000 <= sn <= 2_000_000_000_000_000_000_000_000,
                1 <= j <= 1_000_000,
        ;
        cur = cur + sn;
        grid.push(Rat { num: cur, den });
        j = j + 1;
    }
    grid.push(end);
    proof {
        if rat_le(start, end) {
            assert forall|i: int| 0 <= i < count - 1 implies rat_le(
                #[trigger] grid@[i],
                grid@[i + 1],
            ) by {
                lemma_grid_steps_up(start, end, count as int, i);
                if i == 0 {
                    if count == 2 {
                        assert(grid@[1] == end);
                    }
                } else if i + 1 == count - 1 {
                    assert(grid@[i + 1] == end);
                }
            }
        }
    }
    grid
}

/// One accumulation step keeps the grid nondecreasing, both between two
/// accumulated elements and from the last accumulated element to the
/// exact end value.
proof fn lemma_grid_steps_up(start: Rat, end: Rat, count: int, i: int)
    by (nonlinear_arith)
    requires
        start.wf(),
        end.wf(),
        2 <= count,
        0 <= i < count - 1,
        rat_le(start, end),
    ensures
        grid_num(start, end, count, i) * grid_den(start, end, count) <= grid_num(
            start,
            end,
            count,
            i + 1,
        ) * grid_den(start, end, count),
        grid_num(start, end, count, i) * end.den <= end.num * grid_den(start, end, count),
        start.num * grid_den(start, end, count) <= grid_num(start, end, count, 1) * start.den,
{
}

} // verus!
