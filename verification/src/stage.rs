//! Stage geometry over the serpentine scan: splitting the TDC train into
//! passes by a gap threshold, and the direction each pass travels.
use vstd::prelude::*;
use crate::decoder::time_in_range;

verus! {

/// Inter-TDC gap, in picoseconds, that starts a new pass.
pub const PASS_GAP: i64 = 30_000_000_000;

/// Which way the stage moves during a pass.
#[derive(Clone, Copy, Debug, PartialEq, Eq, Structural)]
pub enum Direction {
    Up,
    Down,
    Left,
    Right,
}

impl Direction {
    /// The opposite direction of travel.
    pub fn reverse(&self) -> (r: Direction)
        ensures
            r == match *self {
                Direction::Up => Direction::Down,
                Direction::Down => Direction::Up,
                Direction::Left => Direction::Right,
                Direction::Right => Direction::Left,
            },
    {
        match self {
            Direction::Up => Direction::Down,
            Direction::Down => Direction::Up,
            Direction::Left => Direction::Right,
            Direction::Right => Direction::Left,
        }
    }
}

/// The serpentine scan starts moving right and alternates on every pass.
pub fn pass_direction(pass_index: usize) -> (r: Direction)
    ensures
        r == if pass_index % 2 == 0 {
            Direction::Right
        } else {
            Direction::Left
        },
{
    if pass_index % 2 == 0 {
        Direction::Right
    } else {
        Direction::Left
    }
}

/// Fold state after consuming the first `i` TDC times: the finished passes,
/// the pass being filled, and the previous time (0 before any was seen).
pub open spec fn split_fold(ts: Seq<i64>, i: int) -> (Seq<Seq<i64>>, Seq<i64>, i64)
    decreases i,
{
    if i <= 0 {
        (Seq::empty(), Seq::empty(), 0)
    } else {
        let (rows, row, prev) = split_fold(ts, i - 1);
        let t = ts[i - 1];
        if t - prev > PASS_GAP && prev != 0 {
            (rows.push(row), seq![t], t)
        } else {
            (rows, row.push(t), t)
        }
    }
}

/// The passes of a TDC train: consecutive times, cut wherever the gap to the
/// previous time exceeds `PASS_GAP`; the trailing pass is kept if nonempty.
pub open spec fn spec_split_passes(ts: Seq<i64>) -> Seq<Seq<i64>> {
    let (rows, row, _) = split_fold(ts, ts.len() as int);
    if row.len() == 0 {
        rows
    } else {
        rows.push(row)
    }
}

/// Splits consecutive TDC times into passes by the gap threshold.
pub fn split_passes(tdcs: &Vec<i64>) -> (r: Vec<Vec<i64>>)
    requires
        forall|k: int| 0 <= k < tdcs@.len() ==> time_in_range(#[trigger] tdcs@[k] as int),
    ensures
        r@.len() == spec_split_passes(tdcs@).len(),
        forall|k: int|
            0 <= k < r@.len() ==> (#[trigger] r@[k])@ == spec_split_passes(tdcs@)[k],
{
    let mut rows: Vec<Vec<i64>> = Vec::new();
    let mut row: Vec<i64> = Vec::new();
    let mut prev: i64 = 0;
    let n = tdcs.len();
    let mut i: usize = 0;
    while i < n
        invariant
            n == tdcs@.len(),
            0 <= i <= n,
            forall|k: int| 0 <= k < tdcs@.len() ==> time_in_range(#[trigger] tdcs@[k] as int),
            time_in_range(prev as int),
            ({
                let (srows, srow, sprev) = split_fold(tdcs@, i as int);
                &&& rows@.len() == srows.len()
                &&& forall|k: int| 0 <= k < srows.len() ==> (#[trigger] rows@[k])@ == srows[k]
                &&& row@ == srow
                &&& prev == sprev
            }),
        decreases n - i,
    {
        let t = tdcs[i];
        if t - prev > PASS_GAP && prev != 0 {
            rows.push(row);
            row = Vec::new();
            row.push(t);
        } else {
            row.push(t);
        }
        prev = t;
        i = i + 1;
    }
    if row.len() > 0 {
        rows.push(row);
    }
    rows
}

} // verus!
