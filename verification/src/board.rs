//! The geometry of the board and the move of a whole board.
//!
//! A board is a sequence of 16 cells in row-major order: the cell in row `r`
//! and column `c` has index `4 * r + c`. A move resolves four lines. For
//! `Left` and `Right` a line is a row, for `Up` and `Down` a column, and the
//! cells of a line are counted in travel order: place 0 is the cell at the
//! edge toward which the tiles travel.

use crate::bag::{lemma_count_by_marks, marks};
use crate::facts::lemma_slid_changed;
use crate::game::Direction;
use crate::line::{gain, lemma_slid_len, merge_free, slid, sum, tiles};
use vstd::multiset::group_multiset_axioms;
use vstd::prelude::*;

verus! {

/// The index of the cell at place `p` of line `n`.
pub open spec fn cell_index(d: Direction, n: int, p: int) -> int {
    match d {
        Direction::Up => 4 * p + n,
        Direction::Down => 4 * (3 - p) + n,
        Direction::Left => 4 * n + p,
        Direction::Right => 4 * n + (3 - p),
    }
}

/// The line on which cell `k` lies.
pub open spec fn line_of(d: Direction, k: int) -> int {
    match d {
        Direction::Up | Direction::Down => k % 4,
        Direction::Left | Direction::Right => k / 4,
    }
}

/// The place of cell `k` on its line.
pub open spec fn place_of(d: Direction, k: int) -> int {
    match d {
        Direction::Up => k / 4,
        Direction::Down => 3 - k / 4,
        Direction::Left => k % 4,
        Direction::Right => 3 - k % 4,
    }
}

/// Line `n` of a board, in travel order.
pub open spec fn line_at(b: Seq<nat>, d: Direction, n: int) -> Seq<nat> {
    Seq::new(4, |p: int| b[cell_index(d, n, p)])
}

/// The board after a move: every line has slid toward its place 0.
pub open spec fn slide(b: Seq<nat>, d: Direction) -> Seq<nat> {
    Seq::new(16, |k: int| slid(line_at(b, d, line_of(d, k)))[place_of(d, k)])
}

/// The indices of the empty cells.
pub open spec fn blank_cells(b: Seq<nat>) -> Set<int> {
    Set::new(|k: int| 0 <= k < b.len() && b[k] == 0)
}

/// The tile that a spawn places for a roll out of ten: a 2 for eight of
/// them, a 4 for the other two.
pub open spec fn new_tile(roll: int) -> nat {
    if roll < 8 {
        2
    } else {
        4
    }
}

/// Board `after` is board `before` with one new tile, a 2 or a 4, in a cell
/// that was empty.
pub open spec fn spawn_of(before: Seq<nat>, after: Seq<nat>) -> bool {
    exists|k: int, tile: nat|
        0 <= k < before.len() && before[k] == 0 && (tile == 2 || tile == 4)
            && after == #[trigger] before.update(k, tile)
}

/// The sum of all cells.
pub open spec fn total(b: Seq<nat>) -> nat {
    sum(b)
}

/// The cell in row `r` and column `c`.
pub open spec fn at(b: Seq<nat>, r: int, c: int) -> nat {
    b[4 * r + c]
}

/// No move can change the board: no cell is empty and no two neighbours in a
/// row or in a column are equal.
pub open spec fn stuck(b: Seq<nat>) -> bool {
    &&& forall|k: int| 0 <= k < 16 ==> b[k] != 0
    &&& forall|r: int, c: int|
        0 <= r < 4 && 0 <= c < 3 ==> #[trigger] at(b, r, c) != at(b, r, c + 1)
    &&& forall|r: int, c: int|
        0 <= r < 3 && 0 <= c < 4 ==> #[trigger] at(b, r, c) != at(b, r + 1, c)
}

/// Places and lines number the cells of the board one for one.
pub proof fn lemma_cell_index(d: Direction)
    ensures
        forall|k: int|
            0 <= k < 16 ==> 0 <= #[trigger] line_of(d, k) < 4 && 0 <= #[trigger] place_of(d, k) < 4
                && cell_index(d, line_of(d, k), place_of(d, k)) == k,
        forall|n: int, p: int|
            0 <= n < 4 && 0 <= p < 4 ==> {
                let k = #[trigger] cell_index(d, n, p);
                0 <= k < 16 && line_of(d, k) == n && place_of(d, k) == p
            },
{
}

/// The lines of the board after a move are the lines before it, each slid.
pub proof fn lemma_lines_of_slide(b: Seq<nat>, d: Direction, n: int)
    requires
        0 <= n < 4,
    ensures
        line_at(slide(b, d), d, n) == slid(line_at(b, d, n)),
{
    lemma_cell_index(d);
    lemma_slid_len(line_at(b, d, n));
    assert(line_at(slide(b, d), d, n) =~= slid(line_at(b, d, n)));
}

/// The sum of a line of four cells.
pub proof fn lemma_sum_of_four(line: Seq<nat>)
    requires
        line.len() == 4,
    ensures
        sum(line) == line[0] + line[1] + line[2] + line[3],
{
    reveal_with_fuel(sum, 5);
}

/// The sum of all cells is the sum of the four lines, whichever way they run.
pub proof fn lemma_total_by_lines(b: Seq<nat>, d: Direction)
    requires
        b.len() == 16,
    ensures
        total(b) == sum(line_at(b, d, 0)) + sum(line_at(b, d, 1)) + sum(line_at(b, d, 2)) + sum(
            line_at(b, d, 3),
        ),
{
    reveal_with_fuel(sum, 17);
    lemma_sum_of_four(line_at(b, d, 0));
    lemma_sum_of_four(line_at(b, d, 1));
    lemma_sum_of_four(line_at(b, d, 2));
    lemma_sum_of_four(line_at(b, d, 3));
}

/// Nothing merges in a move toward `d`: no line has two equal tiles side by
/// side, empty cells between them left aside.
pub open spec fn no_merge(b: Seq<nat>, d: Direction) -> bool {
    forall|n: int| 0 <= n < 4 ==> merge_free(tiles(#[trigger] line_at(b, d, n)))
}

/// What the merges of a move toward `d` are worth, over the four lines.
pub open spec fn gained(b: Seq<nat>, d: Direction) -> nat {
    gain(tiles(line_at(b, d, 0))) + gain(tiles(line_at(b, d, 1))) + gain(tiles(line_at(b, d, 2)))
        + gain(tiles(line_at(b, d, 3)))
}

/// The direction against `d`.
pub open spec fn opposite(d: Direction) -> Direction {
    match d {
        Direction::Up => Direction::Down,
        Direction::Down => Direction::Up,
        Direction::Left => Direction::Right,
        Direction::Right => Direction::Left,
    }
}

/// Against the direction, a line is read from its other end.
pub proof fn lemma_line_against(b: Seq<nat>, d: Direction, n: int)
    ensures
        line_at(b, opposite(d), n) == line_at(b, d, n).reverse(),
{
    assert(line_at(b, opposite(d), n) =~= line_at(b, d, n).reverse());
}

/// The cells of the board are the cells of its four lines, whichever way
/// they run.
pub proof fn lemma_cells_by_lines(b: Seq<nat>, d: Direction)
    requires
        b.len() == 16,
    ensures
        b.to_multiset() == line_at(b, d, 0).to_multiset().add(line_at(b, d, 1).to_multiset()).add(
            line_at(b, d, 2).to_multiset(),
        ).add(line_at(b, d, 3).to_multiset()),
{
    broadcast use group_multiset_axioms;

    let by_lines = line_at(b, d, 0).to_multiset().add(line_at(b, d, 1).to_multiset()).add(
        line_at(b, d, 2).to_multiset(),
    ).add(line_at(b, d, 3).to_multiset());
    assert forall|v: nat| b.to_multiset().count(v) == by_lines.count(v) by {
        lemma_count_by_marks(b, v);
        lemma_total_by_lines(marks(b, v), d);
        assert forall|n: int| 0 <= n < 4 implies sum(#[trigger] line_at(marks(b, v), d, n))
            == line_at(b, d, n).to_multiset().count(v) by {
            lemma_cell_index(d);
            assert(line_at(marks(b, v), d, n) =~= marks(line_at(b, d, n), v));
            lemma_count_by_marks(line_at(b, d, n), v);
        }
    }
    assert(b.to_multiset() =~= by_lines);
}

/// A move that changes the board leaves an empty cell.
pub proof fn lemma_change_leaves_room(b: Seq<nat>, d: Direction)
    requires
        b.len() == 16,
        slide(b, d) != b,
    ensures
        exists|k: int| blank_cells(slide(b, d)).contains(k),
{
    lemma_cell_index(d);
    if forall|k: int| 0 <= k < 16 ==> slide(b, d)[k] == b[k] {
        assert(slide(b, d) =~= b);
    }
    let j = choose|j: int| 0 <= j < 16 && slide(b, d)[j] != b[j];
    let n = line_of(d, j);
    let line = line_at(b, d, n);
    assert(slid(line)[place_of(d, j)] != line[place_of(d, j)]);
    lemma_slid_changed(line);
    lemma_slid_len(line);
    let k = cell_index(d, n, 3);
    assert(slide(b, d)[k] == slid(line)[3]);
    assert(blank_cells(slide(b, d)).contains(k));
}

} // verus!
