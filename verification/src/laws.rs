//! What holds of every board and every move.

use crate::bag::{lemma_slid_keeps_cells, lemma_tiles_count};
use crate::board::{
    at, cell_index, gained, lemma_cell_index, lemma_cells_by_lines, lemma_line_against,
    lemma_lines_of_slide, lemma_total_by_lines, line_at, no_merge, opposite, slide, spawn_of,
    stuck, total,
};
use crate::facts::{
    lemma_fixed_line, lemma_merge_free, lemma_merge_free_reverse, lemma_slid_packed,
    lemma_stuck_line, lemma_tiles_nonzero, lemma_tiles_reverse, lemma_tiles_slid,
};
use crate::game::Direction;
use crate::line::{fits, merge_free, merged, slid, sum, tiles};
use crate::sums::{
    lemma_gain_none, lemma_gain_some, lemma_sum_bounds, lemma_sum_slid, lemma_sum_update,
};
use vstd::multiset::group_multiset_axioms;
use vstd::prelude::*;

verus! {

/// After a move no line has an empty cell between two tiles: counted in
/// travel order, every cell after an empty cell is empty.
pub proof fn law_no_gap(b: Seq<nat>, d: Direction)
    requires
        b.len() == 16,
    ensures
        forall|n: int, p: int, q: int|
            0 <= n < 4 && 0 <= p < q < 4 && slide(b, d)[#[trigger] cell_index(d, n, p)] == 0
                ==> slide(b, d)[#[trigger] cell_index(d, n, q)] == 0,
{
    lemma_cell_index(d);
    assert forall|n: int, p: int, q: int|
        0 <= n < 4 && 0 <= p < q < 4 && slide(b, d)[#[trigger] cell_index(d, n, p)]
            == 0 implies slide(b, d)[#[trigger] cell_index(d, n, q)] == 0 by {
        let line = line_at(b, d, n);
        lemma_slid_packed(line);
        assert(slide(b, d)[cell_index(d, n, p)] == slid(line)[p]);
        assert(slide(b, d)[cell_index(d, n, q)] == slid(line)[q]);
    }
}

/// Three equal tiles merge once: the two nearest the edge become one tile
/// of twice the value, and the third follows it unchanged.
pub proof fn law_three_equal_tiles(v: nat)
    requires
        v != 0,
    ensures
        slid(seq![v, v, v, 0]) == seq![2 * v, v, 0, 0],
{
    let line = seq![v, v, v, 0];
    reveal_with_fuel(Seq::filter, 5);
    assert(line.drop_last() =~= seq![v, v, v]);
    assert(seq![v, v, v].drop_last() =~= seq![v, v]);
    assert(seq![v, v].drop_last() =~= seq![v]);
    assert(seq![v].drop_last() =~= Seq::<nat>::empty());
    assert(tiles(line) =~= seq![v, v, v]);
    let t = seq![v, v, v];
    reveal_with_fuel(merged, 4);
    assert(t.skip(2) =~= seq![v]);
    assert(seq![v].skip(1) =~= Seq::<nat>::empty());
    assert(merged(t) =~= seq![2 * v, v]);
    assert(slid(line) =~= seq![2 * v, v, 0, 0]);
}

/// A move keeps the sum of the cells: a merged tile is worth the two tiles
/// that made it.
pub proof fn law_move_keeps_score(b: Seq<nat>, d: Direction)
    requires
        b.len() == 16,
    ensures
        total(slide(b, d)) == total(b),
{
    lemma_total_by_lines(b, d);
    lemma_total_by_lines(slide(b, d), d);
    assert forall|n: int| 0 <= n < 4 implies sum(#[trigger] line_at(slide(b, d), d, n)) == sum(
        line_at(b, d, n),
    ) by {
        lemma_lines_of_slide(b, d, n);
        lemma_sum_slid(line_at(b, d, n));
    }
}

/// A board whose cells sum to no more than a cell can hold can be moved
/// every way: every merged tile fits in a cell.
pub proof fn law_sum_fits(b: Seq<nat>, d: Direction)
    requires
        b.len() == 16,
        total(b) <= u32::MAX,
    ensures
        fits(slide(b, d)),
{
    law_move_keeps_score(b, d);
    assert forall|k: int| 0 <= k < 16 implies slide(b, d)[k] <= u32::MAX by {
        lemma_sum_bounds(slide(b, d), k);
    }
}

/// Where nothing merges, the sum after a move is the sum before it and what
/// the merges are worth, which is nothing. Where tiles merge, the sum stays
/// as well (`law_move_keeps_score`), and what the merges are worth is not
/// added to it.
pub proof fn law_score_without_merge(b: Seq<nat>, d: Direction)
    requires
        b.len() == 16,
        no_merge(b, d),
    ensures
        gained(b, d) == 0,
        total(slide(b, d)) == total(b) + gained(b, d),
{
    law_move_keeps_score(b, d);
    lemma_gain_none(tiles(line_at(b, d, 0)));
    lemma_gain_none(tiles(line_at(b, d, 1)));
    lemma_gain_none(tiles(line_at(b, d, 2)));
    lemma_gain_none(tiles(line_at(b, d, 3)));
}

/// Where tiles merge, the merges are worth something, and the sum after the
/// move is less than the sum before it and that worth together.
pub proof fn law_score_with_merge(b: Seq<nat>, d: Direction)
    requires
        b.len() == 16,
        !no_merge(b, d),
    ensures
        gained(b, d) > 0,
        total(slide(b, d)) < total(b) + gained(b, d),
{
    law_move_keeps_score(b, d);
    let n = choose|n: int| 0 <= n < 4 && !merge_free(tiles(#[trigger] line_at(b, d, n)));
    lemma_tiles_nonzero(line_at(b, d, n));
    lemma_gain_some(tiles(line_at(b, d, n)));
}

/// A spawn adds its tile to the sum of the cells: 2 or 4.
pub proof fn law_spawn_adds_tile(before: Seq<nat>, after: Seq<nat>)
    requires
        spawn_of(before, after),
    ensures
        total(after) == total(before) + 2 || total(after) == total(before) + 4,
{
    let (k, tile) = choose|k: int, tile: nat|
        0 <= k < before.len() && before[k] == 0 && (tile == 2 || tile == 4) && after
            == #[trigger] before.update(k, tile);
    lemma_sum_update(before, k, tile);
}

/// Where nothing merges, a move keeps the cells of the board and only
/// orders them anew; and nothing merges in the move back either.
pub proof fn law_move_without_merge(b: Seq<nat>, d: Direction)
    requires
        b.len() == 16,
        no_merge(b, d),
    ensures
        slide(b, d).to_multiset() == b.to_multiset(),
        no_merge(slide(b, d), opposite(d)),
{
    lemma_cells_by_lines(b, d);
    lemma_cells_by_lines(slide(b, d), d);
    assert forall|n: int| 0 <= n < 4 implies (#[trigger] line_at(slide(b, d), d, n)).to_multiset()
        == line_at(b, d, n).to_multiset() by {
        lemma_lines_of_slide(b, d, n);
        lemma_slid_keeps_cells(line_at(b, d, n));
    }
    assert forall|n: int| 0 <= n < 4 implies merge_free(
        tiles(#[trigger] line_at(slide(b, d), opposite(d), n)),
    ) by {
        let line = line_at(b, d, n);
        lemma_lines_of_slide(b, d, n);
        lemma_line_against(slide(b, d), d, n);
        lemma_tiles_reverse(slid(line));
        lemma_tiles_slid(line);
        lemma_merge_free(tiles(line));
        lemma_merge_free_reverse(tiles(line));
    }
}

/// There and back: where nothing merges, a move and then the move against
/// it leave the tiles of the board what they were, as a multiset.
pub proof fn law_there_and_back(b: Seq<nat>, d: Direction)
    requires
        b.len() == 16,
        no_merge(b, d),
    ensures
        slide(slide(b, d), opposite(d)).to_multiset() == b.to_multiset(),
        tiles(slide(slide(b, d), opposite(d))).to_multiset() == tiles(b).to_multiset(),
{
    broadcast use group_multiset_axioms;

    let back = slide(slide(b, d), opposite(d));
    law_move_without_merge(b, d);
    law_move_without_merge(slide(b, d), opposite(d));
    assert forall|v: nat| tiles(back).to_multiset().count(v) == tiles(b).to_multiset().count(
        v,
    ) by {
        lemma_tiles_count(back, v);
        lemma_tiles_count(b, v);
    }
    assert(tiles(back).to_multiset() =~= tiles(b).to_multiset());
}

/// The board on which the game is over stays as it is under every move.
pub proof fn law_stuck_stays(b: Seq<nat>, d: Direction)
    requires
        b.len() == 16,
        stuck(b),
    ensures
        slide(b, d) == b,
{
    lemma_cell_index(d);
    assert forall|n: int| 0 <= n < 4 implies slid(#[trigger] line_at(b, d, n)) == line_at(
        b,
        d,
        n,
    ) by {
        let line = line_at(b, d, n);
        match d {
            Direction::Up => {
                assert(at(b, 0, n) != at(b, 1, n) && at(b, 1, n) != at(b, 2, n) && at(b, 2, n)
                    != at(b, 3, n));
            },
            Direction::Down => {
                assert(at(b, 0, n) != at(b, 1, n) && at(b, 1, n) != at(b, 2, n) && at(b, 2, n)
                    != at(b, 3, n));
            },
            Direction::Left => {
                assert(at(b, n, 0) != at(b, n, 1) && at(b, n, 1) != at(b, n, 2) && at(b, n, 2)
                    != at(b, n, 3));
            },
            Direction::Right => {
                assert(at(b, n, 0) != at(b, n, 1) && at(b, n, 1) != at(b, n, 2) && at(b, n, 2)
                    != at(b, n, 3));
            },
        }
        lemma_stuck_line(line);
    }
    assert(slide(b, d) =~= b);
}

/// A line of four that is empty, or full and without two equal neighbours.
spec fn settled(line: Seq<nat>) -> bool {
    ||| line[0] == 0 && line[1] == 0 && line[2] == 0 && line[3] == 0
    ||| line[0] != 0 && line[1] != 0 && line[2] != 0 && line[3] != 0 && line[0] != line[1]
        && line[1] != line[2] && line[2] != line[3]
}

/// A line that neither the move toward `d` nor the move against it changes
/// is settled.
proof fn lemma_fixed_is_settled(b: Seq<nat>, d: Direction, n: int)
    requires
        b.len() == 16,
        0 <= n < 4,
        slide(b, d) == b,
        slide(b, opposite(d)) == b,
    ensures
        settled(line_at(b, d, n)),
{
    lemma_lines_of_slide(b, d, n);
    lemma_lines_of_slide(b, opposite(d), n);
    lemma_line_against(b, d, n);
    lemma_fixed_line(line_at(b, d, n));
}

/// A board with a tile on it whose rows and columns are all settled is one
/// on which the game is over.
proof fn lemma_settled_is_stuck(b: Seq<nat>, k: int)
    requires
        b.len() == 16,
        0 <= k < 16,
        b[k] != 0,
        forall|n: int| 0 <= n < 4 ==> settled(#[trigger] line_at(b, Direction::Left, n)),
        forall|n: int| 0 <= n < 4 ==> settled(#[trigger] line_at(b, Direction::Up, n)),
    ensures
        stuck(b),
{
    let r0 = k / 4;
    let c0 = k % 4;
    assert(line_at(b, Direction::Left, r0)[c0] == b[k]);
    assert forall|c: int| 0 <= c < 4 implies line_at(b, Direction::Up, c)[0] != 0 by {
        assert(line_at(b, Direction::Left, r0)[c] != 0);
        assert(line_at(b, Direction::Up, c)[r0] == b[4 * r0 + c]);
    }
    assert forall|j: int| 0 <= j < 16 implies b[j] != 0 by {
        let column = line_at(b, Direction::Up, j % 4);
        assert(column[0] != 0);
        assert(column[j / 4] == b[j]);
    }
    assert forall|r: int, c: int| 0 <= r < 4 && 0 <= c < 3 implies #[trigger] at(b, r, c) != at(
        b,
        r,
        c + 1,
    ) by {
        let row = line_at(b, Direction::Left, r);
        assert(row[c] == at(b, r, c) && row[c + 1] == at(b, r, c + 1));
        assert(row[0] == b[4 * r] && row[0] != 0);
    }
    assert forall|r: int, c: int| 0 <= r < 3 && 0 <= c < 4 implies #[trigger] at(b, r, c) != at(
        b,
        r + 1,
        c,
    ) by {
        let column = line_at(b, Direction::Up, c);
        assert(column[r] == at(b, r, c) && column[r + 1] == at(b, r + 1, c));
        assert(column[0] != 0);
    }
}

/// A board with a tile on it that no move changes is one on which the game
/// is over: the terminal check finds every board that has no move left.
pub proof fn law_fixed_is_stuck(b: Seq<nat>)
    requires
        b.len() == 16,
        exists|k: int| 0 <= k < 16 && b[k] != 0,
        slide(b, Direction::Up) == b,
        slide(b, Direction::Down) == b,
        slide(b, Direction::Left) == b,
        slide(b, Direction::Right) == b,
    ensures
        stuck(b),
{
    let k = choose|k: int| 0 <= k < 16 && b[k] != 0;
    assert forall|n: int| 0 <= n < 4 implies settled(
        #[trigger] line_at(b, Direction::Left, n),
    ) by {
        lemma_fixed_is_settled(b, Direction::Left, n);
    }
    assert forall|n: int| 0 <= n < 4 implies settled(#[trigger] line_at(b, Direction::Up, n)) by {
        lemma_fixed_is_settled(b, Direction::Up, n);
    }
    lemma_settled_is_stuck(b, k);
}

} // verus!
