//! The values of the game: a cell is empty or holds a power of two from 2 on.

use crate::board::{lemma_cell_index, line_at, line_of, place_of, slide, spawn_of};
use crate::game::Direction;
use crate::line::{lemma_slid_len, merged, slid, tiles};
use vstd::arithmetic::power2::{lemma2_to64, lemma_pow2_unfold, pow2};
use vstd::prelude::*;

verus! {

/// The value of an empty cell, or of a tile of the game: 2, 4, 8 and so on.
pub open spec fn tile_value(v: nat) -> bool {
    v == 0 || exists|e: nat| e >= 1 && v == #[trigger] pow2(e)
}

/// Every cell is empty or holds a tile of the game.
pub open spec fn proper(cells: Seq<nat>) -> bool {
    forall|i: int| 0 <= i < cells.len() ==> tile_value(#[trigger] cells[i])
}

/// Twice the value of a tile is the value of a tile.
pub proof fn lemma_double(v: nat)
    requires
        tile_value(v),
    ensures
        tile_value(2 * v),
{
    if v != 0 {
        let e = choose|e: nat| e >= 1 && v == #[trigger] pow2(e);
        lemma_pow2_unfold(e + 1);
        assert(2 * v == pow2(e + 1));
    }
}

/// The tiles of a proper line are proper.
pub proof fn lemma_tiles_proper(line: Seq<nat>)
    requires
        proper(line),
    ensures
        proper(tiles(line)),
    decreases line.len(),
{
    reveal(Seq::filter);
    if line.len() > 0 {
        let front = line.drop_last();
        assert forall|i: int| 0 <= i < front.len() implies tile_value(#[trigger] front[i]) by {
            assert(front[i] == line[i]);
        }
        lemma_tiles_proper(front);
        assert(tile_value(line[line.len() - 1]));
    }
}

/// Merging proper tiles gives proper tiles.
pub proof fn lemma_merged_proper(t: Seq<nat>)
    requires
        proper(t),
    ensures
        proper(merged(t)),
    decreases t.len(),
{
    if t.len() > 0 {
        let rest = if t.len() >= 2 && t[0] == t[1] {
            t.skip(2)
        } else {
            t.skip(1)
        };
        assert forall|i: int| 0 <= i < rest.len() implies tile_value(#[trigger] rest[i]) by {
            assert(rest[i] == t[i + (t.len() - rest.len())]);
        }
        lemma_merged_proper(rest);
        assert(tile_value(t[0]));
        lemma_double(t[0]);
        assert forall|i: int| 0 <= i < merged(t).len() implies tile_value(
            #[trigger] merged(t)[i],
        ) by {
            if i > 0 {
                assert(merged(t)[i] == merged(rest)[i - 1]);
            }
        }
    }
}

/// A proper line is proper after a move.
pub proof fn lemma_slid_proper(line: Seq<nat>)
    requires
        proper(line),
    ensures
        proper(slid(line)),
{
    lemma_tiles_proper(line);
    lemma_merged_proper(tiles(line));
    lemma_slid_len(line);
    let m = merged(tiles(line));
    assert forall|i: int| 0 <= i < slid(line).len() implies tile_value(
        #[trigger] slid(line)[i],
    ) by {
        if i < m.len() {
            assert(slid(line)[i] == m[i]);
        }
    }
}

/// A move keeps a proper board proper.
pub proof fn law_move_keeps_proper(b: Seq<nat>, d: Direction)
    requires
        b.len() == 16,
        proper(b),
    ensures
        proper(slide(b, d)),
{
    lemma_cell_index(d);
    assert forall|k: int| 0 <= k < 16 implies tile_value(#[trigger] slide(b, d)[k]) by {
        let line = line_at(b, d, line_of(d, k));
        assert forall|p: int| 0 <= p < 4 implies tile_value(#[trigger] line[p]) by {}
        lemma_slid_proper(line);
        lemma_slid_len(line);
        assert(slide(b, d)[k] == slid(line)[place_of(d, k)]);
    }
}

/// A spawn keeps a proper board proper.
pub proof fn law_spawn_keeps_proper(before: Seq<nat>, after: Seq<nat>)
    requires
        proper(before),
        spawn_of(before, after),
    ensures
        proper(after),
{
    lemma2_to64();
    let (k, tile) = choose|k: int, tile: nat|
        0 <= k < before.len() && before[k] == 0 && (tile == 2 || tile == 4) && after
            == #[trigger] before.update(k, tile);
    assert(tile == pow2(1) || tile == pow2(2));
    assert forall|i: int| 0 <= i < after.len() implies tile_value(#[trigger] after[i]) by {
        if i != k {
            assert(after[i] == before[i]);
        }
    }
}

} // verus!
