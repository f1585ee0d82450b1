//! What holds of a line and of its move.

use crate::line::{
    blanks, is_tile, lemma_merged_len, lemma_slid_len, merge_free, merged, slid, tiles,
};
use vstd::prelude::*;

verus! {

/// No tile is an empty cell, before a merge or after it.
pub proof fn lemma_tiles_nonzero(line: Seq<nat>)
    ensures
        forall|i: int| 0 <= i < tiles(line).len() ==> tiles(line)[i] != 0,
        forall|i: int| 0 <= i < merged(tiles(line)).len() ==> merged(tiles(line))[i] != 0,
{
    assert forall|i: int| 0 <= i < tiles(line).len() implies tiles(line)[i] != 0 by {
        line.lemma_filter_pred(is_tile(), i);
    }
    lemma_merged_nonzero(tiles(line));
}

/// Merging tiles gives tiles.
pub proof fn lemma_merged_nonzero(t: Seq<nat>)
    requires
        forall|i: int| 0 <= i < t.len() ==> t[i] != 0,
    ensures
        forall|i: int| 0 <= i < merged(t).len() ==> merged(t)[i] != 0,
    decreases t.len(),
{
    if t.len() == 0 {
    } else {
        let rest = if t.len() >= 2 && t[0] == t[1] {
            t.skip(2)
        } else {
            t.skip(1)
        };
        lemma_merged_nonzero(rest);
        assert forall|i: int| 0 <= i < merged(t).len() implies merged(t)[i] != 0 by {
            if i > 0 {
                assert(merged(t)[i] == merged(rest)[i - 1]);
            }
        }
    }
}

/// After a move no empty cell stands before a tile.
pub proof fn lemma_slid_packed(line: Seq<nat>)
    ensures
        forall|i: int, j: int|
            0 <= i < j < line.len() && slid(line)[i] == 0 ==> slid(line)[j] == 0,
{
    lemma_slid_len(line);
    lemma_tiles_nonzero(line);
}

/// A line without an empty cell is the row of its own tiles.
pub proof fn lemma_tiles_full(line: Seq<nat>)
    ensures
        tiles(line).len() == line.len() <==> (forall|i: int| 0 <= i < line.len() ==> line[i] != 0),
        tiles(line).len() == line.len() ==> tiles(line) == line,
    decreases line.len(),
{
    reveal(Seq::filter);
    if line.len() > 0 {
        let front = line.drop_last();
        lemma_tiles_full(front);
        front.lemma_filter_len(is_tile());
        if tiles(line).len() == line.len() {
            assert(line.last() != 0);
            assert(tiles(line) =~= line);
        }
        if forall|i: int| 0 <= i < line.len() ==> line[i] != 0 {
            assert(forall|i: int| 0 <= i < front.len() ==> front[i] == line[i]);
        }
    }
}

/// Tiles merge exactly where two that are equal stand side by side when the
/// merge reaches them; where the merge keeps the length, nothing has merged.
pub proof fn lemma_merged_full(t: Seq<nat>)
    requires
        merged(t).len() == t.len(),
    ensures
        merged(t) == t,
    decreases t.len(),
{
    if t.len() == 0 {
        assert(merged(t) =~= t);
    } else if t.len() >= 2 && t[0] == t[1] {
        lemma_merged_len(t.skip(2));
    } else {
        lemma_merged_len(t.skip(1));
        lemma_merged_full(t.skip(1));
        assert(seq![t[0]] + t.skip(1) =~= t);
    }
}

/// A line that a move changes ends in an empty cell afterwards.
pub proof fn lemma_slid_changed(line: Seq<nat>)
    requires
        slid(line) != line,
    ensures
        line.len() > 0,
        slid(line).last() == 0,
{
    lemma_slid_len(line);
    let m = merged(tiles(line));
    if m.len() == line.len() {
        lemma_tiles_full(line);
        lemma_merged_full(tiles(line));
        assert(slid(line) =~= line);
    }
}

/// Tiles of which no two neighbours are equal stay as they are.
pub proof fn lemma_merge_free(t: Seq<nat>)
    ensures
        merge_free(t) <==> merged(t) == t,
    decreases t.len(),
{
    if t.len() == 0 {
        assert(merged(t) =~= t);
    } else if t.len() >= 2 && t[0] == t[1] {
        lemma_merged_len(t.skip(2));
    } else {
        let rest = t.skip(1);
        lemma_merge_free(rest);
        lemma_merged_len(rest);
        if merge_free(t) {
            assert forall|i: int| 0 <= i < rest.len() - 1 implies #[trigger] rest[i] != rest[i
                + 1] by {
                assert(t[i + 1] != t[i + 2]);
            }
            assert(merged(t) =~= t);
        }
        if merged(t) == t {
            assert(merged(rest) =~= rest) by {
                assert(merged(t).skip(1) =~= merged(rest));
            }
            assert forall|i: int| 0 <= i < t.len() - 1 implies #[trigger] t[i] != t[i + 1] by {
                if i > 0 {
                    assert(rest[i - 1] != rest[i]);
                }
            }
        }
    }
}

/// Empty cells hold no tile.
pub proof fn lemma_tiles_blanks(n: nat)
    ensures
        tiles(blanks(n)) == Seq::<nat>::empty(),
    decreases n,
{
    reveal(Seq::filter);
    if n == 0 {
        assert(tiles(blanks(0)) =~= Seq::<nat>::empty());
    } else {
        assert(blanks(n).drop_last() =~= blanks((n - 1) as nat));
        lemma_tiles_blanks((n - 1) as nat);
    }
}

/// The tiles of a line after a move are the merged tiles of the line.
pub proof fn lemma_tiles_slid(line: Seq<nat>)
    ensures
        tiles(slid(line)) == merged(tiles(line)),
{
    lemma_slid_len(line);
    let m = merged(tiles(line));
    let rest = blanks((line.len() - m.len()) as nat);
    Seq::filter_distributes_over_add(m, rest, is_tile());
    lemma_tiles_blanks(rest.len());
    lemma_tiles_nonzero(line);
    lemma_tiles_full(m);
    assert(m + Seq::<nat>::empty() =~= m);
}

/// A full line of four without two equal neighbours stays as it is.
pub proof fn lemma_stuck_line(line: Seq<nat>)
    requires
        line.len() == 4,
        forall|i: int| 0 <= i < 4 ==> line[i] != 0,
        line[0] != line[1],
        line[1] != line[2],
        line[2] != line[3],
    ensures
        slid(line) == line,
{
    lemma_tiles_full(line);
    lemma_merge_free(line);
    lemma_slid_len(line);
    assert(slid(line) =~= line);
}

/// A line of four that a move leaves as it is, toward either end, is empty,
/// or full and without two equal neighbours.
pub proof fn lemma_fixed_line(line: Seq<nat>)
    requires
        line.len() == 4,
        slid(line) == line,
        slid(line.reverse()) == line.reverse(),
    ensures
        (forall|i: int| 0 <= i < 4 ==> line[i] == 0) || ((forall|i: int|
            0 <= i < 4 ==> line[i] != 0) && line[0] != line[1] && line[1] != line[2] && line[2]
            != line[3]),
{
    let back = line.reverse();
    lemma_slid_packed(line);
    lemma_slid_packed(back);
    assert(back[0] == line[3] && back[1] == line[2] && back[2] == line[1] && back[3] == line[0]);
    if line[0] != 0 || line[1] != 0 || line[2] != 0 || line[3] != 0 {
        assert(line[0] != 0 && line[1] != 0 && line[2] != 0 && line[3] != 0);
        lemma_tiles_full(line);
        lemma_tiles_slid(line);
        lemma_merge_free(line);
        assert(line[0] != line[1]);
        assert(line[1] != line[2]);
        assert(line[2] != line[3]);
    }
}

/// A line read from its other end has the same tiles, in the other order.
pub proof fn lemma_tiles_reverse(line: Seq<nat>)
    ensures
        tiles(line.reverse()) == tiles(line).reverse(),
    decreases line.len(),
{
    reveal(Seq::filter);
    if line.len() == 0 {
        assert(tiles(line.reverse()) =~= tiles(line).reverse());
    } else {
        let front = line.drop_last();
        let x = line.last();
        lemma_tiles_reverse(front);
        assert(line.reverse() =~= seq![x] + front.reverse());
        front.reverse().lemma_filter_prepend(x, is_tile());
        if x != 0 {
            assert((tiles(front).push(x)).reverse() =~= seq![x] + tiles(front).reverse());
        } else {
            assert(Seq::<nat>::empty() + tiles(front).reverse() =~= tiles(front).reverse());
        }
    }
}

/// Tiles that cannot merge cannot merge from the other end either.
pub proof fn lemma_merge_free_reverse(t: Seq<nat>)
    requires
        merge_free(t),
    ensures
        merge_free(t.reverse()),
{
    let r = t.reverse();
    assert forall|i: int| 0 <= i < r.len() - 1 implies #[trigger] r[i] != r[i + 1] by {
        let j = t.len() - 2 - i;
        assert(t[j] != t[j + 1]);
    }
}

} // verus!
