//! The sum of a line, and what the merges of a move are worth.

use crate::line::{blanks, gain, lemma_slid_len, merge_free, merged, slid, sum, tiles};
use vstd::prelude::*;

verus! {

/// The sum of a single cell.
pub proof fn lemma_sum_one(x: nat)
    ensures
        sum(seq![x]) == x,
{
    reveal_with_fuel(sum, 2);
}

/// The sum of two lines, one after the other.
pub proof fn lemma_sum_concat(a: Seq<nat>, b: Seq<nat>)
    ensures
        sum(a + b) == sum(a) + sum(b),
    decreases a.len(),
{
    if a.len() == 0 {
        assert(a + b =~= b);
    } else {
        assert((a + b).skip(1) =~= a.skip(1) + b);
        lemma_sum_concat(a.skip(1), b);
    }
}

/// A cell with a new value changes the sum by the difference.
pub proof fn lemma_sum_update(line: Seq<nat>, k: int, v: nat)
    requires
        0 <= k < line.len(),
    ensures
        sum(line.update(k, v)) + line[k] == sum(line) + v,
    decreases line.len(),
{
    if k == 0 {
        assert(line.update(k, v).skip(1) =~= line.skip(1));
    } else {
        assert(line.update(k, v).skip(1) =~= line.skip(1).update(k - 1, v));
        lemma_sum_update(line.skip(1), k - 1, v);
    }
}

/// No cell is more than the sum of the line.
pub proof fn lemma_sum_bounds(line: Seq<nat>, i: int)
    requires
        0 <= i < line.len(),
    ensures
        line[i] <= sum(line),
    decreases line.len(),
{
    if i > 0 {
        lemma_sum_bounds(line.skip(1), i - 1);
    }
}

/// Empty cells add nothing to a sum.
pub proof fn lemma_sum_blanks(n: nat)
    ensures
        sum(blanks(n)) == 0,
    decreases n,
{
    if n > 0 {
        assert(blanks(n).skip(1) =~= blanks((n - 1) as nat));
        lemma_sum_blanks((n - 1) as nat);
    }
}

/// The tiles of a line sum to what the line sums to.
pub proof fn lemma_sum_tiles(line: Seq<nat>)
    ensures
        sum(tiles(line)) == sum(line),
    decreases line.len(),
{
    reveal(Seq::filter);
    if line.len() > 0 {
        let front = line.drop_last();
        let x = line.last();
        lemma_sum_tiles(front);
        assert(line =~= front + seq![x]);
        lemma_sum_concat(front, seq![x]);
        lemma_sum_one(x);
        if x != 0 {
            assert(tiles(line) =~= tiles(front) + seq![x]);
            lemma_sum_concat(tiles(front), seq![x]);
        }
    }
}

/// A merge keeps the sum: the new tile is worth the two that made it.
pub proof fn lemma_sum_merged(t: Seq<nat>)
    ensures
        sum(merged(t)) == sum(t),
    decreases t.len(),
{
    if t.len() == 0 {
    } else if t.len() >= 2 && t[0] == t[1] {
        lemma_sum_merged(t.skip(2));
        lemma_sum_concat(seq![2 * t[0]], merged(t.skip(2)));
        lemma_sum_one(2 * t[0]);
        assert(t.skip(1).skip(1) =~= t.skip(2));
        assert(sum(t) == t[0] + sum(t.skip(1)));
        assert(sum(t.skip(1)) == t[1] + sum(t.skip(2)));
    } else {
        lemma_sum_merged(t.skip(1));
        lemma_sum_concat(seq![t[0]], merged(t.skip(1)));
        lemma_sum_one(t[0]);
    }
}

/// A move keeps the sum of a line.
pub proof fn lemma_sum_slid(line: Seq<nat>)
    ensures
        sum(slid(line)) == sum(line),
{
    lemma_slid_len(line);
    let m = merged(tiles(line));
    lemma_sum_concat(m, blanks((line.len() - m.len()) as nat));
    lemma_sum_blanks((line.len() - m.len()) as nat);
    lemma_sum_merged(tiles(line));
    lemma_sum_tiles(line);
}

/// Where no two neighbours are equal, the merges are worth nothing.
pub proof fn lemma_gain_none(t: Seq<nat>)
    requires
        merge_free(t),
    ensures
        gain(t) == 0,
    decreases t.len(),
{
    if t.len() == 0 {
    } else {
        assert(t.len() >= 2 ==> t[0] != t[1]);
        let rest = t.skip(1);
        assert forall|i: int| 0 <= i < rest.len() - 1 implies #[trigger] rest[i] != rest[i + 1] by {
            assert(t[i + 1] != t[i + 2]);
        }
        lemma_gain_none(rest);
    }
}

/// Where two equal tiles stand side by side, a merge is made, and it is
/// worth something.
pub proof fn lemma_gain_some(t: Seq<nat>)
    requires
        !merge_free(t),
        forall|i: int| 0 <= i < t.len() ==> t[i] != 0,
    ensures
        gain(t) > 0,
    decreases t.len(),
{
    let i = choose|i: int| 0 <= i < t.len() - 1 && #[trigger] t[i] == t[i + 1];
    if t[0] == t[1] {
    } else {
        let rest = t.skip(1);
        assert(rest[i - 1] == rest[i]);
        lemma_gain_some(rest);
    }
}

} // verus!
