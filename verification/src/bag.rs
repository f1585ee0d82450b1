//! The cells of a line as a multiset: what a move keeps when nothing merges.

use crate::facts::lemma_merge_free;
use crate::line::{blanks, is_tile, lemma_slid_len, merge_free, slid, sum, tiles};
use vstd::multiset::group_multiset_axioms;
use vstd::prelude::*;
use vstd::seq_lib::{lemma_multiset_commutative, to_multiset_build};

verus! {

/// A row of empty cells holds the value 0 and nothing else.
pub proof fn lemma_blanks_count(n: nat, v: nat)
    ensures
        blanks(n).to_multiset().count(v) == if v == 0 {
            n
        } else {
            0
        },
    decreases n,
{
    broadcast use group_multiset_axioms;

    if n == 0 {
        blanks(0).to_multiset_ensures();
        assert(blanks(0).to_multiset().len() == 0);
    } else {
        let front = blanks((n - 1) as nat);
        assert(blanks(n) =~= front.push(0nat));
        to_multiset_build(front, 0nat);
        lemma_blanks_count((n - 1) as nat, v);
    }
}

/// The tiles of a line are its cells without the empty ones.
pub proof fn lemma_tiles_count(line: Seq<nat>, v: nat)
    ensures
        tiles(line).to_multiset().count(v) == if v == 0 {
            0
        } else {
            line.to_multiset().count(v)
        },
        v == 0 ==> line.len() == tiles(line).len() + line.to_multiset().count(v),
    decreases line.len(),
{
    broadcast use group_multiset_axioms;

    if line.len() == 0 {
        reveal(Seq::filter);
        line.to_multiset_ensures();
        assert(line.to_multiset().len() == 0);
    } else {
        let front = line.drop_last();
        let x = line.last();
        assert(line =~= front.push(x));
        to_multiset_build(front, x);
        front.lemma_filter_push(x, is_tile());
        to_multiset_build(tiles(front), x);
        lemma_tiles_count(front, v);
    }
}

/// Where nothing merges, a move keeps the cells of a line and only orders
/// them anew.
pub proof fn lemma_slid_keeps_cells(line: Seq<nat>)
    requires
        merge_free(tiles(line)),
    ensures
        slid(line) == tiles(line) + blanks((line.len() - tiles(line).len()) as nat),
        slid(line).to_multiset() == line.to_multiset(),
{
    broadcast use group_multiset_axioms;

    lemma_slid_len(line);
    lemma_merge_free(tiles(line));
    let rest = blanks((line.len() - tiles(line).len()) as nat);
    lemma_multiset_commutative(tiles(line), rest);
    assert forall|v: nat| slid(line).to_multiset().count(v) == line.to_multiset().count(v) by {
        lemma_tiles_count(line, v);
        lemma_tiles_count(line, 0);
        lemma_blanks_count(rest.len(), v);
    }
    assert(slid(line).to_multiset() =~= line.to_multiset());
}

/// A line with a 1 where the cell holds `v` and a 0 elsewhere.
pub open spec fn marks(line: Seq<nat>, v: nat) -> Seq<nat> {
    Seq::new(
        line.len(),
        |i: int|
            if line[i] == v {
                1nat
            } else {
                0nat
            },
    )
}

/// How often a value stands in a line is the sum of its marks.
pub proof fn lemma_count_by_marks(line: Seq<nat>, v: nat)
    ensures
        line.to_multiset().count(v) == sum(marks(line, v)),
    decreases line.len(),
{
    broadcast use group_multiset_axioms;

    if line.len() == 0 {
        line.to_multiset_ensures();
        assert(line.to_multiset().len() == 0);
    } else {
        let x = line[0];
        let rest = line.skip(1);
        lemma_count_by_marks(rest, v);
        assert(line =~= seq![x] + rest);
        lemma_multiset_commutative(seq![x], rest);
        assert(seq![x] =~= Seq::<nat>::empty().push(x));
        to_multiset_build(Seq::<nat>::empty(), x);
        Seq::<nat>::empty().to_multiset_ensures();
        assert(Seq::<nat>::empty().to_multiset().len() == 0);
        assert(marks(line, v).skip(1) =~= marks(rest, v));
    }
}

} // verus!
