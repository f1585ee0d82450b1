//! The cells as the engine stores them: four rows of four.

use crate::board::blank_cells;
use vstd::prelude::*;

verus! {

/// Four rows of four cells each.
pub open spec fn shaped(g: Seq<Vec<u32>>) -> bool {
    &&& g.len() == 4
    &&& forall|r: int| 0 <= r < 4 ==> (#[trigger] g[r])@.len() == 4
}

/// The board that a grid holds, row after row.
pub open spec fn cells_of(g: Seq<Vec<u32>>) -> Seq<nat> {
    Seq::new(16, |k: int| g[k / 4]@[k % 4] as nat)
}

/// The indices of a list of cells as integers.
pub open spec fn indices(list: Seq<usize>) -> Seq<int> {
    list.map_values(|k: usize| k as int)
}

/// Each index is less than the next.
pub open spec fn ascending(list: Seq<int>) -> bool {
    forall|i: int, j: int| 0 <= i < j < list.len() ==> list[i] < list[j]
}

/// Two ascending lists of the same indices are one list.
pub proof fn lemma_ascending_unique(a: Seq<int>, b: Seq<int>)
    requires
        ascending(a),
        ascending(b),
        a.to_set() == b.to_set(),
    ensures
        a == b,
    decreases a.len(),
{
    if a.len() == 0 {
        if b.len() > 0 {
            assert(b.to_set().contains(b[0]));
            assert(a.contains(b[0]));
        }
        assert(a =~= b);
    } else {
        let x = a.last();
        assert(a.to_set().contains(x));
        assert(b.contains(x));
        let j = choose|j: int| 0 <= j < b.len() && b[j] == x;
        let y = b.last();
        assert(b.to_set().contains(y));
        assert(a.contains(y));
        let i = choose|i: int| 0 <= i < a.len() && a[i] == y;
        assert(x == y);
        let front_a = a.drop_last();
        let front_b = b.drop_last();
        assert(front_a.to_set() =~= front_b.to_set()) by {
            assert forall|z: int| front_a.to_set().contains(z) implies front_b.to_set().contains(
                z,
            ) by {
                let m = choose|m: int| 0 <= m < front_a.len() && front_a[m] == z;
                assert(a[m] == z);
                assert(a.to_set().contains(z));
                assert(b.contains(z));
                let n = choose|n: int| 0 <= n < b.len() && b[n] == z;
                assert(front_b[n] == z);
            }
            assert forall|z: int| front_b.to_set().contains(z) implies front_a.to_set().contains(
                z,
            ) by {
                let m = choose|m: int| 0 <= m < front_b.len() && front_b[m] == z;
                assert(b[m] == z);
                assert(b.to_set().contains(z));
                assert(a.contains(z));
                let n = choose|n: int| 0 <= n < a.len() && a[n] == z;
                assert(front_a[n] == z);
            }
        }
        lemma_ascending_unique(front_a, front_b);
        assert(a =~= front_a.push(x));
        assert(b =~= front_b.push(y));
    }
}

/// A grid of empty cells.
pub fn empty_grid() -> (g: Vec<Vec<u32>>)
    ensures
        shaped(g@),
        cells_of(g@) == Seq::new(16, |k: int| 0nat),
{
    let mut g: Vec<Vec<u32>> = Vec::new();
    let mut r: usize = 0;
    while r < 4
        invariant
            r <= 4,
            g@.len() == r,
            forall|i: int| 0 <= i < r ==> (#[trigger] g@[i])@ == seq![0u32, 0u32, 0u32, 0u32],
        decreases 4 - r,
    {
        let mut row: Vec<u32> = Vec::new();
        row.push(0);
        row.push(0);
        row.push(0);
        row.push(0);
        assert(row@ =~= seq![0u32, 0u32, 0u32, 0u32]);
        g.push(row);
        r += 1;
    }
    assert(cells_of(g@) =~= Seq::new(16, |k: int| 0nat)) by {
        assert forall|k: int| 0 <= k < 16 implies cells_of(g@)[k] == 0 by {
            assert(g@[k / 4]@ == seq![0u32, 0u32, 0u32, 0u32]);
        }
    }
    g
}

/// Writes one cell.
pub fn put(g: &mut Vec<Vec<u32>>, r: usize, c: usize, v: u32)
    requires
        shaped(old(g)@),
        r < 4,
        c < 4,
    ensures
        shaped(final(g)@),
        cells_of(final(g)@) == cells_of(old(g)@).update(4 * r + c, v as nat),
{
    g[r][c] = v;
    assert(cells_of(g@) =~= cells_of(old(g)@).update(4 * r + c, v as nat)) by {
        assert forall|k: int| 0 <= k < 16 implies cells_of(g@)[k] == cells_of(old(g)@).update(
            4 * r + c,
            v as nat,
        )[k] by {
            if k / 4 != r {
                assert(g@[k / 4] == old(g)@[k / 4]);
            }
        }
    }
}

/// Reads one cell.
pub fn get(g: &Vec<Vec<u32>>, r: usize, c: usize) -> (v: u32)
    requires
        shaped(g@),
        r < 4,
        c < 4,
    ensures
        v as nat == cells_of(g@)[4 * r + c],
{
    g[r][c]
}

/// The indices of the empty cells, in ascending order.
pub fn blank_list(g: &Vec<Vec<u32>>) -> (list: Vec<usize>)
    requires
        shaped(g@),
    ensures
        ascending(indices(list@)),
        indices(list@).to_set() == blank_cells(cells_of(g@)),
{
    let mut list: Vec<usize> = Vec::new();
    let ghost b = cells_of(g@);
    let mut k: usize = 0;
    while k < 16
        invariant
            k <= 16,
            shaped(g@),
            b == cells_of(g@),
            forall|i: int| 0 <= i < list@.len() ==> list@[i] < k && b[list@[i] as int] == 0,
            forall|i: int, j: int| 0 <= i < j < list@.len() ==> list@[i] < list@[j],
            forall|c: int|
                0 <= c < k && b[c] == 0 ==> exists|i: int| 0 <= i < list@.len() && list@[i] == c,
        decreases 16 - k,
    {
        if get(g, k / 4, k % 4) == 0 {
            let ghost before = list@;
            list.push(k);
            assert forall|c: int| 0 <= c < k + 1 && b[c] == 0 implies exists|i: int|
                0 <= i < list@.len() && list@[i] == c by {
                if c < k {
                    let i = choose|i: int| 0 <= i < before.len() && before[i] == c;
                    assert(list@[i] == c);
                } else {
                    assert(list@[before.len() as int] == c);
                }
            }
        }
        k += 1;
    }
    proof {
        let ix = indices(list@);
        assert(ix.to_set() =~= blank_cells(b)) by {
            assert forall|c: int| blank_cells(b).contains(c) implies ix.to_set().contains(c) by {
                let i = choose|i: int| 0 <= i < list@.len() && list@[i] == c;
                assert(ix[i] == c);
            }
            assert forall|c: int| ix.to_set().contains(c) implies blank_cells(b).contains(c) by {
                let i = choose|i: int| 0 <= i < ix.len() && ix[i] == c;
                assert(list@[i] == c);
            }
        }
    }
    list
}

} // verus!
