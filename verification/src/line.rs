//! The move of one line: the tiles slide toward index 0, and equal
//! neighbours among them merge, each tile at most once.

use vstd::prelude::*;

verus! {

/// A line of cells as natural numbers; an empty cell is 0.
pub open spec fn values(cells: Seq<u32>) -> Seq<nat> {
    cells.map_values(|v: u32| v as nat)
}

/// Every value can be held in a `u32` cell.
pub open spec fn fits(line: Seq<nat>) -> bool {
    forall|i: int| 0 <= i < line.len() ==> line[i] <= u32::MAX
}

/// What tells a tile from an empty cell.
pub open spec fn is_tile() -> spec_fn(nat) -> bool {
    |v: nat| v != 0
}

/// The tiles of a line: its non-zero cells, in their order.
pub open spec fn tiles(line: Seq<nat>) -> Seq<nat> {
    line.filter(is_tile())
}

/// Merges a row of tiles from the front: where the first two are equal they
/// become one tile of twice the value, which takes no part in a further
/// merge; otherwise the first tile stays as it is.
pub open spec fn merged(t: Seq<nat>) -> Seq<nat>
    decreases t.len(),
{
    if t.len() == 0 {
        Seq::empty()
    } else if t.len() >= 2 && t[0] == t[1] {
        seq![2 * t[0]] + merged(t.skip(2))
    } else {
        seq![t[0]] + merged(t.skip(1))
    }
}

/// `n` empty cells.
pub open spec fn blanks(n: nat) -> Seq<nat> {
    Seq::new(n, |i: int| 0nat)
}

/// The line after a move toward index 0: the merged tiles, then empty cells
/// up to the length of the line.
pub open spec fn slid(line: Seq<nat>) -> Seq<nat> {
    let m = merged(tiles(line));
    m + blanks((line.len() - m.len()) as nat)
}

/// The sum of the cells of a line.
pub open spec fn sum(line: Seq<nat>) -> nat
    decreases line.len(),
{
    if line.len() == 0 {
        0
    } else {
        line[0] + sum(line.skip(1))
    }
}

/// No two tiles side by side are equal, so that nothing merges.
pub open spec fn merge_free(t: Seq<nat>) -> bool {
    forall|i: int| 0 <= i < t.len() - 1 ==> #[trigger] t[i] != t[i + 1]
}

/// What the merges of a move are worth: the sum of the tiles that they make.
pub open spec fn gain(t: Seq<nat>) -> nat
    decreases t.len(),
{
    if t.len() == 0 {
        0
    } else if t.len() >= 2 && t[0] == t[1] {
        2 * t[0] + gain(t.skip(2))
    } else {
        gain(t.skip(1))
    }
}

/// Merging never makes a row of tiles longer.
pub proof fn lemma_merged_len(t: Seq<nat>)
    ensures
        merged(t).len() <= t.len(),
    decreases t.len(),
{
    if t.len() == 0 {
    } else if t.len() >= 2 && t[0] == t[1] {
        lemma_merged_len(t.skip(2));
    } else {
        lemma_merged_len(t.skip(1));
    }
}

/// A line keeps its length when it slides.
pub proof fn lemma_slid_len(line: Seq<nat>)
    ensures
        merged(tiles(line)).len() <= tiles(line).len() <= line.len(),
        slid(line).len() == line.len(),
{
    lemma_merged_len(tiles(line));
    line.lemma_filter_len(is_tile());
}

/// The values of a vector of cells with one more cell at its end.
proof fn lemma_values_push(cells: Seq<u32>, v: u32)
    ensures
        values(cells.push(v)) == values(cells).push(v as nat),
{
    assert(values(cells.push(v)) =~= values(cells).push(v as nat));
}

/// Slides a line toward index 0. `None` where a merged tile would not fit
/// in a cell.
pub fn slide_line(line: &Vec<u32>) -> (out: Option<Vec<u32>>)
    ensures
        out is Some <==> fits(slid(values(line@))),
        out matches Some(v) ==> values(v@) == slid(values(line@)),
{
    let n: usize = line.len();
    let ghost cells = values(line@);
    let mut t: Vec<u32> = Vec::new();
    let mut i: usize = 0;
    proof {
        reveal(Seq::filter);
        assert(values(t@) =~= tiles(cells.take(0)));
    }
    while i < n
        invariant
            i <= n,
            n == line.len(),
            cells == values(line@),
            values(t@) == tiles(cells.take(i as int)),
        decreases n - i,
    {
        proof {
            cells.take(i as int).lemma_filter_push(cells[i as int], is_tile());
            assert(cells.take(i as int + 1) =~= cells.take(i as int).push(cells[i as int]));
            lemma_values_push(t@, line[i as int]);
        }
        if line[i] != 0 {
            t.push(line[i]);
        }
        i += 1;
    }
    proof {
        assert(cells.take(n as int) =~= cells);
        lemma_slid_len(cells);
    }
    let ghost tl = values(t@);
    let mut out: Vec<u32> = Vec::new();
    let mut j: usize = 0;
    proof {
        assert(tl.skip(0) =~= tl);
        assert(values(out@) + merged(tl) =~= merged(tl));
    }
    while j < t.len()
        invariant
            j <= t.len(),
            tl == values(t@),
            tl == tiles(cells),
            cells == values(line@),
            cells.len() == n,
            out.len() <= j,
            merged(tl) == values(out@) + merged(tl.skip(j as int)),
        decreases t.len() - j,
    {
        let ghost rest = tl.skip(j as int);
        let ghost done = values(out@);
        proof {
            assert(rest[0] == tl[j as int]);
            assert(rest.skip(1) =~= tl.skip(j as int + 1));
        }
        if j + 1 < t.len() && t[j] == t[j + 1] {
            proof {
                assert(rest[1] == tl[j as int + 1]);
                assert(rest.skip(2) =~= tl.skip(j as int + 2));
                assert(merged(rest)[0] == 2 * tl[j as int]);
                assert(merged(tl)[out.len() as int] == 2 * tl[j as int]);
            }
            match t[j].checked_add(t[j + 1]) {
                Some(d) => {
                    proof {
                        lemma_values_push(out@, d);
                        assert(done.push(d as nat) + merged(rest.skip(2)) =~= done + merged(rest));
                    }
                    out.push(d);
                },
                None => {
                    proof {
                        lemma_merged_len(tl);
                        let k = out.len() as int;
                        assert(merged(tl).len() > k);
                        assert(slid(cells)[k] == 2 * tl[j as int]);
                        assert(0 <= k < slid(cells).len() && slid(cells)[k] > u32::MAX);
                    }
                    return None;
                },
            }
            j += 2;
        } else {
            proof {
                lemma_values_push(out@, t[j as int]);
                assert(done.push(tl[j as int]) + merged(rest.skip(1)) =~= done + merged(rest));
            }
            out.push(t[j]);
            j += 1;
        }
    }
    proof {
        assert(tl.skip(j as int) =~= Seq::<nat>::empty());
        assert(values(out@) + Seq::<nat>::empty() =~= values(out@));
    }
    let ghost m = values(out@);
    assert(m == merged(tiles(cells)));
    while out.len() < n
        invariant
            m.len() <= out.len() <= n,
            values(out@) == m + blanks((out.len() - m.len()) as nat),
        decreases n - out.len(),
    {
        proof {
            lemma_values_push(out@, 0);
            assert(m + blanks((out.len() + 1 - m.len()) as nat) =~= (m + blanks(
                (out.len() - m.len()) as nat,
            )).push(0nat));
        }
        out.push(0);
    }
    assert(fits(values(out@))) by {
        assert forall|k: int| 0 <= k < out.len() implies values(out@)[k] <= u32::MAX by {}
    }
    Some(out)
}

} // verus!
