//! The engine: a board, the list of its free cells, and the turn.

use crate::board::{
    at, blank_cells, cell_index, lemma_cell_index, lemma_change_leaves_room, line_at, line_of,
    new_tile, place_of, slide, spawn_of, stuck, total,
};
use crate::grid::{
    ascending, blank_list, cells_of, empty_grid, get, indices, lemma_ascending_unique, put, shaped,
};
use crate::line::{fits, lemma_slid_len, slid, slide_line, sum, values};
use crate::power::{law_move_keeps_proper, law_spawn_keeps_proper, proper};
use crate::rng::random_below;
use vstd::prelude::*;

verus! {

/// The side toward which the tiles travel.
#[derive(Clone, Copy, Debug, PartialEq, Eq)]
pub enum Direction {
    Up,
    Down,
    Left,
    Right,
}

/// How a turn ended.
#[derive(Clone, Copy, Debug, PartialEq, Eq)]
pub enum Status {
    /// The turn is complete.
    Done,
    /// The board changed and the new tile found no free cell.
    Failed,
}

/// A spawn found no free cell.
#[derive(Clone, Copy, Debug, PartialEq, Eq)]
pub struct NoFreeCellError;

/// A board was asked for from a list that does not hold 16 values.
#[derive(Clone, Copy, Debug, PartialEq, Eq)]
pub struct LengthError {
    /// The length of the list.
    pub len: usize,
}

/// The board and the list of its free cells.
///
/// `game_data` is open to read for drawing. Whoever writes to it directly
/// leaves the list of free cells behind, and `wf` no longer holds.
#[derive(Debug)]
pub struct Engine {
    pub game_data: Vec<Vec<u32>>,
    free_grid: Vec<usize>,
}

/// Counts a line from its near end (`u`) or from its far end.
pub fn uod(i: usize, u: bool) -> (k: usize)
    requires
        u || i <= 3,
    ensures
        k == if u {
            i as int
        } else {
            3 - i
        },
{
    if u {
        i
    } else {
        3 - i
    }
}

/// Row and column of the cell at place `p` of line `n`.
pub fn cell_at(d: Direction, n: usize, p: usize) -> (rc: (usize, usize))
    requires
        n < 4,
        p < 4,
    ensures
        rc.0 < 4,
        rc.1 < 4,
        4 * rc.0 + rc.1 == cell_index(d, n as int, p as int),
{
    match d {
        Direction::Up => (uod(p, true), n),
        Direction::Down => (uod(p, false), n),
        Direction::Left => (n, uod(p, true)),
        Direction::Right => (n, uod(p, false)),
    }
}

/// Up for `true`, down for `false`.
pub open spec fn vertical(u: bool) -> Direction {
    if u {
        Direction::Up
    } else {
        Direction::Down
    }
}

/// Left for `true`, right for `false`.
pub open spec fn horizontal(u: bool) -> Direction {
    if u {
        Direction::Left
    } else {
        Direction::Right
    }
}

/// Cell `k` comes before place `p` of line `n` in the order in which a move
/// writes the cells: line by line, each line from its place 0.
spec fn written(d: Direction, n: int, p: int, k: int) -> bool {
    line_of(d, k) < n || (line_of(d, k) == n && place_of(d, k) < p)
}

/// The board while a move is written: the cells that come before place `p`
/// of line `n` hold their new value, the others still their old one.
spec fn partly(b: Seq<nat>, d: Direction, n: int, p: int) -> Seq<nat> {
    Seq::new(
        16,
        |k: int|
            if written(d, n, p, k) {
                slide(b, d)[k]
            } else {
                b[k]
            },
    )
}

/// The cells from an index on never sum to more than all cells.
proof fn lemma_sum_of_tail(b: Seq<nat>, k: int)
    requires
        0 <= k <= b.len(),
    ensures
        sum(b.skip(k)) <= sum(b),
    decreases k,
{
    if k == 0 {
        assert(b.skip(0) =~= b);
    } else {
        lemma_sum_of_tail(b, k - 1);
        assert(b.skip(k - 1).skip(1) =~= b.skip(k));
    }
}

impl Engine {
    /// The board, row after row.
    pub closed spec fn cells(&self) -> Seq<nat> {
        cells_of(self.game_data@)
    }

    /// The grid has four rows of four cells.
    pub closed spec fn well_shaped(&self) -> bool {
        shaped(self.game_data@)
    }

    /// The list of the free cells, by index.
    pub closed spec fn free_list(&self) -> Seq<int> {
        indices(self.free_grid@)
    }

    /// The set of the free cells.
    pub open spec fn free(&self) -> Set<int> {
        self.free_list().to_set()
    }

    /// The grid has its shape, and the free cells are the empty cells,
    /// listed in ascending order.
    pub open spec fn wf(&self) -> bool {
        &&& self.well_shaped()
        &&& self.cells().len() == 16
        &&& ascending(self.free_list())
        &&& self.free() == blank_cells(self.cells())
    }

    /// An engine with an empty board: all 16 cells are free.
    pub fn new() -> (e: Engine)
        ensures
            e.wf(),
            e.free() == blank_cells(e.cells()),
            e.cells() == Seq::new(16, |k: int| 0nat),
            e.free() == Set::new(|k: int| 0 <= k < 16),
    {
        let game_data = empty_grid();
        let free_grid = blank_list(&game_data);
        let e = Engine { game_data, free_grid };
        assert(e.free() =~= Set::new(|k: int| 0 <= k < 16));
        e
    }

    /// The board that a list of values gives: the first 16 of them, row after
    /// row, and empty cells where the list ends before that.
    pub open spec fn board_of(d: Seq<u32>) -> Seq<nat> {
        Seq::new(
            16,
            |k: int|
                if k < d.len() {
                    d[k] as nat
                } else {
                    0nat
                },
        )
    }

    /// An engine with the board that `d` gives. A list of fewer than 16
    /// values is filled up with empty cells; values after the 16th are left
    /// out.
    pub fn from(d: &Vec<u32>) -> (e: Engine)
        ensures
            e.wf(),
            e.free() == blank_cells(e.cells()),
            e.cells() == Self::board_of(d@),
    {
        let mut game_data = empty_grid();
        let mut i: usize = 0;
        while i < 16 && i < d.len()
            invariant
                i <= 16,
                i <= d.len(),
                shaped(game_data@),
                cells_of(game_data@) == Seq::new(
                    16,
                    |k: int|
                        if k < i {
                            d@[k] as nat
                        } else {
                            0nat
                        },
                ),
            decreases 16 - i,
        {
            put(&mut game_data, i / 4, i % 4, d[i]);
            i += 1;
            assert(cells_of(game_data@) =~= Seq::new(
                16,
                |k: int|
                    if k < i {
                        d@[k] as nat
                    } else {
                        0nat
                    },
            ));
        }
        assert(cells_of(game_data@) =~= Self::board_of(d@));
        let free_grid = blank_list(&game_data);
        Engine { game_data, free_grid }
    }

    /// An engine with the 16 values of `d` as its board, row after row.
    /// A list of any other length is refused.
    pub fn from_exact(d: &Vec<u32>) -> (r: Result<Engine, LengthError>)
        ensures
            r is Ok <==> d@.len() == 16,
            r matches Ok(e) ==> e.wf() && e.cells() == values(d@),
            r matches Err(err) ==> err.len == d@.len(),
    {
        if d.len() == 16 {
            let e = Engine::from(d);
            assert(e.cells() =~= values(d@));
            Ok(e)
        } else {
            Err(LengthError { len: d.len() })
        }
    }

    /// Line `n` in travel order.
    fn read_line(&self, d: Direction, n: usize) -> (line: Vec<u32>)
        requires
            self.well_shaped(),
            n < 4,
        ensures
            values(line@) == line_at(self.cells(), d, n as int),
    {
        let mut line: Vec<u32> = Vec::new();
        let mut p: usize = 0;
        while p < 4
            invariant
                p <= 4,
                n < 4,
                self.well_shaped(),
                line@.len() == p,
                forall|q: int|
                    0 <= q < p ==> line@[q] as nat == self.cells()[cell_index(d, n as int, q)],
            decreases 4 - p,
        {
            let (r, c) = cell_at(d, n, p);
            line.push(get(&self.game_data, r, c));
            p += 1;
        }
        assert(values(line@) =~= line_at(self.cells(), d, n as int));
        line
    }

    /// Moves every line toward `d` and lists the free cells anew. Tells
    /// whether any cell changed.
    pub fn shift(&mut self, d: Direction) -> (change: bool)
        requires
            old(self).wf(),
            fits(slide(old(self).cells(), d)),
        ensures
            final(self).wf(),
            final(self).free() == blank_cells(final(self).cells()),
            final(self).cells() == slide(old(self).cells(), d),
            change == (final(self).cells() != old(self).cells()),
            proper(old(self).cells()) ==> proper(final(self).cells()),
    {
        let ghost b = self.cells();
        proof {
            if proper(b) {
                law_move_keeps_proper(b, d);
            }
        }
        let mut change = false;
        let mut n: usize = 0;
        proof {
            lemma_cell_index(d);
            assert(partly(b, d, 0, 0) =~= b);
        }
        while n < 4
            invariant
                n <= 4,
                b.len() == 16,
                self.well_shaped(),
                fits(slide(b, d)),
                self.cells() == partly(b, d, n as int, 0),
                change == (partly(b, d, n as int, 0) != b),
            decreases 4 - n,
        {
            let line = self.read_line(d, n);
            proof {
                lemma_cell_index(d);
                assert(line_at(self.cells(), d, n as int) =~= line_at(b, d, n as int));
                lemma_slid_len(line_at(b, d, n as int));
                assert(fits(slid(line_at(b, d, n as int)))) by {
                    assert forall|q: int| 0 <= q < 4 implies slid(line_at(b, d, n as int))[q]
                        <= u32::MAX by {
                        let k = cell_index(d, n as int, q);
                        assert(slide(b, d)[k] == slid(line_at(b, d, n as int))[q]);
                    }
                }
            }
            let moved = slide_line(&line).unwrap();
            let mut p: usize = 0;
            while p < 4
                invariant
                    p <= 4,
                    n < 4,
                    b.len() == 16,
                    self.well_shaped(),
                    values(moved@) == slid(line_at(b, d, n as int)),
                    moved@.len() == 4,
                    self.cells() == partly(b, d, n as int, p as int),
                    change == (partly(b, d, n as int, p as int) != b),
                decreases 4 - p,
            {
                let (r, c) = cell_at(d, n, p);
                let ghost k = cell_index(d, n as int, p as int);
                proof {
                    lemma_cell_index(d);
                    assert(slide(b, d)[k] == values(moved@)[p as int]);
                    let here = partly(b, d, n as int, p as int);
                    assert(partly(b, d, n as int, p + 1) =~= here.update(k, moved@[p as int] as nat));
                    assert(partly(b, d, n as int, p as int)[k] == b[k]);
                    if partly(b, d, n as int, p as int) != b {
                        if forall|j: int|
                            0 <= j < 16 ==> partly(b, d, n as int, p as int)[j] == b[j] {
                            assert(partly(b, d, n as int, p as int) =~= b);
                        }
                        let j = choose|j: int|
                            0 <= j < 16 && partly(b, d, n as int, p as int)[j] != b[j];
                        assert(partly(b, d, n as int, p + 1)[j] != b[j]);
                    }
                    if moved@[p as int] as nat != b[k] {
                        assert(partly(b, d, n as int, p + 1)[k] != b[k]);
                    } else if partly(b, d, n as int, p as int) == b {
                        assert(partly(b, d, n as int, p + 1) =~= b);
                    }
                }
                if get(&self.game_data, r, c) != moved[p] {
                    change = true;
                }
                put(&mut self.game_data, r, c, moved[p]);
                p += 1;
            }
            proof {
                assert(partly(b, d, n as int, 4) =~= partly(b, d, n + 1, 0));
            }
            n += 1;
        }
        proof {
            assert(partly(b, d, 4, 0) =~= slide(b, d));
        }
        self.free_grid = blank_list(&self.game_data);
        change
    }

    /// Moves the tiles up (`u`) or down.
    pub fn go_updown(&mut self, u: bool) -> (change: bool)
        requires
            old(self).wf(),
            fits(slide(old(self).cells(), vertical(u))),
        ensures
            final(self).wf(),
            final(self).free() == blank_cells(final(self).cells()),
            final(self).cells() == slide(old(self).cells(), vertical(u)),
            change == (final(self).cells() != old(self).cells()),
            proper(old(self).cells()) ==> proper(final(self).cells()),
    {
        if u {
            self.shift(Direction::Up)
        } else {
            self.shift(Direction::Down)
        }
    }

    /// Moves the tiles left (`u`) or right.
    pub fn go_leftright(&mut self, u: bool) -> (change: bool)
        requires
            old(self).wf(),
            fits(slide(old(self).cells(), horizontal(u))),
        ensures
            final(self).wf(),
            final(self).free() == blank_cells(final(self).cells()),
            final(self).cells() == slide(old(self).cells(), horizontal(u)),
            change == (final(self).cells() != old(self).cells()),
            proper(old(self).cells()) ==> proper(final(self).cells()),
    {
        if u {
            self.shift(Direction::Left)
        } else {
            self.shift(Direction::Right)
        }
    }

    /// Whether the engine is well-formed. It is after every call of this
    /// module; it may not be once `game_data` was written to from outside.
    pub fn is_intact(&self) -> (ok: bool)
        ensures
            ok == self.wf(),
    {
        if self.game_data.len() != 4 {
            return false;
        }
        let mut r: usize = 0;
        while r < 4
            invariant
                r <= 4,
                self.game_data@.len() == 4,
                forall|i: int| 0 <= i < r ==> (#[trigger] self.game_data@[i])@.len() == 4,
            decreases 4 - r,
        {
            if self.game_data[r].len() != 4 {
                return false;
            }
            r += 1;
        }
        let blank = blank_list(&self.game_data);
        proof {
            if self.wf() {
                lemma_ascending_unique(self.free_list(), indices(blank@));
            }
        }
        if blank.len() != self.free_grid.len() {
            return false;
        }
        let mut i: usize = 0;
        while i < blank.len()
            invariant
                i <= blank@.len(),
                blank@.len() == self.free_grid@.len(),
                self.wf() ==> self.free_list() == indices(blank@),
                forall|j: int| 0 <= j < i ==> blank@[j] == self.free_grid@[j],
            decreases blank@.len() - i,
        {
            if blank[i] != self.free_grid[i] {
                assert(indices(blank@)[i as int] != self.free_list()[i as int]);
                return false;
            }
            i += 1;
        }
        assert(self.free_list() =~= indices(blank@));
        true
    }

    /// The free cells, by index (4 times the row, plus the column).
    pub fn free_cells(&self) -> (list: Vec<usize>)
        ensures
            indices(list@) == self.free_list(),
    {
        let mut list: Vec<usize> = Vec::new();
        let mut i: usize = 0;
        while i < self.free_grid.len()
            invariant
                i <= self.free_grid@.len(),
                list@ == self.free_grid@.take(i as int),
            decreases self.free_grid@.len() - i,
        {
            list.push(self.free_grid[i]);
            assert(list@ =~= self.free_grid@.take(i + 1));
            i += 1;
        }
        assert(list@ =~= self.free_grid@);
        list
    }

    /// The cell in row `r` and column `c`.
    pub fn cell(&self, r: usize, c: usize) -> (v: u32)
        requires
            self.wf(),
            r < 4,
            c < 4,
        ensures
            v == at(self.cells(), r as int, c as int),
    {
        get(&self.game_data, r, c)
    }

    /// Whether the board after a move toward `d` can be held: whether every
    /// tile that a merge would make fits in a cell.
    pub fn move_fits(&self, d: Direction) -> (ok: bool)
        requires
            self.wf(),
        ensures
            ok == fits(slide(self.cells(), d)),
    {
        let ghost b = self.cells();
        let mut n: usize = 0;
        proof {
            lemma_cell_index(d);
        }
        while n < 4
            invariant
                n <= 4,
                self.well_shaped(),
                b == self.cells(),
                b.len() == 16,
                forall|m: int| 0 <= m < n ==> fits(#[trigger] slid(line_at(b, d, m))),
            decreases 4 - n,
        {
            let line = self.read_line(d, n);
            match slide_line(&line) {
                Some(_) => {},
                None => {
                    proof {
                        lemma_cell_index(d);
                        let l = slid(line_at(b, d, n as int));
                        lemma_slid_len(line_at(b, d, n as int));
                        let q = choose|q: int| 0 <= q < l.len() && l[q] > u32::MAX;
                        let k = cell_index(d, n as int, q);
                        assert(slide(b, d)[k] == l[q]);
                    }
                    return false;
                },
            }
            n += 1;
        }
        proof {
            lemma_cell_index(d);
            assert forall|k: int| 0 <= k < 16 implies slide(b, d)[k] <= u32::MAX by {
                let m = line_of(d, k);
                lemma_slid_len(line_at(b, d, m));
                assert(fits(slid(line_at(b, d, m))));
            }
        }
        true
    }

    /// Takes the free cell at place `slot` of the list and puts there the
    /// tile that belongs to `roll`.
    pub fn place(&mut self, slot: usize, roll: usize)
        requires
            old(self).wf(),
            slot < old(self).free_list().len(),
        ensures
            final(self).wf(),
            final(self).free() == blank_cells(final(self).cells()),
            final(self).cells() == old(self).cells().update(
                old(self).free_list()[slot as int],
                new_tile(roll as int),
            ),
            final(self).free_list() == old(self).free_list().remove(slot as int),
            spawn_of(old(self).cells(), final(self).cells()),
            proper(old(self).cells()) ==> proper(final(self).cells()),
    {
        let ghost list = self.free_list();
        let ghost b = self.cells();
        let ghost k = list[slot as int];
        assert(self.free().contains(k));
        let tile: u32 = if roll < 8 {
            2
        } else {
            4
        };
        let position = self.free_grid.remove(slot);
        put(&mut self.game_data, position / 4, position % 4, tile);
        proof {
            let after = self.free_list();
            assert(after =~= list.remove(slot as int));
            assert(ascending(after));
            assert(self.free() =~= blank_cells(self.cells())) by {
                assert forall|c: int| self.free().contains(c) implies blank_cells(
                    self.cells(),
                ).contains(c) by {
                    let i = choose|i: int| 0 <= i < after.len() && after[i] == c;
                    let j = if i < slot {
                        i
                    } else {
                        i + 1
                    };
                    assert(list[j] == c);
                    assert(old(self).free().contains(c));
                }
                assert forall|c: int| blank_cells(self.cells()).contains(c) implies self.free()
                    .contains(c) by {
                    assert(old(self).free().contains(c));
                    let j = choose|j: int| 0 <= j < list.len() && list[j] == c;
                    let i = if j < slot {
                        j
                    } else {
                        j - 1
                    };
                    assert(after[i] == c);
                }
            }
            if proper(b) {
                law_spawn_keeps_proper(b, self.cells());
            }
        }
    }

    /// Spawns a tile: a 2 (eight times in ten) or a 4 in a free cell picked
    /// at random. Fails, and changes nothing, where no cell is free.
    pub fn rand_insert(&mut self) -> (r: Result<(), NoFreeCellError>)
        requires
            old(self).wf(),
        ensures
            final(self).wf(),
            final(self).free() == blank_cells(final(self).cells()),
            r is Err <==> old(self).free().is_empty(),
            r is Err ==> final(self).cells() == old(self).cells() && final(self).free_list() == old(
                self,
            ).free_list(),
            r is Ok ==> spawn_of(old(self).cells(), final(self).cells()),
            proper(old(self).cells()) ==> proper(final(self).cells()),
    {
        if self.free_grid.is_empty() {
            assert(self.free() =~= Set::<int>::empty());
            Err(NoFreeCellError)
        } else {
            assert(self.free().contains(self.free_list()[0]));
            let roll = random_below(10);
            let slot = random_below(self.free_grid.len());
            self.place(slot, roll);
            Ok(())
        }
    }

    /// A new game: an empty board and two spawns.
    pub fn init() -> (e: Engine)
        ensures
            e.wf(),
            e.free() == blank_cells(e.cells()),
            exists|first: Seq<nat>|
                #![trigger spawn_of(first, e.cells())]
                spawn_of(Seq::new(16, |k: int| 0nat), first) && spawn_of(first, e.cells()),
            proper(e.cells()),
    {
        let mut engine = Engine::new();
        assert(engine.free().contains(0));
        let first = engine.rand_insert();
        let ghost mid = engine.cells();
        assert(first is Ok);
        assert(blank_cells(mid).contains(
            if mid[0] == 0 {
                0int
            } else {
                1int
            },
        ));
        let second = engine.rand_insert();
        assert(second is Ok);
        assert(spawn_of(mid, engine.cells()));
        engine
    }

    /// One turn: the move, and a spawn if and only if the move changed the
    /// board. The spawn always finds a free cell, for a move that changes
    /// the board empties one.
    pub fn go(&mut self, d: Direction) -> (status: Status)
        requires
            old(self).wf(),
            fits(slide(old(self).cells(), d)),
        ensures
            final(self).wf(),
            final(self).free() == blank_cells(final(self).cells()),
            slide(old(self).cells(), d) == old(self).cells() ==> final(self).cells() == old(
                self,
            ).cells(),
            slide(old(self).cells(), d) != old(self).cells() ==> spawn_of(
                slide(old(self).cells(), d),
                final(self).cells(),
            ),
            proper(old(self).cells()) ==> proper(final(self).cells()),
            status == Status::Done,
    {
        let change = match d {
            Direction::Up => self.go_updown(true),
            Direction::Down => self.go_updown(false),
            Direction::Left => self.go_leftright(true),
            Direction::Right => self.go_leftright(false),
        };
        if change {
            proof {
                lemma_change_leaves_room(old(self).cells(), d);
            }
            match self.rand_insert() {
                Ok(_) => Status::Done,
                Err(_) => Status::Failed,
            }
        } else {
            Status::Done
        }
    }

    /// The sum of all cells, or `None` where it is more than a `u32` holds.
    pub fn checked_score(&self) -> (sum: Option<u32>)
        requires
            self.wf(),
        ensures
            sum is Some <==> total(self.cells()) <= u32::MAX,
            sum matches Some(s) ==> s == total(self.cells()),
    {
        let ghost b = self.cells();
        let mut acc: u32 = 0;
        let mut k: usize = 16;
        while k > 0
            invariant
                k <= 16,
                self.well_shaped(),
                b == self.cells(),
                b.len() == 16,
                acc == sum(b.skip(k as int)),
                total(b) >= sum(b.skip(k as int)),
            decreases k,
        {
            k -= 1;
            let v = get(&self.game_data, k / 4, k % 4);
            proof {
                assert(b.skip(k as int).skip(1) =~= b.skip(k + 1));
                lemma_sum_of_tail(b, k as int);
            }
            match acc.checked_add(v) {
                Some(s) => {
                    acc = s;
                },
                None => {
                    return None;
                },
            }
        }
        assert(b.skip(0) =~= b);
        Some(acc)
    }

    /// The sum of all cells.
    pub fn score(&self) -> (sum: u32)
        requires
            self.wf(),
            total(self.cells()) <= u32::MAX,
        ensures
            sum == total(self.cells()),
    {
        self.checked_score().unwrap()
    }

    /// Whether the game is over: no cell is empty and no two neighbours in a
    /// row or in a column are equal.
    pub fn is_failed(&self) -> (failed: bool)
        requires
            self.wf(),
        ensures
            failed == stuck(self.cells()),
    {
        let ghost b = self.cells();
        let mut k: usize = 0;
        while k < 16
            invariant
                k <= 16,
                self.well_shaped(),
                b == self.cells(),
                forall|j: int| 0 <= j < k ==> b[j] != 0,
            decreases 16 - k,
        {
            if get(&self.game_data, k / 4, k % 4) == 0 {
                assert(b[k as int] == 0);
                return false;
            }
            k += 1;
        }
        let mut i: usize = 0;
        while i < 4
            invariant
                i <= 4,
                self.well_shaped(),
                b == self.cells(),
                forall|r: int, c: int|
                    0 <= r < i && 0 <= c < 3 ==> #[trigger] at(b, r, c) != at(b, r, c + 1),
            decreases 4 - i,
        {
            let mut j: usize = 0;
            while j < 3
                invariant
                    j <= 3,
                    i < 4,
                    self.well_shaped(),
                    b == self.cells(),
                    forall|r: int, c: int|
                        0 <= r < i && 0 <= c < 3 ==> #[trigger] at(b, r, c) != at(b, r, c + 1),
                    forall|c: int|
                        0 <= c < j ==> #[trigger] at(b, i as int, c) != at(b, i as int, c + 1),
                decreases 3 - j,
            {
                if get(&self.game_data, i, j) == get(&self.game_data, i, j + 1) {
                    assert(at(b, i as int, j as int) == at(b, i as int, j + 1));
                    return false;
                }
                j += 1;
            }
            i += 1;
        }
        let mut j: usize = 0;
        while j < 4
            invariant
                j <= 4,
                self.well_shaped(),
                b == self.cells(),
                forall|r: int, c: int|
                    0 <= r < 3 && 0 <= c < j ==> #[trigger] at(b, r, c) != at(b, r + 1, c),
            decreases 4 - j,
        {
            let mut i: usize = 0;
            while i < 3
                invariant
                    i <= 3,
                    j < 4,
                    self.well_shaped(),
                    b == self.cells(),
                    forall|r: int, c: int|
                        0 <= r < 3 && 0 <= c < j ==> #[trigger] at(b, r, c) != at(b, r + 1, c),
                    forall|r: int|
                        0 <= r < i ==> #[trigger] at(b, r, j as int) != at(b, r + 1, j as int),
                decreases 3 - i,
            {
                if get(&self.game_data, i, j) == get(&self.game_data, i + 1, j) {
                    assert(at(b, i as int, j as int) == at(b, i + 1, j as int));
                    return false;
                }
                i += 1;
            }
            j += 1;
        }
        true
    }
}

} // verus!
