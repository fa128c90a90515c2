use vstd::prelude::*;

use crate::cell::{
    cell_matches, count_cells, lemma_count_cells_bounds, lemma_count_cells_update, Cell, CellPred,
};
use crate::grid::{
    cell_index, delta_x, delta_y, in_bounds, lemma_cell_index_bounds, lemma_cell_index_injective,
    lemma_neighbor_mines_upto_same_mines, neighbor_mines, neighbor_mines_upto, neighbor_of,
};

verus! {

/// The one error the engine reports: a coordinate outside `[0, side)`.
#[derive(Clone, Copy, PartialEq, Eq, Structural, Debug)]
pub enum GameError {
    InvalidCoordinate,
}

/// `c` with its revealed mark set.
pub open spec fn reveal_cell(c: Cell) -> Cell {
    Cell { is_mine: c.is_mine, is_flagged: c.is_flagged, is_revealed: true, adjacent_mine_count: c.adjacent_mine_count }
}

/// `c` with its flag flipped.
pub open spec fn flip_flag(c: Cell) -> Cell {
    Cell { is_mine: c.is_mine, is_flagged: !c.is_flagged, is_revealed: c.is_revealed, adjacent_mine_count: c.adjacent_mine_count }
}

/// A board fresh out of generation: nothing flagged, nothing revealed.
pub open spec fn board_fresh(s: Seq<Cell>) -> bool {
    forall|i: int| 0 <= i < s.len() ==> !(#[trigger] s[i]).is_flagged && !s[i].is_revealed
}

/// `s2` differs from `s1` at most in which cells are revealed.
pub open spec fn same_except_revealed(s1: Seq<Cell>, s2: Seq<Cell>) -> bool {
    &&& s2.len() == s1.len()
    &&& forall|i: int|
        0 <= i < s1.len() ==> (#[trigger] s2[i]).is_mine == s1[i].is_mine
            && s2[i].is_flagged == s1[i].is_flagged
            && s2[i].adjacent_mine_count == s1[i].adjacent_mine_count
}

/// Every cell revealed in `s1` is still revealed in `s2`.
pub open spec fn revealed_monotone(s1: Seq<Cell>, s2: Seq<Cell>) -> bool {
    forall|i: int| 0 <= i < s1.len() && s1[i].is_revealed ==> (#[trigger] s2[i]).is_revealed
}

/// The cell at `(x, y)` is revealed, safe, and has no adjacent mines.
pub open spec fn cell_open_zero(s: Seq<Cell>, n: int, x: int, y: int) -> bool {
    &&& s[cell_index(n, x, y)].is_revealed
    &&& !s[cell_index(n, x, y)].is_mine
    &&& s[cell_index(n, x, y)].adjacent_mine_count == 0
}

/// Every in-bounds Moore neighbor of `(x, y)` is revealed.
pub open spec fn neighbors_revealed(s: Seq<Cell>, n: int, x: int, y: int) -> bool {
    forall|k: int|
        #![trigger delta_x(k)]
        0 <= k < 8 && in_bounds(n, x + delta_x(k), y + delta_y(k)) ==> s[cell_index(
            n,
            x + delta_x(k),
            y + delta_y(k),
        )].is_revealed
}

/// No revealed zero-count safe cell borders an unrevealed cell: the reveal
/// engine never stops a blast region short of its numbered boundary.
pub open spec fn zero_closed(s: Seq<Cell>, n: int) -> bool {
    forall|x: int, y: int|
        #![trigger cell_index(n, x, y)]
        in_bounds(n, x, y) && cell_open_zero(s, n, x, y) ==> neighbors_revealed(s, n, x, y)
}

/// The target of a reveal floods into its neighborhood: it is safe and has no
/// adjacent mines.
pub open spec fn propagates(s: Seq<Cell>, n: int, x: int, y: int) -> bool {
    &&& !s[cell_index(n, x, y)].is_mine
    &&& s[cell_index(n, x, y)].adjacent_mine_count == 0
}

/// `(bx, by)` is one Moore step away from `(ax, ay)`.
pub open spec fn moore_step(ax: int, ay: int, bx: int, by: int) -> bool {
    exists|k: int|
        #![trigger delta_x(k)]
        0 <= k < 8 && bx == ax + delta_x(k) && by == ay + delta_y(k)
}

/// `p` is a flood-fill path on board `s` from `(x, y)`: it starts at the
/// target, stays in bounds, moves by Moore steps, floods only through safe
/// zero-count cells, and every strictly inner cell was still unrevealed.
pub open spec fn zero_path(s: Seq<Cell>, n: int, x: int, y: int, p: Seq<(int, int)>) -> bool {
    &&& p.len() >= 1
    &&& p[0] == (x, y)
    &&& forall|i: int| 0 <= i < p.len() ==> in_bounds(n, (#[trigger] p[i]).0, p[i].1)
    &&& forall|i: int|
        0 <= i < p.len() - 1 ==> moore_step((#[trigger] p[i]).0, p[i].1, p[i + 1].0, p[i + 1].1)
    &&& forall|i: int| 0 <= i < p.len() - 1 ==> propagates(s, n, (#[trigger] p[i]).0, p[i].1)
    &&& forall|i: int|
        1 <= i < p.len() - 1 ==> !s[cell_index(n, (#[trigger] p[i]).0, p[i].1)].is_revealed
}

/// The flood fill started at `(x, y)` reaches `(cx, cy)`: some flood-fill
/// path on `s` leads from the target to that cell.
pub open spec fn reachable_from(s: Seq<Cell>, n: int, x: int, y: int, cx: int, cy: int) -> bool {
    exists|p: Seq<(int, int)>| #[trigger] zero_path(s, n, x, y, p) && p.last() == (cx, cy)
}

/// The cell at `(x, y)` has a correct adjacent-mine count if it is safe.
pub open spec fn count_ok(s: Seq<Cell>, n: int, x: int, y: int) -> bool {
    !s[cell_index(n, x, y)].is_mine ==> s[cell_index(n, x, y)].adjacent_mine_count
        == neighbor_mines(s, n, x, y)
}

/// Every safe cell's `adjacent_mine_count` is the exact number of mined cells
/// among its in-bounds Moore neighbors.
pub open spec fn counts_correct(s: Seq<Cell>, n: int) -> bool {
    forall|x: int, y: int|
        #![trigger cell_index(n, x, y)]
        in_bounds(n, x, y) ==> count_ok(s, n, x, y)
}

/// What one reveal at in-bounds `(x, y)` does to a closed board: only
/// revealed marks change and only monotonically, the result is closed again,
/// a cell is revealed afterwards exactly when it was revealed before, is the
/// target, or is reached by a flood-fill path from the target, a non-flooding
/// target changes exactly one cell, and an already-revealed target changes
/// nothing.
pub open spec fn reveal_result(s1: Seq<Cell>, s2: Seq<Cell>, n: int, x: int, y: int) -> bool {
    &&& same_except_revealed(s1, s2)
    &&& revealed_monotone(s1, s2)
    &&& s2[cell_index(n, x, y)].is_revealed
    &&& zero_closed(s2, n)
    &&& forall|cx: int, cy: int|
        #![trigger cell_index(n, cx, cy)]
        in_bounds(n, cx, cy) ==> (s2[cell_index(n, cx, cy)].is_revealed <==> (s1[cell_index(
            n,
            cx,
            cy,
        )].is_revealed || (cx == x && cy == y) || reachable_from(s1, n, x, y, cx, cy)))
    &&& (!propagates(s1, n, x, y) ==> s2 == s1.update(
        cell_index(n, x, y),
        reveal_cell(s1[cell_index(n, x, y)]),
    ))
    &&& (s1[cell_index(n, x, y)].is_revealed ==> s2 == s1)
}

/// Correct counts carry over to any board with the same mine layout and the
/// same stored counts, whatever happened to flags and revealed marks.
pub proof fn lemma_counts_correct_same_layout(s1: Seq<Cell>, s2: Seq<Cell>, n: int)
    requires
        counts_correct(s1, n),
        s1.len() == n * n,
        s2.len() == s1.len(),
        forall|i: int|
            0 <= i < s1.len() ==> (#[trigger] s2[i]).is_mine == s1[i].is_mine
                && s2[i].adjacent_mine_count == s1[i].adjacent_mine_count,
    ensures
        counts_correct(s2, n),
{
    assert forall|x: int, y: int|
        #![trigger cell_index(n, x, y)]
        in_bounds(n, x, y) implies count_ok(s2, n, x, y) by {
        lemma_cell_index_bounds(n, x, y);
        lemma_neighbor_mines_upto_same_mines(s1, s2, n, x, y, 8);
        assert(count_ok(s1, n, x, y));
    }
}

/// A board with nothing revealed has no open zero-count cell at all, so its
/// revealed zero-regions are trivially closed.
pub proof fn lemma_fresh_zero_closed(s: Seq<Cell>, n: int)
    requires
        board_fresh(s),
        s.len() == n * n,
    ensures
        zero_closed(s, n),
{
    assert forall|x: int, y: int|
        #![trigger cell_index(n, x, y)]
        in_bounds(n, x, y) && cell_open_zero(s, n, x, y) implies neighbors_revealed(s, n, x, y) by {
        lemma_cell_index_bounds(n, x, y);
    }
}

/// Region closure depends only on mines, counts and revealed marks, not on
/// flags.
pub proof fn lemma_zero_closed_same_reveal(s1: Seq<Cell>, s2: Seq<Cell>, n: int)
    requires
        zero_closed(s1, n),
        s1.len() == n * n,
        s2.len() == s1.len(),
        forall|i: int|
            0 <= i < s1.len() ==> (#[trigger] s2[i]).is_mine == s1[i].is_mine
                && s2[i].is_revealed == s1[i].is_revealed
                && s2[i].adjacent_mine_count == s1[i].adjacent_mine_count,
    ensures
        zero_closed(s2, n),
{
    assert forall|x: int, y: int|
        #![trigger cell_index(n, x, y)]
        in_bounds(n, x, y) && cell_open_zero(s2, n, x, y) implies neighbors_revealed(s2, n, x, y) by {
        lemma_cell_index_bounds(n, x, y);
        assert(cell_open_zero(s1, n, x, y));
        assert(neighbors_revealed(s1, n, x, y));
        assert forall|k: int|
            #![trigger delta_x(k)]
            0 <= k < 8 && in_bounds(n, x + delta_x(k), y + delta_y(k)) implies s2[cell_index(
            n,
            x + delta_x(k),
            y + delta_y(k),
        )].is_revealed by {
            lemma_cell_index_bounds(n, x + delta_x(k), y + delta_y(k));
        }
    }
}

/// A square minesweeper board: `side * side` cells in row-major order, the
/// cell at `(x, y)` stored at index `x + y * side`.
pub struct Board {
    side: usize,
    cells: Vec<Cell>,
}

impl View for Board {
    type V = Seq<Cell>;

    closed spec fn view(&self) -> Seq<Cell> {
        self.cells@
    }
}

impl Board {
    /// The side length, as a mathematical integer.
    pub closed spec fn spec_side(&self) -> int {
        self.side as int
    }

    /// Structural well-formedness: a positive side whose square fits the
    /// address space, exactly `side * side` cells, and correct mine counts.
    pub open spec fn wf(&self) -> bool {
        &&& 1 <= self.spec_side()
        &&& self.spec_side() * self.spec_side() <= usize::MAX as int
        &&& self@.len() == self.spec_side() * self.spec_side()
        &&& counts_correct(self@, self.spec_side())
    }

    pub fn side(&self) -> (r: usize)
        ensures
            r as int == self.spec_side(),
    {
        self.side
    }

    /// A snapshot of the cell at `(x, y)`.
    pub fn cell_at(&self, x: usize, y: usize) -> (c: Cell)
        requires
            self.wf(),
            in_bounds(self.spec_side(), x as int, y as int),
        ensures
            c == self@[cell_index(self.spec_side(), x as int, y as int)],
    {
        proof {
            lemma_cell_index_bounds(self.spec_side(), x as int, y as int);
        }
        self.cells[x + y * self.side]
    }

    /// How many cells of the board satisfy `p`.
    pub fn count_matching(&self, p: CellPred) -> (r: usize)
        ensures
            r as int == count_cells(self@, p),
    {
        let n = self.cells.len();
        let mut total: usize = 0;
        let mut i: usize = 0;
        while i < n
            invariant
                n == self.cells@.len(),
                i <= n,
                total <= i,
                total as int == count_cells(self.cells@.take(i as int), p),
            decreases n - i,
        {
            let c = self.cells[i];
            proof {
                assert(self.cells@.take(i as int + 1).drop_last() =~= self.cells@.take(i as int));
                assert(self.cells@.take(i as int + 1).last() == self.cells@[i as int]);
            }
            if cell_matches(c, p) {
                total = total + 1;
            }
            i = i + 1;
        }
        proof {
            assert(self.cells@.take(n as int) =~= self.cells@);
        }
        total
    }

    /// Flip the flag of the cell at `(x, y)`; nothing else changes.
    pub fn toggle_flag(&mut self, x: usize, y: usize)
        requires
            old(self).wf(),
            in_bounds(old(self).spec_side(), x as int, y as int),
        ensures
            final(self).wf(),
            final(self).spec_side() == old(self).spec_side(),
            final(self)@ == old(self)@.update(
                cell_index(old(self).spec_side(), x as int, y as int),
                flip_flag(old(self)@[cell_index(old(self).spec_side(), x as int, y as int)]),
            ),
    {
        proof {
            lemma_cell_index_bounds(self.spec_side(), x as int, y as int);
        }
        let idx = x + y * self.side;
        let c = self.cells[idx];
        self.cells[idx] = Cell {
            is_mine: c.is_mine,
            is_flagged: !c.is_flagged,
            is_revealed: c.is_revealed,
            adjacent_mine_count: c.adjacent_mine_count,
        };
        proof {
            lemma_counts_correct_same_layout(old(self)@, self@, self.spec_side());
        }
    }

    /// Reveal the cell at `(x, y)`; when it is safe and touches no mine, flood
    /// the reveal through its whole connected zero-count region and that
    /// region's numbered boundary, depth-first over an explicit worklist.
    ///
    /// The engine does not look at flags: blocking reveal on a flagged cell is
    /// its caller's rule. It asks for a board whose revealed zero-regions are
    /// already closed, which holds of every board this library hands out.
    pub fn recursively_reveal(&mut self, x: usize, y: usize) -> (r: Result<(), GameError>)
        requires
            old(self).wf(),
            zero_closed(old(self)@, old(self).spec_side()),
        ensures
            final(self).wf(),
            final(self).spec_side() == old(self).spec_side(),
            !in_bounds(old(self).spec_side(), x as int, y as int) ==> r == Err::<(), GameError>(
                GameError::InvalidCoordinate,
            ) && final(self)@ == old(self)@,
            in_bounds(old(self).spec_side(), x as int, y as int) ==> r == Ok::<(), GameError>(())
                && reveal_result(
                old(self)@,
                final(self)@,
                old(self).spec_side(),
                x as int,
                y as int,
            ),
    {
        let side = self.side;
        if x >= side || y >= side {
            return Err(GameError::InvalidCoordinate);
        }
        let ghost s0 = self@;
        let ghost n = self.spec_side();
        proof {
            lemma_cell_index_bounds(n, x as int, y as int);
        }
        let ghost t = cell_index(n, x as int, y as int);
        let ti = x + y * side;
        let c0 = self.cells[ti];
        self.cells[ti] = Cell {
            is_mine: c0.is_mine,
            is_flagged: c0.is_flagged,
            is_revealed: true,
            adjacent_mine_count: c0.adjacent_mine_count,
        };
        let mut stack: Vec<(usize, usize)> = Vec::new();
        stack.push((x, y));
        proof {
            assert(self@ == s0.update(t, reveal_cell(s0[t])));
            if s0[t].is_revealed {
                assert(reveal_cell(s0[t]) == s0[t]);
                assert(s0.update(t, s0[t]) =~= s0);
            }
            lemma_count_cells_bounds(self@, CellPred::Unrevealed);
            if zero_closed(s0, n) {
                assert forall|ox: int, oy: int|
                    #![trigger cell_index(n, ox, oy)]
                    in_bounds(n, ox, oy) && cell_open_zero(self@, n, ox, oy) implies
                    neighbors_revealed(self@, n, ox, oy) || stack_has(stack@, ox, oy) by {
                    lemma_cell_index_bounds(n, ox, oy);
                    if cell_index(n, ox, oy) == t {
                        if !(ox == x as int && oy == y as int) {
                            lemma_cell_index_injective(n, ox, oy, x as int, y as int);
                        }
                        assert(stack@[0] == (x, y));
                        assert(stack_has(stack@, ox, oy));
                    } else {
                        assert(cell_open_zero(s0, n, ox, oy));
                        assert(neighbors_revealed(s0, n, ox, oy));
                        assert forall|k: int|
                            #![trigger delta_x(k)]
                            0 <= k < 8 && in_bounds(n, ox + delta_x(k), oy + delta_y(k)) implies
                            self@[cell_index(n, ox + delta_x(k), oy + delta_y(k))].is_revealed by {
                            lemma_cell_index_bounds(n, ox + delta_x(k), oy + delta_y(k));
                        }
                    }
                }
            }
            assert forall|ox: int, oy: int|
                #![trigger cell_index(n, ox, oy)]
                in_bounds(n, ox, oy) && self@[cell_index(n, ox, oy)].is_revealed && !s0[cell_index(
                    n,
                    ox,
                    oy,
                )].is_revealed implies (ox == x as int && oy == y as int) || reachable_from(
                s0,
                n,
                x as int,
                y as int,
                ox,
                oy,
            ) by {
                lemma_cell_index_bounds(n, ox, oy);
                if !(ox == x as int && oy == y as int) {
                    lemma_cell_index_injective(n, ox, oy, x as int, y as int);
                }
            }
            assert(stack@[0] == (x, y));
        }
        while stack.len() > 0
            invariant
                self.side == side,
                n == side as int,
                1 <= side,
                side * side <= usize::MAX,
                self@.len() == n * n,
                x < side,
                y < side,
                t == cell_index(n, x as int, y as int),
                0 <= t < n * n,
                same_except_revealed(s0, self@),
                revealed_monotone(s0, self@),
                self@[t].is_revealed,
                stack_ok(stack@, self@, n),
                zero_closed(s0, n),
                zero_closed(s0, n) ==> obligations(self@, stack@, n),
                forall|ox: int, oy: int|
                    #![trigger cell_index(n, ox, oy)]
                    in_bounds(n, ox, oy) && self@[cell_index(n, ox, oy)].is_revealed && !s0[
                        cell_index(n, ox, oy)
                    ].is_revealed ==> ((ox == x as int && oy == y as int) || reachable_from(
                        s0,
                        n,
                        x as int,
                        y as int,
                        ox,
                        oy,
                    )),
                forall|j: int|
                    0 <= j < stack@.len() ==> ((#[trigger] stack@[j]) == (x, y) || (!s0[cell_index(
                        n,
                        stack@[j].0 as int,
                        stack@[j].1 as int,
                    )].is_revealed && reachable_from(
                        s0,
                        n,
                        x as int,
                        y as int,
                        stack@[j].0 as int,
                        stack@[j].1 as int,
                    ))),
                !propagates(s0, n, x as int, y as int) ==> self@ == s0.update(
                    t,
                    reveal_cell(s0[t]),
                ) && all_target(stack@, x as int, y as int),
                zero_closed(s0, n) && s0[t].is_revealed ==> self@ == s0 && all_target(
                    stack@,
                    x as int,
                    y as int,
                ),
                0 <= count_cells(self@, CellPred::Unrevealed),
            decreases count_cells(self@, CellPred::Unrevealed), stack@.len(),
        {
            let ghost g_pre = self@;
            let ghost g_count = count_cells(self@, CellPred::Unrevealed);
            let ghost g_stack = stack@;
            let ghost g_len = stack@.len();
            let popped = stack.pop();
            let (cx, cy): (usize, usize) = match popped {
                Some(q) => q,
                None => {
                    proof {
                        assert(false);
                    }
                    (0, 0)
                },
            };
            proof {
                lemma_cell_index_bounds(n, cx as int, cy as int);
            }
            let ghost ci = cell_index(n, cx as int, cy as int);
            proof {
                if zero_closed(s0, n) {
                    assert forall|ox: int, oy: int|
                        #![trigger cell_index(n, ox, oy)]
                        in_bounds(n, ox, oy) && cell_open_zero(self@, n, ox, oy) implies (
                    neighbors_revealed(self@, n, ox, oy) || stack_has(stack@, ox, oy) || (ox
                        == cx as int && oy == cy as int)) by {
                        if !(ox == cx as int && oy == cy as int) && !neighbors_revealed(
                            self@,
                            n,
                            ox,
                            oy,
                        ) {
                            assert(stack_has(g_stack, ox, oy));
                            let j = choose|j: int|
                                0 <= j < g_stack.len() && (#[trigger] g_stack[j]).0 == ox
                                    && g_stack[j].1 == oy;
                            if j == g_len - 1 {
                                assert(g_stack[j] == (cx, cy));
                                assert(false);
                            } else {
                                assert(stack@[j] == g_stack[j]);
                                assert(stack_has(stack@, ox, oy));
                            }
                        }
                    }
                }
            }
            let cidx = cx + cy * side;
            let ccell = self.cells[cidx];
            if !ccell.is_mine && ccell.adjacent_mine_count == 0 {
                let mut k: usize = 0;
                while k < 8
                    invariant
                        self.side == side,
                        n == side as int,
                        1 <= side,
                        side * side <= usize::MAX,
                        self@.len() == n * n,
                        x < side,
                        y < side,
                        t == cell_index(n, x as int, y as int),
                        0 <= t < n * n,
                        cx < side,
                        cy < side,
                        ci == cell_index(n, cx as int, cy as int),
                        0 <= ci < n * n,
                        k <= 8,
                        self@[ci].is_revealed,
                        !self@[ci].is_mine,
                        self@[ci].adjacent_mine_count == 0,
                        same_except_revealed(s0, self@),
                        revealed_monotone(s0, self@),
                        self@[t].is_revealed,
                        stack_ok(stack@, self@, n),
                        zero_closed(s0, n),
                        zero_closed(s0, n) ==> forall|ox: int, oy: int|
                            #![trigger cell_index(n, ox, oy)]
                            in_bounds(n, ox, oy) && cell_open_zero(self@, n, ox, oy) ==> (
                            neighbors_revealed(self@, n, ox, oy) || stack_has(stack@, ox, oy) || (ox
                                == cx as int && oy == cy as int)),
                        forall|ox: int, oy: int|
                            #![trigger cell_index(n, ox, oy)]
                            in_bounds(n, ox, oy) && self@[cell_index(n, ox, oy)].is_revealed && !s0[
                                cell_index(n, ox, oy)
                            ].is_revealed ==> ((ox == x as int && oy == y as int) || reachable_from(
                                s0,
                                n,
                                x as int,
                                y as int,
                                ox,
                                oy,
                            )),
                        forall|j: int|
                            0 <= j < stack@.len() ==> ((#[trigger] stack@[j]) == (x, y) || (!s0[
                                cell_index(n, stack@[j].0 as int, stack@[j].1 as int)
                            ].is_revealed && reachable_from(
                                s0,
                                n,
                                x as int,
                                y as int,
                                stack@[j].0 as int,
                                stack@[j].1 as int,
                            ))),
                        (cx == x && cy == y) || (!s0[ci].is_revealed && reachable_from(
                            s0,
                            n,
                            x as int,
                            y as int,
                            cx as int,
                            cy as int,
                        )),
                        !propagates(s0, n, x as int, y as int) ==> cx == x && cy == y && self@
                            == s0.update(t, reveal_cell(s0[t])) && all_target(
                            stack@,
                            x as int,
                            y as int,
                        ),
                        zero_closed(s0, n) && s0[t].is_revealed ==> cx == x && cy == y && self@
                            == s0 && all_target(stack@, x as int, y as int),
                        forall|kk: int|
                            #![trigger delta_x(kk)]
                            0 <= kk < k && in_bounds(n, cx + delta_x(kk), cy + delta_y(kk))
                                ==> self@[cell_index(
                                n,
                                cx + delta_x(kk),
                                cy + delta_y(kk),
                            )].is_revealed,
                        g_count == count_cells(g_pre, CellPred::Unrevealed),
                        (self@ == g_pre && stack@.len() == g_len - 1) || count_cells(
                            self@,
                            CellPred::Unrevealed,
                        ) < g_count,
                        0 <= count_cells(self@, CellPred::Unrevealed),
                    decreases 8 - k,
                {
                    match neighbor_of(side, cx, cy, k) {
                        Some(p) => {
                            let (nx, ny) = p;
                            proof {
                                lemma_cell_index_bounds(n, nx as int, ny as int);
                            }
                            let nidx = nx + ny * side;
                            let nc = self.cells[nidx];
                            if nc.is_revealed {
                                proof {
                                    assert(self@[cell_index(
                                        n,
                                        cx + delta_x(k as int),
                                        cy + delta_y(k as int),
                                    )].is_revealed);
                                }
                            } else {
                                let ghost pre = self@;
                                let ghost pre_stack = stack@;
                                let ghost ni = cell_index(n, nx as int, ny as int);
                                self.cells[nidx] = Cell {
                                    is_mine: nc.is_mine,
                                    is_flagged: nc.is_flagged,
                                    is_revealed: true,
                                    adjacent_mine_count: nc.adjacent_mine_count,
                                };
                                stack.push((nx, ny));
                                proof {
                                    reveal_step_proof(
                                        s0,
                                        pre,
                                        self@,
                                        pre_stack,
                                        stack@,
                                        n,
                                        x,
                                        y,
                                        cx,
                                        cy,
                                        nx,
                                        ny,
                                        k as int,
                                    );
                                    lemma_count_cells_update(
                                        pre,
                                        CellPred::Unrevealed,
                                        ni,
                                        reveal_cell(pre[ni]),
                                    );
                                    lemma_count_cells_bounds(self@, CellPred::Unrevealed);
                                    if !propagates(s0, n, x as int, y as int) {
                                        assert(self@[ci] == reveal_cell(s0[t]));
                                        assert(false);
                                    }
                                    if zero_closed(s0, n) && s0[t].is_revealed {
                                        assert(cell_open_zero(s0, n, x as int, y as int));
                                        assert(neighbors_revealed(s0, n, x as int, y as int));
                                        assert(s0[cell_index(
                                            n,
                                            x as int + delta_x(k as int),
                                            y as int + delta_y(k as int),
                                        )].is_revealed);
                                        assert(false);
                                    }
                                    assert forall|kk: int|
                                        #![trigger delta_x(kk)]
                                        0 <= kk < k + 1 && in_bounds(
                                            n,
                                            cx + delta_x(kk),
                                            cy + delta_y(kk),
                                        ) implies self@[cell_index(
                                        n,
                                        cx + delta_x(kk),
                                        cy + delta_y(kk),
                                    )].is_revealed by {
                                        lemma_cell_index_bounds(
                                            n,
                                            cx + delta_x(kk),
                                            cy + delta_y(kk),
                                        );
                                        if kk < k {
                                            assert(pre[cell_index(
                                                n,
                                                cx + delta_x(kk),
                                                cy + delta_y(kk),
                                            )].is_revealed);
                                        }
                                    }
                                }
                            }
                        },
                        None => {
                            proof {
                                assert(!in_bounds(
                                    n,
                                    cx + delta_x(k as int),
                                    cy + delta_y(k as int),
                                ));
                            }
                        },
                    }
                    k = k + 1;
                }
                proof {
                    if zero_closed(s0, n) {
                        assert forall|ox: int, oy: int|
                            #![trigger cell_index(n, ox, oy)]
                            in_bounds(n, ox, oy) && cell_open_zero(self@, n, ox, oy) implies
                            neighbors_revealed(self@, n, ox, oy) || stack_has(stack@, ox, oy) by {
                            if ox == cx as int && oy == cy as int {
                                assert(neighbors_revealed(self@, n, cx as int, cy as int));
                            }
                        }
                    }
                }
            } else {
                proof {
                    if zero_closed(s0, n) {
                        assert forall|ox: int, oy: int|
                            #![trigger cell_index(n, ox, oy)]
                            in_bounds(n, ox, oy) && cell_open_zero(self@, n, ox, oy) implies
                            neighbors_revealed(self@, n, ox, oy) || stack_has(stack@, ox, oy) by {
                            if ox == cx as int && oy == cy as int {
                                assert(self@[cell_index(n, ox, oy)] == self@[ci]);
                            }
                        }
                    }
                }
            }
        }
        proof {
            lemma_counts_correct_same_layout(s0, self@, n);
            assert forall|ox: int, oy: int|
                #![trigger cell_index(n, ox, oy)]
                in_bounds(n, ox, oy) && cell_open_zero(self@, n, ox, oy) implies neighbors_revealed(
                self@,
                n,
                ox,
                oy,
            ) by {
                assert(!stack_has(stack@, ox, oy));
            }
            assert(zero_closed(self@, n));
            assert forall|ox: int, oy: int|
                #![trigger cell_index(n, ox, oy)]
                in_bounds(n, ox, oy) implies (self@[cell_index(n, ox, oy)].is_revealed <==> (s0[
                cell_index(n, ox, oy)
            ].is_revealed || (ox == x as int && oy == y as int) || reachable_from(
                s0,
                n,
                x as int,
                y as int,
                ox,
                oy,
            ))) by {
                lemma_cell_index_bounds(n, ox, oy);
                if !self@[cell_index(n, ox, oy)].is_revealed && reachable_from(
                    s0,
                    n,
                    x as int,
                    y as int,
                    ox,
                    oy,
                ) {
                    let pp = choose|pp: Seq<(int, int)>|
                        #[trigger] zero_path(s0, n, x as int, y as int, pp) && pp.last() == (
                        ox,
                        oy,
                        );
                    assert(pp.last() == pp[pp.len() - 1]);
                    lemma_zero_path_revealed(s0, self@, n, x as int, y as int, pp, pp.len() - 1);
                }
            }
        }
        Ok(())
    }

    /// Generate a fresh board: each of the `side * side` cells is mined
    /// independently with probability `mine_num / mine_den`, every safe cell
    /// gets its exact adjacent-mine count, and nothing is flagged or revealed.
    /// No promise is made about which cells came out mined, except at the two
    /// ends of the probability range.
    pub fn generate(side: usize, mine_num: u32, mine_den: u32) -> (b: Board)
        requires
            1 <= side,
            side * side <= usize::MAX,
            1 <= mine_den,
            mine_num <= mine_den,
        ensures
            b.wf(),
            b.spec_side() == side as int,
            b@.len() == side * side,
            board_fresh(b@),
            mine_num == 0 ==> forall|i: int| 0 <= i < b@.len() ==> !(#[trigger] b@[i]).is_mine,
            mine_num == mine_den ==> forall|i: int| 0 <= i < b@.len() ==> (#[trigger] b@[i]).is_mine,
    {
        let total = side * side;
        let mut mines: Vec<bool> = Vec::new();
        let mut i: usize = 0;
        while i < total
            invariant
                i <= total,
                1 <= mine_den,
                mine_num <= mine_den,
                mines@.len() == i,
                mine_num == 0 ==> forall|j: int| 0 <= j < i ==> !(#[trigger] mines@[j]),
                mine_num == mine_den ==> forall|j: int| 0 <= j < i ==> (#[trigger] mines@[j]),
            decreases total - i,
        {
            let draw = crate::rng::random_below(mine_den);
            mines.push(draw < mine_num);
            i = i + 1;
        }
        Board::from_mines(side, mines)
    }

    /// Build a board from an explicit mine layout: cell `i` is mined exactly
    /// when `mines[i]`, nothing is flagged or revealed, and every safe cell
    /// gets its exact adjacent-mine count.
    pub fn from_mines(side: usize, mines: Vec<bool>) -> (b: Board)
        requires
            1 <= side,
            side * side <= usize::MAX,
            mines@.len() == side * side,
        ensures
            b.wf(),
            b.spec_side() == side as int,
            b@.len() == side * side,
            board_fresh(b@),
            forall|i: int| 0 <= i < b@.len() ==> (#[trigger] b@[i]).is_mine == mines@[i],
    {
        let total = mines.len();
        let mut cells: Vec<Cell> = Vec::new();
        let mut i: usize = 0;
        while i < total
            invariant
                total == mines@.len(),
                i <= total,
                cells@.len() == i,
                forall|j: int|
                    0 <= j < i ==> (#[trigger] cells@[j]).is_mine == mines@[j]
                        && !cells@[j].is_flagged && !cells@[j].is_revealed,
            decreases total - i,
        {
            cells.push(
                Cell {
                    is_mine: mines[i],
                    is_flagged: false,
                    is_revealed: false,
                    adjacent_mine_count: 0,
                },
            );
            i = i + 1;
        }
        let ghost n = side as int;
        let mut y: usize = 0;
        while y < side
            invariant
                1 <= side,
                n == side as int,
                side * side <= usize::MAX,
                mines@.len() == side * side,
                y <= side,
                cells@.len() == side * side,
                forall|j: int|
                    0 <= j < cells@.len() ==> (#[trigger] cells@[j]).is_mine == mines@[j]
                        && !cells@[j].is_flagged && !cells@[j].is_revealed,
                forall|cx: int, cy: int|
                    #![trigger cell_index(n, cx, cy)]
                    in_bounds(n, cx, cy) && cy < y ==> count_ok(cells@, n, cx, cy),
            decreases side - y,
        {
            let mut x: usize = 0;
            while x < side
                invariant
                    1 <= side,
                    n == side as int,
                    side * side <= usize::MAX,
                    mines@.len() == side * side,
                    y < side,
                    x <= side,
                    cells@.len() == side * side,
                    forall|j: int|
                        0 <= j < cells@.len() ==> (#[trigger] cells@[j]).is_mine == mines@[j]
                            && !cells@[j].is_flagged && !cells@[j].is_revealed,
                    forall|cx: int, cy: int|
                        #![trigger cell_index(n, cx, cy)]
                        in_bounds(n, cx, cy) && (cy < y || (cy == y && cx < x)) ==> count_ok(
                            cells@,
                            n,
                            cx,
                            cy,
                        ),
                decreases side - x,
            {
                proof {
                    lemma_cell_index_bounds(n, x as int, y as int);
                }
                let idx = x + y * side;
                let c = cells[idx];
                if !c.is_mine {
                    let cnt = count_adjacent_mines(&cells, side, x, y);
                    let ghost before = cells@;
                    cells[idx] = Cell {
                        is_mine: c.is_mine,
                        is_flagged: c.is_flagged,
                        is_revealed: c.is_revealed,
                        adjacent_mine_count: cnt,
                    };
                    proof {
                        assert forall|cx: int, cy: int|
                            #![trigger cell_index(n, cx, cy)]
                            in_bounds(n, cx, cy) && (cy < y || (cy == y && cx <= x)) implies count_ok(
                            cells@,
                            n,
                            cx,
                            cy,
                        ) by {
                            lemma_cell_index_bounds(n, cx, cy);
                            lemma_neighbor_mines_upto_same_mines(before, cells@, n, cx, cy, 8);
                            if cx == x as int && cy == y as int {
                            } else {
                                lemma_cell_index_injective(n, cx, cy, x as int, y as int);
                            }
                        }
                    }
                }
                x = x + 1;
            }
            y = y + 1;
        }
        Board { side, cells }
    }
}

/// The worklist still holds the coordinate `(x, y)`.
spec fn stack_has(st: Seq<(usize, usize)>, x: int, y: int) -> bool {
    exists|j: int| 0 <= j < st.len() && (#[trigger] st[j]).0 == x && st[j].1 == y
}

/// Every worklist entry is in bounds and already revealed.
spec fn stack_ok(st: Seq<(usize, usize)>, s: Seq<Cell>, n: int) -> bool {
    forall|j: int|
        0 <= j < st.len() ==> in_bounds(n, (#[trigger] st[j]).0 as int, st[j].1 as int) && s[
            cell_index(n, st[j].0 as int, st[j].1 as int)
        ].is_revealed
}

/// Every revealed zero-count safe cell either has all its neighbors revealed
/// already or still waits on the worklist.
spec fn obligations(s: Seq<Cell>, st: Seq<(usize, usize)>, n: int) -> bool {
    forall|cx: int, cy: int|
        #![trigger cell_index(n, cx, cy)]
        in_bounds(n, cx, cy) && cell_open_zero(s, n, cx, cy) ==> neighbors_revealed(s, n, cx, cy)
            || stack_has(st, cx, cy)
}

/// Every worklist entry is the reveal target itself.
spec fn all_target(st: Seq<(usize, usize)>, x: int, y: int) -> bool {
    forall|j: int| 0 <= j < st.len() ==> (#[trigger] st[j]).0 == x && st[j].1 == y
}

/// Every cell on a flood-fill path is revealed in a closed result board:
/// walking the path from the revealed target, closure reveals each next cell.
proof fn lemma_zero_path_revealed(
    s0: Seq<Cell>,
    s2: Seq<Cell>,
    n: int,
    x: int,
    y: int,
    p: Seq<(int, int)>,
    i: int,
)
    requires
        s0.len() == n * n,
        s2.len() == s0.len(),
        in_bounds(n, x, y),
        zero_path(s0, n, x, y, p),
        same_except_revealed(s0, s2),
        zero_closed(s2, n),
        s2[cell_index(n, x, y)].is_revealed,
        0 <= i < p.len(),
    ensures
        s2[cell_index(n, p[i].0, p[i].1)].is_revealed,
    decreases i,
{
    if i == 0 {
        assert(p[0] == (x, y));
    } else {
        lemma_zero_path_revealed(s0, s2, n, x, y, p, i - 1);
        let ax = p[i - 1].0;
        let ay = p[i - 1].1;
        lemma_cell_index_bounds(n, ax, ay);
        lemma_cell_index_bounds(n, p[i].0, p[i].1);
        assert(propagates(s0, n, ax, ay));
        assert(cell_open_zero(s2, n, ax, ay));
        assert(neighbors_revealed(s2, n, ax, ay));
        assert(moore_step(ax, ay, p[i].0, p[i].1));
        let k = choose|k: int|
            0 <= k < 8 && p[i].0 == ax + #[trigger] delta_x(k) && p[i].1 == ay + delta_y(k);
        assert(s2[cell_index(n, ax + delta_x(k), ay + delta_y(k))].is_revealed);
    }
}

/// One flood-fill step: the worklist cell `(cx, cy)` is revealed, safe and
/// zero-count, and its `k`-th neighbor `(nx, ny)`, so far unrevealed, has just
/// been revealed and pushed. Re-establishes the loop's invariants.
proof fn reveal_step_proof(
    s0: Seq<Cell>,
    pre: Seq<Cell>,
    post: Seq<Cell>,
    pre_stack: Seq<(usize, usize)>,
    post_stack: Seq<(usize, usize)>,
    n: int,
    x: usize,
    y: usize,
    cx: usize,
    cy: usize,
    nx: usize,
    ny: usize,
    k: int,
)
    requires
        s0.len() == n * n,
        pre.len() == s0.len(),
        in_bounds(n, x as int, y as int),
        in_bounds(n, cx as int, cy as int),
        in_bounds(n, nx as int, ny as int),
        0 <= k < 8,
        nx as int == cx + delta_x(k),
        ny as int == cy + delta_y(k),
        same_except_revealed(s0, pre),
        revealed_monotone(s0, pre),
        pre[cell_index(n, x as int, y as int)].is_revealed,
        pre[cell_index(n, cx as int, cy as int)].is_revealed,
        !pre[cell_index(n, cx as int, cy as int)].is_mine,
        pre[cell_index(n, cx as int, cy as int)].adjacent_mine_count == 0,
        !pre[cell_index(n, nx as int, ny as int)].is_revealed,
        post == pre.update(
            cell_index(n, nx as int, ny as int),
            reveal_cell(pre[cell_index(n, nx as int, ny as int)]),
        ),
        post_stack == pre_stack.push((nx, ny)),
        stack_ok(pre_stack, pre, n),
        zero_closed(s0, n) ==> forall|ox: int, oy: int|
            #![trigger cell_index(n, ox, oy)]
            in_bounds(n, ox, oy) && cell_open_zero(pre, n, ox, oy) ==> (neighbors_revealed(
                pre,
                n,
                ox,
                oy,
            ) || stack_has(pre_stack, ox, oy) || (ox == cx as int && oy == cy as int)),
        forall|ox: int, oy: int|
            #![trigger cell_index(n, ox, oy)]
            in_bounds(n, ox, oy) && pre[cell_index(n, ox, oy)].is_revealed && !s0[cell_index(
                n,
                ox,
                oy,
            )].is_revealed ==> ((ox == x as int && oy == y as int) || reachable_from(
                s0,
                n,
                x as int,
                y as int,
                ox,
                oy,
            )),
        forall|j: int|
            0 <= j < pre_stack.len() ==> ((#[trigger] pre_stack[j]) == (x, y) || (!s0[cell_index(
                n,
                pre_stack[j].0 as int,
                pre_stack[j].1 as int,
            )].is_revealed && reachable_from(
                s0,
                n,
                x as int,
                y as int,
                pre_stack[j].0 as int,
                pre_stack[j].1 as int,
            ))),
        (cx == x && cy == y) || (!s0[cell_index(n, cx as int, cy as int)].is_revealed
            && reachable_from(s0, n, x as int, y as int, cx as int, cy as int)),
    ensures
        post.len() == pre.len(),
        same_except_revealed(pre, post),
        same_except_revealed(s0, post),
        revealed_monotone(pre, post),
        revealed_monotone(s0, post),
        post[cell_index(n, x as int, y as int)].is_revealed,
        post[cell_index(n, cx as int, cy as int)].is_revealed,
        !post[cell_index(n, cx as int, cy as int)].is_mine,
        post[cell_index(n, cx as int, cy as int)].adjacent_mine_count == 0,
        post[cell_index(n, nx as int, ny as int)].is_revealed,
        stack_ok(post_stack, post, n),
        zero_closed(s0, n) ==> forall|ox: int, oy: int|
            #![trigger cell_index(n, ox, oy)]
            in_bounds(n, ox, oy) && cell_open_zero(post, n, ox, oy) ==> (neighbors_revealed(
                post,
                n,
                ox,
                oy,
            ) || stack_has(post_stack, ox, oy) || (ox == cx as int && oy == cy as int)),
        forall|ox: int, oy: int|
            #![trigger cell_index(n, ox, oy)]
            in_bounds(n, ox, oy) && post[cell_index(n, ox, oy)].is_revealed && !s0[cell_index(
                n,
                ox,
                oy,
            )].is_revealed ==> ((ox == x as int && oy == y as int) || reachable_from(
                s0,
                n,
                x as int,
                y as int,
                ox,
                oy,
            )),
        forall|j: int|
            0 <= j < post_stack.len() ==> ((#[trigger] post_stack[j]) == (x, y) || (!s0[cell_index(
                n,
                post_stack[j].0 as int,
                post_stack[j].1 as int,
            )].is_revealed && reachable_from(
                s0,
                n,
                x as int,
                y as int,
                post_stack[j].0 as int,
                post_stack[j].1 as int,
            ))),
{
    let ni = cell_index(n, nx as int, ny as int);
    let ci = cell_index(n, cx as int, cy as int);
    let xi = x as int;
    let yi = y as int;
    lemma_cell_index_bounds(n, nx as int, ny as int);
    lemma_cell_index_bounds(n, cx as int, cy as int);
    lemma_cell_index_bounds(n, xi, yi);
    // the popped cell is safe and zero-count on the starting board too
    assert(propagates(s0, n, cx as int, cy as int));
    // the fresh cell is reached by a flood-fill path from the target
    if cx == x && cy == y {
        let step: Seq<(int, int)> = seq![(xi, yi), (nx as int, ny as int)];
        assert(step[0] == (xi, yi));
        assert(step.last() == (nx as int, ny as int));
        assert(moore_step(step[0].0, step[0].1, step[1].0, step[1].1));
        assert(zero_path(s0, n, xi, yi, step));
        assert(reachable_from(s0, n, xi, yi, nx as int, ny as int));
    } else {
        let pp = choose|pp: Seq<(int, int)>|
            #[trigger] zero_path(s0, n, xi, yi, pp) && pp.last() == (cx as int, cy as int);
        let q = pp.push((nx as int, ny as int));
        assert(pp.last() == pp[pp.len() - 1]);
        assert(q[q.len() - 2] == (cx as int, cy as int));
        assert(q[0] == pp[0]);
        assert forall|i: int| 0 <= i < q.len() implies in_bounds(
            n,
            (#[trigger] q[i]).0,
            q[i].1,
        ) by {
            if i < pp.len() {
                assert(q[i] == pp[i]);
            }
        }
        assert forall|i: int| 0 <= i < q.len() - 1 implies moore_step(
            (#[trigger] q[i]).0,
            q[i].1,
            q[i + 1].0,
            q[i + 1].1,
        ) by {
            if i < pp.len() - 1 {
                assert(q[i] == pp[i]);
                assert(q[i + 1] == pp[i + 1]);
            } else {
                assert(q[i] == (cx as int, cy as int));
                assert(q[i + 1].0 == q[i].0 + delta_x(k) && q[i + 1].1 == q[i].1 + delta_y(k));
            }
        }
        assert forall|i: int| 0 <= i < q.len() - 1 implies propagates(
            s0,
            n,
            (#[trigger] q[i]).0,
            q[i].1,
        ) by {
            if i < pp.len() - 1 {
                assert(q[i] == pp[i]);
            } else {
                assert(q[i] == (cx as int, cy as int));
            }
        }
        assert forall|i: int| 1 <= i < q.len() - 1 implies !s0[cell_index(
            n,
            (#[trigger] q[i]).0,
            q[i].1,
        )].is_revealed by {
            if i < pp.len() - 1 {
                assert(q[i] == pp[i]);
            } else {
                assert(q[i] == (cx as int, cy as int));
            }
        }
        assert(zero_path(s0, n, xi, yi, q));
        assert(q.last() == (nx as int, ny as int));
        assert(reachable_from(s0, n, xi, yi, nx as int, ny as int));
    }
    // every newly revealed cell of `post` is the target or reached
    assert forall|ox: int, oy: int|
        #![trigger cell_index(n, ox, oy)]
        in_bounds(n, ox, oy) && post[cell_index(n, ox, oy)].is_revealed && !s0[cell_index(
            n,
            ox,
            oy,
        )].is_revealed implies ((ox == xi && oy == yi) || reachable_from(
        s0,
        n,
        xi,
        yi,
        ox,
        oy,
    )) by {
        lemma_cell_index_bounds(n, ox, oy);
        if cell_index(n, ox, oy) == ni {
            if !(ox == nx as int && oy == ny as int) {
                lemma_cell_index_injective(n, ox, oy, nx as int, ny as int);
            }
        }
    }
    // obligations: the fresh cell waits on the worklist, everything else keeps
    // its witness
    if zero_closed(s0, n) {
        assert forall|ox: int, oy: int|
            #![trigger cell_index(n, ox, oy)]
            in_bounds(n, ox, oy) && cell_open_zero(post, n, ox, oy) implies (neighbors_revealed(
            post,
            n,
            ox,
            oy,
        ) || stack_has(post_stack, ox, oy) || (ox == cx as int && oy == cy as int)) by {
            lemma_cell_index_bounds(n, ox, oy);
            if cell_index(n, ox, oy) == ni {
                if !(ox == nx as int && oy == ny as int) {
                    lemma_cell_index_injective(n, ox, oy, nx as int, ny as int);
                }
                assert(post_stack[post_stack.len() - 1] == (nx, ny));
                assert(stack_has(post_stack, ox, oy));
            } else {
                assert(cell_open_zero(pre, n, ox, oy));
                if neighbors_revealed(pre, n, ox, oy) {
                    assert forall|kk: int|
                        #![trigger delta_x(kk)]
                        0 <= kk < 8 && in_bounds(n, ox + delta_x(kk), oy + delta_y(kk)) implies
                        post[cell_index(n, ox + delta_x(kk), oy + delta_y(kk))].is_revealed by {
                        lemma_cell_index_bounds(n, ox + delta_x(kk), oy + delta_y(kk));
                    }
                    assert(neighbors_revealed(post, n, ox, oy));
                } else if stack_has(pre_stack, ox, oy) {
                    let j = choose|j: int|
                        0 <= j < pre_stack.len() && (#[trigger] pre_stack[j]).0 == ox
                            && pre_stack[j].1 == oy;
                    assert(post_stack[j] == pre_stack[j]);
                    assert(stack_has(post_stack, ox, oy));
                }
            }
        }
    }
    // the worklist stays in bounds, revealed, and reached
    assert forall|j: int|
        #![trigger post_stack[j]]
        0 <= j < post_stack.len() implies in_bounds(n, post_stack[j].0 as int, post_stack[j].1 as int)
        && post[cell_index(n, post_stack[j].0 as int, post_stack[j].1 as int)].is_revealed
        && (post_stack[j] == (x, y) || (!s0[cell_index(
        n,
        post_stack[j].0 as int,
        post_stack[j].1 as int,
    )].is_revealed && reachable_from(
        s0,
        n,
        xi,
        yi,
        post_stack[j].0 as int,
        post_stack[j].1 as int,
    ))) by {
        if j < pre_stack.len() {
            assert(post_stack[j] == pre_stack[j]);
            lemma_cell_index_bounds(n, pre_stack[j].0 as int, pre_stack[j].1 as int);
        } else {
            assert(post_stack[j] == (nx, ny));
        }
    }
}

/// The number of mined cells among the in-bounds Moore neighbors of `(x, y)`.
fn count_adjacent_mines(cells: &Vec<Cell>, side: usize, x: usize, y: usize) -> (r: u8)
    requires
        1 <= side,
        side * side <= usize::MAX,
        cells@.len() == side * side,
        x < side,
        y < side,
    ensures
        r as int == neighbor_mines(cells@, side as int, x as int, y as int),
        r <= 8,
{
    let ghost n = side as int;
    let mut r: u8 = 0;
    let mut k: usize = 0;
    while k < 8
        invariant
            1 <= side,
            n == side as int,
            side * side <= usize::MAX,
            cells@.len() == side * side,
            x < side,
            y < side,
            k <= 8,
            r <= k,
            r as int == neighbor_mines_upto(cells@, n, x as int, y as int, k as int),
        decreases 8 - k,
    {
        match neighbor_of(side, x, y, k) {
            Some(p) => {
                let (nx, ny) = p;
                proof {
                    lemma_cell_index_bounds(n, nx as int, ny as int);
                }
                if cells[nx + ny * side].is_mine {
                    r = r + 1;
                }
            },
            None => {},
        }
        k = k + 1;
    }
    r
}

} // verus!
