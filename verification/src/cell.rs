use vstd::prelude::*;

verus! {

/// One grid position: mined or not, flagged or not, revealed or not, and the
/// number of mined cells among its up-to-eight grid neighbors.
///
/// `adjacent_mine_count` is meaningful only when `is_mine` is false; mined
/// cells keep the value they were built with.
#[derive(Clone, Copy, PartialEq, Eq, Structural, Debug)]
pub struct Cell {
    pub is_mine: bool,
    pub is_flagged: bool,
    pub is_revealed: bool,
    pub adjacent_mine_count: u8,
}

/// A property of a single cell that the engine counts over a whole board:
/// mined cells, flagged cells, correctly flagged cells (flagged and mined),
/// and cells still unrevealed.
#[derive(Clone, Copy, PartialEq, Eq, Structural, Debug)]
pub enum CellPred {
    Mine,
    Flagged,
    CorrectFlag,
    Unrevealed,
}

pub open spec fn cell_pred_holds(p: CellPred, c: Cell) -> bool {
    match p {
        CellPred::Mine => c.is_mine,
        CellPred::Flagged => c.is_flagged,
        CellPred::CorrectFlag => c.is_flagged && c.is_mine,
        CellPred::Unrevealed => !c.is_revealed,
    }
}

/// The set of positions of `s` whose cell satisfies `p`.
pub open spec fn cells_where(s: Seq<Cell>, p: CellPred) -> Set<int> {
    Set::new(|i: int| 0 <= i < s.len() && cell_pred_holds(p, s[i]))
}

/// How many cells of `s` satisfy `p`.
pub open spec fn count_cells(s: Seq<Cell>, p: CellPred) -> int
    decreases s.len(),
{
    if s.len() == 0 {
        0
    } else {
        count_cells(s.drop_last(), p) + if cell_pred_holds(p, s.last()) {
            1int
        } else {
            0int
        }
    }
}

/// Whether `c` satisfies `p`, decided in executable code.
pub fn cell_matches(c: Cell, p: CellPred) -> (r: bool)
    ensures
        r == cell_pred_holds(p, c),
{
    match p {
        CellPred::Mine => c.is_mine,
        CellPred::Flagged => c.is_flagged,
        CellPred::CorrectFlag => c.is_flagged && c.is_mine,
        CellPred::Unrevealed => !c.is_revealed,
    }
}

pub proof fn lemma_count_cells_bounds(s: Seq<Cell>, p: CellPred)
    ensures
        0 <= count_cells(s, p) <= s.len(),
    decreases s.len(),
{
    if s.len() > 0 {
        lemma_count_cells_bounds(s.drop_last(), p);
    }
}

pub proof fn lemma_count_cells_update(s: Seq<Cell>, p: CellPred, i: int, c: Cell)
    requires
        0 <= i < s.len(),
    ensures
        count_cells(s.update(i, c), p) == count_cells(s, p) + (if cell_pred_holds(p, c) {
            1int
        } else {
            0int
        }) - (if cell_pred_holds(p, s[i]) {
            1int
        } else {
            0int
        }),
    decreases s.len(),
{
    if i == s.len() - 1 {
        assert(s.update(i, c).drop_last() =~= s.drop_last());
        assert(s.update(i, c).last() == c);
    } else {
        assert(s.update(i, c).drop_last() =~= s.drop_last().update(i, c));
        assert(s.update(i, c).last() == s.last());
        lemma_count_cells_update(s.drop_last(), p, i, c);
    }
}

/// Two pointwise-equivalent properties have the same count.
pub proof fn lemma_count_cells_equiv(s: Seq<Cell>, p: CellPred, q: CellPred)
    requires
        forall|i: int|
            0 <= i < s.len() ==> (cell_pred_holds(p, #[trigger] s[i]) <==> cell_pred_holds(q, s[i])),
    ensures
        count_cells(s, p) == count_cells(s, q),
    decreases s.len(),
{
    if s.len() > 0 {
        assert(forall|i: int| 0 <= i < s.len() - 1 ==> s.drop_last()[i] == s[i]);
        lemma_count_cells_equiv(s.drop_last(), p, q);
        assert(s.last() == s[s.len() - 1]);
    }
}

/// If `p` implies `q` at every cell, `p`'s count is at most `q`'s, and the two
/// counts agree only where `q` implies `p` at every cell as well.
pub proof fn lemma_count_cells_subset(s: Seq<Cell>, p: CellPred, q: CellPred)
    requires
        forall|i: int|
            0 <= i < s.len() ==> (cell_pred_holds(p, #[trigger] s[i]) ==> cell_pred_holds(q, s[i])),
    ensures
        count_cells(s, p) <= count_cells(s, q),
        count_cells(s, p) == count_cells(s, q) ==> forall|i: int|
            0 <= i < s.len() ==> (cell_pred_holds(q, #[trigger] s[i]) ==> cell_pred_holds(p, s[i])),
    decreases s.len(),
{
    if s.len() > 0 {
        assert(forall|i: int| 0 <= i < s.len() - 1 ==> s.drop_last()[i] == s[i]);
        lemma_count_cells_subset(s.drop_last(), p, q);
        assert(s.last() == s[s.len() - 1]);
    }
}

} // verus!
