use vstd::prelude::*;

use crate::board::{
    board_fresh, flip_flag, lemma_fresh_zero_closed, lemma_zero_closed_same_reveal, reveal_result,
    zero_closed, Board, GameError,
};
use crate::cell::{
    cell_pred_holds, cells_where, count_cells, lemma_count_cells_equiv, lemma_count_cells_subset,
    Cell, CellPred,
};
use crate::grid::{cell_index, in_bounds, lemma_cell_index_bounds};

verus! {

/// The session-level result state. `Won` and `Lost` are terminal until a
/// restart.
#[derive(Clone, Copy, PartialEq, Eq, Structural, Debug)]
pub enum GameOutcome {
    Playing,
    Won,
    Lost,
}

/// One game: a board, the current outcome, and the mine probability
/// `mine_num / mine_den` used whenever a fresh board is generated.
pub struct GameSession {
    board: Board,
    outcome: GameOutcome,
    mine_num: u32,
    mine_den: u32,
}

impl GameSession {
    pub closed spec fn spec_board(&self) -> Board {
        self.board
    }

    pub closed spec fn spec_outcome(&self) -> GameOutcome {
        self.outcome
    }

    pub closed spec fn spec_mine_num(&self) -> u32 {
        self.mine_num
    }

    pub closed spec fn spec_mine_den(&self) -> u32 {
        self.mine_den
    }

    pub open spec fn spec_cells(&self) -> Seq<Cell> {
        self.spec_board()@
    }

    pub open spec fn spec_side(&self) -> int {
        self.spec_board().spec_side()
    }

    /// Session invariant: a well-formed board whose revealed zero-regions are
    /// closed, and a meaningful probability.
    pub open spec fn wf(&self) -> bool {
        &&& self.spec_board().wf()
        &&& zero_closed(self.spec_cells(), self.spec_side())
        &&& 1 <= self.spec_mine_den()
        &&& self.spec_mine_num() <= self.spec_mine_den()
    }

    /// A session over a given starting board, in state `Playing`.
    pub fn from_board(board: Board, mine_num: u32, mine_den: u32) -> (s: GameSession)
        requires
            board.wf(),
            zero_closed(board@, board.spec_side()),
            1 <= mine_den,
            mine_num <= mine_den,
        ensures
            s.wf(),
            s.spec_board() == board,
            s.spec_outcome() == GameOutcome::Playing,
            s.spec_mine_num() == mine_num,
            s.spec_mine_den() == mine_den,
    {
        GameSession { board, outcome: GameOutcome::Playing, mine_num, mine_den }
    }

    pub fn outcome(&self) -> (r: GameOutcome)
        ensures
            r == self.spec_outcome(),
    {
        self.outcome
    }

    pub fn side(&self) -> (r: usize)
        ensures
            r as int == self.spec_side(),
    {
        self.board.side()
    }

    /// A snapshot of the cell at `(x, y)`.
    pub fn cell_at(&self, x: usize, y: usize) -> (c: Cell)
        requires
            self.wf(),
            in_bounds(self.spec_side(), x as int, y as int),
        ensures
            c == self.spec_cells()[cell_index(self.spec_side(), x as int, y as int)],
    {
        self.board.cell_at(x, y)
    }

    /// How many cells are flagged.
    pub fn flagged_count(&self) -> (r: usize)
        ensures
            r as int == count_cells(self.spec_cells(), CellPred::Flagged),
    {
        self.board.count_matching(CellPred::Flagged)
    }

    /// How many cells are mined, recomputed from the board.
    pub fn mine_count(&self) -> (r: usize)
        ensures
            r as int == count_cells(self.spec_cells(), CellPred::Mine),
    {
        self.board.count_matching(CellPred::Mine)
    }

    /// Start over: outcome `Playing` over a freshly generated board of the
    /// same side, whatever the previous state was; nothing of the old board
    /// is carried over.
    pub fn restart(&mut self)
        requires
            old(self).wf(),
        ensures
            final(self).wf(),
            final(self).spec_side() == old(self).spec_side(),
            final(self).spec_outcome() == GameOutcome::Playing,
            board_fresh(final(self).spec_cells()),
            final(self).spec_mine_num() == old(self).spec_mine_num(),
            final(self).spec_mine_den() == old(self).spec_mine_den(),
    {
        let side = self.board.side();
        self.board = Board::generate(side, self.mine_num, self.mine_den);
        self.outcome = GameOutcome::Playing;
        proof {
            lemma_fresh_zero_closed(self.board@, self.board.spec_side());
        }
    }

    /// Reveal at `(x, y)`: rejected out of bounds; ignored when the game is
    /// already over or the cell is flagged; a mine loses the game and the
    /// board is at once replaced by a fresh one; any other cell is handed to
    /// the reveal engine and the game goes on.
    pub fn reveal_at(&mut self, x: usize, y: usize) -> (r: Result<(), GameError>)
        requires
            old(self).wf(),
        ensures
            final(self).wf(),
            final(self).spec_side() == old(self).spec_side(),
            final(self).spec_mine_num() == old(self).spec_mine_num(),
            final(self).spec_mine_den() == old(self).spec_mine_den(),
            !in_bounds(old(self).spec_side(), x as int, y as int) ==> r == Err::<(), GameError>(
                GameError::InvalidCoordinate,
            ) && final(self).spec_cells() == old(self).spec_cells() && final(self).spec_outcome()
                == old(self).spec_outcome(),
            in_bounds(old(self).spec_side(), x as int, y as int) ==> r == Ok::<(), GameError>(()),
            in_bounds(old(self).spec_side(), x as int, y as int) && old(self).spec_outcome()
                != GameOutcome::Playing ==> final(self).spec_cells() == old(self).spec_cells()
                && final(self).spec_outcome() == old(self).spec_outcome(),
            in_bounds(old(self).spec_side(), x as int, y as int) && old(self).spec_outcome()
                == GameOutcome::Playing && old(self).spec_cells()[cell_index(
                old(self).spec_side(),
                x as int,
                y as int,
            )].is_flagged ==> final(self).spec_cells() == old(self).spec_cells() && final(self).spec_outcome() == GameOutcome::Playing,
            in_bounds(old(self).spec_side(), x as int, y as int) && old(self).spec_outcome()
                == GameOutcome::Playing && !old(self).spec_cells()[cell_index(
                old(self).spec_side(),
                x as int,
                y as int,
            )].is_flagged && old(self).spec_cells()[cell_index(
                old(self).spec_side(),
                x as int,
                y as int,
            )].is_mine ==> final(self).spec_outcome() == GameOutcome::Lost && board_fresh(
                final(self).spec_cells(),
            ),
            in_bounds(old(self).spec_side(), x as int, y as int) && old(self).spec_outcome()
                == GameOutcome::Playing && !old(self).spec_cells()[cell_index(
                old(self).spec_side(),
                x as int,
                y as int,
            )].is_flagged && !old(self).spec_cells()[cell_index(
                old(self).spec_side(),
                x as int,
                y as int,
            )].is_mine ==> final(self).spec_outcome() == GameOutcome::Playing && reveal_result(
                old(self).spec_cells(),
                final(self).spec_cells(),
                old(self).spec_side(),
                x as int,
                y as int,
            ),
            in_bounds(old(self).spec_side(), x as int, y as int) && old(self).spec_outcome()
                == GameOutcome::Playing ==> (final(self).spec_outcome() == GameOutcome::Lost
                <==> (old(self).spec_cells()[cell_index(
                old(self).spec_side(),
                x as int,
                y as int,
            )].is_mine && !old(self).spec_cells()[cell_index(
                old(self).spec_side(),
                x as int,
                y as int,
            )].is_flagged)),
            in_bounds(old(self).spec_side(), x as int, y as int) && old(self).spec_outcome()
                == GameOutcome::Playing && !old(self).spec_cells()[cell_index(
                old(self).spec_side(),
                x as int,
                y as int,
            )].is_mine && old(self).spec_cells()[cell_index(
                old(self).spec_side(),
                x as int,
                y as int,
            )].is_revealed ==> final(self).spec_cells() == old(self).spec_cells() && final(self).spec_outcome() == GameOutcome::Playing,
    {
        let side = self.board.side();
        if x >= side || y >= side {
            return Err(GameError::InvalidCoordinate);
        }
        proof {
            lemma_cell_index_bounds(self.board.spec_side(), x as int, y as int);
        }
        if !(self.outcome == GameOutcome::Playing) {
            return Ok(());
        }
        let c = self.board.cell_at(x, y);
        if c.is_flagged {
            return Ok(());
        }
        if c.is_mine {
            self.outcome = GameOutcome::Lost;
            self.board = Board::generate(side, self.mine_num, self.mine_den);
            proof {
                lemma_fresh_zero_closed(self.board@, self.board.spec_side());
            }
            return Ok(());
        }
        let r = self.board.recursively_reveal(x, y);
        r
    }

    /// Toggle the flag at `(x, y)`: rejected out of bounds; ignored when the
    /// game is already over or the cell is revealed; otherwise the flag flips,
    /// and the game is won, with the board at once replaced by a fresh one,
    /// exactly when the flagged cells are then the mined cells — same
    /// cardinality and same membership, so a flag on a safe cell blocks the
    /// win however many mines are flagged.
    pub fn toggle_flag_at(&mut self, x: usize, y: usize) -> (r: Result<(), GameError>)
        requires
            old(self).wf(),
        ensures
            final(self).wf(),
            final(self).spec_side() == old(self).spec_side(),
            final(self).spec_mine_num() == old(self).spec_mine_num(),
            final(self).spec_mine_den() == old(self).spec_mine_den(),
            !in_bounds(old(self).spec_side(), x as int, y as int) ==> r == Err::<(), GameError>(
                GameError::InvalidCoordinate,
            ) && final(self).spec_cells() == old(self).spec_cells() && final(self).spec_outcome()
                == old(self).spec_outcome(),
            in_bounds(old(self).spec_side(), x as int, y as int) ==> r == Ok::<(), GameError>(()),
            in_bounds(old(self).spec_side(), x as int, y as int) && old(self).spec_outcome()
                != GameOutcome::Playing ==> final(self).spec_cells() == old(self).spec_cells()
                && final(self).spec_outcome() == old(self).spec_outcome(),
            in_bounds(old(self).spec_side(), x as int, y as int) && old(self).spec_outcome()
                == GameOutcome::Playing && old(self).spec_cells()[cell_index(
                old(self).spec_side(),
                x as int,
                y as int,
            )].is_revealed ==> final(self).spec_cells() == old(self).spec_cells() && final(self).spec_outcome() == GameOutcome::Playing,
            in_bounds(old(self).spec_side(), x as int, y as int) && old(self).spec_outcome()
                == GameOutcome::Playing && !old(self).spec_cells()[cell_index(
                old(self).spec_side(),
                x as int,
                y as int,
            )].is_revealed ==> {
                let flipped = old(self).spec_cells().update(
                    cell_index(old(self).spec_side(), x as int, y as int),
                    flip_flag(
                        old(self).spec_cells()[cell_index(
                            old(self).spec_side(),
                            x as int,
                            y as int,
                        )],
                    ),
                );
                &&& (final(self).spec_outcome() == GameOutcome::Won <==> cells_where(
                    flipped,
                    CellPred::Flagged,
                ) == cells_where(flipped, CellPred::Mine))
                &&& (cells_where(flipped, CellPred::Flagged) == cells_where(
                    flipped,
                    CellPred::Mine,
                ) ==> final(self).spec_outcome() == GameOutcome::Won && board_fresh(
                    final(self).spec_cells(),
                ))
                &&& (cells_where(flipped, CellPred::Flagged) != cells_where(
                    flipped,
                    CellPred::Mine,
                ) ==> final(self).spec_outcome() == GameOutcome::Playing && final(self).spec_cells() == flipped)
            },
    {
        let side = self.board.side();
        if x >= side || y >= side {
            return Err(GameError::InvalidCoordinate);
        }
        proof {
            lemma_cell_index_bounds(self.board.spec_side(), x as int, y as int);
        }
        if !(self.outcome == GameOutcome::Playing) {
            return Ok(());
        }
        let c = self.board.cell_at(x, y);
        if c.is_revealed {
            return Ok(());
        }
        self.board.toggle_flag(x, y);
        proof {
            lemma_zero_closed_same_reveal(
                old(self).spec_cells(),
                self.board@,
                self.board.spec_side(),
            );
        }
        let correct = self.board.count_matching(CellPred::CorrectFlag);
        let mines = self.board.count_matching(CellPred::Mine);
        let flags = self.board.count_matching(CellPred::Flagged);
        let ghost flipped = self.board@;
        proof {
            lemma_won_iff_exact_flags(flipped);
        }
        if correct == mines && correct == flags {
            self.outcome = GameOutcome::Won;
            self.board = Board::generate(side, self.mine_num, self.mine_den);
            proof {
                lemma_fresh_zero_closed(self.board@, self.board.spec_side());
            }
        }
        Ok(())
    }
}

/// A new game: outcome `Playing` over a freshly generated board, each cell
/// mined independently with probability `mine_num / mine_den`.
pub fn new_session(side: usize, mine_num: u32, mine_den: u32) -> (s: GameSession)
    requires
        1 <= side,
        side * side <= usize::MAX,
        1 <= mine_den,
        mine_num <= mine_den,
    ensures
        s.wf(),
        s.spec_side() == side as int,
        s.spec_outcome() == GameOutcome::Playing,
        board_fresh(s.spec_cells()),
        s.spec_mine_num() == mine_num,
        s.spec_mine_den() == mine_den,
{
    let board = Board::generate(side, mine_num, mine_den);
    proof {
        lemma_fresh_zero_closed(board@, board.spec_side());
    }
    GameSession::from_board(board, mine_num, mine_den)
}

/// The win rule is exact: the number of correctly flagged cells equals both
/// the number of mines and the number of flags precisely when the set of
/// flagged cells is the set of mined cells, in cardinality and membership.
pub proof fn lemma_won_iff_exact_flags(s: Seq<Cell>)
    ensures
        (count_cells(s, CellPred::CorrectFlag) == count_cells(s, CellPred::Mine) && count_cells(
            s,
            CellPred::CorrectFlag,
        ) == count_cells(s, CellPred::Flagged)) <==> cells_where(s, CellPred::Flagged)
            == cells_where(s, CellPred::Mine),
{
    if count_cells(s, CellPred::CorrectFlag) == count_cells(s, CellPred::Mine) && count_cells(
        s,
        CellPred::CorrectFlag,
    ) == count_cells(s, CellPred::Flagged) {
        lemma_count_cells_subset(s, CellPred::CorrectFlag, CellPred::Mine);
        lemma_count_cells_subset(s, CellPred::CorrectFlag, CellPred::Flagged);
        assert forall|i: int|
            #![trigger cells_where(s, CellPred::Flagged).contains(i)]
            cells_where(s, CellPred::Flagged).contains(i) <==> cells_where(
            s,
            CellPred::Mine,
        ).contains(i) by {
            if 0 <= i < s.len() {
                assert(cell_pred_holds(CellPred::Mine, s[i]) ==> cell_pred_holds(
                    CellPred::CorrectFlag,
                    s[i],
                ));
                assert(cell_pred_holds(CellPred::Flagged, s[i]) ==> cell_pred_holds(
                    CellPred::CorrectFlag,
                    s[i],
                ));
            }
        }
        assert(cells_where(s, CellPred::Flagged) =~= cells_where(s, CellPred::Mine));
    }
    if cells_where(s, CellPred::Flagged) == cells_where(s, CellPred::Mine) {
        assert forall|i: int|
            0 <= i < s.len() implies (cell_pred_holds(CellPred::CorrectFlag, #[trigger] s[i])
            <==> cell_pred_holds(CellPred::Mine, s[i])) && (cell_pred_holds(
            CellPred::CorrectFlag,
            s[i],
        ) <==> cell_pred_holds(CellPred::Flagged, s[i])) by {
            assert(cells_where(s, CellPred::Flagged).contains(i) <==> s[i].is_flagged);
            assert(cells_where(s, CellPred::Mine).contains(i) <==> s[i].is_mine);
        }
        lemma_count_cells_equiv(s, CellPred::CorrectFlag, CellPred::Mine);
        lemma_count_cells_equiv(s, CellPred::CorrectFlag, CellPred::Flagged);
    }
}

/// In any well-formed session the revealed zero-regions are closed: no cell
/// is left unrevealed while an in-bounds neighbor is a revealed, safe,
/// zero-count cell.
pub proof fn lemma_session_zero_closed(s: &GameSession)
    requires
        s.wf(),
    ensures
        zero_closed(s.spec_cells(), s.spec_side()),
{
}

} // verus!
