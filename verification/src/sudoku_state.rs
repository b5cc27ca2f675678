//! The session: counters, the state of play, and the three moves that
//! change them (a step, a step back, a reset).
use crate::data::{CELL_ROW, CELL_SIZE};
use crate::laws::{
    lemma_step_back_undoes_step, lemma_step_keeps_resolved_cells, lemma_step_never_lowers_counts,
};
use crate::reduction::{
    group_in_grid, group_pass, lemma_grid_group_in_grid, reduce_square, step_fails, stepped, sweep,
};
use crate::sudoku_board::{
    cleared_cells, grid_group, resolved_count, restored, snapshot, start_count, AllCells,
    CellModel, RowColSquare, SudokuBoard,
};
use vstd::prelude::*;

verus! {

/// Where a session stands.
#[derive(Clone, Copy, PartialEq, Eq, Structural, Debug)]
pub enum GameState {
    /// A puzzle is being chosen.
    Select,
    /// A puzzle is loaded and cells may still be set by hand.
    ManualInput,
    /// Steps are being taken.
    Stepping,
    /// A step met a contradiction.
    Error,
    /// All 81 cells are resolved.
    Solved,
}

/// The state of a session over one board.
#[derive(Clone, Debug)]
pub struct SudokuState {
    /// Steps taken and not taken back.
    pub step_count: usize,
    /// Cells resolved as givens, as of the last count.
    pub init_count: usize,
    /// Cells resolved in all, as of the last count.
    pub curr_count: usize,
    /// Where the session stands.
    pub game_state: GameState,
    /// Whether the positions found in each group are to be logged.
    pub print_row_details: bool,
    /// Whether the masks found in each group are to be logged.
    pub print_cell_details: bool,
}

/// Where a session stands after a step from `cells`: solved if all 81 cells
/// are resolved, else in error if a group met a contradiction, else
/// stepping.
pub open spec fn state_after_step(cells: Seq<CellModel>) -> GameState {
    if resolved_count(stepped(cells), 81) == 81 {
        GameState::Solved
    } else if step_fails(cells) {
        GameState::Error
    } else {
        GameState::Stepping
    }
}

impl SudokuState {
    /// The session after a step from `cells`: one more step counted, unless
    /// the count stands at the largest number it can hold, the givens and
    /// resolved cells of the new grid counted, and the state of play as
    /// [`state_after_step`] gives it.
    pub open spec fn after_step(self, cells: Seq<CellModel>) -> SudokuState {
        SudokuState {
            step_count: if self.step_count < usize::MAX {
                (self.step_count + 1) as usize
            } else {
                self.step_count
            },
            init_count: start_count(stepped(cells), 81) as usize,
            curr_count: resolved_count(stepped(cells), 81) as usize,
            game_state: state_after_step(cells),
            print_row_details: self.print_row_details,
            print_cell_details: self.print_cell_details,
        }
    }

    /// The session after a step back from `cells`: the givens and resolved
    /// cells of the restored grid counted, one step less counted if any was,
    /// and the session stepping.
    pub open spec fn after_step_back(self, cells: Seq<CellModel>) -> SudokuState {
        SudokuState {
            step_count: if self.step_count > 0 {
                (self.step_count - 1) as usize
            } else {
                self.step_count
            },
            init_count: start_count(restored(cells), 81) as usize,
            curr_count: resolved_count(restored(cells), 81) as usize,
            game_state: GameState::Stepping,
            print_row_details: self.print_row_details,
            print_cell_details: self.print_cell_details,
        }
    }

    /// Whether the counters of givens and of resolved cells are those of
    /// `cells`.
    pub open spec fn counts(&self, cells: Seq<CellModel>) -> bool {
        self.init_count == start_count(cells, 81) && self.curr_count == resolved_count(cells, 81)
    }

    /// Whether `other` has the same logging flags.
    pub open spec fn same_flags(&self, other: &SudokuState) -> bool {
        self.print_row_details == other.print_row_details && self.print_cell_details
            == other.print_cell_details
    }

    /// A session with nothing counted, in which a puzzle is to be chosen.
    pub fn new() -> (state: SudokuState)
        ensures
            state.step_count == 0,
            state.init_count == 0,
            state.curr_count == 0,
            state.game_state == GameState::Select,
            !state.print_row_details,
            !state.print_cell_details,
    {
        SudokuState {
            step_count: 0,
            init_count: 0,
            curr_count: 0,
            game_state: GameState::Select,
            print_row_details: false,
            print_cell_details: false,
        }
    }

    /// Empties the board and starts over: every cell open to all digits,
    /// nothing remembered, all counters zero, and cells to be set by hand.
    pub fn reset(&mut self, board: &mut SudokuBoard)
        requires
            old(board).allcells.wf(),
        ensures
            final(self).step_count == 0,
            final(self).init_count == 0,
            final(self).curr_count == 0,
            final(self).game_state == GameState::ManualInput,
            final(self).same_flags(old(self)),
            final(board)@ == cleared_cells(),
            final(board).allcells.wf(),
            final(board).allcells.same_places(&old(board).allcells),
            final(board).same_groups(old(board)),
    {
        board.reset();
        self.step_count = 0;
        self.init_count = 0;
        self.curr_count = 0;
        self.game_state = GameState::ManualInput;
    }

    /// Goes back to choosing a puzzle.
    pub fn select(&mut self)
        ensures
            *final(self) == (SudokuState { game_state: GameState::Select, ..*old(self) }),
    {
        self.game_state = GameState::Select;
    }

    /// Steps taken and not taken back.
    pub fn get_step_count(&self) -> (n: usize)
        ensures
            n == self.step_count,
    {
        self.step_count
    }

    /// Cells resolved as givens, as of the last count.
    pub fn get_init_count(&self) -> (n: usize)
        ensures
            n == self.init_count,
    {
        self.init_count
    }

    /// Cells resolved in all, as of the last count.
    pub fn get_curr_count(&self) -> (n: usize)
        ensures
            n == self.curr_count,
    {
        self.curr_count
    }

    /// Where the session stands.
    pub fn get_state(&self) -> (state: GameState)
        ensures
            state == self.game_state,
    {
        self.game_state
    }

    /// The steps taken, the givens and the resolved cells, in that order.
    pub fn counters(&self) -> (counters: (usize, usize, usize))
        ensures
            counters == (self.step_count, self.init_count, self.curr_count),
    {
        (self.step_count, self.init_count, self.curr_count)
    }

    /// Counts the givens and the resolved cells of `board`.
    pub fn do_count(&mut self, board: &SudokuBoard)
        requires
            board.allcells.wf(),
        ensures
            final(self).counts(board@),
            final(self).step_count == old(self).step_count,
            final(self).game_state == old(self).game_state,
            final(self).same_flags(old(self)),
    {
        let counts = board.count_solved();
        self.init_count = counts.0;
        self.curr_count = counts.1;
    }

    /// Takes one step: every cell remembers its state, then one pass of
    /// deduction runs over each of the nine rows, the nine columns and the
    /// nine blocks, in that order. A contradiction in one group does not
    /// keep the later groups from their pass.
    ///
    /// Afterwards the session is solved if all 81 cells are resolved, else
    /// in error if any group met a contradiction, else stepping. One more
    /// step is counted; a count that stands at the largest number it can
    /// hold stays there.
    ///
    /// Whatever the grid, a step back would undo the step; a cell that was
    /// resolved stays resolved as it was; the givens stay the givens; and
    /// the number of resolved cells does not fall.
    pub fn resolve_step(&mut self, board: &mut SudokuBoard) -> (state: GameState)
        requires
            old(board).wired(),
        ensures
            final(board)@ == stepped(old(board)@),
            final(board).wired(),
            final(board).allcells.same_places(&old(board).allcells),
            final(board).same_groups(old(board)),
            *final(self) == old(self).after_step(old(board)@),
            final(self).counts(final(board)@),
            state == state_after_step(old(board)@),
            state == final(self).game_state,
            state == GameState::Solved || state == GameState::Error || state == GameState::Stepping,
            state == GameState::Solved <==> final(self).curr_count == 81,
            restored(final(board)@) == old(board)@,
            forall|i: int|
                #![trigger final(board)@[i]]
                0 <= i < 81 && old(board)@[i].value is Solved ==> final(board)@[i].value
                    == old(board)@[i].value,
            final(self).init_count == start_count(old(board)@, 81),
            resolved_count(old(board)@, 81) <= final(self).curr_count <= 81,
    {
        proof {
            lemma_step_back_undoes_step(board@);
            lemma_step_keeps_resolved_cells(board@);
            lemma_step_never_lowers_counts(board@);
        }
        if self.step_count < usize::MAX {
            self.step_count = self.step_count + 1;
        }
        board.push();
        assert(forall|g: int| 0 <= g < 27 ==> #[trigger] board.group(g) == old(board).group(g));
        let mut failed: bool = false;
        let mut r: usize = 0;
        while r < CELL_ROW
            invariant
                r <= 9,
                board.wired(),
                board.allcells.same_places(&old(board).allcells),
                board.same_groups(old(board)),
                board@ == sweep(snapshot(old(board)@), r as nat).cells,
                failed == sweep(snapshot(old(board)@), r as nat).failed,
                self.same_flags(old(self)),
                self.step_count == old(self).after_step(old(board)@).step_count,
            decreases 9 - r,
        {
            proof {
                lemma_grid_group_in_grid(r as int);
                assert(board.group(r as int) == grid_group(r as int));
            }
            let ghost before = *board;
            match self.reduce_square(&mut board.allcells, &board.rows[r]) {
                Ok(_) => {},
                Err(_) => {
                    failed = true;
                },
            }
            assert(forall|g: int| 0 <= g < 27 ==> #[trigger] board.group(g) == before.group(g));
            r = r + 1;
        }
        r = 0;
        while r < CELL_ROW
            invariant
                r <= 9,
                board.wired(),
                board.allcells.same_places(&old(board).allcells),
                board.same_groups(old(board)),
                board@ == sweep(snapshot(old(board)@), (9 + r) as nat).cells,
                failed == sweep(snapshot(old(board)@), (9 + r) as nat).failed,
                self.same_flags(old(self)),
                self.step_count == old(self).after_step(old(board)@).step_count,
            decreases 9 - r,
        {
            proof {
                lemma_grid_group_in_grid(9 + r);
                assert(board.group(9 + r) == grid_group(9 + r));
            }
            let ghost before = *board;
            match self.reduce_square(&mut board.allcells, &board.cols[r]) {
                Ok(_) => {},
                Err(_) => {
                    failed = true;
                },
            }
            assert(forall|g: int| 0 <= g < 27 ==> #[trigger] board.group(g) == before.group(g));
            r = r + 1;
        }
        r = 0;
        while r < CELL_ROW
            invariant
                r <= 9,
                board.wired(),
                board.allcells.same_places(&old(board).allcells),
                board.same_groups(old(board)),
                board@ == sweep(snapshot(old(board)@), (18 + r) as nat).cells,
                failed == sweep(snapshot(old(board)@), (18 + r) as nat).failed,
                self.same_flags(old(self)),
                self.step_count == old(self).after_step(old(board)@).step_count,
            decreases 9 - r,
        {
            proof {
                lemma_grid_group_in_grid(18 + r);
                assert(board.group(18 + r) == grid_group(18 + r));
            }
            let ghost before = *board;
            match self.reduce_square(&mut board.allcells, &board.squares[r]) {
                Ok(_) => {},
                Err(_) => {
                    failed = true;
                },
            }
            assert(forall|g: int| 0 <= g < 27 ==> #[trigger] board.group(g) == before.group(g));
            r = r + 1;
        }
        self.do_count(board);
        if failed {
            self.game_state = GameState::Error;
        } else {
            self.game_state = GameState::Stepping;
        }
        if self.curr_count == CELL_SIZE * CELL_SIZE {
            self.game_state = GameState::Solved;
        }
        self.game_state
    }

    /// Takes the last step back: every cell returns to the state it
    /// remembered last, a cell that remembers nothing staying as it is, and
    /// the cells are counted again. The count of steps goes down by one
    /// unless it is zero. The session is stepping afterwards, whatever it was
    /// before.
    pub fn step_back(&mut self, board: &mut SudokuBoard)
        requires
            old(board).allcells.wf(),
        ensures
            final(board)@ == restored(old(board)@),
            final(board).allcells.wf(),
            final(board).allcells.same_places(&old(board).allcells),
            final(board).same_groups(old(board)),
            *final(self) == old(self).after_step_back(old(board)@),
            final(self).counts(final(board)@),
    {
        board.pop();
        self.do_count(board);
        if self.step_count > 0 {
            self.step_count = self.step_count - 1;
        }
        self.game_state = GameState::Stepping;
    }

    /// Runs one pass of deduction over the nine cells that `row_col_square`
    /// names; see [`reduce_square`](crate::reduction::reduce_square).
    pub fn reduce_square<G: RowColSquare>(
        &self,
        cells: &mut AllCells,
        row_col_square: &G,
    ) -> (result: Result<usize, String>)
        requires
            old(cells).wf(),
            group_in_grid(row_col_square.members()),
        ensures
            final(cells).wf(),
            final(cells).same_places(old(cells)),
            final(cells)@ == group_pass(old(cells)@, row_col_square.members()).cells,
            result is Err <==> group_pass(old(cells)@, row_col_square.members()).failure is Some,
            result matches Ok(n) ==> n == 0,
            result matches Err(message) ==> Some(message@) == group_pass(
                old(cells)@,
                row_col_square.members(),
            ).failure,
    {
        reduce_square(cells, row_col_square)
    }
}

} // verus!
