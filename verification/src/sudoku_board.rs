//! The cells of the grid, the arena that owns them, and the rows, columns and
//! blocks that refer to them by index.
use crate::data::{CELL_COL, CELL_COUNT, CELL_ROW, CELL_SIZE};
use crate::masks::{
    candidate_count, count_candidates, digit_mask, first_digit, is_digit_mask,
    lemma_digit_mask_by_count, lemma_empty_and_full, lemma_lowest_digit, lemma_mask_bounds,
    lemma_single_candidate, lowest_digit, mask_of_digit, one_if, CELL_RESET_MASK,
};
use crate::reduction::{
    lemma_grid_group_in_grid, lemma_sweep_strict_stops, reduce_square, sweep_strict,
};
use crate::text::{
    binary_string, binary_text, digit_char, digit_str, position_string, position_text,
};
use vstd::prelude::*;

verus! {

/// Reserved for failures that carry no detail.
#[derive(Debug)]
pub struct SudokuError {}

/// Who fixed the value of a resolved cell.
#[derive(Clone, Copy, PartialEq, Eq, Structural, Debug)]
pub enum CellActor {
    /// Given with the puzzle.
    StartValue,
    /// Found by deduction.
    Resolved,
    /// Tried by a search; no operation of this crate produces it.
    Guessed(usize),
}

/// What is known of one cell.
#[derive(Clone, Copy, PartialEq, Eq, Structural, Debug)]
pub enum CellState {
    /// Fixed to the one digit in the mask.
    Solved(usize, CellActor),
    /// Open, with the mask of digits still possible.
    UnSolved(usize),
    /// No digit is possible.
    Error,
}

impl CellState {
    /// A resolved mask holds exactly one digit; an open one holds at least
    /// one and nothing beyond the nine digits.
    pub open spec fn well_formed(self) -> bool {
        match self {
            CellState::Solved(mask, _) => is_digit_mask(mask),
            CellState::UnSolved(mask) => mask <= CELL_RESET_MASK && candidate_count(mask) >= 1,
            CellState::Error => true,
        }
    }

    /// Whether an open cell has nothing beyond the nine digits among its
    /// candidates. A cell that is not open passes.
    pub open spec fn within_digits(self) -> bool {
        self matches CellState::UnSolved(mask) ==> mask <= CELL_RESET_MASK
    }

    /// The mask of a resolved cell, empty for any other.
    pub open spec fn resolved_mask(self) -> usize {
        match self {
            CellState::Solved(mask, _) => mask,
            _ => 0,
        }
    }

    /// The digits a cell may hold: its one digit if resolved, its candidates
    /// if open, all nine if in error.
    pub open spec fn unresolved_mask(self) -> usize {
        match self {
            CellState::Solved(mask, _) => mask,
            CellState::UnSolved(mask) => mask,
            CellState::Error => CELL_RESET_MASK,
        }
    }

    /// Whether removing `other` changes nothing: the cell is not open, or its
    /// candidates are narrowed already and all lie within `other`.
    pub open spec fn reduce_skips(self, other: usize) -> bool {
        match self {
            CellState::UnSolved(mask) => mask != CELL_RESET_MASK && mask & other == mask,
            _ => true,
        }
    }

    /// The state after the digits of `other` have been removed from an open
    /// cell's candidates: resolved by deduction when one candidate is left,
    /// in error when none is.
    pub open spec fn reduced(self, other: usize) -> CellState {
        match self {
            CellState::UnSolved(mask) => if self.reduce_skips(other) {
                self
            } else if candidate_count(mask & !other) == 1 {
                CellState::Solved(mask & !other, CellActor::Resolved)
            } else if candidate_count(mask & !other) == 0 {
                CellState::Error
            } else {
                CellState::UnSolved(mask & !other)
            },
            _ => self,
        }
    }

    /// Whether removing `other` reports a contradiction: the cell is in error
    /// already, or it is open and loses its last candidate.
    pub open spec fn reduce_fails(self, other: usize) -> bool {
        match self {
            CellState::Solved(_, _) => false,
            CellState::UnSolved(mask) => !self.reduce_skips(other) && candidate_count(mask & !other)
                == 0,
            CellState::Error => true,
        }
    }

    /// Whether an open cell has every digit of `mask` among its candidates.
    pub open spec fn accepts(self, mask: usize) -> bool {
        match self {
            CellState::UnSolved(own) => own & mask == mask,
            _ => false,
        }
    }

    /// The state after `mask` has been offered as the cell's value.
    pub open spec fn with_solved_value(self, mask: usize) -> CellState {
        if self.accepts(mask) {
            CellState::Solved(mask, CellActor::Resolved)
        } else {
            self
        }
    }

    /// Whether the cell is resolved.
    pub open spec fn is_resolved(self) -> bool {
        self is Solved
    }

    /// Whether the cell is resolved as a value given with the puzzle.
    pub open spec fn is_start(self) -> bool {
        self matches CellState::Solved(_, actor) && actor == CellActor::StartValue
    }

    /// How the cell prints: its digit if resolved, a dash otherwise.
    pub open spec fn text(self) -> Seq<char> {
        match self {
            CellState::Solved(mask, _) => seq![digit_char(lowest_digit(mask))],
            _ => seq!['-'],
        }
    }
}

/// The message of a cell that lost its last candidate to `other`, or that was
/// in error before.
pub open spec fn reduce_message(state: CellState, row: int, col: int, other: usize) -> Seq<char> {
    if state is Error {
        "Cell in Error state"@
    } else {
        "Error: in reduce zero bits left for "@ + position_text(row + 1, col + 1)
            + "  incoming mask "@ + binary_text(other, 9)
    }
}

/// Removing candidates keeps a cell well formed.
pub proof fn lemma_reduced_well_formed(state: CellState, other: usize)
    requires
        state.well_formed(),
    ensures
        state.reduced(other).well_formed(),
{
    if let CellState::UnSolved(mask) = state {
        let rest = mask & !other;
        lemma_mask_bounds(mask, other);
        if !state.reduce_skips(other) && candidate_count(rest) == 1 {
            lemma_lowest_digit(rest);
            lemma_single_candidate(rest, lowest_digit(rest));
        }
    }
}

impl CellState {
    /// Says whether the state is well formed.
    pub fn is_well_formed(&self) -> (ok: bool)
        ensures
            ok == self.well_formed(),
    {
        match self {
            CellState::Solved(mask, _) => {
                proof {
                    lemma_digit_mask_by_count(*mask);
                }
                *mask <= CELL_RESET_MASK && count_candidates(*mask) == 1
            },
            CellState::UnSolved(mask) => *mask <= CELL_RESET_MASK && count_candidates(*mask) >= 1,
            CellState::Error => true,
        }
    }
}

/// A cell as the solver sees it: its state and the states it can go back to,
/// oldest first.
pub struct CellModel {
    pub value: CellState,
    pub history: Seq<CellState>,
}

impl CellModel {
    /// The state and every remembered state are well formed.
    pub open spec fn well_formed(self) -> bool {
        &&& self.value.well_formed()
        &&& forall|j: int|
            0 <= j < self.history.len() ==> (#[trigger] self.history[j]).well_formed()
    }

    /// The same cell with another state.
    pub open spec fn with_value(self, value: CellState) -> CellModel {
        CellModel { value, history: self.history }
    }

    /// The cell after its state has been remembered.
    pub open spec fn pushed(self) -> CellModel {
        CellModel { value: self.value, history: self.history.push(self.value) }
    }

    /// The cell after going back to the state remembered last; unchanged if
    /// nothing is remembered.
    pub open spec fn popped(self) -> CellModel {
        if self.history.len() > 0 {
            CellModel { value: self.history.last(), history: self.history.drop_last() }
        } else {
            self
        }
    }

    /// The cell with all candidates open and nothing remembered.
    pub open spec fn cleared() -> CellModel {
        CellModel { value: CellState::UnSolved(CELL_RESET_MASK), history: Seq::empty() }
    }
}

/// One cell of the grid, with its position and its undo history.
#[derive(Clone)]
pub struct SudokuCell {
    pub value: CellState,
    pub row: usize,
    pub col: usize,
    pub idx: usize,
    pub stack: Vec<CellState>,
}

impl View for SudokuCell {
    type V = CellModel;

    open spec fn view(&self) -> CellModel {
        CellModel { value: self.value, history: self.stack@ }
    }
}

impl SudokuCell {
    /// The position lies in the grid, the index is that of the position, and
    /// the states are well formed.
    pub open spec fn wf(&self) -> bool {
        self.placed() && self@.well_formed()
    }

    /// The position lies in the grid and the index is that of the position.
    pub open spec fn placed(&self) -> bool {
        &&& self.row < 9
        &&& self.col < 9
        &&& self.idx == self.row * 9 + self.col
    }

    /// Whether `other` stands at the same position.
    pub open spec fn same_place(&self, other: &SudokuCell) -> bool {
        self.row == other.row && self.col == other.col && self.idx == other.idx
    }

    /// Says whether the cell is well formed.
    pub fn is_wf(&self) -> (ok: bool)
        ensures
            ok == self.wf(),
    {
        if !(self.row < 9 && self.col < 9 && self.idx == self.row * 9 + self.col) {
            return false;
        }
        if !self.value.is_well_formed() {
            return false;
        }
        let mut j: usize = 0;
        while j < self.stack.len()
            invariant
                j <= self.stack@.len(),
                forall|k: int| 0 <= k < j ==> (#[trigger] self.stack@[k]).well_formed(),
            decreases self.stack@.len() - j,
        {
            if !self.stack[j].is_well_formed() {
                assert(!self@.history[j as int].well_formed());
                return false;
            }
            j = j + 1;
        }
        true
    }

    /// An open cell at row `r`, column `c`, with nothing remembered.
    pub fn new(r: usize, c: usize) -> (cell: SudokuCell)
        requires
            r < 9,
            c < 9,
        ensures
            cell@ == CellModel::cleared(),
            cell.row == r,
            cell.col == c,
            cell.idx == r * 9 + c,
            cell.wf(),
    {
        proof {
            lemma_empty_and_full();
        }
        SudokuCell {
            value: CellState::UnSolved(CELL_RESET_MASK),
            row: r,
            col: c,
            idx: r * CELL_SIZE + c,
            stack: Vec::new(),
        }
    }

    /// The digit of a resolved cell, a dash for any other.
    pub fn get_value(&self) -> (s: String)
        ensures
            s@ == self.value.text(),
    {
        self.as_string()
    }

    /// The digit of a resolved cell, a dash for any other.
    pub fn as_string(&self) -> (s: String)
        ensures
            s@ == self.value.text(),
    {
        match self.value {
            CellState::Solved(v, _) => String::from_str(digit_str(first_digit(v))),
            _ => {
                proof {
                    reveal_strlit("-");
                }
                let s = String::from_str("-");
                assert(s@ =~= seq!['-']);
                s
            },
        }
    }

    /// The one-based position, row first.
    pub fn get_pos(&self) -> (pos: (usize, usize))
        requires
            self.placed(),
        ensures
            pos.0 == self.row + 1,
            pos.1 == self.col + 1,
    {
        (self.row + 1, self.col + 1)
    }

    /// The mask of a resolved cell, empty for any other.
    pub fn get_resolved_mask(&self) -> (mask: usize)
        ensures
            mask == self.value.resolved_mask(),
    {
        match self.value {
            CellState::Solved(v, _) => v,
            _ => 0,
        }
    }

    /// The digits the cell may hold: its one digit if resolved, its
    /// candidates if open, all nine if in error.
    pub fn get_unresolved_mask(&self) -> (mask: usize)
        ensures
            mask == self.value.unresolved_mask(),
    {
        match self.value {
            CellState::Solved(v, _) => v,
            CellState::UnSolved(n) => n,
            CellState::Error => CELL_RESET_MASK,
        }
    }

    /// Removes the digits of `other_mask` from an open cell's candidates.
    ///
    /// A resolved cell is left alone, and so is an open cell that has been
    /// narrowed before and whose candidates all lie within `other_mask`.
    /// Otherwise the cell becomes resolved when one candidate is left and
    /// goes into error when none is; that, and a cell already in error, is
    /// the failure reported. A well-formed cell stays well formed.
    pub fn reduce(&mut self, other_mask: usize) -> (result: Result<usize, String>)
        requires
            old(self).placed(),
            old(self).value.within_digits(),
        ensures
            final(self)@ == old(self)@.with_value(old(self).value.reduced(other_mask)),
            final(self).same_place(old(self)),
            final(self).value.within_digits(),
            old(self).wf() ==> final(self).wf(),
            result is Err <==> old(self).value.reduce_fails(other_mask),
            result matches Ok(n) ==> n == 0,
            result matches Err(message) ==> message@ == reduce_message(
                old(self).value,
                old(self).row as int,
                old(self).col as int,
                other_mask,
            ),
    {
        proof {
            lemma_mask_bounds(self.value.unresolved_mask(), other_mask);
            if self.value.well_formed() {
                lemma_reduced_well_formed(self.value, other_mask);
            }
        }
        match self.value {
            CellState::Solved(_, _) => Ok(0),
            CellState::UnSolved(my_mask) => {
                if my_mask != CELL_RESET_MASK && (my_mask & other_mask == my_mask) {
                    Ok(0)
                } else {
                    let new_mask: usize = my_mask & !other_mask;
                    let nr_bits: usize = count_candidates(new_mask);
                    if nr_bits == 1 {
                        self.value = CellState::Solved(new_mask, CellActor::Resolved);
                    } else if my_mask != new_mask {
                        self.value = CellState::UnSolved(new_mask);
                    }
                    if nr_bits == 0 {
                        let pos = self.get_pos();
                        let mut message = String::from_str("Error: in reduce zero bits left for ");
                        message.append(position_string(pos.0, pos.1).as_str());
                        message.append("  incoming mask ");
                        message.append(binary_string(other_mask, 9).as_str());
                        self.value = CellState::Error;
                        Err(message)
                    } else {
                        Ok(0)
                    }
                }
            },
            CellState::Error => Err(String::from_str("Cell in Error state")),
        }
    }

    /// Fixes the cell to digit `v` as a value given with the puzzle.
    pub fn set_init_value(&mut self, v: usize)
        requires
            1 <= v <= 9,
        ensures
            final(self)@ == old(self)@.with_value(
                CellState::Solved(digit_mask(v as int), CellActor::StartValue),
            ),
            final(self).same_place(old(self)),
            old(self).wf() ==> final(self).wf(),
    {
        self.value = CellState::Solved(mask_of_digit(v), CellActor::StartValue);
    }

    /// Opens all candidates again and forgets the history.
    pub fn reset(&mut self)
        ensures
            final(self)@ == CellModel::cleared(),
            final(self).same_place(old(self)),
            old(self).wf() ==> final(self).wf(),
    {
        proof {
            lemma_empty_and_full();
        }
        self.value = CellState::UnSolved(CELL_RESET_MASK);
        self.stack = Vec::new();
    }

    /// Resolves an open cell to `mask` if every digit of `mask` is among its
    /// candidates, and says whether it did.
    pub fn set_solved_value(&mut self, mask: usize) -> (done: bool)
        ensures
            done == old(self).value.accepts(mask),
            final(self)@ == old(self)@.with_value(old(self).value.with_solved_value(mask)),
            final(self).same_place(old(self)),
            old(self).wf() && is_digit_mask(mask) ==> final(self).wf(),
    {
        match self.value {
            CellState::UnSolved(n) => {
                if (n & mask) == mask {
                    self.value = CellState::Solved(mask, CellActor::Resolved);
                    return true;
                }
                false
            },
            _ => false,
        }
    }

    /// Whether the cell counts as a given, and whether it counts as resolved:
    /// `(1, 1)` for a given, `(0, 1)` for a deduced value, `(0, 0)` for a
    /// cell that is not resolved.
    pub fn count_solved(&self) -> (counts: (usize, usize))
        ensures
            counts.0 == one_if(self.value.is_start()),
            counts.1 == one_if(self.value.is_resolved()),
    {
        match self.value {
            CellState::Solved(_, actor) => {
                match actor {
                    CellActor::StartValue => (1, 1),
                    _ => (0, 1),
                }
            },
            _ => (0, 0),
        }
    }

    /// Remembers the current state.
    pub fn push(&mut self)
        ensures
            final(self)@ == old(self)@.pushed(),
            final(self).same_place(old(self)),
            old(self).wf() ==> final(self).wf(),
    {
        self.stack.push(self.value);
    }

    /// Goes back to the state remembered last, if there is one.
    pub fn pop(&mut self)
        ensures
            final(self)@ == old(self)@.popped(),
            final(self).same_place(old(self)),
            old(self).wf() ==> final(self).wf(),
    {
        if self.stack.len() > 0 {
            match self.stack.pop() {
                Some(v) => self.value = v,
                None => (),
            }
        }
    }
}

/// The slot of the arena that holds one cell. Rows, columns and blocks refer to
/// a slot by its index, so a change made through one of them is seen through
/// the other two.
#[derive(Clone)]
pub struct RcSudokuCell {
    pub cell: SudokuCell,
}

impl View for RcSudokuCell {
    type V = CellModel;

    open spec fn view(&self) -> CellModel {
        self.cell@
    }
}

impl RcSudokuCell {
    /// The cell is well formed.
    pub open spec fn wf(&self) -> bool {
        self.cell.wf()
    }

    /// Whether `other` stands at the same position.
    pub open spec fn same_place(&self, other: &RcSudokuCell) -> bool {
        self.cell.same_place(&other.cell)
    }

    /// A slot that holds `cell`.
    pub fn new(cell: SudokuCell) -> (slot: RcSudokuCell)
        ensures
            slot.cell == cell,
    {
        RcSudokuCell { cell }
    }

    /// The digit of a resolved cell, a dash for any other.
    pub fn get_value(&self) -> (s: String)
        ensures
            s@ == self@.value.text(),
    {
        self.cell.get_value()
    }

    /// Fixes the cell to digit `v` as a value given with the puzzle.
    pub fn set_init_value(&mut self, v: usize)
        requires
            1 <= v <= 9,
        ensures
            final(self)@ == old(self)@.with_value(
                CellState::Solved(digit_mask(v as int), CellActor::StartValue),
            ),
            final(self).same_place(old(self)),
            old(self).wf() ==> final(self).wf(),
    {
        self.cell.set_init_value(v);
    }

    /// The state of the cell.
    pub fn get_state(&self) -> (state: CellState)
        ensures
            state == self@.value,
    {
        self.cell.value
    }

    /// Removes the digits of `other` from an open cell's candidates; see
    /// [`SudokuCell::reduce`].
    pub fn reduce(&mut self, other: usize) -> (result: Result<usize, String>)
        requires
            old(self).cell.placed(),
            old(self)@.value.within_digits(),
        ensures
            final(self)@ == old(self)@.with_value(old(self)@.value.reduced(other)),
            final(self).same_place(old(self)),
            final(self)@.value.within_digits(),
            old(self).wf() ==> final(self).wf(),
            result is Err <==> old(self)@.value.reduce_fails(other),
            result matches Ok(n) ==> n == 0,
            result matches Err(message) ==> message@ == reduce_message(
                old(self)@.value,
                old(self).cell.row as int,
                old(self).cell.col as int,
                other,
            ),
    {
        self.cell.reduce(other)
    }

    /// The mask of a resolved cell, empty for any other.
    pub fn get_resolved_mask(&self) -> (mask: usize)
        ensures
            mask == self@.value.resolved_mask(),
    {
        self.cell.get_resolved_mask()
    }

    /// The digits the cell may hold.
    pub fn get_unresolved_mask(&self) -> (mask: usize)
        ensures
            mask == self@.value.unresolved_mask(),
    {
        self.cell.get_unresolved_mask()
    }

    /// Resolves an open cell to `mask` if every digit of `mask` is among its
    /// candidates, and says whether it did.
    pub fn set_solved_value(&mut self, mask: usize) -> (done: bool)
        ensures
            done == old(self)@.value.accepts(mask),
            final(self)@ == old(self)@.with_value(old(self)@.value.with_solved_value(mask)),
            final(self).same_place(old(self)),
            old(self).wf() && is_digit_mask(mask) ==> final(self).wf(),
    {
        self.cell.set_solved_value(mask)
    }

    /// Whether the cell counts as a given, and whether it counts as resolved.
    pub fn count_solved(&self) -> (counts: (usize, usize))
        ensures
            counts.0 == one_if(self@.value.is_start()),
            counts.1 == one_if(self@.value.is_resolved()),
    {
        self.cell.count_solved()
    }

    /// Opens all candidates again and forgets the history.
    pub fn reset(&mut self)
        ensures
            final(self)@ == CellModel::cleared(),
            final(self).same_place(old(self)),
            old(self).wf() ==> final(self).wf(),
    {
        self.cell.reset();
    }

    /// Goes back to the state remembered last, if there is one.
    pub fn pop(&mut self)
        ensures
            final(self)@ == old(self)@.popped(),
            final(self).same_place(old(self)),
            old(self).wf() ==> final(self).wf(),
    {
        self.cell.pop();
    }

    /// Remembers the current state.
    pub fn push(&mut self)
        ensures
            final(self)@ == old(self)@.pushed(),
            final(self).same_place(old(self)),
            old(self).wf() ==> final(self).wf(),
    {
        self.cell.push();
    }

    /// The one-based position, row first.
    pub fn get_pos(&self) -> (pos: (usize, usize))
        requires
            self.cell.placed(),
        ensures
            pos.0 == self.cell.row + 1,
            pos.1 == self.cell.col + 1,
    {
        self.cell.get_pos()
    }

    /// The digit of a resolved cell, a dash for any other.
    pub fn as_string(&self) -> (s: String)
        ensures
            s@ == self@.value.text(),
    {
        self.cell.as_string()
    }
}

/// Whether `cells` are the 81 cells of a grid, each well formed.
pub open spec fn cells_well_formed(cells: Seq<CellModel>) -> bool {
    &&& cells.len() == 81
    &&& forall|i: int| 0 <= i < 81 ==> (#[trigger] cells[i]).well_formed()
}

/// A grid in which every cell is open to all digits and remembers nothing.
pub open spec fn cleared_cells() -> Seq<CellModel> {
    Seq::new(81, |i: int| CellModel::cleared())
}

/// The cells after each has remembered its state.
pub open spec fn snapshot(cells: Seq<CellModel>) -> Seq<CellModel> {
    Seq::new(cells.len(), |i: int| cells[i].pushed())
}

/// The cells after each has gone back to the state it remembered last.
pub open spec fn restored(cells: Seq<CellModel>) -> Seq<CellModel> {
    Seq::new(cells.len(), |i: int| cells[i].popped())
}

/// How many of the first `n` cells are givens.
pub open spec fn start_count(cells: Seq<CellModel>, n: int) -> nat
    decreases n,
{
    if n <= 0 {
        0
    } else {
        start_count(cells, n - 1) + one_if(cells[n - 1].value.is_start())
    }
}

/// How many of the first `n` cells are resolved.
pub open spec fn resolved_count(cells: Seq<CellModel>, n: int) -> nat
    decreases n,
{
    if n <= 0 {
        0
    } else {
        resolved_count(cells, n - 1) + one_if(cells[n - 1].value.is_resolved())
    }
}

/// No more cells are givens than are resolved, and no more are resolved than
/// are counted.
pub proof fn lemma_counts_bounded(cells: Seq<CellModel>, n: int)
    requires
        0 <= n,
    ensures
        start_count(cells, n) <= resolved_count(cells, n) <= n,
    decreases n,
{
    if n > 0 {
        lemma_counts_bounded(cells, n - 1);
    }
}

/// The owner of the 81 cells, row by row.
#[derive(Clone)]
pub struct AllCells {
    pub cells: Vec<RcSudokuCell>,
}

impl View for AllCells {
    type V = Seq<CellModel>;

    open spec fn view(&self) -> Seq<CellModel> {
        Seq::new(self.cells@.len(), |i: int| self.cells@[i]@)
    }
}

impl AllCells {
    /// There are 81 cells, each well formed and each at the position that
    /// its index gives.
    pub open spec fn wf(&self) -> bool {
        &&& self.cells@.len() == 81
        &&& forall|i: int| 0 <= i < 81 ==> (#[trigger] self.cells@[i]).wf()
        &&& forall|i: int| 0 <= i < 81 ==> (#[trigger] self.cells@[i]).cell.idx == i
    }

    /// Whether `other` has the same number of cells at the same positions.
    pub open spec fn same_places(&self, other: &AllCells) -> bool {
        &&& self.cells@.len() == other.cells@.len()
        &&& forall|i: int|
            0 <= i < self.cells@.len() ==> (#[trigger] self.cells@[i]).same_place(&other.cells@[i])
    }

    /// Says whether the arena is well formed.
    pub fn is_wf(&self) -> (ok: bool)
        ensures
            ok == self.wf(),
    {
        if self.cells.len() != CELL_COUNT {
            return false;
        }
        let mut i: usize = 0;
        while i < CELL_COUNT
            invariant
                i <= 81,
                self.cells@.len() == 81,
                forall|k: int| 0 <= k < i ==> (#[trigger] self.cells@[k]).wf(),
                forall|k: int| 0 <= k < i ==> (#[trigger] self.cells@[k]).cell.idx == k,
            decreases 81 - i,
        {
            if !(self.cells[i].cell.is_wf() && self.cells[i].cell.idx == i) {
                assert(!(self.cells@[i as int].wf() && self.cells@[i as int].cell.idx == i));
                return false;
            }
            i = i + 1;
        }
        true
    }

    /// The 81 cells of an empty grid.
    pub fn new() -> (all: AllCells)
        ensures
            all.wf(),
            all@ == cleared_cells(),
    {
        let mut cells: Vec<RcSudokuCell> = Vec::new();
        let mut r: usize = 0;
        while r < CELL_ROW
            invariant
                r <= 9,
                cells@.len() == r * 9,
                forall|i: int| 0 <= i < cells@.len() ==> (#[trigger] cells@[i]).wf(),
                forall|i: int| 0 <= i < cells@.len() ==> (#[trigger] cells@[i]).cell.idx == i,
                forall|i: int|
                    0 <= i < cells@.len() ==> (#[trigger] cells@[i])@ == CellModel::cleared(),
            decreases 9 - r,
        {
            let mut c: usize = 0;
            while c < CELL_COL
                invariant
                    r < 9,
                    c <= 9,
                    cells@.len() == r * 9 + c,
                    forall|i: int| 0 <= i < cells@.len() ==> (#[trigger] cells@[i]).wf(),
                    forall|i: int| 0 <= i < cells@.len() ==> (#[trigger] cells@[i]).cell.idx == i,
                    forall|i: int|
                        0 <= i < cells@.len() ==> (#[trigger] cells@[i])@ == CellModel::cleared(),
                decreases 9 - c,
            {
                let cell = SudokuCell::new(r, c);
                cells.push(RcSudokuCell::new(cell));
                c = c + 1;
            }
            r = r + 1;
        }
        let all = AllCells { cells };
        assert(all@ =~= cleared_cells());
        all
    }

    /// Opens every cell to all digits and forgets every history.
    pub fn reset(&mut self)
        requires
            old(self).wf(),
        ensures
            final(self).wf(),
            final(self).same_places(old(self)),
            final(self)@ == cleared_cells(),
    {
        let mut i: usize = 0;
        while i < CELL_ROW * CELL_COL
            invariant
                i <= 81,
                self.wf(),
                self.same_places(old(self)),
                forall|j: int| 0 <= j < i ==> (#[trigger] self.cells@[j])@ == CellModel::cleared(),
            decreases 81 - i,
        {
            self.cells[i].reset();
            i = i + 1;
        }
        assert(self@ =~= cleared_cells());
    }

    /// Makes every cell remember its state.
    pub fn push(&mut self)
        requires
            old(self).wf(),
        ensures
            final(self).wf(),
            final(self).same_places(old(self)),
            final(self)@ == snapshot(old(self)@),
    {
        let mut i: usize = 0;
        while i < CELL_ROW * CELL_COL
            invariant
                i <= 81,
                self.wf(),
                self.same_places(old(self)),
                forall|j: int|
                    0 <= j < i ==> (#[trigger] self.cells@[j])@ == old(self).cells@[j]@.pushed(),
                forall|j: int| i <= j < 81 ==> (#[trigger] self.cells@[j]) == old(self).cells@[j],
            decreases 81 - i,
        {
            self.cells[i].push();
            i = i + 1;
        }
        assert(self@ =~= snapshot(old(self)@));
    }

    /// Takes every cell back to the state it remembered last.
    pub fn pop(&mut self)
        requires
            old(self).wf(),
        ensures
            final(self).wf(),
            final(self).same_places(old(self)),
            final(self)@ == restored(old(self)@),
    {
        let mut i: usize = 0;
        while i < CELL_ROW * CELL_COL
            invariant
                i <= 81,
                self.wf(),
                self.same_places(old(self)),
                forall|j: int|
                    0 <= j < i ==> (#[trigger] self.cells@[j])@ == old(self).cells@[j]@.popped(),
                forall|j: int| i <= j < 81 ==> (#[trigger] self.cells@[j]) == old(self).cells@[j],
            decreases 81 - i,
        {
            self.cells[i].pop();
            i = i + 1;
        }
        assert(self@ =~= restored(old(self)@));
    }
}

/// The indices of the cells of row `r`, left to right.
pub open spec fn row_group(r: int) -> Seq<usize> {
    Seq::new(9, |n: int| (r * 9 + n) as usize)
}

/// The indices of the cells of column `c`, top to bottom.
pub open spec fn col_group(c: int) -> Seq<usize> {
    Seq::new(9, |n: int| (c + n * 9) as usize)
}

/// The indices of the cells of the three by three block whose top left cell
/// is at row `r`, column `c`, row by row.
pub open spec fn square_group(r: int, c: int) -> Seq<usize> {
    Seq::new(9, |n: int| ((r + n / 3) * 9 + c + n % 3) as usize)
}

/// The 27 groups of the grid in the order in which a step visits them: rows
/// 0 to 8, columns 0 to 8, then the blocks row by row.
pub open spec fn grid_group(g: int) -> Seq<usize> {
    if g < 9 {
        row_group(g)
    } else if g < 18 {
        col_group(g - 9)
    } else {
        square_group(((g - 18) / 3) * 3, ((g - 18) % 3) * 3)
    }
}

/// The label of the `i`-th group of a family: the family's name, a colon, a
/// space and the one-based number.
pub open spec fn group_label(family: Seq<char>, i: int) -> Seq<char> {
    family + seq![':', ' ', digit_char(i + 1)]
}

/// A row, a column or a block: nine cells, named by their indices in the
/// arena, and a label.
pub trait RowColSquare {
    /// The indices that the group holds.
    spec fn members(&self) -> Seq<usize>;

    /// The label of the group.
    spec fn label(&self) -> Seq<char>;

    /// The indices of the group's cells.
    fn get_cells(&self) -> (cells: &Vec<usize>)
        ensures
            cells@ == self.members(),
    ;

    /// The label of the group.
    fn get_id(&self) -> (id: &String)
        ensures
            id@ == self.label(),
    ;
}

/// Writes the label of the `i`-th group of `family`.
fn make_label(family: &str, i: usize) -> (id: String)
    requires
        i < 9,
    ensures
        id@ == group_label(family@, i as int),
{
    proof {
        reveal_strlit(": ");
    }
    let mut id = String::from_str(family);
    id.append(": ");
    id.append(digit_str(i + 1));
    assert(id@ =~= group_label(family@, i as int));
    id
}

/// A row of the grid.
#[derive(Clone)]
pub struct Row {
    pub cells: Vec<usize>,
    pub id: String,
}

impl RowColSquare for Row {
    open spec fn members(&self) -> Seq<usize> {
        self.cells@
    }

    open spec fn label(&self) -> Seq<char> {
        self.id@
    }

    fn get_cells(&self) -> (cells: &Vec<usize>) {
        &self.cells
    }

    fn get_id(&self) -> (id: &String) {
        &self.id
    }
}

impl Row {
    /// The `i`-th row, not yet attached to any cell.
    pub fn new(i: usize) -> (row: Row)
        requires
            i < 9,
        ensures
            row.cells@ == Seq::<usize>::empty(),
            row.id@ == group_label("Row"@, i as int),
    {
        Row { cells: Vec::new(), id: make_label("Row", i) }
    }

    /// Attaches the nine cells of row `r`, left to right.
    pub fn wire(&mut self, r: usize, allcells: &AllCells)
        requires
            r < 9,
            allcells.wf(),
        ensures
            final(self).cells@ == old(self).cells@ + row_group(r as int),
            final(self).id == old(self).id,
    {
        let startindex: usize = r * CELL_SIZE;
        let mut n: usize = 0;
        while n < CELL_SIZE
            invariant
                n <= 9,
                r < 9,
                startindex == r * 9,
                allcells.wf(),
                self.id == old(self).id,
                self.cells@ == old(self).cells@ + row_group(r as int).take(n as int),
            decreases 9 - n,
        {
            let allcell = &allcells.cells[startindex + n];
            self.cells.push(allcell.cell.idx);
            assert(row_group(r as int).take(n + 1) =~= row_group(r as int).take(n as int).push(
                (startindex + n) as usize,
            ));
            n = n + 1;
        }
        assert(row_group(r as int).take(9) =~= row_group(r as int));
    }
}

/// A column of the grid.
#[derive(Clone)]
pub struct Col {
    pub cells: Vec<usize>,
    pub id: String,
}

impl RowColSquare for Col {
    open spec fn members(&self) -> Seq<usize> {
        self.cells@
    }

    open spec fn label(&self) -> Seq<char> {
        self.id@
    }

    fn get_cells(&self) -> (cells: &Vec<usize>) {
        &self.cells
    }

    fn get_id(&self) -> (id: &String) {
        &self.id
    }
}

impl Col {
    /// The `i`-th column, not yet attached to any cell.
    pub fn new(i: usize) -> (col: Col)
        requires
            i < 9,
        ensures
            col.cells@ == Seq::<usize>::empty(),
            col.id@ == group_label("Col"@, i as int),
    {
        Col { cells: Vec::new(), id: make_label("Col", i) }
    }

    /// Attaches the nine cells of column `c`, top to bottom.
    pub fn wire(&mut self, c: usize, allcells: &AllCells)
        requires
            c < 9,
            allcells.wf(),
        ensures
            final(self).cells@ == old(self).cells@ + col_group(c as int),
            final(self).id == old(self).id,
    {
        let startindex: usize = c;
        let mut n: usize = 0;
        while n < CELL_SIZE
            invariant
                n <= 9,
                c < 9,
                startindex == c,
                allcells.wf(),
                self.id == old(self).id,
                self.cells@ == old(self).cells@ + col_group(c as int).take(n as int),
            decreases 9 - n,
        {
            let allcell = &allcells.cells[startindex + n * CELL_SIZE];
            self.cells.push(allcell.cell.idx);
            assert(col_group(c as int).take(n + 1) =~= col_group(c as int).take(n as int).push(
                (startindex + n * 9) as usize,
            ));
            n = n + 1;
        }
        assert(col_group(c as int).take(9) =~= col_group(c as int));
    }
}

/// A three by three block of the grid.
#[derive(Clone)]
pub struct Square {
    pub cells: Vec<usize>,
    pub id: String,
}

impl RowColSquare for Square {
    open spec fn members(&self) -> Seq<usize> {
        self.cells@
    }

    open spec fn label(&self) -> Seq<char> {
        self.id@
    }

    fn get_cells(&self) -> (cells: &Vec<usize>) {
        &self.cells
    }

    fn get_id(&self) -> (id: &String) {
        &self.id
    }
}

impl Square {
    /// The `i`-th block, not yet attached to any cell.
    pub fn new(i: usize) -> (square: Square)
        requires
            i < 9,
        ensures
            square.cells@ == Seq::<usize>::empty(),
            square.id@ == group_label("Square"@, i as int),
    {
        Square { cells: Vec::new(), id: make_label("Square", i) }
    }

    /// Attaches the nine cells of the block whose top left cell is at row
    /// `r`, column `c`, row by row.
    pub fn wire(&mut self, r: usize, c: usize, allcells: &AllCells)
        requires
            r <= 6,
            c <= 6,
            allcells.wf(),
        ensures
            final(self).cells@ == old(self).cells@ + square_group(r as int, c as int),
            final(self).id == old(self).id,
    {
        let mut n: usize = 0;
        while n < CELL_SIZE
            invariant
                n <= 9,
                r <= 6,
                c <= 6,
                allcells.wf(),
                self.id == old(self).id,
                self.cells@ == old(self).cells@ + square_group(r as int, c as int).take(n as int),
            decreases 9 - n,
        {
            let ri: usize = (r + n / 3) * CELL_SIZE;
            let ci: usize = c + n % 3;
            let alli: usize = ri + ci;
            let allcell = &allcells.cells[alli];
            self.cells.push(allcell.cell.idx);
            assert(square_group(r as int, c as int).take(n + 1) =~= square_group(
                r as int,
                c as int,
            ).take(n as int).push(alli));
            n = n + 1;
        }
        assert(square_group(r as int, c as int).take(9) =~= square_group(r as int, c as int));
    }
}

/// Says whether `cells` holds exactly the nine indices of group `g` of the
/// grid.
fn holds_group(cells: &Vec<usize>, g: usize) -> (ok: bool)
    requires
        g < 27,
    ensures
        ok == (cells@ == grid_group(g as int)),
{
    if cells.len() != 9 {
        return false;
    }
    let mut n: usize = 0;
    while n < 9
        invariant
            n <= 9,
            g < 27,
            cells@.len() == 9,
            forall|k: int| 0 <= k < n ==> cells@[k] == grid_group(g as int)[k],
        decreases 9 - n,
    {
        let index: usize = if g < 9 {
            g * 9 + n
        } else if g < 18 {
            (g - 9) + n * 9
        } else {
            (((g - 18) / 3) * 3 + n / 3) * 9 + ((g - 18) % 3) * 3 + n % 3
        };
        if cells[n] != index {
            assert(cells@[n as int] != grid_group(g as int)[n as int]);
            return false;
        }
        n = n + 1;
    }
    assert(cells@ =~= grid_group(g as int));
    true
}

/// The grid: the arena of 81 cells and the 27 groups over it.
#[derive(Clone)]
pub struct SudokuBoard {
    pub allcells: AllCells,
    pub rows: Vec<Row>,
    pub cols: Vec<Col>,
    pub squares: Vec<Square>,
}

impl View for SudokuBoard {
    type V = Seq<CellModel>;

    open spec fn view(&self) -> Seq<CellModel> {
        self.allcells@
    }
}

impl SudokuBoard {
    /// The indices that group `g` holds, with the groups numbered as a step
    /// visits them: rows 0 to 8, columns 9 to 17, blocks 18 to 26.
    pub open spec fn group(&self, g: int) -> Seq<usize> {
        if g < 9 {
            self.rows@[g].cells@
        } else if g < 18 {
            self.cols@[g - 9].cells@
        } else {
            self.squares@[g - 18].cells@
        }
    }

    /// The arena is well formed and there are nine rows, nine columns and
    /// nine blocks.
    pub open spec fn shaped(&self) -> bool {
        &&& self.allcells.wf()
        &&& self.rows@.len() == 9
        &&& self.cols@.len() == 9
        &&& self.squares@.len() == 9
    }

    /// The board is shaped and no group has a cell attached.
    pub open spec fn fresh(&self) -> bool {
        &&& self.shaped()
        &&& forall|g: int| 0 <= g < 27 ==> #[trigger] self.group(g) == Seq::<usize>::empty()
    }

    /// The board is shaped and every group holds exactly its nine cells.
    pub open spec fn wired(&self) -> bool {
        &&& self.shaped()
        &&& forall|g: int| 0 <= g < 27 ==> #[trigger] self.group(g) == grid_group(g)
    }

    /// Every row, column and block carries the label of its family and
    /// number: `Row: 1` to `Row: 9`, `Col: 1` to `Col: 9`, `Square: 1` to
    /// `Square: 9`.
    pub open spec fn labelled(&self) -> bool {
        &&& self.rows@.len() == 9
        &&& self.cols@.len() == 9
        &&& self.squares@.len() == 9
        &&& forall|i: int| 0 <= i < 9 ==> (#[trigger] self.rows@[i]).id@ == group_label("Row"@, i)
        &&& forall|i: int| 0 <= i < 9 ==> (#[trigger] self.cols@[i]).id@ == group_label("Col"@, i)
        &&& forall|i: int|
            0 <= i < 9 ==> (#[trigger] self.squares@[i]).id@ == group_label("Square"@, i)
    }

    /// Whether `other` has the same labels on its rows, columns and blocks.
    pub open spec fn same_labels(&self, other: &SudokuBoard) -> bool {
        &&& self.rows@.len() == other.rows@.len()
        &&& self.cols@.len() == other.cols@.len()
        &&& self.squares@.len() == other.squares@.len()
        &&& forall|i: int|
            0 <= i < self.rows@.len() ==> (#[trigger] self.rows@[i]).id == other.rows@[i].id
        &&& forall|i: int|
            0 <= i < self.cols@.len() ==> (#[trigger] self.cols@[i]).id == other.cols@[i].id
        &&& forall|i: int|
            0 <= i < self.squares@.len() ==> (#[trigger] self.squares@[i]).id
                == other.squares@[i].id
    }

    /// Whether `other` has the same rows, columns and blocks.
    pub open spec fn same_groups(&self, other: &SudokuBoard) -> bool {
        self.rows == other.rows && self.cols == other.cols && self.squares == other.squares
    }

    /// Says whether the board is wired: whether it can be played on.
    pub fn is_wired(&self) -> (ok: bool)
        ensures
            ok == self.wired(),
    {
        if !(self.allcells.is_wf() && self.rows.len() == 9 && self.cols.len() == 9
            && self.squares.len() == 9) {
            return false;
        }
        let mut i: usize = 0;
        while i < CELL_ROW
            invariant
                i <= 9,
                self.shaped(),
                forall|g: int| 0 <= g < i ==> #[trigger] self.group(g) == grid_group(g),
                forall|g: int| 9 <= g < 9 + i ==> #[trigger] self.group(g) == grid_group(g),
                forall|g: int| 18 <= g < 18 + i ==> #[trigger] self.group(g) == grid_group(g),
            decreases 9 - i,
        {
            let row_ok = holds_group(&self.rows[i].cells, i);
            let col_ok = holds_group(&self.cols[i].cells, 9 + i);
            let square_ok = holds_group(&self.squares[i].cells, 18 + i);
            if !(row_ok && col_ok && square_ok) {
                assert(!(self.group(i as int) == grid_group(i as int) && self.group(9 + i)
                    == grid_group(9 + i) && self.group(18 + i) == grid_group(18 + i)));
                return false;
            }
            i = i + 1;
        }
        assert forall|g: int| 0 <= g < 27 implies #[trigger] self.group(g) == grid_group(g) by {}
        true
    }

    /// An empty grid whose groups are not yet attached to its cells.
    pub fn new() -> (board: SudokuBoard)
        ensures
            board.fresh(),
            board.labelled(),
            board@ == cleared_cells(),
    {
        let allcells = AllCells::new();
        let mut rows: Vec<Row> = Vec::new();
        let mut i: usize = 0;
        while i < CELL_ROW
            invariant
                i <= 9,
                rows@.len() == i,
                forall|j: int| 0 <= j < i ==> (#[trigger] rows@[j]).cells@ == Seq::<usize>::empty(),
                forall|j: int| 0 <= j < i ==> (#[trigger] rows@[j]).id@ == group_label("Row"@, j),
            decreases 9 - i,
        {
            rows.push(Row::new(i));
            i = i + 1;
        }
        let mut cols: Vec<Col> = Vec::new();
        i = 0;
        while i < CELL_ROW
            invariant
                i <= 9,
                cols@.len() == i,
                forall|j: int| 0 <= j < i ==> (#[trigger] cols@[j]).cells@ == Seq::<usize>::empty(),
                forall|j: int| 0 <= j < i ==> (#[trigger] cols@[j]).id@ == group_label("Col"@, j),
            decreases 9 - i,
        {
            cols.push(Col::new(i));
            i = i + 1;
        }
        let mut squares: Vec<Square> = Vec::new();
        i = 0;
        while i < CELL_ROW
            invariant
                i <= 9,
                squares@.len() == i,
                forall|j: int|
                    0 <= j < i ==> (#[trigger] squares@[j]).cells@ == Seq::<usize>::empty(),
                forall|j: int|
                    0 <= j < i ==> (#[trigger] squares@[j]).id@ == group_label("Square"@, j),
            decreases 9 - i,
        {
            squares.push(Square::new(i));
            i = i + 1;
        }
        SudokuBoard { allcells, rows, cols, squares }
    }

    /// Opens every cell to all digits and forgets every history.
    pub fn reset(&mut self)
        requires
            old(self).allcells.wf(),
        ensures
            final(self)@ == cleared_cells(),
            final(self).allcells.wf(),
            final(self).allcells.same_places(&old(self).allcells),
            final(self).same_groups(old(self)),
    {
        self.allcells.reset();
    }

    /// Takes every cell back to the state it remembered last.
    pub fn pop(&mut self)
        requires
            old(self).allcells.wf(),
        ensures
            final(self)@ == restored(old(self)@),
            final(self).allcells.wf(),
            final(self).allcells.same_places(&old(self).allcells),
            final(self).same_groups(old(self)),
    {
        self.allcells.pop();
    }

    /// Makes every cell remember its state.
    pub fn push(&mut self)
        requires
            old(self).allcells.wf(),
        ensures
            final(self)@ == snapshot(old(self)@),
            final(self).allcells.wf(),
            final(self).allcells.same_places(&old(self).allcells),
            final(self).same_groups(old(self)),
    {
        self.allcells.push();
    }

    /// Attaches to every row, column and block its nine cells, and hands
    /// the board back. On a fresh board this is all there is to do before
    /// play.
    pub fn wire(&mut self) -> (board: &SudokuBoard)
        requires
            old(self).shaped(),
        ensures
            *board == *final(self),
            final(self).shaped(),
            final(self).allcells == old(self).allcells,
            final(self).same_labels(old(self)),
            forall|g: int|
                0 <= g < 27 ==> #[trigger] final(self).group(g) == old(self).group(g) + grid_group(
                    g,
                ),
            old(self).fresh() ==> final(self).wired(),
    {
        let mut r: usize = 0;
        while r < CELL_ROW
            invariant
                r <= 9,
                self.shaped(),
                self.allcells == old(self).allcells,
                self.same_labels(old(self)),
                self.cols == old(self).cols,
                self.squares == old(self).squares,
                forall|g: int|
                    0 <= g < r ==> #[trigger] self.group(g) == old(self).group(g) + grid_group(g),
                forall|g: int| r <= g < 9 ==> #[trigger] self.group(g) == old(self).group(g),
            decreases 9 - r,
        {
            let ghost before = *self;
            assert(before.group(r as int) == old(self).group(r as int));
            self.rows[r].wire(r, &self.allcells);
            assert forall|g: int| 0 <= g < 9 implies #[trigger] self.group(g) == (if g == r {
                before.group(g) + grid_group(g)
            } else {
                before.group(g)
            }) by {}
            r = r + 1;
        }
        let mut c: usize = 0;
        while c < CELL_COL
            invariant
                c <= 9,
                self.shaped(),
                self.allcells == old(self).allcells,
                self.same_labels(old(self)),
                self.squares == old(self).squares,
                forall|g: int|
                    0 <= g < 9 + c ==> #[trigger] self.group(g) == old(self).group(g) + grid_group(
                        g,
                    ),
                forall|g: int| 9 + c <= g < 18 ==> #[trigger] self.group(g) == old(self).group(g),
            decreases 9 - c,
        {
            let ghost before = *self;
            assert(before.group(9 + c) == old(self).group(9 + c));
            self.cols[c].wire(c, &self.allcells);
            assert forall|g: int| 0 <= g < 18 implies #[trigger] self.group(g) == (if g == 9 + c {
                before.group(g) + grid_group(g)
            } else {
                before.group(g)
            }) by {}
            c = c + 1;
        }
        let mut b: usize = 0;
        while b < CELL_ROW
            invariant
                b <= 9,
                self.shaped(),
                self.allcells == old(self).allcells,
                self.same_labels(old(self)),
                forall|g: int|
                    0 <= g < 18 + b ==> #[trigger] self.group(g) == old(self).group(g) + grid_group(
                        g,
                    ),
                forall|g: int| 18 + b <= g < 27 ==> #[trigger] self.group(g) == old(self).group(g),
            decreases 9 - b,
        {
            let ghost before = *self;
            assert(before.group(18 + b) == old(self).group(18 + b));
            self.squares[b].wire((b / 3) * 3, (b % 3) * 3, &self.allcells);
            assert forall|g: int| 0 <= g < 27 implies #[trigger] self.group(g) == (if g == 18 + b {
                before.group(g) + grid_group(g)
            } else {
                before.group(g)
            }) by {}
            b = b + 1;
        }
        proof {
            if old(self).fresh() {
                assert forall|g: int| 0 <= g < 27 implies #[trigger] self.group(g) == grid_group(
                    g,
                ) by {
                    assert(old(self).group(g) == Seq::<usize>::empty());
                    assert(self.group(g) =~= grid_group(g));
                }
            }
        }
        self
    }

    /// The number of givens and the number of resolved cells.
    pub fn count_solved(&self) -> (counts: (usize, usize))
        requires
            self.allcells.wf(),
        ensures
            counts.0 == start_count(self@, 81),
            counts.1 == resolved_count(self@, 81),
    {
        let mut init_count: usize = 0;
        let mut curr_count: usize = 0;
        let mut i: usize = 0;
        while i < CELL_ROW * CELL_COL
            invariant
                i <= 81,
                self.allcells.wf(),
                init_count == start_count(self@, i as int),
                curr_count == resolved_count(self@, i as int),
                init_count <= i,
                curr_count <= i,
            decreases 81 - i,
        {
            let counts = self.allcells.cells[i].count_solved();
            init_count = init_count + counts.0;
            curr_count = curr_count + counts.1;
            i = i + 1;
        }
        (init_count, curr_count)
    }

    /// What the cell at row `r`, column `c` shows.
    pub fn cell_display(&self, r: usize, c: usize) -> (state: CellState)
        requires
            self.allcells.wf(),
            r < 9,
            c < 9,
        ensures
            state == self@[r * 9 + c].value,
    {
        self.allcells.cells[r * CELL_SIZE + c].get_state()
    }

    /// Fixes the cell at row `r`, column `c` to the given digit `v`. No other
    /// cell changes, and no cell remembers or forgets anything.
    pub fn init_cell(&mut self, r: usize, c: usize, v: usize)
        requires
            old(self).wired(),
            r < 9,
            c < 9,
            1 <= v <= 9,
        ensures
            final(self)@ == with_given(old(self)@, r as int, c as int, v as int),
            final(self).wired(),
            final(self).allcells.same_places(&old(self).allcells),
            final(self).same_groups(old(self)),
    {
        assert(self.group(r as int) == grid_group(r as int));
        let i: usize = self.rows[r].cells[c];
        assert(i == r * 9 + c);
        self.allcells.cells[i].set_init_value(v);
        assert(self.allcells@ =~= old(self)@.update(
            i as int,
            old(self)@[i as int].with_value(
                CellState::Solved(digit_mask(v as int), CellActor::StartValue),
            ),
        ));
        assert(forall|g: int| 0 <= g < 27 ==> #[trigger] self.group(g) == old(self).group(g));
    }

    /// Sets up the example puzzle with its 23 givens:
    ///
    /// ```text
    /// |   |   |   |
    /// | 7 |   |9  |
    /// |5  |9  |  2|
    /// -------------
    /// |   |1 6|4  |
    /// |461|   |   |
    /// |   |  5|  6|
    /// -------------
    /// | 86| 4 |3  |
    /// |9 2| 1 |  8|
    /// |3  |  8|   |
    /// -------------
    /// ```
    pub fn init(&mut self)
        requires
            old(self).wired(),
        ensures
            final(self)@ == with_example_givens(old(self)@),
            final(self).wired(),
            final(self).allcells.same_places(&old(self).allcells),
            final(self).same_groups(old(self)),
    {
        self.init_cell(1, 1, 7);
        self.init_cell(1, 7, 9);
        self.init_cell(2, 0, 5);
        self.init_cell(2, 3, 9);
        self.init_cell(2, 8, 2);
        self.init_cell(3, 3, 1);
        self.init_cell(3, 5, 6);
        self.init_cell(3, 6, 4);
        self.init_cell(4, 0, 4);
        self.init_cell(4, 1, 6);
        self.init_cell(4, 2, 1);
        self.init_cell(5, 5, 5);
        self.init_cell(5, 8, 6);
        self.init_cell(6, 1, 8);
        self.init_cell(6, 2, 6);
        self.init_cell(6, 4, 4);
        self.init_cell(6, 6, 3);
        self.init_cell(7, 0, 9);
        self.init_cell(7, 2, 2);
        self.init_cell(7, 4, 1);
        self.init_cell(7, 8, 8);
        self.init_cell(8, 0, 3);
        self.init_cell(8, 5, 8);
    }

    /// The index lists of the 27 groups in the order in which a step visits
    /// them: rows, columns, blocks.
    pub fn all_logic_squares(&self) -> (groups: Vec<&Vec<usize>>)
        requires
            self.shaped(),
        ensures
            groups@.len() == 27,
            forall|g: int| 0 <= g < 27 ==> (#[trigger] groups@[g])@ == self.group(g),
    {
        let mut result: Vec<&Vec<usize>> = Vec::new();
        let mut i: usize = 0;
        while i < CELL_ROW
            invariant
                i <= 9,
                self.shaped(),
                result@.len() == i,
                forall|g: int| 0 <= g < i ==> (#[trigger] result@[g])@ == self.group(g),
            decreases 9 - i,
        {
            result.push(self.rows[i].get_cells());
            i = i + 1;
        }
        i = 0;
        while i < CELL_ROW
            invariant
                i <= 9,
                self.shaped(),
                result@.len() == 9 + i,
                forall|g: int| 0 <= g < 9 + i ==> (#[trigger] result@[g])@ == self.group(g),
            decreases 9 - i,
        {
            result.push(self.cols[i].get_cells());
            i = i + 1;
        }
        i = 0;
        while i < CELL_ROW
            invariant
                i <= 9,
                self.shaped(),
                result@.len() == 18 + i,
                forall|g: int| 0 <= g < 18 + i ==> (#[trigger] result@[g])@ == self.group(g),
            decreases 9 - i,
        {
            result.push(self.squares[i].get_cells());
            i = i + 1;
        }
        result
    }

    /// Runs one pass of deduction over each of the nine rows, the nine
    /// columns and the nine blocks, in that order, and stops at the first
    /// group that meets a contradiction. Nothing is remembered for undo.
    pub fn resolve_step(&mut self) -> (result: Result<usize, String>)
        requires
            old(self).wired(),
        ensures
            final(self)@ == sweep_strict(old(self)@, 27).cells,
            final(self).wired(),
            final(self).allcells.same_places(&old(self).allcells),
            final(self).same_groups(old(self)),
            result is Err <==> sweep_strict(old(self)@, 27).failure is Some,
            result matches Ok(n) ==> n == 0,
            result matches Err(message) ==> Some(message@) == sweep_strict(old(self)@, 27).failure,
    {
        let mut r: usize = 0;
        while r < CELL_ROW
            invariant
                r <= 9,
                self.wired(),
                self.allcells.same_places(&old(self).allcells),
                self.same_groups(old(self)),
                self@ == sweep_strict(old(self)@, r as nat).cells,
                sweep_strict(old(self)@, r as nat).failure is None,
            decreases 9 - r,
        {
            proof {
                lemma_grid_group_in_grid(r as int);
                assert(self.group(r as int) == grid_group(r as int));
            }
            let ghost before = *self;
            let pass = reduce_square(&mut self.allcells, &self.rows[r]);
            assert(forall|g: int| 0 <= g < 27 ==> #[trigger] self.group(g) == before.group(g));
            match pass {
                Ok(_) => {},
                Err(message) => {
                    proof {
                        lemma_sweep_strict_stops(old(self)@, (r + 1) as nat, 27);
                    }
                    return Err(message);
                },
            }
            r = r + 1;
        }
        r = 0;
        while r < CELL_ROW
            invariant
                r <= 9,
                self.wired(),
                self.allcells.same_places(&old(self).allcells),
                self.same_groups(old(self)),
                self@ == sweep_strict(old(self)@, (9 + r) as nat).cells,
                sweep_strict(old(self)@, (9 + r) as nat).failure is None,
            decreases 9 - r,
        {
            proof {
                lemma_grid_group_in_grid(9 + r);
                assert(self.group(9 + r) == grid_group(9 + r));
            }
            let ghost before = *self;
            let pass = reduce_square(&mut self.allcells, &self.cols[r]);
            assert(forall|g: int| 0 <= g < 27 ==> #[trigger] self.group(g) == before.group(g));
            match pass {
                Ok(_) => {},
                Err(message) => {
                    proof {
                        lemma_sweep_strict_stops(old(self)@, (9 + r + 1) as nat, 27);
                    }
                    return Err(message);
                },
            }
            r = r + 1;
        }
        r = 0;
        while r < CELL_ROW
            invariant
                r <= 9,
                self.wired(),
                self.allcells.same_places(&old(self).allcells),
                self.same_groups(old(self)),
                self@ == sweep_strict(old(self)@, (18 + r) as nat).cells,
                sweep_strict(old(self)@, (18 + r) as nat).failure is None,
            decreases 9 - r,
        {
            proof {
                lemma_grid_group_in_grid(18 + r);
                assert(self.group(18 + r) == grid_group(18 + r));
            }
            let ghost before = *self;
            let pass = reduce_square(&mut self.allcells, &self.squares[r]);
            assert(forall|g: int| 0 <= g < 27 ==> #[trigger] self.group(g) == before.group(g));
            match pass {
                Ok(_) => {},
                Err(message) => {
                    proof {
                        lemma_sweep_strict_stops(old(self)@, (18 + r + 1) as nat, 27);
                    }
                    return Err(message);
                },
            }
            r = r + 1;
        }
        Ok(0)
    }

    /// The board as text: each cell as a space and its digit or dash, a bar
    /// after every third column, a rule after the third and the sixth row.
    pub fn show(&self) -> (text: String)
        requires
            self.wired(),
        ensures
            text@ == board_text(self@, 9),
    {
        let mut text = String::new();
        let mut r: usize = 0;
        while r < CELL_SIZE
            invariant
                r <= 9,
                self.wired(),
                text@ == board_text(self@, r as nat),
            decreases 9 - r,
        {
            assert(self.group(r as int) == grid_group(r as int));
            let row = &self.rows[r];
            let ghost start = text@;
            let mut c: usize = 0;
            while c < CELL_SIZE
                invariant
                    c <= 9,
                    r < 9,
                    self.wired(),
                    row.cells@ == row_group(r as int),
                    text@ == start + row_text(self@, r as int, c as nat),
                decreases 9 - c,
            {
                let cell = &self.allcells.cells[row.cells[c]];
                let value = cell.get_value();
                text.append(" ");
                text.append(value.as_str());
                proof {
                    reveal_strlit(" ");
                    reveal_strlit(" |");
                    reveal_strlit("\n");
                }
                if c == 2 || c == 5 {
                    text.append(" |");
                } else if c == 8 {
                    text.append("\n");
                }
                assert(text@ =~= start + row_text(self@, r as int, (c + 1) as nat));
                c = c + 1;
            }
            if r == 2 || r == 5 {
                text.append("-------|-------|---------\n");
            }
            assert(text@ =~= board_text(self@, (r + 1) as nat));
            r = r + 1;
        }
        text
    }

    /// The positions that each row, column and block holds, as text: for
    /// every number from 0 to 8 a heading and then the row, the column and
    /// the block of that number, one line each.
    pub fn check_board(&self) -> (text: String)
        requires
            self.wired(),
        ensures
            text@ == check_text(9),
    {
        let mut text = String::new();
        let mut r: usize = 0;
        while r < CELL_ROW
            invariant
                r <= 9,
                self.wired(),
                text@ == check_text(r as nat),
            decreases 9 - r,
        {
            proof {
                lemma_grid_group_in_grid(r as int);
                lemma_grid_group_in_grid(9 + r);
                lemma_grid_group_in_grid(18 + r);
                assert(self.group(r as int) == grid_group(r as int));
                assert(self.group(9 + r) == grid_group(9 + r));
                assert(self.group(18 + r) == grid_group(18 + r));
            }
            let ghost start = text@;
            text.append("---------------index ");
            text.append(digit_str(r));
            text.append("\n");
            text.append(self.print_layout(&self.rows[r]).as_str());
            text.append(self.print_layout(&self.cols[r]).as_str());
            text.append(self.print_layout(&self.squares[r]).as_str());
            proof {
                reveal_strlit("\n");
                assert(text@ =~= check_text((r + 1) as nat));
            }
            r = r + 1;
        }
        text
    }

    /// The one-based positions of the cells that `row_col_square` holds, as
    /// one line of text.
    pub fn print_layout<G: RowColSquare>(&self, row_col_square: &G) -> (text: String)
        requires
            self.allcells.wf(),
            forall|k: int|
                0 <= k < row_col_square.members().len() ==> (#[trigger] row_col_square.members()[k])
                    < 81,
        ensures
            text@ == layout_text(row_col_square.members()),
    {
        let group = row_col_square.get_cells();
        let mut text = String::new();
        let mut k: usize = 0;
        while k < group.len()
            invariant
                k <= group@.len(),
                self.allcells.wf(),
                forall|j: int| 0 <= j < group@.len() ==> (#[trigger] group@[j]) < 81,
                text@ == layout_cells(group@, k as nat),
            decreases group@.len() - k,
        {
            let cell = &self.allcells.cells[group[k]];
            let pos = cell.get_pos();
            text.append(" ");
            text.append(position_string(pos.0, pos.1).as_str());
            text.append(" - ");
            proof {
                reveal_strlit(" ");
                reveal_strlit(" - ");
                let i = group@[k as int] as int;
                assert(cell.cell.row == i / 9 && cell.cell.col == i % 9);
                assert(text@ =~= layout_cells(group@, (k + 1) as nat));
            }
            k = k + 1;
        }
        text.append("\n");
        proof {
            reveal_strlit("\n");
            assert(text@ =~= layout_text(group@));
        }
        text
    }
}

/// The cells after the cell at row `r`, column `c` has been fixed to the
/// given digit `v`: that cell is resolved to `v` as a given and remembers
/// what it remembered before; every other cell is as it was.
pub open spec fn with_given(cells: Seq<CellModel>, r: int, c: int, v: int) -> Seq<CellModel> {
    cells.update(
        r * 9 + c,
        cells[r * 9 + c].with_value(CellState::Solved(digit_mask(v), CellActor::StartValue)),
    )
}

/// The cells after the 23 givens of the example puzzle have been set, one
/// after the other.
pub open spec fn with_example_givens(cells: Seq<CellModel>) -> Seq<CellModel> {
    let cells = with_given(cells, 1, 1, 7);
    let cells = with_given(cells, 1, 7, 9);
    let cells = with_given(cells, 2, 0, 5);
    let cells = with_given(cells, 2, 3, 9);
    let cells = with_given(cells, 2, 8, 2);
    let cells = with_given(cells, 3, 3, 1);
    let cells = with_given(cells, 3, 5, 6);
    let cells = with_given(cells, 3, 6, 4);
    let cells = with_given(cells, 4, 0, 4);
    let cells = with_given(cells, 4, 1, 6);
    let cells = with_given(cells, 4, 2, 1);
    let cells = with_given(cells, 5, 5, 5);
    let cells = with_given(cells, 5, 8, 6);
    let cells = with_given(cells, 6, 1, 8);
    let cells = with_given(cells, 6, 2, 6);
    let cells = with_given(cells, 6, 4, 4);
    let cells = with_given(cells, 6, 6, 3);
    let cells = with_given(cells, 7, 0, 9);
    let cells = with_given(cells, 7, 2, 2);
    let cells = with_given(cells, 7, 4, 1);
    let cells = with_given(cells, 7, 8, 8);
    let cells = with_given(cells, 8, 0, 3);
    let cells = with_given(cells, 8, 5, 8);
    cells
}

/// What follows cell `c` of a printed row: a bar after the third and the
/// sixth cell, the end of the line after the ninth.
pub open spec fn cell_end(c: int) -> Seq<char> {
    if c == 2 || c == 5 {
        seq![' ', '|']
    } else if c == 8 {
        seq!['\n']
    } else {
        Seq::empty()
    }
}

/// The text of the first `n` cells of row `r`.
pub open spec fn row_text(cells: Seq<CellModel>, r: int, n: nat) -> Seq<char>
    decreases n,
{
    if n == 0 {
        Seq::empty()
    } else {
        row_text(cells, r, (n - 1) as nat) + seq![' '] + cells[r * 9 + n - 1].value.text()
            + cell_end(n - 1)
    }
}

/// What follows printed row `r`: a rule after the third and the sixth row.
pub open spec fn row_end(r: int) -> Seq<char> {
    if r == 2 || r == 5 {
        "-------|-------|---------\n"@
    } else {
        Seq::empty()
    }
}

/// The text of the first `n` rows of the board.
pub open spec fn board_text(cells: Seq<CellModel>, n: nat) -> Seq<char>
    decreases n,
{
    if n == 0 {
        Seq::empty()
    } else {
        board_text(cells, (n - 1) as nat) + row_text(cells, n - 1, 9) + row_end(n - 1)
    }
}

/// The one-based positions of the first `n` cells of `group`, each between
/// a space and ` - `.
pub open spec fn layout_cells(group: Seq<usize>, n: nat) -> Seq<char>
    decreases n,
{
    if n == 0 {
        Seq::empty()
    } else {
        layout_cells(group, (n - 1) as nat) + seq![' '] + position_text(
            group[n - 1] / 9 + 1,
            group[n - 1] % 9 + 1,
        ) + seq![' ', '-', ' ']
    }
}

/// The line of the one-based positions of the cells of `group`.
pub open spec fn layout_text(group: Seq<usize>) -> Seq<char> {
    layout_cells(group, group.len()).push('\n')
}

/// The layout of the first `n` rows, columns and blocks: for each number a
/// heading, then the lines of the row, the column and the block.
pub open spec fn check_text(n: nat) -> Seq<char>
    decreases n,
{
    if n == 0 {
        Seq::empty()
    } else {
        check_text((n - 1) as nat) + "---------------index "@ + seq![digit_char(n - 1), '\n']
            + layout_text(grid_group(n - 1)) + layout_text(grid_group(9 + n - 1))
            + layout_text(grid_group(18 + n - 1))
    }
}

} // verus!
