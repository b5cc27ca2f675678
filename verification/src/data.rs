//! The dimensions of the grid, and the state of the application around one
//! board: the session, the list of puzzles to choose from, the puzzle
//! chosen and the message shown.
use crate::masks::{first_digit, has_digit, lemma_has_digit_whole, mask_of_digit};
use crate::reduction::stepped;
use crate::sudoku_board::{
    cleared_cells, grid_group, restored, row_group, with_given, CellModel, CellState, RowColSquare,
    SudokuBoard,
};
use crate::sudoku_state::{state_after_step, GameState, SudokuState};
use crate::text::{digit_char, digit_str};
use vstd::prelude::*;

verus! {

/// Cells in a row, a column or a block; also the number of digits.
pub const CELL_SIZE: usize = 9;

/// Rows of the grid.
pub const CELL_ROW: usize = 9;

/// Columns of the grid.
pub const CELL_COL: usize = 9;

/// Cells of the grid.
pub const CELL_COUNT: usize = 81;

/// Whether `part` stands in `text` from position `at` on.
pub open spec fn occurs_at(text: Seq<char>, part: Seq<char>, at: int) -> bool {
    0 <= at && at + part.len() <= text.len() && text.subrange(at, at + part.len()) == part
}

/// Whether `part` stands somewhere in `text`.
pub open spec fn contains_text(text: Seq<char>, part: Seq<char>) -> bool {
    exists|at: int| occurs_at(text, part, at)
}

/// The names in `list` that contain `part`, in the order of the list.
pub open spec fn matching_names(list: Seq<String>, part: Seq<char>) -> Seq<String> {
    list.filter(|name: String| contains_text(name@, part))
}

/// What is shown after a step that left the session in `state`.
pub open spec fn step_message(state: GameState) -> Seq<char> {
    match state {
        GameState::Stepping => "Stepping.."@,
        GameState::Error => "ERROR"@,
        GameState::Solved => "RESOLVED!!"@,
        GameState::ManualInput => "Manual Input"@,
        GameState::Select => "unknown"@,
    }
}

/// The digit that the character `c` writes; 0 for any character but `1` to
/// `9`.
pub open spec fn char_digit(c: char) -> int {
    if c == '1' {
        1
    } else if c == '2' {
        2
    } else if c == '3' {
        3
    } else if c == '4' {
        4
    } else if c == '5' {
        5
    } else if c == '6' {
        6
    } else if c == '7' {
        7
    } else if c == '8' {
        8
    } else if c == '9' {
        9
    } else {
        0
    }
}

/// Whether `key` names a row of a puzzle: it begins with `row`.
pub open spec fn is_row_key(key: Seq<char>) -> bool {
    key.len() >= 3 && key[0] == 'r' && key[1] == 'o' && key[2] == 'w'
}

/// Whether an entry of a puzzle can be loaded. An entry that names a row
/// must give the row's number, 1 to 9, as the fourth character of its key,
/// and its value must begin with nine characters, each a digit from 1 to 9
/// or a dash. Any other entry can be loaded: it is passed over.
pub open spec fn entry_is_valid(key: Seq<char>, value: Seq<char>) -> bool {
    is_row_key(key) ==> {
        &&& key.len() >= 4
        &&& 1 <= char_digit(key[3]) <= 9
        &&& value.len() >= 9
        &&& forall|c: int|
            0 <= c < 9 ==> value[c] == '-' || 1 <= #[trigger] char_digit(value[c]) <= 9
    }
}

/// Whether every entry of a puzzle can be loaded.
pub open spec fn entries_are_valid(entries: Seq<(String, String)>) -> bool {
    forall|i: int|
        0 <= i < entries.len() ==> entry_is_valid((#[trigger] entries[i]).0@, entries[i].1@)
}

/// The cells after the first `n` characters of `value` have been loaded
/// into row `row`: a dash leaves its cell alone, a digit is set as a given.
pub open spec fn with_row(cells: Seq<CellModel>, row: int, value: Seq<char>, n: nat) -> Seq<
    CellModel,
>
    decreases n,
{
    if n == 0 {
        cells
    } else {
        let before = with_row(cells, row, value, (n - 1) as nat);
        if value[n - 1] == '-' {
            before
        } else {
            with_given(before, row, n - 1, char_digit(value[n - 1]))
        }
    }
}

/// The cells after the first `n` entries of a puzzle have been loaded, in
/// the order given. An entry that names no row is passed over.
pub open spec fn with_entries(cells: Seq<CellModel>, entries: Seq<(String, String)>, n: nat) -> Seq<
    CellModel,
>
    decreases n,
{
    if n == 0 {
        cells
    } else {
        let before = with_entries(cells, entries, (n - 1) as nat);
        let key = entries[n - 1].0@;
        if is_row_key(key) {
            with_row(before, char_digit(key[3]) - 1, entries[n - 1].1@, 9)
        } else {
            before
        }
    }
}

/// The digit that `c` writes, or 0 if `c` is none of `1` to `9`.
pub fn digit_of_char(c: char) -> (d: usize)
    ensures
        d == char_digit(c),
        d <= 9,
{
    if c == '1' {
        1
    } else if c == '2' {
        2
    } else if c == '3' {
        3
    } else if c == '4' {
        4
    } else if c == '5' {
        5
    } else if c == '6' {
        6
    } else if c == '7' {
        7
    } else if c == '8' {
        8
    } else if c == '9' {
        9
    } else {
        0
    }
}

/// Says whether `key` names a row of a puzzle.
pub fn key_names_row(key: &str) -> (named: bool)
    ensures
        named == is_row_key(key@),
{
    key.unicode_len() >= 3 && key.get_char(0) == 'r' && key.get_char(1) == 'o' && key.get_char(2)
        == 'w'
}

/// Says whether an entry of a puzzle can be loaded.
pub fn entry_can_be_loaded(key: &str, value: &str) -> (valid: bool)
    ensures
        valid == entry_is_valid(key@, value@),
{
    if !key_names_row(key) {
        return true;
    }
    if key.unicode_len() < 4 {
        return false;
    }
    if digit_of_char(key.get_char(3)) == 0 {
        return false;
    }
    if value.unicode_len() < 9 {
        return false;
    }
    let mut col: usize = 0;
    while col < 9
        invariant
            col <= 9,
            is_row_key(key@),
            key@.len() >= 4,
            1 <= char_digit(key@[3]) <= 9,
            value@.len() >= 9,
            forall|c: int|
                0 <= c < col ==> value@[c] == '-' || 1 <= #[trigger] char_digit(value@[c]) <= 9,
        decreases 9 - col,
    {
        let valc = value.get_char(col);
        if valc != '-' && digit_of_char(valc) == 0 {
            assert(!(value@[col as int] == '-' || 1 <= char_digit(value@[col as int]) <= 9));
            return false;
        }
        col = col + 1;
    }
    true
}

/// Says whether every entry of a puzzle can be loaded.
pub fn entries_can_be_loaded(entries: &Vec<(String, String)>) -> (valid: bool)
    ensures
        valid == entries_are_valid(entries@),
{
    let mut i: usize = 0;
    while i < entries.len()
        invariant
            i <= entries@.len(),
            forall|j: int|
                0 <= j < i ==> entry_is_valid((#[trigger] entries@[j]).0@, entries@[j].1@),
        decreases entries@.len() - i,
    {
        if !entry_can_be_loaded(entries[i].0.as_str(), entries[i].1.as_str()) {
            return false;
        }
        i = i + 1;
    }
    true
}

/// What is written for the first `n` cells of row `r`: the digit of each
/// resolved cell, a dash for each other.
pub open spec fn saved_cells(cells: Seq<CellModel>, r: int, n: nat) -> Seq<char>
    decreases n,
{
    if n == 0 {
        Seq::empty()
    } else {
        saved_cells(cells, r, (n - 1) as nat) + cells[r * 9 + n - 1].value.text()
    }
}

/// What is written for the first `n` rows of `board`: for each row a line
/// of its label, an equals sign and its nine cells.
pub open spec fn saved_rows(board: SudokuBoard, n: nat) -> Seq<char>
    decreases n,
{
    if n == 0 {
        Seq::empty()
    } else {
        saved_rows(board, (n - 1) as nat) + board.rows@[n - 1].id@ + seq!['='] + saved_cells(
            board@,
            n - 1,
            9,
        ) + seq!['\n']
    }
}

/// What is written to save `board` under `name`: an empty line, a comment,
/// the name in brackets, the nine rows, and a closing comment.
pub open spec fn saved_text(name: Seq<char>, board: SudokuBoard) -> Seq<char> {
    "\n;Added by Rust Sudoku.\n["@ + name + "]\n"@ + saved_rows(board, 9) + ";xxx\n"@
}

/// Three candidates to a line: what follows candidate `d` where a line
/// ends.
pub open spec fn candidate_end(d: int) -> Seq<char> {
    if d == 3 || d == 6 {
        "               \n"@
    } else {
        Seq::empty()
    }
}

/// The candidates 1 to `n` of `mask` as shown in a cell: each digit that is
/// a candidate, a space in place of each that is not, a space after each.
pub open spec fn candidates_text(mask: usize, n: nat) -> Seq<char>
    decreases n,
{
    if n == 0 {
        Seq::empty()
    } else {
        candidates_text(mask, (n - 1) as nat) + seq![
            if has_digit(mask, n as int) {
                digit_char(n as int)
            } else {
                ' '
            },
            ' ',
        ] + candidate_end(n as int)
    }
}

/// What a cell in state `state` shows: its digit if resolved, its
/// candidates if open, the word `Error` if in error.
pub open spec fn cell_text(state: CellState) -> Seq<char> {
    match state {
        CellState::Solved(_, _) => state.text(),
        CellState::UnSolved(mask) => candidates_text(mask, 9),
        CellState::Error => "Error"@,
    }
}

/// Says whether digit `value` can still be chosen for a cell in state
/// `state`: the cell is open and the digit is among its candidates.
pub fn evaluate_cellstate(state: &CellState, value: usize) -> (enabled: bool)
    requires
        1 <= value <= 9,
    ensures
        enabled == (*state matches CellState::UnSolved(mask) && has_digit(mask, value as int)),
{
    let mask: usize = mask_of_digit(value);
    match state {
        CellState::Solved(_, _) => false,
        CellState::UnSolved(m) => {
            proof {
                lemma_has_digit_whole(*m, value as int);
            }
            *m & mask == mask
        },
        CellState::Error => false,
    }
}

/// Writes what a cell in state `state` shows.
pub fn cell_label(state: CellState) -> (text: String)
    ensures
        text@ == cell_text(state),
{
    match state {
        CellState::Solved(v, _) => String::from_str(digit_str(first_digit(v))),
        CellState::UnSolved(u) => {
            let mut tekst = String::new();
            let mut c: usize = 0;
            while c < CELL_SIZE
                invariant
                    c <= 9,
                    tekst@ == candidates_text(u, c as nat),
                decreases 9 - c,
            {
                proof {
                    reveal_strlit(" ");
                    lemma_has_digit_whole(u, c + 1);
                }
                let ghost before = tekst@;
                if u & mask_of_digit(c + 1) == mask_of_digit(c + 1) {
                    tekst.append(digit_str(c + 1));
                } else {
                    tekst.append(" ");
                }
                tekst.append(" ");
                if c == 2 || c == 5 {
                    tekst.append("               \n");
                }
                assert(tekst@ =~= candidates_text(u, (c + 1) as nat));
                c = c + 1;
            }
            tekst
        },
        CellState::Error => String::from_str("Error"),
    }
}

/// The position of the first of the first `n` puzzles that has the name
/// `name`, or `n` if none of them has it.
pub open spec fn first_named_among(
    puzzles: Seq<(String, Vec<(String, String)>)>,
    name: Seq<char>,
    n: nat,
) -> int
    decreases n,
{
    if n == 0 {
        0
    } else {
        let before = first_named_among(puzzles, name, (n - 1) as nat);
        if before < n - 1 || puzzles[n - 1].0@ == name {
            before
        } else {
            n as int
        }
    }
}

/// The position of the first puzzle that has the name `name`, or the
/// number of puzzles if none has it.
pub open spec fn first_named(
    puzzles: Seq<(String, Vec<(String, String)>)>,
    name: Seq<char>,
) -> int {
    first_named_among(puzzles, name, puzzles.len())
}

/// Whether `puzzles` has a puzzle of the name `name` whose entries can all
/// be loaded; the first puzzle of the name counts.
pub open spec fn can_be_loaded(
    puzzles: Seq<(String, Vec<(String, String)>)>,
    name: Seq<char>,
) -> bool {
    first_named(puzzles, name) < puzzles.len() && entries_are_valid(
        puzzles[first_named(puzzles, name)].1@,
    )
}

/// The first puzzle of a name is the one before which no puzzle has the
/// name.
pub proof fn lemma_first_named(
    puzzles: Seq<(String, Vec<(String, String)>)>,
    name: Seq<char>,
    at: int,
)
    requires
        0 <= at <= puzzles.len(),
        forall|j: int| 0 <= j < at ==> (#[trigger] puzzles[j]).0@ != name,
        at < puzzles.len() ==> puzzles[at].0@ == name,
    ensures
        first_named(puzzles, name) == at,
{
    lemma_first_named_among(puzzles, name, at, puzzles.len());
}

/// Among the first `n` puzzles, the first of a name is the one before which
/// no puzzle has the name, or there is none.
proof fn lemma_first_named_among(
    puzzles: Seq<(String, Vec<(String, String)>)>,
    name: Seq<char>,
    at: int,
    n: nat,
)
    requires
        0 <= at <= puzzles.len(),
        n <= puzzles.len(),
        forall|j: int| 0 <= j < at ==> (#[trigger] puzzles[j]).0@ != name,
        at < puzzles.len() ==> puzzles[at].0@ == name,
    ensures
        first_named_among(puzzles, name, n) == if at < n {
            at
        } else {
            n as int
        },
    decreases n,
{
    if n > 0 {
        lemma_first_named_among(puzzles, name, at, (n - 1) as nat);
        if n - 1 < at {
            assert(puzzles[n - 1].0@ != name);
        }
    }
}

/// Says whether `part` stands somewhere in `text`.
pub fn text_contains(text: &str, part: &str) -> (found: bool)
    ensures
        found == contains_text(text@, part@),
{
    let n: usize = text.unicode_len();
    let m: usize = part.unicode_len();
    if m > n {
        return false;
    }
    let mut at: usize = 0;
    while at <= n - m
        invariant
            n == text@.len(),
            m == part@.len(),
            m <= n,
            at <= n - m + 1,
            forall|a: int| 0 <= a < at ==> !occurs_at(text@, part@, a),
        decreases n - m + 1 - at,
    {
        let mut k: usize = 0;
        let mut same: bool = true;
        while k < m && same
            invariant
                n == text@.len(),
                m == part@.len(),
                at + m <= n,
                k <= m,
                same ==> forall|j: int| 0 <= j < k ==> text@[at + j] == part@[j],
                !same ==> exists|j: int| 0 <= j < m && text@[at + j] != part@[j],
            decreases m - k + if same { 1int } else { 0int },
        {
            if text.get_char(at + k) == part.get_char(k) {
                k = k + 1;
            } else {
                same = false;
            }
        }
        if same {
            assert(text@.subrange(at as int, at + m) =~= part@);
            assert(occurs_at(text@, part@, at as int));
            return true;
        }
        proof {
            let j = choose|j: int| 0 <= j < m && text@[at + j] != part@[j];
            assert(text@.subrange(at as int, at + m)[j] == text@[at + j]);
        }
        at = at + 1;
    }
    false
}

/// The state of the application around one board.
#[derive(Clone)]
pub struct AppState {
    /// What is shown to the player.
    pub message: String,
    /// The board.
    pub su_board: SudokuBoard,
    /// The session over the board.
    pub su_state: SudokuState,
    /// The names of all puzzles.
    pub board_list: Vec<String>,
    /// The names of the puzzles that contain the text typed so far.
    pub autoselect_list: Vec<String>,
    /// The text typed so far, or the name of the puzzle chosen.
    pub selected: String,
}

impl AppState {
    /// Whether `other` has the same lists of names and the same text typed.
    pub open spec fn same_names(&self, other: &AppState) -> bool {
        &&& self.board_list == other.board_list
        &&& self.autoselect_list == other.autoselect_list
        &&& self.selected == other.selected
    }

    /// An application with an empty, wired board, a new session and no
    /// puzzle to choose from yet.
    pub fn new() -> (app: AppState)
        ensures
            app.su_board.wired(),
            app.su_board.labelled(),
            app.su_board@ == cleared_cells(),
            !app.su_state.print_row_details,
            !app.su_state.print_cell_details,
            app.su_state.step_count == 0,
            app.su_state.init_count == 0,
            app.su_state.curr_count == 0,
            app.su_state.game_state == GameState::Select,
            app.message@ == "Select a board"@,
            app.selected@ == Seq::<char>::empty(),
            app.board_list@ == Seq::<String>::empty(),
            app.autoselect_list@ == Seq::<String>::empty(),
    {
        let mut board = SudokuBoard::new();
        board.wire();
        AppState {
            message: String::from_str("Select a board"),
            su_board: board,
            su_state: SudokuState::new(),
            selected: String::new(),
            board_list: Vec::new(),
            autoselect_list: Vec::new(),
        }
    }

    /// The board.
    pub fn get_board_ref(&self) -> (board: &SudokuBoard)
        ensures
            board == &self.su_board,
    {
        &self.su_board
    }

    /// Goes back to choosing a puzzle.
    pub fn show_select(&mut self)
        ensures
            final(self).su_state == (SudokuState {
                game_state: GameState::Select,
                ..old(self).su_state
            }),
            final(self).message@ == "Select a board .."@,
            final(self).su_board == old(self).su_board,
            final(self).same_names(old(self)),
    {
        self.su_state.select();
        self.message = String::from_str("Select a board ..");
    }

    /// Whether a puzzle can not be chosen now: only while one is being
    /// chosen or set by hand it can.
    #[allow(non_snake_case)]
    pub fn isSelectBoardDisabled(&self) -> (disabled: bool)
        ensures
            disabled == !(self.su_state.game_state == GameState::Select || self.su_state.game_state
                == GameState::ManualInput),
    {
        let gamestate = self.su_state.get_state();
        !(GameState::Select == gamestate || GameState::ManualInput == gamestate)
    }

    /// Whether a step can not be taken back now: while a puzzle is being
    /// chosen it can not.
    #[allow(non_snake_case)]
    pub fn isBackDisabled(&self) -> (disabled: bool)
        ensures
            disabled == (self.su_state.game_state == GameState::Select),
    {
        let gamestate = self.su_state.get_state();
        GameState::Select == gamestate
    }

    /// Whether a step can not be taken now: only with a puzzle loaded and
    /// neither solved nor in error it can.
    #[allow(non_snake_case)]
    pub fn isStepDisabled(&self) -> (disabled: bool)
        ensures
            disabled == !(self.su_state.game_state == GameState::ManualInput
                || self.su_state.game_state == GameState::Stepping),
    {
        let gamestate = self.su_state.get_state();
        !(GameState::ManualInput == gamestate || GameState::Stepping == gamestate)
    }

    /// Whether the puzzle can not be solved in one go: it never can.
    #[allow(non_snake_case)]
    pub fn isSolveDisabled(&self) -> (disabled: bool)
        ensures
            disabled,
    {
        true
    }

    /// Whether the list of puzzles is shown: while one is being chosen.
    #[allow(non_snake_case)]
    pub fn isSelectVisible(&self) -> (visible: bool)
        ensures
            visible == (self.su_state.game_state == GameState::Select),
    {
        let gamestate = self.su_state.get_state();
        GameState::Select == gamestate
    }

    /// Whether the puzzle can not be saved now: while one is being chosen
    /// and the text typed is part of a name in the list.
    #[allow(non_snake_case)]
    pub fn isSaveDisabled(&self) -> (disabled: bool)
        ensures
            disabled == (self.su_state.game_state == GameState::Select
                && self.autoselect_list@.len() > 0),
    {
        let gamestate = self.su_state.get_state();
        GameState::Select == gamestate && self.autoselect_list.len() > 0
    }

    /// Takes one step and shows how the session stands after it.
    pub fn do_step(&mut self)
        requires
            old(self).su_board.wired(),
        ensures
            final(self).su_board@ == stepped(old(self).su_board@),
            final(self).su_board.wired(),
            final(self).su_board.same_groups(&old(self).su_board),
            final(self).su_state == old(self).su_state.after_step(old(self).su_board@),
            final(self).message@ == step_message(state_after_step(old(self).su_board@)),
            final(self).same_names(old(self)),
    {
        match self.su_state.resolve_step(&mut self.su_board) {
            GameState::Stepping => self.message = String::from_str("Stepping.."),
            GameState::Error => self.message = String::from_str("ERROR"),
            GameState::Solved => self.message = String::from_str("RESOLVED!!"),
            GameState::ManualInput => self.message = String::from_str("Manual Input"),
            _ => self.message = String::from_str("unknown"),
        }
    }

    /// Takes the last step back.
    pub fn do_step_back(&mut self)
        requires
            old(self).su_board.wired(),
        ensures
            final(self).su_board@ == restored(old(self).su_board@),
            final(self).su_board.wired(),
            final(self).su_board.same_groups(&old(self).su_board),
            final(self).su_state == old(self).su_state.after_step_back(old(self).su_board@),
            final(self).message@ == "Stepping.."@,
            final(self).same_names(old(self)),
    {
        self.su_state.step_back(&mut self.su_board);
        assert(forall|g: int|
            0 <= g < 27 ==> #[trigger] self.su_board.group(g) == old(self).su_board.group(g));
        self.message = String::from_str("Stepping..");
    }

    /// Empties the board and starts the session over.
    pub fn do_restart(&mut self)
        requires
            old(self).su_board.wired(),
        ensures
            final(self).su_board@ == cleared_cells(),
            final(self).su_board.wired(),
            final(self).su_board.same_groups(&old(self).su_board),
            final(self).su_state.step_count == 0,
            final(self).su_state.init_count == 0,
            final(self).su_state.curr_count == 0,
            final(self).su_state.game_state == GameState::ManualInput,
            final(self).su_state.same_flags(&old(self).su_state),
            final(self).message == old(self).message,
            final(self).same_names(old(self)),
    {
        self.su_state.reset(&mut self.su_board);
        assert(forall|g: int|
            0 <= g < 27 ==> #[trigger] self.su_board.group(g) == old(self).su_board.group(g));
    }

    /// Lists the names of the puzzles that contain the text typed so far.
    pub fn autoselect(&mut self)
        ensures
            final(self).autoselect_list@ == matching_names(
                old(self).board_list@,
                old(self).selected@,
            ),
            final(self).board_list == old(self).board_list,
            final(self).selected == old(self).selected,
            final(self).message == old(self).message,
            final(self).su_board == old(self).su_board,
            final(self).su_state == old(self).su_state,
    {
        let mut result: Vec<String> = Vec::new();
        let mut i: usize = 0;
        while i < self.board_list.len()
            invariant
                i <= self.board_list@.len(),
                *self == *old(self),
                result@ == matching_names(self.board_list@.take(i as int), self.selected@),
            decreases self.board_list@.len() - i,
        {
            let name = &self.board_list[i];
            proof {
                let pred = |name: String| contains_text(name@, self.selected@);
                self.board_list@.take(i as int).lemma_filter_push(*name, pred);
                assert(self.board_list@.take(i + 1) =~= self.board_list@.take(i as int).push(
                    *name,
                ));
            }
            if text_contains(name.as_str(), self.selected.as_str()) {
                result.push(name.clone());
            }
            i = i + 1;
        }
        assert(self.board_list@.take(i as int) =~= self.board_list@);
        self.autoselect_list = result;
    }

    /// Loads the puzzle whose entries are `rows`, in the order given: of each
    /// entry that names a row, the first nine characters of the value are
    /// set as the givens of that row, a dash leaving its cell alone.
    pub fn select_board(&mut self, rows: &Vec<(String, String)>)
        requires
            old(self).su_board.wired(),
            entries_are_valid(rows@),
        ensures
            final(self).su_board@ == with_entries(old(self).su_board@, rows@, rows@.len() as nat),
            final(self).su_board.wired(),
            final(self).su_board.same_groups(&old(self).su_board),
            final(self).su_state == old(self).su_state,
            final(self).message@ == "Rightclick for manual select"@,
            final(self).same_names(old(self)),
    {
        let mut i: usize = 0;
        while i < rows.len()
            invariant
                i <= rows@.len(),
                entries_are_valid(rows@),
                self.su_board.wired(),
                self.su_board.same_groups(&old(self).su_board),
                self.su_board@ == with_entries(old(self).su_board@, rows@, i as nat),
                self.su_state == old(self).su_state,
                self.message == old(self).message,
                self.same_names(old(self)),
            decreases rows@.len() - i,
        {
            let key = rows[i].0.as_str();
            let value = rows[i].1.as_str();
            assert(entry_is_valid(rows@[i as int].0@, rows@[i as int].1@));
            if key_names_row(key) {
                let rowc = key.get_char(3);
                let row: usize = digit_of_char(rowc) - 1;
                let ghost start = self.su_board@;
                let mut col: usize = 0;
                while col < 9
                    invariant
                        col <= 9,
                        row < 9,
                        value@.len() >= 9,
                        forall|c: int|
                            0 <= c < 9 ==> value@[c] == '-' || 1 <= #[trigger] char_digit(value@[c])
                                <= 9,
                        self.su_board.wired(),
                        self.su_board.same_groups(&old(self).su_board),
                        self.su_board@ == with_row(start, row as int, value@, col as nat),
                        self.su_state == old(self).su_state,
                        self.message == old(self).message,
                        self.same_names(old(self)),
                    decreases 9 - col,
                {
                    let valc = value.get_char(col);
                    if '-' != valc {
                        let v: usize = digit_of_char(valc);
                        assert(1 <= char_digit(value@[col as int]) <= 9);
                        self.su_board.init_cell(row, col, v);
                    }
                    col = col + 1;
                }
            }
            i = i + 1;
        }
        self.message = String::from_str("Rightclick for manual select");
    }

    /// What is to be written to the puzzle file to save the board under the
    /// name typed.
    pub fn save_text(&self) -> (text: String)
        requires
            self.su_board.wired(),
        ensures
            text@ == saved_text(self.selected@, self.su_board),
    {
        let mut text = String::from_str("\n;Added by Rust Sudoku.\n[");
        text.append(self.selected.as_str());
        text.append("]\n");
        let ghost head = text@;
        let mut r: usize = 0;
        while r < CELL_ROW
            invariant
                r <= 9,
                self.su_board.wired(),
                text@ == head + saved_rows(self.su_board, r as nat),
            decreases 9 - r,
        {
            assert(self.su_board.group(r as int) == grid_group(r as int));
            let row = &self.su_board.rows[r];
            text.append(row.get_id().as_str());
            text.append("=");
            let ghost start = text@;
            let mut c: usize = 0;
            while c < row.cells.len()
                invariant
                    c <= 9,
                    r < 9,
                    self.su_board.wired(),
                    row.cells@ == row_group(r as int),
                    text@ == start + saved_cells(self.su_board@, r as int, c as nat),
                decreases 9 - c,
            {
                let cell = &self.su_board.allcells.cells[row.cells[c]];
                text.append(cell.get_value().as_str());
                assert(text@ =~= start + saved_cells(self.su_board@, r as int, (c + 1) as nat));
                c = c + 1;
            }
            text.append("\n");
            proof {
                reveal_strlit("=");
                reveal_strlit("\n");
                assert(text@ =~= head + saved_rows(self.su_board, (r + 1) as nat));
            }
            r = r + 1;
        }
        text.append(";xxx\n");
        assert(text@ =~= saved_text(self.selected@, self.su_board));
        text
    }

    /// Takes one step if one can be taken now, and says whether it did. A
    /// step can be taken with a puzzle loaded and neither solved nor in
    /// error; otherwise nothing changes.
    pub fn try_step(&mut self) -> (done: bool)
        requires
            old(self).su_board.wired(),
        ensures
            done == (old(self).su_state.game_state == GameState::ManualInput
                || old(self).su_state.game_state == GameState::Stepping),
            !done ==> *final(self) == *old(self),
            done ==> {
                &&& final(self).su_board@ == stepped(old(self).su_board@)
                &&& final(self).su_board.wired()
                &&& final(self).su_board.same_groups(&old(self).su_board)
                &&& final(self).su_state == old(self).su_state.after_step(old(self).su_board@)
                &&& final(self).message@ == step_message(state_after_step(old(self).su_board@))
                &&& final(self).same_names(old(self))
            },
    {
        if self.isStepDisabled() {
            false
        } else {
            self.do_step();
            true
        }
    }

    /// Takes the last step back if that can be done now, and says whether
    /// it did. While a puzzle is being chosen it can not; nothing changes
    /// then.
    pub fn try_step_back(&mut self) -> (done: bool)
        requires
            old(self).su_board.wired(),
        ensures
            done == (old(self).su_state.game_state != GameState::Select),
            !done ==> *final(self) == *old(self),
            done ==> {
                &&& final(self).su_board@ == restored(old(self).su_board@)
                &&& final(self).su_board.wired()
                &&& final(self).su_board.same_groups(&old(self).su_board)
                &&& final(self).su_state == old(self).su_state.after_step_back(
                    old(self).su_board@,
                )
                &&& final(self).message@ == "Stepping.."@
                &&& final(self).same_names(old(self))
            },
    {
        if self.isBackDisabled() {
            false
        } else {
            self.do_step_back();
            true
        }
    }

    /// Loads the puzzle that has the name chosen, if `puzzles` has one and
    /// all its entries can be loaded, and says whether it did. The first
    /// puzzle of that name counts. Otherwise nothing changes.
    pub fn try_select_board(&mut self, puzzles: &Vec<(String, Vec<(String, String)>)>) -> (done:
        bool)
        requires
            old(self).su_board.wired(),
        ensures
            done == can_be_loaded(puzzles@, old(self).selected@),
            !done ==> *final(self) == *old(self),
            done ==> {
                let rows = puzzles@[first_named(puzzles@, old(self).selected@)].1@;
                &&& final(self).su_board@ == with_entries(old(self).su_board@, rows, rows.len())
                &&& final(self).su_board.wired()
                &&& final(self).su_board.same_groups(&old(self).su_board)
                &&& final(self).su_state == old(self).su_state
                &&& final(self).message@ == "Rightclick for manual select"@
                &&& final(self).same_names(old(self))
            },
    {
        let mut i: usize = 0;
        while i < puzzles.len()
            invariant
                i <= puzzles@.len(),
                *self == *old(self),
                self.su_board.wired(),
                forall|j: int| 0 <= j < i ==> (#[trigger] puzzles@[j]).0@ != self.selected@,
            decreases puzzles@.len() - i,
        {
            if puzzles[i].0 == self.selected {
                proof {
                    lemma_first_named(puzzles@, self.selected@, i as int);
                }
                if entries_can_be_loaded(&puzzles[i].1) {
                    self.select_board(&puzzles[i].1);
                    return true;
                }
                return false;
            }
            i = i + 1;
        }
        proof {
            lemma_first_named(puzzles@, self.selected@, puzzles@.len() as int);
        }
        false
    }

    /// Says whether `puzzles` has a puzzle of the name `name` whose entries
    /// can all be loaded; the first puzzle of the name counts.
    pub fn has_board(
        &self,
        puzzles: &Vec<(String, Vec<(String, String)>)>,
        name: &String,
    ) -> (found: bool)
        ensures
            found == can_be_loaded(puzzles@, name@),
    {
        let mut i: usize = 0;
        while i < puzzles.len()
            invariant
                i <= puzzles@.len(),
                forall|j: int| 0 <= j < i ==> (#[trigger] puzzles@[j]).0@ != name@,
            decreases puzzles@.len() - i,
        {
            if puzzles[i].0 == *name {
                proof {
                    lemma_first_named(puzzles@, name@, i as int);
                }
                return entries_can_be_loaded(&puzzles[i].1);
            }
            i = i + 1;
        }
        proof {
            lemma_first_named(puzzles@, name@, puzzles@.len() as int);
        }
        false
    }

    /// Sets the cell at row `row`, column `col` to digit `digit` by hand, as
    /// a given.
    pub fn set_number(&mut self, row: usize, col: usize, digit: usize)
        requires
            old(self).su_board.wired(),
            row < 9,
            col < 9,
            1 <= digit <= 9,
        ensures
            final(self).su_board@ == with_given(
                old(self).su_board@,
                row as int,
                col as int,
                digit as int,
            ),
            final(self).su_board.wired(),
            final(self).su_board.same_groups(&old(self).su_board),
            final(self).su_state == old(self).su_state,
            final(self).message == old(self).message,
            final(self).same_names(old(self)),
    {
        self.su_board.init_cell(row, col, digit);
    }

    /// Adds `names`, the names of the puzzles on file, to the list of all
    /// puzzles, clears the text typed, and lists every puzzle for choosing.
    pub fn load_file(&mut self, names: Vec<String>)
        ensures
            final(self).board_list@ == old(self).board_list@ + names@,
            final(self).selected@ == Seq::<char>::empty(),
            final(self).autoselect_list@ == matching_names(
                final(self).board_list@,
                Seq::<char>::empty(),
            ),
            final(self).message == old(self).message,
            final(self).su_board == old(self).su_board,
            final(self).su_state == old(self).su_state,
    {
        let mut names = names;
        self.board_list.append(&mut names);
        self.selected = String::new();
        self.autoselect();
    }
}

} // verus!
