use sudoku3x3::data::{
    cell_label, digit_of_char, entries_can_be_loaded, entry_can_be_loaded, evaluate_cellstate,
    key_names_row, text_contains, AppState, CELL_COL, CELL_COUNT, CELL_ROW, CELL_SIZE,
};
use sudoku3x3::sudoku_board::{CellActor, CellState};
use sudoku3x3::sudoku_state::GameState;

fn entry(key: &str, value: &str) -> (String, String) {
    (key.to_string(), value.to_string())
}

fn example_rows() -> Vec<(String, String)> {
    vec![
        entry("row1", "---------"),
        entry("row2", "-7-----9-"),
        entry("row3", "5--9----2"),
        entry("row4", "---1-64--"),
        entry("row5", "461------"),
        entry("row6", "-----5--6"),
        entry("row7", "-86-4-3--"),
        entry("row8", "9-2-1---8"),
        entry("row9", "3----8---"),
    ]
}

#[test]
fn grid_has_nine_by_nine_cells() {
    assert_eq!((CELL_SIZE, CELL_ROW, CELL_COL, CELL_COUNT), (9, 9, 9, 81));
}

#[test]
fn text_contains_finds_parts() {
    assert!(text_contains("easy one", "one"));
    assert!(text_contains("easy one", "easy"));
    assert!(text_contains("easy one", "sy o"));
    assert!(text_contains("easy one", ""));
    assert!(text_contains("", ""));
    assert!(text_contains("abc", "abc"));
    assert!(!text_contains("abc", "abcd"));
    assert!(!text_contains("easy one", "eao"));
    assert!(!text_contains("", "a"));
    assert!(text_contains("aaab", "aab"));
    assert!(text_contains("grüße", "üß"));
    for (text, part) in [("hard 17", "17"), ("hard 17", "71"), ("xyz", "z"), ("xyz", "zz")] {
        assert_eq!(text_contains(text, part), text.contains(part));
    }
}

#[test]
fn new_application_waits_for_a_puzzle() {
    let app = AppState::new();
    assert_eq!(app.message, "Select a board");
    assert_eq!(app.selected, "");
    assert!(app.board_list.is_empty());
    assert!(app.autoselect_list.is_empty());
    assert_eq!(app.su_state.get_state(), GameState::Select);
    assert_eq!(app.su_state.counters(), (0, 0, 0));
    assert_eq!(app.get_board_ref().count_solved(), (0, 0));
    assert_eq!(app.get_board_ref().rows[0].cells, vec![0, 1, 2, 3, 4, 5, 6, 7, 8]);
}

#[test]
fn buttons_follow_the_state_of_play() {
    let mut app = AppState::new();
    let expected = [
        (GameState::Select, false, true, true, true),
        (GameState::ManualInput, false, false, false, false),
        (GameState::Stepping, true, false, false, false),
        (GameState::Error, true, false, true, false),
        (GameState::Solved, true, false, true, false),
    ];
    for (state, select_off, back_off, step_off, select_shown) in expected {
        app.su_state.game_state = state;
        assert_eq!(app.isSelectBoardDisabled(), select_off);
        assert_eq!(app.isBackDisabled(), back_off);
        assert_eq!(app.isStepDisabled(), step_off);
        assert_eq!(app.isSelectVisible(), select_shown);
        assert!(app.isSolveDisabled());
        assert!(!app.isSaveDisabled());
    }
    app.load_file(vec!["one".to_string()]);
    app.su_state.game_state = GameState::Select;
    assert!(app.isSaveDisabled());
    app.su_state.game_state = GameState::Stepping;
    assert!(!app.isSaveDisabled());
}

#[test]
fn load_file_lists_every_puzzle() {
    let mut app = AppState::new();
    app.selected = "typed".to_string();
    app.load_file(vec!["easy one".to_string(), "hard one".to_string(), "hard two".to_string()]);
    assert_eq!(app.board_list, vec!["easy one", "hard one", "hard two"]);
    assert_eq!(app.autoselect_list, vec!["easy one", "hard one", "hard two"]);
    assert_eq!(app.selected, "");
    app.load_file(vec!["more".to_string()]);
    assert_eq!(app.board_list, vec!["easy one", "hard one", "hard two", "more"]);
}

#[test]
fn autoselect_keeps_the_names_that_contain_the_text() {
    let mut app = AppState::new();
    app.load_file(vec!["easy one".to_string(), "hard one".to_string(), "hard two".to_string()]);
    app.selected = "hard".to_string();
    app.autoselect();
    assert_eq!(app.autoselect_list, vec!["hard one", "hard two"]);
    app.selected = "one".to_string();
    app.autoselect();
    assert_eq!(app.autoselect_list, vec!["easy one", "hard one"]);
    app.selected = "none".to_string();
    app.autoselect();
    assert!(app.autoselect_list.is_empty());
    assert_eq!(app.board_list.len(), 3);
}

#[test]
fn show_select_goes_back_to_choosing() {
    let mut app = AppState::new();
    app.do_restart();
    app.do_step();
    app.show_select();
    assert_eq!(app.su_state.get_state(), GameState::Select);
    assert_eq!(app.su_state.counters(), (1, 0, 0));
    assert_eq!(app.message, "Select a board ..");
}

#[test]
fn do_step_shows_how_the_session_stands() {
    let mut app = AppState::new();
    app.do_restart();
    assert_eq!(app.su_state.get_state(), GameState::ManualInput);
    assert_eq!(app.message, "Select a board");
    app.do_step();
    assert_eq!(app.message, "Stepping..");
    assert_eq!(app.su_state.counters(), (1, 0, 0));

    let mut bad = AppState::new();
    for (c, v) in [5, 5, 1, 2, 3, 4, 6, 7, 8].iter().enumerate() {
        bad.su_board.init_cell(0, c, *v);
    }
    bad.do_step();
    assert_eq!(bad.message, "ERROR");
    assert_eq!(bad.su_state.get_state(), GameState::Error);

    let mut solved = AppState::new();
    for r in 0..9 {
        for c in 0..9 {
            solved.su_board.init_cell(r, c, (3 * (r % 3) + r / 3 + c) % 9 + 1);
        }
    }
    solved.do_step();
    assert_eq!(solved.message, "RESOLVED!!");
    assert_eq!(solved.su_state.counters(), (1, 81, 81));
}

#[test]
fn do_step_back_undoes_do_step() {
    let mut app = AppState::new();
    app.select_board(&example_rows());
    app.su_state.do_count(&app.su_board);
    let before: Vec<CellState> = app.su_board.allcells.cells.iter().map(|s| s.get_state()).collect();
    app.do_step();
    assert_eq!(app.su_state.counters(), (1, 23, 24));
    app.do_step_back();
    let after: Vec<CellState> = app.su_board.allcells.cells.iter().map(|s| s.get_state()).collect();
    assert_eq!(after, before);
    assert_eq!(app.su_state.counters(), (0, 23, 23));
    assert_eq!(app.message, "Stepping..");
}

#[test]
fn do_restart_empties_the_board() {
    let mut app = AppState::new();
    app.select_board(&example_rows());
    app.do_step();
    app.do_restart();
    assert_eq!(app.su_state.counters(), (0, 0, 0));
    assert_eq!(app.su_state.get_state(), GameState::ManualInput);
    assert_eq!(app.su_board.count_solved(), (0, 0));
    assert_eq!(app.message, "Stepping..");
}

#[test]
fn select_board_loads_the_rows() {
    let mut app = AppState::new();
    let mut rows = example_rows();
    rows.insert(3, entry("comment", "not a row"));
    rows.swap(0, 8);
    assert!(entries_can_be_loaded(&rows));
    app.select_board(&rows);
    assert_eq!(app.message, "Rightclick for manual select");
    assert_eq!(app.su_board.count_solved(), (23, 23));
    assert_eq!(app.su_state.counters(), (0, 0, 0));
    assert_eq!(
        app.su_board.show(),
        " - - - | - - - | - - -\n - 7 - | - - - | - 9 -\n 5 - - | 9 - - | - - 2\n-------|-------|---------\n - - - | 1 - 6 | 4 - -\n 4 6 1 | - - - | - - -\n - - - | - - 5 | - - 6\n-------|-------|---------\n - 8 6 | - 4 - | 3 - -\n 9 - 2 | - 1 - | - - 8\n 3 - - | - - 8 | - - -\n"
    );
    assert_eq!(app.su_board.cell_display(8, 0), CellState::Solved(0b100, CellActor::StartValue));
    assert!(app.su_board.allcells.cells[0].cell.stack.is_empty());
}

#[test]
fn select_board_reads_nine_characters_of_a_row() {
    let mut app = AppState::new();
    app.select_board(&vec![entry("row5 and more", "1-3-5-7-9 the rest is not read")]);
    assert_eq!(app.su_board.count_solved(), (5, 5));
    assert_eq!(app.su_board.cell_display(4, 0), CellState::Solved(0b1, CellActor::StartValue));
    assert_eq!(app.su_board.cell_display(4, 8), CellState::Solved(0x100, CellActor::StartValue));
    assert_eq!(app.su_board.cell_display(4, 1), CellState::UnSolved(0x1FF));
}

#[test]
fn entries_are_checked_before_loading() {
    assert!(key_names_row("row1"));
    assert!(key_names_row("row"));
    assert!(key_names_row("rowdy"));
    assert!(!key_names_row("ro"));
    assert!(!key_names_row("Row1"));
    assert!(!key_names_row("arow1"));
    assert!(entry_can_be_loaded("row1", "123456789"));
    assert!(entry_can_be_loaded("row9", "---------"));
    assert!(entry_can_be_loaded("name", ""));
    assert!(entry_can_be_loaded("row3", "1-3-5-7-9x"));
    assert!(!entry_can_be_loaded("row", "123456789"));
    assert!(!entry_can_be_loaded("row0", "123456789"));
    assert!(!entry_can_be_loaded("rowa", "123456789"));
    assert!(!entry_can_be_loaded("row1", "12345678"));
    assert!(!entry_can_be_loaded("row1", "123456780"));
    assert!(!entry_can_be_loaded("row1", "12345678a"));
    assert!(!entry_can_be_loaded("row1", "1234 6789"));
    assert!(entries_can_be_loaded(&example_rows()));
    assert!(entries_can_be_loaded(&vec![]));
    let mut rows = example_rows();
    rows.push(entry("row4", "12345"));
    assert!(!entries_can_be_loaded(&rows));
    for (c, d) in [('1', 1), ('5', 5), ('9', 9), ('0', 0), ('a', 0), ('-', 0)] {
        assert_eq!(digit_of_char(c), d);
    }
}

#[test]
fn save_text_writes_the_rows() {
    let mut app = AppState::new();
    app.select_board(&example_rows());
    app.selected = "my puzzle".to_string();
    assert_eq!(
        app.save_text(),
        "\n;Added by Rust Sudoku.\n[my puzzle]\nRow: 1=---------\nRow: 2=-7-----9-\nRow: 3=5--9----2\nRow: 4=---1-64--\nRow: 5=461------\nRow: 6=-----5--6\nRow: 7=-86-4-3--\nRow: 8=9-2-1---8\nRow: 9=3----8---\n;xxx\n"
    );
}

#[test]
fn menu_offers_the_candidates_of_an_open_cell() {
    let open = CellState::UnSolved(0b1_0000_0101);
    let offered: Vec<usize> = (1..=9).filter(|v| evaluate_cellstate(&open, *v)).collect();
    assert_eq!(offered, vec![1, 3, 9]);
    for v in 1..=9 {
        assert!(!evaluate_cellstate(&CellState::Solved(1 << (v - 1), CellActor::StartValue), v));
        assert!(!evaluate_cellstate(&CellState::Error, v));
        assert!(evaluate_cellstate(&CellState::UnSolved(0x1FF), v));
    }
}

#[test]
fn cell_label_shows_digit_candidates_or_error() {
    assert_eq!(cell_label(CellState::Solved(0b1000, CellActor::Resolved)), "4");
    assert_eq!(cell_label(CellState::Error), "Error");
    assert_eq!(
        cell_label(CellState::UnSolved(0x1FF)),
        "1 2 3                \n4 5 6                \n7 8 9 "
    );
    assert_eq!(
        cell_label(CellState::UnSolved(0b1_0000_0101)),
        "1   3                \n                     \n    9 "
    );
}

#[test]
fn try_step_steps_only_with_a_puzzle_in_play() {
    for state in [GameState::Select, GameState::Error, GameState::Solved] {
        let mut app = AppState::new();
        app.select_board(&example_rows());
        app.su_state.game_state = state;
        assert!(!app.try_step());
        assert_eq!(app.su_state.counters(), (0, 0, 0));
        assert_eq!(app.su_state.get_state(), state);
        assert_eq!(app.su_board.count_solved(), (23, 23));
        assert!(app.su_board.allcells.cells[0].cell.stack.is_empty());
        assert_eq!(app.message, "Rightclick for manual select");
    }
    for state in [GameState::ManualInput, GameState::Stepping] {
        let mut app = AppState::new();
        app.select_board(&example_rows());
        app.su_state.game_state = state;
        assert!(app.try_step());
        assert_eq!(app.su_state.counters(), (1, 23, 24));
        assert_eq!(app.su_state.get_state(), GameState::Stepping);
        assert_eq!(app.message, "Stepping..");
    }
}

#[test]
fn try_step_back_needs_a_puzzle_chosen() {
    let mut app = AppState::new();
    app.select_board(&example_rows());
    assert_eq!(app.su_state.get_state(), GameState::Select);
    assert!(!app.try_step_back());
    assert!(app.su_board.allcells.cells[0].cell.stack.is_empty());
    assert_eq!(app.message, "Rightclick for manual select");
    app.do_step();
    assert!(app.try_step_back());
    assert_eq!(app.su_state.counters(), (0, 23, 23));
    assert_eq!(app.message, "Stepping..");
}

#[test]
fn try_select_board_reports_an_unknown_name() {
    let puzzles = vec![
        ("easy".to_string(), vec![entry("row1", "123456789")]),
        ("broken".to_string(), vec![entry("row1", "12345678")]),
        ("easy".to_string(), vec![entry("row2", "987654321")]),
    ];
    let mut app = AppState::new();
    app.selected = "hard".to_string();
    assert!(!app.try_select_board(&puzzles));
    assert_eq!(app.su_board.count_solved(), (0, 0));
    assert!(app.su_board.allcells.cells[0].cell.stack.is_empty());
    assert_eq!(app.message, "Select a board");
    app.selected = "broken".to_string();
    assert!(!app.try_select_board(&puzzles));
    assert_eq!(app.su_board.count_solved(), (0, 0));
    app.selected = "easy".to_string();
    assert!(app.try_select_board(&puzzles));
    assert_eq!(app.su_board.count_solved(), (9, 9));
    assert_eq!(app.su_board.cell_display(0, 0), CellState::Solved(0b1, CellActor::StartValue));
    assert_eq!(app.su_board.cell_display(1, 0), CellState::UnSolved(0x1FF));
    assert_eq!(app.message, "Rightclick for manual select");
    assert!(!AppState::new().try_select_board(&vec![]));
}
