use sudoku3x3::sudoku_board::{
    AllCells, CellActor, CellState, Col, Row, RowColSquare, Square, SudokuBoard,
};

fn example_board() -> SudokuBoard {
    let mut board = SudokuBoard::new();
    board.wire();
    board.init();
    board
}

const EXAMPLE_TEXT: &str = " - - - | - - - | - - -\n - 7 - | - - - | - 9 -\n 5 - - | 9 - - | - - 2\n-------|-------|---------\n - - - | 1 - 6 | 4 - -\n 4 6 1 | - - - | - - -\n - - - | - - 5 | - - 6\n-------|-------|---------\n - 8 6 | - 4 - | 3 - -\n 9 - 2 | - 1 - | - - 8\n 3 - - | - - 8 | - - -\n";

#[test]
fn sudoku_test_get_3x3_board() {
    let mut board = SudokuBoard::new();
    board.wire();
    board.init();
    println!("{}", board.show());
}

#[test]
fn sudoku_test_do_3_steps() {
    let mut board = SudokuBoard::new();
    board.wire();
    board.init();
    println!("{}", board.show());
    for _ in 0..3 {
        board.resolve_step().expect("something wrong");
        println!("{}", board.show());
    }
}

#[test]
fn sudoku_test_check_board() {
    let mut board = SudokuBoard::new();
    board.wire();
    board.init();
    println!("{}", board.check_board());
}

#[test]
fn sudoku_board_test_get_3x3_board() {
    let mut board = SudokuBoard::new();
    board.wire();
    board.init();
    println!("{}", board.show());
}

#[test]
fn sudoku_board_test_do_3_steps() {
    let mut board = SudokuBoard::new();
    board.wire();
    board.init();
    println!("{}", board.show());
    for _ in 0..3 {
        board.resolve_step().expect("something wrong");
        println!("{}", board.show());
    }
}

#[test]
fn sudoku_board_test_check_board() {
    let mut board = SudokuBoard::new();
    board.wire();
    board.init();
    println!("{}", board.check_board());
}

#[test]
fn sudoku_state_test_get_3x3_board() {
    let mut board = SudokuBoard::new();
    board.wire();
    board.init();
    println!("{}", board.show());
}

#[test]
fn sudoku_state_test_do_3_steps() {
    let mut board = SudokuBoard::new();
    board.wire();
    board.init();
    println!("{}", board.show());
    for _ in 0..3 {
        board.resolve_step().expect("something wrong");
        println!("{}", board.show());
    }
}

#[test]
fn sudoku_state_test_check_board() {
    let mut board = SudokuBoard::new();
    board.wire();
    board.init();
    println!("{}", board.check_board());
}

#[test]
fn new_board_is_open_everywhere() {
    let board = SudokuBoard::new();
    assert_eq!(board.allcells.cells.len(), 81);
    for r in 0..9 {
        for c in 0..9 {
            assert_eq!(board.cell_display(r, c), CellState::UnSolved(0x1FF));
        }
    }
    assert_eq!(board.count_solved(), (0, 0));
    assert_eq!(board.rows.len(), 9);
    assert_eq!(board.cols.len(), 9);
    assert_eq!(board.squares.len(), 9);
    assert!(board.rows[0].get_cells().is_empty());
}

#[test]
fn wire_attaches_rows_columns_and_blocks() {
    let mut board = SudokuBoard::new();
    board.wire();
    assert_eq!(board.rows[0].get_cells(), &vec![0, 1, 2, 3, 4, 5, 6, 7, 8]);
    assert_eq!(board.rows[8].get_cells(), &vec![72, 73, 74, 75, 76, 77, 78, 79, 80]);
    assert_eq!(board.cols[0].get_cells(), &vec![0, 9, 18, 27, 36, 45, 54, 63, 72]);
    assert_eq!(board.cols[4].get_cells(), &vec![4, 13, 22, 31, 40, 49, 58, 67, 76]);
    assert_eq!(board.squares[0].get_cells(), &vec![0, 1, 2, 9, 10, 11, 18, 19, 20]);
    assert_eq!(board.squares[4].get_cells(), &vec![30, 31, 32, 39, 40, 41, 48, 49, 50]);
    assert_eq!(board.squares[8].get_cells(), &vec![60, 61, 62, 69, 70, 71, 78, 79, 80]);
}

#[test]
fn every_cell_is_in_one_row_one_column_and_one_block() {
    let mut board = SudokuBoard::new();
    board.wire();
    for index in 0..81usize {
        let in_rows = board.rows.iter().filter(|g| g.get_cells().contains(&index)).count();
        let in_cols = board.cols.iter().filter(|g| g.get_cells().contains(&index)).count();
        let in_squares = board.squares.iter().filter(|g| g.get_cells().contains(&index)).count();
        assert_eq!((in_rows, in_cols, in_squares), (1, 1, 1));
    }
}

#[test]
fn group_labels_count_from_one() {
    let board = SudokuBoard::new();
    assert_eq!(board.rows[0].get_id(), "Row: 1");
    assert_eq!(board.rows[8].get_id(), "Row: 9");
    assert_eq!(board.cols[2].get_id(), "Col: 3");
    assert_eq!(board.squares[5].get_id(), "Square: 6");
    assert_eq!(Row::new(3).get_id(), "Row: 4");
    assert_eq!(Col::new(0).get_id(), "Col: 1");
    assert_eq!(Square::new(8).get_id(), "Square: 9");
}

#[test]
fn groups_wire_by_hand() {
    let all = AllCells::new();
    let mut row = Row::new(2);
    row.wire(2, &all);
    assert_eq!(row.cells, vec![18, 19, 20, 21, 22, 23, 24, 25, 26]);
    let mut col = Col::new(7);
    col.wire(7, &all);
    assert_eq!(col.cells, vec![7, 16, 25, 34, 43, 52, 61, 70, 79]);
    let mut square = Square::new(5);
    square.wire(3, 6, &all);
    assert_eq!(square.cells, vec![33, 34, 35, 42, 43, 44, 51, 52, 53]);
    row.wire(0, &all);
    assert_eq!(row.cells.len(), 18);
    assert_eq!(&row.cells[9..], &[0, 1, 2, 3, 4, 5, 6, 7, 8]);
}

#[test]
fn all_logic_squares_lists_rows_then_columns_then_blocks() {
    let mut board = SudokuBoard::new();
    board.wire();
    let groups = board.all_logic_squares();
    assert_eq!(groups.len(), 27);
    assert_eq!(groups[0], &vec![0, 1, 2, 3, 4, 5, 6, 7, 8]);
    assert_eq!(groups[9], &vec![0, 9, 18, 27, 36, 45, 54, 63, 72]);
    assert_eq!(groups[18], &vec![0, 1, 2, 9, 10, 11, 18, 19, 20]);
    assert_eq!(groups[26], &vec![60, 61, 62, 69, 70, 71, 78, 79, 80]);
}

#[test]
fn init_cell_reads_back_the_same_digit() {
    for v in 1..=9usize {
        let mut board = SudokuBoard::new();
        board.wire();
        board.init_cell(4, 7, v);
        assert_eq!(
            board.cell_display(4, 7),
            CellState::Solved(1 << (v - 1), CellActor::StartValue)
        );
        assert_eq!(board.allcells.cells[4 * 9 + 7].get_value(), v.to_string());
        assert_eq!(board.count_solved(), (1, 1));
        for r in 0..9 {
            for c in 0..9 {
                if (r, c) != (4, 7) {
                    assert_eq!(board.cell_display(r, c), CellState::UnSolved(0x1FF));
                }
            }
        }
    }
}

#[test]
fn init_cell_remembers_nothing() {
    let mut board = SudokuBoard::new();
    board.wire();
    board.init_cell(0, 0, 3);
    board.init_cell(0, 1, 4);
    for i in 0..81 {
        assert!(board.allcells.cells[i].cell.stack.is_empty());
    }
    board.pop();
    assert_eq!(board.cell_display(0, 0), CellState::Solved(0b100, CellActor::StartValue));
    assert_eq!(board.cell_display(0, 1), CellState::Solved(0b1000, CellActor::StartValue));
    assert_eq!(board.count_solved(), (2, 2));
    board.push();
    board.init_cell(0, 1, 5);
    assert_eq!(
        board.allcells.cells[1].cell.stack,
        vec![CellState::Solved(0b1000, CellActor::StartValue)]
    );
    assert_eq!(board.allcells.cells[80].cell.stack, vec![CellState::UnSolved(0x1FF)]);
    board.pop();
    assert_eq!(board.cell_display(0, 1), CellState::Solved(0b1000, CellActor::StartValue));
}

#[test]
fn example_puzzle_has_23_givens() {
    let board = example_board();
    assert_eq!(board.count_solved(), (23, 23));
    assert_eq!(board.cell_display(1, 1), CellState::Solved(1 << 6, CellActor::StartValue));
    assert_eq!(board.cell_display(8, 5), CellState::Solved(1 << 7, CellActor::StartValue));
    assert_eq!(board.cell_display(0, 0), CellState::UnSolved(0x1FF));
    assert!(board.allcells.cells[0].cell.stack.is_empty());
}

#[test]
fn show_prints_the_example_puzzle() {
    let board = example_board();
    assert_eq!(board.show(), EXAMPLE_TEXT);
}

#[test]
fn show_prints_an_empty_board() {
    let mut board = SudokuBoard::new();
    board.wire();
    let line = " - - - | - - - | - - -\n";
    let rule = "-------|-------|---------\n";
    let expected = format!("{0}{0}{0}{1}{0}{0}{0}{1}{0}{0}{0}", line, rule);
    assert_eq!(board.show(), expected);
}

#[test]
fn check_board_lists_every_group() {
    let mut board = SudokuBoard::new();
    board.wire();
    let text = board.check_board();
    let lines: Vec<&str> = text.lines().collect();
    assert_eq!(lines.len(), 36);
    assert_eq!(lines[0], "---------------index 0");
    assert_eq!(
        lines[1],
        " (1, 1) -  (1, 2) -  (1, 3) -  (1, 4) -  (1, 5) -  (1, 6) -  (1, 7) -  (1, 8) -  (1, 9) - "
    );
    assert_eq!(
        lines[2],
        " (1, 1) -  (2, 1) -  (3, 1) -  (4, 1) -  (5, 1) -  (6, 1) -  (7, 1) -  (8, 1) -  (9, 1) - "
    );
    assert_eq!(
        lines[3],
        " (1, 1) -  (1, 2) -  (1, 3) -  (2, 1) -  (2, 2) -  (2, 3) -  (3, 1) -  (3, 2) -  (3, 3) - "
    );
    assert_eq!(lines[32], "---------------index 8");
    assert_eq!(
        lines[35],
        " (7, 7) -  (7, 8) -  (7, 9) -  (8, 7) -  (8, 8) -  (8, 9) -  (9, 7) -  (9, 8) -  (9, 9) - "
    );
    assert!(text.ends_with(" - \n"));
}

#[test]
fn print_layout_of_one_column() {
    let mut board = SudokuBoard::new();
    board.wire();
    assert_eq!(
        board.print_layout(&board.cols[8]),
        " (1, 9) -  (2, 9) -  (3, 9) -  (4, 9) -  (5, 9) -  (6, 9) -  (7, 9) -  (8, 9) -  (9, 9) - \n"
    );
    let unwired = Row::new(0);
    assert_eq!(board.print_layout(&unwired), "\n");
}

#[test]
fn board_reset_opens_every_cell_and_forgets() {
    let mut board = example_board();
    board.resolve_step().expect("no contradiction");
    board.reset();
    assert_eq!(board.count_solved(), (0, 0));
    for i in 0..81 {
        assert_eq!(board.allcells.cells[i].get_state(), CellState::UnSolved(0x1FF));
        assert!(board.allcells.cells[i].cell.stack.is_empty());
    }
    assert_eq!(board.rows[3].get_cells(), &vec![27, 28, 29, 30, 31, 32, 33, 34, 35]);
}

#[test]
fn strict_step_finds_the_first_hidden_single() {
    let mut board = example_board();
    assert_eq!(board.resolve_step(), Ok(0));
    assert_eq!(board.count_solved(), (23, 24));
    assert_eq!(board.cell_display(5, 3), CellState::Solved(1 << 3, CellActor::Resolved));
    assert!(board.allcells.cells[0].cell.stack.is_empty());
}

#[test]
fn strict_step_stops_at_the_first_contradiction() {
    let mut board = SudokuBoard::new();
    board.wire();
    let digits = [5, 5, 1, 2, 3, 4, 6, 7, 8];
    for (c, v) in digits.iter().enumerate() {
        board.init_cell(0, c, *v);
    }
    assert_eq!(board.resolve_step(), Err("For value 9 no positions anymore".to_string()));
    for r in 1..9 {
        for c in 0..9 {
            assert_eq!(board.cell_display(r, c), CellState::UnSolved(0x1FF));
        }
    }
}

#[test]
fn is_wired_tells_a_board_that_can_be_played_on() {
    let mut board = SudokuBoard::new();
    assert!(!board.is_wired());
    board.wire();
    assert!(board.is_wired());
    board.init();
    assert!(board.is_wired());
    let mut twice = board.clone();
    twice.wire();
    assert!(!twice.is_wired());
    let mut swapped = board.clone();
    swapped.cols[2].cells.swap(0, 1);
    assert!(!swapped.is_wired());
    let mut wrong_block = board.clone();
    wrong_block.squares[4].cells[8] = 51;
    assert!(!wrong_block.is_wired());
    let mut bad_mask = board.clone();
    bad_mask.allcells.cells[5].cell.value = CellState::Solved(0b11, CellActor::Resolved);
    assert!(!bad_mask.is_wired());
    let mut bad_history = board.clone();
    bad_history.allcells.cells[5].cell.stack.push(CellState::UnSolved(0));
    assert!(!bad_history.is_wired());
    let mut misplaced = board.clone();
    misplaced.allcells.cells.swap(3, 4);
    assert!(!misplaced.is_wired());
    let mut short = board.clone();
    short.allcells.cells.pop();
    assert!(!short.is_wired());
    assert!(board.is_wired());
}

#[test]
fn states_are_well_formed_with_one_digit_or_some_candidates() {
    assert!(CellState::Error.is_well_formed());
    assert!(CellState::UnSolved(0x1FF).is_well_formed());
    assert!(CellState::UnSolved(0b11).is_well_formed());
    assert!(CellState::UnSolved(0b1).is_well_formed());
    assert!(!CellState::UnSolved(0).is_well_formed());
    assert!(!CellState::UnSolved(0x3FF).is_well_formed());
    for d in 0..9 {
        assert!(CellState::Solved(1 << d, CellActor::Resolved).is_well_formed());
    }
    assert!(!CellState::Solved(0, CellActor::StartValue).is_well_formed());
    assert!(!CellState::Solved(0b101, CellActor::StartValue).is_well_formed());
    assert!(!CellState::Solved(0x200, CellActor::Guessed(1)).is_well_formed());
}
