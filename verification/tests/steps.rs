use sudoku3x3::reduction::reduce_square;
use sudoku3x3::sudoku_board::{CellActor, CellState, SudokuBoard};
use sudoku3x3::sudoku_state::{GameState, SudokuState};

fn wired_board() -> SudokuBoard {
    let mut board = SudokuBoard::new();
    board.wire();
    board
}

fn solution_digit(r: usize, c: usize) -> usize {
    (3 * (r % 3) + r / 3 + c) % 9 + 1
}

fn states(board: &SudokuBoard) -> Vec<CellState> {
    board.allcells.cells.iter().map(|slot| slot.get_state()).collect()
}

fn histories(board: &SudokuBoard) -> Vec<Vec<CellState>> {
    board.allcells.cells.iter().map(|slot| slot.cell.stack.clone()).collect()
}

fn assert_no_repeats(board: &SudokuBoard) {
    for group in board.all_logic_squares() {
        let mut seen = 0usize;
        for index in group {
            if let CellState::Solved(mask, _) = board.allcells.cells[*index].get_state() {
                assert_eq!(mask.count_ones(), 1);
                assert_eq!(seen & mask, 0, "a digit is resolved twice in one group");
                seen |= mask;
            }
        }
    }
}

fn puzzle_with_33_givens() -> SudokuBoard {
    let mut board = wired_board();
    for r in 0..9 {
        for c in 0..9 {
            if (r * 7 + c * 3) % 5 <= 1 {
                board.init_cell(r, c, solution_digit(r, c));
            }
        }
    }
    board
}

#[test]
fn new_session_waits_for_a_puzzle() {
    let state = SudokuState::new();
    assert_eq!(state.counters(), (0, 0, 0));
    assert_eq!(state.get_state(), GameState::Select);
    assert_eq!(state.get_step_count(), 0);
    assert_eq!(state.get_init_count(), 0);
    assert_eq!(state.get_curr_count(), 0);
}

#[test]
fn reset_zeroes_the_counters_and_opens_manual_input() {
    let mut board = wired_board();
    board.init();
    let mut state = SudokuState::new();
    state.resolve_step(&mut board);
    state.resolve_step(&mut board);
    assert_eq!(state.counters(), (2, 23, 24));
    state.reset(&mut board);
    assert_eq!(state.counters(), (0, 0, 0));
    assert_eq!(state.get_state(), GameState::ManualInput);
    assert_eq!(board.count_solved(), (0, 0));
    for i in 0..81 {
        assert_eq!(board.allcells.cells[i].get_state(), CellState::UnSolved(0x1FF));
        assert!(board.allcells.cells[i].cell.stack.is_empty());
    }
    state.reset(&mut board);
    assert_eq!(state.counters(), (0, 0, 0));
    assert_eq!(state.get_state(), GameState::ManualInput);
}

#[test]
fn reset_recovers_from_an_error() {
    let mut board = wired_board();
    for (c, v) in [5, 5, 1, 2, 3, 4, 6, 7, 8].iter().enumerate() {
        board.init_cell(0, c, *v);
    }
    let mut state = SudokuState::new();
    assert_eq!(state.resolve_step(&mut board), GameState::Error);
    state.reset(&mut board);
    assert_eq!(state.counters(), (0, 0, 0));
    assert_eq!(state.get_state(), GameState::ManualInput);
    assert_eq!(state.resolve_step(&mut board), GameState::Stepping);
}

#[test]
fn select_changes_only_the_state_of_play() {
    let mut board = wired_board();
    board.init();
    let mut state = SudokuState::new();
    state.resolve_step(&mut board);
    state.select();
    assert_eq!(state.get_state(), GameState::Select);
    assert_eq!(state.counters(), (1, 23, 24));
}

#[test]
fn do_count_counts_givens_and_resolved_cells() {
    let mut board = wired_board();
    board.init();
    let mut state = SudokuState::new();
    state.do_count(&board);
    assert_eq!(state.counters(), (0, 23, 23));
    assert_eq!(state.get_state(), GameState::Select);
    board.allcells.cells[0].set_solved_value(0b1);
    state.do_count(&board);
    assert_eq!(state.counters(), (0, 23, 24));
}

#[test]
fn step_on_an_empty_grid_finds_nothing() {
    let mut board = wired_board();
    let mut state = SudokuState::new();
    state.reset(&mut board);
    assert_eq!(state.resolve_step(&mut board), GameState::Stepping);
    assert_eq!(state.counters(), (1, 0, 0));
    assert_eq!(state.get_state(), GameState::Stepping);
    for r in 0..9 {
        for c in 0..9 {
            assert_eq!(board.cell_display(r, c), CellState::UnSolved(0x1FF));
        }
    }
}

#[test]
fn example_puzzle_never_loses_a_resolved_cell() {
    let mut board = wired_board();
    let mut state = SudokuState::new();
    state.reset(&mut board);
    board.init();
    state.do_count(&board);
    assert_eq!(state.counters(), (0, 23, 23));
    let mut last = state.get_curr_count();
    let expected = [24, 24, 24, 24, 24, 24];
    for (i, count) in expected.iter().enumerate() {
        let before = states(&board);
        assert_eq!(state.resolve_step(&mut board), GameState::Stepping);
        assert_eq!(state.counters(), (i + 1, 23, *count));
        assert!(state.get_curr_count() >= last);
        last = state.get_curr_count();
        for (old, new) in before.iter().zip(states(&board).iter()) {
            if let CellState::Solved(_, _) = old {
                assert_eq!(old, new);
            }
        }
        assert_no_repeats(&board);
    }
    assert_eq!(board.cell_display(5, 3), CellState::Solved(1 << 3, CellActor::Resolved));
}

#[test]
fn steps_solve_a_puzzle_with_33_givens() {
    let mut board = puzzle_with_33_givens();
    let mut state = SudokuState::new();
    state.do_count(&board);
    assert_eq!(state.counters(), (0, 33, 33));
    assert_eq!(state.resolve_step(&mut board), GameState::Stepping);
    assert_eq!(state.counters(), (1, 33, 49));
    assert_no_repeats(&board);
    assert_eq!(state.resolve_step(&mut board), GameState::Stepping);
    assert_eq!(state.counters(), (2, 33, 74));
    assert_no_repeats(&board);
    assert_eq!(state.resolve_step(&mut board), GameState::Solved);
    assert_eq!(state.counters(), (3, 33, 81));
    assert_no_repeats(&board);
    for r in 0..9 {
        for c in 0..9 {
            let actor = if (r * 7 + c * 3) % 5 <= 1 {
                CellActor::StartValue
            } else {
                CellActor::Resolved
            };
            assert_eq!(
                board.cell_display(r, c),
                CellState::Solved(1 << (solution_digit(r, c) - 1), actor)
            );
        }
    }
}

#[test]
fn step_on_a_solved_grid_changes_no_cell() {
    let mut board = wired_board();
    for r in 0..9 {
        for c in 0..9 {
            board.init_cell(r, c, solution_digit(r, c));
        }
    }
    let mut state = SudokuState::new();
    state.do_count(&board);
    assert_eq!(state.counters(), (0, 81, 81));
    let before = states(&board);
    assert_eq!(state.resolve_step(&mut board), GameState::Solved);
    assert_eq!(state.counters(), (1, 81, 81));
    assert_eq!(states(&board), before);
    assert_eq!(state.resolve_step(&mut board), GameState::Solved);
    assert_eq!(state.counters(), (2, 81, 81));
    assert_eq!(states(&board), before);
}

#[test]
fn step_on_a_solved_grid_with_a_repeat_stays_solved() {
    let mut board = wired_board();
    for r in 0..9 {
        for c in 0..9 {
            board.init_cell(r, c, solution_digit(r, c));
        }
    }
    board.init_cell(0, 0, 2);
    let before = states(&board);
    let mut state = SudokuState::new();
    assert_eq!(state.resolve_step(&mut board), GameState::Solved);
    assert_eq!(state.counters(), (1, 81, 81));
    assert_eq!(states(&board), before);
}

#[test]
fn step_back_restores_cells_and_counters() {
    let mut board = puzzle_with_33_givens();
    let mut state = SudokuState::new();
    state.do_count(&board);
    let cells0 = states(&board);
    let stacks0 = histories(&board);
    let counters0 = state.counters();
    state.resolve_step(&mut board);
    let cells1 = states(&board);
    let stacks1 = histories(&board);
    let counters1 = state.counters();
    assert_ne!(cells1, cells0);
    state.resolve_step(&mut board);
    assert_eq!(state.counters(), (2, 33, 74));
    state.step_back(&mut board);
    assert_eq!(states(&board), cells1);
    assert_eq!(histories(&board), stacks1);
    assert_eq!(state.counters(), counters1);
    assert_eq!(state.get_state(), GameState::Stepping);
    state.step_back(&mut board);
    assert_eq!(states(&board), cells0);
    assert_eq!(histories(&board), stacks0);
    assert_eq!(state.counters(), counters0);
    assert_eq!(state.get_state(), GameState::Stepping);
}

#[test]
fn three_steps_and_three_steps_back() {
    let mut board = puzzle_with_33_givens();
    let mut state = SudokuState::new();
    state.do_count(&board);
    let cells0 = states(&board);
    let stacks0 = histories(&board);
    for _ in 0..3 {
        state.resolve_step(&mut board);
    }
    assert_eq!(state.get_state(), GameState::Solved);
    for _ in 0..3 {
        state.step_back(&mut board);
    }
    assert_eq!(states(&board), cells0);
    assert_eq!(histories(&board), stacks0);
    assert_eq!(state.counters(), (0, 33, 33));
    assert_eq!(state.get_state(), GameState::Stepping);
}

#[test]
fn step_back_without_a_step_changes_no_cell_and_no_count() {
    let mut board = wired_board();
    let mut state = SudokuState::new();
    state.reset(&mut board);
    state.step_back(&mut board);
    assert_eq!(state.counters(), (0, 0, 0));
    assert_eq!(state.get_state(), GameState::Stepping);
    assert_eq!(states(&board), vec![CellState::UnSolved(0x1FF); 81]);
    assert_eq!(histories(&board), vec![Vec::<CellState>::new(); 81]);
    board.init_cell(2, 2, 7);
    board.init_cell(3, 3, 8);
    state.step_back(&mut board);
    assert_eq!(state.counters(), (0, 2, 2));
    assert_eq!(state.get_state(), GameState::Stepping);
    state.step_back(&mut board);
    assert_eq!(state.counters(), (0, 2, 2));
    assert_eq!(board.cell_display(2, 2), CellState::Solved(1 << 6, CellActor::StartValue));
    assert_eq!(board.cell_display(3, 3), CellState::Solved(1 << 7, CellActor::StartValue));
}

#[test]
fn step_back_with_no_step_taken_keeps_the_givens() {
    let mut board = wired_board();
    board.init_cell(0, 0, 5);
    board.init_cell(0, 1, 6);
    let mut state = SudokuState::new();
    state.step_back(&mut board);
    state.step_back(&mut board);
    assert_eq!(board.cell_display(0, 0), CellState::Solved(0x010, CellActor::StartValue));
    assert_eq!(board.cell_display(0, 1), CellState::Solved(0x020, CellActor::StartValue));
    assert_eq!(board.count_solved(), (2, 2));
    assert_eq!(state.counters(), (0, 2, 2));
    assert_eq!(state.get_step_count(), 0);
}

#[test]
fn step_back_after_the_first_step_returns_to_the_givens() {
    let mut board = wired_board();
    board.init();
    let mut state = SudokuState::new();
    let givens = states(&board);
    assert_eq!(state.resolve_step(&mut board), GameState::Stepping);
    state.step_back(&mut board);
    assert_eq!(states(&board), givens);
    assert_eq!(histories(&board), vec![Vec::<CellState>::new(); 81]);
    assert_eq!(state.counters(), (0, 23, 23));
    state.step_back(&mut board);
    assert_eq!(states(&board), givens);
    assert_eq!(state.counters(), (0, 23, 23));
}

#[test]
fn step_count_stops_at_the_largest_number() {
    let mut board = wired_board();
    let mut state = SudokuState::new();
    state.step_count = usize::MAX - 1;
    state.resolve_step(&mut board);
    assert_eq!(state.get_step_count(), usize::MAX);
    state.resolve_step(&mut board);
    assert_eq!(state.get_step_count(), usize::MAX);
    assert_eq!(histories(&board)[0].len(), 2);
    state.step_back(&mut board);
    assert_eq!(state.get_step_count(), usize::MAX - 1);
}

#[test]
fn step_keeps_the_givens_and_never_lowers_the_count() {
    let mut board = puzzle_with_33_givens();
    let mut state = SudokuState::new();
    let mut last = 33;
    for _ in 0..5 {
        let before = states(&board);
        let result = state.resolve_step(&mut board);
        assert_eq!(result, state.get_state());
        assert_eq!(result == GameState::Solved, state.get_curr_count() == 81);
        assert_eq!(state.get_init_count(), 33);
        assert!(state.get_curr_count() >= last && state.get_curr_count() <= 81);
        assert_eq!((state.get_init_count(), state.get_curr_count()), board.count_solved());
        last = state.get_curr_count();
        for (old, new) in before.iter().zip(states(&board).iter()) {
            if let CellState::Solved(_, _) = old {
                assert_eq!(old, new);
            }
        }
    }
}

#[test]
fn step_back_leaves_a_solved_session_stepping() {
    let mut board = puzzle_with_33_givens();
    let mut state = SudokuState::new();
    for _ in 0..3 {
        state.resolve_step(&mut board);
    }
    assert_eq!(state.get_state(), GameState::Solved);
    state.step_back(&mut board);
    assert_eq!(state.get_state(), GameState::Stepping);
    assert_eq!(state.counters(), (2, 33, 74));
}

#[test]
fn twins_are_removed_from_the_other_cells() {
    let mut board = wired_board();
    assert_eq!(board.allcells.cells[0].reduce(0x1FF & !0b11), Ok(0));
    assert_eq!(board.allcells.cells[1].reduce(0x1FF & !0b11), Ok(0));
    assert_eq!(board.allcells.cells[2].reduce(0x1F0), Ok(0));
    assert_eq!(board.cell_display(0, 2), CellState::UnSolved(0b1111));
    assert_eq!(reduce_square(&mut board.allcells, &board.rows[0]), Ok(0));
    assert_eq!(board.cell_display(0, 0), CellState::UnSolved(0b11));
    assert_eq!(board.cell_display(0, 1), CellState::UnSolved(0b11));
    assert_eq!(board.cell_display(0, 2), CellState::UnSolved(0b1100));
    for c in 3..9 {
        assert_eq!(board.cell_display(0, c), CellState::UnSolved(0x1FC));
    }
    for r in 1..9 {
        for c in 0..9 {
            assert_eq!(board.cell_display(r, c), CellState::UnSolved(0x1FF));
        }
    }
}

#[test]
fn three_cells_with_the_same_pair_are_no_twins() {
    let mut board = wired_board();
    for i in 0..3 {
        assert_eq!(board.allcells.cells[i].reduce(0x1FF & !0b11), Ok(0));
    }
    assert_eq!(reduce_square(&mut board.allcells, &board.rows[0]), Ok(0));
    for c in 3..9 {
        assert_eq!(board.cell_display(0, c), CellState::UnSolved(0x1FF));
    }
}

#[test]
fn two_pairs_of_twins_are_removed_together() {
    let mut board = wired_board();
    let state = SudokuState::new();
    assert_eq!(board.allcells.cells[0].reduce(0x1FF & !0b11), Ok(0));
    assert_eq!(board.allcells.cells[9].reduce(0x1FF & !0b11), Ok(0));
    assert_eq!(board.allcells.cells[18].reduce(0x1FF & !0b1100), Ok(0));
    assert_eq!(board.allcells.cells[27].reduce(0x1FF & !0b1100), Ok(0));
    assert_eq!(state.reduce_square(&mut board.allcells, &board.cols[0]), Ok(0));
    assert_eq!(board.cell_display(0, 0), CellState::UnSolved(0b11));
    assert_eq!(board.cell_display(2, 0), CellState::UnSolved(0b1100));
    for r in 4..9 {
        assert_eq!(board.cell_display(r, 0), CellState::UnSolved(0x1F0));
    }
}

#[test]
fn singles_are_removed_from_the_peers() {
    let mut board = wired_board();
    board.init_cell(4, 4, 5);
    assert_eq!(reduce_square(&mut board.allcells, &board.squares[4]), Ok(0));
    for r in 3..6 {
        for c in 3..6 {
            if (r, c) != (4, 4) {
                assert_eq!(board.cell_display(r, c), CellState::UnSolved(0x1FF & !0b1_0000));
            }
        }
    }
    assert_eq!(board.cell_display(4, 4), CellState::Solved(0b1_0000, CellActor::StartValue));
    assert_eq!(board.cell_display(0, 0), CellState::UnSolved(0x1FF));
}

#[test]
fn a_naked_single_is_resolved_by_deduction() {
    let mut board = wired_board();
    for (c, v) in [1, 2, 3, 4, 5, 6, 7, 8].iter().enumerate() {
        board.init_cell(0, c, *v);
    }
    assert_eq!(reduce_square(&mut board.allcells, &board.rows[0]), Ok(0));
    assert_eq!(board.cell_display(0, 8), CellState::Solved(0x100, CellActor::Resolved));
}

#[test]
fn a_hidden_single_is_placed() {
    let mut board = wired_board();
    for c in 1..9 {
        assert_eq!(board.allcells.cells[c].reduce(0b1), Ok(0));
    }
    assert_eq!(board.cell_display(0, 0), CellState::UnSolved(0x1FF));
    assert_eq!(reduce_square(&mut board.allcells, &board.rows[0]), Ok(0));
    assert_eq!(board.cell_display(0, 0), CellState::Solved(0b1, CellActor::Resolved));
    for c in 1..9 {
        assert_eq!(board.cell_display(0, c), CellState::UnSolved(0x1FE));
    }
}

#[test]
fn a_digit_without_a_position_fails_the_pass() {
    let mut board = wired_board();
    for c in 0..9 {
        assert_eq!(board.allcells.cells[c].reduce(0b100), Ok(0));
    }
    assert_eq!(
        reduce_square(&mut board.allcells, &board.rows[0]),
        Err("For value 3 no positions anymore".to_string())
    );
}

#[test]
fn a_cell_in_error_fails_the_pass() {
    let mut board = wired_board();
    assert!(board.allcells.cells[13].reduce(0x1FF).is_err());
    board.init_cell(1, 0, 6);
    assert_eq!(
        reduce_square(&mut board.allcells, &board.rows[1]),
        Err("Cell in Error state".to_string())
    );
    assert_eq!(board.cell_display(1, 4), CellState::Error);
    assert_eq!(board.cell_display(1, 1), CellState::UnSolved(0x1FF & !0b10_0000));
    assert_eq!(board.cell_display(1, 5), CellState::UnSolved(0x1FF));
}

#[test]
fn a_digit_given_twice_in_a_row_ends_in_error() {
    let mut board = wired_board();
    let mut state = SudokuState::new();
    state.reset(&mut board);
    let givens = [5, 5, 1, 2, 3, 4, 6, 7, 8];
    for (c, v) in givens.iter().enumerate() {
        board.init_cell(0, c, *v);
    }
    assert_eq!(state.resolve_step(&mut board), GameState::Error);
    assert_eq!(state.get_state(), GameState::Error);
    assert_eq!(state.counters(), (1, 9, 9));
    for (c, v) in givens.iter().enumerate() {
        assert_eq!(
            board.cell_display(0, c),
            CellState::Solved(1 << (*v - 1), CellActor::StartValue)
        );
    }
    assert_eq!(board.cell_display(1, 0), CellState::UnSolved(0x1FF & !0b1_0001));
    assert_eq!(board.cell_display(8, 8), CellState::UnSolved(0x1FF & !0b1000_0000));
}

#[test]
fn a_contradiction_in_an_early_group_is_not_forgotten() {
    let mut board = wired_board();
    let mut state = SudokuState::new();
    for c in 0..9 {
        assert_eq!(board.allcells.cells[c].reduce(0b100), Ok(0));
    }
    assert_eq!(state.resolve_step(&mut board), GameState::Error);
    assert_eq!(state.counters(), (1, 0, 0));
}

#[test]
fn a_step_sees_in_columns_what_it_found_in_rows() {
    let mut board = wired_board();
    for (c, v) in [1, 2, 3, 4, 5, 6, 7, 8].iter().enumerate() {
        board.init_cell(0, c, *v);
    }
    let mut state = SudokuState::new();
    assert_eq!(state.resolve_step(&mut board), GameState::Stepping);
    assert_eq!(board.cell_display(0, 8), CellState::Solved(0x100, CellActor::Resolved));
    assert_eq!(board.cell_display(5, 8), CellState::UnSolved(0x0FF));
    assert_eq!(board.cell_display(1, 7), CellState::UnSolved(0x1FF & !0x1C0));
    assert_eq!(state.counters(), (1, 8, 9));
}

#[test]
fn without_a_solution_a_digit_can_be_resolved_twice_before_the_error_shows() {
    let mut board = wired_board();
    for (r, v) in [1, 2, 3, 4, 6, 8, 9].iter().enumerate() {
        board.init_cell(r + 1, 0, *v);
    }
    board.init_cell(0, 1, 5);
    board.init_cell(0, 2, 7);
    let mut state = SudokuState::new();
    assert_eq!(state.resolve_step(&mut board), GameState::Stepping);
    assert_eq!(state.counters(), (1, 9, 11));
    assert_eq!(board.cell_display(0, 0), CellState::Solved(0x100, CellActor::Resolved));
    assert_eq!(board.cell_display(7, 0), CellState::Solved(0x100, CellActor::StartValue));
    assert_eq!(board.cell_display(8, 0), CellState::Solved(0b1_0000, CellActor::Resolved));
    assert_eq!(state.resolve_step(&mut board), GameState::Error);
    assert_eq!(state.counters(), (2, 9, 11));
}
