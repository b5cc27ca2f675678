use sudoku3x3::masks::{count_candidates, first_digit, mask_of_digit, CELL_RESET_MASK};
use sudoku3x3::sudoku_board::{CellActor, CellState, RcSudokuCell, SudokuCell};
use sudoku3x3::text::{binary_string, digit_str, position_string};

#[test]
fn masks_count_and_find_digits() {
    assert_eq!(CELL_RESET_MASK, 0x1FF);
    assert_eq!(count_candidates(0), 0);
    assert_eq!(count_candidates(0x1FF), 9);
    assert_eq!(count_candidates(0b1_0010_0100), 3);
    assert_eq!(count_candidates(0x200), 0);
    assert_eq!(first_digit(0), 0);
    assert_eq!(first_digit(0b1_0010_0100), 3);
    assert_eq!(first_digit(0x100), 9);
    for d in 1..=9usize {
        assert_eq!(mask_of_digit(d), 1 << (d - 1));
        assert_eq!(first_digit(mask_of_digit(d)), d);
        assert_eq!(count_candidates(mask_of_digit(d)), 1);
    }
}

#[test]
fn text_of_digits_masks_and_positions() {
    assert_eq!(digit_str(1), "1");
    assert_eq!(digit_str(9), "9");
    assert_eq!(digit_str(0), "0");
    assert_eq!(binary_string(0, 9), "000000000");
    assert_eq!(binary_string(0b101, 9), "000000101");
    assert_eq!(binary_string(0x1FF, 9), "111111111");
    assert_eq!(binary_string(0x3FF, 9), "1111111111");
    assert_eq!(binary_string(5, 0), "101");
    assert_eq!(binary_string(0, 0), "0");
    assert_eq!(binary_string(0b101, 9), format!("{:09b}", 0b101));
    assert_eq!(position_string(1, 9), "(1, 9)");
    assert_eq!(position_string(4, 2), format!("{:?}", (4, 2)));
}

#[test]
fn new_cell_is_open_to_all_digits() {
    let cell = SudokuCell::new(3, 5);
    assert_eq!(cell.value, CellState::UnSolved(0x1FF));
    assert_eq!((cell.row, cell.col, cell.idx), (3, 5, 32));
    assert!(cell.stack.is_empty());
    assert_eq!(cell.get_pos(), (4, 6));
    assert_eq!(cell.get_value(), "-");
    assert_eq!(cell.as_string(), "-");
    assert_eq!(cell.get_resolved_mask(), 0);
    assert_eq!(cell.get_unresolved_mask(), 0x1FF);
    assert_eq!(cell.count_solved(), (0, 0));
}

#[test]
fn set_init_value_fixes_a_given() {
    for v in 1..=9usize {
        let mut cell = SudokuCell::new(0, 0);
        cell.set_init_value(v);
        assert_eq!(cell.value, CellState::Solved(1 << (v - 1), CellActor::StartValue));
        assert_eq!(cell.get_value(), v.to_string());
        assert_eq!(cell.as_string(), v.to_string());
        assert_eq!(cell.get_resolved_mask(), 1 << (v - 1));
        assert_eq!(cell.get_unresolved_mask(), 1 << (v - 1));
        assert_eq!(cell.count_solved(), (1, 1));
    }
}

#[test]
fn reduce_removes_candidates() {
    let mut cell = SudokuCell::new(0, 0);
    assert_eq!(cell.reduce(0b1), Ok(0));
    assert_eq!(cell.value, CellState::UnSolved(0x1FE));
    assert_eq!(cell.reduce(0), Ok(0));
    assert_eq!(cell.value, CellState::UnSolved(0x1FE));
    assert_eq!(cell.reduce(0b0_1111_0001), Ok(0));
    assert_eq!(cell.value, CellState::UnSolved(0b1_0000_1110));
    assert_eq!(cell.count_solved(), (0, 0));
}

#[test]
fn reduce_resolves_when_one_candidate_is_left() {
    let mut cell = SudokuCell::new(2, 2);
    assert_eq!(cell.reduce(0x1FF & !0b1000), Ok(0));
    assert_eq!(cell.value, CellState::Solved(0b1000, CellActor::Resolved));
    assert_eq!(cell.get_value(), "4");
    assert_eq!(cell.count_solved(), (0, 1));
    assert_eq!(cell.reduce(0b1000), Ok(0));
    assert_eq!(cell.value, CellState::Solved(0b1000, CellActor::Resolved));
    assert_eq!(cell.reduce(0x1FF), Ok(0));
    assert_eq!(cell.value, CellState::Solved(0b1000, CellActor::Resolved));
}

#[test]
fn reduce_keeps_narrowed_candidates_that_lie_within_the_mask() {
    let mut cell = SudokuCell::new(0, 0);
    assert_eq!(cell.reduce(0x1FF & !0b11), Ok(0));
    assert_eq!(cell.value, CellState::UnSolved(0b11));
    assert_eq!(cell.reduce(0b11), Ok(0));
    assert_eq!(cell.value, CellState::UnSolved(0b11));
    assert_eq!(cell.reduce(0b111), Ok(0));
    assert_eq!(cell.value, CellState::UnSolved(0b11));
    assert_eq!(cell.reduce(0b10), Ok(0));
    assert_eq!(cell.value, CellState::Solved(0b01, CellActor::Resolved));
}

#[test]
fn reduce_reports_a_cell_without_candidates() {
    let mut cell = SudokuCell::new(1, 7);
    assert_eq!(
        cell.reduce(0x1FF),
        Err("Error: in reduce zero bits left for (2, 8)  incoming mask 111111111".to_string())
    );
    assert_eq!(cell.value, CellState::Error);
    assert_eq!(cell.get_value(), "-");
    assert_eq!(cell.get_resolved_mask(), 0);
    assert_eq!(cell.get_unresolved_mask(), 0x1FF);
    assert_eq!(cell.count_solved(), (0, 0));
    assert_eq!(cell.reduce(0), Err("Cell in Error state".to_string()));
    assert_eq!(cell.value, CellState::Error);
    assert!(!cell.set_solved_value(0b1));
    assert_eq!(cell.value, CellState::Error);
}

#[test]
fn reduce_reports_the_incoming_mask_in_binary() {
    let mut cell = SudokuCell::new(8, 0);
    assert_eq!(
        cell.reduce(0x7FF),
        Err("Error: in reduce zero bits left for (9, 1)  incoming mask 11111111111".to_string())
    );
}

#[test]
fn set_solved_value_needs_the_digit_among_the_candidates() {
    let mut cell = SudokuCell::new(0, 0);
    assert_eq!(cell.reduce(0b1), Ok(0));
    assert!(!cell.set_solved_value(0b1));
    assert_eq!(cell.value, CellState::UnSolved(0x1FE));
    assert!(cell.set_solved_value(0b100));
    assert_eq!(cell.value, CellState::Solved(0b100, CellActor::Resolved));
    assert!(!cell.set_solved_value(0b100));
    assert!(!cell.set_solved_value(0b10));
    assert_eq!(cell.value, CellState::Solved(0b100, CellActor::Resolved));
}

#[test]
fn push_and_pop_walk_the_history() {
    let mut cell = SudokuCell::new(0, 0);
    cell.pop();
    assert_eq!(cell.value, CellState::UnSolved(0x1FF));
    cell.push();
    assert_eq!(cell.reduce(0b1), Ok(0));
    cell.push();
    cell.set_init_value(5);
    assert_eq!(cell.stack, vec![CellState::UnSolved(0x1FF), CellState::UnSolved(0x1FE)]);
    cell.pop();
    assert_eq!(cell.value, CellState::UnSolved(0x1FE));
    cell.pop();
    assert_eq!(cell.value, CellState::UnSolved(0x1FF));
    assert!(cell.stack.is_empty());
    cell.pop();
    assert_eq!(cell.value, CellState::UnSolved(0x1FF));
}

#[test]
fn reset_opens_the_cell_and_forgets() {
    let mut cell = SudokuCell::new(6, 6);
    cell.push();
    cell.set_init_value(2);
    cell.push();
    cell.reset();
    assert_eq!(cell.value, CellState::UnSolved(0x1FF));
    assert!(cell.stack.is_empty());
    assert_eq!((cell.row, cell.col, cell.idx), (6, 6, 60));
}

#[test]
fn guessed_values_count_as_resolved_but_not_as_givens() {
    let mut cell = SudokuCell::new(0, 0);
    cell.value = CellState::Solved(0b10, CellActor::Guessed(3));
    assert_eq!(cell.count_solved(), (0, 1));
    assert_eq!(cell.get_value(), "2");
}

#[test]
fn slot_passes_every_operation_on_to_its_cell() {
    let mut slot = RcSudokuCell::new(SudokuCell::new(4, 8));
    assert_eq!(slot.get_pos(), (5, 9));
    assert_eq!(slot.get_state(), CellState::UnSolved(0x1FF));
    assert_eq!(slot.get_value(), "-");
    slot.push();
    assert_eq!(slot.reduce(0b1_1111_0000), Ok(0));
    assert_eq!(slot.get_state(), CellState::UnSolved(0b1111));
    assert_eq!(slot.get_unresolved_mask(), 0b1111);
    assert_eq!(slot.get_resolved_mask(), 0);
    assert!(slot.set_solved_value(0b10));
    assert_eq!(slot.get_state(), CellState::Solved(0b10, CellActor::Resolved));
    assert_eq!(slot.get_resolved_mask(), 0b10);
    assert_eq!(slot.as_string(), "2");
    assert_eq!(slot.count_solved(), (0, 1));
    slot.pop();
    assert_eq!(slot.get_state(), CellState::UnSolved(0x1FF));
    slot.set_init_value(9);
    assert_eq!(slot.get_state(), CellState::Solved(0x100, CellActor::StartValue));
    assert_eq!(slot.count_solved(), (1, 1));
    slot.reset();
    assert_eq!(slot.get_state(), CellState::UnSolved(0x1FF));
    assert_eq!(
        slot.reduce(0x1FF),
        Err("Error: in reduce zero bits left for (5, 9)  incoming mask 111111111".to_string())
    );
    assert_eq!(slot.get_state(), CellState::Error);
}

#[test]
fn reduce_resolves_an_open_cell_with_one_candidate() {
    let mut cell = SudokuCell::new(0, 0);
    cell.value = CellState::UnSolved(0b100);
    assert_eq!(cell.reduce(0), Ok(0));
    assert_eq!(cell.value, CellState::Solved(0b100, CellActor::Resolved));
    let mut other = SudokuCell::new(0, 1);
    other.value = CellState::UnSolved(0b100);
    assert_eq!(other.reduce(0b100), Ok(0));
    assert_eq!(other.value, CellState::UnSolved(0b100));
    let mut slot = RcSudokuCell::new(SudokuCell::new(0, 2));
    slot.cell.value = CellState::UnSolved(0b10);
    assert_eq!(slot.reduce(0b1), Ok(0));
    assert_eq!(slot.get_state(), CellState::Solved(0b10, CellActor::Resolved));
}
