//! What holds of a pass, of a step and of a step back, whatever the grid.
use crate::masks::{
    candidate_count, digit_mask, is_digit_mask, lemma_digit_mask_by_count, lemma_digit_mask_count,
    lemma_empty_and_full, lemma_lowest_digit, lemma_single_candidate, lowest_digit,
};
use crate::reduction::{
    eliminate, group_in_grid, group_pass, lemma_grid_group_in_grid, place_hidden, position_mask,
    remove_twins, stepped, sweep,
};
use crate::sudoku_board::{
    cells_well_formed, cleared_cells, grid_group, lemma_counts_bounded, lemma_reduced_well_formed,
    resolved_count,
    restored, snapshot, start_count, with_given, CellActor, CellModel, CellState,
};
use crate::sudoku_state::{GameState, SudokuState};
use crate::text::digit_char;
use crate::twins::twin_mask;
use vstd::prelude::*;

verus! {

/// The row, the column and the block of cell `i`, as numbers of groups of
/// the grid, each with the position that the cell has in it.
pub open spec fn groups_of_cell(i: int) -> Seq<(int, int)> {
    seq![
        (i / 9, i % 9),
        (9 + i % 9, i / 9),
        (18 + (i / 27) * 3 + (i % 9) / 3, ((i / 9) % 3) * 3 + i % 3),
    ]
}

/// Every cell belongs to exactly three groups, its row, its column and its
/// block, and stands at one position in each.
pub proof fn lemma_cell_is_in_three_groups(i: int)
    requires
        0 <= i < 81,
    ensures
        forall|n: int|
            0 <= n < 3 ==> 0 <= (#[trigger] groups_of_cell(i)[n]).0 < 27 && 0 <= groups_of_cell(
                i,
            )[n].1 < 9 && grid_group(groups_of_cell(i)[n].0)[groups_of_cell(i)[n].1] == i,
        forall|g: int, k: int|
            0 <= g < 27 && 0 <= k < 9 && #[trigger] grid_group(g)[k] == i ==> (g, k)
                == groups_of_cell(i)[0] || (g, k) == groups_of_cell(i)[1] || (g, k)
                == groups_of_cell(i)[2],
{
    let row = i / 9;
    let col = i % 9;
    assert(i == row * 9 + col);
    assert(0 <= row / 3 <= 2 && 0 <= col / 3 <= 2);
    assert(i / 27 == row / 3);
    assert(row == (row / 3) * 3 + row % 3);
    assert(col == (col / 3) * 3 + col % 3);
    let b = (i / 27) * 3 + col / 3;
    let p = (row % 3) * 3 + col % 3;
    assert(b / 3 == row / 3 && b % 3 == col / 3);
    assert(p / 3 == row % 3 && p % 3 == col % 3);
    assert(grid_group(18 + b)[p] == i);
    assert forall|g: int, k: int|
        0 <= g < 27 && 0 <= k < 9 && #[trigger] grid_group(g)[k] == i implies (g, k)
        == groups_of_cell(i)[0] || (g, k) == groups_of_cell(i)[1] || (g, k) == groups_of_cell(
        i,
    )[2] by {
        if g >= 18 {
            let c = g - 18;
            assert(0 <= c / 3 <= 2 && 0 <= c % 3 <= 2);
            assert(0 <= k / 3 <= 2 && 0 <= k % 3 <= 2);
            assert(c == (c / 3) * 3 + c % 3);
            assert(k == (k / 3) * 3 + k % 3);
            assert(row == (c / 3) * 3 + k / 3);
            assert(col == (c % 3) * 3 + k % 3);
        }
    }
}

/// Whether `after` can come from `before` by deduction: the same number of
/// cells, every history as it was, every resolved cell resolved as it was,
/// and no given but those that were.
pub open spec fn advances(before: Seq<CellModel>, after: Seq<CellModel>) -> bool {
    &&& after.len() == before.len()
    &&& forall|i: int|
        0 <= i < before.len() ==> (#[trigger] after[i]).history == before[i].history
    &&& forall|i: int|
        0 <= i < before.len() && before[i].value is Solved ==> (#[trigger] after[i]).value
            == before[i].value
    &&& forall|i: int|
        0 <= i < before.len() ==> (#[trigger] after[i]).value.is_start()
            == before[i].value.is_start()
}

/// Giving one cell another state keeps the grid an advance, as long as a
/// resolved cell keeps its state.
proof fn lemma_update_advances(
    before: Seq<CellModel>,
    mid: Seq<CellModel>,
    i: int,
    value: CellState,
)
    requires
        advances(before, mid),
        0 <= i < mid.len(),
        mid[i].value is Solved ==> value == mid[i].value,
        value.is_start() == mid[i].value.is_start(),
    ensures
        advances(before, mid.update(i, mid[i].with_value(value))),
{
    let after = mid.update(i, mid[i].with_value(value));
    assert forall|j: int| 0 <= j < before.len() implies (#[trigger] after[j]).history
        == before[j].history && (before[j].value is Solved ==> after[j].value
        == before[j].value) && after[j].value.is_start() == before[j].value.is_start() by {
        assert(mid[j].history == before[j].history);
        assert(before[j].value is Solved ==> mid[j].value == before[j].value);
        assert(mid[j].value.is_start() == before[j].value.is_start());
    }
}

/// The elimination of singles leaves histories and resolved cells alone.
pub proof fn lemma_eliminate_advances(cells: Seq<CellModel>, group: Seq<usize>, n: nat)
    requires
        cells.len() == 81,
        group_in_grid(group),
        n <= 81,
    ensures
        advances(cells, eliminate(cells, group, n).cells),
    decreases n,
{
    if n > 0 {
        lemma_eliminate_advances(cells, group, (n - 1) as nat);
        let before = eliminate(cells, group, (n - 1) as nat);
        let this = (n - 1) / 9;
        let other = (n - 1) % 9;
        if before.failure is None && this != other {
            let i = group[this] as int;
            let mask = before.cells[group[other] as int].value.resolved_mask();
            lemma_update_advances(cells, before.cells, i, before.cells[i].value.reduced(mask));
        }
    }
}

/// The placing of hidden singles leaves histories and resolved cells alone.
pub proof fn lemma_place_hidden_advances(survey: Seq<CellModel>, group: Seq<usize>, n: nat)
    requires
        survey.len() == 81,
        group_in_grid(group),
        n <= 9,
    ensures
        advances(survey, place_hidden(survey, group, n).cells),
    decreases n,
{
    if n > 0 {
        lemma_place_hidden_advances(survey, group, (n - 1) as nat);
        let before = place_hidden(survey, group, (n - 1) as nat);
        let places = position_mask(survey, group, n as int, 9);
        if before.failure is None && candidate_count(places) == 1 {
            lemma_lowest_digit(places);
            let i = group[lowest_digit(places) - 1] as int;
            lemma_update_advances(
                survey,
                before.cells,
                i,
                before.cells[i].value.with_solved_value(digit_mask(n as int)),
            );
        }
    }
}

/// The removal of twins leaves histories and resolved cells alone.
pub proof fn lemma_remove_twins_advances(
    cells: Seq<CellModel>,
    group: Seq<usize>,
    mask: usize,
    n: nat,
)
    requires
        cells.len() == 81,
        group_in_grid(group),
        n <= 9,
    ensures
        advances(cells, remove_twins(cells, group, mask, n)),
    decreases n,
{
    if n > 0 {
        lemma_remove_twins_advances(cells, group, mask, (n - 1) as nat);
        let before = remove_twins(cells, group, mask, (n - 1) as nat);
        let i = group[n - 1] as int;
        lemma_update_advances(cells, before, i, before[i].value.reduced(mask));
    }
}

/// Advancing twice is advancing.
proof fn lemma_advances_twice(a: Seq<CellModel>, b: Seq<CellModel>, c: Seq<CellModel>)
    requires
        advances(a, b),
        advances(b, c),
    ensures
        advances(a, c),
{
    assert forall|i: int| 0 <= i < a.len() implies (#[trigger] c[i]).history == a[i].history && (
    a[i].value is Solved ==> c[i].value == a[i].value) && c[i].value.is_start()
        == a[i].value.is_start() by {
        assert(b[i].history == a[i].history);
        assert(a[i].value is Solved ==> b[i].value == a[i].value);
        assert(b[i].value.is_start() == a[i].value.is_start());
        assert(c[i].value.is_start() == b[i].value.is_start());
    }
}

/// A pass over a group leaves histories and resolved cells alone.
pub proof fn lemma_group_pass_advances(cells: Seq<CellModel>, group: Seq<usize>)
    requires
        cells.len() == 81,
        group_in_grid(group),
    ensures
        advances(cells, group_pass(cells, group).cells),
{
    let singles = eliminate(cells, group, 81);
    lemma_eliminate_advances(cells, group, 81);
    let hidden = place_hidden(singles.cells, group, 9);
    lemma_place_hidden_advances(singles.cells, group, 9);
    lemma_advances_twice(cells, singles.cells, hidden.cells);
    let twins = twin_mask(hidden.cells, group, 9);
    lemma_remove_twins_advances(hidden.cells, group, twins, 9);
    lemma_advances_twice(cells, hidden.cells, remove_twins(hidden.cells, group, twins, 9));
}

/// The passes over the first `n` groups leave histories and resolved cells
/// alone.
pub proof fn lemma_sweep_advances(cells: Seq<CellModel>, n: nat)
    requires
        cells.len() == 81,
        n <= 27,
    ensures
        advances(cells, sweep(cells, n).cells),
    decreases n,
{
    if n > 0 {
        lemma_sweep_advances(cells, (n - 1) as nat);
        lemma_grid_group_in_grid(n - 1);
        let before = sweep(cells, (n - 1) as nat).cells;
        lemma_group_pass_advances(before, grid_group(n - 1));
        lemma_advances_twice(cells, before, group_pass(before, grid_group(n - 1)).cells);
    }
}

/// A step never takes a value back: a cell that is resolved before a step is
/// resolved to the same digit, by the same actor, after it.
pub proof fn lemma_step_keeps_resolved_cells(cells: Seq<CellModel>)
    requires
        cells.len() == 81,
    ensures
        stepped(cells).len() == cells.len(),
        forall|i: int|
            0 <= i < cells.len() && cells[i].value is Solved ==> (#[trigger] stepped(
                cells,
            )[i]).value == cells[i].value,
{
    lemma_sweep_advances(snapshot(cells), 27);
}

/// Where every resolved cell of `before` is resolved the same way in
/// `after`, `after` has at least as many givens and at least as many
/// resolved cells among its first `n`.
pub proof fn lemma_counts_grow(before: Seq<CellModel>, after: Seq<CellModel>, n: int)
    requires
        0 <= n <= before.len(),
        after.len() == before.len(),
        forall|i: int|
            0 <= i < before.len() && before[i].value is Solved ==> (#[trigger] after[i]).value
                == before[i].value,
    ensures
        start_count(before, n) <= start_count(after, n),
        resolved_count(before, n) <= resolved_count(after, n),
    decreases n,
{
    if n > 0 {
        lemma_counts_grow(before, after, n - 1);
        assert(before[n - 1].value is Solved ==> after[n - 1].value == before[n - 1].value);
    }
}

/// A step never lowers the number of resolved cells, which is 81 at most,
/// and leaves the number of givens as it is.
pub proof fn lemma_step_never_lowers_counts(cells: Seq<CellModel>)
    requires
        cells.len() == 81,
    ensures
        resolved_count(cells, 81) <= resolved_count(stepped(cells), 81) <= 81,
        start_count(cells, 81) == start_count(stepped(cells), 81),
{
    lemma_step_keeps_resolved_cells(cells);
    lemma_counts_grow(cells, stepped(cells), 81);
    lemma_counts_bounded(stepped(cells), 81);
    lemma_step_keeps_givens(cells);
}

/// Where the same cells are givens in `before` and in `after`, both have the
/// same number of givens among their first `n`.
proof fn lemma_same_givens_same_count(before: Seq<CellModel>, after: Seq<CellModel>, n: int)
    requires
        0 <= n <= before.len(),
        after.len() == before.len(),
        forall|i: int|
            0 <= i < before.len() ==> (#[trigger] after[i]).value.is_start()
                == before[i].value.is_start(),
    ensures
        start_count(before, n) == start_count(after, n),
    decreases n,
{
    if n > 0 {
        lemma_same_givens_same_count(before, after, n - 1);
        assert(after[n - 1].value.is_start() == before[n - 1].value.is_start());
    }
}

/// A step makes no cell a given and takes no given away: the givens after a
/// step are the givens from before it, and so is their number.
pub proof fn lemma_step_keeps_givens(cells: Seq<CellModel>)
    requires
        cells.len() == 81,
    ensures
        forall|i: int|
            0 <= i < 81 ==> (#[trigger] stepped(cells)[i]).value.is_start()
                == cells[i].value.is_start(),
        start_count(stepped(cells), 81) == start_count(cells, 81),
{
    lemma_sweep_advances(snapshot(cells), 27);
    assert forall|i: int| 0 <= i < 81 implies (#[trigger] stepped(cells)[i]).value.is_start()
        == cells[i].value.is_start() by {
        assert(snapshot(cells)[i].value == cells[i].value);
    }
    lemma_same_givens_same_count(cells, stepped(cells), 81);
}

/// Where all of the first `n` cells are resolved, `n` is their count.
proof fn lemma_all_resolved_count(cells: Seq<CellModel>, n: int)
    requires
        0 <= n <= cells.len(),
        forall|i: int| 0 <= i < n ==> (#[trigger] cells[i]).value is Solved,
    ensures
        resolved_count(cells, n) == n,
    decreases n,
{
    if n > 0 {
        lemma_all_resolved_count(cells, n - 1);
        assert(cells[n - 1].value is Solved);
    }
}

/// A step on a grid in which all 81 cells are resolved changes the value of
/// no cell; the count of resolved cells stays at 81 and the session is
/// solved.
pub proof fn lemma_step_on_solved_grid(session: SudokuState, cells: Seq<CellModel>)
    requires
        cells.len() == 81,
        forall|i: int| 0 <= i < 81 ==> (#[trigger] cells[i]).value is Solved,
    ensures
        forall|i: int| 0 <= i < 81 ==> (#[trigger] stepped(cells)[i]).value == cells[i].value,
        resolved_count(stepped(cells), 81) == 81,
        session.after_step(cells).curr_count == 81,
        session.after_step(cells).game_state == GameState::Solved,
{
    lemma_step_keeps_resolved_cells(cells);
    assert forall|i: int| 0 <= i < 81 implies (#[trigger] stepped(cells)[i]).value is Solved by {
        assert(cells[i].value is Solved);
    }
    lemma_all_resolved_count(stepped(cells), 81);
}

/// A step back undoes a step: the cells, values and histories alike, are
/// those from before the step.
pub proof fn lemma_step_back_undoes_step(cells: Seq<CellModel>)
    requires
        cells.len() == 81,
    ensures
        restored(stepped(cells)) == cells,
{
    lemma_sweep_advances(snapshot(cells), 27);
    let after = restored(stepped(cells));
    assert forall|i: int| 0 <= i < cells.len() implies after[i] == cells[i] by {
        assert(stepped(cells)[i].history == snapshot(cells)[i].history);
        assert(cells[i].history.push(cells[i].value).drop_last() =~= cells[i].history);
    }
    assert(after =~= cells);
}

/// The cells after `n` steps in a row.
pub open spec fn stepped_times(cells: Seq<CellModel>, n: nat) -> Seq<CellModel>
    decreases n,
{
    if n == 0 {
        cells
    } else {
        stepped(stepped_times(cells, (n - 1) as nat))
    }
}

/// The cells after `n` steps back in a row.
pub open spec fn restored_times(cells: Seq<CellModel>, n: nat) -> Seq<CellModel>
    decreases n,
{
    if n == 0 {
        cells
    } else {
        restored_times(restored(cells), (n - 1) as nat)
    }
}

/// As many steps back as steps were taken undo them all: the cells, values
/// and histories alike, are those from before the first step.
pub proof fn lemma_steps_back_undo_steps(cells: Seq<CellModel>, n: nat)
    requires
        cells.len() == 81,
    ensures
        stepped_times(cells, n).len() == 81,
        restored_times(stepped_times(cells, n), n) == cells,
    decreases n,
{
    if n > 0 {
        let inner = stepped_times(cells, (n - 1) as nat);
        lemma_steps_back_undo_steps(cells, (n - 1) as nat);
        lemma_step_keeps_resolved_cells(inner);
        lemma_step_back_undoes_step(inner);
    }
}

/// A step and a step back leave the counters as they were: the steps
/// counted, unless the count stood at the largest number it can hold, and,
/// where the session's counts were those of the grid before the step, the
/// givens and the resolved cells.
pub proof fn lemma_step_back_restores_counters(session: SudokuState, cells: Seq<CellModel>)
    requires
        cells.len() == 81,
    ensures
        session.step_count < usize::MAX ==> session.after_step(cells).after_step_back(
            stepped(cells),
        ).step_count == session.step_count,
        session.counts(cells) ==> session.after_step(cells).after_step_back(stepped(cells)).counts(
            cells,
        ),
        session.counts(cells) ==> session.after_step(cells).after_step_back(
            stepped(cells),
        ).init_count == session.init_count && session.after_step(cells).after_step_back(
            stepped(cells),
        ).curr_count == session.curr_count,
{
    lemma_step_back_undoes_step(cells);
}

/// The session after `n` steps in a row from `cells`.
pub open spec fn session_after_steps(
    session: SudokuState,
    cells: Seq<CellModel>,
    n: nat,
) -> SudokuState
    decreases n,
{
    if n == 0 {
        session
    } else {
        session_after_steps(session, cells, (n - 1) as nat).after_step(
            stepped_times(cells, (n - 1) as nat),
        )
    }
}

/// The session after `n` steps back in a row from `cells`.
pub open spec fn session_after_steps_back(
    session: SudokuState,
    cells: Seq<CellModel>,
    n: nat,
) -> SudokuState
    decreases n,
{
    if n == 0 {
        session
    } else {
        session_after_steps_back(session.after_step_back(cells), restored(cells), (n - 1) as nat)
    }
}

/// Steps count up by one each.
proof fn lemma_steps_count_up(session: SudokuState, cells: Seq<CellModel>, n: nat)
    requires
        session.step_count + n <= usize::MAX,
    ensures
        session_after_steps(session, cells, n).step_count == session.step_count + n,
    decreases n,
{
    if n > 0 {
        lemma_steps_count_up(session, cells, (n - 1) as nat);
    }
}

/// Steps back count down by one each, and leave the counts of the grid they
/// arrive at.
proof fn lemma_steps_back_count_down(session: SudokuState, cells: Seq<CellModel>, n: nat)
    ensures
        n <= session.step_count ==> session_after_steps_back(session, cells, n).step_count
            == session.step_count - n,
        n > 0 ==> session_after_steps_back(session, cells, n).counts(restored_times(cells, n)),
    decreases n,
{
    if n > 0 {
        let next = session.after_step_back(cells);
        lemma_steps_back_count_down(next, restored(cells), (n - 1) as nat);
        if n == 1 {
            lemma_counts_bounded(restored(cells), 81);
            assert(session_after_steps_back(next, restored(cells), 0) == next);
            assert(restored_times(restored(cells), 0) == restored(cells));
        }
    }
}

/// As many steps back as steps were taken leave the counters as they were
/// before the first step: the steps counted, unless the count reached the
/// largest number it can hold, and, where the session's counts were those of
/// the grid then, the givens and the resolved cells.
pub proof fn lemma_steps_back_restore_counters(
    session: SudokuState,
    cells: Seq<CellModel>,
    n: nat,
)
    requires
        cells.len() == 81,
    ensures
        session.step_count + n <= usize::MAX ==> session_after_steps_back(
            session_after_steps(session, cells, n),
            stepped_times(cells, n),
            n,
        ).step_count == session.step_count,
        session.counts(cells) ==> session_after_steps_back(
            session_after_steps(session, cells, n),
            stepped_times(cells, n),
            n,
        ).counts(cells),
{
    if session.step_count + n <= usize::MAX {
        lemma_steps_count_up(session, cells, n);
    }
    lemma_steps_back_count_down(
        session_after_steps(session, cells, n),
        stepped_times(cells, n),
        n,
    );
    lemma_steps_back_undo_steps(cells, n);
}

/// A given reads back as it was set: after the cell at row `r`, column `c`
/// has been fixed to digit `v`, it is resolved to `v` as a given and prints
/// as `v`.
pub proof fn lemma_given_reads_back(cells: Seq<CellModel>, r: int, c: int, v: int)
    requires
        cells.len() == 81,
        0 <= r < 9,
        0 <= c < 9,
        1 <= v <= 9,
    ensures
        with_given(cells, r, c, v)[r * 9 + c].value matches CellState::Solved(mask, actor)
            && lowest_digit(mask) == v && actor == CellActor::StartValue,
        with_given(cells, r, c, v)[r * 9 + c].value.text() == seq![digit_char(v)],
{
    lemma_digit_mask_count(v);
}

/// Giving one cell of a well-formed grid a well-formed state leaves the grid
/// well formed.
proof fn lemma_update_well_formed(cells: Seq<CellModel>, i: int, value: CellState)
    requires
        cells_well_formed(cells),
        0 <= i < 81,
        value.well_formed(),
    ensures
        cells_well_formed(cells.update(i, cells[i].with_value(value))),
{
    let after = cells.update(i, cells[i].with_value(value));
    assert forall|j: int| 0 <= j < 81 implies (#[trigger] after[j]).well_formed() by {
        assert(cells[j].well_formed());
    }
}

/// The elimination of singles leaves a well-formed grid well formed.
pub proof fn lemma_eliminate_well_formed(cells: Seq<CellModel>, group: Seq<usize>, n: nat)
    requires
        cells_well_formed(cells),
        group_in_grid(group),
        n <= 81,
    ensures
        cells_well_formed(eliminate(cells, group, n).cells),
    decreases n,
{
    if n > 0 {
        lemma_eliminate_well_formed(cells, group, (n - 1) as nat);
        let before = eliminate(cells, group, (n - 1) as nat);
        let this = (n - 1) / 9;
        let other = (n - 1) % 9;
        if before.failure is None && this != other {
            let i = group[this] as int;
            let mask = before.cells[group[other] as int].value.resolved_mask();
            assert(before.cells[i].well_formed());
            lemma_reduced_well_formed(before.cells[i].value, mask);
            lemma_update_well_formed(before.cells, i, before.cells[i].value.reduced(mask));
        }
    }
}

/// The placing of hidden singles leaves a well-formed grid well formed.
pub proof fn lemma_place_hidden_well_formed(survey: Seq<CellModel>, group: Seq<usize>, n: nat)
    requires
        cells_well_formed(survey),
        group_in_grid(group),
        n <= 9,
    ensures
        cells_well_formed(place_hidden(survey, group, n).cells),
    decreases n,
{
    if n > 0 {
        lemma_place_hidden_well_formed(survey, group, (n - 1) as nat);
        let before = place_hidden(survey, group, (n - 1) as nat);
        let places = position_mask(survey, group, n as int, 9);
        if before.failure is None && candidate_count(places) == 1 {
            lemma_lowest_digit(places);
            let i = group[lowest_digit(places) - 1] as int;
            assert(before.cells[i].well_formed());
            assert(is_digit_mask(digit_mask(n as int)));
            lemma_update_well_formed(
                before.cells,
                i,
                before.cells[i].value.with_solved_value(digit_mask(n as int)),
            );
        }
    }
}

/// The removal of twins leaves a well-formed grid well formed.
pub proof fn lemma_remove_twins_well_formed(
    cells: Seq<CellModel>,
    group: Seq<usize>,
    mask: usize,
    n: nat,
)
    requires
        cells_well_formed(cells),
        group_in_grid(group),
        n <= 9,
    ensures
        cells_well_formed(remove_twins(cells, group, mask, n)),
    decreases n,
{
    if n > 0 {
        lemma_remove_twins_well_formed(cells, group, mask, (n - 1) as nat);
        let before = remove_twins(cells, group, mask, (n - 1) as nat);
        let i = group[n - 1] as int;
        assert(before[i].well_formed());
        lemma_reduced_well_formed(before[i].value, mask);
        lemma_update_well_formed(before, i, before[i].value.reduced(mask));
    }
}

/// A pass over a group leaves a well-formed grid well formed, whether or not
/// it meets a contradiction.
pub proof fn lemma_group_pass_well_formed(cells: Seq<CellModel>, group: Seq<usize>)
    requires
        cells_well_formed(cells),
        group_in_grid(group),
    ensures
        cells_well_formed(group_pass(cells, group).cells),
{
    lemma_eliminate_well_formed(cells, group, 81);
    let singles = eliminate(cells, group, 81);
    lemma_place_hidden_well_formed(singles.cells, group, 9);
    let hidden = place_hidden(singles.cells, group, 9);
    lemma_remove_twins_well_formed(hidden.cells, group, twin_mask(hidden.cells, group, 9), 9);
}

/// The passes over the first `n` groups leave a well-formed grid well
/// formed.
pub proof fn lemma_sweep_well_formed(cells: Seq<CellModel>, n: nat)
    requires
        cells_well_formed(cells),
        n <= 27,
    ensures
        cells_well_formed(sweep(cells, n).cells),
    decreases n,
{
    if n > 0 {
        lemma_sweep_well_formed(cells, (n - 1) as nat);
        lemma_grid_group_in_grid(n - 1);
        lemma_group_pass_well_formed(sweep(cells, (n - 1) as nat).cells, grid_group(n - 1));
    }
}

/// Whether a resolved cell's mask has exactly one digit as its member. A cell
/// that is not resolved passes.
pub open spec fn holds_one_digit_if_resolved(value: CellState) -> bool {
    value matches CellState::Solved(mask, _) ==> candidate_count(mask) == 1 && mask == digit_mask(
        lowest_digit(mask),
    )
}

/// In a well-formed grid every resolved cell holds exactly one digit, and
/// every move leaves a well-formed grid well formed: a step, whether or not
/// it meets a contradiction, a step back, the setting of a given, and the
/// reset to the empty grid.
pub proof fn lemma_moves_keep_cells_well_formed(cells: Seq<CellModel>, r: int, c: int, v: int)
    requires
        cells_well_formed(cells),
        0 <= r < 9,
        0 <= c < 9,
        1 <= v <= 9,
    ensures
        forall|i: int| 0 <= i < 81 ==> holds_one_digit_if_resolved((#[trigger] cells[i]).value),
        cells_well_formed(stepped(cells)),
        cells_well_formed(restored(cells)),
        cells_well_formed(with_given(cells, r, c, v)),
        cells_well_formed(cleared_cells()),
{
    assert forall|i: int| 0 <= i < 81 implies holds_one_digit_if_resolved(
        (#[trigger] cells[i]).value,
    ) by {
        assert(cells[i].well_formed());
        if let CellState::Solved(mask, _) = cells[i].value {
            lemma_digit_mask_by_count(mask);
            lemma_lowest_digit(mask);
            lemma_single_candidate(mask, lowest_digit(mask));
        }
    }
    let start = snapshot(cells);
    assert forall|i: int| 0 <= i < 81 implies (#[trigger] start[i]).well_formed() by {
        assert(cells[i].well_formed());
    }
    lemma_sweep_well_formed(start, 27);
    let back = restored(cells);
    assert forall|i: int| 0 <= i < 81 implies (#[trigger] back[i]).well_formed() by {
        assert(cells[i].well_formed());
        if cells[i].history.len() > 0 {
            assert(cells[i].history[cells[i].history.len() - 1].well_formed());
            assert forall|j: int| 0 <= j < back[i].history.len() implies (
            #[trigger] back[i].history[j]).well_formed() by {
                assert(cells[i].history[j].well_formed());
            }
        }
    }
    let given = CellState::Solved(digit_mask(v), CellActor::StartValue);
    assert(is_digit_mask(digit_mask(v)));
    lemma_update_well_formed(cells, r * 9 + c, given);
    lemma_empty_and_full();
    assert forall|i: int| 0 <= i < 81 implies (#[trigger] cleared_cells()[i]).well_formed() by {}
}

} // verus!
