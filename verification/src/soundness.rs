//! Deduction never contradicts a solution.
//!
//! A grid fits a solution when every resolved cell holds the solution's
//! digit and every open cell still has it among its candidates. The lemmas
//! here show that each part of a pass, a pass, a sweep and a step keep a
//! grid fitting the solution it fitted before, and meet no contradiction on
//! the way. Two resolved cells of one group then never hold the same digit.
use crate::laws::stepped_times;
use crate::masks::{
    candidate_count, digit_mask, has_digit, is_digit_mask, lemma_digit_mask_count,
    lemma_digit_masks_disjoint, lemma_empty_and_full, lemma_has_digit_and_not, lemma_has_digit_or,
    lemma_lowest_digit, lemma_mask_bounds, lemma_single_candidate, lowest_digit, mask_within,
};
use crate::reduction::{
    eliminate, group_pass, lemma_grid_group_in_grid, place_hidden, position_mask, remove_twins,
    step_fails, stepped, sweep,
};
use crate::sudoku_board::{
    cells_well_formed, grid_group, lemma_reduced_well_formed, snapshot, CellModel, CellState,
};
use crate::twins::{is_twin, lemma_twin_mask, lemma_twin_partner, mask_in_group, twin_mask};
use vstd::prelude::*;
use vstd::set_lib::{lemma_int_range, lemma_len_subset, set_int_range};

verus! {

/// The digit that `solution` gives to the cell at position `k` of group `g`.
pub open spec fn digit_in_group(solution: Seq<int>, g: int, k: int) -> int {
    solution[grid_group(g)[k] as int]
}

/// Whether `solution` gives each of the 81 cells a digit from 1 to 9 such
/// that no row, column or block holds a digit twice.
pub open spec fn is_solution(solution: Seq<int>) -> bool {
    &&& solution.len() == 81
    &&& forall|i: int| 0 <= i < 81 ==> 1 <= #[trigger] solution[i] <= 9
    &&& forall|g: int, j: int, k: int|
        0 <= g < 27 && 0 <= j < 9 && 0 <= k < 9 && j != k ==> #[trigger] digit_in_group(
            solution,
            g,
            j,
        ) != #[trigger] digit_in_group(solution, g, k)
}

/// Whether a cell in state `value` can hold `digit`: resolved to it, or open
/// with it among the candidates.
pub open spec fn cell_agrees(value: CellState, digit: int) -> bool {
    match value {
        CellState::Solved(mask, _) => mask == digit_mask(digit),
        CellState::UnSolved(mask) => has_digit(mask, digit),
        CellState::Error => false,
    }
}

/// Whether every cell can hold the digit that `solution` gives it.
pub open spec fn agrees(cells: Seq<CellModel>, solution: Seq<int>) -> bool {
    &&& cells.len() == 81
    &&& forall|i: int| 0 <= i < 81 ==> cell_agrees((#[trigger] cells[i]).value, solution[i])
}

/// Whether the grid is well formed and every cell can hold the digit that
/// `solution` gives it.
pub open spec fn fits(cells: Seq<CellModel>, solution: Seq<int>) -> bool {
    cells_well_formed(cells) && agrees(cells, solution)
}

/// The state of the cell at position `k` of group `g`.
pub open spec fn value_in_group(cells: Seq<CellModel>, g: int, k: int) -> CellState {
    cells[grid_group(g)[k] as int].value
}

/// Whether no row, column or block has two cells resolved to the same digit.
pub open spec fn no_repeats(cells: Seq<CellModel>) -> bool {
    forall|g: int, j: int, k: int|
        0 <= g < 27 && 0 <= j < 9 && 0 <= k < 9 && j != k && (#[trigger] value_in_group(
            cells,
            g,
            j,
        )) is Solved && (#[trigger] value_in_group(cells, g, k)) is Solved ==> value_in_group(
            cells,
            g,
            j,
        ).resolved_mask() != value_in_group(cells, g, k).resolved_mask()
}

/// No cell belongs to a group twice.
pub proof fn lemma_grid_group_distinct(g: int, j: int, k: int)
    requires
        0 <= g < 27,
        0 <= j < 9,
        0 <= k < 9,
        j != k,
    ensures
        grid_group(g)[j] != grid_group(g)[k],
{
    if g >= 18 {
        let b = g - 18;
        assert(0 <= b / 3 <= 2 && 0 <= b % 3 <= 2);
        assert(0 <= j / 3 <= 2 && 0 <= j % 3 <= 2);
        assert(0 <= k / 3 <= 2 && 0 <= k % 3 <= 2);
        assert(j == (j / 3) * 3 + j % 3);
        assert(k == (k / 3) * 3 + k % 3);
    }
}

/// In a solution every group holds every digit.
pub proof fn lemma_group_holds_digit(solution: Seq<int>, g: int, d: int) -> (k: int)
    requires
        is_solution(solution),
        0 <= g < 27,
        1 <= d <= 9,
    ensures
        0 <= k < 9,
        digit_in_group(solution, g, k) == d,
{
    lemma_grid_group_in_grid(g);
    let digits = Seq::new(9, |k: int| digit_in_group(solution, g, k));
    if !digits.contains(d) {
        assert forall|j: int, k: int| 0 <= j < 9 && 0 <= k < 9 && j != k implies digits[j]
            != digits[k] by {
            assert(digit_in_group(solution, g, j) != digit_in_group(solution, g, k));
        }
        digits.unique_seq_to_set();
        lemma_int_range(1, 10);
        let others = set_int_range(1, 10).remove(d);
        assert forall|x: int| digits.to_set().contains(x) implies others.contains(x) by {
            let k = choose|k: int| 0 <= k < 9 && digits[k] == x;
            assert(digits[k] == digit_in_group(solution, g, k));
            assert(1 <= solution[grid_group(g)[k] as int] <= 9);
            assert(digits.contains(x));
        }
        lemma_len_subset(digits.to_set(), others);
        assert(false);
    }
    let k = choose|k: int| 0 <= k < 9 && digits[k] == d;
    k
}

/// A grid that fits a solution has no group with a digit resolved twice.
pub proof fn lemma_fitting_grid_has_no_repeats(cells: Seq<CellModel>, solution: Seq<int>)
    requires
        is_solution(solution),
        agrees(cells, solution),
    ensures
        no_repeats(cells),
{
    assert forall|g: int, j: int, k: int|
        0 <= g < 27 && 0 <= j < 9 && 0 <= k < 9 && j != k && (#[trigger] value_in_group(
            cells,
            g,
            j,
        )) is Solved && (#[trigger] value_in_group(cells, g, k)) is Solved implies value_in_group(
        cells,
        g,
        j,
    ).resolved_mask() != value_in_group(cells, g, k).resolved_mask() by {
        lemma_grid_group_in_grid(g);
        let a = grid_group(g)[j] as int;
        let b = grid_group(g)[k] as int;
        assert(cell_agrees(cells[a].value, solution[a]));
        assert(cell_agrees(cells[b].value, solution[b]));
        assert(digit_in_group(solution, g, j) != digit_in_group(solution, g, k));
        lemma_digit_masks_disjoint(solution[a], solution[b]);
        lemma_digit_mask_count(solution[b]);
    }
}

/// Removing digits other than its own from a cell that can hold `digit`
/// leaves a well-formed cell that can hold `digit`, and is no contradiction.
pub proof fn lemma_reduced_fits(value: CellState, other: usize, digit: int)
    requires
        value.well_formed(),
        cell_agrees(value, digit),
        1 <= digit <= 9,
        !has_digit(other, digit),
    ensures
        value.reduced(other).well_formed(),
        cell_agrees(value.reduced(other), digit),
        !value.reduce_fails(other),
{
    lemma_reduced_well_formed(value, other);
    if let CellState::UnSolved(mask) = value {
        if !value.reduce_skips(other) {
            let rest = mask & !other;
            lemma_has_digit_and_not(mask, other, digit);
            lemma_mask_bounds(mask, other);
            assert(has_digit(rest, digit));
            assert(candidate_count(rest) >= 1);
            if candidate_count(rest) == 1 {
                lemma_single_candidate(rest, digit);
            }
        }
    }
}

/// Giving one cell of a fitting grid a state that is well formed and can
/// hold the solution's digit leaves a fitting grid.
proof fn lemma_update_fits(cells: Seq<CellModel>, solution: Seq<int>, i: int, value: CellState)
    requires
        fits(cells, solution),
        0 <= i < 81,
        value.well_formed(),
        cell_agrees(value, solution[i]),
    ensures
        fits(cells.update(i, cells[i].with_value(value)), solution),
{
    let after = cells.update(i, cells[i].with_value(value));
    assert forall|j: int| 0 <= j < 81 implies (#[trigger] after[j]).well_formed() && cell_agrees(
        after[j].value,
        solution[j],
    ) by {
        assert(cells[j].well_formed());
        assert(cell_agrees(cells[j].value, solution[j]));
    }
}

/// The elimination of singles keeps a grid fitting its solution and meets no
/// contradiction.
pub proof fn lemma_eliminate_fits(cells: Seq<CellModel>, solution: Seq<int>, g: int, n: nat)
    requires
        fits(cells, solution),
        is_solution(solution),
        0 <= g < 27,
        n <= 81,
    ensures
        fits(eliminate(cells, grid_group(g), n).cells, solution),
        eliminate(cells, grid_group(g), n).failure is None,
    decreases n,
{
    if n > 0 {
        lemma_eliminate_fits(cells, solution, g, (n - 1) as nat);
        lemma_grid_group_in_grid(g);
        let group = grid_group(g);
        let before = eliminate(cells, group, (n - 1) as nat);
        let this = (n - 1) / 9;
        let other = (n - 1) % 9;
        if this != other {
            let i = group[this] as int;
            let o = group[other] as int;
            let peer = before.cells[o].value;
            let mask = peer.resolved_mask();
            assert(cell_agrees(before.cells[o].value, solution[o]));
            assert(cell_agrees(before.cells[i].value, solution[i]));
            assert(before.cells[i].well_formed());
            assert(digit_in_group(solution, g, other) != digit_in_group(solution, g, this));
            if peer is Solved {
                lemma_digit_masks_disjoint(solution[o], solution[i]);
            } else {
                lemma_empty_and_full();
            }
            lemma_reduced_fits(before.cells[i].value, mask, solution[i]);
            lemma_update_fits(before.cells, solution, i, before.cells[i].value.reduced(mask));
        }
    }
}

/// The members of a position mask are the positions whose cell may hold the
/// digit.
pub proof fn lemma_position_mask(cells: Seq<CellModel>, group: Seq<usize>, digit: int, n: nat)
    requires
        n <= 9,
    ensures
        position_mask(cells, group, digit, n) <= 0x1FF,
        forall|p: int|
            1 <= p <= 9 ==> (#[trigger] has_digit(position_mask(cells, group, digit, n), p) <==> p
                <= n && has_digit(cells[group[p - 1] as int].value.unresolved_mask(), digit)),
    decreases n,
{
    if n == 0 {
        lemma_empty_and_full();
    } else {
        lemma_position_mask(cells, group, digit, (n - 1) as nat);
        let rest = position_mask(cells, group, digit, (n - 1) as nat);
        lemma_mask_bounds(rest, digit_mask(n as int));
        lemma_digit_masks_disjoint(n as int, n as int);
        assert forall|p: int| 1 <= p <= 9 implies (#[trigger] has_digit(
            position_mask(cells, group, digit, n),
            p,
        ) <==> p <= n && has_digit(cells[group[p - 1] as int].value.unresolved_mask(), digit)) by {
            lemma_has_digit_or(rest, digit_mask(n as int), p);
            lemma_digit_masks_disjoint(n as int, p);
            assert(has_digit(rest, p) <==> p <= n - 1 && has_digit(
                cells[group[p - 1] as int].value.unresolved_mask(),
                digit,
            ));
        }
    }
}

/// The placing of hidden singles keeps a grid fitting its solution and meets
/// no contradiction.
pub proof fn lemma_place_hidden_fits(survey: Seq<CellModel>, solution: Seq<int>, g: int, n: nat)
    requires
        fits(survey, solution),
        is_solution(solution),
        0 <= g < 27,
        n <= 9,
    ensures
        fits(place_hidden(survey, grid_group(g), n).cells, solution),
        place_hidden(survey, grid_group(g), n).failure is None,
    decreases n,
{
    if n > 0 {
        lemma_place_hidden_fits(survey, solution, g, (n - 1) as nat);
        lemma_grid_group_in_grid(g);
        let group = grid_group(g);
        let before = place_hidden(survey, group, (n - 1) as nat);
        let places = position_mask(survey, group, n as int, 9);
        lemma_position_mask(survey, group, n as int, 9);
        let k = lemma_group_holds_digit(solution, g, n as int);
        let home = group[k] as int;
        assert(cell_agrees(survey[home].value, solution[home]));
        lemma_digit_mask_count(n as int);
        assert(has_digit(survey[home].value.unresolved_mask(), n as int));
        assert(has_digit(places, k + 1));
        assert(candidate_count(places) >= 1);
        if candidate_count(places) == 1 {
            lemma_lowest_digit(places);
            assert(lowest_digit(places) == k + 1);
            let value = before.cells[home].value;
            assert(cell_agrees(value, solution[home]));
            assert(before.cells[home].well_formed());
            assert(is_digit_mask(digit_mask(n as int)));
            lemma_update_fits(
                before.cells,
                solution,
                home,
                value.with_solved_value(digit_mask(n as int)),
            );
        }
    }
}

/// In a grid that fits a solution, the twin mask does not hold the
/// solution's digit of any cell that the removal of twins would change.
proof fn lemma_twins_spare_solution(
    cells: Seq<CellModel>,
    solution: Seq<int>,
    g: int,
    k: int,
)
    requires
        fits(cells, solution),
        is_solution(solution),
        0 <= g < 27,
        0 <= k < 9,
        !value_in_group(cells, g, k).reduce_skips(twin_mask(cells, grid_group(g), 9)),
    ensures
        !has_digit(twin_mask(cells, grid_group(g), 9), digit_in_group(solution, g, k)),
{
    let group = grid_group(g);
    let twins = twin_mask(cells, group, 9);
    let d = digit_in_group(solution, g, k);
    lemma_grid_group_in_grid(g);
    lemma_twin_mask(cells, group, 9);
    if has_digit(twins, d) {
        let a = choose|a: int|
            0 <= a < 9 && #[trigger] is_twin(cells, group, a) && has_digit(
                mask_in_group(cells, group, a),
                d,
            );
        let b = lemma_twin_partner(cells, group, a);
        let pair = mask_in_group(cells, group, a);
        let da = digit_in_group(solution, g, a);
        let db = digit_in_group(solution, g, b);
        assert(candidate_count(pair) == 2);
        assert(da != db);
        lemma_empty_and_full();
        // Both twins are open cells with exactly the two digits of the pair.
        assert(cells[group[a] as int].well_formed());
        assert(cells[group[b] as int].well_formed());
        assert(cell_agrees(cells[group[a] as int].value, solution[group[a] as int]));
        assert(cell_agrees(cells[group[b] as int].value, solution[group[b] as int]));
        lemma_digit_mask_count(da);
        lemma_digit_mask_count(db);
        assert(cells[group[a] as int].value is UnSolved);
        assert(cells[group[b] as int].value is UnSolved);
        assert(has_digit(pair, da));
        assert(has_digit(pair, db));
        // The pair has no third digit, so the cell is one of the twins.
        assert(d == da || d == db);
        if k != a {
            assert(digit_in_group(solution, g, k) != digit_in_group(solution, g, a));
        }
        if k != b {
            assert(digit_in_group(solution, g, k) != digit_in_group(solution, g, b));
        }
        assert(k == a || k == b);
        assert(mask_in_group(cells, group, k) == pair);
        assert(mask_within(pair, twins));
        assert(false);
    }
}

/// The removal of twins keeps a grid fitting its solution; the cells it has
/// not reached yet are as they were.
pub proof fn lemma_remove_twins_fits(cells: Seq<CellModel>, solution: Seq<int>, g: int, n: nat)
    requires
        fits(cells, solution),
        is_solution(solution),
        0 <= g < 27,
        n <= 9,
    ensures
        fits(
            remove_twins(cells, grid_group(g), twin_mask(cells, grid_group(g), 9), n),
            solution,
        ),
        forall|k: int|
            n <= k < 9 ==> remove_twins(
                cells,
                grid_group(g),
                twin_mask(cells, grid_group(g), 9),
                n,
            )[#[trigger] grid_group(g)[k] as int] == cells[grid_group(g)[k] as int],
    decreases n,
{
    if n > 0 {
        lemma_remove_twins_fits(cells, solution, g, (n - 1) as nat);
        lemma_grid_group_in_grid(g);
        let group = grid_group(g);
        let twins = twin_mask(cells, group, 9);
        let before = remove_twins(cells, group, twins, (n - 1) as nat);
        let i = group[n - 1] as int;
        assert(before[i] == cells[i]);
        let value = cells[i].value;
        assert(cells[i].well_formed());
        assert(cell_agrees(value, solution[i]));
        if !value.reduce_skips(twins) {
            lemma_twins_spare_solution(cells, solution, g, n - 1);
            lemma_reduced_fits(value, twins, solution[i]);
        }
        lemma_update_fits(before, solution, i, value.reduced(twins));
        let after = remove_twins(cells, group, twins, n);
        assert forall|k: int| n <= k < 9 implies after[#[trigger] group[k] as int]
            == cells[group[k] as int] by {
            lemma_grid_group_distinct(g, k, n - 1);
            assert(before[group[k] as int] == cells[group[k] as int]);
        }
    }
}

/// A pass over a group keeps a grid fitting its solution and meets no
/// contradiction.
pub proof fn lemma_group_pass_fits(cells: Seq<CellModel>, solution: Seq<int>, g: int)
    requires
        fits(cells, solution),
        is_solution(solution),
        0 <= g < 27,
    ensures
        fits(group_pass(cells, grid_group(g)).cells, solution),
        group_pass(cells, grid_group(g)).failure is None,
{
    let group = grid_group(g);
    lemma_eliminate_fits(cells, solution, g, 81);
    let singles = eliminate(cells, group, 81);
    lemma_place_hidden_fits(singles.cells, solution, g, 9);
    let hidden = place_hidden(singles.cells, group, 9);
    lemma_remove_twins_fits(hidden.cells, solution, g, 9);
}

/// The passes over the first `n` groups keep a grid fitting its solution and
/// meet no contradiction.
pub proof fn lemma_sweep_fits(cells: Seq<CellModel>, solution: Seq<int>, n: nat)
    requires
        fits(cells, solution),
        is_solution(solution),
        n <= 27,
    ensures
        fits(sweep(cells, n).cells, solution),
        !sweep(cells, n).failed,
    decreases n,
{
    if n > 0 {
        lemma_sweep_fits(cells, solution, (n - 1) as nat);
        lemma_group_pass_fits(sweep(cells, (n - 1) as nat).cells, solution, n - 1);
    }
}

/// A step from a well-formed grid in which every cell can hold the digit of
/// a solution meets no contradiction, and leaves a well-formed grid in which
/// every cell can hold the digit of that solution. No row, column or block
/// of it has two cells resolved to the same digit.
pub proof fn lemma_step_is_sound(cells: Seq<CellModel>, solution: Seq<int>)
    requires
        cells_well_formed(cells),
        is_solution(solution),
        agrees(cells, solution),
    ensures
        !step_fails(cells),
        cells_well_formed(stepped(cells)),
        agrees(stepped(cells), solution),
        no_repeats(stepped(cells)),
{
    let start = snapshot(cells);
    assert forall|i: int| 0 <= i < 81 implies (#[trigger] start[i]).well_formed() && cell_agrees(
        start[i].value,
        solution[i],
    ) by {
        assert(cells[i].well_formed());
        assert(cell_agrees(cells[i].value, solution[i]));
    }
    lemma_sweep_fits(start, solution, 27);
    lemma_fitting_grid_has_no_repeats(stepped(cells), solution);
}

/// However many steps are taken from a well-formed grid in which every cell
/// can hold the digit of a solution, none of them meets a contradiction, and
/// after each of them no row, column or block has two cells resolved to the
/// same digit.
pub proof fn lemma_steps_are_sound(cells: Seq<CellModel>, solution: Seq<int>, n: nat)
    requires
        cells_well_formed(cells),
        is_solution(solution),
        agrees(cells, solution),
    ensures
        cells_well_formed(stepped_times(cells, n)),
        agrees(stepped_times(cells, n), solution),
        no_repeats(stepped_times(cells, n)),
        n > 0 ==> !step_fails(stepped_times(cells, (n - 1) as nat)),
    decreases n,
{
    if n == 0 {
        lemma_fitting_grid_has_no_repeats(cells, solution);
    } else {
        lemma_steps_are_sound(cells, solution, (n - 1) as nat);
        lemma_step_is_sound(stepped_times(cells, (n - 1) as nat), solution);
    }
}

} // verus!
