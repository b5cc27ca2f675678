//! One pass of deduction over a group of nine cells.
//!
//! A pass removes from every open cell the digits that its peers in the
//! group are resolved to, places each digit that has a single position left,
//! and removes the digits of every pair of twins from the other cells. The
//! functions in the first half of the file say what a pass makes of a grid;
//! the second half carries it out on the arena.
use crate::data::CELL_SIZE;
use crate::masks::{
    candidate_count, count_candidates, digit_mask, first_digit, has_digit, lemma_has_digit_whole,
    lemma_lowest_digit, lowest_digit, mask_of_digit,
};
use crate::sudoku_board::{
    grid_group, reduce_message, snapshot, AllCells, CellModel, CellState, RowColSquare,
};
use crate::text::{digit_char, digit_str};
use crate::twins::{find_twins, twin_mask};
use vstd::prelude::*;

verus! {

/// What a pass, or a part of one, leaves behind: the cells, and the message
/// of the contradiction that stopped it, if one did.
pub struct Outcome {
    pub cells: Seq<CellModel>,
    pub failure: Option<Seq<char>>,
}

/// Whether `group` names nine cells of the grid; entries beyond the ninth
/// are not looked at.
pub open spec fn group_in_grid(group: Seq<usize>) -> bool {
    &&& group.len() >= 9
    &&& forall|k: int| 0 <= k < 9 ==> (#[trigger] group[k]) < 81
}

/// The message of a digit that has no position left in a group.
pub open spec fn no_place_message(digit: int) -> Seq<char> {
    "For value "@ + seq![digit_char(digit)] + " no positions anymore"@
}

/// The cells after the digits of `mask` have been removed from cell `i`, with
/// the message of that cell if this is a contradiction.
pub open spec fn reduce_at(cells: Seq<CellModel>, i: int, mask: usize) -> Outcome {
    Outcome {
        cells: cells.update(i, cells[i].with_value(cells[i].value.reduced(mask))),
        failure: if cells[i].value.reduce_fails(mask) {
            Some(reduce_message(cells[i].value, i / 9, i % 9, mask))
        } else {
            None
        },
    }
}

/// The first `n` visits of the elimination of singles. Visit `v` takes the
/// cell at position `v / 9` of the group and removes from it the digit that
/// the cell at position `v % 9` is resolved to; a cell does not visit
/// itself. The first contradiction ends the elimination.
pub open spec fn eliminate(cells: Seq<CellModel>, group: Seq<usize>, n: nat) -> Outcome
    decreases n,
{
    if n == 0 {
        Outcome { cells, failure: None }
    } else {
        let before = eliminate(cells, group, (n - 1) as nat);
        let this = (n - 1) / 9;
        let other = (n - 1) % 9;
        if before.failure is Some || this == other {
            before
        } else {
            reduce_at(
                before.cells,
                group[this] as int,
                before.cells[group[other] as int].value.resolved_mask(),
            )
        }
    }
}

/// The positions, among the first `n` of the group, whose cell may hold
/// `digit`: position `k` is member `k + 1` of the mask.
pub open spec fn position_mask(
    cells: Seq<CellModel>,
    group: Seq<usize>,
    digit: int,
    n: nat,
) -> usize
    decreases n,
{
    if n == 0 {
        0
    } else {
        let rest = position_mask(cells, group, digit, (n - 1) as nat);
        if has_digit(cells[group[n - 1] as int].value.unresolved_mask(), digit) {
            rest | digit_mask(n as int)
        } else {
            rest
        }
    }
}

/// The placing of hidden singles for the digits 1 to `n`. The positions of
/// every digit are those in `survey`, the cells as they were when the placing
/// began. A digit with no position is a contradiction and ends the placing;
/// a digit with one position is offered to the cell there.
pub open spec fn place_hidden(
    survey: Seq<CellModel>,
    group: Seq<usize>,
    n: nat,
) -> Outcome
    decreases n,
{
    if n == 0 {
        Outcome { cells: survey, failure: None }
    } else {
        let before = place_hidden(survey, group, (n - 1) as nat);
        let places = position_mask(survey, group, n as int, 9);
        if before.failure is Some {
            before
        } else if candidate_count(places) == 0 {
            Outcome { cells: before.cells, failure: Some(no_place_message(n as int)) }
        } else if candidate_count(places) == 1 {
            let i = group[lowest_digit(places) - 1] as int;
            Outcome {
                cells: before.cells.update(
                    i,
                    before.cells[i].with_value(
                        before.cells[i].value.with_solved_value(digit_mask(n as int)),
                    ),
                ),
                failure: None,
            }
        } else {
            before
        }
    }
}

/// The cells after the digits of `mask` have been removed from the first `n`
/// cells of the group. A contradiction met here is not reported.
pub open spec fn remove_twins(cells: Seq<CellModel>, group: Seq<usize>, mask: usize, n: nat) -> Seq<
    CellModel,
>
    decreases n,
{
    if n == 0 {
        cells
    } else {
        let before = remove_twins(cells, group, mask, (n - 1) as nat);
        let i = group[n - 1] as int;
        before.update(i, before[i].with_value(before[i].value.reduced(mask)))
    }
}

/// One pass over a group: singles, then hidden singles, then twins. A
/// contradiction in one part ends the pass, and the cells stay as that part
/// left them.
pub open spec fn group_pass(cells: Seq<CellModel>, group: Seq<usize>) -> Outcome {
    let singles = eliminate(cells, group, 81);
    if singles.failure is Some {
        singles
    } else {
        let hidden = place_hidden(singles.cells, group, 9);
        if hidden.failure is Some {
            hidden
        } else {
            let twins = twin_mask(hidden.cells, group, 9);
            Outcome {
                cells: if twins > 0 {
                    remove_twins(hidden.cells, group, twins, 9)
                } else {
                    hidden.cells
                },
                failure: None,
            }
        }
    }
}

/// Once the elimination has met a contradiction, further visits change
/// nothing.
pub proof fn lemma_eliminate_stops(cells: Seq<CellModel>, group: Seq<usize>, n: nat, m: nat)
    requires
        n <= m,
        eliminate(cells, group, n).failure is Some,
    ensures
        eliminate(cells, group, m) == eliminate(cells, group, n),
    decreases m,
{
    if n < m {
        lemma_eliminate_stops(cells, group, n, (m - 1) as nat);
    }
}

/// Once the placing has met a contradiction, further digits change nothing.
pub proof fn lemma_place_hidden_stops(survey: Seq<CellModel>, group: Seq<usize>, n: nat, m: nat)
    requires
        n <= m,
        place_hidden(survey, group, n).failure is Some,
    ensures
        place_hidden(survey, group, m) == place_hidden(survey, group, n),
    decreases m,
{
    if n < m {
        lemma_place_hidden_stops(survey, group, n, (m - 1) as nat);
    }
}

/// What the passes over several groups leave behind: the cells, and whether
/// any of the passes met a contradiction.
pub struct Sweep {
    pub cells: Seq<CellModel>,
    pub failed: bool,
}

/// The passes over the first `n` groups of the grid, each run whether or not
/// an earlier one met a contradiction.
pub open spec fn sweep(cells: Seq<CellModel>, n: nat) -> Sweep
    decreases n,
{
    if n == 0 {
        Sweep { cells, failed: false }
    } else {
        let before = sweep(cells, (n - 1) as nat);
        let pass = group_pass(before.cells, grid_group(n - 1));
        Sweep { cells: pass.cells, failed: before.failed || pass.failure is Some }
    }
}

/// The passes over the first `n` groups of the grid, ended by the first
/// contradiction.
pub open spec fn sweep_strict(cells: Seq<CellModel>, n: nat) -> Outcome
    decreases n,
{
    if n == 0 {
        Outcome { cells, failure: None }
    } else {
        let before = sweep_strict(cells, (n - 1) as nat);
        if before.failure is Some {
            before
        } else {
            group_pass(before.cells, grid_group(n - 1))
        }
    }
}

/// The cells after one step: every cell remembers its state, then all 27
/// groups are passed over.
pub open spec fn stepped(cells: Seq<CellModel>) -> Seq<CellModel> {
    sweep(snapshot(cells), 27).cells
}

/// Whether a step from `cells` meets a contradiction in some group.
pub open spec fn step_fails(cells: Seq<CellModel>) -> bool {
    sweep(snapshot(cells), 27).failed
}

/// Once a strict sweep has met a contradiction, further groups change
/// nothing.
pub proof fn lemma_sweep_strict_stops(cells: Seq<CellModel>, n: nat, m: nat)
    requires
        n <= m,
        sweep_strict(cells, n).failure is Some,
    ensures
        sweep_strict(cells, m) == sweep_strict(cells, n),
    decreases m,
{
    if n < m {
        lemma_sweep_strict_stops(cells, n, (m - 1) as nat);
    }
}

/// Every group of the grid names nine cells of the grid.
pub proof fn lemma_grid_group_in_grid(g: int)
    requires
        0 <= g < 27,
    ensures
        group_in_grid(grid_group(g)),
{
    let group = grid_group(g);
    assert forall|k: int| 0 <= k < 9 implies (#[trigger] group[k]) < 81 by {
        if g >= 18 {
            let b = g - 18;
            assert(0 <= b / 3 <= 2 && 0 <= b % 3 <= 2);
            assert(0 <= k / 3 <= 2 && 0 <= k % 3 <= 2);
        }
    }
}

/// Removes from every open cell of the group the digits that its peers are
/// resolved to, and stops at the first contradiction.
fn eliminate_singles(cells: &mut AllCells, group: &Vec<usize>) -> (result: Result<usize, String>)
    requires
        old(cells).wf(),
        group_in_grid(group@),
    ensures
        final(cells).wf(),
        final(cells).same_places(old(cells)),
        final(cells)@ == eliminate(old(cells)@, group@, 81).cells,
        result is Err <==> eliminate(old(cells)@, group@, 81).failure is Some,
        result matches Ok(n) ==> n == 0,
        result matches Err(message) ==> Some(message@) == eliminate(
            old(cells)@,
            group@,
            81,
        ).failure,
{
    let mut this: usize = 0;
    while this < CELL_SIZE
        invariant
            this <= 9,
            cells.wf(),
            cells.same_places(old(cells)),
            group_in_grid(group@),
            cells@ == eliminate(old(cells)@, group@, (this * 9) as nat).cells,
            eliminate(old(cells)@, group@, (this * 9) as nat).failure is None,
        decreases 9 - this,
    {
        let mut other: usize = 0;
        while other < CELL_SIZE
            invariant
                this < 9,
                other <= 9,
                cells.wf(),
                cells.same_places(old(cells)),
                group_in_grid(group@),
                cells@ == eliminate(old(cells)@, group@, (this * 9 + other) as nat).cells,
                eliminate(old(cells)@, group@, (this * 9 + other) as nat).failure is None,
            decreases 9 - other,
        {
            let ghost visit: nat = (this * 9 + other) as nat;
            assert(visit / 9 == this && visit % 9 == other);
            if other != this {
                let mask: usize = cells.cells[group[other]].get_resolved_mask();
                let ghost before = cells@;
                let i: usize = group[this];
                let reduced = cells.cells[i].reduce(mask);
                assert(cells@ =~= reduce_at(before, i as int, mask).cells);
                match reduced {
                    Ok(_) => {},
                    Err(message) => {
                        proof {
                            lemma_eliminate_stops(old(cells)@, group@, visit + 1, 81);
                        }
                        return Err(message);
                    },
                }
            }
            other = other + 1;
        }
        this = this + 1;
    }
    Ok(0)
}

/// For each digit, the mask of the positions in the group whose cell may
/// hold it; the mask of digit `d` is entry `d - 1`.
fn survey_places(cells: &AllCells, group: &Vec<usize>) -> (places: Vec<usize>)
    requires
        cells.wf(),
        group_in_grid(group@),
    ensures
        places@.len() == 9,
        forall|d: int|
            0 <= d < 9 ==> (#[trigger] places@[d]) == position_mask(cells@, group@, d + 1, 9),
{
    let mut possible_cells: Vec<usize> = Vec::new();
    let mut value: usize = 0;
    while value < CELL_SIZE
        invariant
            value <= 9,
            cells.wf(),
            group_in_grid(group@),
            possible_cells@.len() == value,
            forall|d: int|
                0 <= d < value ==> (#[trigger] possible_cells@[d]) == position_mask(
                    cells@,
                    group@,
                    d + 1,
                    9,
                ),
        decreases 9 - value,
    {
        let value_mask: usize = mask_of_digit(value + 1);
        let mut positions: usize = 0;
        let mut n: usize = 0;
        while n < CELL_SIZE
            invariant
                n <= 9,
                value < 9,
                cells.wf(),
                group_in_grid(group@),
                value_mask == digit_mask(value + 1),
                positions == position_mask(cells@, group@, value + 1, n as nat),
            decreases 9 - n,
        {
            let cell_mask: usize = mask_of_digit(n + 1);
            let mask: usize = cells.cells[group[n]].get_unresolved_mask();
            proof {
                lemma_has_digit_whole(mask, value + 1);
            }
            if mask & value_mask == value_mask {
                positions = positions | cell_mask;
            }
            n = n + 1;
        }
        possible_cells.push(positions);
        value = value + 1;
    }
    possible_cells
}

/// Offers each digit that has a single position to the cell there, and
/// stops at the first digit that has no position.
fn place_hidden_singles(cells: &mut AllCells, group: &Vec<usize>, places: &Vec<usize>) -> (result:
    Result<usize, String>)
    requires
        old(cells).wf(),
        group_in_grid(group@),
        places@.len() == 9,
        forall|d: int|
            0 <= d < 9 ==> (#[trigger] places@[d]) == position_mask(old(cells)@, group@, d + 1, 9),
    ensures
        final(cells).wf(),
        final(cells).same_places(old(cells)),
        final(cells)@ == place_hidden(old(cells)@, group@, 9).cells,
        result is Err <==> place_hidden(old(cells)@, group@, 9).failure is Some,
        result matches Ok(n) ==> n == 0,
        result matches Err(message) ==> Some(message@) == place_hidden(
            old(cells)@,
            group@,
            9,
        ).failure,
{
    let mut n: usize = 0;
    while n < CELL_SIZE
        invariant
            n <= 9,
            cells.wf(),
            cells.same_places(old(cells)),
            group_in_grid(group@),
            places@.len() == 9,
            forall|d: int|
                0 <= d < 9 ==> (#[trigger] places@[d]) == position_mask(
                    old(cells)@,
                    group@,
                    d + 1,
                    9,
                ),
            cells@ == place_hidden(old(cells)@, group@, n as nat).cells,
            place_hidden(old(cells)@, group@, n as nat).failure is None,
        decreases 9 - n,
    {
        let mask: usize = places[n];
        let count: usize = count_candidates(mask);
        if count == 0 {
            let mut message = String::from_str("For value ");
            message.append(digit_str(n + 1));
            message.append(" no positions anymore");
            proof {
                assert(message@ =~= no_place_message(n + 1));
                lemma_place_hidden_stops(old(cells)@, group@, (n + 1) as nat, 9);
            }
            return Err(message);
        } else if count == 1 {
            proof {
                lemma_lowest_digit(mask);
            }
            let index: usize = first_digit(mask) - 1;
            let value_mask: usize = mask_of_digit(n + 1);
            let i: usize = group[index];
            let ghost before = cells@;
            match cells.cells[i].get_state() {
                CellState::UnSolved(_) => {
                    cells.cells[i].set_solved_value(value_mask);
                },
                _ => (),
            }
            assert(cells@ =~= before.update(
                i as int,
                before[i as int].with_value(before[i as int].value.with_solved_value(value_mask)),
            ));
        }
        n = n + 1;
    }
    Ok(0)
}

/// Removes the digits of `mask` from every cell of the group. What a single
/// cell reports is not passed on.
fn reduce_all(cells: &mut AllCells, group: &Vec<usize>, mask: usize)
    requires
        old(cells).wf(),
        group_in_grid(group@),
    ensures
        final(cells).wf(),
        final(cells).same_places(old(cells)),
        final(cells)@ == remove_twins(old(cells)@, group@, mask, 9),
{
    let mut c: usize = 0;
    while c < CELL_SIZE
        invariant
            c <= 9,
            cells.wf(),
            cells.same_places(old(cells)),
            group_in_grid(group@),
            cells@ == remove_twins(old(cells)@, group@, mask, c as nat),
        decreases 9 - c,
    {
        let i: usize = group[c];
        let ghost before = cells@;
        let _ = cells.cells[i].reduce(mask);
        assert(cells@ =~= before.update(
            i as int,
            before[i as int].with_value(before[i as int].value.reduced(mask)),
        ));
        c = c + 1;
    }
}

/// Runs one pass of deduction over the nine cells that `row_col_square`
/// names: singles, hidden singles, twins, in that order and once each.
///
/// The pass fails with a message when a cell loses its last candidate or a
/// digit has no position left in the group. It then stops at once; what it
/// had changed stays changed.
pub fn reduce_square<G: RowColSquare>(cells: &mut AllCells, row_col_square: &G) -> (result: Result<
    usize,
    String,
>)
    requires
        old(cells).wf(),
        group_in_grid(row_col_square.members()),
    ensures
        final(cells).wf(),
        final(cells).same_places(old(cells)),
        final(cells)@ == group_pass(old(cells)@, row_col_square.members()).cells,
        result is Err <==> group_pass(old(cells)@, row_col_square.members()).failure is Some,
        result matches Ok(n) ==> n == 0,
        result matches Err(message) ==> Some(message@) == group_pass(
            old(cells)@,
            row_col_square.members(),
        ).failure,
{
    let group = row_col_square.get_cells();
    match eliminate_singles(cells, group) {
        Ok(_) => {},
        Err(message) => {
            return Err(message);
        },
    }
    let possible_cells = survey_places(cells, group);
    match place_hidden_singles(cells, group, &possible_cells) {
        Ok(_) => {},
        Err(message) => {
            return Err(message);
        },
    }
    let overall_twin_mask: usize = find_twins(cells, group);
    if overall_twin_mask > 0 {
        reduce_all(cells, group, overall_twin_mask);
    }
    Ok(0)
}

} // verus!
