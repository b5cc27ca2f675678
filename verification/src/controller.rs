//! What each command of the player does to the application.
use crate::data::{
    can_be_loaded, first_named, matching_names, step_message, with_entries, AppState,
};
use crate::reduction::stepped;
use crate::sudoku_board::{cleared_cells, restored, with_given};
use crate::sudoku_state::{state_after_step, GameState};
use vstd::prelude::*;

verus! {

/// A command of the player.
#[derive(Clone, Debug)]
pub enum AppCommand {
    /// Empty the board to set digits by hand.
    Init,
    /// Show the list of puzzles.
    Select,
    /// List the puzzles that contain the text typed.
    AutoSelect,
    /// Load the puzzle of this name.
    Selected(String),
    /// Take a step.
    Step,
    /// Take the last step back.
    Back,
    /// Solve the puzzle in one go; nothing does that yet.
    Solve,
    /// Set the cell at this row and column to this digit, then take a step.
    Number(usize, usize, usize),
}

/// Carries out `cmd` on `data` and says whether it did. Three commands can
/// be refused, and nothing changes then: a step without a puzzle in play, a
/// step back while a puzzle is being chosen, and the loading of a puzzle
/// where `puzzles`, the puzzles on file, has none of that name that can be
/// loaded.
pub fn handle_commands(
    cmd: &AppCommand,
    data: &mut AppState,
    puzzles: &Vec<(String, Vec<(String, String)>)>,
) -> (done: bool)
    requires
        old(data).su_board.wired(),
        *cmd matches AppCommand::Number(r, c, v) ==> r < 9 && c < 9 && 1 <= v <= 9,
    ensures
        final(data).su_board.wired(),
        final(data).su_board.same_groups(&old(data).su_board),
        final(data).board_list == old(data).board_list,
        !done ==> *final(data) == *old(data),
        match *cmd {
            AppCommand::Init => {
                &&& done
                &&& final(data).su_board@ == cleared_cells()
                &&& final(data).su_state.step_count == 0
                &&& final(data).su_state.init_count == 0
                &&& final(data).su_state.curr_count == 0
                &&& final(data).su_state.game_state == GameState::ManualInput
                &&& final(data).su_state.same_flags(&old(data).su_state)
                &&& final(data).message@ == "Select digits .."@
                &&& final(data).same_names(old(data))
            },
            AppCommand::Select => {
                &&& done
                &&& final(data).su_board == old(data).su_board
                &&& final(data).su_state.game_state == GameState::Select
                &&& final(data).su_state.step_count == old(data).su_state.step_count
                &&& final(data).su_state.init_count == old(data).su_state.init_count
                &&& final(data).su_state.curr_count == old(data).su_state.curr_count
                &&& final(data).su_state.same_flags(&old(data).su_state)
                &&& final(data).message@ == "Select a board .."@
                &&& final(data).same_names(old(data))
            },
            AppCommand::AutoSelect => {
                &&& done
                &&& final(data).autoselect_list@ == matching_names(
                    old(data).board_list@,
                    old(data).selected@,
                )
                &&& final(data).selected == old(data).selected
                &&& final(data).message == old(data).message
                &&& final(data).su_board == old(data).su_board
                &&& final(data).su_state == old(data).su_state
            },
            AppCommand::Selected(name) => {
                &&& done == can_be_loaded(puzzles@, name@)
                &&& done ==> {
                    let rows = puzzles@[first_named(puzzles@, name@)].1@;
                    &&& final(data).su_board@ == with_entries(cleared_cells(), rows, rows.len())
                    &&& final(data).su_state.step_count == 0
                    &&& final(data).su_state.init_count == 0
                    &&& final(data).su_state.curr_count == 0
                    &&& final(data).su_state.game_state == GameState::ManualInput
                    &&& final(data).su_state.same_flags(&old(data).su_state)
                    &&& final(data).message@ == "Rightclick for manual select"@
                    &&& final(data).selected@ == name@
                    &&& final(data).autoselect_list == old(data).autoselect_list
                }
            },
            AppCommand::Step => {
                &&& done == (old(data).su_state.game_state == GameState::ManualInput
                    || old(data).su_state.game_state == GameState::Stepping)
                &&& done ==> {
                    &&& final(data).su_board@ == stepped(old(data).su_board@)
                    &&& final(data).su_state == old(data).su_state.after_step(old(data).su_board@)
                    &&& final(data).message@ == step_message(
                        state_after_step(old(data).su_board@),
                    )
                    &&& final(data).same_names(old(data))
                }
            },
            AppCommand::Back => {
                &&& done == (old(data).su_state.game_state != GameState::Select)
                &&& done ==> {
                    &&& final(data).su_board@ == restored(old(data).su_board@)
                    &&& final(data).su_state == old(data).su_state.after_step_back(
                        old(data).su_board@,
                    )
                    &&& final(data).message@ == "Stepping.."@
                    &&& final(data).same_names(old(data))
                }
            },
            AppCommand::Solve => done && *final(data) == *old(data),
            AppCommand::Number(r, c, v) => {
                let set = with_given(old(data).su_board@, r as int, c as int, v as int);
                &&& done
                &&& final(data).su_board@ == stepped(set)
                &&& final(data).su_state == old(data).su_state.after_step(set)
                &&& final(data).message@ == step_message(state_after_step(set))
                &&& final(data).same_names(old(data))
            },
        },
{
    match cmd {
        AppCommand::Init => {
            data.do_restart();
            data.message = String::from_str("Select digits ..");
            true
        },
        AppCommand::Select => {
            data.show_select();
            true
        },
        AppCommand::AutoSelect => {
            data.autoselect();
            true
        },
        AppCommand::Selected(name) => {
            if !data.has_board(puzzles, name) {
                return false;
            }
            data.do_restart();
            data.selected = name.clone();
            let loaded = data.try_select_board(puzzles);
            assert(loaded);
            true
        },
        AppCommand::Step => data.try_step(),
        AppCommand::Back => data.try_step_back(),
        AppCommand::Solve => true,
        AppCommand::Number(r, c, v) => {
            data.set_number(*r, *c, *v);
            data.do_step();
            true
        },
    }
}

} // verus!
