//! What to do with one directory entry.

use vstd::prelude::*;
use crate::config::Config;
use crate::naming::{extension_of, format_title, get_file_extention, title_of};
use crate::naming::lemma_title_round_trip;
use crate::numbers::{digit_runs, find_all_numbers, lemma_digit_runs_maximal, run_at, views};

verus! {

/// The work to do for one entry.
pub enum Action {
    /// Print the digit runs of the entry's path.
    ShowNumbers(Vec<String>),
    /// Print the name the entry would get.
    ShowName(String),
    /// Rename the entry.
    Rename { from: String, to: String },
}

/// Why a run cannot go on: both stop the whole run.
#[derive(Clone, Copy, Debug, PartialEq, Eq, Structural)]
pub enum PlanError {
    /// No position was selected, yet names are to be built.
    NoPosition,
    /// The selected position is past the last digit run of the entry's path.
    PositionOutOfRange,
}

/// The new name of `entry` when the selected run is `position`.
pub open spec fn new_name(config: &Config, entry: Seq<char>, position: usize) -> Seq<char> {
    title_of(config.path@, digit_runs(entry)[position as int], extension_of(entry))
}

/// What the entry's work is: its digit runs when they are asked for;
/// otherwise, with a position inside its runs, its new name to show (dry run)
/// or to rename to; an error without a position or past the last run.
pub open spec fn planned(config: &Config, entry: Seq<char>, r: Result<Action, PlanError>) -> bool {
    if config.get_numbers {
        r matches Ok(Action::ShowNumbers(v)) && views(v@) == digit_runs(entry)
    } else {
        match config.nth_number {
            None => r == Err::<Action, PlanError>(PlanError::NoPosition),
            Some(p) => {
                if p >= digit_runs(entry).len() {
                    r == Err::<Action, PlanError>(PlanError::PositionOutOfRange)
                } else if config.test_run {
                    r matches Ok(Action::ShowName(name)) && name@ == new_name(config, entry, p)
                } else {
                    r matches Ok(Action::Rename { from, to }) && from@ == entry && to@ == new_name(
                        config,
                        entry,
                        p,
                    )
                }
            },
        }
    }
}

/// Decides what to do with `entry`. The usage text is decided before any
/// entry is read.
pub fn plan_entry(config: &Config, entry: &str) -> (r: Result<Action, PlanError>)
    ensures
        planned(config, entry@, r),
{
    let numbers = find_all_numbers(entry);
    if config.get_numbers {
        return Ok(Action::ShowNumbers(numbers));
    }
    let p = match config.nth_number {
        Some(p) => p,
        None => {
            return Err(PlanError::NoPosition);
        },
    };
    if p >= numbers.len() {
        return Err(PlanError::PositionOutOfRange);
    }
    assert(numbers@[p as int]@ == digit_runs(entry@)[p as int]);
    let name = format_title(get_file_extention(entry).as_str(), numbers[p].as_str(), config);
    if config.test_run {
        Ok(Action::ShowName(name))
    } else {
        Ok(Action::Rename { from: String::from_str(entry), to: name })
    }
}

/// Reading the numbers back from a new name finds the selected run of the
/// entry, unchanged, right after the runs of the directory path.
pub proof fn lemma_new_name_round_trip(config: &Config, entry: Seq<char>, position: usize)
    requires
        position < digit_runs(entry).len(),
    ensures
        digit_runs(new_name(config, entry, position))[digit_runs(config.path@).len() as int]
            == digit_runs(entry)[position as int],
{
    let pos = lemma_digit_runs_maximal(entry);
    assert(run_at(entry, digit_runs(entry), pos, position as int));
    lemma_title_round_trip(config.path@, digit_runs(entry)[position as int], extension_of(entry));
}

} // verus!
