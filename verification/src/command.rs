//! The commands of the task list: what each does to the store, what it
//! reports, whether the store is to be saved afterwards, and the exit
//! status where it is not.

use crate::listing::visible;
use crate::task::{
    after_complete, after_start, is_summary, resolved_priority, task_tags, Status, Task, TaskView,
};
use crate::tasklist::{is_listing_text, StoreError, TaskList};
use crate::utils::{decimal_digits, error_line, is_error_line, ERR_SUCCESS};
use vstd::prelude::*;
use vstd::string::StringExecFns;

verus! {

/// One command of the user.
pub enum Command {
    /// Add a task with this title, description and priority.
    Add { title: String, desc: String, priority: Option<u8> },
    /// Remove the task with this id.
    Remove { id: usize },
    /// Complete the task with this id.
    Complete { id: usize },
    /// Start the task with this id.
    Start { id: usize },
    /// List the tasks that the filters select.
    List { all: bool, done: bool, started: bool, verbose: bool },
}

/// What is to follow a command: the text to show, whether the store has
/// changed and is to be saved, and the exit status if it is not.
pub struct Outcome {
    pub output: String,
    pub save: bool,
    pub exit_code: i32,
}

/// Whether `output` is the line that reports `message` as an error.
pub open spec fn reports(output: Seq<char>, message: Seq<char>) -> bool {
    exists|line: Seq<char>|
        #![trigger is_error_line(line, message)]
        is_error_line(line, message) && output == line + seq!['\n']
}

/// Whether `output` is the line that begins with `opening` and goes on with
/// the summary of `task`.
pub open spec fn announces(output: Seq<char>, opening: Seq<char>, task: TaskView) -> bool {
    exists|summary: Seq<char>|
        #![trigger is_summary(summary, task)]
        is_summary(summary, task) && output == opening + summary + seq!['\n']
}

/// Whether the outcome is that of a command that the store refused with
/// `error`: the error is reported, nothing is to be saved, and the exit
/// status is that of the error.
pub open spec fn is_refusal(outcome: Outcome, error: StoreError, id: usize) -> bool {
    &&& !outcome.save
    &&& outcome.exit_code == error.spec_exit_code()
    &&& reports(outcome.output@, error.spec_message(id))
}

/// Whether the outcome is that of a command that changed the store: the
/// store is to be saved, and `output` is shown.
pub open spec fn is_change(outcome: Outcome) -> bool {
    outcome.save && outcome.exit_code == ERR_SUCCESS
}

/// The outcome of a command that the store refused.
fn refuse(error: StoreError, id: usize) -> (outcome: Outcome)
    ensures
        is_refusal(outcome, error, id),
{
    let mut output = error_line(error.message(id).as_str());
    proof {
        reveal_strlit("\n");
        assert("\n"@ == seq!['\n']);
    }
    let ghost line = output@;
    output.append("\n");
    assert(is_error_line(line, error.spec_message(id)));
    Outcome { output, save: false, exit_code: error.exit_code() }
}

/// The outcome of a transition that the store performed on `task`.
fn announce(opening: &str, task: &Task) -> (outcome: Outcome)
    ensures
        is_change(outcome),
        announces(outcome.output@, opening@, task@),
{
    let summary = task.summary();
    proof {
        reveal_strlit("\n");
        assert("\n"@ == seq!['\n']);
    }
    let mut output = opening.to_owned();
    output.append(summary.as_str());
    output.append("\n");
    assert(is_summary(summary@, task@));
    Outcome { output, save: true, exit_code: ERR_SUCCESS }
}

/// Performs one command on the store.
///
/// `Add` stores a new task under the id after the highest and reports
/// nothing. `Remove` takes a task out and reports nothing. `Start` and
/// `Complete` move a task on and announce it with its summary. After each
/// of these the store is to be saved. Where the store refuses the command,
/// it stays as it is, the refusal is reported and nothing is to be saved.
/// `List` shows the listing and changes nothing.
pub fn perform(list: &mut TaskList, command: &Command) -> (outcome: Outcome)
    requires
        old(list).wf(),
        command is Add ==> old(list).recorded_max_id() < usize::MAX,
    ensures
        final(list).wf(),
        match *command {
            Command::Add { title, desc, priority } => {
                let id = (old(list).recorded_max_id() + 1) as usize;
                &&& is_change(outcome)
                &&& outcome.output@ == Seq::<char>::empty()
                &&& !old(list).tasks().contains_key(id)
                &&& final(list).tasks().contains_key(id)
                &&& final(list).tasks().remove(id) == old(list).tasks()
                &&& final(list).tasks()[id]@ == (TaskView {
                    id,
                    title: title@,
                    desc: desc@,
                    tags: task_tags(title@, desc@),
                    priority: resolved_priority(priority),
                    status: Status::NotStarted,
                })
            },
            Command::Remove { id } => if old(list).tasks().contains_key(id) {
                &&& is_change(outcome)
                &&& outcome.output@ == Seq::<char>::empty()
                &&& final(list).tasks() == old(list).tasks().remove(id)
            } else {
                is_refusal(outcome, StoreError::NotFound, id) && final(list).same_as(old(list))
            },
            Command::Start { id } => if !old(list).tasks().contains_key(id) {
                is_refusal(outcome, StoreError::NotFound, id) && final(list).same_as(old(list))
            } else {
                match after_start(old(list).tasks()[id]@) {
                    Ok(moved) => {
                        &&& is_change(outcome)
                        &&& announces(outcome.output@, "Started task "@, moved)
                        &&& final(list).tasks().dom() == old(list).tasks().dom()
                        &&& final(list).tasks().remove(id) == old(list).tasks().remove(id)
                        &&& final(list).tasks()[id]@ == moved
                    },
                    Err(reason) => is_refusal(outcome, StoreError::InvalidTransition(reason), id)
                        && final(list).same_as(old(list)),
                }
            },
            Command::Complete { id } => if !old(list).tasks().contains_key(id) {
                is_refusal(outcome, StoreError::NotFound, id) && final(list).same_as(old(list))
            } else {
                match after_complete(old(list).tasks()[id]@) {
                    Ok(moved) => {
                        &&& is_change(outcome)
                        &&& announces(outcome.output@, "Completed task "@, moved)
                        &&& final(list).tasks().dom() == old(list).tasks().dom()
                        &&& final(list).tasks().remove(id) == old(list).tasks().remove(id)
                        &&& final(list).tasks()[id]@ == moved
                    },
                    Err(reason) => is_refusal(outcome, StoreError::InvalidTransition(reason), id)
                        && final(list).same_as(old(list)),
                }
            },
            Command::List { all, done, started, verbose } => {
                &&& !outcome.save
                &&& outcome.exit_code == ERR_SUCCESS
                &&& final(list).same_as(old(list))
                &&& is_listing_text(
                    outcome.output@,
                    old(list).tasks(),
                    visible(old(list).tasks(), old(list).order(), all, done, started),
                    (decimal_digits(old(list).recorded_max_id() as nat) + 1) as int,
                    verbose,
                )
            },
        },
{
    match command {
        Command::Add { title, desc, priority } => {
            list.add(title.as_str(), desc.as_str(), *priority);
            Outcome { output: String::new(), save: true, exit_code: ERR_SUCCESS }
        },
        Command::Remove { id } => match list.remove(*id) {
            Ok(()) => Outcome { output: String::new(), save: true, exit_code: ERR_SUCCESS },
            Err(error) => refuse(error, *id),
        },
        Command::Start { id } => match list.start(*id) {
            Ok(()) => match list.get(*id) {
                Some(task) => announce("Started task ", task),
                None => Outcome { output: String::new(), save: true, exit_code: ERR_SUCCESS },
            },
            Err(error) => refuse(error, *id),
        },
        Command::Complete { id } => match list.complete(*id) {
            Ok(()) => match list.get(*id) {
                Some(task) => announce("Completed task ", task),
                None => Outcome { output: String::new(), save: true, exit_code: ERR_SUCCESS },
            },
            Err(error) => refuse(error, *id),
        },
        Command::List { all, done, started, verbose } => {
            let output = list.render(*all, *done, *started, *verbose);
            Outcome { output, save: false, exit_code: ERR_SUCCESS }
        },
    }
}

} // verus!
