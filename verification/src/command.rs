//! Command processing: what Add, List and Reset do to the store.
//!
//! The command-line shell parses the process arguments into a `Commands`
//! value, loads the store, reads the due text with the date-parsing
//! collaborator (over the text that `normalize_due` gives it), and hands
//! the outcome in as a plain count of seconds; afterwards it performs the
//! file writing and the printing that the outcome asks for. The
//! collaborator stays outside the library: it can reject or even abort on
//! adversarial texts, so the shell guards the call and the library is
//! verified for every outcome it can hand in.

use vstd::prelude::*;
use crate::task::{Task, TaskV, SortType, WorkWeight, views};
use crate::sorting::sorted_by_strategy;
use crate::storage::TaskStorage;

verus! {

/// What can go wrong while a raw command is turned into work.
#[derive(Debug)]
pub enum ParseError {
    /// The due text could not be understood as a date; it is carried
    /// verbatim.
    DateParseError(String),
}

/// The raw parts of an Add command, as the command line hands them over.
pub struct AddArgs {
    /// The task's name.
    pub task: String,
    /// The due date in natural language, read against the current time.
    pub due: String,
    /// The expected effort.
    pub weight: WorkWeight,
}

/// A validated command from the command-line shell.
pub enum Commands {
    Add(AddArgs),
    List,
    Reset,
}

/// The due text as the date parser should see it: a leading "in " is
/// dropped, so that "in 2 days" reads as the relative phrase "2 days".
pub open spec fn normalized_due(s: Seq<char>) -> Seq<char> {
    if s.len() >= 3 && s.subrange(0, 3) == "in "@ {
        s.skip(3)
    } else {
        s
    }
}

/// Prepares a due text for the date-parsing collaborator: drops a
/// leading "in ".
pub fn normalize_due(due: &str) -> (r: &str)
    ensures
        r@ == normalized_due(due@),
{
    proof {
        reveal_strlit("in ");
    }
    let n = due.unicode_len();
    if n >= 3 && due.get_char(0) == 'i' && due.get_char(1) == 'n' && due.get_char(2) == ' ' {
        proof {
            assert(due@.subrange(0, 3) =~= "in "@);
        }
        due.substring_char(3, n)
    } else {
        proof {
            if due@.len() >= 3 {
                assert(due@.subrange(0, 3) != "in "@) by {
                    if due@.subrange(0, 3) == "in "@ {
                        assert(due@.subrange(0, 3)[0] == due@[0]);
                        assert(due@.subrange(0, 3)[1] == due@[1]);
                        assert(due@.subrange(0, 3)[2] == due@[2]);
                    }
                }
            }
        }
        due
    }
}

/// Builds a task from the raw parts of an Add command. `parsed` is what
/// the date-parsing collaborator made of the due text: a due moment, or
/// nothing. With a moment the task is built exactly; without one the
/// offending due text comes back in the error and nothing is built.
pub fn parse_new_task(task: &str, due: &str, weight: WorkWeight, parsed: Option<i64>) -> (r: Result<
    Task,
    ParseError,
>)
    requires
        task@.len() > 0,
    ensures
        match parsed {
            Some(d) => r matches Ok(t) && t@ == (TaskV {
                due_date: d as int,
                name: task@,
                weight,
            }),
            None => r matches Err(ParseError::DateParseError(m)) && m@ == due@,
        },
{
    match parsed {
        Some(ts) => Ok(Task::new(ts, String::from_str(task), weight)),
        None => Err(ParseError::DateParseError(String::from_str(due))),
    }
}

/// Carries out one validated command against the loaded store. For an
/// Add, `parsed_due` is what the date-parsing collaborator made of the
/// command's due text; the other commands ignore it.
///
/// Add with a due moment appends the new task and leaves the collection
/// ordered closest-deadline-first with exactly the old tasks and the new
/// one; without one the store is untouched and the offending text comes
/// back. List changes nothing. Reset empties the collection. The shell
/// saves the store after a successful Add, truncates the file after
/// Reset, and prints after Add and List.
pub fn parse_cli_args(cmd: &Commands, storage: &mut TaskStorage, parsed_due: Option<i64>) -> (r:
    Result<(), ParseError>)
    requires
        cmd matches Commands::Add(a) ==> a.task@.len() > 0,
    ensures
        final(storage).path@ == old(storage).path@,
        match cmd {
            Commands::List => r is Ok && final(storage).tasks@ == old(storage).tasks@,
            Commands::Reset => r is Ok && final(storage).tasks@.len() == 0,
            Commands::Add(args) => match parsed_due {
                None => (r matches Err(ParseError::DateParseError(m)) && m@ == args.due@)
                    && final(storage).tasks@ == old(storage).tasks@,
                Some(d) => r is Ok && final(storage).tasks@.len() == old(storage).tasks@.len() + 1
                    && sorted_by_strategy(
                    SortType::ClosestToDeadline,
                    views(final(storage).tasks@),
                ) && views(final(storage).tasks@).to_multiset() == views(
                    old(storage).tasks@,
                ).push(
                    TaskV { due_date: d as int, name: args.task@, weight: args.weight },
                ).to_multiset(),
            },
        },
{
    match cmd {
        Commands::Add(args) => {
            match parse_new_task(args.task.as_str(), args.due.as_str(), args.weight, parsed_due) {
                Ok(t) => {
                    let ghost tv = t@;
                    storage.add_task(t);
                    proof {
                        assert(views(storage.tasks@) =~= views(old(storage).tasks@).push(tv));
                    }
                    storage.sort(SortType::ClosestToDeadline);
                    Ok(())
                },
                Err(e) => Err(e),
            }
        },
        Commands::List => Ok(()),
        Commands::Reset => {
            storage.clear();
            Ok(())
        },
    }
}

} // verus!
