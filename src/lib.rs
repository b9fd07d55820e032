//! A to-do list kept as numbered lines of text ("1. buy milk").
//!
//! The library holds the whole logic as functions on the file's text: adding
//! a task at a position, removing one, and keeping the numbers contiguous.
//! Reading and writing the file is left to the caller.
use vstd::prelude::*;

pub mod args;
pub mod laws;
pub mod line;
pub mod list;
pub mod number;
pub mod text;

use crate::list::{add_spec, remove, remove_spec, Edit};

verus! {

/// Why an operation on the list was refused.
#[derive(Debug, Clone, Copy, PartialEq, Eq, Structural)]
pub enum TodoError {
    /// The target line lies outside the list.
    InvalidLineNumber,
    /// A line to renumber does not start with a number.
    MalformedLine,
    /// There is no task to remove: the file is to be deleted and the
    /// invocation fails.
    EmptyList,
}

/// The operation asked for.
#[derive(Debug, Clone, PartialEq, Eq)]
pub enum Op {
    /// Put a task on the list.
    Add(String),
    /// Remove a task.
    Remove,
    /// Show the list.
    List,
}

/// What is to be done with the list file.
#[derive(Debug, Clone, PartialEq, Eq)]
pub enum Action {
    /// Replace the file's text with this.
    Write(String),
    /// Delete the file.
    Delete,
    /// Print this text.
    Print(String),
}

/// Carries out `op` on a list file whose text is `content`, at line
/// `line_number` where one is given, and says what is to be done with the file.
pub fn run(op: Op, content: &str, line_number: Option<usize>) -> (r: Result<Action, TodoError>)
    requires
        content@.len() < usize::MAX,
    ensures
        match op {
            Op::Add(task) => match add_spec(content@, task@, line_number) {
                Ok(t) => r matches Ok(Action::Write(s)) && s@ == t,
                Err(e) => r == Err::<Action, TodoError>(e),
            },
            Op::Remove => match remove_spec(content@, line_number) {
                Ok(Some(t)) => r matches Ok(Action::Write(s)) && s@ == t,
                Ok(None) => r matches Ok(Action::Delete),
                Err(e) => r == Err::<Action, TodoError>(e),
            },
            Op::List => r matches Ok(Action::Print(s)) && s@ == content@,
        },
{
    match op {
        Op::Add(task) => match crate::list::add(content, task.as_str(), line_number) {
            Ok(s) => Ok(Action::Write(s)),
            Err(e) => Err(e),
        },
        Op::Remove => match remove(content, line_number) {
            Ok(Edit::Write(s)) => Ok(Action::Write(s)),
            Ok(Edit::Delete) => Ok(Action::Delete),
            Err(e) => Err(e),
        },
        Op::List => Ok(Action::Print(String::from_str(content))),
    }
}

} // verus!
