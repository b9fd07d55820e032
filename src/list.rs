//! Adding and removing tasks, with the numbers kept contiguous.
use vstd::prelude::*;

use crate::line::{edit_line_number, line_number, text_result, with_number};
use crate::number::{decimal, decimal_string};
use crate::text::{lemma_lines_of_len, lemma_render_push, lines_of, render, split_lines, views};
use crate::TodoError;

verus! {

/// The line one further down the list: its number raised by one.
pub open spec fn bumped(l: Seq<char>) -> Option<Seq<char>> {
    match line_number(l) {
        Some(n) => if n < usize::MAX { Some(with_number(l, n + 1)) } else { None },
        None => None,
    }
}

/// The line one further up the list: its number lowered by one.
pub open spec fn lowered(l: Seq<char>) -> Option<Seq<char>> {
    match line_number(l) {
        Some(n) => if n > 0 { Some(with_number(l, (n - 1) as nat)) } else { None },
        None => None,
    }
}

pub open spec fn shifted(l: Seq<char>, up: bool) -> Option<Seq<char>> {
    if up { bumped(l) } else { lowered(l) }
}

/// Every line renumbered one step up or down, or `None` where one of them
/// cannot be.
pub open spec fn shift_all(ls: Seq<Seq<char>>, up: bool) -> Option<Seq<Seq<char>>> {
    if forall|i: int| 0 <= i < ls.len() ==> (#[trigger] shifted(ls[i], up)) is Some {
        Some(ls.map_values(|l: Seq<char>| shifted(l, up)->0))
    } else {
        None
    }
}

pub open spec fn next_number(n: usize) -> Option<usize> {
    if n < usize::MAX { Some((n + 1) as usize) } else { None }
}

pub open spec fn previous_number(n: usize) -> Option<usize> {
    if n > 0 { Some((n - 1) as usize) } else { None }
}

fn step_up(n: usize) -> (m: Option<usize>)
    ensures
        m == next_number(n),
{
    if n < usize::MAX {
        Some(n + 1)
    } else {
        None
    }
}

fn step_down(n: usize) -> (m: Option<usize>)
    ensures
        m == previous_number(n),
{
    if n > 0 {
        Some(n - 1)
    } else {
        None
    }
}

/// The line of a task at position `n`: "<n>. <task>".
pub open spec fn task_line(n: nat, task: Seq<char>) -> Seq<char> {
    decimal(n) + seq!['.', ' '] + task
}

/// The text after adding `task` at line `target` (at the end where there is
/// no target).
pub open spec fn add_spec(content: Seq<char>, task: Seq<char>, target: Option<usize>) -> Result<
    Seq<char>,
    TodoError,
> {
    let ls = lines_of(content);
    let n = ls.len();
    match target {
        None => Ok(content + task_line(n + 1, task) + seq!['\n']),
        Some(l) => if l == 0 || l > n + 1 {
            Err(TodoError::InvalidLineNumber)
        } else {
            let ins = ls.insert(l - 1, task_line(l as nat, task));
            match shift_all(ins.subrange(l as int, ins.len() as int), true) {
                Some(t) => Ok(render(ins.subrange(0, l as int) + t)),
                None => Err(TodoError::MalformedLine),
            }
        },
    }
}

/// The text after removing line `target` (the last line where there is no
/// target); `Ok(None)` where the file is to be deleted.
pub open spec fn remove_spec(content: Seq<char>, target: Option<usize>) -> Result<
    Option<Seq<char>>,
    TodoError,
> {
    let ls = lines_of(content);
    let n = ls.len();
    if n == 0 {
        Err(TodoError::EmptyList)
    } else {
        match target {
            None => if n == 1 { Ok(None) } else { Ok(Some(render(ls.drop_last()))) },
            Some(l) => if l == 0 || l > n {
                Err(TodoError::InvalidLineNumber)
            } else if n == 1 {
                Ok(None)
            } else {
                let rem = ls.remove(l - 1);
                match shift_all(rem.subrange(l - 1, rem.len() as int), false) {
                    Some(t) => Ok(Some(render(rem.subrange(0, l - 1) + t))),
                    None => Err(TodoError::MalformedLine),
                }
            },
        }
    }
}

/// What becomes of the list file.
#[derive(Debug, Clone, PartialEq, Eq)]
pub enum Edit {
    /// The file gets this text.
    Write(String),
    /// The file is deleted.
    Delete,
}

pub open spec fn edit_result(r: Result<Edit, TodoError>) -> Result<Option<Seq<char>>, TodoError> {
    match r {
        Ok(Edit::Write(s)) => Ok(Some(s@)),
        Ok(Edit::Delete) => Ok(None),
        Err(e) => Err(e),
    }
}

/// The text of `lines`, each followed by a newline.
pub fn join_lines(lines: &Vec<String>) -> (r: String)
    ensures
        r@ == render(views(lines@)),
{
    let mut s = String::new();
    let mut i: usize = 0;
    while i < lines.len()
        invariant
            i <= lines@.len(),
            s@ == render(views(lines@).subrange(0, i as int)),
        decreases lines@.len() - i,
    {
        proof {
            let vs = views(lines@);
            assert(vs.subrange(0, i + 1) =~= vs.subrange(0, i as int).push(lines@[i as int]@));
            lemma_render_push(vs.subrange(0, i as int), lines@[i as int]@);
        }
        s.append(lines[i].as_str());
        s.append("\n");
        proof {
            reveal_strlit("\n");
        }
        i = i + 1;
    }
    assert(views(lines@).subrange(0, i as int) =~= views(lines@));
    s
}

/// `lines` with every line from `from` on renumbered one step up or down.
fn shift_lines(lines: &Vec<String>, from: usize, up: bool) -> (r: Result<Vec<String>, TodoError>)
    requires
        from <= lines@.len(),
    ensures
        match shift_all(views(lines@).subrange(from as int, lines@.len() as int), up) {
            Some(t) => r is Ok && views(r->Ok_0@) == views(lines@).subrange(0, from as int) + t,
            None => r == Err::<Vec<String>, TodoError>(TodoError::MalformedLine),
        },
{
    let ghost vs = views(lines@);
    let ghost tail = vs.subrange(from as int, vs.len() as int);
    let mut out: Vec<String> = Vec::new();
    let mut i: usize = 0;
    while i < lines.len()
        invariant
            i <= lines@.len(),
            from <= lines@.len(),
            vs == views(lines@),
            tail == vs.subrange(from as int, vs.len() as int),
            out@.len() == i,
            forall|j: int| 0 <= j < i && j < from ==> (#[trigger] out@[j])@ == vs[j],
            forall|j: int| from <= j < i ==> shifted(vs[j], up) == Some((#[trigger] out@[j])@),
        decreases lines@.len() - i,
    {
        if i < from {
            out.push(lines[i].clone());
        } else {
            let e = if up {
                edit_line_number(lines[i].as_str(), step_up)
            } else {
                edit_line_number(lines[i].as_str(), step_down)
            };
            match e {
                Ok(s) => {
                    out.push(s);
                },
                Err(_) => {
                    proof {
                        assert(tail[i - from] == vs[i as int]);
                        assert(shifted(tail[i - from], up) is None);
                    }
                    return Err(TodoError::MalformedLine);
                },
            }
        }
        i = i + 1;
    }
    proof {
        assert(forall|j: int| 0 <= j < tail.len() ==> #[trigger] tail[j] == vs[j + from]);
        assert forall|j: int| 0 <= j < tail.len() implies (#[trigger] shifted(tail[j], up)) is Some by {
            assert(shifted(vs[j + from], up) == Some(out@[j + from]@));
        }
        let t = tail.map_values(|l: Seq<char>| shifted(l, up)->0);
        assert(views(out@) =~= vs.subrange(0, from as int) + t) by {
            assert forall|j: int| 0 <= j < out@.len() implies #[trigger] views(out@)[j] == (vs.subrange(0, from as int) + t)[j] by {
                if j >= from {
                    assert(shifted(vs[j], up) == Some(out@[j]@));
                    assert(tail[j - from] == vs[j]);
                }
            }
        }
    }
    Ok(out)
}

/// Adds `task` at line `target`, or after the last line where there is no
/// target, and gives the new text of the list.
///
/// At the end the line "<count + 1>. <task>" is appended to the text as it
/// stands. At a target line the task takes that position and each line from
/// there on moves one down, its number raised by one; the text is then
/// rewritten line by line. A target of 0 or beyond `count + 1` is refused.
pub fn add(content: &str, task: &str, target: Option<usize>) -> (r: Result<String, TodoError>)
    requires
        content@.len() < usize::MAX,
    ensures
        text_result(r) == add_spec(content@, task@, target),
{
    let lines = split_lines(content);
    let count = lines.len();
    proof {
        lemma_lines_of_len(content@);
        reveal_strlit(". ");
        reveal_strlit("\n");
    }
    match target {
        None => {
            let mut s = String::from_str(content);
            s.append(decimal_string(count + 1).as_str());
            s.append(". ");
            s.append(task);
            s.append("\n");
            assert(s@ =~= content@ + task_line((count + 1) as nat, task@) + seq!['\n']);
            Ok(s)
        },
        Some(l) => {
            if l == 0 || l > count + 1 {
                return Err(TodoError::InvalidLineNumber);
            }
            let mut line = decimal_string(l);
            line.append(". ");
            line.append(task);
            assert(line@ =~= task_line(l as nat, task@));
            let mut lines = lines;
            let ghost before = lines@;
            lines.insert(l - 1, line);
            assert(views(lines@) =~= views(before).insert(l - 1, line@));
            match shift_lines(&lines, l, true) {
                Ok(shifted) => Ok(join_lines(&shifted)),
                Err(e) => Err(e),
            }
        },
    }
}

/// Removes line `target`, or the last line where there is no target, and
/// says what becomes of the file.
///
/// Each line after the removed one moves one up, its number lowered by one.
/// A list with no line gives `EmptyList`; a list whose only line goes is
/// deleted. A target of 0 or beyond the last line is refused.
pub fn remove(content: &str, target: Option<usize>) -> (r: Result<Edit, TodoError>)
    ensures
        edit_result(r) == remove_spec(content@, target),
{
    let lines = split_lines(content);
    let count = lines.len();
    if count == 0 {
        return Err(TodoError::EmptyList);
    }
    match target {
        None => {
            if count == 1 {
                return Ok(Edit::Delete);
            }
            let mut lines = lines;
            let ghost before = lines@;
            lines.pop();
            assert(views(lines@) =~= views(before).drop_last());
            Ok(Edit::Write(join_lines(&lines)))
        },
        Some(l) => {
            if l == 0 || l > count {
                return Err(TodoError::InvalidLineNumber);
            }
            if count == 1 {
                return Ok(Edit::Delete);
            }
            let mut lines = lines;
            let ghost before = lines@;
            lines.remove(l - 1);
            assert(views(lines@) =~= views(before).remove(l - 1));
            match shift_lines(&lines, l - 1, false) {
                Ok(shifted) => Ok(Edit::Write(join_lines(&shifted))),
                Err(e) => Err(e),
            }
        },
    }
}

} // verus!
