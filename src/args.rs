//! The command line: which operation, at which line, on which file.
use vstd::prelude::*;

use crate::number::{parse_i32, parse_i32_at};
use crate::text::chars_of;
use crate::Op;

verus! {

/// An operation as the contracts see it.
pub enum OpView {
    Add(Seq<char>),
    Remove,
    List,
}

impl View for Op {
    type V = OpView;

    open spec fn view(&self) -> OpView {
        match self {
            Op::Add(task) => OpView::Add(task@),
            Op::Remove => OpView::Remove,
            Op::List => OpView::List,
        }
    }
}

/// What the command line asks for.
#[derive(Debug, Clone, PartialEq, Eq)]
pub struct Args {
    pub op: Op,
    pub path: String,
    /// The target line; `None` means the end of the list.
    pub line_number: Option<usize>,
}

/// Why a command line was refused.
#[derive(Debug, Clone, Copy, PartialEq, Eq, Structural)]
pub enum ArgsError {
    /// No known operation, or `add` without a task.
    Usage,
    /// A line number option that is zero or negative.
    LineNumberNotPositive,
}

pub open spec fn default_path() -> Seq<char> {
    seq!['.', '/', 't', 'o', 'd', 'o', '.', 't', 'x', 't']
}

/// The operation that the first words name, and where the options start.
pub open spec fn command_of(words: Seq<Seq<char>>) -> Option<(OpView, int)> {
    if words.len() == 0 {
        None
    } else if words[0] == seq!['a', 'd', 'd'] {
        if words.len() >= 2 {
            Some((OpView::Add(words[1]), 2))
        } else {
            None
        }
    } else if words[0] == seq!['r', 'e', 'm', 'o', 'v', 'e'] {
        Some((OpView::Remove, 1))
    } else if words[0] == seq!['l', 'i', 's', 't'] {
        Some((OpView::List, 1))
    } else {
        None
    }
}

/// The number that an option "-<n>" gives, read as an `i32`.
pub open spec fn flag_value(w: Seq<char>) -> Option<int> {
    if w.len() > 0 && w[0] == '-' {
        parse_i32(w.drop_first())
    } else {
        None
    }
}

/// The line number that the options give: the last "-<n>" wins, and any
/// "-<n>" with `n <= 0` is refused.
pub open spec fn line_option(opts: Seq<Seq<char>>) -> Result<Option<nat>, ArgsError>
    decreases opts.len(),
{
    if opts.len() == 0 {
        Ok(None)
    } else {
        match line_option(opts.drop_last()) {
            Err(e) => Err(e),
            Ok(prev) => match flag_value(opts.last()) {
                Some(v) => if v <= 0 {
                    Err(ArgsError::LineNumberNotPositive)
                } else {
                    Ok(Some(v as nat))
                },
                None => Ok(prev),
            },
        }
    }
}

/// The word after the last "-p" that has one.
pub open spec fn path_option(opts: Seq<Seq<char>>) -> Option<Seq<char>>
    decreases opts.len(),
{
    if opts.len() < 2 {
        None
    } else if opts[opts.len() - 2] == seq!['-', 'p'] {
        Some(opts.last())
    } else {
        path_option(opts.drop_last())
    }
}

/// The meaning of a command line (without the program's name).
pub open spec fn args_spec(words: Seq<Seq<char>>) -> Result<(OpView, Seq<char>, Option<nat>), ArgsError> {
    match command_of(words) {
        None => Err(ArgsError::Usage),
        Some((op, k)) => {
            let opts = words.subrange(k, words.len() as int);
            match line_option(opts) {
                Err(e) => Err(e),
                Ok(ln) => Ok(
                    (
                        op,
                        match path_option(opts) {
                            Some(p) => p,
                            None => default_path(),
                        },
                        ln,
                    ),
                ),
            }
        },
    }
}

pub open spec fn args_result(r: Result<Args, ArgsError>) -> Result<(OpView, Seq<char>, Option<nat>), ArgsError> {
    match r {
        Ok(a) => Ok(
            (
                a.op@,
                a.path@,
                match a.line_number {
                    Some(n) => Some(n as nat),
                    None => None,
                },
            ),
        ),
        Err(e) => Err(e),
    }
}

fn is_word(w: &String, lit: &str) -> (r: bool)
    ensures
        r == (w@ == lit@),
{
    *w == String::from_str(lit)
}

fn flag_number(w: &String) -> (r: Option<i32>)
    ensures
        r == (match flag_value(w@) {
            Some(v) => Some(v as i32),
            None => None::<i32>,
        }),
{
    let cs = chars_of(w.as_str());
    if cs.len() > 0 && cs[0] == '-' {
        assert(cs@.subrange(1, cs@.len() as int) =~= w@.drop_first());
        parse_i32_at(&cs, 1, cs.len())
    } else {
        None
    }
}

/// Reads a command line, without the program's name: an operation (`add`
/// with its task, `remove` or `list`), then options: "-<n>" for the target
/// line and "-p <path>" for the file (by default "./todo.txt").
pub fn parse_args(words: &Vec<String>) -> (r: Result<Args, ArgsError>)
    ensures
        args_result(r) == args_spec(words@.map_values(|w: String| w@)),
{
    let ghost ws = words@.map_values(|w: String| w@);
    proof {
        reveal_strlit("add");
        reveal_strlit("remove");
        reveal_strlit("list");
        reveal_strlit("-p");
        reveal_strlit("./todo.txt");
        assert("add"@ =~= seq!['a', 'd', 'd']);
        assert("remove"@ =~= seq!['r', 'e', 'm', 'o', 'v', 'e']);
        assert("list"@ =~= seq!['l', 'i', 's', 't']);
        assert("-p"@ =~= seq!['-', 'p']);
        assert("./todo.txt"@ =~= default_path());
        assert(ws.len() == words@.len());
        assert(forall|j: int| 0 <= j < ws.len() ==> #[trigger] ws[j] == words@[j]@);
    }
    if words.len() == 0 {
        return Err(ArgsError::Usage);
    }
    let (op, start) = if is_word(&words[0], "add") {
        if words.len() < 2 {
            return Err(ArgsError::Usage);
        }
        (Op::Add(words[1].clone()), 2)
    } else if is_word(&words[0], "remove") {
        (Op::Remove, 1)
    } else if is_word(&words[0], "list") {
        (Op::List, 1)
    } else {
        assert(command_of(ws) is None);
        return Err(ArgsError::Usage);
    };
    let start: usize = start;
    assert(command_of(ws) == Some((op@, start as int)));
    let ghost opts = ws.subrange(start as int, ws.len() as int);
    let mut line_number: Option<usize> = None;
    let mut path = String::from_str("./todo.txt");
    let mut i = start;
    while i < words.len()
        invariant
            start <= i <= words@.len(),
            ws == words@.map_values(|w: String| w@),
            ws.len() == words@.len(),
            forall|j: int| 0 <= j < ws.len() ==> #[trigger] ws[j] == words@[j]@,
            "-p"@ == seq!['-', 'p'],
            command_of(ws) == Some((op@, start as int)),
            opts == ws.subrange(start as int, ws.len() as int),
            line_option(ws.subrange(start as int, i as int)) == Ok::<Option<nat>, ArgsError>(
                match line_number {
                    Some(n) => Some(n as nat),
                    None => None,
                },
            ),
            path@ == (match path_option(ws.subrange(start as int, i as int)) {
                Some(p) => p,
                None => default_path(),
            }),
        decreases words@.len() - i,
    {
        let ghost prev = ws.subrange(start as int, i as int);
        let ghost next = ws.subrange(start as int, i as int + 1);
        assert(next.drop_last() =~= prev);
        assert(next.last() == words@[i as int]@);
        match flag_number(&words[i]) {
            Some(v) => {
                if v <= 0 {
                    proof {
                        assert(opts.subrange(0, (i - start) as int + 1) =~= next);
                        assert(flag_value(next.last()) == Some(v as int));
                        assert(line_option(next) == Err::<Option<nat>, ArgsError>(
                            ArgsError::LineNumberNotPositive,
                        ));
                        lemma_line_option_sticks(opts, (i - start) as int + 1);
                    }
                    return Err(ArgsError::LineNumberNotPositive);
                }
                line_number = Some(v as usize);
            },
            None => {},
        }
        if i > start && is_word(&words[i - 1], "-p") {
            path = words[i].clone();
        }
        proof {
            if i > start {
                assert(next[next.len() - 2] == words@[i - 1]@);
            }
        }
        i = i + 1;
    }
    assert(ws.subrange(start as int, i as int) =~= opts);
    Ok(Args { op, path, line_number })
}

/// Once a prefix of the options is refused, the whole is.
proof fn lemma_line_option_sticks(opts: Seq<Seq<char>>, k: int)
    requires
        0 <= k <= opts.len(),
        line_option(opts.subrange(0, k)) is Err,
    ensures
        line_option(opts) == line_option(opts.subrange(0, k)),
    decreases opts.len() - k,
{
    if k < opts.len() {
        let next = opts.subrange(0, k + 1);
        assert(next.drop_last() =~= opts.subrange(0, k));
        lemma_line_option_sticks(opts, k + 1);
    } else {
        assert(opts.subrange(0, k) =~= opts);
    }
}

} // verus!
