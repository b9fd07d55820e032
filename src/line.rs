//! One numbered line, "<number>.<rest>", and changing its number.
use vstd::prelude::*;

use crate::number::{decimal, decimal_string, lemma_decimal, parse_number, parse_number_at};
use crate::text::{chars_of, first_index, lemma_first_index, lemma_first_index_at};
use crate::TodoError;

verus! {

/// Where the number of a line ends: at its first `.`, or at its end.
pub open spec fn dot_index(l: Seq<char>) -> int {
    first_index(l, '.') as int
}

/// The text before the first `.`.
pub open spec fn number_part(l: Seq<char>) -> Seq<char> {
    l.subrange(0, dot_index(l))
}

/// The text from the first `.` on (empty where there is none).
pub open spec fn rest_part(l: Seq<char>) -> Seq<char> {
    l.subrange(dot_index(l), l.len() as int)
}

/// The number that a line starts with, if it starts with one.
pub open spec fn line_number(l: Seq<char>) -> Option<nat> {
    parse_number(number_part(l))
}

/// The line with its number replaced by `m`.
pub open spec fn with_number(l: Seq<char>, m: nat) -> Seq<char> {
    decimal(m) + rest_part(l)
}

/// The line that `edit_line_number` makes when the new number is `m`.
pub open spec fn renumbered(l: Seq<char>, m: Option<usize>) -> Result<Seq<char>, TodoError> {
    match m {
        Some(k) => Ok(with_number(l, k as nat)),
        None => Err(TodoError::MalformedLine),
    }
}

pub open spec fn text_result(r: Result<String, TodoError>) -> Result<Seq<char>, TodoError> {
    match r {
        Ok(s) => Ok(s@),
        Err(e) => Err(e),
    }
}

pub proof fn lemma_with_number(l: Seq<char>, m: nat)
    requires
        m <= usize::MAX,
    ensures
        line_number(with_number(l, m)) == Some(m),
        rest_part(with_number(l, m)) == rest_part(l),
{
    lemma_decimal(m);
    lemma_first_index(l, '.');
    let d = decimal(m);
    let w = with_number(l, m);
    let r = rest_part(l);
    assert forall|j: int| 0 <= j < d.len() implies w[j] != '.' by {
        assert(w[j] == d[j]);
    }
    if d.len() < w.len() {
        assert(w[d.len() as int] == r[0]);
    }
    lemma_first_index_at(w, '.', d.len() as int);
    assert(number_part(w) =~= d);
    assert(rest_part(w) =~= r);
}

/// Replaces the number `n` that `line` starts with by `f(n)`, keeping the
/// rest of the line from its first `.` on. A line that does not start with a
/// number, or for which `f` gives no number, is malformed.
pub fn edit_line_number<F: FnOnce(usize) -> Option<usize>>(line: &str, f: F) -> (r: Result<
    String,
    TodoError,
>)
    requires
        line_number(line@) matches Some(n) ==> f.requires((n as usize,)),
    ensures
        line_number(line@) is None ==> r == Err::<String, TodoError>(TodoError::MalformedLine),
        line_number(line@) matches Some(n) ==> exists|m: Option<usize>|
            f.ensures((n as usize,), m) && text_result(r) == renumbered(line@, m),
{
    let cs = chars_of(line);
    let len = cs.len();
    let mut k: usize = 0;
    while k < len && cs[k] != '.'
        invariant
            k <= len == cs@.len(),
            cs@ == line@,
            forall|j: int| 0 <= j < k ==> cs@[j] != '.',
        decreases len - k,
    {
        k = k + 1;
    }
    proof {
        lemma_first_index_at(line@, '.', k as int);
    }
    let n = match parse_number_at(&cs, 0, k) {
        Some(n) => n,
        None => {
            return Err(TodoError::MalformedLine);
        },
    };
    let m = f(n);
    let r = match m {
        Some(k2) => {
            let mut s = decimal_string(k2);
            s.append(line.substring_char(k, len));
            Ok(s)
        },
        None => Err(TodoError::MalformedLine),
    };
    assert(text_result(r) =~~= renumbered(line@, m));
    r
}

} // verus!
