//! What holds across the operations: the numbering stays contiguous, a task
//! lands where it was asked for, and the other tasks keep their text.
use vstd::prelude::*;

use crate::line::{lemma_with_number, line_number, rest_part, with_number};
use crate::list::{add_spec, bumped, lowered, remove_spec, shift_all, shifted, task_line};
use crate::number::{decimal, lemma_decimal};
use crate::text::{
    all_clean, clean_line, first_index, lemma_first_index, lemma_first_index_at,
    lemma_lines_of_len, lemma_lines_of_render, lemma_render_push, lines_of, render,
};
use crate::TodoError;

verus! {

/// Each line starts with its position, counted from 1.
pub open spec fn numbered(ls: Seq<Seq<char>>) -> bool {
    forall|i: int| 0 <= i < ls.len() ==> line_number(#[trigger] ls[i]) == Some((i + 1) as nat)
}

/// Text in which every line ends with a newline, as this library writes it.
pub open spec fn canonical(content: Seq<char>) -> bool {
    render(lines_of(content)) == content
}

/// A list file as this library keeps it: canonical text whose lines are
/// numbered 1, 2, ... in order and read back as they were written.
pub open spec fn well_formed(content: Seq<char>) -> bool {
    &&& canonical(content)
    &&& all_clean(lines_of(content))
    &&& numbered(lines_of(content))
}

proof fn lemma_task_line(m: nat, task: Seq<char>)
    requires
        m <= usize::MAX,
        clean_line(task),
    ensures
        line_number(task_line(m, task)) == Some(m),
        rest_part(task_line(m, task)) == seq!['.', ' '] + task,
        clean_line(task_line(m, task)),
{
    lemma_decimal(m);
    let d = decimal(m);
    let t = task_line(m, task);
    assert(t == with_number(seq!['.', ' '] + task, m)) by {
        let x = seq!['.', ' '] + task;
        lemma_first_index_at(x, '.', 0);
        assert(rest_part(x) =~= x);
        assert(t =~= d + x);
    }
    lemma_with_number(seq!['.', ' '] + task, m);
    assert(rest_part(seq!['.', ' '] + task) =~= seq!['.', ' '] + task) by {
        lemma_first_index_at(seq!['.', ' '] + task, '.', 0);
    }
    assert(!t.contains('\n')) by {
        if t.contains('\n') {
            let j = choose|j: int| 0 <= j < t.len() && t[j] == '\n';
            if j < d.len() {
                assert(d[j] == '\n');
            } else if j >= d.len() + 2 {
                assert(task[j - d.len() - 2] == '\n');
            }
        }
    }
    if task.len() > 0 {
        assert(t.last() == task.last());
    }
}

proof fn lemma_with_number_clean(l: Seq<char>, m: nat)
    requires
        clean_line(l),
    ensures
        clean_line(with_number(l, m)),
{
    lemma_decimal(m);
    lemma_first_index(l, '.');
    let d = decimal(m);
    let r = rest_part(l);
    let w = with_number(l, m);
    let k = first_index(l, '.') as int;
    assert(!w.contains('\n')) by {
        if w.contains('\n') {
            let j = choose|j: int| 0 <= j < w.len() && w[j] == '\n';
            if j < d.len() {
                assert(d[j] == '\n');
            } else {
                assert(l[k + j - d.len()] == '\n');
            }
        }
    }
    if r.len() > 0 {
        assert(w.last() == l.last());
    } else {
        assert(w.last() == d.last());
    }
}

proof fn lemma_shift_up(tail: Seq<Seq<char>>, first: nat)
    requires
        forall|j: int| 0 <= j < tail.len() ==> line_number(#[trigger] tail[j]) == Some((first + j) as nat),
        first + tail.len() <= usize::MAX,
        all_clean(tail),
    ensures
        shift_all(tail, true) is Some,
        ({
            let t = shift_all(tail, true)->0;
            &&& t.len() == tail.len()
            &&& all_clean(t)
            &&& forall|j: int|
                0 <= j < t.len() ==> {
                    &&& #[trigger] t[j] == with_number(tail[j], (first + j + 1) as nat)
                    &&& line_number(t[j]) == Some((first + j + 1) as nat)
                    &&& rest_part(t[j]) == rest_part(tail[j])
                }
        }),
{
    assert forall|j: int| 0 <= j < tail.len() implies (#[trigger] shifted(tail[j], true)) is Some by {
        assert(line_number(tail[j]) == Some((first + j) as nat));
    }
    let t = shift_all(tail, true)->0;
    assert forall|j: int| 0 <= j < t.len() implies {
        &&& #[trigger] t[j] == with_number(tail[j], (first + j + 1) as nat)
        &&& line_number(t[j]) == Some((first + j + 1) as nat)
        &&& rest_part(t[j]) == rest_part(tail[j])
        &&& clean_line(t[j])
    } by {
        assert(line_number(tail[j]) == Some((first + j) as nat));
        assert(bumped(tail[j]) == Some(with_number(tail[j], (first + j + 1) as nat)));
        lemma_with_number(tail[j], (first + j + 1) as nat);
        assert(clean_line(tail[j]));
        lemma_with_number_clean(tail[j], (first + j + 1) as nat);
    }
}

proof fn lemma_shift_down(tail: Seq<Seq<char>>, first: nat)
    requires
        forall|j: int| 0 <= j < tail.len() ==> line_number(#[trigger] tail[j]) == Some((first + j) as nat),
        first >= 1,
        all_clean(tail),
    ensures
        shift_all(tail, false) is Some,
        ({
            let t = shift_all(tail, false)->0;
            &&& t.len() == tail.len()
            &&& all_clean(t)
            &&& forall|j: int|
                0 <= j < t.len() ==> {
                    &&& #[trigger] t[j] == with_number(tail[j], (first + j - 1) as nat)
                    &&& line_number(t[j]) == Some((first + j - 1) as nat)
                    &&& rest_part(t[j]) == rest_part(tail[j])
                }
        }),
{
    assert forall|j: int| 0 <= j < tail.len() implies (#[trigger] shifted(tail[j], false)) is Some by {
        assert(line_number(tail[j]) == Some((first + j) as nat));
    }
    let t = shift_all(tail, false)->0;
    assert forall|j: int| 0 <= j < t.len() implies {
        &&& #[trigger] t[j] == with_number(tail[j], (first + j - 1) as nat)
        &&& line_number(t[j]) == Some((first + j - 1) as nat)
        &&& rest_part(t[j]) == rest_part(tail[j])
        &&& clean_line(t[j])
    } by {
        assert(line_number(tail[j]) == Some((first + j) as nat));
        assert(lowered(tail[j]) == Some(with_number(tail[j], (first + j - 1) as nat)));
        assert(line_number(tail[j])->0 <= usize::MAX);
        lemma_with_number(tail[j], (first + j - 1) as nat);
        assert(clean_line(tail[j]));
        lemma_with_number_clean(tail[j], (first + j - 1) as nat);
    }
}

/// Adding a task at line `l` of a list of `n` tasks (`1 <= l <= n + 1`) gives
/// a list of `n + 1` tasks: the lines before `l` stay as they were, line `l`
/// is "<l>. <task>", and each former line from `l` on moves one down with its
/// number raised by one and the rest of its text kept.
pub proof fn lemma_insert_places_task(content: Seq<char>, task: Seq<char>, l: usize)
    requires
        well_formed(content),
        clean_line(task),
        content.len() < usize::MAX,
        1 <= l <= lines_of(content).len() + 1,
    ensures
        add_spec(content, task, Some(l)) is Ok,
        well_formed(add_spec(content, task, Some(l))->Ok_0),
        ({
            let old = lines_of(content);
            let new = lines_of(add_spec(content, task, Some(l))->Ok_0);
            &&& new.len() == old.len() + 1
            &&& new[l - 1] == task_line(l as nat, task)
            &&& forall|i: int| 0 <= i < l - 1 ==> #[trigger] new[i] == old[i]
            &&& forall|i: int|
                l <= i < new.len() ==> {
                    &&& #[trigger] new[i] == with_number(old[i - 1], (i + 1) as nat)
                    &&& rest_part(new[i]) == rest_part(old[i - 1])
                }
        }),
{
    let old = lines_of(content);
    let n = old.len();
    lemma_lines_of_len(content);
    lemma_task_line(l as nat, task);
    let tl = task_line(l as nat, task);
    let ins = old.insert(l - 1, tl);
    let tail = ins.subrange(l as int, ins.len() as int);
    assert forall|j: int| 0 <= j < tail.len() implies line_number(#[trigger] tail[j]) == Some((l + j) as nat) by {
        assert(tail[j] == old[l - 1 + j]);
    }
    assert forall|j: int| 0 <= j < tail.len() implies clean_line(#[trigger] tail[j]) by {
        assert(tail[j] == old[l - 1 + j]);
    }
    lemma_shift_up(tail, l as nat);
    let t = shift_all(tail, true)->0;
    let new = ins.subrange(0, l as int) + t;
    assert(new.len() == n + 1);
    assert(new[l - 1] == tl);
    assert forall|i: int| 0 <= i < l - 1 implies #[trigger] new[i] == old[i] by {}
    assert forall|i: int| l <= i < new.len() implies {
        &&& #[trigger] new[i] == with_number(old[i - 1], (i + 1) as nat)
        &&& rest_part(new[i]) == rest_part(old[i - 1])
    } by {
        assert(new[i] == t[i - l]);
        assert(tail[i - l] == old[i - 1]);
    }
    assert(all_clean(new)) by {
        assert forall|i: int| 0 <= i < new.len() implies clean_line(#[trigger] new[i]) by {
            if i >= l {
                assert(new[i] == t[i - l]);
            }
        }
    }
    assert(numbered(new)) by {
        assert forall|i: int| 0 <= i < new.len() implies line_number(#[trigger] new[i]) == Some((i + 1) as nat) by {
            if i >= l {
                assert(new[i] == t[i - l]);
            }
        }
    }
    assert(add_spec(content, task, Some(l)) == Ok::<Seq<char>, TodoError>(render(new)));
    lemma_lines_of_render(new);
}

/// On canonical text, adding a task with no target line gives the same text
/// as adding it at line `count + 1`.
pub proof fn lemma_append_is_insert_at_end(content: Seq<char>, task: Seq<char>)
    requires
        canonical(content),
        lines_of(content).len() < usize::MAX,
    ensures
        add_spec(content, task, None) == add_spec(
            content,
            task,
            Some((lines_of(content).len() + 1) as usize),
        ),
{
    let ls = lines_of(content);
    let n = ls.len();
    let tl = task_line((n + 1) as nat, task);
    let ins = ls.insert(n as int, tl);
    assert(ins =~= ls.push(tl));
    let tail = ins.subrange(n as int + 1, ins.len() as int);
    assert(tail =~= Seq::<Seq<char>>::empty());
    assert(shift_all(tail, true) == Some(Seq::<Seq<char>>::empty()));
    assert(ins.subrange(0, n as int + 1) + Seq::<Seq<char>>::empty() =~= ls.push(tl));
    lemma_render_push(ls, tl);
}

/// Adding a task to a well-formed list, at its end or at a line from 1 to
/// `count + 1`, succeeds and leaves a well-formed list: its lines are
/// numbered 1 to the new count, in order.
pub proof fn lemma_add_keeps_numbering(content: Seq<char>, task: Seq<char>, target: Option<usize>)
    requires
        well_formed(content),
        clean_line(task),
        content.len() < usize::MAX,
        target matches Some(l) ==> 1 <= l <= lines_of(content).len() + 1,
    ensures
        add_spec(content, task, target) is Ok,
        well_formed(add_spec(content, task, target)->Ok_0),
{
    lemma_lines_of_len(content);
    let n = lines_of(content).len();
    match target {
        Some(l) => {
            lemma_insert_places_task(content, task, l);
        },
        None => {
            lemma_append_is_insert_at_end(content, task);
            lemma_insert_places_task(content, task, (n + 1) as usize);
        },
    }
}

/// Removing line `l` from a list of `n >= 2` tasks (`1 <= l <= n`) gives a
/// list of `n - 1` tasks: the lines before `l` stay as they were, and each
/// line after it moves one up with its number lowered by one and the rest of
/// its text kept. The removed line is not among them.
pub proof fn lemma_remove_drops_line(content: Seq<char>, l: usize)
    requires
        well_formed(content),
        lines_of(content).len() >= 2,
        1 <= l <= lines_of(content).len(),
    ensures
        remove_spec(content, Some(l)) matches Ok(Some(t)) && well_formed(t) && ({
            let old = lines_of(content);
            let new = lines_of(t);
            &&& new.len() == old.len() - 1
            &&& forall|i: int| 0 <= i < l - 1 ==> #[trigger] new[i] == old[i]
            &&& forall|i: int|
                l - 1 <= i < new.len() ==> {
                    &&& #[trigger] new[i] == with_number(old[i + 1], (i + 1) as nat)
                    &&& rest_part(new[i]) == rest_part(old[i + 1])
                }
        }),
{
    let old = lines_of(content);
    let n = old.len();
    let rem = old.remove(l - 1);
    let tail = rem.subrange(l - 1, rem.len() as int);
    assert forall|j: int| 0 <= j < tail.len() implies line_number(#[trigger] tail[j]) == Some((l + j + 1) as nat) by {
        assert(tail[j] == old[l + j]);
    }
    assert forall|j: int| 0 <= j < tail.len() implies clean_line(#[trigger] tail[j]) by {
        assert(tail[j] == old[l + j]);
    }
    lemma_shift_down(tail, (l + 1) as nat);
    let t = shift_all(tail, false)->0;
    let new = rem.subrange(0, l - 1) + t;
    assert(new.len() == n - 1);
    assert forall|i: int| 0 <= i < l - 1 implies #[trigger] new[i] == old[i] by {}
    assert forall|i: int| l - 1 <= i < new.len() implies {
        &&& #[trigger] new[i] == with_number(old[i + 1], (i + 1) as nat)
        &&& rest_part(new[i]) == rest_part(old[i + 1])
    } by {
        assert(new[i] == t[i - (l - 1)]);
        assert(tail[i - (l - 1)] == old[i + 1]);
    }
    assert(all_clean(new)) by {
        assert forall|i: int| 0 <= i < new.len() implies clean_line(#[trigger] new[i]) by {
            if i >= l - 1 {
                assert(new[i] == t[i - (l - 1)]);
            }
        }
    }
    assert(numbered(new)) by {
        assert forall|i: int| 0 <= i < new.len() implies line_number(#[trigger] new[i]) == Some((i + 1) as nat) by {
            if i >= l - 1 {
                assert(new[i] == t[i - (l - 1)]);
            }
        }
    }
    lemma_lines_of_render(new);
}

/// Removing a task from a well-formed list, the last one or one at a line
/// from 1 to `count`, succeeds; where tasks are left the list is well formed,
/// and where none is left the file is deleted.
pub proof fn lemma_remove_keeps_numbering(content: Seq<char>, target: Option<usize>)
    requires
        well_formed(content),
        lines_of(content).len() >= 1,
        target matches Some(l) ==> 1 <= l <= lines_of(content).len(),
    ensures
        remove_spec(content, target) is Ok,
        remove_spec(content, target)->Ok_0 is None <==> lines_of(content).len() == 1,
        remove_spec(content, target) matches Ok(Some(t)) ==> well_formed(t),
{
    let old = lines_of(content);
    let n = old.len();
    if n >= 2 {
        match target {
            Some(l) => {
                lemma_remove_drops_line(content, l);
            },
            None => {
                let new = old.drop_last();
                assert(all_clean(new)) by {
                    assert forall|i: int| 0 <= i < new.len() implies clean_line(#[trigger] new[i]) by {
                        assert(new[i] == old[i]);
                    }
                }
                assert(numbered(new)) by {
                    assert forall|i: int| 0 <= i < new.len() implies line_number(#[trigger] new[i]) == Some((i + 1) as nat) by {
                        assert(new[i] == old[i]);
                    }
                }
                lemma_lines_of_render(new);
            },
        }
    }
}

/// Removing the only task of a one-task list deletes the file.
pub proof fn lemma_last_task_deletes_file(content: Seq<char>, target: Option<usize>)
    requires
        lines_of(content).len() == 1,
        target matches Some(l) ==> l == 1,
    ensures
        remove_spec(content, target) == Ok::<Option<Seq<char>>, TodoError>(None),
{
}

/// A target line beyond `count + 1` is refused with `InvalidLineNumber`, and
/// no new text is produced: by `add` always, and by `remove` on a list that
/// holds a task.
pub proof fn lemma_out_of_range_rejected(content: Seq<char>, task: Seq<char>, l: usize)
    requires
        l > lines_of(content).len() + 1,
    ensures
        add_spec(content, task, Some(l)) == Err::<Seq<char>, TodoError>(TodoError::InvalidLineNumber),
        lines_of(content).len() >= 1 ==> remove_spec(content, Some(l)) == Err::<
            Option<Seq<char>>,
            TodoError,
        >(TodoError::InvalidLineNumber),
{
}

} // verus!
