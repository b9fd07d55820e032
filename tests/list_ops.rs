use tasklist::list::{add, join_lines, remove, Edit};
use tasklist::{run, Action, Op, TodoError};

const TWO: &str = "1. buy milk\n2. walk dog\n";
const THREE: &str = "1. a\n2. b\n3. c\n";

fn written(e: Result<Edit, TodoError>) -> String {
    match e {
        Ok(Edit::Write(s)) => s,
        other => panic!("expected a rewrite, got {:?}", other),
    }
}

#[test]
fn example_add_then_remove() {
    let added = add(TWO, "feed cat", Some(1)).unwrap();
    assert_eq!(added, "1. feed cat\n2. buy milk\n3. walk dog\n");
    let removed = written(remove(&added, Some(2)));
    assert_eq!(removed, "1. feed cat\n2. walk dog\n");
}

#[test]
fn append_writes_next_number() {
    assert_eq!(add(TWO, "feed cat", None).unwrap(), "1. buy milk\n2. walk dog\n3. feed cat\n");
}

#[test]
fn append_to_empty_file() {
    assert_eq!(add("", "first", None).unwrap(), "1. first\n");
}

#[test]
fn insert_into_empty_file() {
    assert_eq!(add("", "first", Some(1)).unwrap(), "1. first\n");
}

#[test]
fn append_matches_insert_after_last() {
    assert_eq!(add(THREE, "d", None), add(THREE, "d", Some(4)));
    assert_eq!(add(THREE, "d", None).unwrap(), "1. a\n2. b\n3. c\n4. d\n");
}

#[test]
fn insert_in_the_middle_shifts_later_lines() {
    assert_eq!(add(THREE, "x", Some(2)).unwrap(), "1. a\n2. x\n3. b\n4. c\n");
}

#[test]
fn insert_keeps_text_with_periods() {
    let r = add("1. see dr. who\n2. buy 1.5 kg\n", "new", Some(1)).unwrap();
    assert_eq!(r, "1. new\n2. see dr. who\n3. buy 1.5 kg\n");
}

#[test]
fn insert_rewrites_crlf_lines() {
    assert_eq!(add("1. a\r\n2. b\r\n", "x", Some(2)).unwrap(), "1. a\n2. x\n3. b\n");
}

#[test]
fn remove_in_the_middle_shifts_later_lines() {
    assert_eq!(written(remove(THREE, Some(2))), "1. a\n2. c\n");
    assert_eq!(written(remove(THREE, Some(1))), "1. b\n2. c\n");
}

#[test]
fn remove_without_target_drops_last_line() {
    assert_eq!(written(remove(THREE, None)), "1. a\n2. b\n");
}

#[test]
fn removing_only_task_deletes_file() {
    assert_eq!(remove("1. only\n", Some(1)), Ok(Edit::Delete));
    assert_eq!(remove("1. only\n", None), Ok(Edit::Delete));
}

#[test]
fn remove_from_empty_list() {
    assert_eq!(remove("", None), Err(TodoError::EmptyList));
    assert_eq!(remove("", Some(3)), Err(TodoError::EmptyList));
}

#[test]
fn target_beyond_count_plus_one_is_refused() {
    assert_eq!(add(THREE, "x", Some(5)), Err(TodoError::InvalidLineNumber));
    assert_eq!(remove(THREE, Some(5)), Err(TodoError::InvalidLineNumber));
}

#[test]
fn remove_target_just_past_the_end_is_refused() {
    assert_eq!(remove(THREE, Some(4)), Err(TodoError::InvalidLineNumber));
}

#[test]
fn target_zero_is_refused() {
    assert_eq!(add(THREE, "x", Some(0)), Err(TodoError::InvalidLineNumber));
    assert_eq!(remove(THREE, Some(0)), Err(TodoError::InvalidLineNumber));
}

#[test]
fn malformed_line_is_reported() {
    assert_eq!(add("1. a\nb without number\n", "x", Some(1)), Err(TodoError::MalformedLine));
    assert_eq!(remove("1. a\n2. b\nthree\n", Some(1)), Err(TodoError::MalformedLine));
}

#[test]
fn malformed_line_before_target_is_left_alone() {
    assert_eq!(add("oops\n2. b\n", "x", Some(2)).unwrap(), "oops\n2. x\n3. b\n");
}

#[test]
fn zero_numbered_line_cannot_move_up() {
    assert_eq!(remove("1. a\n0. b\n", Some(1)), Err(TodoError::MalformedLine));
}

#[test]
fn numbering_stays_contiguous_over_a_session() {
    let mut text = String::new();
    text = add(&text, "one", None).unwrap();
    text = add(&text, "two", None).unwrap();
    text = add(&text, "zero", Some(1)).unwrap();
    text = add(&text, "mid", Some(3)).unwrap();
    assert_eq!(text, "1. zero\n2. one\n3. mid\n4. two\n");
    text = written(remove(&text, Some(2)));
    assert_eq!(text, "1. zero\n2. mid\n3. two\n");
    text = written(remove(&text, None));
    assert_eq!(text, "1. zero\n2. mid\n");
    for (i, l) in text.lines().enumerate() {
        assert!(l.starts_with(&format!("{}. ", i + 1)));
    }
}

#[test]
fn join_lines_ends_each_line() {
    let v = vec![String::from("a"), String::from("b")];
    assert_eq!(join_lines(&v), "a\nb\n");
    assert_eq!(join_lines(&Vec::new()), "");
}

#[test]
fn run_dispatches_each_operation() {
    assert_eq!(
        run(Op::Add(String::from("c")), "1. a\n2. b\n", Some(2)),
        Ok(Action::Write(String::from("1. a\n2. c\n3. b\n")))
    );
    assert_eq!(run(Op::Remove, "1. a\n2. b\n", None), Ok(Action::Write(String::from("1. a\n"))));
    assert_eq!(run(Op::Remove, "1. a\n", None), Ok(Action::Delete));
    assert_eq!(run(Op::List, "1. a\n", None), Ok(Action::Print(String::from("1. a\n"))));
    assert_eq!(run(Op::Remove, "", None), Err(TodoError::EmptyList));
    assert_eq!(run(Op::Add(String::from("c")), "", Some(3)), Err(TodoError::InvalidLineNumber));
}
