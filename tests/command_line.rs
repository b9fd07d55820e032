use tasklist::args::{parse_args, Args, ArgsError};
use tasklist::number::parse_i32_at;
use tasklist::Op;

fn words(ws: &[&str]) -> Vec<String> {
    ws.iter().map(|w| String::from(*w)).collect()
}

fn args(op: Op, path: &str, line_number: Option<usize>) -> Args {
    Args { op, path: String::from(path), line_number }
}

#[test]
fn add_with_defaults() {
    assert_eq!(
        parse_args(&words(&["add", "buy milk"])),
        Ok(args(Op::Add(String::from("buy milk")), "./todo.txt", None))
    );
}

#[test]
fn add_with_line_and_path() {
    assert_eq!(
        parse_args(&words(&["add", "x", "-3", "-p", "list.txt"])),
        Ok(args(Op::Add(String::from("x")), "list.txt", Some(3)))
    );
}

#[test]
fn remove_and_list() {
    assert_eq!(parse_args(&words(&["remove", "-2"])), Ok(args(Op::Remove, "./todo.txt", Some(2))));
    assert_eq!(parse_args(&words(&["list", "-p", "a.txt"])), Ok(args(Op::List, "a.txt", None)));
}

#[test]
fn last_line_option_wins() {
    assert_eq!(parse_args(&words(&["remove", "-2", "-5"])), Ok(args(Op::Remove, "./todo.txt", Some(5))));
}

#[test]
fn last_path_option_wins() {
    assert_eq!(
        parse_args(&words(&["list", "-p", "a", "-p", "b"])),
        Ok(args(Op::List, "b", None))
    );
}

#[test]
fn unparsable_options_are_ignored() {
    assert_eq!(
        parse_args(&words(&["remove", "-x", "7", "-99999999999"])),
        Ok(args(Op::Remove, "./todo.txt", None))
    );
}

#[test]
fn non_positive_line_is_refused() {
    assert_eq!(parse_args(&words(&["remove", "-0"])), Err(ArgsError::LineNumberNotPositive));
    assert_eq!(parse_args(&words(&["add", "t", "-4", "--2"])), Err(ArgsError::LineNumberNotPositive));
}

#[test]
fn usage_errors() {
    assert_eq!(parse_args(&words(&[])), Err(ArgsError::Usage));
    assert_eq!(parse_args(&words(&["add"])), Err(ArgsError::Usage));
    assert_eq!(parse_args(&words(&["show"])), Err(ArgsError::Usage));
}

#[test]
fn task_word_is_not_an_option() {
    assert_eq!(
        parse_args(&words(&["add", "-5"])),
        Ok(args(Op::Add(String::from("-5")), "./todo.txt", None))
    );
}

#[test]
fn i32_parsing() {
    let c = |s: &str| -> Vec<char> { s.chars().collect() };
    assert_eq!(parse_i32_at(&c("-12"), 0, 3), Some(-12));
    assert_eq!(parse_i32_at(&c("+12"), 0, 3), Some(12));
    assert_eq!(parse_i32_at(&c("2147483647"), 0, 10), Some(i32::MAX));
    assert_eq!(parse_i32_at(&c("2147483648"), 0, 10), None);
    assert_eq!(parse_i32_at(&c("-2147483648"), 0, 11), Some(i32::MIN));
    assert_eq!(parse_i32_at(&c("-2147483649"), 0, 11), None);
    assert_eq!(parse_i32_at(&c("-"), 0, 1), None);
    assert_eq!(parse_i32_at(&c("-+1"), 0, 3), None);
}
