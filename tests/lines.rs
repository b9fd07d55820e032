use tasklist::line::edit_line_number;
use tasklist::number::{decimal_string, parse_number_at};
use tasklist::text::{chars_of, count_lines, split_lines};
use tasklist::TodoError;

fn chars(s: &str) -> Vec<char> {
    s.chars().collect()
}

#[test]
fn edit_raises_number() {
    assert_eq!(edit_line_number("12. a.b", |n| Some(n + 1)), Ok(String::from("13. a.b")));
}

#[test]
fn edit_lowers_number() {
    assert_eq!(edit_line_number("10. x", |n| n.checked_sub(1)), Ok(String::from("9. x")));
}

#[test]
fn edit_line_without_period() {
    assert_eq!(edit_line_number("5", |n| Some(n * 2)), Ok(String::from("10")));
}

#[test]
fn edit_accepts_plus_sign() {
    assert_eq!(edit_line_number("+7. x", |n| Some(n + 1)), Ok(String::from("8. x")));
}

#[test]
fn edit_drops_leading_zeros() {
    assert_eq!(edit_line_number("007. x", |n| Some(n)), Ok(String::from("7. x")));
}

#[test]
fn edit_rejects_malformed() {
    assert_eq!(edit_line_number("abc. x", |n| Some(n)), Err(TodoError::MalformedLine));
    assert_eq!(edit_line_number(". x", |n| Some(n)), Err(TodoError::MalformedLine));
    assert_eq!(edit_line_number("", |n| Some(n)), Err(TodoError::MalformedLine));
    assert_eq!(edit_line_number("-1. x", |n| Some(n)), Err(TodoError::MalformedLine));
    assert_eq!(edit_line_number("+. x", |n| Some(n)), Err(TodoError::MalformedLine));
    assert_eq!(edit_line_number(" 1. x", |n| Some(n)), Err(TodoError::MalformedLine));
}

#[test]
fn edit_rejects_number_too_large() {
    let line = "99999999999999999999999999. x";
    assert_eq!(edit_line_number(line, |n| Some(n)), Err(TodoError::MalformedLine));
}

#[test]
fn edit_reports_refused_number() {
    assert_eq!(edit_line_number("0. x", |n: usize| n.checked_sub(1)), Err(TodoError::MalformedLine));
}

#[test]
fn decimal_digits() {
    assert_eq!(decimal_string(0), "0");
    assert_eq!(decimal_string(7), "7");
    assert_eq!(decimal_string(1234), "1234");
    assert_eq!(decimal_string(usize::MAX), usize::MAX.to_string());
}

#[test]
fn parse_numbers() {
    let s = chars("x42.y");
    assert_eq!(parse_number_at(&s, 1, 3), Some(42));
    assert_eq!(parse_number_at(&s, 0, 3), None);
    assert_eq!(parse_number_at(&s, 1, 1), None);
    let m = usize::MAX.to_string();
    assert_eq!(parse_number_at(&chars(&m), 0, m.len()), Some(usize::MAX));
    let over = format!("{}0", m);
    assert_eq!(parse_number_at(&chars(&over), 0, over.len()), None);
    assert_eq!(parse_number_at(&chars("+3"), 0, 2), Some(3));
}

#[test]
fn split_like_str_lines() {
    assert_eq!(split_lines("a\r\nb\n\nc"), vec!["a", "b", "", "c"]);
    assert_eq!(split_lines("x\r"), vec!["x\r"]);
    assert_eq!(split_lines(""), Vec::<String>::new());
    assert_eq!(split_lines("\n"), vec![""]);
    assert_eq!(split_lines("1. a\n2. b\n"), vec!["1. a", "2. b"]);
}

#[test]
fn count_matches_lines() {
    assert_eq!(count_lines("1. a\n2. b\n"), 2);
    assert_eq!(count_lines(""), 0);
    assert_eq!(count_lines("one"), 1);
}

#[test]
fn chars_of_unicode() {
    assert_eq!(chars_of("é1√"), vec!['é', '1', '√']);
}
