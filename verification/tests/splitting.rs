//! The line splitter that turns whole file text into source lines.
use plates::text::split_lines;

fn lines_of(text: &str) -> Vec<String> {
    split_lines(text)
}

#[test]
fn split_plain_lines() {
    assert_eq!(vec!["a".to_string(), "b".to_string()], lines_of("a\nb"));
}

#[test]
fn split_strips_carriage_returns() {
    assert_eq!(
        vec!["PUSH 1".to_string(), "EXIT".to_string()],
        lines_of("PUSH 1\r\nEXIT\r\n")
    );
}

#[test]
fn split_final_newline_opens_no_line() {
    assert_eq!(vec!["a".to_string()], lines_of("a\n"));
    let empty: Vec<String> = vec![];
    assert_eq!(empty, lines_of(""));
}

#[test]
fn split_keeps_empty_interior_lines() {
    assert_eq!(
        vec!["".to_string(), "x".to_string(), "".to_string(), "y".to_string()],
        lines_of("\nx\n\ny")
    );
}
