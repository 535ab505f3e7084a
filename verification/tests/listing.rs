use ulmake::status::GameStatus;
use ulmake::table::{make_hline, make_row};

#[test]
fn test_format_ok() {
    assert_eq!(GameStatus::Good.text(), "OK");
}

#[test]
fn test_format_err() {
    assert_eq!(GameStatus::from("foo").text(), "foo");
}

#[test]
fn test_make_row() {
    let cols = vec![String::from("foo"), String::from("bar")];
    let sizes = [3, 4];
    let row = make_row(cols, &sizes);
    assert_eq!(row, String::from("| foo | bar  |"));
}

#[test]
fn test_make_hline() {
    let sizes = [3, 4, 5];
    let hline = make_hline(&sizes);
    assert_eq!(hline, String::from("+-----+------+-------+"));
}

#[test]
fn test_make_row_drops_extra_columns() {
    let cols = vec![String::from("a"), String::from("b"), String::from("c")];
    let sizes = [1, 1];
    let row = make_row(cols, &sizes);
    assert_eq!(row, String::from("| a | b |"));
}
