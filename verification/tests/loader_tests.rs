use npuzzle::board::{Board, StateError};
use npuzzle::loader::{parse, FormatError};

#[test]
fn parse_reads_the_size_and_the_rows() {
    let text = b"# a puzzle\n3\n1 2 3\n4 0 6 # the blank\n7 5 8\n";
    assert_eq!(parse(text), Ok((3, vec![1, 2, 3, 4, 0, 6, 7, 5, 8])));
}

#[test]
fn parse_skips_every_leading_comment() {
    let text = b"#one\n#two\n#three\n2\n0 1\n3 2";
    assert_eq!(parse(text), Ok((2, vec![0, 1, 3, 2])));
}

#[test]
fn parse_takes_any_number_of_spaces_between_labels() {
    let text = b"2\n  0    1  \n 3 2";
    assert_eq!(parse(text), Ok((2, vec![0, 1, 3, 2])));
}

#[test]
fn parse_takes_a_plus_and_leading_zeros() {
    let text = b"+2\n+0 001\n3 02\n";
    assert_eq!(parse(text), Ok((2, vec![0, 1, 3, 2])));
}

#[test]
fn parse_stops_at_an_empty_line() {
    let text = b"2\n0 1\n3 2\n\n9 9\n";
    assert_eq!(parse(text), Ok((2, vec![0, 1, 3, 2])));
}

#[test]
fn parse_stops_at_a_comment_line_among_the_rows() {
    let text = b"2\n0 1\n# half way\n3 2\n";
    assert_eq!(parse(text), Err(FormatError::Count));
}

#[test]
fn parse_without_a_size_fails() {
    assert_eq!(parse(b"# only\n# comments"), Err(FormatError::NoSize));
    assert_eq!(parse(b"#"), Err(FormatError::NoSize));
}

#[test]
fn parse_with_a_bad_size_fails() {
    assert_eq!(parse(b""), Err(FormatError::Size));
    assert_eq!(parse(b"# c\n"), Err(FormatError::Size));
    assert_eq!(parse(b"three\n"), Err(FormatError::Size));
    assert_eq!(parse(b"3 \n"), Err(FormatError::Size));
    assert_eq!(parse(b"-3\n"), Err(FormatError::Size));
    assert_eq!(parse(b"+\n"), Err(FormatError::Size));
    assert_eq!(parse(b"3\r\n1 2 3\r\n"), Err(FormatError::Size));
    assert_eq!(parse(b"99999999999999999999999999999999999999999\n"), Err(FormatError::Size));
}

#[test]
fn parse_with_a_bad_label_fails() {
    assert_eq!(parse(b"2\n0 x\n3 2"), Err(FormatError::Tile));
    assert_eq!(parse(b"2\n0 256\n3 2"), Err(FormatError::Tile));
    assert_eq!(parse(b"2\n0\t1\n3 2"), Err(FormatError::Tile));
    assert_eq!(parse(b"2\n0 -1\n3 2"), Err(FormatError::Tile));
    assert_eq!(parse(b"2\n0 1+\n3 2"), Err(FormatError::Tile));
}

#[test]
fn parse_takes_the_largest_label() {
    assert_eq!(parse(b"1\n255"), Ok((1, vec![255])));
    assert_eq!(parse(b"1\n0000000000000000000000255"), Ok((1, vec![255])));
}

#[test]
fn parse_with_a_short_or_long_row_fails() {
    assert_eq!(parse(b"2\n0 1 2\n3"), Err(FormatError::RowLength(3, 2)));
    assert_eq!(parse(b"2\n0\n1 2"), Err(FormatError::RowLength(1, 2)));
    assert_eq!(parse(b"2\n   \n"), Err(FormatError::RowLength(0, 2)));
    assert_eq!(parse(b"3\n1 2 3\n4 5\n6 7 8 0"), Err(FormatError::RowLength(2, 3)));
}

#[test]
fn parse_with_too_few_rows_fails() {
    assert_eq!(parse(b"2\n0 1\n"), Err(FormatError::Count));
    assert_eq!(parse(b"2"), Err(FormatError::Count));
    assert_eq!(parse(b"2\n0 1\n3 2\n1 1\n"), Err(FormatError::Count));
}

#[test]
fn parse_of_size_zero_has_no_rows() {
    assert_eq!(parse(b"0"), Ok((0, vec![])));
    assert_eq!(parse(b"0\n"), Ok((0, vec![])));
}

#[test]
fn from_text_builds_the_board() {
    let board = Board::from_text(b"3\n1 2 3\n4 0 6\n7 5 8\n").unwrap();
    assert_eq!(board.n, 3);
    assert_eq!(board.data, vec![1, 2, 3, 4, 0, 6, 7, 5, 8]);
    assert_eq!(board.desired_positions.len(), 9);
}

#[test]
fn from_text_reports_what_is_wrong_with_the_board() {
    assert!(matches!(
        Board::from_text(b"2\n0 1\n1 2\n"),
        Err(FormatError::Board(StateError::Duplicate))
    ));
    assert!(matches!(
        Board::from_text(b"2\n0 1\n7 2\n"),
        Err(FormatError::Board(StateError::Label))
    ));
    assert!(matches!(Board::from_text(b"1\n0\n"), Err(FormatError::Board(StateError::Size))));
    assert!(matches!(Board::from_text(b"0\n"), Err(FormatError::Board(StateError::Size))));
    assert!(matches!(Board::from_text(b"2\n0 1\n"), Err(FormatError::Count)));
    assert!(matches!(Board::from_text(b"#\n"), Err(FormatError::Size)));
}
