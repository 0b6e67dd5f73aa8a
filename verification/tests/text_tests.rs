use npuzzle::board::Board;
use npuzzle::position::Position;
use npuzzle::report::{count_column, progress_line, result_lines, step_lines};
use npuzzle::solver::Node;
use npuzzle::text::{push_decimal, push_spaces};

#[test]
fn decimal_digits_of_numbers() {
    for v in [0usize, 7, 10, 42, 100, 999, 1000, 65535, 4294967295, usize::MAX] {
        let mut s = String::from("n=");
        push_decimal(&mut s, v);
        assert_eq!(s, format!("n={}", v));
    }
}

#[test]
fn spaces_are_appended() {
    let mut s = String::from("a");
    push_spaces(&mut s, 0);
    assert_eq!(s, "a");
    push_spaces(&mut s, 3);
    assert_eq!(s, "a   ");
}

#[test]
fn position_is_written_as_column_dash_row() {
    assert_eq!(Position { x: 0, y: 0 }.text(), "0-0");
    assert_eq!(Position { x: 12, y: 3 }.text(), "12-3");
}

#[test]
fn board_is_written_row_by_row() {
    let board = Board::new(3, vec![1, 2, 3, 4, 0, 6, 7, 5, 8]).unwrap();
    assert_eq!(board.text(), " 1  2  3 \n 4  -  6 \n 7  5  8 ");
    let board = Board::new(2, vec![0, 1, 3, 2]).unwrap();
    assert_eq!(board.text(), " -  1 \n 3  2 ");
}

#[test]
fn board_with_wide_labels_keeps_them_whole() {
    let tiles: Vec<u8> = (0..=255u8).rev().collect();
    let board = Board::new(16, tiles).unwrap();
    let text = board.text();
    assert!(text.starts_with("255 254 253 "));
    assert!(text.ends_with(" 2  1  - "));
    assert_eq!(text.lines().count(), 16);
    assert!(text.contains("100 99 98 "));
    assert!(text.contains("10  9  8 "));
}

#[test]
fn counts_are_grouped_and_moved_to_the_right() {
    assert_eq!(count_column(0), "           0");
    assert_eq!(count_column(999), "         999");
    assert_eq!(count_column(1000), "       1,000");
    assert_eq!(count_column(1234567), "   1,234,567");
    assert_eq!(count_column(100000), "     100,000");
    assert_eq!(count_column(1002003), "   1,002,003");
    assert_eq!(count_column(999999999), " 999,999,999");
    assert_eq!(count_column(1000000000), "1,000,000,000");
    assert_eq!(count_column(12345678901234), "12,345,678,901,234");
    assert_eq!(count_column(18446744073709551615), "18,446,744,073,709,551,615");
}

#[test]
fn progress_line_shows_the_five_counts() {
    assert_eq!(
        progress_line(10000, 6543, 7000, 457, 10000),
        "\u{1b}[1A';[2K;\rindex:       10,000 | open:        6,543 | open_sorted:        7,000 | open_deleted:          457 | closed:       10,000"
    );
}

#[test]
fn result_lines_show_the_three_counts() {
    assert_eq!(
        result_lines(2846, 4519, 20),
        "----- Results -----\nStates evalled:              2,846\nMax states in memory:        4,519\nX moves needed:                 20\nVisualization: \n"
    );
}

#[test]
fn step_lines_show_the_costs_and_the_board() {
    let node = Node {
        board: Board::new(2, vec![1, 0, 3, 2]).unwrap(),
        id: 3,
        h: 1,
        g: 4,
        f: 5,
        parent: Some(1),
    };
    assert_eq!(step_lines(&node), "f(5) = h(4) + g(1)\n 1  - \n 3  2 \n");
}
