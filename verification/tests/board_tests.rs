use npuzzle::board::{Board, StateError};
use npuzzle::position::{Direction, Position};
use std::rc::Rc;

fn cells(table: &[Position]) -> Vec<(usize, usize)> {
    table.iter().map(|p| (p.x, p.y)).collect()
}

#[test]
fn goal_table_of_size_three_follows_the_spiral() {
    let table = Board::create_desired_positions(3);
    assert_eq!(
        cells(&table),
        vec![(0, 0), (0, 0), (1, 0), (2, 0), (2, 1), (2, 2), (1, 2), (0, 2), (0, 1)]
    );
}

#[test]
fn goal_table_of_size_two_follows_the_spiral() {
    let table = Board::create_desired_positions(2);
    assert_eq!(cells(&table), vec![(0, 0), (0, 0), (1, 0), (1, 1)]);
}

#[test]
fn goal_table_of_size_four_follows_the_spiral() {
    let table = Board::create_desired_positions(4);
    assert_eq!(
        cells(&table),
        vec![
            (0, 0), (0, 0), (1, 0), (2, 0), (3, 0), (3, 1), (3, 2), (3, 3),
            (2, 3), (1, 3), (0, 3), (0, 2), (0, 1), (1, 1), (2, 1), (2, 2),
        ]
    );
}

#[test]
fn goal_tables_of_the_smallest_grids() {
    assert_eq!(cells(&Board::create_desired_positions(0)), vec![]);
    assert_eq!(cells(&Board::create_desired_positions(1)), vec![(0, 0)]);
}

#[test]
fn goal_table_gives_every_tile_a_cell_of_its_own() {
    for n in 2..=16usize {
        let table = Board::create_desired_positions(n);
        assert_eq!(table.len(), n * n);
        let mut seen = vec![false; n * n];
        for p in table.iter().skip(1) {
            assert!(p.x < n && p.y < n);
            assert!(!seen[p.y * n + p.x]);
            seen[p.y * n + p.x] = true;
        }
        assert_eq!(seen.iter().filter(|&&s| !s).count(), 1);
    }
}

#[test]
fn goal_table_starts_in_the_corner_and_runs_along_the_top_row() {
    for n in 2..=16usize {
        let table = Board::create_desired_positions(n);
        assert_eq!(table[0], Position { x: 0, y: 0 });
        for k in 1..=n {
            assert_eq!(table[k], Position { x: k - 1, y: 0 });
        }
        for k in 1..n * n - 1 {
            let (a, b) = (table[k], table[k + 1]);
            assert_eq!(a.x.abs_diff(b.x) + a.y.abs_diff(b.y), 1);
        }
    }
}

#[test]
fn label_one_belongs_where_the_spiral_starts() {
    let board = Board::new(3, vec![1, 2, 3, 8, 0, 4, 7, 6, 5]).unwrap();
    assert_eq!(board.desired_positions[0], Position { x: 0, y: 0 });
    assert_eq!(board.desired_positions[1], Position { x: 0, y: 0 });
    assert_eq!(board.desired_positions[4], Position { x: 2, y: 1 });
    assert_eq!(board.desired_positions[8], Position { x: 0, y: 1 });
}

#[test]
fn new_accepts_an_arrangement() {
    let board = Board::new(3, vec![1, 2, 3, 4, 0, 6, 7, 5, 8]).unwrap();
    assert_eq!(board.n, 3);
    assert_eq!(board.data, vec![1, 2, 3, 4, 0, 6, 7, 5, 8]);
    assert_eq!(board.desired_positions.len(), 9);
}

#[test]
fn new_rejects_a_size_out_of_range() {
    assert!(matches!(Board::new(0, vec![]), Err(StateError::Size)));
    assert!(matches!(Board::new(1, vec![0]), Err(StateError::Size)));
    assert!(matches!(Board::new(17, vec![0; 289]), Err(StateError::Size)));
}

#[test]
fn new_rejects_a_wrong_count() {
    assert!(matches!(Board::new(2, vec![0, 1, 2]), Err(StateError::Count)));
    assert!(matches!(Board::new(3, vec![0, 1, 2, 3]), Err(StateError::Count)));
}

#[test]
fn new_rejects_a_label_out_of_range() {
    assert!(matches!(Board::new(2, vec![0, 1, 2, 4]), Err(StateError::Label)));
    assert!(matches!(Board::new(2, vec![4, 4, 0, 1]), Err(StateError::Label)));
}

#[test]
fn new_rejects_a_repeated_label() {
    assert!(matches!(Board::new(2, vec![0, 1, 1, 3]), Err(StateError::Duplicate)));
    assert!(matches!(Board::new(2, vec![1, 2, 3, 1]), Err(StateError::Duplicate)));
}

#[test]
fn new_accepts_the_largest_size() {
    let tiles: Vec<u8> = (0..=255u8).collect();
    let board = Board::new(16, tiles.clone()).unwrap();
    assert_eq!(board.data, tiles);
}

#[test]
fn with_swap_exchanges_two_tiles_and_leaves_its_input() {
    let board = Board::new(2, vec![0, 1, 3, 2]).unwrap();
    let next = Board::with_swap(&board, 0, 1);
    assert_eq!(next.data, vec![1, 0, 3, 2]);
    assert_eq!(board.data, vec![0, 1, 3, 2]);
    assert_eq!(next.n, 2);
    assert!(Rc::ptr_eq(&board.desired_positions, &next.desired_positions));
    let same = Board::with_swap(&board, 2, 2);
    assert_eq!(same.data, board.data);
}

#[test]
fn duplicate_shares_the_goal_table() {
    let board = Board::new(2, vec![0, 1, 3, 2]).unwrap();
    let copy = board.duplicate();
    assert_eq!(copy.data, board.data);
    assert!(Rc::ptr_eq(&board.desired_positions, &copy.desired_positions));
}

#[test]
fn index_reads_a_tile_by_cell() {
    let board = Board::new(3, vec![1, 2, 3, 4, 0, 6, 7, 5, 8]).unwrap();
    assert_eq!(*board.index(&Position { x: 0, y: 0 }), 1);
    assert_eq!(*board.index(&Position { x: 2, y: 0 }), 3);
    assert_eq!(*board.index(&Position { x: 1, y: 1 }), 0);
    assert_eq!(*board.index(&Position { x: 1, y: 2 }), 5);
}

#[test]
fn index_mut_writes_a_tile_by_cell() {
    let mut board = Board::new(2, vec![0, 1, 3, 2]).unwrap();
    *board.index_mut(&Position { x: 1, y: 1 }) = 9;
    assert_eq!(board.data, vec![0, 1, 3, 9]);
}

#[test]
fn blank_index_finds_the_blank() {
    assert_eq!(Board::new(3, vec![1, 2, 3, 4, 0, 6, 7, 5, 8]).unwrap().blank_index(), 4);
    assert_eq!(Board::new(2, vec![1, 3, 2, 0]).unwrap().blank_index(), 3);
}

#[test]
fn iterator_walks_the_cells_in_row_major_order() {
    let board = Board::new(2, vec![0, 1, 3, 2]).unwrap();
    let mut it = board.iter();
    assert_eq!(it.next(), Some(Position { x: 0, y: 0 }));
    assert_eq!(it.next(), Some(Position { x: 1, y: 0 }));
    assert_eq!(it.next(), Some(Position { x: 0, y: 1 }));
    assert_eq!(it.next(), Some(Position { x: 1, y: 1 }));
    assert_eq!(it.next(), None);
    assert_eq!(it.next(), None);
}

#[test]
fn position_converts_to_an_index_and_back() {
    let p = Position::from_u64(7, 3);
    assert_eq!(p, Position { x: 1, y: 2 });
    assert_eq!(p.to_usize(3), 7);
    for n in 1..6usize {
        for i in 0..n * n {
            assert_eq!(Position::from_u64(i, n).to_usize(n), i);
        }
    }
}

#[test]
fn step_stays_on_the_grid() {
    let corner = Position { x: 0, y: 0 };
    assert_eq!(corner.step(Direction::Right, 3), Some(Position { x: 1, y: 0 }));
    assert_eq!(corner.step(Direction::Down, 3), Some(Position { x: 0, y: 1 }));
    assert_eq!(corner.step(Direction::Left, 3), None);
    assert_eq!(corner.step(Direction::Up, 3), None);
    let far = Position { x: 2, y: 2 };
    assert_eq!(far.step(Direction::Right, 3), None);
    assert_eq!(far.step(Direction::Down, 3), None);
    assert_eq!(far.step(Direction::Left, 3), Some(Position { x: 1, y: 2 }));
    assert_eq!(far.step(Direction::Up, 3), Some(Position { x: 2, y: 1 }));
}

#[test]
fn turn_goes_clockwise() {
    assert_eq!(Direction::Right.turn(), Direction::Down);
    assert_eq!(Direction::Down.turn(), Direction::Left);
    assert_eq!(Direction::Left.turn(), Direction::Up);
    assert_eq!(Direction::Up.turn(), Direction::Right);
}

#[test]
fn boards_are_equal_when_their_tiles_are() {
    let a = Board::new(2, vec![0, 1, 3, 2]).unwrap();
    let b = Board::new(2, vec![0, 1, 3, 2]).unwrap();
    let c = Board::with_swap(&a, 0, 1);
    assert!(a == b);
    assert!(a != c);
    assert!(Board::with_swap(&c, 1, 0) == a);
}
