use npuzzle::board::Board;
use npuzzle::heuristics::{
    euclidean_distance, get_heuristic_func, manhattan_distance, roundtrip_manhattan_distance,
    wrong_positions, Estimator, Heuristic,
};

fn goal(n: usize) -> Board {
    let table = Board::create_desired_positions(n);
    let mut tiles = vec![0u8; n * n];
    for (label, cell) in table.iter().enumerate().skip(1) {
        tiles[cell.y * n + cell.x] = label as u8;
    }
    Board::new(n, tiles).unwrap()
}

#[test]
fn every_estimate_is_zero_on_the_goal() {
    for n in 2..=16usize {
        let board = goal(n);
        assert_eq!(manhattan_distance(&board), 0);
        assert_eq!(euclidean_distance(&board), 0);
        assert_eq!(wrong_positions(&board), 0);
        assert_eq!(roundtrip_manhattan_distance(&board), 0);
    }
}

#[test]
fn goal_of_size_three_is_the_spiral_from_the_blank() {
    assert_eq!(goal(3).data, vec![1, 2, 3, 8, 0, 4, 7, 6, 5]);
    assert_eq!(goal(2).data, vec![1, 2, 0, 3]);
    assert_eq!(goal(4).data, vec![1, 2, 3, 4, 12, 13, 14, 5, 11, 0, 15, 6, 10, 9, 8, 7]);
}

#[test]
fn manhattan_sums_the_distances() {
    let b = Board::new(3, vec![1, 2, 3, 8, 4, 5, 7, 6, 0]).unwrap();
    assert_eq!(manhattan_distance(&b), 2);
    let b = Board::new(3, vec![8, 3, 5, 7, 1, 6, 4, 2, 0]).unwrap();
    assert_eq!(manhattan_distance(&b), 14);
    let b = Board::new(3, vec![1, 2, 3, 4, 0, 6, 7, 5, 8]).unwrap();
    assert_eq!(manhattan_distance(&b), 8);
    let tiles: Vec<u8> = (1..16u8).chain(std::iter::once(0)).collect();
    assert_eq!(manhattan_distance(&Board::new(4, tiles).unwrap()), 29);
    let tiles: Vec<u8> = (0..=255u8).rev().collect();
    assert_eq!(manhattan_distance(&Board::new(16, tiles).unwrap()), 2801);
}

#[test]
fn wrong_positions_counts_the_misplaced_tiles() {
    let b = Board::new(3, vec![1, 2, 3, 8, 4, 5, 7, 6, 0]).unwrap();
    assert_eq!(wrong_positions(&b), 2);
    let b = Board::new(3, vec![8, 3, 5, 7, 1, 6, 4, 2, 0]).unwrap();
    assert_eq!(wrong_positions(&b), 8);
    let b = Board::new(3, vec![1, 8, 3, 2, 0, 6, 7, 4, 5]).unwrap();
    assert_eq!(wrong_positions(&b), 4);
    let tiles: Vec<u8> = (1..16u8).chain(std::iter::once(0)).collect();
    assert_eq!(wrong_positions(&Board::new(4, tiles).unwrap()), 11);
}

#[test]
fn roundtrip_adds_the_way_to_the_blank() {
    let b = Board::new(3, vec![1, 2, 3, 8, 4, 5, 7, 6, 0]).unwrap();
    assert_eq!(roundtrip_manhattan_distance(&b), 5);
    assert_eq!(manhattan_distance(&b), 2);
    let b = Board::new(3, vec![8, 3, 5, 7, 1, 6, 4, 2, 0]).unwrap();
    assert_eq!(roundtrip_manhattan_distance(&b), 32);
    let b = Board::new(3, vec![5, 1, 0, 7, 4, 3, 6, 8, 2]).unwrap();
    assert_eq!(roundtrip_manhattan_distance(&b), 32);
    let tiles: Vec<u8> = (1..16u8).chain(std::iter::once(0)).collect();
    assert_eq!(roundtrip_manhattan_distance(&Board::new(4, tiles).unwrap()), 59);
}

#[test]
fn euclidean_sums_the_straight_lines_and_drops_the_fraction() {
    let b = Board::new(3, vec![1, 8, 3, 2, 0, 6, 7, 4, 5]).unwrap();
    assert_eq!(euclidean_distance(&b), 5);
    let b = Board::new(3, vec![1, 2, 3, 8, 4, 5, 7, 6, 0]).unwrap();
    assert_eq!(euclidean_distance(&b), 2);
    let b = Board::new(3, vec![8, 3, 5, 7, 1, 6, 4, 2, 0]).unwrap();
    assert_eq!(euclidean_distance(&b), 12);
    let b = Board::new(3, vec![5, 1, 0, 7, 4, 3, 6, 8, 2]).unwrap();
    assert_eq!(euclidean_distance(&b), 11);
    let tiles: Vec<u8> = (1..16u8).chain(std::iter::once(0)).collect();
    assert_eq!(euclidean_distance(&Board::new(4, tiles).unwrap()), 23);
    let tiles: Vec<u8> = (0..=255u8).rev().collect();
    assert_eq!(euclidean_distance(&Board::new(16, tiles).unwrap()), 2168);
}

fn straight_lines_in_floating_point(board: &Board) -> usize {
    let n = board.n;
    let mut sum = 0.0f64;
    for (i, &tile) in board.data.iter().enumerate() {
        if tile == 0 {
            continue;
        }
        let goal = board.desired_positions[tile as usize];
        let dx = (i % n) as f64 - goal.x as f64;
        let dy = (i / n) as f64 - goal.y as f64;
        sum += (dx * dx + dy * dy).sqrt();
    }
    sum as usize
}

#[test]
fn euclidean_agrees_with_floating_point() {
    let mut seed = 0x2545f4914f6cdd1du64;
    for n in 2..=9usize {
        for _ in 0..40 {
            let mut tiles: Vec<u8> = (0..(n * n) as u8).collect();
            for k in (1..tiles.len()).rev() {
                seed ^= seed << 13;
                seed ^= seed >> 7;
                seed ^= seed << 17;
                tiles.swap(k, (seed % (k as u64 + 1)) as usize);
            }
            let board = Board::new(n, tiles).unwrap();
            assert_eq!(euclidean_distance(&board), straight_lines_in_floating_point(&board));
        }
    }
}

#[test]
fn euclidean_and_wrong_positions_stay_below_manhattan() {
    for tiles in [
        vec![8u8, 3, 5, 7, 1, 6, 4, 2, 0],
        vec![5, 1, 0, 7, 4, 3, 6, 8, 2],
        vec![1, 2, 3, 4, 0, 6, 7, 5, 8],
    ] {
        let b = Board::new(3, tiles).unwrap();
        assert!(euclidean_distance(&b) <= manhattan_distance(&b));
        assert!(wrong_positions(&b) <= manhattan_distance(&b));
    }
}

#[test]
fn evaluators_agree_with_the_functions() {
    let b = Board::new(3, vec![5, 1, 0, 7, 4, 3, 6, 8, 2]).unwrap();
    assert_eq!(Heuristic::Manhattan.evaluate(&b), 14);
    assert_eq!(Heuristic::Euclidean.evaluate(&b), 11);
    assert_eq!(Heuristic::WrongPositions.evaluate(&b), 8);
    assert_eq!(Heuristic::RoundtripManhattan.evaluate(&b), 32);
}

#[test]
fn one_move_changes_the_admissible_estimates_by_at_most_one() {
    let b = Board::new(3, vec![5, 1, 0, 7, 4, 3, 6, 8, 2]).unwrap();
    let blank = b.blank_index();
    for target in [1usize, 5] {
        let next = Board::with_swap(&b, blank, target);
        let m = manhattan_distance(&b) as i64 - manhattan_distance(&next) as i64;
        let w = wrong_positions(&b) as i64 - wrong_positions(&next) as i64;
        assert!(m == 1 || m == -1);
        assert!(-1 <= w && w <= 1);
    }
}

#[test]
fn selection_prefers_manhattan_then_euclidean_then_roundtrip() {
    assert_eq!(get_heuristic_func(false, false, false, false), Heuristic::Manhattan);
    assert_eq!(get_heuristic_func(true, true, true, true), Heuristic::Manhattan);
    assert_eq!(get_heuristic_func(false, true, true, true), Heuristic::Euclidean);
    assert_eq!(get_heuristic_func(false, false, true, true), Heuristic::RoundtripManhattan);
    assert_eq!(get_heuristic_func(false, false, false, true), Heuristic::WrongPositions);
}

#[test]
fn estimates_do_not_read_the_entry_of_the_blank() {
    let mut table = Board::create_desired_positions(3);
    table[0] = npuzzle::position::Position { x: 1, y: 1 };
    for tiles in [vec![1u8, 8, 3, 2, 0, 6, 7, 4, 5], vec![1, 2, 3, 8, 4, 5, 7, 6, 0]] {
        let plain = Board::new(3, tiles.clone()).unwrap();
        let other = Board { data: tiles, n: 3, desired_positions: std::rc::Rc::new(table.clone()) };
        assert_eq!(manhattan_distance(&other), manhattan_distance(&plain));
        assert_eq!(euclidean_distance(&other), euclidean_distance(&plain));
        assert_eq!(wrong_positions(&other), wrong_positions(&plain));
        assert_eq!(roundtrip_manhattan_distance(&other), roundtrip_manhattan_distance(&plain));
    }
}
