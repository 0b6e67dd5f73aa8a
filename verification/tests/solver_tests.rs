use npuzzle::board::Board;
use npuzzle::heuristics::Heuristic;
use npuzzle::search::Status;
use npuzzle::solver::{next_id, Node, SolveError, Solver};

fn board(n: usize, tiles: &[u8]) -> Board {
    Board::new(n, tiles.to_vec()).unwrap()
}

fn one_move_apart(n: usize, a: &[u8], b: &[u8]) -> bool {
    let from = a.iter().position(|&t| t == 0).unwrap();
    let to = b.iter().position(|&t| t == 0).unwrap();
    let (fx, fy, tx, ty) = (from % n, from / n, to % n, to / n);
    let near = fx.abs_diff(tx) + fy.abs_diff(ty) == 1;
    let mut swapped = a.to_vec();
    swapped.swap(from, to);
    near && swapped == b
}

#[test]
fn next_id_counts_up() {
    let mut counter = 5usize;
    assert_eq!(next_id(&mut counter), 5);
    assert_eq!(next_id(&mut counter), 6);
    assert_eq!(counter, 7);
}

#[test]
fn successors_come_in_the_order_right_down_left_up() {
    let root = Node { board: board(3, &[1, 2, 3, 4, 0, 6, 7, 5, 8]), id: 4, h: 0, g: 2, f: 2, parent: None };
    let mut counter = 10usize;
    let kids = root.get_permutations(&Heuristic::Manhattan, &mut counter);
    assert_eq!(counter, 14);
    let boards: Vec<Vec<u8>> = kids.iter().map(|k| k.board.data.clone()).collect();
    assert_eq!(
        boards,
        vec![
            vec![1, 2, 3, 4, 6, 0, 7, 5, 8],
            vec![1, 2, 3, 4, 5, 6, 7, 0, 8],
            vec![1, 2, 3, 0, 4, 6, 7, 5, 8],
            vec![1, 0, 3, 4, 2, 6, 7, 5, 8],
        ]
    );
    for (k, kid) in kids.iter().enumerate() {
        assert_eq!(kid.id, 10 + k);
        assert_eq!(kid.g, 3);
        assert_eq!(kid.f, kid.g + kid.h);
        assert_eq!(kid.parent, Some(4));
        assert_eq!(kid.h, npuzzle::heuristics::manhattan_distance(&kid.board));
    }
}

#[test]
fn successors_of_the_goal_are_one_move_away() {
    let root = Node { board: board(3, &[1, 2, 3, 8, 0, 4, 7, 6, 5]), id: 0, h: 0, g: 0, f: 0, parent: None };
    let mut counter = 1usize;
    let kids = root.get_permutations(&Heuristic::Manhattan, &mut counter);
    let boards: Vec<Vec<u8>> = kids.iter().map(|k| k.board.data.clone()).collect();
    assert_eq!(
        boards,
        vec![
            vec![1, 2, 3, 8, 4, 0, 7, 6, 5],
            vec![1, 2, 3, 8, 6, 4, 7, 0, 5],
            vec![1, 2, 3, 0, 8, 4, 7, 6, 5],
            vec![1, 0, 3, 8, 2, 4, 7, 6, 5],
        ]
    );
    for kid in kids.iter() {
        assert_eq!((kid.h, kid.g, kid.f), (1, 1, 2));
    }
}

#[test]
fn successors_in_a_corner_are_two() {
    let root = Node { board: board(2, &[0, 1, 3, 2]), id: 0, h: 0, g: 0, f: 0, parent: None };
    let mut counter = 1usize;
    let kids = root.get_permutations(&Heuristic::WrongPositions, &mut counter);
    let boards: Vec<Vec<u8>> = kids.iter().map(|k| k.board.data.clone()).collect();
    assert_eq!(boards, vec![vec![1, 0, 3, 2], vec![3, 1, 0, 2]]);
    assert_eq!(counter, 3);
}

#[test]
fn inversions_are_counted_without_the_blank() {
    let s = Solver::from_base(&board(3, &[1, 2, 3, 4, 0, 6, 7, 5, 8]), Heuristic::Manhattan);
    assert_eq!(s.get_inversion_count(), 2);
    let s = Solver::from_base(&board(3, &[8, 3, 5, 7, 1, 6, 4, 2, 0]), Heuristic::Manhattan);
    assert_eq!(s.get_inversion_count(), 19);
    let s = Solver::from_base(&board(2, &[0, 1, 2, 3]), Heuristic::Manhattan);
    assert_eq!(s.get_inversion_count(), 0);
}

#[test]
fn parity_rule_on_odd_sizes_asks_for_odd_inversions() {
    assert!(Solver::from_base(&board(3, &[1, 2, 3, 8, 0, 4, 7, 6, 5]), Heuristic::Manhattan).is_solvable());
    assert!(!Solver::from_base(&board(3, &[1, 2, 3, 4, 0, 6, 7, 5, 8]), Heuristic::Manhattan).is_solvable());
}

#[test]
fn parity_rule_on_even_sizes_asks_for_differing_parities() {
    assert!(Solver::from_base(&board(2, &[0, 1, 3, 2]), Heuristic::Manhattan).is_solvable());
    assert!(!Solver::from_base(&board(2, &[0, 1, 2, 3]), Heuristic::Manhattan).is_solvable());
    assert!(!Solver::from_base(&board(2, &[1, 0, 3, 2]), Heuristic::Manhattan).is_solvable());
    assert!(Solver::from_base(&board(2, &[1, 0, 2, 3]), Heuristic::Manhattan).is_solvable());
}

#[test]
fn a_fresh_solver_holds_the_root_alone() {
    let s = Solver::from_base(&board(2, &[1, 2, 3, 0]), Heuristic::Manhattan);
    assert_eq!(s.node_count(), 1);
    assert_eq!(s.open_len(), 1);
    assert_eq!(s.closed_len(), 0);
    assert_eq!(s.eval_count(), 0);
    assert_eq!(s.max_total_states(), 0);
    let root = s.node(0);
    assert_eq!(root.id, 0);
    assert_eq!(root.g, 0);
    assert_eq!(root.h, 0);
    assert_eq!(root.f, usize::MAX);
    assert_eq!(root.parent, None);
    assert_eq!(root.board.data, vec![1, 2, 3, 0]);
}

#[test]
fn two_moves_from_the_goal_on_size_three() {
    let mut s = Solver::from_base(&board(3, &[1, 2, 3, 8, 4, 5, 7, 6, 0]), Heuristic::Manhattan);
    let solution = s.solve().unwrap();
    assert_eq!(solution.moves, 2);
    assert_eq!(solution.evaluated, 2);
    assert_eq!(solution.peak, 4);
    let boards: Vec<Vec<u8>> = solution.path.iter().map(|b| b.data.clone()).collect();
    assert_eq!(
        boards,
        vec![
            vec![1, 2, 3, 8, 4, 5, 7, 6, 0],
            vec![1, 2, 3, 8, 4, 0, 7, 6, 5],
            vec![1, 2, 3, 8, 0, 4, 7, 6, 5],
        ]
    );
}

#[test]
fn the_goal_itself_takes_no_move() {
    let mut s = Solver::from_base(&board(3, &[1, 2, 3, 8, 0, 4, 7, 6, 5]), Heuristic::Manhattan);
    let solution = s.solve().unwrap();
    assert_eq!(solution.moves, 0);
    assert_eq!(solution.evaluated, 0);
    assert_eq!(solution.peak, 0);
    assert_eq!(solution.path.len(), 1);
    assert_eq!(solution.path[0].data, vec![1, 2, 3, 8, 0, 4, 7, 6, 5]);
}

#[test]
fn size_three_board_with_two_inversions_is_unsolvable() {
    let mut s = Solver::from_base(&board(3, &[1, 2, 3, 4, 0, 6, 7, 5, 8]), Heuristic::Manhattan);
    assert!(matches!(s.solve(), Err(SolveError::Unsolvable)));
    assert_eq!(s.eval_count(), 0);
}

#[test]
fn size_two_board_in_label_order_is_unsolvable() {
    let mut s = Solver::from_base(&board(2, &[0, 1, 2, 3]), Heuristic::Manhattan);
    assert!(matches!(s.solve(), Err(SolveError::Unsolvable)));
    assert_eq!(s.eval_count(), 0);
}

#[test]
fn an_unsolvable_board_never_enters_the_search() {
    let mut s = Solver::from_base(&board(2, &[1, 0, 3, 2]), Heuristic::Manhattan);
    assert_eq!(s.get_inversion_count(), 1);
    assert!(!s.is_solvable());
    assert!(matches!(s.solve(), Err(SolveError::Unsolvable)));
    assert_eq!(s.eval_count(), 0);
    assert_eq!(s.max_total_states(), 0);
    assert_eq!(s.node_count(), 1);
    assert_eq!(s.open_len(), 1);
    assert_eq!(s.closed_len(), 0);
}

#[test]
fn a_search_that_empties_the_frontier_is_exhausted() {
    let mut s = Solver::from_base(&board(2, &[1, 0, 2, 3]), Heuristic::Manhattan);
    assert!(s.is_solvable());
    assert!(matches!(s.solve(), Err(SolveError::Exhausted)));
    assert_eq!(s.eval_count(), 13);
    assert_eq!(s.max_total_states(), 11);
    assert_eq!(s.open_len(), 0);
}

#[test]
fn twenty_moves_with_each_heuristic() {
    let start = [3u8, 2, 5, 1, 8, 7, 6, 4, 0];
    let expected = [
        (Heuristic::Manhattan, 20usize, 508usize, 819usize),
        (Heuristic::Euclidean, 20, 900, 1432),
        (Heuristic::WrongPositions, 20, 3234, 5193),
        (Heuristic::RoundtripManhattan, 20, 1856, 3161),
    ];
    for (kind, moves, evaluated, peak) in expected {
        let mut s = Solver::from_base(&board(3, &start), kind);
        let solution = s.solve().unwrap();
        assert_eq!(solution.moves, moves);
        assert_eq!(solution.evaluated, evaluated);
        assert_eq!(solution.peak, peak);
        assert_eq!(solution.path.len(), moves + 1);
        assert_eq!(solution.path[0].data, start.to_vec());
        assert_eq!(solution.path[moves].data, vec![1, 2, 3, 8, 0, 4, 7, 6, 5]);
    }
}

#[test]
fn roundtrip_may_miss_the_shortest_solution() {
    let start = [0u8, 2, 7, 4, 3, 8, 1, 6, 5];
    let mut s = Solver::from_base(&board(3, &start), Heuristic::Manhattan);
    assert_eq!(s.solve().unwrap().moves, 20);
    let mut s = Solver::from_base(&board(3, &start), Heuristic::RoundtripManhattan);
    let solution = s.solve().unwrap();
    assert_eq!(solution.moves, 24);
    assert_eq!(solution.evaluated, 323);
    assert_eq!(solution.peak, 574);
}

#[test]
fn every_step_of_a_solution_is_one_move_of_the_blank() {
    for start in [
        [3u8, 2, 5, 1, 8, 7, 6, 4, 0],
        [5, 0, 2, 1, 8, 4, 7, 6, 3],
        [8, 0, 7, 1, 3, 2, 6, 5, 4],
    ] {
        let mut s = Solver::from_base(&board(3, &start), Heuristic::Manhattan);
        let solution = s.solve().unwrap();
        assert_eq!(solution.path.len(), solution.moves + 1);
        assert_eq!(solution.path[0].data, start.to_vec());
        for pair in solution.path.windows(2) {
            assert!(one_move_apart(3, &pair[0].data, &pair[1].data));
        }
        assert_eq!(npuzzle::heuristics::manhattan_distance(&solution.path[solution.moves]), 0);
    }
}

#[test]
fn a_size_four_board_three_moves_from_the_goal() {
    let start = [1u8, 2, 3, 4, 12, 13, 14, 5, 11, 15, 6, 7, 10, 9, 8, 0];
    let mut s = Solver::from_base(&board(4, &start), Heuristic::Manhattan);
    let solution = s.solve().unwrap();
    assert_eq!(solution.moves, 3);
    assert_eq!(solution.evaluated, 3);
    assert_eq!(solution.peak, 7);
    assert_eq!(
        solution.path[3].data,
        vec![1, 2, 3, 4, 12, 13, 14, 5, 11, 0, 15, 6, 10, 9, 8, 7]
    );
}

#[test]
fn step_expands_one_node_at_a_time() {
    let mut s = Solver::from_base(&board(3, &[1, 2, 3, 8, 4, 5, 7, 6, 0]), Heuristic::Manhattan);
    assert_eq!(s.step(), Status::Running);
    assert_eq!(s.eval_count(), 1);
    assert_eq!(s.node_count(), 3);
    assert_eq!(s.open_len(), 2);
    assert_eq!(s.closed_len(), 1);
    assert_eq!(s.max_total_states(), 2);
    assert_eq!(s.closed_find(&board(3, &[1, 2, 3, 8, 4, 5, 7, 6, 0])), Some(0));
    assert_eq!(s.open_find(&board(3, &[1, 2, 3, 8, 4, 5, 7, 0, 6])), Some(1));
    assert_eq!(s.open_find(&board(3, &[1, 2, 3, 8, 4, 0, 7, 6, 5])), Some(2));
    assert_eq!(s.step(), Status::Running);
    assert_eq!(s.step(), Status::Solved(4));
    assert_eq!(s.rewind_steps(4), vec![0, 2, 4]);
    assert_eq!(s.node(4).g, 2);
}

#[test]
fn a_closed_board_reached_more_cheaply_is_reopened() {
    let start = board(3, &[1, 2, 3, 8, 4, 5, 7, 6, 0]);
    let mut s = Solver::from_base(&start, Heuristic::Manhattan);
    assert_eq!(s.step(), Status::Running);
    assert_eq!(s.closed_find(&start), Some(0));
    assert_eq!(s.open_find(&start), None);
    assert_eq!(s.step(), Status::Running);
    assert_eq!(s.closed_find(&start), None);
    let reopened = s.open_find(&start).unwrap();
    assert_eq!(reopened, 3);
    assert_eq!(s.node(reopened).g, 2);
    assert!(s.node(reopened).f < s.node(0).f);
    assert_eq!(s.closed_len(), 1);
}

#[test]
fn run_stops_when_the_budget_is_spent() {
    let mut s = Solver::from_base(&board(3, &[3, 2, 5, 1, 8, 7, 6, 4, 0]), Heuristic::Manhattan);
    assert_eq!(s.run(0), Status::Running);
    assert_eq!(s.eval_count(), 0);
    assert_eq!(s.run(100), Status::Running);
    assert_eq!(s.eval_count(), 100);
    assert_eq!(s.run(408), Status::Running);
    assert_eq!(s.eval_count(), 508);
    assert!(matches!(s.run(10), Status::Solved(_)));
    assert_eq!(s.eval_count(), 508);
}

#[test]
fn the_frontier_counts_its_tombstones() {
    let mut s = Solver::from_base(&board(3, &[3, 2, 5, 1, 8, 7, 6, 4, 0]), Heuristic::WrongPositions);
    assert_eq!(s.run(500), Status::Running);
    assert_eq!(s.open_sorted_len(), s.open_len() + s.open_deleted_len());
}

fn permutations(items: &mut Vec<u8>, k: usize, out: &mut Vec<Vec<u8>>) {
    if k == items.len() {
        out.push(items.clone());
        return;
    }
    for i in k..items.len() {
        items.swap(k, i);
        permutations(items, k + 1, out);
        items.swap(k, i);
    }
}

fn reachable_from_goal(n: usize, goal: Vec<u8>) -> std::collections::HashMap<Vec<u8>, usize> {
    let mut dist = std::collections::HashMap::new();
    let mut queue = std::collections::VecDeque::new();
    dist.insert(goal.clone(), 0usize);
    queue.push_back(goal);
    while let Some(t) = queue.pop_front() {
        let d = dist[&t];
        let b = t.iter().position(|&v| v == 0).unwrap();
        let (x, y) = (b % n, b / n);
        let mut targets = Vec::new();
        if x + 1 < n { targets.push(b + 1); }
        if y + 1 < n { targets.push(b + n); }
        if x >= 1 { targets.push(b - 1); }
        if y >= 1 { targets.push(b - n); }
        for j in targets {
            let mut s = t.clone();
            s.swap(b, j);
            if !dist.contains_key(&s) {
                dist.insert(s.clone(), d + 1);
                queue.push_back(s);
            }
        }
    }
    dist
}

#[test]
fn parity_rule_matches_exhaustive_search_on_size_three() {
    let dist = reachable_from_goal(3, vec![1, 2, 3, 8, 0, 4, 7, 6, 5]);
    assert_eq!(dist.len(), 181440);
    let mut all = Vec::new();
    permutations(&mut (0..9u8).collect(), 0, &mut all);
    assert_eq!(all.len(), 362880);
    for (k, tiles) in all.iter().enumerate() {
        if k % 16 != 0 {
            continue;
        }
        let s = Solver::from_base(&board(3, tiles), Heuristic::Manhattan);
        assert_eq!(s.is_solvable(), dist.contains_key(tiles));
    }
}

#[test]
fn admissible_estimates_stay_below_the_shortest_solution_on_size_three() {
    let dist = reachable_from_goal(3, vec![1, 2, 3, 8, 0, 4, 7, 6, 5]);
    let mut checked = 0usize;
    for (k, (tiles, d)) in dist.iter().enumerate() {
        if k % 64 != 0 {
            continue;
        }
        let b = board(3, tiles);
        assert!(npuzzle::heuristics::manhattan_distance(&b) <= *d);
        assert!(npuzzle::heuristics::wrong_positions(&b) <= *d);
        checked += 1;
    }
    assert!(checked > 2000);
}

#[test]
fn manhattan_search_finds_shortest_solutions_on_size_three() {
    let dist = reachable_from_goal(3, vec![1, 2, 3, 8, 0, 4, 7, 6, 5]);
    for start in [
        [5u8, 0, 2, 1, 8, 4, 7, 6, 3],
        [2, 3, 5, 7, 1, 0, 4, 6, 8],
        [8, 0, 7, 1, 3, 2, 6, 5, 4],
    ] {
        let mut s = Solver::from_base(&board(3, &start), Heuristic::Manhattan);
        assert_eq!(s.solve().unwrap().moves, dist[&start.to_vec()]);
    }
}

#[test]
fn parity_rule_on_size_two_is_not_the_reachability() {
    let dist = reachable_from_goal(2, vec![1, 2, 0, 3]);
    assert_eq!(dist.len(), 12);
    assert!(dist.contains_key(&vec![1u8, 0, 3, 2]));
    assert!(!Solver::from_base(&board(2, &[1, 0, 3, 2]), Heuristic::Manhattan).is_solvable());
}

#[test]
fn every_board_of_size_two_ends_as_its_reachability_says() {
    let dist = reachable_from_goal(2, vec![1, 2, 0, 3]);
    let mut all = Vec::new();
    permutations(&mut (0..4u8).collect(), 0, &mut all);
    assert_eq!(all.len(), 24);
    for tiles in all.iter() {
        for kind in [
            Heuristic::Manhattan,
            Heuristic::Euclidean,
            Heuristic::WrongPositions,
            Heuristic::RoundtripManhattan,
        ] {
            let mut s = Solver::from_base(&board(2, tiles), kind);
            let admitted = s.is_solvable();
            match s.solve() {
                Ok(solution) => {
                    assert!(admitted);
                    assert!(solution.moves >= dist[tiles]);
                    if kind != Heuristic::RoundtripManhattan {
                        assert_eq!(solution.moves, dist[tiles]);
                    }
                }
                Err(SolveError::Exhausted) => {
                    assert!(admitted);
                    assert!(!dist.contains_key(tiles));
                }
                Err(SolveError::Unsolvable) => assert!(!admitted),
                Err(SolveError::LimitReached) => panic!("a board of size two cannot fill the search"),
            }
        }
    }
}

#[test]
fn admissible_searches_find_shortest_solutions_on_size_three() {
    let dist = reachable_from_goal(3, vec![1, 2, 3, 8, 0, 4, 7, 6, 5]);
    let mut starts: Vec<&Vec<u8>> = dist.keys().collect();
    starts.sort();
    for tiles in starts.iter().step_by(9001) {
        for kind in [Heuristic::Manhattan, Heuristic::Euclidean, Heuristic::WrongPositions] {
            if dist[*tiles] > 22 && kind == Heuristic::WrongPositions {
                continue;
            }
            let mut s = Solver::from_base(&board(3, tiles), kind);
            assert_eq!(s.solve().unwrap().moves, dist[*tiles]);
        }
    }
}

#[test]
fn a_move_keeps_the_parity_rule_on_odd_sizes_and_reverses_it_on_even_sizes() {
    let odd = board(3, &[8, 3, 5, 7, 1, 6, 4, 2, 0]);
    let rule = Solver::from_base(&odd, Heuristic::Manhattan).is_solvable();
    for target in [5usize, 7] {
        let next = Board::with_swap(&odd, 8, target);
        assert_eq!(Solver::from_base(&next, Heuristic::Manhattan).is_solvable(), rule);
    }
    let even = board(4, &[1, 2, 3, 4, 12, 0, 14, 5, 11, 13, 15, 6, 10, 9, 8, 7]);
    let rule = Solver::from_base(&even, Heuristic::Manhattan).is_solvable();
    for target in [1usize, 4, 6, 9] {
        let next = Board::with_swap(&even, 5, target);
        assert_eq!(Solver::from_base(&next, Heuristic::Manhattan).is_solvable(), !rule);
    }
}

#[test]
fn nodes_are_equal_when_their_boards_are() {
    let a = Node { board: board(2, &[0, 1, 3, 2]), id: 1, h: 2, g: 3, f: 5, parent: None };
    let b = Node { board: board(2, &[0, 1, 3, 2]), id: 9, h: 0, g: 0, f: 0, parent: Some(1) };
    let c = Node { board: board(2, &[1, 0, 3, 2]), id: 1, h: 2, g: 3, f: 5, parent: None };
    assert!(a == b);
    assert!(a != c);
}
