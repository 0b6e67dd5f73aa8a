//! Estimates of the number of moves that separate a board from the goal.

use vstd::prelude::*;
use crate::board::{
    Board, blank_at, is_arrangement, is_move, adjacent, swapped, lemma_blank_exists,
    lemma_label_exists,
    lemma_cell_of_index, MAX_SIZE, MIN_SIZE,
};
use crate::position::Position;
use crate::spiral::{
    goal_cell, spiral, lemma_goal_cell_on_grid, lemma_spiral_covers, lemma_spiral_distinct,
};

verus! {

/// No estimate exceeds this bound.
pub const MAX_ESTIMATE: usize = 65535;

/// The unit of the straight-line distances: they are kept as multiples of
/// one part in this many.
pub const SCALE: u128 = 0x1_0000_0000_0000;

/// The strategies that a caller can select.
#[derive(Clone, Copy, PartialEq, Eq, Structural, Debug)]
pub enum Heuristic {
    Manhattan,
    Euclidean,
    WrongPositions,
    RoundtripManhattan,
}

/// The distance between two coordinates.
pub open spec fn gap(a: int, b: int) -> int {
    if a >= b {
        a - b
    } else {
        b - a
    }
}

/// The number of unit moves between the cell with index `i` and `cell`.
pub open spec fn distance(n: int, i: int, cell: (int, int)) -> int {
    gap(i % n, cell.0) + gap(i / n, cell.1)
}

/// Whether `r` is the largest number whose square is at most `a`.
pub open spec fn is_root(a: int, r: int) -> bool {
    0 <= r && r * r <= a < (r + 1) * (r + 1)
}

/// The largest number whose square is at most `a`.
pub open spec fn root_floor(a: int) -> int {
    choose|r: int| is_root(a, r)
}

/// The straight-line distance between the cell with index `i` and `cell`, in
/// parts of `SCALE` and rounded down.
pub open spec fn straight(n: int, i: int, cell: (int, int)) -> int {
    root_floor(
        (gap(i % n, cell.0) * gap(i % n, cell.0) + gap(i / n, cell.1) * gap(i / n, cell.1)) * (SCALE
            * SCALE),
    )
}

/// What the tile at index `i` adds to the sum of kind `kind`.
///
/// The blank adds nothing, and neither does a tile on its goal cell. Any
/// other tile adds its distance from its goal cell in unit moves
/// (Manhattan), its straight-line distance from its goal cell in parts of
/// `SCALE` (Euclidean), one (wrong positions), or its distance from its goal
/// cell and from the blank in unit moves (round trip).
pub open spec fn term(kind: Heuristic, tiles: Seq<u8>, n: int, i: int) -> int {
    let label = tiles[i] as int;
    let goal = goal_cell(n, label);
    if label == 0 || (i % n, i / n) == goal {
        0
    } else {
        match kind {
            Heuristic::Manhattan => distance(n, i, goal),
            Heuristic::Euclidean => straight(n, i, goal),
            Heuristic::WrongPositions => 1,
            Heuristic::RoundtripManhattan => distance(n, i, goal) + distance(
                n,
                i,
                (blank_at(tiles) % n, blank_at(tiles) / n),
            ),
        }
    }
}

/// The sum of the terms of the first `k` tiles.
pub open spec fn total(kind: Heuristic, tiles: Seq<u8>, n: int, k: int) -> int
    decreases k,
{
    if k <= 0 {
        0
    } else {
        total(kind, tiles, n, k - 1) + term(kind, tiles, n, k - 1)
    }
}

/// The estimate of kind `kind` for the board `tiles` of size `n`: the sum of
/// the terms of all tiles, for the Euclidean estimate in whole units.
pub open spec fn estimate(kind: Heuristic, tiles: Seq<u8>, n: int) -> int {
    if kind == Heuristic::Euclidean {
        total(kind, tiles, n, tiles.len() as int) / (SCALE as int)
    } else {
        total(kind, tiles, n, tiles.len() as int)
    }
}

/// Whether every tile other than the blank lies on its goal cell.
pub open spec fn at_goal(tiles: Seq<u8>, n: int) -> bool {
    forall|i: int|
        0 <= i < tiles.len() && #[trigger] tiles[i] != 0 ==> (i % n, i / n) == goal_cell(n, tiles[i] as int)
}

/// The place of the cell `(x, y)` in the order of the spiral, from zero.
pub open spec fn place_of(n: int, x: int, y: int) -> int {
    choose|k: int| 0 <= k < n * n && spiral(n)[k] == (x, y)
}

/// The label that lies on the cell `(x, y)` in the goal arrangement: the
/// place of the cell in the order of the spiral, counted from one, and the
/// blank on the last cell.
pub open spec fn label_at(n: int, x: int, y: int) -> int {
    if place_of(n, x, y) == n * n - 1 {
        0
    } else {
        place_of(n, x, y) + 1
    }
}

/// The goal arrangement of size `n`: every label on its goal cell.
pub open spec fn goal_tiles(n: int) -> Seq<u8> {
    Seq::new((n * n) as nat, |i: int| label_at(n, i % n, i / n) as u8)
}

/// A source of estimates that a search can be built on.
///
/// An estimate is a function of the tiles and the size alone, and stays
/// within `MAX_ESTIMATE`.
pub trait Estimator {
    /// The estimate for the board `tiles` of size `n`.
    spec fn value(&self, tiles: Seq<u8>, n: int) -> int;

    /// The estimate for `board`.
    fn evaluate(&self, board: &Board) -> (h: usize)
        requires
            board.wf(),
        ensures
            h == self.value(board.data@, board.n as int),
            h <= MAX_ESTIMATE,
    ;

    /// The estimate for a board lies between zero and `MAX_ESTIMATE`.
    proof fn lemma_in_range(&self, tiles: Seq<u8>, n: int)
        requires
            MIN_SIZE <= n <= MAX_SIZE,
            is_arrangement(tiles, n),
        ensures
            0 <= self.value(tiles, n) <= MAX_ESTIMATE,
    ;
}

/// Whether `path` is a way from board to board of size `n`, one move of the
/// blank at a time.
pub open spec fn is_way(path: Seq<Seq<u8>>, n: int) -> bool {
    &&& path.len() >= 1
    &&& forall|s: int| 0 <= s < path.len() ==> (#[trigger] path[s]).len() == n * n
    &&& forall|s: int| 0 <= s < path.len() - 1 ==> is_move(n, #[trigger] path[s], path[s + 1])
}

/// Whether `heuristic` is admissible on boards of size `n`: its estimate for
/// a board never exceeds the number of moves of a way from that board to a
/// board with estimate zero.
pub open spec fn admissible<H: Estimator>(heuristic: H, n: int) -> bool {
    forall|path: Seq<Seq<u8>>| #[trigger]
        is_way(path, n) && heuristic.value(path.last(), n) == 0 ==> heuristic.value(path[0], n)
            <= path.len() - 1
}

/// Some number is the largest whose square is at most `a`.
pub proof fn lemma_root_exists(a: int)
    requires
        a >= 0,
    ensures
        is_root(a, root_floor(a)),
    decreases a,
{
    if a == 0 {
        assert(is_root(a, 0));
    } else {
        lemma_root_exists(a - 1);
        let q = root_floor(a - 1);
        if a < (q + 1) * (q + 1) {
            assert(is_root(a, q));
        } else {
            assert((q + 1) * (q + 1) < (q + 2) * (q + 2)) by (nonlinear_arith)
                requires
                    q >= 0,
            ;
            assert(is_root(a, q + 1));
        }
    }
}

/// Only one number is the largest whose square is at most `a`.
pub proof fn lemma_root_unique(a: int, r: int)
    requires
        0 <= r,
        r * r <= a < (r + 1) * (r + 1),
    ensures
        root_floor(a) == r,
{
    assert(is_root(a, r));
    let q = root_floor(a);
    assert(is_root(a, q));
    if q < r {
        assert((q + 1) * (q + 1) <= r * r) by (nonlinear_arith)
            requires
                0 <= q + 1 <= r,
        ;
    }
    if r < q {
        assert((r + 1) * (r + 1) <= q * q) by (nonlinear_arith)
            requires
                0 <= r + 1 <= q,
        ;
    }
}

/// The root of `a` lies between any number whose square is at most `a` and
/// any number whose square is at least `a`.
pub proof fn lemma_root_between(a: int, low: int, high: int)
    requires
        0 <= low,
        low * low <= a,
        0 <= high,
        a <= high * high,
    ensures
        low <= root_floor(a) <= high,
{
    assert(a >= 0) by (nonlinear_arith)
        requires
            low * low <= a,
    ;
    lemma_root_exists(a);
    let q = root_floor(a);
    if q < low {
        assert((q + 1) * (q + 1) <= low * low) by (nonlinear_arith)
            requires
                0 <= q + 1 <= low,
        ;
    }
    if high < q {
        assert((high + 1) * (high + 1) <= q * q) by (nonlinear_arith)
            requires
                0 <= high + 1 <= q,
        ;
        assert(high * high < (high + 1) * (high + 1)) by (nonlinear_arith)
            requires
                0 <= high,
        ;
    }
}

/// The straight-line distance lies between the larger of the two gaps and
/// their sum.
pub proof fn lemma_straight_bounds(n: int, i: int, cell: (int, int))
    ensures
        straight(n, i, cell) <= distance(n, i, cell) * SCALE,
        gap(i % n, cell.0) * SCALE <= straight(n, i, cell),
        gap(i / n, cell.1) * SCALE <= straight(n, i, cell),
{
    let dx = gap(i % n, cell.0);
    let dy = gap(i / n, cell.1);
    let s = SCALE as int;
    let a = (dx * dx + dy * dy) * (s * s);
    assert((dx * s) * (dx * s) <= a && (dy * s) * (dy * s) <= a && a <= ((dx + dy) * s) * ((dx + dy)
        * s)) by (nonlinear_arith)
        requires
            dx >= 0,
            dy >= 0,
            s >= 0,
            a == (dx * dx + dy * dy) * (s * s),
    ;
    assert(dx * s >= 0 && dy * s >= 0 && (dx + dy) * s >= 0) by (nonlinear_arith)
        requires
            dx >= 0,
            dy >= 0,
            s >= 0,
    ;
    lemma_root_between(a, dx * s, (dx + dy) * s);
    lemma_root_between(a, dy * s, (dx + dy) * s);
}

/// The distance between two coordinates.
fn span(a: usize, b: usize) -> (d: usize)
    ensures
        d == gap(a as int, b as int),
{
    if a >= b {
        a - b
    } else {
        b - a
    }
}

/// The largest number whose square is at most `a`.
fn root(a: u128) -> (r: u128)
    requires
        a < 0x400_0000_0000_0000_0000_0000_0000,
    ensures
        r == root_floor(a as int),
        r < 0x20_0000_0000_0000,
{
    let mut low: u128 = 0;
    let mut high: u128 = 0x20_0000_0000_0000;
    assert(0x20_0000_0000_0000 * 0x20_0000_0000_0000 == 0x400_0000_0000_0000_0000_0000_0000int)
        by (nonlinear_arith);
    while high - low > 1
        invariant
            low < high <= 0x20_0000_0000_0000,
            low * low <= a < high * high,
        decreases high - low,
    {
        let mid: u128 = low + (high - low) / 2;
        assert(mid * mid < 0x400_0000_0000_0000_0000_0000_0000) by (nonlinear_arith)
            requires
                mid < 0x20_0000_0000_0000,
        ;
        if mid * mid <= a {
            low = mid;
        } else {
            high = mid;
        }
    }
    proof {
        lemma_root_unique(a as int, low as int);
    }
    low
}

impl Estimator for Heuristic {
    open spec fn value(&self, tiles: Seq<u8>, n: int) -> int {
        estimate(*self, tiles, n)
    }

    proof fn lemma_in_range(&self, tiles: Seq<u8>, n: int) {
        lemma_estimate_bounded(*self, tiles, n);
    }

    fn evaluate(&self, board: &Board) -> (h: usize) {
        let n: usize = board.n;
        let len: usize = board.data.len();
        let blank = Position::from_u64(board.blank_index(), n);
        let mut sum: u128 = 0;
        let mut it = board.iter();
        let mut i: usize = 0;
        assert(n * n <= 256) by (nonlinear_arith)
            requires
                n <= 16,
        ;
        loop
            invariant
                board.wf(),
                n == board.n,
                len == board.data.len(),
                len == n * n,
                len <= 256,
                it.size() == n,
                it.index() == i,
                i <= len,
                blank.x == blank_at(board.data@) % (n as int),
                blank.y == blank_at(board.data@) / (n as int),
                0 <= blank_at(board.data@) < len,
                sum == total(*self, board.data@, n as int, i as int),
                *self != Heuristic::Euclidean ==> sum <= i * 64,
                sum <= i * 0x20_0000_0000_0000,
            ensures
                i == len,
            decreases len - i,
        {
            let pos = match it.next() {
                Some(pos) => pos,
                None => {
                    break ;
                },
            };
            proof {
                lemma_cell_of_index(n as int, i as int);
                lemma_cell_of_index(n as int, blank_at(board.data@));
                assert(pos.x + pos.y * n == i) by (nonlinear_arith)
                    requires
                        (i as int / n as int) * n + i as int % n as int == i,
                        pos.x == i as int % n as int,
                        pos.y == i as int / n as int,
                ;
            }
            let tile: u8 = *board.index(&pos);
            let mut add: u128 = 0;
            if tile != 0 {
                let desired: Position = board.desired_positions[tile as usize];
                proof {
                    lemma_goal_cell_on_grid(n as int, tile as int);
                    assert(desired.cell() == goal_cell(n as int, tile as int));
                }
                if desired != pos {
                    let dx: usize = span(pos.x, desired.x);
                    let dy: usize = span(pos.y, desired.y);
                    add = match self {
                        Heuristic::Manhattan => (dx + dy) as u128,
                        Heuristic::Euclidean => {
                            assert(dx * dx + dy * dy <= 450) by (nonlinear_arith)
                                requires
                                    dx <= 15,
                                    dy <= 15,
                            ;
                            let squares: u128 = (dx * dx + dy * dy) as u128;
                            assert(SCALE * SCALE == 0x1_0000_0000_0000_0000_0000_0000int)
                                by (nonlinear_arith)
                                requires
                                    SCALE == 0x1_0000_0000_0000,
                            ;
                            root(squares * 0x1_0000_0000_0000_0000_0000_0000)
                        },
                        Heuristic::WrongPositions => 1,
                        Heuristic::RoundtripManhattan => (dx + dy + span(pos.x, blank.x) + span(
                            pos.y,
                            blank.y,
                        )) as u128,
                    };
                }
            }
            assert(add == term(*self, board.data@, n as int, i as int));
            sum += add;
            i += 1;
        }
        if let Heuristic::Euclidean = self {
            (sum / SCALE) as usize
        } else {
            sum as usize
        }
    }
}

/// The sum over all tiles but the blank of the number of unit moves between
/// the tile and its goal cell.
pub fn manhattan_distance(board: &Board) -> (h: usize)
    requires
        board.wf(),
    ensures
        h == estimate(Heuristic::Manhattan, board.data@, board.n as int),
        h <= MAX_ESTIMATE,
{
    Heuristic::Manhattan.evaluate(board)
}

/// The Manhattan distance, and for each tile that is neither the blank nor on
/// its goal cell the number of unit moves between the tile and the blank.
pub fn roundtrip_manhattan_distance(board: &Board) -> (h: usize)
    requires
        board.wf(),
    ensures
        h == estimate(Heuristic::RoundtripManhattan, board.data@, board.n as int),
        h <= MAX_ESTIMATE,
{
    Heuristic::RoundtripManhattan.evaluate(board)
}

/// The sum over all tiles but the blank of the straight-line distance
/// between the tile and its goal cell, in whole units. Each distance enters
/// the sum rounded down to a multiple of one part in `SCALE`.
pub fn euclidean_distance(board: &Board) -> (h: usize)
    requires
        board.wf(),
    ensures
        h == estimate(Heuristic::Euclidean, board.data@, board.n as int),
        h <= MAX_ESTIMATE,
{
    Heuristic::Euclidean.evaluate(board)
}

/// The number of tiles other than the blank that are not on their goal cell.
pub fn wrong_positions(board: &Board) -> (h: usize)
    requires
        board.wf(),
    ensures
        h == estimate(Heuristic::WrongPositions, board.data@, board.n as int),
        h <= MAX_ESTIMATE,
{
    Heuristic::WrongPositions.evaluate(board)
}

/// The strategy that a caller's switches select: the first that is set among
/// Manhattan, Euclidean, round trip and wrong positions, and Manhattan when
/// none is set.
pub fn get_heuristic_func(manhattan: bool, euclidean: bool, roundtrip: bool, wrong_positions: bool) -> (r:
    Heuristic)
    ensures
        r == if manhattan {
            Heuristic::Manhattan
        } else if euclidean {
            Heuristic::Euclidean
        } else if roundtrip {
            Heuristic::RoundtripManhattan
        } else if wrong_positions {
            Heuristic::WrongPositions
        } else {
            Heuristic::Manhattan
        },
{
    if manhattan {
        Heuristic::Manhattan
    } else if euclidean {
        Heuristic::Euclidean
    } else if roundtrip {
        Heuristic::RoundtripManhattan
    } else if wrong_positions {
        Heuristic::WrongPositions
    } else {
        Heuristic::Manhattan
    }
}

/// On a board no tile adds more than 64 to a sum in unit moves, or more than
/// 32 whole units to the Euclidean sum.
pub proof fn lemma_term_bound(kind: Heuristic, tiles: Seq<u8>, n: int, i: int)
    requires
        MIN_SIZE <= n <= MAX_SIZE,
        is_arrangement(tiles, n),
        0 <= i < tiles.len(),
    ensures
        kind != Heuristic::Euclidean ==> term(kind, tiles, n, i) <= 64,
        kind == Heuristic::Euclidean ==> term(kind, tiles, n, i) <= 32 * SCALE,
{
    let goal = goal_cell(n, tiles[i] as int);
    assert((tiles[i] as int) < tiles.len());
    lemma_goal_cell_on_grid(n, tiles[i] as int);
    lemma_cell_of_index(n, i);
    lemma_blank_exists(tiles);
    lemma_cell_of_index(n, blank_at(tiles));
    lemma_straight_bounds(n, i, goal);
    assert(distance(n, i, goal) <= 30);
    assert(distance(n, i, goal) * SCALE <= 32 * SCALE) by (nonlinear_arith)
        requires
            distance(n, i, goal) <= 30,
    ;
}

/// Every estimate for a board lies between zero and `MAX_ESTIMATE`.
pub proof fn lemma_estimate_bounded(kind: Heuristic, tiles: Seq<u8>, n: int)
    requires
        MIN_SIZE <= n <= MAX_SIZE,
        is_arrangement(tiles, n),
    ensures
        0 <= estimate(kind, tiles, n) <= MAX_ESTIMATE,
{
    let len = tiles.len() as int;
    assert(len <= 256) by (nonlinear_arith)
        requires
            len == n * n,
            0 <= n <= 16,
    ;
    lemma_total_bound(kind, tiles, n, len);
    lemma_total_zero(kind, tiles, n, len);
    if kind == Heuristic::Euclidean {
        let e = total(kind, tiles, n, len);
        assert(0 <= e / (SCALE as int) <= 8192) by (nonlinear_arith)
            requires
                0 <= e <= len * (32 * SCALE),
                len <= 256,
                SCALE == 0x1_0000_0000_0000,
        ;
    }
}

/// The partial sums of a board grow by at most the bound of a term with
/// every tile.
pub proof fn lemma_total_bound(kind: Heuristic, tiles: Seq<u8>, n: int, k: int)
    requires
        MIN_SIZE <= n <= MAX_SIZE,
        is_arrangement(tiles, n),
        0 <= k <= tiles.len(),
    ensures
        kind != Heuristic::Euclidean ==> total(kind, tiles, n, k) <= k * 64,
        kind == Heuristic::Euclidean ==> total(kind, tiles, n, k) <= k * (32 * SCALE),
    decreases k,
{
    if k > 0 {
        lemma_total_bound(kind, tiles, n, k - 1);
        lemma_term_bound(kind, tiles, n, k - 1);
        assert(k * (32 * SCALE) == (k - 1) * (32 * SCALE) + 32 * SCALE) by (nonlinear_arith);
    }
}

/// A tile that adds to a sum adds at least one, and to the Euclidean sum at
/// least one whole unit.
pub proof fn lemma_term_floor(kind: Heuristic, tiles: Seq<u8>, n: int, i: int)
    ensures
        term(kind, tiles, n, i) >= 0,
        term(kind, tiles, n, i) != 0 ==> term(kind, tiles, n, i) >= 1,
        kind == Heuristic::Euclidean && term(kind, tiles, n, i) != 0 ==> term(kind, tiles, n, i)
            >= SCALE,
        term(kind, tiles, n, i) == 0 <==> tiles[i] == 0 || (i % n, i / n) == goal_cell(n, tiles[i] as int),
{
    let goal = goal_cell(n, tiles[i] as int);
    if tiles[i] != 0 && (i % n, i / n) != goal {
        lemma_straight_bounds(n, i, goal);
        let dx = gap(i % n, goal.0);
        let dy = gap(i / n, goal.1);
        assert(dx >= 1 || dy >= 1);
        assert(dx >= 1 ==> dx * SCALE >= SCALE) by (nonlinear_arith);
        assert(dy >= 1 ==> dy * SCALE >= SCALE) by (nonlinear_arith);
    }
}

/// No partial sum is negative or less than one of its terms, and a partial
/// sum is zero exactly when each of its terms is.
pub proof fn lemma_total_zero(kind: Heuristic, tiles: Seq<u8>, n: int, k: int)
    ensures
        total(kind, tiles, n, k) >= 0,
        forall|i: int| 0 <= i < k ==> total(kind, tiles, n, k) >= #[trigger] term(kind, tiles, n, i),
        total(kind, tiles, n, k) == 0 <==> forall|i: int| 0 <= i < k ==> term(kind, tiles, n, i) == 0,
    decreases k,
{
    if k > 0 {
        lemma_total_zero(kind, tiles, n, k - 1);
        lemma_term_floor(kind, tiles, n, k - 1);
        if total(kind, tiles, n, k) == 0 {
            assert forall|i: int| 0 <= i < k implies term(kind, tiles, n, i) == 0 by {
                if i < k - 1 {
                    assert(term(kind, tiles, n, i) == 0);
                }
            }
        }
    }
}

/// Every estimate is zero on a board whose tiles all lie on their goal
/// cells, and on no other board.
pub proof fn lemma_zero_at_goal(kind: Heuristic, tiles: Seq<u8>, n: int)
    ensures
        estimate(kind, tiles, n) == 0 <==> at_goal(tiles, n),
{
    let len = tiles.len() as int;
    lemma_total_zero(kind, tiles, n, len);
    if at_goal(tiles, n) {
        assert forall|i: int| 0 <= i < len implies term(kind, tiles, n, i) == 0 by {
            lemma_term_floor(kind, tiles, n, i);
            if tiles[i] != 0 {
                assert((i % n, i / n) == goal_cell(n, tiles[i] as int));
            }
        }
    }
    if estimate(kind, tiles, n) == 0 {
        assert forall|i: int| 0 <= i < tiles.len() && #[trigger] tiles[i] != 0 implies (i % n, i / n)
            == goal_cell(n, tiles[i] as int) by {
            lemma_term_floor(kind, tiles, n, i);
            assert(total(kind, tiles, n, len) >= term(kind, tiles, n, i));
        }
    }
}

/// The goal arrangement is a board, all its tiles lie on their goal cells,
/// and every estimate for it is zero.
pub proof fn lemma_goal(kind: Heuristic, n: int)
    requires
        MIN_SIZE <= n <= MAX_SIZE,
    ensures
        is_arrangement(goal_tiles(n), n),
        at_goal(goal_tiles(n), n),
        estimate(kind, goal_tiles(n), n) == 0,
{
    let goal = goal_tiles(n);
    assert(0 <= n * n <= 256) by (nonlinear_arith)
        requires
            0 <= n <= 16,
    ;
    assert forall|i: int| 0 <= i < goal.len() implies 0 <= place_of(n, i % n, i / n) < n * n && spiral(
        n,
    )[place_of(n, i % n, i / n)] == (i % n, i / n) && #[trigger] goal[i] == label_at(
        n,
        i % n,
        i / n,
    ) by {
        lemma_cell_of_index(n, i);
        lemma_spiral_covers(n, i % n, i / n);
    }
    assert forall|i: int, j: int| 0 <= i < j < goal.len() implies goal[i] != goal[j] by {
        lemma_cell_of_index(n, i);
        lemma_cell_of_index(n, j);
        if goal[i] == goal[j] {
            assert(place_of(n, i % n, i / n) == place_of(n, j % n, j / n));
            assert(spiral(n)[place_of(n, i % n, i / n)] == (i % n, i / n));
            assert(spiral(n)[place_of(n, j % n, j / n)] == (j % n, j / n));
        }
    }
    assert forall|i: int| 0 <= i < goal.len() implies (#[trigger] goal[i] as int) < goal.len() by {}
    assert forall|i: int| 0 <= i < goal.len() && #[trigger] goal[i] != 0 implies (i % n, i / n)
        == goal_cell(n, goal[i] as int) by {}
    lemma_zero_at_goal(kind, goal, n);
}

/// The goal arrangement is the only board with every tile on its goal cell.
pub proof fn lemma_goal_unique(tiles: Seq<u8>, n: int)
    requires
        MIN_SIZE <= n <= MAX_SIZE,
        is_arrangement(tiles, n),
        at_goal(tiles, n),
    ensures
        tiles == goal_tiles(n),
{
    let goal = goal_tiles(n);
    assert(0 <= n * n <= 256) by (nonlinear_arith)
        requires
            0 <= n <= 16,
    ;
    assert forall|i: int| 0 <= i < tiles.len() implies tiles[i] == goal[i] by {
        lemma_cell_of_index(n, i);
        lemma_spiral_covers(n, i % n, i / n);
        let k = place_of(n, i % n, i / n);
        assert(0 <= k < n * n && spiral(n)[k] == (i % n, i / n));
        if tiles[i] != 0 {
            let mine = tiles[i] as int - 1;
            assert((tiles[i] as int) < tiles.len());
            assert(spiral(n)[mine] == (i % n, i / n));
            if mine < k {
                lemma_spiral_distinct(n, mine, k);
            } else if k < mine {
                lemma_spiral_distinct(n, k, mine);
            }
        } else if k != n * n - 1 {
            lemma_label_exists(tiles, k + 1);
            let j = choose|j: int| 0 <= j < tiles.len() && tiles[j] == k + 1;
            lemma_cell_of_index(n, j);
            assert(tiles[j] != 0);
            assert((j % n, j / n) == goal_cell(n, tiles[j] as int));
        }
    }
    assert(tiles =~= goal);
}

/// Two boards whose terms agree everywhere but at `i` and `j` differ in their
/// partial sums by the difference of those terms.
pub proof fn lemma_total_local(kind: Heuristic, a: Seq<u8>, b: Seq<u8>, n: int, i: int, j: int, k: int)
    requires
        i != j,
        forall|m: int| 0 <= m < k && m != i && m != j ==> term(kind, a, n, m) == term(kind, b, n, m),
    ensures
        total(kind, a, n, k) - total(kind, b, n, k) == (if 0 <= i < k {
            term(kind, a, n, i) - term(kind, b, n, i)
        } else {
            0
        }) + (if 0 <= j < k {
            term(kind, a, n, j) - term(kind, b, n, j)
        } else {
            0
        }),
    decreases k,
{
    if k > 0 {
        lemma_total_local(kind, a, b, n, i, j, k - 1);
    }
}

/// One move changes the Manhattan distance and the count of wrong positions
/// by at most one.
pub proof fn lemma_move_changes_little(kind: Heuristic, a: Seq<u8>, b: Seq<u8>, n: int)
    requires
        kind == Heuristic::Manhattan || kind == Heuristic::WrongPositions,
        n >= 1,
        a.len() == n * n,
        is_move(n, a, b),
    ensures
        estimate(kind, a, n) <= estimate(kind, b, n) + 1,
        estimate(kind, b, n) <= estimate(kind, a, n) + 1,
{
    let (i, j) = choose|i: int, j: int| adjacent(n, i, j) && a[i] == 0 && b == swapped(a, i, j);
    let len = a.len() as int;
    assert(b.len() == len);
    assert forall|m: int| 0 <= m < len && m != i && m != j implies term(kind, a, n, m) == term(
        kind,
        b,
        n,
        m,
    ) by {
        assert(b[m] == a[m]);
    }
    lemma_total_local(kind, a, b, n, i, j, len);
    assert(b[i] == a[j]);
    assert(b[j] == 0);
}

/// The Euclidean estimate never exceeds the Manhattan distance, and the
/// count of wrong positions never does either.
pub proof fn lemma_below_manhattan(kind: Heuristic, tiles: Seq<u8>, n: int, k: int)
    requires
        kind == Heuristic::Euclidean || kind == Heuristic::WrongPositions,
    ensures
        kind == Heuristic::Euclidean ==> total(kind, tiles, n, k) <= total(
            Heuristic::Manhattan,
            tiles,
            n,
            k,
        ) * SCALE,
        kind == Heuristic::WrongPositions ==> total(kind, tiles, n, k) <= total(
            Heuristic::Manhattan,
            tiles,
            n,
            k,
        ),
        k == tiles.len() ==> estimate(kind, tiles, n) <= estimate(Heuristic::Manhattan, tiles, n),
    decreases k,
{
    if k > 0 {
        lemma_below_manhattan(kind, tiles, n, k - 1);
        lemma_term_floor(Heuristic::Manhattan, tiles, n, k - 1);
        lemma_term_floor(kind, tiles, n, k - 1);
        lemma_straight_bounds(n, k - 1, goal_cell(n, tiles[k - 1] as int));
        let before = total(Heuristic::Manhattan, tiles, n, k - 1);
        let last = term(Heuristic::Manhattan, tiles, n, k - 1);
        assert((before + last) * SCALE == before * SCALE + last * SCALE) by (nonlinear_arith);
    }
    if k == tiles.len() && kind == Heuristic::Euclidean {
        let m = total(Heuristic::Manhattan, tiles, n, k);
        let e = total(kind, tiles, n, k);
        assert(e / (SCALE as int) <= m) by (nonlinear_arith)
            requires
                e <= m * SCALE,
                SCALE > 0,
        ;
    }
}

/// The Manhattan distance, the Euclidean estimate and the count of wrong
/// positions never exceed the number of moves of a way that ends on a board
/// where the estimate is zero.
pub proof fn lemma_admissible(kind: Heuristic, path: Seq<Seq<u8>>, n: int)
    requires
        kind != Heuristic::RoundtripManhattan,
        n >= 1,
        is_way(path, n),
        estimate(kind, path.last(), n) == 0,
    ensures
        estimate(kind, path[0], n) <= path.len() - 1,
    decreases path.len(), (if kind == Heuristic::Manhattan { 0int } else { 1int }),
{
    let m = Heuristic::Manhattan;
    lemma_zero_at_goal(kind, path.last(), n);
    lemma_zero_at_goal(m, path.last(), n);
    if kind != m {
        lemma_below_manhattan(kind, path[0], n, path[0].len() as int);
        lemma_admissible(m, path, n);
    } else if path.len() > 1 {
        let rest = path.subrange(1, path.len() as int);
        assert forall|s: int| 0 <= s < rest.len() implies (#[trigger] rest[s]).len() == n * n by {
            assert(rest[s] == path[s + 1]);
        }
        assert forall|s: int| 0 <= s < rest.len() - 1 implies is_move(n, #[trigger] rest[s], rest[s + 1]) by {
            assert(rest[s] == path[s + 1]);
            assert(is_move(n, path[s + 1], path[s + 1 + 1]));
        }
        assert(rest.last() == path.last());
        lemma_admissible(m, rest, n);
        assert(is_move(n, path[0], path[0int + 1]));
        lemma_move_changes_little(m, path[0], path[1], n);
    }
}

/// The Manhattan distance, the Euclidean estimate and the count of wrong
/// positions are admissible.
pub proof fn lemma_heuristic_admissible(kind: Heuristic, n: int)
    requires
        kind != Heuristic::RoundtripManhattan,
        n >= 1,
    ensures
        admissible(kind, n),
{
    assert forall|path: Seq<Seq<u8>>| #[trigger]
        is_way(path, n) && kind.value(path.last(), n) == 0 implies kind.value(path[0], n)
        <= path.len() - 1 by {
        lemma_admissible(kind, path, n);
    }
}

} // verus!
