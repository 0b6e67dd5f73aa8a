//! Tile arrangements and the goal table that they share.

use vstd::prelude::*;
use std::rc::Rc;
use crate::board_map::same_tiles;
use crate::position::{Direction, Position, on_grid, lemma_index_round_trip};
use crate::spiral::{goal_cell, walk, spiral, lemma_walk_len, lemma_walk_prefix, lemma_walk_shaped};

verus! {

/// The smallest board size that is accepted.
pub const MIN_SIZE: usize = 2;

/// The largest board size that is accepted: labels are bytes, so a board has
/// at most 256 cells.
pub const MAX_SIZE: usize = 16;

/// Why a size and a tile sequence do not describe a board.
#[derive(Clone, Copy, PartialEq, Eq, Structural, Debug)]
pub enum StateError {
    /// The size is below `MIN_SIZE` or above `MAX_SIZE`.
    Size,
    /// The number of tiles is not the square of the size.
    Count,
    /// Some label is not below the number of cells.
    Label,
    /// Some label occurs twice, so another is missing.
    Duplicate,
}

/// An arrangement of the labels `0..n*n` on the `n`-by-`n` grid, in row-major
/// order, together with the goal cell of every label. Label 0 is the blank.
#[derive(Clone, Debug)]
pub struct Board {
    pub data: Vec<u8>,
    pub n: usize,
    pub desired_positions: Rc<Vec<Position>>,
}

/// Whether every label is below the number of tiles.
pub open spec fn labels_in_range(tiles: Seq<u8>) -> bool {
    forall|i: int| 0 <= i < tiles.len() ==> (#[trigger] tiles[i] as int) < tiles.len()
}

/// Whether no label occurs twice.
pub open spec fn labels_distinct(tiles: Seq<u8>) -> bool {
    forall|i: int, j: int| 0 <= i < j < tiles.len() ==> tiles[i] != tiles[j]
}

/// Whether `tiles` holds each of the labels `0..n*n` exactly once.
pub open spec fn is_arrangement(tiles: Seq<u8>, n: int) -> bool {
    &&& tiles.len() == n * n
    &&& labels_in_range(tiles)
    &&& labels_distinct(tiles)
}

/// Whether `table` maps every tile label to its goal cell on the `n`-by-`n`
/// grid: label 1 to the first cell of the spiral, label 2 to the second and
/// so on. The blank's entry is left open: nothing reads it.
pub open spec fn holds_goal_cells(table: Seq<Position>, n: int) -> bool {
    &&& table.len() == n * n
    &&& forall|k: int| 1 <= k < table.len() ==> (#[trigger] table[k]).cell() == goal_cell(n, k)
}

/// Whether `table` is the goal table of the `n`-by-`n` grid: it maps every
/// tile label to its goal cell, and the blank to the first cell of the
/// spiral.
pub open spec fn is_goal_table(table: Seq<Position>, n: int) -> bool {
    &&& holds_goal_cells(table, n)
    &&& table.len() > 0 ==> table[0].cell() == goal_cell(n, 0)
}

/// The tile sequence `tiles` with the tiles at `a` and `b` exchanged.
pub open spec fn swapped(tiles: Seq<u8>, a: int, b: int) -> Seq<u8> {
    tiles.update(a, tiles[b]).update(b, tiles[a])
}

/// The tile sequences of `boards`.
pub open spec fn tiles_of(boards: Seq<Board>) -> Seq<Seq<u8>> {
    boards.map_values(|b: Board| b.data@)
}

/// Whether the cells with the indices `i` and `j` share an edge.
pub open spec fn adjacent(n: int, i: int, j: int) -> bool {
    &&& 0 <= i < n * n
    &&& 0 <= j < n * n
    &&& (i % n == j % n && (i / n == j / n + 1 || j / n == i / n + 1)) || (i / n == j / n && (i % n == j
        % n + 1 || j % n == i % n + 1))
}

/// Whether `b` comes from `a` by one move: the blank changes places with a
/// tile on a cell that shares an edge with the blank's.
pub open spec fn is_move(n: int, a: Seq<u8>, b: Seq<u8>) -> bool {
    exists|i: int, j: int| adjacent(n, i, j) && a[i] == 0 && b == swapped(a, i, j)
}

/// The index of the cell next to the cell with index `i` in direction `d`,
/// if that cell lies on the grid.
pub open spec fn neighbour(n: int, i: int, d: Direction) -> Option<int> {
    if on_grid(n, i % n + d.dx(), i / n + d.dy()) {
        Some(i + d.dx() + d.dy() * n)
    } else {
        None
    }
}

/// The boards that one move of the blank in direction `d` leads to: one
/// board, or none where the move would leave the grid.
pub open spec fn moved(tiles: Seq<u8>, n: int, d: Direction) -> Seq<Seq<u8>> {
    match neighbour(n, blank_at(tiles), d) {
        Some(j) => seq![swapped(tiles, blank_at(tiles), j)],
        None => seq![],
    }
}

/// The boards that one move leads to, in the order right, down, left, up of
/// the blank's move.
pub open spec fn successors(tiles: Seq<u8>, n: int) -> Seq<Seq<u8>> {
    moved(tiles, n, Direction::Right) + moved(tiles, n, Direction::Down) + moved(
        tiles,
        n,
        Direction::Left,
    ) + moved(tiles, n, Direction::Up)
}

/// A cell and its neighbour share an edge.
pub proof fn lemma_neighbour_adjacent(n: int, i: int, d: Direction)
    requires
        n >= 1,
        0 <= i < n * n,
        neighbour(n, i, d).is_some(),
    ensures
        adjacent(n, i, neighbour(n, i, d).unwrap()),
        neighbour(n, i, d).unwrap() % n == i % n + d.dx(),
        neighbour(n, i, d).unwrap() / n == i / n + d.dy(),
{
    let j = neighbour(n, i, d).unwrap();
    let x = i % n + d.dx();
    let y = i / n + d.dy();
    lemma_cell_of_index(n, i);
    lemma_linear_bound(n, x, y);
    assert(y * n + x == j) by (nonlinear_arith)
        requires
            (i / n) * n + i % n == i,
            y == i / n + d.dy(),
            x == i % n + d.dx(),
            j == i + d.dx() + d.dy() * n,
    ;
    lemma_index_round_trip(x, y, n);
}

/// Every successor of an arrangement is one move away from it.
pub proof fn lemma_successor_is_move(tiles: Seq<u8>, n: int, k: int)
    requires
        n >= 1,
        is_arrangement(tiles, n),
        0 <= k < successors(tiles, n).len(),
    ensures
        is_move(n, tiles, successors(tiles, n)[k]),
        is_arrangement(successors(tiles, n)[k], n),
{
    assert(n * n >= 1) by (nonlinear_arith)
        requires
            n >= 1,
    ;
    lemma_blank_exists(tiles);
    let b = blank_at(tiles);
    let next = successors(tiles, n)[k];
    let d = if k < moved(tiles, n, Direction::Right).len() {
        Direction::Right
    } else if k < moved(tiles, n, Direction::Right).len() + moved(tiles, n, Direction::Down).len() {
        Direction::Down
    } else if k < moved(tiles, n, Direction::Right).len() + moved(tiles, n, Direction::Down).len()
        + moved(tiles, n, Direction::Left).len() {
        Direction::Left
    } else {
        Direction::Up
    };
    assert(neighbour(n, b, d).is_some() && next == swapped(tiles, b, neighbour(n, b, d).unwrap()));
    let j = neighbour(n, b, d).unwrap();
    lemma_neighbour_adjacent(n, b, d);
    lemma_swap_keeps_arrangement(tiles, b, j);
    assert(adjacent(n, b, j) && tiles[b] == 0 && next == swapped(tiles, b, j));
}

/// The index of the blank in `tiles`.
pub open spec fn blank_at(tiles: Seq<u8>) -> int {
    choose|i: int| 0 <= i < tiles.len() && tiles[i] == 0
}

/// The row-major index of an on-grid cell lies below the number of cells.
pub proof fn lemma_linear_bound(n: int, x: int, y: int)
    requires
        on_grid(n, x, y),
    ensures
        0 <= y * n + x < n * n,
{
    assert(y * n >= 0) by (nonlinear_arith)
        requires
            y >= 0,
            n >= 0,
    ;
    assert((y + 1) * n <= n * n) by (nonlinear_arith)
        requires
            y + 1 <= n,
            n >= 0,
    ;
    assert((y + 1) * n == y * n + n) by (nonlinear_arith);
}

/// An index below the number of cells names an on-grid cell.
pub proof fn lemma_cell_of_index(n: int, i: int)
    requires
        n > 0,
        0 <= i < n * n,
    ensures
        on_grid(n, i % n, i / n),
        (i / n) * n + i % n == i,
{
    vstd::arithmetic::div_mod::lemma_fundamental_div_mod(i, n);
    vstd::arithmetic::div_mod::lemma_mod_bound(i, n);
    vstd::arithmetic::mul::lemma_mul_is_commutative(n, i / n);
    assert(i / n >= 0 && i / n < n) by (nonlinear_arith)
        requires
            n > 0,
            0 <= i < n * n,
            i == n * (i / n) + i % n,
            0 <= i % n < n,
    ;
}

/// A sequence that holds each of the labels below its length once holds the
/// blank.
pub proof fn lemma_blank_exists(tiles: Seq<u8>)
    requires
        tiles.len() > 0,
        labels_in_range(tiles),
        labels_distinct(tiles),
    ensures
        exists|i: int| 0 <= i < tiles.len() && tiles[i] == 0,
{
    lemma_label_exists(tiles, 0);
}

/// A sequence of labels below its length, none of them twice, holds every
/// label below its length.
pub proof fn lemma_label_exists(tiles: Seq<u8>, label: int)
    requires
        0 <= label < tiles.len(),
        labels_in_range(tiles),
        labels_distinct(tiles),
    ensures
        exists|i: int| 0 <= i < tiles.len() && tiles[i] == label,
{
    let len = tiles.len() as int;
    let ints = tiles.map_values(|t: u8| t as int);
    assert(ints.no_duplicates()) by {
        assert forall|i: int, j: int| 0 <= i < ints.len() && 0 <= j < ints.len() && i != j implies ints[i]
            != ints[j] by {
            if i < j {
                assert(tiles[i] != tiles[j]);
            } else {
                assert(tiles[j] != tiles[i]);
            }
        }
    }
    ints.unique_seq_to_set();
    let seen = ints.to_set();
    let all = vstd::set_lib::set_int_range(0, len);
    vstd::set_lib::lemma_int_range(0, len);
    assert(seen.subset_of(all)) by {
        assert forall|v: int| seen.contains(v) implies all.contains(v) by {
            let i = choose|i: int| 0 <= i < ints.len() && ints[i] == v;
            assert((tiles[i] as int) < len);
        }
    }
    vstd::set_lib::lemma_subset_equality(seen, all);
    assert(all.contains(label));
    assert(seen.contains(label));
    let i = choose|i: int| 0 <= i < ints.len() && ints[i] == label;
    assert(tiles[i] == label);
}

impl PartialEq for Board {
    /// Two boards are equal when their tiles are.
    fn eq(&self, other: &Self) -> (r: bool) {
        same_tiles(&self.data, &other.data)
    }
}

impl Eq for Board {

}

impl vstd::std_specs::cmp::PartialEqSpecImpl for Board {
    open spec fn obeys_eq_spec() -> bool {
        true
    }

    open spec fn eq_spec(&self, other: &Self) -> bool {
        self.data@ == other.data@
    }
}

impl Board {
    /// Whether the board holds each label once and carries the goal cell of
    /// every tile of its size.
    pub open spec fn wf(&self) -> bool {
        &&& MIN_SIZE <= self.n <= MAX_SIZE
        &&& is_arrangement(self.data@, self.n as int)
        &&& holds_goal_cells(self.desired_positions@, self.n as int)
    }

    /// The goal cell of every label on the `n`-by-`n` grid: the entries from
    /// 1 on are the cells in the order of the spiral walk, and entry 0, the
    /// blank's, is the cell where the walk starts.
    pub fn create_desired_positions(n: usize) -> (table: Vec<Position>)
        requires
            n * n <= usize::MAX,
        ensures
            is_goal_table(table@, n as int),
    {
        let total: usize = n * n;
        let mut table: Vec<Position> = Vec::with_capacity(total);
        let mut visited: Vec<bool> = vec![false; total];
        let mut pos = Position { x: 0, y: 0 };
        let mut dir = Direction::Right;
        let mut k: usize = 0;
        table.push(pos);
        proof {
            assert forall|p: int, q: int| on_grid(n as int, p, q) implies (visited@[q * n + p]
                <==> #[trigger] walk(n as int, 0).cells.contains((p, q))) by {
                lemma_linear_bound(n as int, p, q);
            }
        }
        while k < total
            invariant
                total == n * n,
                k <= total,
                table@.len() == k + 1,
                table@[0].cell() == (0int, 0int),
                visited@.len() == total,
                walk(n as int, k as nat).cells.len() == k,
                forall|i: int|
                    0 <= i < k ==> (#[trigger] table@[i + 1]).cell() == walk(n as int, k as nat).cells[i],
                k < total ==> pos.cell() == (walk(n as int, k as nat).x, walk(n as int, k as nat).y)
                    && dir == walk(n as int, k as nat).dir,
                forall|p: int, q: int|
                    on_grid(n as int, p, q) ==> (visited@[q * n + p] <==> #[trigger] walk(
                        n as int,
                        k as nat,
                    ).cells.contains((p, q))),
            decreases total - k,
        {
            let ghost w0 = walk(n as int, k as nat);
            let ghost w1 = walk(n as int, (k + 1) as nat);
            proof {
                broadcast use vstd::seq_lib::lemma_seq_contains_after_push;

                assert(n >= 1) by (nonlinear_arith)
                    requires
                        n * n > 0,
                ;
                lemma_walk_shaped(n as int, k as nat);
                lemma_walk_len(n as int, (k + 1) as nat);
                lemma_linear_bound(n as int, pos.x as int, pos.y as int);
                assert(w1.cells == w0.cells.push((w0.x, w0.y)));
            }
            table.push(pos);
            let here: usize = pos.to_usize(n);
            visited[here] = true;
            proof {
                assert forall|p: int, q: int| on_grid(n as int, p, q) implies (visited@[q * n + p]
                    <==> #[trigger] w1.cells.contains((p, q))) by {
                    lemma_linear_bound(n as int, p, q);
                    lemma_index_round_trip(p, q, n as int);
                    lemma_index_round_trip(pos.x as int, pos.y as int, n as int);
                    assert(w0.cells.contains((p, q)) || !w0.cells.contains((p, q)));
                }
                assert forall|i: int| 0 <= i < k + 1 implies (#[trigger] table@[i + 1]).cell()
                    == w1.cells[i] by {
                    if i < k {
                        assert(w1.cells[i] == w0.cells[i]);
                    }
                }
            }
            if k + 1 < total {
                proof {
                    lemma_walk_shaped(n as int, (k + 1) as nat);
                }
                match pos.step(dir, n) {
                    Some(next) => {
                        let clear: bool = match next.step(dir, n) {
                            Some(ahead) => {
                                proof {
                                    lemma_linear_bound(n as int, ahead.x as int, ahead.y as int);
                                }
                                let there: usize = ahead.to_usize(n);
                                !visited[there]
                            },
                            None => false,
                        };
                        if !clear {
                            dir = dir.turn();
                        }
                        pos = next;
                    },
                    None => {
                        proof {
                            assert(false);
                        }
                    },
                }
            }
            k += 1;
        }
        let ghost full = table@;
        table.pop();
        proof {
            if total > 0 {
                lemma_walk_prefix(n as int, 0, total as nat);
            }
            assert forall|j: int| 0 <= j < table@.len() implies (#[trigger] table@[j]).cell()
                == goal_cell(n as int, j) by {
                assert(table@[j] == full[j]);
                if j > 0 {
                    assert(full[(j - 1) + 1].cell() == walk(n as int, total as nat).cells[j - 1]);
                }
            }
        }
        table
    }

    /// Why the size `n` and the tiles `tiles` do not make a board, if they do
    /// not: the first of a size out of range, a wrong number of tiles, a
    /// label out of range, and a repeated label.
    pub open spec fn refusal(n: int, tiles: Seq<u8>) -> Option<StateError> {
        if n < MIN_SIZE || n > MAX_SIZE {
            Some(StateError::Size)
        } else if tiles.len() != n * n {
            Some(StateError::Count)
        } else if !labels_in_range(tiles) {
            Some(StateError::Label)
        } else if !labels_distinct(tiles) {
            Some(StateError::Duplicate)
        } else {
            None
        }
    }

    /// The board of size `n` with the tiles `data`, in row-major order.
    ///
    /// The sequence is accepted when it holds each of the labels `0..n*n`
    /// once. Otherwise the first of these is reported: a size out of range, a
    /// wrong number of tiles, a label out of range, a repeated label.
    pub fn new(n: usize, data: Vec<u8>) -> (r: Result<Board, StateError>)
        ensures
            match r {
                Ok(board) => {
                    &&& Board::refusal(n as int, data@).is_none()
                    &&& board.wf()
                    &&& is_goal_table(board.desired_positions@, n as int)
                    &&& board.n == n
                    &&& board.data@ == data@
                },
                Err(e) => Board::refusal(n as int, data@) == Some(e),
            },
    {
        if n < MIN_SIZE || n > MAX_SIZE {
            return Err(StateError::Size);
        }
        assert(n * n <= 256) by (nonlinear_arith)
            requires
                n <= 16,
        ;
        let total: usize = n * n;
        if data.len() != total {
            return Err(StateError::Count);
        }
        let mut i: usize = 0;
        while i < total
            invariant
                MIN_SIZE <= n <= MAX_SIZE,
                total == n * n,
                total == data@.len(),
                i <= total,
                forall|j: int| 0 <= j < i ==> (#[trigger] data@[j] as int) < total,
            decreases total - i,
        {
            if data[i] as usize >= total {
                proof {
                    assert(data@[i as int] as int >= data@.len());
                }
                return Err(StateError::Label);
            }
            i += 1;
        }
        let mut seen: Vec<bool> = vec![false; total];
        let mut i: usize = 0;
        while i < total
            invariant
                MIN_SIZE <= n <= MAX_SIZE,
                total == n * n,
                total == data@.len(),
                seen@.len() == total,
                i <= total,
                labels_in_range(data@),
                forall|a: int, b: int| 0 <= a < b < i ==> data@[a] != data@[b],
                forall|v: int|
                    0 <= v < total ==> (#[trigger] seen@[v] <==> exists|a: int|
                        0 <= a < i && data@[a] as int == v),
            decreases total - i,
        {
            let label: usize = data[i] as usize;
            if seen[label] {
                proof {
                    let a = choose|a: int| 0 <= a < i && data@[a] as int == label as int;
                    assert(data@[a] == data@[i as int]);
                    assert(!labels_distinct(data@));
                }
                return Err(StateError::Duplicate);
            }
            seen[label] = true;
            proof {
                assert forall|v: int| 0 <= v < total implies (#[trigger] seen@[v] <==> exists|a: int|
                    0 <= a < i + 1 && data@[a] as int == v) by {
                    if v == label {
                        assert(data@[i as int] as int == v);
                    } else if seen@[v] {
                        let a = choose|a: int| 0 <= a < i && data@[a] as int == v;
                        assert(0 <= a < i + 1 && data@[a] as int == v);
                    }
                }
                assert forall|a: int, b: int| 0 <= a < b < i + 1 implies data@[a] != data@[b] by {
                    if b == i && data@[a] == data@[b] {
                        assert(0 <= a < i && data@[a] as int == label as int);
                    }
                }
            }
            i += 1;
        }
        Ok(Board { data, n, desired_positions: Rc::new(Board::create_desired_positions(n)) })
    }

    /// A copy of `board` with the tiles at `a` and `b` exchanged. It shares
    /// the goal table of `board`.
    pub fn with_swap(board: &Board, a: usize, b: usize) -> (r: Board)
        requires
            a < board.data.len(),
            b < board.data.len(),
        ensures
            r.data@ == swapped(board.data@, a as int, b as int),
            r.n == board.n,
            r.desired_positions == board.desired_positions,
            board.wf() ==> r.wf(),
    {
        let mut data: Vec<u8> = board.data.clone();
        let first: u8 = data[a];
        let second: u8 = data[b];
        data[a] = second;
        data[b] = first;
        proof {
            lemma_swap_keeps_arrangement(board.data@, a as int, b as int);
        }
        Board { data, n: board.n, desired_positions: board.desired_positions.clone() }
    }

    /// The tile on the cell `idx`.
    pub fn index(&self, idx: &Position) -> (tile: &u8)
        requires
            idx.x + idx.y * self.n < self.data.len(),
        ensures
            *tile == self.data@[idx.x + idx.y * self.n],
    {
        &self.data[idx.x + idx.y * self.n]
    }

    /// A copy of the board. It shares the goal table.
    pub fn duplicate(&self) -> (r: Board)
        ensures
            r.data@ == self.data@,
            r.n == self.n,
            r.desired_positions == self.desired_positions,
            self.wf() ==> r.wf(),
    {
        Board { data: self.data.clone(), n: self.n, desired_positions: self.desired_positions.clone() }
    }

    /// The cells of the board in row-major order.
    pub fn iter(&self) -> (it: BoardIterator)
        requires
            self.n * self.n <= usize::MAX,
        ensures
            it.index() == 0,
            it.size() == self.n,
    {
        BoardIterator { index: 0, n: self.n }
    }

    /// The tile on the cell `idx`, for writing.
    pub fn index_mut(&mut self, idx: &Position) -> (tile: &mut u8)
        requires
            idx.x + idx.y * old(self).n < old(self).data.len(),
        ensures
            *tile == old(self).data@[idx.x + idx.y * old(self).n],
            final(self).data@ == old(self).data@.update(idx.x + idx.y * old(self).n, *final(tile)),
            final(self).n == old(self).n,
            final(self).desired_positions == old(self).desired_positions,
    {
        &mut self.data[idx.x + idx.y * self.n]
    }

    /// The index of the blank.
    pub fn blank_index(&self) -> (i: usize)
        requires
            self.wf(),
        ensures
            i < self.data.len(),
            self.data@[i as int] == 0,
            i == blank_at(self.data@),
    {
        proof {
            assert(self.n * self.n >= 4) by (nonlinear_arith)
                requires
                    self.n >= 2,
            ;
            lemma_blank_exists(self.data@);
        }
        let mut i: usize = 0;
        while self.data[i] != 0
            invariant
                i < self.data.len(),
                exists|j: int| i <= j < self.data.len() && self.data@[j] == 0,
            decreases self.data.len() - i,
        {
            i += 1;
        }
        proof {
            lemma_blank_unique(self.data@, i as int);
        }
        i
    }
}

/// A walk over the cells of a board in row-major order.
pub struct BoardIterator {
    index: usize,
    n: usize,
}

impl BoardIterator {
    /// The number of cells handed out so far.
    pub closed spec fn index(&self) -> nat {
        self.index as nat
    }

    /// The size of the board.
    pub closed spec fn size(&self) -> nat {
        self.n as nat
    }

    /// The next cell in row-major order, or `None` after the last one.
    pub fn next(&mut self) -> (r: Option<Position>)
        requires
            old(self).size() * old(self).size() <= usize::MAX,
        ensures
            final(self).size() == old(self).size(),
            old(self).index() < old(self).size() * old(self).size() ==> {
                &&& final(self).index() == old(self).index() + 1
                &&& r == Some(
                    Position {
                        x: (old(self).index() % old(self).size()) as usize,
                        y: (old(self).index() / old(self).size()) as usize,
                    },
                )
            },
            old(self).index() >= old(self).size() * old(self).size() ==> {
                &&& final(self).index() == old(self).index()
                &&& r.is_none()
            },
    {
        if self.index >= self.n * self.n {
            return None;
        }
        assert(self.n > 0) by (nonlinear_arith)
            requires
                self.index < self.n * self.n,
        ;
        let here = Position::from_u64(self.index, self.n);
        self.index += 1;
        Some(here)
    }
}

/// An arrangement has its blank in one place only.
pub proof fn lemma_blank_unique(tiles: Seq<u8>, i: int)
    requires
        labels_distinct(tiles),
        0 <= i < tiles.len(),
        tiles[i] == 0,
    ensures
        blank_at(tiles) == i,
{
    let j = blank_at(tiles);
    if i < j {
        assert(tiles[i] != tiles[j]);
    } else if j < i {
        assert(tiles[j] != tiles[i]);
    }
}

/// Exchanging two tiles keeps each label on the board exactly once.
pub proof fn lemma_swap_keeps_arrangement(tiles: Seq<u8>, a: int, b: int)
    requires
        0 <= a < tiles.len(),
        0 <= b < tiles.len(),
    ensures
        swapped(tiles, a, b).len() == tiles.len(),
        labels_in_range(tiles) ==> labels_in_range(swapped(tiles, a, b)),
        labels_distinct(tiles) ==> labels_distinct(swapped(tiles, a, b)),
{
    let s = swapped(tiles, a, b);
    let back = |i: int|
        if i == a {
            b
        } else if i == b {
            a
        } else {
            i
        };
    assert forall|i: int| 0 <= i < s.len() implies s[i] == tiles[back(i)] by {}
    if labels_in_range(tiles) {
        assert forall|i: int| 0 <= i < s.len() implies (#[trigger] s[i] as int) < s.len() by {
            assert((tiles[back(i)] as int) < tiles.len());
        }
    }
    if labels_distinct(tiles) {
        assert forall|i: int, j: int| 0 <= i < j < s.len() implies s[i] != s[j] by {
            let p = back(i);
            let q = back(j);
            if p < q {
                assert(tiles[p] != tiles[q]);
            } else {
                assert(tiles[q] != tiles[p]);
            }
        }
    }
}

} // verus!
