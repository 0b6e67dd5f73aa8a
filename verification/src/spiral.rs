//! The inward spiral that fixes the goal cell of every tile label.
//!
//! The walk starts in the top-left corner heading right and turns clockwise
//! whenever the cell ahead is off the grid or already visited. The cells in
//! the order of the walk are the goal cells of the labels 1, 2, 3 and so on:
//! label 1 belongs in the corner where the walk starts. The goal table
//! gives the blank that corner too; no estimate reads the blank's entry,
//! and in the goal arrangement the blank lies on the cell that is left
//! over, the last of the walk.

use vstd::prelude::*;
use crate::position::{Direction, on_grid};

verus! {

/// The walk after some number of cells has been visited: the visited cells in
/// order, the cell to visit next, and the heading in which it will be left.
pub struct Walk {
    pub cells: Seq<(int, int)>,
    pub x: int,
    pub y: int,
    pub dir: Direction,
}

/// Whether `(x, y)` is a cell of the grid that `cells` has not visited.
pub open spec fn free(n: int, cells: Seq<(int, int)>, x: int, y: int) -> bool {
    on_grid(n, x, y) && !cells.contains((x, y))
}

/// The walk on the `n`-by-`n` grid after `k` cells have been visited.
pub open spec fn walk(n: int, k: nat) -> Walk
    decreases k,
{
    if k == 0 {
        Walk { cells: Seq::empty(), x: 0, y: 0, dir: Direction::Right }
    } else {
        let w = walk(n, (k - 1) as nat);
        let cells = w.cells.push((w.x, w.y));
        let x = w.x + w.dir.dx();
        let y = w.y + w.dir.dy();
        let dir = if free(n, cells, x + w.dir.dx(), y + w.dir.dy()) {
            w.dir
        } else {
            w.dir.turned()
        };
        Walk { cells, x, y, dir }
    }
}

/// The cells of the `n`-by-`n` grid in the order of the spiral walk.
pub open spec fn spiral(n: int) -> Seq<(int, int)> {
    walk(n, (n * n) as nat).cells
}

/// The goal cell of the label `label`: for a tile the cell of the spiral
/// that its label counts, from one, and for the blank the first cell.
pub open spec fn goal_cell(n: int, label: int) -> (int, int) {
    if label <= 0 {
        spiral(n)[0]
    } else {
        spiral(n)[label - 1]
    }
}

/// The cells that a walk with heading `dir` at `(x, y)` has still to visit:
/// the rest of the current arm, and the rectangle of columns `l..=r` and rows
/// `t..=b` that the arms enclose.
pub open spec fn pending(w: Walk, l: int, r: int, t: int, b: int, p: int, q: int) -> bool {
    ||| (l <= p <= r && t <= q <= b)
    ||| match w.dir {
        Direction::Right => q == w.y && w.x <= p <= r,
        Direction::Down => p == w.x && w.y <= q <= b,
        Direction::Left => q == w.y && l <= p <= w.x,
        Direction::Up => p == w.x && t <= q <= w.y,
    }
}

/// The number of cells on the rest of the current arm.
pub open spec fn arm(w: Walk, l: int, r: int, t: int, b: int) -> int {
    match w.dir {
        Direction::Right => r - w.x + 1,
        Direction::Down => b - w.y + 1,
        Direction::Left => w.x - l + 1,
        Direction::Up => w.y - t + 1,
    }
}

/// The shape of an unfinished walk: the visited cells are exactly the cells
/// of the grid outside the current arm and the enclosed rectangle.
pub open spec fn shaped(n: int, w: Walk, l: int, r: int, t: int, b: int) -> bool {
    &&& 0 <= l <= r + 1 <= n
    &&& 0 <= t <= b + 1 <= n
    &&& on_grid(n, w.x, w.y)
    &&& match w.dir {
        Direction::Right => w.y == t - 1 && r - l == b - t + 1 && w.x >= l - 1,
        Direction::Down => w.x == r + 1 && r - l == b - t && w.y >= t - 1,
        Direction::Left => w.y == b + 1 && r - l == b - t + 1 && w.x <= r + 1,
        Direction::Up => w.x == l - 1 && r - l == b - t && w.y <= b + 1,
    }
    &&& arm(w, l, r, t, b) >= 1
    &&& (arm(w, l, r, t, b) >= 2 || b - t + 1 == 0)
    &&& w.cells.len() + arm(w, l, r, t, b) + (r - l + 1) * (b - t + 1) == n * n
    &&& forall|p: int, q: int|
        on_grid(n, p, q) ==> (#[trigger] w.cells.contains((p, q)) <==> !pending(w, l, r, t, b, p, q))
    &&& forall|i: int| 0 <= i < w.cells.len() ==> on_grid(n, (#[trigger] w.cells[i]).0, w.cells[i].1)
}

/// The enclosed rectangle `(l, r, t, b)` of the walk after `k` cells.
pub open spec fn frame(n: int, k: nat) -> (int, int, int, int)
    decreases k,
{
    if k == 0 {
        (0, n - 1, 1, n - 1)
    } else {
        let w = walk(n, (k - 1) as nat);
        let f = frame(n, (k - 1) as nat);
        if walk(n, k).dir == w.dir {
            f
        } else {
            match w.dir {
                Direction::Right => (f.0, f.1 - 1, f.2, f.3),
                Direction::Down => (f.0, f.1, f.2, f.3 - 1),
                Direction::Left => (f.0 + 1, f.1, f.2, f.3),
                Direction::Up => (f.0, f.1, f.2 + 1, f.3),
            }
        }
    }
}

/// The walk has visited `k` cells after `k` steps.
pub proof fn lemma_walk_len(n: int, k: nat)
    ensures
        walk(n, k).cells.len() == k,
    decreases k,
{
    if k > 0 {
        lemma_walk_len(n, (k - 1) as nat);
    }
}

/// While cells remain, the walk has the shape of a spiral arm around a
/// rectangle of unvisited cells. It keeps its heading while at least two
/// cells of the arm lie ahead of the cell that it moves to, and turns
/// otherwise.
pub proof fn lemma_walk_shaped(n: int, k: nat)
    requires
        n >= 1,
        k < n * n,
    ensures
        ({
            let f = frame(n, k);
            shaped(n, walk(n, k), f.0, f.1, f.2, f.3)
        }),
        k >= 1 ==> ({
            let w = walk(n, (k - 1) as nat);
            let f = frame(n, (k - 1) as nat);
            &&& walk(n, k).x == w.x + w.dir.dx()
            &&& walk(n, k).y == w.y + w.dir.dy()
            &&& walk(n, k).dir == if arm(w, f.0, f.1, f.2, f.3) >= 3 {
                w.dir
            } else {
                w.dir.turned()
            }
        }),
    decreases k,
{
    broadcast use vstd::seq_lib::lemma_seq_contains_after_push;

    if k == 0 {
        let w = walk(n, 0);
        assert(w.cells.len() == 0);
        assert(n * (n - 1) == n * n - n) by (nonlinear_arith);
        assert forall|p: int, q: int| on_grid(n, p, q) implies (#[trigger] w.cells.contains((p, q))
            <==> !pending(w, 0, n - 1, 1, n - 1, p, q)) by {
            assert(!w.cells.contains((p, q)));
        }
    } else {
        let k0 = (k - 1) as nat;
        lemma_walk_shaped(n, k0);
        lemma_walk_len(n, k0);
        lemma_walk_len(n, k);
        let w0 = walk(n, k0);
        let (l, r, t, b) = frame(n, k0);
        let w = walk(n, k);
        let g = frame(n, k);
        let ahead_x = w.x + w0.dir.dx();
        let ahead_y = w.y + w0.dir.dy();
        assert(w.cells == w0.cells.push((w0.x, w0.y)));
        assert((r - l) * (b - t + 1) == (r - l + 1) * (b - t + 1) - (b - t + 1))
            by (nonlinear_arith);
        assert((r - l + 1) * (b - t) == (r - l + 1) * (b - t + 1) - (r - l + 1))
            by (nonlinear_arith);
        assert((r - l + 1) * (b - t + 1) >= 1 ==> r - l + 1 >= 1 && b - t + 1 >= 1)
            by (nonlinear_arith)
            requires
                r - l + 1 >= 0,
                b - t + 1 >= 0,
        ;
        assert(arm(w0, l, r, t, b) >= 2);
        assert(on_grid(n, w.x, w.y));
        assert(!w0.cells.contains((w.x, w.y)));
        if on_grid(n, ahead_x, ahead_y) {
            assert(w0.cells.contains((ahead_x, ahead_y)) <==> !pending(
                w0,
                l,
                r,
                t,
                b,
                ahead_x,
                ahead_y,
            ));
        }
        assert(free(n, w.cells, ahead_x, ahead_y) <==> arm(w0, l, r, t, b) >= 3);
        assert forall|p: int, q: int| on_grid(n, p, q) implies (#[trigger] w.cells.contains((p, q))
            <==> !pending(w, g.0, g.1, g.2, g.3, p, q)) by {
            assert(w0.cells.contains((p, q)) <==> !pending(w0, l, r, t, b, p, q));
        }
        assert forall|i: int| 0 <= i < w.cells.len() implies on_grid(
            n,
            (#[trigger] w.cells[i]).0,
            w.cells[i].1,
        ) by {
            if i < w0.cells.len() {
                assert(w.cells[i] == w0.cells[i]);
            }
        }
    }
}

/// The `k`-th cell of the spiral is the cell at which the walk stands after
/// `k` steps.
pub proof fn lemma_walk_prefix(n: int, k: nat, m: nat)
    requires
        k < m,
    ensures
        walk(n, m).cells.len() == m,
        walk(n, m).cells[k as int] == (walk(n, k).x, walk(n, k).y),
        walk(n, k).cells =~= walk(n, m).cells.take(k as int),
    decreases m,
{
    lemma_walk_len(n, m);
    lemma_walk_len(n, k);
    lemma_walk_len(n, (m - 1) as nat);
    if k < m - 1 {
        lemma_walk_prefix(n, k, (m - 1) as nat);
    }
}

/// Every cell of the spiral lies on the grid.
pub proof fn lemma_spiral_on_grid(n: int, k: int)
    requires
        n >= 1,
        0 <= k < n * n,
    ensures
        spiral(n).len() == n * n,
        on_grid(n, spiral(n)[k].0, spiral(n)[k].1),
{
    lemma_walk_prefix(n, k as nat, (n * n) as nat);
    lemma_walk_shaped(n, k as nat);
}

/// The spiral visits no cell twice.
pub proof fn lemma_spiral_distinct(n: int, j: int, k: int)
    requires
        n >= 1,
        0 <= j < k < n * n,
    ensures
        spiral(n)[j] != spiral(n)[k],
{
    let m = (n * n) as nat;
    lemma_walk_prefix(n, k as nat, m);
    lemma_walk_prefix(n, j as nat, m);
    lemma_walk_shaped(n, k as nat);
    let w = walk(n, k as nat);
    let f = frame(n, k as nat);
    assert(pending(w, f.0, f.1, f.2, f.3, w.x, w.y));
    assert(!w.cells.contains((w.x, w.y)));
    assert(w.cells[j] == spiral(n)[j]);
}

/// The goal cell of every label lies on the grid, and the blank's is the
/// top-left corner.
pub proof fn lemma_goal_cell_on_grid(n: int, label: int)
    requires
        n >= 1,
        0 <= label < n * n,
    ensures
        on_grid(n, goal_cell(n, label).0, goal_cell(n, label).1),
        goal_cell(n, 0) == (0int, 0int),
        goal_cell(n, 1) == (0int, 0int),
{
    if label <= 0 {
        lemma_spiral_on_grid(n, 0);
    } else {
        lemma_spiral_on_grid(n, label - 1);
    }
    lemma_walk_prefix(n, 0, (n * n) as nat);
}

/// The goal cells of the labels from 1 to `n` are the top row, from left
/// to right.
pub proof fn lemma_goal_cell_top_row(n: int, label: int)
    requires
        n >= 1,
        1 <= label <= n,
    ensures
        goal_cell(n, label) == (label - 1, 0int),
{
    lemma_spiral_top_row(n, label - 1);
}

/// No two tiles share a goal cell.
pub proof fn lemma_goal_cells_distinct(n: int, a: int, b: int)
    requires
        n >= 1,
        1 <= a < b < n * n,
    ensures
        goal_cell(n, a) != goal_cell(n, b),
{
    lemma_spiral_distinct(n, a - 1, b - 1);
}

/// Each cell of the spiral shares an edge with the next.
pub proof fn lemma_spiral_steps(n: int, k: int)
    requires
        n >= 1,
        0 <= k,
        k + 1 < n * n,
    ensures
        spiral(n)[k + 1] == (
            spiral(n)[k].0 + walk(n, k as nat).dir.dx(),
            spiral(n)[k].1 + walk(n, k as nat).dir.dy(),
        ),
{
    lemma_walk_prefix(n, k as nat, (n * n) as nat);
    lemma_walk_prefix(n, (k + 1) as nat, (n * n) as nat);
}

/// The spiral begins with the top row, from left to right.
pub proof fn lemma_spiral_top_row(n: int, k: int)
    requires
        n >= 1,
        0 <= k < n,
    ensures
        k < n * n,
        spiral(n)[k] == (k, 0int),
        walk(n, k as nat).x == k,
        walk(n, k as nat).y == 0,
        k + 1 < n ==> walk(n, k as nat).dir == Direction::Right,
        forall|i: int| 0 <= i < k ==> #[trigger] walk(n, k as nat).cells[i] == (i, 0int),
    decreases k,
{
    assert(n <= n * n) by (nonlinear_arith)
        requires
            n >= 1,
    ;
    lemma_walk_prefix(n, k as nat, (n * n) as nat);
    lemma_walk_len(n, k as nat);
    if k > 0 {
        lemma_spiral_top_row(n, k - 1);
        let w0 = walk(n, (k - 1) as nat);
        let w = walk(n, k as nat);
        assert(w.cells == w0.cells.push((w0.x, w0.y)));
        assert forall|i: int| 0 <= i < k implies #[trigger] w.cells[i] == (i, 0int) by {
            if i < k - 1 {
                assert(w.cells[i] == w0.cells[i]);
            }
        }
        if k + 1 < n {
            assert(!w.cells.contains((k + 1, 0int))) by {
                if w.cells.contains((k + 1, 0int)) {
                    let i = choose|i: int| 0 <= i < w.cells.len() && w.cells[i] == (k + 1, 0int);
                    assert(w.cells[i] == (i, 0int));
                }
            }
        }
    }
}

/// The spiral visits every cell of the grid.
pub proof fn lemma_spiral_covers(n: int, x: int, y: int)
    requires
        n >= 1,
        on_grid(n, x, y),
    ensures
        exists|k: int| 0 <= k < n * n && spiral(n)[k] == (x, y),
{
    assert(n * n >= 1) by (nonlinear_arith)
        requires
            n >= 1,
    ;
    let last = (n * n - 1) as nat;
    lemma_walk_shaped(n, last);
    lemma_walk_len(n, last);
    lemma_walk_len(n, (n * n) as nat);
    let w = walk(n, last);
    let f = frame(n, last);
    assert(spiral(n) == w.cells.push((w.x, w.y)));
    assert((f.1 - f.0 + 1) * (f.3 - f.2 + 1) >= 0) by (nonlinear_arith)
        requires
            f.1 - f.0 + 1 >= 0,
            f.3 - f.2 + 1 >= 0,
    ;
    if (x, y) == (w.x, w.y) {
        assert(spiral(n)[last as int] == (x, y));
    } else {
        assert(!pending(w, f.0, f.1, f.2, f.3, x, y));
        assert(w.cells.contains((x, y)));
        let k = choose|k: int| 0 <= k < w.cells.len() && w.cells[k] == (x, y);
        assert(spiral(n)[k] == (x, y));
    }
}

} // verus!
