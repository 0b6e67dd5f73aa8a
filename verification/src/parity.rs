//! Inversions, and the parity rule that decides whether a search is started.

use vstd::prelude::*;
use crate::board::{
    adjacent, blank_at, is_arrangement, is_move, labels_distinct, swapped, lemma_blank_unique,
    lemma_cell_of_index, lemma_swap_keeps_arrangement, MAX_SIZE, MIN_SIZE,
};
use crate::heuristics::{
    at_goal, estimate, goal_tiles, is_way, Heuristic, lemma_goal_unique, lemma_zero_at_goal,
};
use crate::spiral::{frame, goal_cell, lemma_walk_prefix, lemma_walk_shaped};

verus! {

/// Whether a tile with label `v` before a tile with label `w` makes an
/// inversion: neither is the blank, and `v` is the larger; as a number, one
/// or zero.
pub open spec fn inverted(v: u8, w: u8) -> int {
    if v != 0 && w != 0 && v > w {
        1
    } else {
        0
    }
}

/// The number of tiles between the indices `from` and `to` that make an
/// inversion with a tile of label `v` before them.
pub open spec fn below(tiles: Seq<u8>, v: u8, from: int, to: int) -> int
    decreases to - from,
{
    if to <= from {
        0
    } else {
        below(tiles, v, from, to - 1) + inverted(v, tiles[to - 1])
    }
}

/// The number of inversions that the tile at `i` makes with the tiles
/// behind it and before the index `j`.
pub open spec fn inversions_of(tiles: Seq<u8>, i: int, j: int) -> int {
    below(tiles, tiles[i], i + 1, j)
}

/// The number of inversions among the pairs whose earlier tile stands at an
/// index below `i`.
pub open spec fn inversions_upto(tiles: Seq<u8>, i: int) -> int
    decreases i,
{
    if i <= 0 {
        0
    } else {
        inversions_upto(tiles, i - 1) + inversions_of(tiles, i - 1, tiles.len() as int)
    }
}

/// The number of inversions of `tiles`: the pairs of tiles other than the
/// blank of which the earlier has the larger label.
pub open spec fn inversions(tiles: Seq<u8>) -> int {
    inversions_upto(tiles, tiles.len() as int)
}

/// The parity rule that decides whether a search is started. On a board of
/// odd size the number of inversions must be odd. On a board of even size
/// the parity of the number of inversions and the parity of the blank's
/// column must differ.
pub open spec fn solvable(tiles: Seq<u8>, n: int) -> bool {
    if n % 2 == 1 {
        inversions(tiles) % 2 == 1
    } else {
        inversions(tiles) % 2 != (blank_at(tiles) % n) % 2
    }
}

/// A tile makes at most as many inversions as there are tiles behind it.
pub proof fn lemma_below_bound(tiles: Seq<u8>, v: u8, from: int, to: int)
    ensures
        0 <= below(tiles, v, from, to),
        below(tiles, v, from, to) <= if to > from {
            to - from
        } else {
            0
        },
    decreases to - from,
{
    if to > from {
        lemma_below_bound(tiles, v, from, to - 1);
    }
}

/// A board of `len` tiles has at most `len * len` inversions.
pub proof fn lemma_inversions_bound(tiles: Seq<u8>, i: int)
    requires
        0 <= i <= tiles.len(),
    ensures
        0 <= inversions_upto(tiles, i) <= i * tiles.len(),
    decreases i,
{
    if i > 0 {
        lemma_inversions_bound(tiles, i - 1);
        lemma_below_bound(tiles, tiles[i - 1], i, tiles.len() as int);
        assert(i * tiles.len() == (i - 1) * tiles.len() + tiles.len()) by (nonlinear_arith);
    }
}

/// Boards that agree between two indices agree on the inversions counted
/// there.
proof fn lemma_below_frame(a: Seq<u8>, b: Seq<u8>, v: u8, from: int, to: int)
    requires
        forall|m: int| from <= m < to ==> a[m] == b[m],
    ensures
        below(a, v, from, to) == below(b, v, from, to),
    decreases to - from,
{
    if to > from {
        lemma_below_frame(a, b, v, from, to - 1);
    }
}

/// The inversions counted between two indices are those counted up to an
/// index between them and those counted from there on.
proof fn lemma_below_split(a: Seq<u8>, v: u8, from: int, mid: int, to: int)
    requires
        from <= mid <= to,
    ensures
        below(a, v, from, to) == below(a, v, from, mid) + below(a, v, mid, to),
    decreases to - mid,
{
    if to > mid {
        lemma_below_split(a, v, from, mid, to - 1);
    }
}

/// Exchanging two neighbours leaves the inversions counted over both what
/// they are.
proof fn lemma_below_exchange(a: Seq<u8>, v: u8, from: int, to: int, p: int)
    requires
        0 <= from <= p,
        p + 2 <= to <= a.len(),
    ensures
        below(swapped(a, p, p + 1), v, from, to) == below(a, v, from, to),
{
    let b = swapped(a, p, p + 1);
    lemma_below_split(a, v, from, p, to);
    lemma_below_split(a, v, p, p + 2, to);
    lemma_below_split(b, v, from, p, to);
    lemma_below_split(b, v, p, p + 2, to);
    lemma_below_frame(a, b, v, from, p);
    lemma_below_frame(a, b, v, p + 2, to);
    assert(below(a, v, p, p + 2) == below(a, v, p, p + 1) + inverted(v, a[p + 1]));
    assert(below(a, v, p, p + 1) == below(a, v, p, p) + inverted(v, a[p]));
    assert(below(b, v, p, p + 2) == below(b, v, p, p + 1) + inverted(v, b[p + 1]));
    assert(below(b, v, p, p + 1) == below(b, v, p, p) + inverted(v, b[p]));
}

/// The inversions of the first `k` tiles before and after two neighbours
/// change places.
proof fn lemma_upto_exchange(a: Seq<u8>, p: int, k: int)
    requires
        0 <= p,
        p + 1 < a.len(),
        0 <= k <= a.len(),
    ensures
        inversions_upto(swapped(a, p, p + 1), k) == inversions_upto(a, k) + if k <= p {
            0
        } else if k == p + 1 {
            inverted(a[p + 1], a[p]) + inversions_of(a, p + 1, a.len() as int) - inversions_of(
                a,
                p,
                a.len() as int,
            )
        } else {
            inverted(a[p + 1], a[p]) - inverted(a[p], a[p + 1])
        },
    decreases k,
{
    let b = swapped(a, p, p + 1);
    let len = a.len() as int;
    if k > 0 {
        lemma_upto_exchange(a, p, k - 1);
        let i = k - 1;
        if i < p {
            lemma_below_exchange(a, a[i], i + 1, len, p);
        } else if i == p {
            lemma_below_split(b, b[p], p + 1, p + 2, len);
            lemma_below_frame(a, b, b[p], p + 2, len);
            assert(below(b, b[p], p + 1, p + 2) == below(b, b[p], p + 1, p + 1) + inverted(
                b[p],
                b[p + 1],
            ));
        } else if i == p + 1 {
            lemma_below_frame(a, b, a[p], p + 2, len);
            lemma_below_split(a, a[p], p + 1, p + 2, len);
            assert(below(a, a[p], p + 1, p + 2) == below(a, a[p], p + 1, p + 1) + inverted(
                a[p],
                a[p + 1],
            ));
        } else {
            lemma_below_frame(a, b, a[i], i + 1, len);
        }
    }
}

/// Two neighbours that change places change the number of inversions by one
/// if neither is the blank, and not at all if one is.
pub proof fn lemma_neighbours_exchanged(a: Seq<u8>, p: int)
    requires
        0 <= p,
        p + 1 < a.len(),
    ensures
        inversions(swapped(a, p, p + 1)) == inversions(a) + inverted(a[p + 1], a[p]) - inverted(
            a[p],
            a[p + 1],
        ),
{
    lemma_upto_exchange(a, p, a.len() as int);
}

/// The blank and a tile that change places across `q - p - 1` tiles change
/// the parity of the number of inversions as often as there are tiles
/// between them.
pub proof fn lemma_blank_exchanged(a: Seq<u8>, p: int, q: int)
    requires
        labels_distinct(a),
        0 <= p < q < a.len(),
        a[p] == 0 || a[q] == 0,
    ensures
        (inversions(swapped(a, p, q)) - inversions(a)) % 2 == (q - p - 1) % 2,
    decreases q - p,
{
    if q == p + 1 {
        lemma_neighbours_exchanged(a, p);
    } else {
        let first = swapped(a, p, p + 1);
        let second = swapped(first, p + 1, q);
        let third = swapped(second, p, p + 1);
        assert(third =~= swapped(a, p, q));
        lemma_swap_keeps_arrangement(a, p, p + 1);
        lemma_swap_keeps_arrangement(first, p + 1, q);
        lemma_neighbours_exchanged(a, p);
        lemma_blank_exchanged(first, p + 1, q);
        lemma_neighbours_exchanged(second, p);
        assert(a[p] != a[p + 1]);
        assert(a[p] != a[q]);
        assert(a[p + 1] != a[q]);
    }
}

/// One move keeps what the parity rule says of a board of odd size.
pub proof fn lemma_rule_kept_by_move(n: int, a: Seq<u8>, b: Seq<u8>)
    requires
        n >= 1,
        n % 2 == 1,
        is_arrangement(a, n),
        is_move(n, a, b),
    ensures
        solvable(b, n) == solvable(a, n),
{
    let (i, j) = choose|i: int, j: int| adjacent(n, i, j) && a[i] == 0 && b == swapped(a, i, j);
    lemma_cell_of_index(n, i);
    lemma_cell_of_index(n, j);
    assert(j - i == 1 || i - j == 1 || j - i == n || i - j == n) by (nonlinear_arith)
        requires
            adjacent(n, i, j),
            (i / n) * n + i % n == i,
            (j / n) * n + j % n == j,
    ;
    if i < j {
        lemma_blank_exchanged(a, i, j);
    } else {
        assert(swapped(a, i, j) =~= swapped(a, j, i));
        lemma_blank_exchanged(a, j, i);
    }
}

/// A way keeps what the parity rule says of a board of odd size, from its
/// first board to its last.
pub proof fn lemma_rule_kept_by_way(n: int, path: Seq<Seq<u8>>)
    requires
        n >= 1,
        n % 2 == 1,
        is_way(path, n),
        is_arrangement(path[0], n),
    ensures
        is_arrangement(path.last(), n),
        solvable(path.last(), n) == solvable(path[0], n),
    decreases path.len(),
{
    if path.len() > 1 {
        let rest = path.subrange(1, path.len() as int);
        assert(is_move(n, path[0], path[0int + 1]));
        let (i, j) = choose|i: int, j: int|
            adjacent(n, i, j) && path[0][i] == 0 && path[1] == swapped(path[0], i, j);
        lemma_swap_keeps_arrangement(path[0], i, j);
        lemma_rule_kept_by_move(n, path[0], path[1]);
        assert(is_way(rest, n)) by {
            assert forall|s: int| 0 <= s < rest.len() implies (#[trigger] rest[s]).len() == n * n by {
                assert(rest[s] == path[s + 1]);
            }
            assert forall|s: int| 0 <= s < rest.len() - 1 implies is_move(
                n,
                #[trigger] rest[s],
                rest[s + 1],
            ) by {
                assert(rest[s] == path[s + 1]);
                assert(is_move(n, path[s + 1], path[s + 1 + 1]));
            }
        }
        assert(rest[0] == path[1]);
        assert(rest.last() == path.last());
        lemma_rule_kept_by_way(n, rest);
    }
}

/// On an odd size whose goal arrangement the parity rule admits, the rule
/// admits every board from which a way leads to a board with estimate zero:
/// a board that the rule excludes cannot be solved.
pub proof fn lemma_rule_necessary(kind: Heuristic, n: int, path: Seq<Seq<u8>>)
    requires
        MIN_SIZE <= n <= MAX_SIZE,
        n % 2 == 1,
        solvable(goal_tiles(n), n),
        is_way(path, n),
        is_arrangement(path[0], n),
        estimate(kind, path.last(), n) == 0,
    ensures
        solvable(path[0], n),
{
    lemma_rule_kept_by_way(n, path);
    lemma_zero_at_goal(kind, path.last(), n);
    lemma_goal_unique(path.last(), n);
}

/// The goal arrangement of size three, which has seven inversions.
pub open spec fn goal_of_three() -> Seq<u8> {
    seq![1u8, 2u8, 3u8, 8u8, 0u8, 4u8, 7u8, 6u8, 5u8]
}

/// The parity rule admits the goal arrangement of size three.
pub proof fn lemma_goal_of_three()
    ensures
        goal_tiles(3) == goal_of_three(),
        solvable(goal_tiles(3), 3),
{
    let goal = goal_of_three();
    lemma_walk_shaped(3, 0);
    lemma_walk_shaped(3, 1);
    lemma_walk_shaped(3, 2);
    lemma_walk_shaped(3, 3);
    lemma_walk_shaped(3, 4);
    lemma_walk_shaped(3, 5);
    lemma_walk_shaped(3, 6);
    lemma_walk_shaped(3, 7);
    lemma_walk_prefix(3, 0, 9);
    lemma_walk_prefix(3, 1, 9);
    lemma_walk_prefix(3, 2, 9);
    lemma_walk_prefix(3, 3, 9);
    lemma_walk_prefix(3, 4, 9);
    lemma_walk_prefix(3, 5, 9);
    lemma_walk_prefix(3, 6, 9);
    lemma_walk_prefix(3, 7, 9);
    assert(goal_cell(3, 1) == (0int, 0int) && goal_cell(3, 2) == (1int, 0int) && goal_cell(3, 3) == (
        2int,
        0int,
    ) && goal_cell(3, 4) == (2int, 1int) && goal_cell(3, 5) == (2int, 2int) && goal_cell(3, 6) == (
        1int,
        2int,
    ) && goal_cell(3, 7) == (0int, 2int) && goal_cell(3, 8) == (0int, 1int)) by {
        reveal_with_fuel(frame, 9);
    }
    assert(at_goal(goal, 3));
    assert(is_arrangement(goal, 3));
    lemma_goal_unique(goal, 3);
    assert(inversions(goal) == 7) by {
        assert(goal.len() == 9);
        lemma_row_of_three(goal, 0, 0);
        lemma_row_of_three(goal, 1, 0);
        lemma_row_of_three(goal, 2, 0);
        lemma_row_of_three(goal, 3, 4);
        lemma_row_of_three(goal, 4, 0);
        lemma_row_of_three(goal, 5, 0);
        lemma_row_of_three(goal, 6, 2);
        lemma_row_of_three(goal, 7, 1);
        lemma_row_of_three(goal, 8, 0);
        reveal_with_fuel(inversions_upto, 10);
    }
}

/// The inversions of the tile at `i` of a board of nine tiles are as many as
/// the tiles behind it that make one with it.
proof fn lemma_row_of_three(tiles: Seq<u8>, i: int, count: int)
    requires
        tiles.len() == 9,
        0 <= i < 9,
        count == (if i < 1 { inverted(tiles[i], tiles[1]) } else { 0 }) + (if i < 2 { inverted(tiles[i], tiles[2]) } else { 0 })
            + (if i < 3 { inverted(tiles[i], tiles[3]) } else { 0 }) + (if i < 4 { inverted(tiles[i], tiles[4]) } else { 0 })
            + (if i < 5 { inverted(tiles[i], tiles[5]) } else { 0 }) + (if i < 6 { inverted(tiles[i], tiles[6]) } else { 0 })
            + (if i < 7 { inverted(tiles[i], tiles[7]) } else { 0 }) + (if i < 8 { inverted(tiles[i], tiles[8]) } else { 0 }),
    ensures
        inversions_of(tiles, i, 9) == count,
{
    reveal_with_fuel(below, 10);
}

/// On size three a board that the parity rule excludes cannot be solved: the
/// rule admits every board from which a way leads to a board with estimate
/// zero.
pub proof fn lemma_rule_necessary_on_three(kind: Heuristic, path: Seq<Seq<u8>>)
    requires
        is_way(path, 3),
        is_arrangement(path[0], 3),
        estimate(kind, path.last(), 3) == 0,
    ensures
        solvable(path[0], 3),
{
    lemma_goal_of_three();
    lemma_rule_necessary(kind, 3, path);
}

/// One move reverses what the parity rule says of a board of even size.
pub proof fn lemma_rule_reversed_by_move(n: int, a: Seq<u8>, b: Seq<u8>)
    requires
        n >= 2,
        n % 2 == 0,
        is_arrangement(a, n),
        is_move(n, a, b),
    ensures
        solvable(b, n) != solvable(a, n),
{
    let (i, j) = choose|i: int, j: int| adjacent(n, i, j) && a[i] == 0 && b == swapped(a, i, j);
    lemma_cell_of_index(n, i);
    lemma_cell_of_index(n, j);
    assert(j - i == 1 || i - j == 1 || j - i == n || i - j == n) by (nonlinear_arith)
        requires
            adjacent(n, i, j),
            (i / n) * n + i % n == i,
            (j / n) * n + j % n == j,
    ;
    assert(i / n == j / n ==> j - i == j % n - i % n) by (nonlinear_arith)
        requires
            (i / n) * n + i % n == i,
            (j / n) * n + j % n == j,
    ;
    assert(i % n == j % n ==> j - i == (j / n - i / n) * n) by (nonlinear_arith)
        requires
            (i / n) * n + i % n == i,
            (j / n) * n + j % n == j,
    ;
    lemma_swap_keeps_arrangement(a, i, j);
    lemma_blank_unique(a, i);
    assert(b[j] == 0);
    lemma_blank_unique(b, j);
    if i < j {
        lemma_blank_exchanged(a, i, j);
    } else {
        assert(swapped(a, i, j) =~= swapped(a, j, i));
        lemma_blank_exchanged(a, j, i);
    }
    let change = inversions(b) - inversions(a);
    if i / n == j / n {
        assert(change % 2 == 0);
        assert((j % n) % 2 != (i % n) % 2);
    } else {
        assert(i % n == j % n);
        let rows = j / n - i / n;
        assert(rows == 1 || rows == -1);
        assert(rows * n == n || rows * n == -n) by (nonlinear_arith)
            requires
                rows == 1 || rows == -1,
        ;
        assert(j - i == n || i - j == n);
        assert(change % 2 == (n - 1) % 2);
        assert(change % 2 == 1);
    }
}

} // verus!
