//! Why a search with an admissible estimate finds a shortest way, and why a
//! search is exhausted only where no way exists.
//!
//! As long as a search was not solved, a node stands for every successor of
//! every board that was expanded, in the closed set or live in the frontier,
//! at no more than the cost of the successor when it is reached over the
//! expanded node. So on every way from the start to a board with estimate
//! zero some board has a live node, at a cost of no more than the moves up
//! to it and the estimate from there on. With an admissible estimate that is
//! no more than the length of the way, and the node that the search takes
//! from the frontier costs no more than that one.

use vstd::prelude::*;
use crate::board::{
    adjacent, blank_at, is_arrangement, is_move, moved, neighbour, successors, swapped,
    lemma_blank_exists, lemma_blank_unique, lemma_cell_of_index, lemma_neighbour_adjacent,
    lemma_successor_is_move, lemma_swap_keeps_arrangement,
};
use crate::heuristics::{admissible, is_way, Estimator};
use crate::position::{Direction, on_grid};
use crate::queue::precedes;
use crate::search::{
    child, SearchView, Status, lemma_close, lemma_holder_unique, lemma_least_exists,
    lemma_move_differs, lemma_offer, lemma_offer_all, lemma_step_sound, lemma_successors_exist,
    lemma_take_first, NODE_LIMIT,
};

verus! {

/// Whether `path` is a way from the board `start` to a board for which the
/// estimate of `heuristic` is zero.
pub open spec fn is_solution<H: Estimator>(path: Seq<Seq<u8>>, start: Seq<u8>, n: int, heuristic: H) -> bool {
    &&& is_way(path, n)
    &&& path[0] == start
    &&& heuristic.value(path.last(), n) == 0
}

/// A live node stands for its board.
proof fn lemma_live_held<H: Estimator>(s: SearchView, heuristic: H, id: usize)
    requires
        s.shape(heuristic),
        s.open.contains(id),
    ensures
        s.held(s.nodes[id as int].tiles) == Some(id),
{
    lemma_holder_unique(s, heuristic, id);
}

/// Taking the first live node from the frontier drops no board but its own.
pub proof fn lemma_take_keeps<H: Estimator>(s: SearchView, heuristic: H, cur: usize)
    requires
        s.inv(heuristic),
        s.complete(heuristic),
        s.is_first(cur),
    ensures
        s.without(cur).completing(cur, heuristic),
{
    let t = s.without(cur);
    lemma_take_first(s, heuristic, cur);
    lemma_live_held(s, heuristic, cur);
    assert forall|x: usize| #[trigger] t.expanded.contains(x) implies t.spread(
        x,
        Some(cur),
        heuristic,
    ) by {
        assert(s.expanded.contains(x));
        assert(s.spread(x, None, heuristic));
        let next = successors(s.nodes[x as int].tiles, s.n);
        assert forall|k: int| 0 <= k < next.len() implies {
            let b = #[trigger] next[k];
            if b == t.nodes[cur as int].tiles {
                t.nodes[cur as int].f <= t.way(x, b, heuristic)
            } else {
                t.within(b, t.way(x, b, heuristic))
            }
        } by {
            let b = next[k];
            assert(s.within(b, s.way(x, b, heuristic)));
            if b != s.nodes[cur as int].tiles && !s.closed.contains_key(b) {
                let o = s.holder(b);
                assert(s.open.contains(o) && s.nodes[o as int].tiles == b);
                assert(t.open.contains(o));
                lemma_live_held(t, heuristic, o);
            }
        }
    }
    if !s.expanded.contains(0) {
        assert(s.open.contains(cur));
    }
}

/// Offering a child leaves a node standing for every board that had one, at
/// no higher cost.
pub proof fn lemma_offer_keeps_within<H: Estimator>(
    s: SearchView,
    heuristic: H,
    cur: usize,
    tiles: Seq<u8>,
    b: Seq<u8>,
    bound: int,
)
    requires
        s.expanding(cur, heuristic),
        s.nodes.len() <= NODE_LIMIT + 4,
        is_arrangement(tiles, s.n),
        is_move(s.n, s.nodes[cur as int].tiles, tiles),
        s.within(b, bound),
    ensures
        s.offer(child(heuristic, s.n, s.nodes[cur as int], cur, tiles)).within(b, bound),
{
    heuristic.lemma_in_range(tiles, s.n);
    lemma_offer(s, heuristic, cur, tiles);
    let c = child(heuristic, s.n, s.nodes[cur as int], cur, tiles);
    let t = s.offer(c);
    let id = s.nodes.len() as usize;
    let r = s.held(b).unwrap();
    if s.closed.contains_key(b) {
        if b == tiles && c.f < s.nodes[r as int].f {
            assert(t.open.contains(id));
            lemma_live_held(t, heuristic, id);
        }
    } else {
        assert(s.open.contains(r) && s.nodes[r as int].tiles == b);
        if b == tiles {
            lemma_holder_unique(s, heuristic, r);
            if c.f < s.nodes[r as int].f {
                assert(t.open.contains(id));
                lemma_live_held(t, heuristic, id);
            } else {
                assert(t.open.contains(r));
                lemma_live_held(t, heuristic, r);
            }
        } else {
            if s.holds(tiles) {
                let o = s.holder(tiles);
                assert(s.nodes[o as int].tiles == tiles);
            }
            assert(t.open.contains(r));
            lemma_live_held(t, heuristic, r);
        }
    }
}

/// After a child was offered, a node stands for its board at no more than
/// the child's cost.
pub proof fn lemma_offer_within<H: Estimator>(s: SearchView, heuristic: H, cur: usize, tiles: Seq<u8>)
    requires
        s.expanding(cur, heuristic),
        s.nodes.len() <= NODE_LIMIT + 4,
        is_arrangement(tiles, s.n),
        is_move(s.n, s.nodes[cur as int].tiles, tiles),
    ensures
        s.offer(child(heuristic, s.n, s.nodes[cur as int], cur, tiles)).within(
            tiles,
            s.way(cur, tiles, heuristic),
        ),
{
    heuristic.lemma_in_range(tiles, s.n);
    lemma_offer(s, heuristic, cur, tiles);
    let c = child(heuristic, s.n, s.nodes[cur as int], cur, tiles);
    let t = s.offer(c);
    let id = s.nodes.len() as usize;
    assert(s.node_ok(cur as int, heuristic));
    assert(c.f == s.way(cur, tiles, heuristic));
    if s.closed.contains_key(tiles) {
        if c.f < s.nodes[s.closed[tiles] as int].f {
            assert(t.open.contains(id));
            lemma_live_held(t, heuristic, id);
        }
    } else if s.holds(tiles) {
        let o = s.holder(tiles);
        assert(s.open.contains(o) && s.nodes[o as int].tiles == tiles);
        if c.f < s.nodes[o as int].f {
            assert(t.open.contains(id));
            lemma_live_held(t, heuristic, id);
        } else {
            assert(t.open.contains(o));
            lemma_live_held(t, heuristic, o);
        }
    } else {
        assert(t.open.contains(id));
        lemma_live_held(t, heuristic, id);
    }
}

/// Offering a child of the node under expansion drops no board.
pub proof fn lemma_offer_keeps<H: Estimator>(s: SearchView, heuristic: H, cur: usize, tiles: Seq<u8>)
    requires
        s.expanding(cur, heuristic),
        s.completing(cur, heuristic),
        s.nodes.len() <= NODE_LIMIT + 4,
        is_arrangement(tiles, s.n),
        is_move(s.n, s.nodes[cur as int].tiles, tiles),
    ensures
        s.offer(child(heuristic, s.n, s.nodes[cur as int], cur, tiles)).completing(cur, heuristic),
{
    heuristic.lemma_in_range(tiles, s.n);
    lemma_offer(s, heuristic, cur, tiles);
    let c = child(heuristic, s.n, s.nodes[cur as int], cur, tiles);
    let t = s.offer(c);
    assert forall|x: usize| #[trigger] t.expanded.contains(x) implies t.spread(
        x,
        Some(cur),
        heuristic,
    ) by {
        assert(s.expanded.contains(x));
        assert(s.spread(x, Some(cur), heuristic));
        assert(t.nodes[x as int] == s.nodes[x as int]);
        let next = successors(s.nodes[x as int].tiles, s.n);
        assert forall|k: int| 0 <= k < next.len() implies {
            let b = #[trigger] next[k];
            if b == t.nodes[cur as int].tiles {
                t.nodes[cur as int].f <= t.way(x, b, heuristic)
            } else {
                t.within(b, t.way(x, b, heuristic))
            }
        } by {
            let b = next[k];
            if b != s.nodes[cur as int].tiles {
                assert(s.within(b, s.way(x, b, heuristic)));
                lemma_offer_keeps_within(s, heuristic, cur, tiles, b, s.way(x, b, heuristic));
            }
        }
    }
    assert forall|b: Seq<u8>| #[trigger] t.closed.contains_key(b) implies t.expanded.contains(
        t.closed[b],
    ) by {
        assert(s.closed.contains_key(b));
    }
}

/// Offering the first `k` children of the node under expansion drops no
/// board, and a node stands for the board of each of them at no more than
/// its cost over the node under expansion.
pub proof fn lemma_offer_all_keeps<H: Estimator>(s: SearchView, heuristic: H, cur: usize, k: int)
    requires
        s.expanding(cur, heuristic),
        s.completing(cur, heuristic),
        s.nodes.len() <= NODE_LIMIT,
        0 <= k <= s.children(cur, heuristic).len() <= 4,
    ensures
        s.offer_all(s.children(cur, heuristic).take(k)).completing(cur, heuristic),
        forall|j: int|
            0 <= j < k ==> s.offer_all(s.children(cur, heuristic).take(k)).within(
                #[trigger] successors(s.nodes[cur as int].tiles, s.n)[j],
                s.way(cur, successors(s.nodes[cur as int].tiles, s.n)[j], heuristic),
            ),
    decreases k,
{
    let kids = s.children(cur, heuristic);
    let next = successors(s.nodes[cur as int].tiles, s.n);
    if k > 0 {
        lemma_offer_all_keeps(s, heuristic, cur, k - 1);
        lemma_offer_all(s, heuristic, cur, k - 1);
        let before = s.offer_all(kids.take(k - 1));
        let after = s.offer_all(kids.take(k));
        assert(kids.take(k).drop_last() =~= kids.take(k - 1));
        assert(kids.take(k).last() == kids[k - 1]);
        assert(s.node_ok(cur as int, heuristic));
        let tiles = next[k - 1];
        lemma_successor_is_move(s.nodes[cur as int].tiles, s.n, k - 1);
        assert(kids[k - 1] == child(heuristic, s.n, s.nodes[cur as int], cur, tiles));
        assert(before.nodes[cur as int] == s.nodes[cur as int]);
        lemma_offer_keeps(before, heuristic, cur, tiles);
        lemma_offer_within(before, heuristic, cur, tiles);
        assert forall|j: int| 0 <= j < k implies after.within(
            #[trigger] next[j],
            s.way(cur, next[j], heuristic),
        ) by {
            if j < k - 1 {
                lemma_offer_keeps_within(
                    before,
                    heuristic,
                    cur,
                    tiles,
                    next[j],
                    s.way(cur, next[j], heuristic),
                );
            }
        }
    }
}

/// Closing the expanded node, for whose successors nodes stand, leaves no
/// board dropped.
pub proof fn lemma_close_keeps<H: Estimator>(s: SearchView, heuristic: H, cur: usize, peak: nat)
    requires
        s.expanding(cur, heuristic),
        s.completing(cur, heuristic),
        heuristic.value(s.nodes[cur as int].tiles, s.n) != 0,
        s.spread(cur, None, heuristic),
        s.evaluated + 1 < s.nodes.len(),
    ensures
        (SearchView {
            peak,
            closed: s.closed.insert(s.nodes[cur as int].tiles, cur),
            expanded: s.expanded.insert(cur),
            evaluated: s.evaluated + 1,
            ..s
        }).complete(heuristic),
{
    let mine = s.nodes[cur as int].tiles;
    let t = SearchView {
        peak,
        closed: s.closed.insert(mine, cur),
        expanded: s.expanded.insert(cur),
        evaluated: s.evaluated + 1,
        ..s
    };
    lemma_close(s, heuristic, cur, peak);
    assert forall|x: usize| #[trigger] t.expanded.contains(x) implies t.spread(x, None, heuristic) by {
        let next = successors(s.nodes[x as int].tiles, s.n);
        assert forall|k: int| 0 <= k < next.len() implies t.within(
            #[trigger] next[k],
            t.way(x, next[k], heuristic),
        ) by {
            let b = next[k];
            if x == cur {
                assert(s.within(b, s.way(x, b, heuristic)));
            } else {
                assert(s.expanded.contains(x));
                assert(s.spread(x, Some(cur), heuristic));
            }
            if b != mine {
                assert(s.within(b, s.way(x, b, heuristic)));
                if !s.closed.contains_key(b) {
                    let o = s.holder(b);
                    assert(s.open.contains(o) && s.nodes[o as int].tiles == b);
                    assert(t.open.contains(o));
                    lemma_live_held(t, heuristic, o);
                }
            }
        }
    }
    assert forall|b: Seq<u8>| #[trigger] t.closed.contains_key(b) implies t.expanded.contains(
        t.closed[b],
    ) by {
        if b != mine {
            assert(s.closed.contains_key(b));
        }
    }
}

/// Offering a child changes nothing for the boards other than the child's:
/// the same node closes them, or stands for them in the frontier, or none.
pub proof fn lemma_offer_elsewhere<H: Estimator>(
    s: SearchView,
    heuristic: H,
    cur: usize,
    tiles: Seq<u8>,
    b: Seq<u8>,
)
    requires
        s.expanding(cur, heuristic),
        s.nodes.len() <= NODE_LIMIT + 4,
        is_arrangement(tiles, s.n),
        is_move(s.n, s.nodes[cur as int].tiles, tiles),
        b != tiles,
    ensures
        ({
            let t = s.offer(child(heuristic, s.n, s.nodes[cur as int], cur, tiles));
            &&& t.closed.contains_key(b) == s.closed.contains_key(b)
            &&& t.closed.contains_key(b) ==> t.closed[b] == s.closed[b]
            &&& t.held(b) == s.held(b)
        }),
{
    heuristic.lemma_in_range(tiles, s.n);
    lemma_offer(s, heuristic, cur, tiles);
    let c = child(heuristic, s.n, s.nodes[cur as int], cur, tiles);
    let t = s.offer(c);
    let id = s.nodes.len() as usize;
    if s.holds(tiles) {
        let o = s.holder(tiles);
        assert(s.nodes[o as int].tiles == tiles);
    }
    if !s.closed.contains_key(b) {
        if s.holds(b) {
            let r = s.holder(b);
            assert(s.open.contains(r) && s.nodes[r as int].tiles == b);
            assert(t.open.contains(r));
            lemma_live_held(t, heuristic, r);
        } else if t.holds(b) {
            let r = t.holder(b);
            assert(t.open.contains(r) && t.nodes[r as int].tiles == b);
            assert(r != id);
            assert(s.open.contains(r) && s.nodes[r as int].tiles == b);
        }
    }
}

/// The successors of a board are boards that differ from each other.
pub proof fn lemma_successors_differ(tiles: Seq<u8>, n: int, i: int, j: int)
    requires
        n >= 2,
        is_arrangement(tiles, n),
        0 <= i < j < successors(tiles, n).len(),
    ensures
        successors(tiles, n)[i] != successors(tiles, n)[j],
{
    assert(n * n >= 1) by (nonlinear_arith)
        requires
            n >= 1,
    ;
    lemma_blank_exists(tiles);
    let b = blank_at(tiles);
    let right = moved(tiles, n, Direction::Right).len() as int;
    let down = moved(tiles, n, Direction::Down).len() as int;
    let left = moved(tiles, n, Direction::Left).len() as int;
    let di = if i < right {
        Direction::Right
    } else if i < right + down {
        Direction::Down
    } else if i < right + down + left {
        Direction::Left
    } else {
        Direction::Up
    };
    let dj = if j < right {
        Direction::Right
    } else if j < right + down {
        Direction::Down
    } else if j < right + down + left {
        Direction::Left
    } else {
        Direction::Up
    };
    let first = successors(tiles, n)[i];
    let second = successors(tiles, n)[j];
    assert(neighbour(n, b, di).is_some() && first == swapped(tiles, b, neighbour(n, b, di).unwrap()));
    assert(neighbour(n, b, dj).is_some() && second == swapped(tiles, b, neighbour(n, b, dj).unwrap()));
    assert(di != dj);
    let ti = neighbour(n, b, di).unwrap();
    let tj = neighbour(n, b, dj).unwrap();
    lemma_neighbour_adjacent(n, b, di);
    lemma_neighbour_adjacent(n, b, dj);
    assert(di.dy() * n == if di == Direction::Down {
        n
    } else if di == Direction::Up {
        -n
    } else {
        0
    }) by (nonlinear_arith)
        requires
            di.dy() == 1 || di.dy() == -1 || di.dy() == 0,
            di.dy() == 1 <==> di == Direction::Down,
            di.dy() == -1 <==> di == Direction::Up,
    ;
    assert(dj.dy() * n == if dj == Direction::Down {
        n
    } else if dj == Direction::Up {
        -n
    } else {
        0
    }) by (nonlinear_arith)
        requires
            dj.dy() == 1 || dj.dy() == -1 || dj.dy() == 0,
            dj.dy() == 1 <==> dj == Direction::Down,
            dj.dy() == -1 <==> dj == Direction::Up,
    ;
    assert(ti != tj);
    assert(ti != b);
    assert(first[ti] == 0);
    assert(second[ti] == tiles[ti]);
    if b < ti {
        assert(tiles[b] != tiles[ti]);
    } else {
        assert(tiles[ti] != tiles[b]);
    }
}

/// Offering the first `k` children of the node under expansion changes
/// nothing for a board that is not among theirs.
pub proof fn lemma_offers_elsewhere<H: Estimator>(s: SearchView, heuristic: H, cur: usize, k: int, b: Seq<u8>)
    requires
        s.expanding(cur, heuristic),
        s.nodes.len() <= NODE_LIMIT,
        0 <= k <= s.children(cur, heuristic).len() <= 4,
        forall|i: int| 0 <= i < k ==> #[trigger] successors(s.nodes[cur as int].tiles, s.n)[i] != b,
    ensures
        ({
            let t = s.offer_all(s.children(cur, heuristic).take(k));
            &&& t.closed.contains_key(b) == s.closed.contains_key(b)
            &&& t.closed.contains_key(b) ==> t.closed[b] == s.closed[b]
            &&& t.held(b) == s.held(b)
        }),
    decreases k,
{
    let kids = s.children(cur, heuristic);
    let next = successors(s.nodes[cur as int].tiles, s.n);
    if k > 0 {
        lemma_offers_elsewhere(s, heuristic, cur, k - 1, b);
        lemma_offer_all(s, heuristic, cur, k - 1);
        let before = s.offer_all(kids.take(k - 1));
        assert(kids.take(k).drop_last() =~= kids.take(k - 1));
        assert(kids.take(k).last() == kids[k - 1]);
        assert(s.node_ok(cur as int, heuristic));
        let tiles = next[k - 1];
        lemma_successor_is_move(s.nodes[cur as int].tiles, s.n, k - 1);
        assert(kids[k - 1] == child(heuristic, s.n, s.nodes[cur as int], cur, tiles));
        assert(before.nodes[cur as int] == s.nodes[cur as int]);
        lemma_offer_elsewhere(before, heuristic, cur, tiles, b);
    }
}

/// An expansion reopens a closed board that it reaches by fewer moves.
///
/// Where a step expands the first live node, and a successor of its board
/// is closed by a node that lies more moves from the start than the
/// successor does over the expanded node, the board is no longer closed
/// after the step, and the node generated for it is its live node in the
/// frontier.
pub proof fn lemma_step_reopens<H: Estimator>(s: SearchView, heuristic: H, j: int)
    requires
        s.inv(heuristic),
        s.step(heuristic).1 == Status::Running,
        s.open.len() > 0,
        0 <= j < successors(s.nodes[s.first() as int].tiles, s.n).len(),
        s.closed.contains_key(successors(s.nodes[s.first() as int].tiles, s.n)[j]),
        s.nodes[s.first() as int].g + 1 < s.nodes[s.closed[successors(
            s.nodes[s.first() as int].tiles,
            s.n,
        )[j]] as int].g,
    ensures
        ({
            let after = s.step(heuristic).0;
            let b = successors(s.nodes[s.first() as int].tiles, s.n)[j];
            let id = (s.nodes.len() + j) as usize;
            &&& !after.closed.contains_key(b)
            &&& after.open.contains(id)
            &&& after.held(b) == Some(id)
            &&& after.nodes[id as int].tiles == b
            &&& after.nodes[id as int].g == s.nodes[s.first() as int].g + 1
        }),
{
    let cur = s.first();
    lemma_least_exists(s, s.open);
    let m = choose|id: usize|
        s.open.contains(id) && forall|j: usize| #[trigger]
            s.open.contains(j) ==> precedes(s.nodes[id as int].f, id, s.nodes[j as int].f, j);
    assert(s.is_first(m));
    assert(s.is_first(cur));
    lemma_take_first(s, heuristic, cur);
    let mid = s.without(cur);
    let kids = mid.children(cur, heuristic);
    let next = successors(s.nodes[cur as int].tiles, s.n);
    let b = next[j];
    let id = (s.nodes.len() + j) as usize;
    let old = s.closed[b];
    assert(s.node_ok(cur as int, heuristic));
    assert(s.node_ok(old as int, heuristic));
    lemma_successors_exist(s.nodes[cur as int].tiles, s.n);
    lemma_successor_is_move(s.nodes[cur as int].tiles, s.n, j);
    lemma_move_differs(s.n, s.nodes[cur as int].tiles, b);
    assert forall|i: int| 0 <= i < j implies #[trigger] next[i] != b by {
        lemma_successors_differ(s.nodes[cur as int].tiles, s.n, i, j);
    }
    lemma_offers_elsewhere(mid, heuristic, cur, j, b);
    lemma_offer_all(mid, heuristic, cur, j);
    let before = mid.offer_all(kids.take(j));
    lemma_offer_all(mid, heuristic, cur, j + 1);
    assert(kids.take(j + 1).drop_last() =~= kids.take(j));
    assert(kids.take(j + 1).last() == kids[j]);
    assert(kids[j] == child(heuristic, s.n, s.nodes[cur as int], cur, b));
    assert(before.nodes[cur as int] == s.nodes[cur as int]);
    assert(before.nodes[old as int] == s.nodes[old as int]);
    heuristic.lemma_in_range(b, s.n);
    lemma_offer(before, heuristic, cur, b);
    let reopened = before.offer(kids[j]);
    assert(reopened.open.contains(id));
    lemma_live_held(reopened, heuristic, id);
    lemma_rest_elsewhere(mid, heuristic, cur, j, kids.len() as int);
    assert(kids.take(kids.len() as int) =~= kids);
    let offered = mid.offer_all(kids);
    lemma_offer_all(mid, heuristic, cur, kids.len() as int);
    let after = s.step(heuristic).0;
    assert(after.open == offered.open);
    assert(offered.open.contains(id)) by {
        assert(offered.held(b) == Some(id));
        if offered.holds(b) {
            let r = offered.holder(b);
            assert(offered.open.contains(r));
        }
    }
    lemma_step_sound(s, heuristic);
    lemma_live_held(after, heuristic, id);
}

/// The children that are offered after the child `j` leave the board of the
/// child `j` to the node that stood for it: none closes it, and the same
/// node is live for it.
proof fn lemma_rest_elsewhere<H: Estimator>(s: SearchView, heuristic: H, cur: usize, j: int, k: int)
    requires
        s.expanding(cur, heuristic),
        s.nodes.len() <= NODE_LIMIT,
        0 <= j < k <= s.children(cur, heuristic).len() <= 4,
    ensures
        ({
            let b = successors(s.nodes[cur as int].tiles, s.n)[j];
            let first = s.offer_all(s.children(cur, heuristic).take(j + 1));
            let t = s.offer_all(s.children(cur, heuristic).take(k));
            &&& t.closed.contains_key(b) == first.closed.contains_key(b)
            &&& t.held(b) == first.held(b)
            &&& forall|i: int| 0 <= i < first.nodes.len() ==> t.nodes[i] == first.nodes[i]
        }),
    decreases k,
{
    let kids = s.children(cur, heuristic);
    let next = successors(s.nodes[cur as int].tiles, s.n);
    if k > j + 1 {
        lemma_rest_elsewhere(s, heuristic, cur, j, k - 1);
        lemma_offer_all(s, heuristic, cur, k - 1);
        lemma_offer_all(s, heuristic, cur, j + 1);
        let before = s.offer_all(kids.take(k - 1));
        assert(kids.take(k).drop_last() =~= kids.take(k - 1));
        assert(kids.take(k).last() == kids[k - 1]);
        assert(s.node_ok(cur as int, heuristic));
        let tiles = next[k - 1];
        lemma_successor_is_move(s.nodes[cur as int].tiles, s.n, k - 1);
        lemma_successors_differ(s.nodes[cur as int].tiles, s.n, j, k - 1);
        assert(kids[k - 1] == child(heuristic, s.n, s.nodes[cur as int], cur, tiles));
        assert(before.nodes[cur as int] == s.nodes[cur as int]);
        lemma_offer_elsewhere(before, heuristic, cur, tiles, next[j]);
        heuristic.lemma_in_range(tiles, s.n);
        lemma_offer(before, heuristic, cur, tiles);
    }
}

/// A step that leaves a search running drops no board.
pub proof fn lemma_step_complete<H: Estimator>(s: SearchView, heuristic: H)
    requires
        s.inv(heuristic),
        s.complete(heuristic),
        !(s.step(heuristic).1 is Solved),
    ensures
        s.step(heuristic).0.complete(heuristic),
{
    if s.open.len() != 0 && s.nodes.len() <= NODE_LIMIT {
        let cur = s.first();
        lemma_least_exists(s, s.open);
        let m = choose|id: usize|
            s.open.contains(id) && forall|j: usize| #[trigger]
                s.open.contains(j) ==> precedes(
                    s.nodes[id as int].f,
                    id,
                    s.nodes[j as int].f,
                    j,
                );
        assert(s.is_first(m));
        assert(s.is_first(cur));
        lemma_take_first(s, heuristic, cur);
        lemma_take_keeps(s, heuristic, cur);
        let mid = s.without(cur);
        let kids = mid.children(cur, heuristic);
        assert(s.node_ok(cur as int, heuristic));
        lemma_successors_exist(mid.nodes[cur as int].tiles, mid.n);
        lemma_offer_all(mid, heuristic, cur, kids.len() as int);
        lemma_offer_all_keeps(mid, heuristic, cur, kids.len() as int);
        assert(kids.take(kids.len() as int) =~= kids);
        let t = mid.offer_all(kids);
        let held = (t.open.len() + t.closed.dom().len()) as nat;
        assert(t.nodes[cur as int] == mid.nodes[cur as int]);
        assert(t.evaluated + 1 < t.nodes.len());
        assert(t.spread(cur, None, heuristic)) by {
            let next = successors(t.nodes[cur as int].tiles, t.n);
            assert forall|k: int| 0 <= k < next.len() implies t.within(
                #[trigger] next[k],
                t.way(cur, next[k], heuristic),
            ) by {
                assert(mid.way(cur, next[k], heuristic) == t.way(cur, next[k], heuristic));
            }
        }
        lemma_close_keeps(
            t,
            heuristic,
            cur,
            if held > t.peak {
                held
            } else {
                t.peak
            },
        );
    }
}

/// A move leads to one of the successors.
pub proof fn lemma_move_is_successor(n: int, a: Seq<u8>, b: Seq<u8>)
    requires
        n >= 1,
        is_arrangement(a, n),
        is_move(n, a, b),
    ensures
        exists|k: int| 0 <= k < successors(a, n).len() && successors(a, n)[k] == b,
{
    let (i, j) = choose|i: int, j: int| adjacent(n, i, j) && a[i] == 0 && b == swapped(a, i, j);
    lemma_blank_unique(a, i);
    lemma_cell_of_index(n, i);
    lemma_cell_of_index(n, j);
    let d = if j % n == i % n + 1 {
        Direction::Right
    } else if j / n == i / n + 1 {
        Direction::Down
    } else if i % n == j % n + 1 {
        Direction::Left
    } else {
        Direction::Up
    };
    assert(neighbour(n, i, d) == Some(j)) by (nonlinear_arith)
        requires
            adjacent(n, i, j),
            (i / n) * n + i % n == i,
            (j / n) * n + j % n == j,
            0 <= i % n < n,
            0 <= j % n < n,
            0 <= i / n < n,
            0 <= j / n < n,
            d == if j % n == i % n + 1 {
                Direction::Right
            } else if j / n == i / n + 1 {
                Direction::Down
            } else if i % n == j % n + 1 {
                Direction::Left
            } else {
                Direction::Up
            },
            neighbour(n, i, d) == if on_grid(n, i % n + d.dx(), i / n + d.dy()) {
                Some(i + d.dx() + d.dy() * n)
            } else {
                None
            },
    ;
    let right = moved(a, n, Direction::Right);
    let down = moved(a, n, Direction::Down);
    let left = moved(a, n, Direction::Left);
    let at: int = match d {
        Direction::Right => 0int,
        Direction::Down => right.len() as int,
        Direction::Left => (right.len() + down.len()) as int,
        Direction::Up => (right.len() + down.len() + left.len()) as int,
    };
    assert(successors(a, n)[at] == b);
}

/// Whether a live node stands for the board at index `i` of `path`, at a
/// cost of no more than `i` and the estimate for that board.
pub open spec fn on_way<H: Estimator>(s: SearchView, path: Seq<Seq<u8>>, i: int, heuristic: H) -> bool {
    &&& s.holds(path[i])
    &&& s.nodes[s.holder(path[i]) as int].f <= i + heuristic.value(path[i], s.n)
}

/// Whether an expanded node `x` has the board at index `j` of `path`, after
/// no more than `j` moves.
pub open spec fn reached(s: SearchView, path: Seq<Seq<u8>>, j: int, x: usize) -> bool {
    &&& s.expanded.contains(x)
    &&& s.nodes[x as int].tiles == path[j]
    &&& s.nodes[x as int].g <= j
}

/// Along a way from the start to a goal, up to every index either a live
/// node stands for a board of the way at no more than the cost along the
/// way, or the board at the index was expanded after no more moves than the
/// way makes.
pub proof fn lemma_witness<H: Estimator>(s: SearchView, heuristic: H, path: Seq<Seq<u8>>, j: int)
    requires
        s.inv(heuristic),
        s.complete(heuristic),
        s.expanded.contains(0),
        is_solution(path, s.nodes[0].tiles, s.n, heuristic),
        0 <= j < path.len(),
    ensures
        is_arrangement(path[j], s.n),
        (exists|i: int| 0 <= i <= j && on_way(s, path, i, heuristic)) || (exists|x: usize|
            reached(s, path, j, x)),
    decreases j,
{
    assert(s.node_ok(0, heuristic));
    if j == 0 {
        assert(reached(s, path, 0, 0));
    } else {
        let b = j - 1;
        lemma_witness(s, heuristic, path, b);
        assert(is_move(s.n, path[b], path[b + 1]));
        let (p, q) = choose|p: int, q: int|
            adjacent(s.n, p, q) && path[b][p] == 0 && path[j] == swapped(path[b], p, q);
        lemma_swap_keeps_arrangement(path[b], p, q);
        if exists|i: int| 0 <= i <= b && on_way(s, path, i, heuristic) {
            let i = choose|i: int| 0 <= i <= b && on_way(s, path, i, heuristic);
            assert(0 <= i <= j && on_way(s, path, i, heuristic));
        } else {
            let x = choose|x: usize| reached(s, path, b, x);
            lemma_move_is_successor(s.n, path[b], path[j]);
            let next = successors(path[b], s.n);
            let k = choose|k: int| 0 <= k < next.len() && next[k] == path[j];
            assert(s.spread(x, None, heuristic));
            assert(s.within(next[k], s.way(x, next[k], heuristic)));
            assert(s.node_ok(x as int, heuristic));
            if s.closed.contains_key(path[j]) {
                let r = s.closed[path[j]];
                assert(s.node_ok(r as int, heuristic));
                assert(reached(s, path, j, r));
            } else {
                assert(on_way(s, path, j, heuristic));
            }
        }
    }
}

/// While a way leads from the start to a board with estimate zero, the
/// frontier of a search that was not solved holds a live node.
pub proof fn lemma_never_exhausted<H: Estimator>(s: SearchView, heuristic: H, path: Seq<Seq<u8>>)
    requires
        s.inv(heuristic),
        s.complete(heuristic),
        is_solution(path, s.nodes[0].tiles, s.n, heuristic),
    ensures
        s.open.len() > 0,
{
    if s.expanded.contains(0) {
        let last = path.len() - 1;
        lemma_witness(s, heuristic, path, last);
        if exists|x: usize| reached(s, path, last, x) {
            let x = choose|x: usize| reached(s, path, last, x);
            assert(s.expanded.contains(x));
            assert(heuristic.value(s.nodes[x as int].tiles, s.n) != 0);
        }
        let i = choose|i: int| 0 <= i <= last && on_way(s, path, i, heuristic);
        let r = s.holder(path[i]);
        assert(s.open.contains(r));
    } else {
        assert(s.open.contains(0));
    }
}

/// A search that ends exhausted, and was not solved before, shows that no
/// way leads from the start to a board with estimate zero.
pub proof fn lemma_run_exhausted<H: Estimator>(s: SearchView, heuristic: H, budget: nat, path: Seq<Seq<u8>>)
    requires
        s.inv(heuristic),
        s.complete(heuristic),
        s.run(heuristic, budget).1 == Status::Exhausted,
    ensures
        !is_solution(path, s.nodes[0].tiles, s.n, heuristic),
    decreases budget,
{
    if budget > 0 {
        lemma_step_sound(s, heuristic);
        let (next, status) = s.step(heuristic);
        if status == Status::Running {
            lemma_step_complete(s, heuristic);
            lemma_run_exhausted(next, heuristic, (budget - 1) as nat, path);
        } else if is_solution(path, s.nodes[0].tiles, s.n, heuristic) {
            lemma_never_exhausted(s, heuristic, path);
        }
    }
}

/// With an admissible estimate, a first live node whose board has estimate
/// zero lies no more moves from the start than any way from the start to a
/// board with estimate zero has.
pub proof fn lemma_first_is_nearest<H: Estimator>(
    s: SearchView,
    heuristic: H,
    cur: usize,
    path: Seq<Seq<u8>>,
)
    requires
        s.inv(heuristic),
        s.complete(heuristic),
        admissible(heuristic, s.n),
        s.is_first(cur),
        heuristic.value(s.nodes[cur as int].tiles, s.n) == 0,
        is_solution(path, s.nodes[0].tiles, s.n, heuristic),
    ensures
        s.nodes[cur as int].g <= path.len() - 1,
{
    let last = path.len() - 1;
    assert(s.node_ok(cur as int, heuristic));
    assert(s.node_ok(0, heuristic));
    if cur != 0 {
        assert(s.open.contains(cur));
        assert(s.expanded.contains(0));
        lemma_witness(s, heuristic, path, last);
        if exists|x: usize| reached(s, path, last, x) {
            let x = choose|x: usize| reached(s, path, last, x);
            assert(s.expanded.contains(x));
            assert(heuristic.value(s.nodes[x as int].tiles, s.n) != 0);
        }
        let i = choose|i: int| 0 <= i <= last && on_way(s, path, i, heuristic);
        let r = s.holder(path[i]);
        assert(s.open.contains(r) && s.nodes[r as int].tiles == path[i]);
        let rest = path.subrange(i, path.len() as int);
        assert(is_way(rest, s.n)) by {
            assert forall|k: int| 0 <= k < rest.len() implies (#[trigger] rest[k]).len() == s.n
                * s.n by {
                assert(rest[k] == path[i + k]);
            }
            assert forall|k: int| 0 <= k < rest.len() - 1 implies is_move(
                s.n,
                #[trigger] rest[k],
                rest[k + 1],
            ) by {
                assert(rest[k] == path[i + k]);
                assert(is_move(s.n, path[i + k], path[i + k + 1]));
            }
        }
        assert(rest.last() == path.last());
        assert(rest[0] == path[i]);
        assert(heuristic.value(rest[0], s.n) <= rest.len() - 1);
    }
}

/// With an admissible estimate, a search that ends solved names a node that
/// lies no more moves from the start than any way from the start to a board
/// with estimate zero has: the solution is a shortest one.
pub proof fn lemma_run_shortest<H: Estimator>(s: SearchView, heuristic: H, budget: nat, path: Seq<Seq<u8>>)
    requires
        s.inv(heuristic),
        s.complete(heuristic),
        admissible(heuristic, s.n),
        is_solution(path, s.nodes[0].tiles, s.n, heuristic),
        s.run(heuristic, budget).1 is Solved,
    ensures
        s.run(heuristic, budget).0.nodes[s.run(heuristic, budget).1->Solved_0 as int].g <= path.len()
            - 1,
    decreases budget,
{
    if budget > 0 {
        lemma_step_sound(s, heuristic);
        let (next, status) = s.step(heuristic);
        if status == Status::Running {
            lemma_step_complete(s, heuristic);
            lemma_run_shortest(next, heuristic, (budget - 1) as nat, path);
        } else {
            let cur = s.first();
            lemma_least_exists(s, s.open);
            let m = choose|id: usize|
                s.open.contains(id) && forall|j: usize| #[trigger]
                    s.open.contains(j) ==> precedes(
                        s.nodes[id as int].f,
                        id,
                        s.nodes[j as int].f,
                        j,
                    );
            assert(s.is_first(m));
            assert(s.is_first(cur));
            lemma_first_is_nearest(s, heuristic, cur, path);
        }
    }
}

} // verus!
