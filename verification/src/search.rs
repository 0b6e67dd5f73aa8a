//! The best-first search as a transition system over mathematical values.
//!
//! The executable solver is proved to follow this model step by step.

use vstd::prelude::*;
use crate::board::{
    blank_at, is_arrangement, is_move, adjacent, swapped, successors, neighbour,
    labels_distinct, lemma_successor_is_move, lemma_blank_exists, lemma_cell_of_index, MAX_SIZE,
    MIN_SIZE,
};
use crate::heuristics::{Estimator, MAX_ESTIMATE};
use crate::position::Direction;
use crate::queue::precedes;

verus! {

/// The search stops generating nodes when it holds more than this many.
pub const NODE_LIMIT: usize = usize::MAX - 65544;

/// How a search stands after some steps.
#[derive(Clone, Copy, PartialEq, Eq, Structural, Debug)]
pub enum Status {
    /// Nodes are waiting to be expanded.
    Running,
    /// The node with this identity was taken from the frontier and its board
    /// has estimate zero.
    Solved(usize),
    /// The frontier is empty.
    Exhausted,
    /// The node limit is reached.
    Full,
}

/// A node as a mathematical value. Its identity is its index among the nodes
/// of the search.
pub struct NodeView {
    pub tiles: Seq<u8>,
    pub h: usize,
    pub g: usize,
    pub f: usize,
    pub parent: Option<usize>,
}

/// The state of a search on boards of size `n`.
pub struct SearchView {
    pub n: int,
    /// Every node that was generated, by identity.
    pub nodes: Seq<NodeView>,
    /// The identities of the nodes in the frontier's priority structure:
    /// the live ones and the tombstones.
    pub queued: Set<usize>,
    /// The identities of the live nodes of the frontier.
    pub open: Set<usize>,
    /// The settled boards, each with the identity of its node.
    pub closed: Map<Seq<u8>, usize>,
    /// The identities of the nodes that were expanded.
    pub expanded: Set<usize>,
    /// The number of nodes expanded.
    pub evaluated: nat,
    /// The largest number of open and closed nodes seen after an expansion.
    pub peak: nat,
}

/// The root of a search from the board `tiles`: no moves made, and the
/// largest cost there is.
pub open spec fn root(tiles: Seq<u8>) -> NodeView {
    NodeView { tiles, h: 0, g: 0, f: usize::MAX, parent: None }
}

/// The node that a move from `parent`, the node with identity `from`, to the
/// board `tiles` generates.
pub open spec fn child<H: Estimator>(heuristic: H, n: int, parent: NodeView, from: usize, tiles: Seq<u8>) -> NodeView {
    NodeView {
        tiles,
        h: heuristic.value(tiles, n) as usize,
        g: (parent.g + 1) as usize,
        f: (parent.g + 1 + heuristic.value(tiles, n)) as usize,
        parent: Some(from),
    }
}

/// The identities from the root to `id` along the parent links.
pub open spec fn trail(nodes: Seq<NodeView>, id: usize) -> Seq<usize>
    decreases id,
{
    match nodes[id as int].parent {
        Some(p) => if p < id {
            trail(nodes, p).push(id)
        } else {
            seq![id]
        },
        None => seq![id],
    }
}

impl SearchView {
    /// The state before the first step of a search from the board `tiles`.
    pub open spec fn initial(tiles: Seq<u8>, n: int) -> SearchView {
        SearchView {
            n,
            nodes: seq![root(tiles)],
            queued: set![0usize],
            open: set![0usize],
            closed: Map::empty(),
            expanded: Set::empty(),
            evaluated: 0,
            peak: 0,
        }
    }

    /// Whether `id` is the live node that precedes all live nodes: it has the
    /// least cost, and among those of least cost the least identity.
    pub open spec fn is_first(self, id: usize) -> bool {
        &&& self.open.contains(id)
        &&& forall|j: usize| #[trigger]
            self.open.contains(j) ==> precedes(self.nodes[id as int].f, id, self.nodes[j as int].f, j)
    }

    /// The live node that precedes all live nodes.
    pub open spec fn first(self) -> usize {
        choose|id: usize| self.is_first(id)
    }

    /// Whether a live node stands for the board `tiles`.
    pub open spec fn holds(self, tiles: Seq<u8>) -> bool {
        exists|id: usize| self.open.contains(id) && self.nodes[id as int].tiles == tiles
    }

    /// The live node that stands for the board `tiles`.
    pub open spec fn holder(self, tiles: Seq<u8>) -> usize {
        choose|id: usize| self.open.contains(id) && self.nodes[id as int].tiles == tiles
    }

    /// The state with the node `id` taken from the frontier, and with it
    /// every node of the priority structure that precedes it.
    pub open spec fn without(self, id: usize) -> SearchView {
        SearchView {
            open: self.open.remove(id),
            queued: self.queued.filter(
                |j: usize| !precedes(self.nodes[j as int].f, j, self.nodes[id as int].f, id),
            ),
            ..self
        }
    }

    /// The state after the node `c` was generated and held against the
    /// closed set and the frontier.
    ///
    /// Where its board is closed, it reopens the board if it is cheaper than
    /// the closed node. Where its board is live in the frontier, it takes
    /// the place of the live node if it is cheaper, and the live node
    /// becomes a tombstone. Where its board is in neither, it joins the
    /// frontier.
    pub open spec fn offer(self, c: NodeView) -> SearchView {
        let id = self.nodes.len() as usize;
        let nodes = self.nodes.push(c);
        if self.closed.contains_key(c.tiles) {
            if c.f < self.nodes[self.closed[c.tiles] as int].f {
                SearchView {
                    nodes,
                    closed: self.closed.remove(c.tiles),
                    open: self.open.insert(id),
                    queued: self.queued.insert(id),
                    ..self
                }
            } else {
                SearchView { nodes, ..self }
            }
        } else if self.holds(c.tiles) {
            if c.f < self.nodes[self.holder(c.tiles) as int].f {
                SearchView {
                    nodes,
                    open: self.open.remove(self.holder(c.tiles)).insert(id),
                    queued: self.queued.insert(id),
                    ..self
                }
            } else {
                SearchView { nodes, ..self }
            }
        } else {
            SearchView { nodes, open: self.open.insert(id), queued: self.queued.insert(id), ..self }
        }
    }

    /// The state after the nodes `cs` were offered one after the other.
    pub open spec fn offer_all(self, cs: Seq<NodeView>) -> SearchView
        decreases cs.len(),
    {
        if cs.len() == 0 {
            self
        } else {
            self.offer_all(cs.drop_last()).offer(cs.last())
        }
    }

    /// The nodes that the moves from the node `cur` generate, in the order
    /// right, down, left, up of the blank's move.
    pub open spec fn children<H: Estimator>(self, cur: usize, heuristic: H) -> Seq<NodeView> {
        successors(self.nodes[cur as int].tiles, self.n).map_values(
            |t: Seq<u8>| child(heuristic, self.n, self.nodes[cur as int], cur, t),
        )
    }

    /// The state after the node `cur`, already taken from the frontier, was
    /// expanded: its children offered, the peak brought up to date, and its
    /// board closed.
    pub open spec fn expand<H: Estimator>(self, cur: usize, heuristic: H) -> SearchView {
        let s = self.offer_all(self.children(cur, heuristic));
        let held = (s.open.len() + s.closed.dom().len()) as nat;
        SearchView {
            peak: if held > s.peak {
                held
            } else {
                s.peak
            },
            closed: s.closed.insert(self.nodes[cur as int].tiles, cur),
            expanded: s.expanded.insert(cur),
            evaluated: s.evaluated + 1,
            ..s
        }
    }

    /// One step of the search, and how the search stands after it.
    ///
    /// With an empty frontier or the node limit passed, nothing changes.
    /// Otherwise the first live node leaves the frontier. Where its board
    /// has estimate zero the search is solved, else the node is expanded.
    pub open spec fn step<H: Estimator>(self, heuristic: H) -> (SearchView, Status) {
        if self.open.len() == 0 {
            (self, Status::Exhausted)
        } else if self.nodes.len() > NODE_LIMIT {
            (self, Status::Full)
        } else if heuristic.value(self.nodes[self.first() as int].tiles, self.n) == 0 {
            (self.without(self.first()), Status::Solved(self.first()))
        } else {
            (self.without(self.first()).expand(self.first(), heuristic), Status::Running)
        }
    }

    /// At most `budget` steps of the search, up to the first that does not
    /// leave it running.
    pub open spec fn run<H: Estimator>(self, heuristic: H, budget: nat) -> (SearchView, Status)
        decreases budget,
    {
        if budget == 0 {
            (self, Status::Running)
        } else {
            let (next, status) = self.step(heuristic);
            if status == Status::Running {
                next.run(heuristic, (budget - 1) as nat)
            } else {
                (next, status)
            }
        }
    }

    /// Whether the node `i` is a sound record: its board is an arrangement,
    /// and unless it is the root it lies one move from its parent, an
    /// earlier node, with the costs that follow.
    pub open spec fn node_ok<H: Estimator>(self, i: int, heuristic: H) -> bool {
        let x = self.nodes[i];
        &&& is_arrangement(x.tiles, self.n)
        &&& x.g <= i
        &&& if i == 0 {
            x == root(x.tiles)
        } else {
            &&& x.parent.is_some()
            &&& x.parent.unwrap() < i
            &&& x.g == self.nodes[x.parent.unwrap() as int].g + 1
            &&& is_move(self.n, self.nodes[x.parent.unwrap() as int].tiles, x.tiles)
            &&& x.h == heuristic.value(x.tiles, self.n)
            &&& x.f == x.g + x.h
        }
    }

    /// What holds of the nodes, the frontier and the closed set at every
    /// moment of a search.
    pub open spec fn shape<H: Estimator>(self, heuristic: H) -> bool {
        &&& MIN_SIZE <= self.n <= MAX_SIZE
        &&& self.nodes.len() >= 1
        &&& forall|i: int| 0 <= i < self.nodes.len() ==> #[trigger] self.node_ok(i, heuristic)
        &&& self.open.finite()
        &&& self.queued.finite()
        &&& self.open.subset_of(self.queued)
        &&& forall|id: usize| #[trigger] self.queued.contains(id) ==> id < self.nodes.len()
        &&& forall|id: usize| #[trigger] self.open.contains(id) ==> id < self.nodes.len()
        &&& forall|a: usize, b: usize|
            self.open.contains(a) && self.open.contains(b) && a != b ==> self.nodes[a as int].tiles
                != self.nodes[b as int].tiles
        &&& self.closed.dom().finite()
        &&& forall|t: Seq<u8>| #[trigger]
            self.closed.contains_key(t) ==> self.closed[t] < self.nodes.len()
                && self.nodes[self.closed[t] as int].tiles == t
        &&& forall|id: usize| #[trigger]
            self.open.contains(id) ==> !self.closed.contains_key(self.nodes[id as int].tiles)
    }

    /// What holds of a search between two steps.
    pub open spec fn inv<H: Estimator>(self, heuristic: H) -> bool {
        &&& self.shape(heuristic)
        &&& self.open.len() + self.closed.dom().len() <= self.nodes.len()
        &&& self.evaluated < self.nodes.len()
    }

    /// The node that stands for the board `tiles`: the node that closed it,
    /// or its live node in the frontier.
    pub open spec fn held(self, tiles: Seq<u8>) -> Option<usize> {
        if self.closed.contains_key(tiles) {
            Some(self.closed[tiles])
        } else if self.holds(tiles) {
            Some(self.holder(tiles))
        } else {
            None
        }
    }

    /// Whether a node stands for the board `tiles` at a cost of at most
    /// `bound`.
    pub open spec fn within(self, tiles: Seq<u8>, bound: int) -> bool {
        match self.held(tiles) {
            Some(r) => self.nodes[r as int].f <= bound,
            None => false,
        }
    }

    /// The cost of the board `tiles` when it is reached over the node `x`.
    pub open spec fn way<H: Estimator>(self, x: usize, tiles: Seq<u8>, heuristic: H) -> int {
        self.nodes[x as int].g + 1 + heuristic.value(tiles, self.n)
    }

    /// Whether a node stands for every successor of the board of the node
    /// `x`, at no more than the cost of the successor when it is reached
    /// over `x`. The board of the node `but`, if one is named, is left out:
    /// of it only the cost of `but` is asked.
    pub open spec fn spread<H: Estimator>(self, x: usize, but: Option<usize>, heuristic: H) -> bool {
        forall|k: int|
            0 <= k < successors(self.nodes[x as int].tiles, self.n).len() ==> {
                let t = #[trigger] successors(self.nodes[x as int].tiles, self.n)[k];
                if but.is_some() && t == self.nodes[but.unwrap() as int].tiles {
                    self.nodes[but.unwrap() as int].f <= self.way(x, t, heuristic)
                } else {
                    self.within(t, self.way(x, t, heuristic))
                }
            }
    }

    /// Whether no board was dropped: every expanded node had a board with a
    /// nonzero estimate, a node stands for each successor of its board at no
    /// more than the cost over the expanded node, and every node of the
    /// closed set was expanded. The board of the node `but`, if one is
    /// named, is let off.
    pub open spec fn kept<H: Estimator>(self, but: Option<usize>, heuristic: H) -> bool {
        &&& forall|x: usize| #[trigger]
            self.expanded.contains(x) ==> {
                &&& x < self.nodes.len()
                &&& heuristic.value(self.nodes[x as int].tiles, self.n) != 0
                &&& self.spread(x, but, heuristic)
            }
        &&& forall|t: Seq<u8>| #[trigger]
            self.closed.contains_key(t) ==> self.expanded.contains(self.closed[t])
    }

    /// What holds between two steps of a search that was not solved yet: no
    /// board was dropped, and the root was expanded unless it is all there
    /// is in the frontier.
    pub open spec fn complete<H: Estimator>(self, heuristic: H) -> bool {
        &&& self.kept(None, heuristic)
        &&& self.expanded.contains(0) || self.open == set![0usize]
    }

    /// What holds while the node `cur` is being expanded in a search that
    /// was not solved yet.
    pub open spec fn completing<H: Estimator>(self, cur: usize, heuristic: H) -> bool {
        &&& self.kept(Some(cur), heuristic)
        &&& self.expanded.contains(0) || cur == 0
    }

    /// What holds of a search while the node `cur` is being expanded.
    pub open spec fn expanding<H: Estimator>(self, cur: usize, heuristic: H) -> bool {
        &&& self.shape(heuristic)
        &&& self.open.len() + self.closed.dom().len() + 1 <= self.nodes.len()
        &&& self.evaluated < self.nodes.len()
        &&& cur < self.nodes.len()
        &&& !self.closed.contains_key(self.nodes[cur as int].tiles)
        &&& forall|id: usize| #[trigger]
            self.open.contains(id) ==> self.nodes[id as int].tiles != self.nodes[cur as int].tiles
    }
}

/// At most one live node precedes all live nodes.
pub proof fn lemma_first_unique(s: SearchView, a: usize, b: usize)
    requires
        s.is_first(a),
        s.is_first(b),
    ensures
        a == b,
        s.first() == a,
{
    assert(s.open.contains(a) && s.open.contains(b));
    let c = s.first();
    assert(s.is_first(c));
    assert(s.open.contains(c));
}

/// A board has at most one live node.
pub proof fn lemma_holder_unique<H: Estimator>(s: SearchView, heuristic: H, id: usize)
    requires
        s.shape(heuristic),
        s.open.contains(id),
    ensures
        s.holds(s.nodes[id as int].tiles),
        s.holder(s.nodes[id as int].tiles) == id,
{
    let t = s.nodes[id as int].tiles;
    let o = s.holder(t);
    assert(s.open.contains(o) && s.nodes[o as int].tiles == t);
}

/// A move leads to a different board.
pub proof fn lemma_move_differs(n: int, a: Seq<u8>, b: Seq<u8>)
    requires
        labels_distinct(a),
        is_move(n, a, b),
        a.len() == n * n,
    ensures
        a != b,
{
    let (i, j) = choose|i: int, j: int| adjacent(n, i, j) && a[i] == 0 && b == swapped(a, i, j);
    if i < j {
        assert(a[i] != a[j]);
    } else {
        assert(a[j] != a[i]);
    }
    assert(b[i] == a[j]);
}

/// The blank can always move: right or left.
pub proof fn lemma_successors_exist(tiles: Seq<u8>, n: int)
    requires
        n >= 2,
        is_arrangement(tiles, n),
    ensures
        1 <= successors(tiles, n).len() <= 4,
{
    assert(n * n >= 1) by (nonlinear_arith)
        requires
            n >= 1,
    ;
    lemma_blank_exists(tiles);
    let b = blank_at(tiles);
    lemma_cell_of_index(n, b);
    if b % n + 1 < n {
        assert(neighbour(n, b, Direction::Right).is_some());
    } else {
        assert(neighbour(n, b, Direction::Left).is_some());
    }
}

/// Taking the first live node from the frontier starts its expansion.
pub proof fn lemma_take_first<H: Estimator>(s: SearchView, heuristic: H, cur: usize)
    requires
        s.inv(heuristic),
        s.is_first(cur),
    ensures
        s.without(cur).expanding(cur, heuristic),
        s.without(cur).inv(heuristic),
{
    let t = s.without(cur);
    assert forall|i: int| 0 <= i < t.nodes.len() implies #[trigger] t.node_ok(i, heuristic) by {
        assert(s.node_ok(i, heuristic));
    }
}

/// Offering a child of the node under expansion keeps the search sound.
pub proof fn lemma_offer<H: Estimator>(s: SearchView, heuristic: H, cur: usize, tiles: Seq<u8>)
    requires
        s.expanding(cur, heuristic),
        s.nodes.len() <= NODE_LIMIT + 4,
        is_arrangement(tiles, s.n),
        is_move(s.n, s.nodes[cur as int].tiles, tiles),
        0 <= heuristic.value(tiles, s.n) <= MAX_ESTIMATE,
    ensures
        s.offer(child(heuristic, s.n, s.nodes[cur as int], cur, tiles)).expanding(cur, heuristic),
        s.offer(child(heuristic, s.n, s.nodes[cur as int], cur, tiles)).nodes.len() == s.nodes.len()
            + 1,
        s.offer(child(heuristic, s.n, s.nodes[cur as int], cur, tiles)).evaluated == s.evaluated,
{
    let c = child(heuristic, s.n, s.nodes[cur as int], cur, tiles);
    let t = s.offer(c);
    let id = s.nodes.len() as usize;
    assert(s.node_ok(cur as int, heuristic));
    lemma_move_differs(s.n, s.nodes[cur as int].tiles, tiles);
    assert forall|i: int| 0 <= i < t.nodes.len() implies #[trigger] t.node_ok(i, heuristic) by {
        if i < s.nodes.len() {
            assert(s.node_ok(i, heuristic));
        }
    }
    assert(!s.open.contains(id));
    if s.closed.contains_key(c.tiles) {
    } else if s.holds(c.tiles) {
        let o = s.holder(c.tiles);
        assert(s.open.contains(o));
    } else {
        assert forall|a: usize| s.open.contains(a) implies s.nodes[a as int].tiles != c.tiles by {}
    }
    assert forall|a: usize, b: usize| t.open.contains(a) && t.open.contains(b) && a != b implies t.nodes[a as int].tiles
        != t.nodes[b as int].tiles by {
        if a != id && b != id {
            assert(s.open.contains(a) && s.open.contains(b));
        } else if a == id {
            assert(s.open.contains(b));
        } else {
            assert(s.open.contains(a));
        }
    }
    assert forall|x: usize| #[trigger] t.open.contains(x) implies !t.closed.contains_key(
        t.nodes[x as int].tiles,
    ) by {
        if x != id {
            assert(s.open.contains(x));
        }
    }
    assert forall|x: usize| #[trigger] t.open.contains(x) implies t.nodes[x as int].tiles
        != t.nodes[cur as int].tiles by {
        if x != id {
            assert(s.open.contains(x));
        }
    }
}

/// Closing the expanded node ends its expansion.
pub proof fn lemma_close<H: Estimator>(s: SearchView, heuristic: H, cur: usize, peak: nat)
    requires
        s.expanding(cur, heuristic),
        s.evaluated + 1 < s.nodes.len(),
    ensures
        (SearchView {
            peak,
            closed: s.closed.insert(s.nodes[cur as int].tiles, cur),
            expanded: s.expanded.insert(cur),
            evaluated: s.evaluated + 1,
            ..s
        }).inv(heuristic),
{
    let t = SearchView {
        peak,
        closed: s.closed.insert(s.nodes[cur as int].tiles, cur),
        expanded: s.expanded.insert(cur),
        evaluated: s.evaluated + 1,
        ..s
    };
    assert forall|i: int| 0 <= i < t.nodes.len() implies #[trigger] t.node_ok(i, heuristic) by {
        assert(s.node_ok(i, heuristic));
    }
    assert forall|id: usize| #[trigger] t.open.contains(id) implies !t.closed.contains_key(
        t.nodes[id as int].tiles,
    ) by {
        assert(s.open.contains(id));
    }
}

/// A closed board that is reached again by fewer moves is reopened: it
/// leaves the closed set, and the new node joins the frontier.
pub proof fn lemma_reopening<H: Estimator>(s: SearchView, heuristic: H, cur: usize, tiles: Seq<u8>)
    requires
        s.expanding(cur, heuristic),
        s.nodes.len() <= NODE_LIMIT + 4,
        0 <= heuristic.value(tiles, s.n) <= MAX_ESTIMATE,
        s.closed.contains_key(tiles),
        s.nodes[cur as int].g + 1 < s.nodes[s.closed[tiles] as int].g,
    ensures
        !s.offer(child(heuristic, s.n, s.nodes[cur as int], cur, tiles)).closed.contains_key(tiles),
        s.offer(child(heuristic, s.n, s.nodes[cur as int], cur, tiles)).open.contains(
            s.nodes.len() as usize,
        ),
        s.offer(child(heuristic, s.n, s.nodes[cur as int], cur, tiles)).nodes.last().tiles == tiles,
{
    let k = s.closed[tiles];
    assert(s.node_ok(k as int, heuristic));
    assert(s.node_ok(cur as int, heuristic));
}

/// The boards of the nodes `ids`.
pub open spec fn tiles_along(nodes: Seq<NodeView>, ids: Seq<usize>) -> Seq<Seq<u8>> {
    ids.map_values(|i: usize| nodes[i as int].tiles)
}

/// A step keeps a sound search sound, and never changes a node that exists.
pub proof fn lemma_step_sound<H: Estimator>(s: SearchView, heuristic: H)
    requires
        s.inv(heuristic),
    ensures
        s.step(heuristic).0.inv(heuristic),
        s.step(heuristic).0.n == s.n,
        s.nodes.len() <= s.step(heuristic).0.nodes.len(),
        forall|i: int| 0 <= i < s.nodes.len() ==> s.step(heuristic).0.nodes[i] == s.nodes[i],
        s.step(heuristic).1 matches Status::Solved(id) ==> id < s.nodes.len() && heuristic.value(
            s.nodes[id as int].tiles,
            s.n,
        ) == 0,
{
    if s.open.len() != 0 && s.nodes.len() <= NODE_LIMIT {
        let cur = s.first();
        let w = s.open.choose();
        assert(s.open.contains(w));
        lemma_least_exists(s, s.open);
        let m = choose|id: usize|
            s.open.contains(id) && forall|j: usize| #[trigger]
                s.open.contains(j) ==> precedes(s.nodes[id as int].f, id, s.nodes[j as int].f, j);
        assert(s.is_first(m));
        assert(s.is_first(cur));
        lemma_take_first(s, heuristic, cur);
        let mid = s.without(cur);
        if heuristic.value(s.nodes[cur as int].tiles, s.n) != 0 {
            let kids = mid.children(cur, heuristic);
            assert(s.node_ok(cur as int, heuristic));
            lemma_successors_exist(mid.nodes[cur as int].tiles, mid.n);
            lemma_offer_all(mid, heuristic, cur, kids.len() as int);
            assert(kids.take(kids.len() as int) =~= kids);
            let t = mid.offer_all(kids);
            let held = (t.open.len() + t.closed.dom().len()) as nat;
            lemma_close(
                t,
                heuristic,
                cur,
                if held > t.peak {
                    held
                } else {
                    t.peak
                },
            );
        }
    }
}

/// Offering the first `k` children of the node under expansion keeps the
/// search sound and adds `k` nodes.
pub proof fn lemma_offer_all<H: Estimator>(s: SearchView, heuristic: H, cur: usize, k: int)
    requires
        s.expanding(cur, heuristic),
        s.nodes.len() <= NODE_LIMIT,
        0 <= k <= s.children(cur, heuristic).len() <= 4,
    ensures
        s.offer_all(s.children(cur, heuristic).take(k)).expanding(cur, heuristic),
        s.offer_all(s.children(cur, heuristic).take(k)).nodes.len() == s.nodes.len() + k,
        s.offer_all(s.children(cur, heuristic).take(k)).evaluated == s.evaluated,
        s.offer_all(s.children(cur, heuristic).take(k)).n == s.n,
        forall|i: int|
            0 <= i < s.nodes.len() ==> s.offer_all(s.children(cur, heuristic).take(k)).nodes[i]
                == s.nodes[i],
    decreases k,
{
    let kids = s.children(cur, heuristic);
    if k > 0 {
        lemma_offer_all(s, heuristic, cur, k - 1);
        let before = s.offer_all(kids.take(k - 1));
        assert(kids.take(k).drop_last() =~= kids.take(k - 1));
        assert(kids.take(k).last() == kids[k - 1]);
        assert(s.node_ok(cur as int, heuristic));
        let tiles = successors(s.nodes[cur as int].tiles, s.n)[k - 1];
        lemma_successor_is_move(s.nodes[cur as int].tiles, s.n, k - 1);
        heuristic.lemma_in_range(tiles, s.n);
        assert(kids[k - 1] == child(heuristic, s.n, s.nodes[cur as int], cur, tiles));
        assert(before.nodes[cur as int] == s.nodes[cur as int]);
        lemma_offer(before, heuristic, cur, tiles);
    }
}

/// Among finitely many live nodes, one precedes all.
pub proof fn lemma_least_exists(s: SearchView, among: Set<usize>)
    requires
        among.finite(),
        among.len() > 0,
    ensures
        exists|id: usize|
            among.contains(id) && forall|j: usize| #[trigger]
                among.contains(j) ==> precedes(s.nodes[id as int].f, id, s.nodes[j as int].f, j),
    decreases among.len(),
{
    let w = among.choose();
    assert(among.contains(w));
    let rest = among.remove(w);
    if rest.len() == 0 {
        assert forall|j: usize| #[trigger] among.contains(j) implies j == w by {
            if j != w {
                assert(rest.contains(j));
            }
        }
        assert(among.contains(w) && forall|j: usize| #[trigger]
            among.contains(j) ==> precedes(s.nodes[w as int].f, w, s.nodes[j as int].f, j));
    } else {
        lemma_least_exists(s, rest);
        let m = choose|id: usize|
            rest.contains(id) && forall|j: usize| #[trigger]
                rest.contains(j) ==> precedes(s.nodes[id as int].f, id, s.nodes[j as int].f, j);
        let best = if precedes(s.nodes[m as int].f, m, s.nodes[w as int].f, w) {
            m
        } else {
            w
        };
        assert forall|j: usize| #[trigger] among.contains(j) implies precedes(
            s.nodes[best as int].f,
            best,
            s.nodes[j as int].f,
            j,
        ) by {
            if j != w {
                assert(rest.contains(j));
            }
        }
        assert(among.contains(best));
    }
}

/// Any number of steps keeps a sound search sound, and a search that ends
/// solved names a node whose board has estimate zero.
pub proof fn lemma_run_sound<H: Estimator>(s: SearchView, heuristic: H, budget: nat)
    requires
        s.inv(heuristic),
    ensures
        s.run(heuristic, budget).0.inv(heuristic),
        s.run(heuristic, budget).0.n == s.n,
        s.nodes.len() <= s.run(heuristic, budget).0.nodes.len(),
        forall|i: int| 0 <= i < s.nodes.len() ==> s.run(heuristic, budget).0.nodes[i] == s.nodes[i],
        s.run(heuristic, budget).1 matches Status::Solved(id) ==> {
            &&& id < s.run(heuristic, budget).0.nodes.len()
            &&& heuristic.value(s.run(heuristic, budget).0.nodes[id as int].tiles, s.n) == 0
        },
    decreases budget,
{
    if budget > 0 {
        lemma_step_sound(s, heuristic);
        let (next, status) = s.step(heuristic);
        if status == Status::Running {
            lemma_run_sound(next, heuristic, (budget - 1) as nat);
        }
    }
}

/// A search that ends solved has found a way from the start to a board with
/// estimate zero: the boards along the parent links of the node that it
/// names begin with the start board, are as many as the node's `g` and one
/// more, lie one move of the blank apart each from the next, and end on a
/// board with estimate zero.
pub proof fn lemma_solution_path<H: Estimator>(s: SearchView, heuristic: H, budget: nat)
    requires
        s.inv(heuristic),
        s.run(heuristic, budget).1 is Solved,
    ensures
        ({
            let end = s.run(heuristic, budget).0;
            let id = s.run(heuristic, budget).1->Solved_0;
            let path = tiles_along(end.nodes, trail(end.nodes, id));
            &&& id < end.nodes.len()
            &&& path.len() == end.nodes[id as int].g + 1
            &&& path[0] == s.nodes[0].tiles
            &&& heuristic.value(path.last(), s.n) == 0
            &&& forall|k: int| 0 <= k < path.len() - 1 ==> is_move(s.n, #[trigger] path[k], path[k + 1])
        }),
{
    lemma_run_sound(s, heuristic, budget);
    let end = s.run(heuristic, budget).0;
    let id = s.run(heuristic, budget).1->Solved_0;
    lemma_trail(end, heuristic, id);
    let ids = trail(end.nodes, id);
    let path = tiles_along(end.nodes, ids);
    assert forall|k: int| 0 <= k < path.len() - 1 implies is_move(s.n, #[trigger] path[k], path[k + 1]) by {
        assert(is_move(end.n, end.nodes[ids[k] as int].tiles, end.nodes[ids[k + 1] as int].tiles));
    }
}

/// The parent links of any node lead back to the root in as many steps as
/// the node's `g` says, and each link is one move of the blank.
pub proof fn lemma_trail<H: Estimator>(s: SearchView, heuristic: H, id: usize)
    requires
        s.shape(heuristic),
        id < s.nodes.len(),
    ensures
        trail(s.nodes, id).len() == s.nodes[id as int].g + 1,
        trail(s.nodes, id)[0] == 0,
        trail(s.nodes, id).last() == id,
        forall|k: int| 0 <= k < trail(s.nodes, id).len() ==> (#[trigger] trail(s.nodes, id)[k]) < s.nodes.len(),
        forall|k: int|
            0 <= k < trail(s.nodes, id).len() - 1 ==> is_move(
                s.n,
                s.nodes[(#[trigger] trail(s.nodes, id)[k]) as int].tiles,
                s.nodes[trail(s.nodes, id)[k + 1] as int].tiles,
            ),
    decreases id,
{
    assert(s.node_ok(id as int, heuristic));
    if id > 0 {
        let p = s.nodes[id as int].parent.unwrap();
        lemma_trail(s, heuristic, p);
        let before = trail(s.nodes, p);
        let now = trail(s.nodes, id);
        assert(now == before.push(id));
        assert forall|k: int| 0 <= k < now.len() - 1 implies is_move(
            s.n,
            s.nodes[(#[trigger] now[k]) as int].tiles,
            s.nodes[now[k + 1] as int].tiles,
        ) by {
            if k < before.len() - 1 {
                assert(now[k] == before[k] && now[k + 1] == before[k + 1]);
            } else {
                assert(now[k] == p && now[k + 1] == id);
            }
        }
    }
}

} // verus!
