//! Search states and the best-first search over them.

use vstd::prelude::*;
use crate::board::{
    Board, blank_at, tiles_of, is_move, moved, neighbour, successors, lemma_cell_of_index,
    lemma_neighbour_adjacent, lemma_linear_bound,
};
use crate::board_map::BoardMap;
use crate::heuristics::{admissible, Estimator, MAX_ESTIMATE};
use crate::optimal::{is_solution, lemma_run_exhausted, lemma_run_shortest, lemma_step_complete};
use crate::parity::{
    inversions, inversions_of, inversions_upto, solvable, lemma_below_bound, lemma_inversions_bound,
};
use crate::position::{Direction, Position};
use crate::queue::precedes;
use crate::search::{
    NodeView, SearchView, Status, child, root, trail, tiles_along, lemma_first_unique,
    lemma_holder_unique, lemma_offer, lemma_take_first, lemma_close, lemma_successors_exist,
    lemma_trail, lemma_solution_path, NODE_LIMIT,
};
use crate::sorted_set::SortedSet;

verus! {

/// A search state: a board, the number `g` of moves that led to it, the
/// estimate `h` of the moves still to make, their sum `f`, its identity, and
/// the identity of the state that it was generated from.
#[derive(Debug)]
pub struct Node {
    pub board: Board,
    pub id: usize,
    pub h: usize,
    pub g: usize,
    pub f: usize,
    pub parent: Option<usize>,
}

impl PartialEq for Node {
    /// Two nodes are equal when their boards are: the costs, the identity
    /// and the parent do not count.
    fn eq(&self, other: &Self) -> (r: bool) {
        self.board == other.board
    }
}

impl Eq for Node {

}

impl vstd::std_specs::cmp::PartialEqSpecImpl for Node {
    open spec fn obeys_eq_spec() -> bool {
        true
    }

    open spec fn eq_spec(&self, other: &Self) -> bool {
        self.board.data@ == other.board.data@
    }
}

impl View for Node {
    type V = NodeView;

    /// A node is viewed as its board's tiles, its costs and its parent link.
    open spec fn view(&self) -> NodeView {
        NodeView { tiles: self.board.data@, h: self.h, g: self.g, f: self.f, parent: self.parent }
    }
}

/// The views of `nodes`.
pub open spec fn views_of(nodes: Seq<Node>) -> Seq<NodeView> {
    nodes.map_values(|x: Node| x@)
}

/// Hands out the next identity and advances the counter.
pub fn next_id(counter: &mut usize) -> (id: usize)
    requires
        *old(counter) < usize::MAX,
    ensures
        id == *old(counter),
        *final(counter) == id + 1,
{
    let id: usize = *counter;
    *counter = id + 1;
    id
}

/// The tile sequences of the boards of `nodes`.
pub open spec fn boards_of(nodes: Seq<Node>) -> Seq<Seq<u8>> {
    nodes.map_values(|x: Node| x.board.data@)
}

impl Node {
    /// Whether this node is what one move makes of `parent`: one move further
    /// from the start, with the estimate of its own board, and linked to
    /// `parent`.
    pub open spec fn extends<H: Estimator>(&self, parent: &Node, heuristic: &H) -> bool {
        &&& self.board.wf()
        &&& self.board.n == parent.board.n
        &&& self.board.desired_positions == parent.board.desired_positions
        &&& is_move(parent.board.n as int, parent.board.data@, self.board.data@)
        &&& self.g == parent.g + 1
        &&& self.h == heuristic.value(self.board.data@, self.board.n as int)
        &&& self.h <= MAX_ESTIMATE
        &&& self.f == self.g + self.h
        &&& self.parent == Some(parent.id)
    }

    /// Appends to `out` the node that a move of the blank in direction `d`
    /// leads to, if the move stays on the grid.
    fn push_successor<H: Estimator>(
        &self,
        heuristic: &H,
        counter: &mut usize,
        blank: usize,
        d: Direction,
        out: &mut Vec<Node>,
    )
        requires
            self.board.wf(),
            blank == blank_at(self.board.data@),
            blank < self.board.data.len(),
            self.board.data@[blank as int] == 0,
            self.g + 1 + MAX_ESTIMATE <= usize::MAX,
            *old(counter) < usize::MAX,
            forall|k: int| 0 <= k < old(out)@.len() ==> (#[trigger] old(out)@[k]).extends(self, heuristic),
        ensures
            boards_of(final(out)@) == boards_of(old(out)@) + moved(self.board.data@, self.board.n as int, d),
            *final(counter) == *old(counter) + moved(self.board.data@, self.board.n as int, d).len(),
            final(out)@.len() >= old(out)@.len(),
            forall|k: int| 0 <= k < old(out)@.len() ==> final(out)@[k] == old(out)@[k],
            forall|k: int| 0 <= k < final(out)@.len() ==> (#[trigger] final(out)@[k]).extends(self, heuristic),
            forall|k: int|
                old(out)@.len() <= k < final(out)@.len() ==> (#[trigger] final(out)@[k]).id == *old(
                    counter,
                ),
    {
        let n: usize = self.board.n;
        proof {
            lemma_cell_of_index(n as int, blank as int);
        }
        let here = Position::from_u64(blank, n);
        match here.step(d, n) {
            None => {
                assert(boards_of(out@) =~= boards_of(old(out)@) + moved(self.board.data@, n as int, d));
            },
            Some(there) => {
                proof {
                    lemma_neighbour_adjacent(n as int, blank as int, d);
                    lemma_linear_bound(n as int, there.x as int, there.y as int);
                    lemma_cell_of_index(n as int, neighbour(n as int, blank as int, d).unwrap());
                }
                let target: usize = there.to_usize(n);
                assert(target == neighbour(n as int, blank as int, d).unwrap());
                let board = Board::with_swap(&self.board, blank, target);
                let score: usize = heuristic.evaluate(&board);
                let node = Node {
                    id: next_id(counter),
                    board,
                    h: score,
                    g: self.g + 1,
                    f: score + self.g + 1,
                    parent: Some(self.id),
                };
                assert(is_move(n as int, self.board.data@, node.board.data@)) by {
                    assert(self.board.data@[blank as int] == 0);
                }
                out.push(node);
                assert(boards_of(out@) =~= boards_of(old(out)@) + moved(self.board.data@, n as int, d));
            },
        }
    }

    /// The nodes that one move leads to, in the order right, down, left, up
    /// of the blank's move. Each takes the next identity from `counter`.
    pub fn get_permutations<H: Estimator>(&self, heuristic: &H, counter: &mut usize) -> (r: Vec<Node>)
        requires
            self.board.wf(),
            self.g + 1 + MAX_ESTIMATE <= usize::MAX,
            *old(counter) + 4 <= usize::MAX,
        ensures
            boards_of(r@) == successors(self.board.data@, self.board.n as int),
            *final(counter) == *old(counter) + r@.len(),
            forall|k: int| 0 <= k < r@.len() ==> (#[trigger] r@[k]).extends(self, heuristic),
            forall|k: int| 0 <= k < r@.len() ==> (#[trigger] r@[k]).id == *old(counter) + k,
    {
        let blank: usize = self.board.blank_index();
        let mut out: Vec<Node> = Vec::with_capacity(4);
        assert(boards_of(out@) =~= Seq::<Seq<u8>>::empty());
        self.push_successor(heuristic, counter, blank, Direction::Right, &mut out);
        self.push_successor(heuristic, counter, blank, Direction::Down, &mut out);
        self.push_successor(heuristic, counter, blank, Direction::Left, &mut out);
        self.push_successor(heuristic, counter, blank, Direction::Up, &mut out);
        assert(boards_of(out@) =~= successors(self.board.data@, self.board.n as int));
        out
    }
}

/// Why a search ended without a solution.
#[derive(Clone, Copy, PartialEq, Eq, Structural, Debug)]
pub enum SolveError {
    /// The parity rule excludes the board; no search was made.
    Unsolvable,
    /// The frontier ran empty before a board with estimate zero came up.
    Exhausted,
    /// The search met the node limit or made as many steps as can be counted.
    LimitReached,
}

/// A solution: the boards from the start to the goal, the number of moves,
/// the number of nodes expanded, and the largest number of open and closed
/// nodes held.
#[derive(Debug)]
pub struct Solution {
    pub path: Vec<Board>,
    pub moves: usize,
    pub evaluated: usize,
    pub peak: usize,
}

/// A best-first search from one board with one source of estimates.
pub struct Solver<H: Estimator> {
    board: Board,
    heuristic: H,
    nodes: Vec<Node>,
    open_set: SortedSet,
    closed_set: BoardMap,
    expanded: Ghost<Set<usize>>,
    eval_count: usize,
    max_total_states: usize,
}

impl<H: Estimator> View for Solver<H> {
    type V = SearchView;

    closed spec fn view(&self) -> SearchView {
        SearchView {
            n: self.board.n as int,
            nodes: views_of(self.nodes@),
            queued: self.open_set@.queued.dom(),
            open: self.open_set@.alive,
            closed: self.closed_set@,
            expanded: self.expanded@,
            evaluated: self.eval_count as nat,
            peak: self.max_total_states as nat,
        }
    }
}

impl<H: Estimator> Solver<H> {
    /// The source of estimates.
    pub closed spec fn estimator(&self) -> H {
        self.heuristic
    }

    /// The board that the search starts from.
    pub closed spec fn start(&self) -> Board {
        self.board
    }

    /// The nodes generated so far.
    pub closed spec fn arena(&self) -> Seq<Node> {
        self.nodes@
    }

    /// Whether the frontier, the closed set and the nodes fit together.
    pub closed spec fn coupled(&self) -> bool {
        &&& self.board.wf()
        &&& self.open_set.wf()
        &&& self.closed_set.wf()
        &&& self.nodes@.len() >= 1
        &&& self.nodes@[0].board.data@ == self.board.data@
        &&& forall|i: int|
            0 <= i < self.nodes@.len() ==> {
                &&& (#[trigger] self.nodes@[i]).id == i
                &&& self.nodes@[i].board.wf()
                &&& self.nodes@[i].board.n == self.board.n
            }
        &&& self.open_set@.boards.dom().len() <= self.nodes@.len()
        &&& forall|id: usize| #[trigger]
            self.open_set@.boards.contains_key(id) ==> id < self.nodes@.len()
                && self.open_set@.boards[id] == self.nodes@[id as int].board.data@
        &&& forall|id: usize| #[trigger]
            self.open_set@.queued.contains_key(id) ==> self.open_set@.queued[id]
                == self.nodes@[id as int].f
    }

    /// Whether the solver stands between two steps of a sound search.
    pub closed spec fn wf(&self) -> bool {
        self.coupled() && self@.inv(self.heuristic)
    }

    /// Whether the search dropped no board so far. This holds from the start
    /// for as long as the search is not solved.
    pub closed spec fn complete(&self) -> bool {
        self@.complete(self.heuristic)
    }

    /// Between two steps the view of the solver is a sound search state: it
    /// is of the size of the start board, its root stands for the start
    /// board, and its nodes are the views of the nodes generated.
    pub proof fn lemma_sound(&self)
        requires
            self.wf(),
        ensures
            self@.inv(self.estimator()),
            self.start().wf(),
            self@.n == self.start().n,
            self@.nodes[0].tiles == self.start().data@,
            self@.nodes == views_of(self.arena()),
            forall|i: int|
                0 <= i < self.arena().len() ==> {
                    &&& (#[trigger] self.arena()[i]).id == i
                    &&& self.arena()[i].board.wf()
                    &&& self.arena()[i].board.n == self.start().n
                },
    {
    }

    /// A solver that dropped no board has a view that dropped none.
    pub proof fn lemma_complete(&self)
        requires
            self.complete(),
        ensures
            self@.complete(self.estimator()),
    {
    }

    /// A solver that is about to search from `board` with the estimates of
    /// `heuristic`: the frontier holds the root, and nothing is closed.
    pub fn from_base(board: &Board, heuristic: H) -> (s: Solver<H>)
        requires
            board.wf(),
        ensures
            s.wf(),
            s.complete(),
            s@ == SearchView::initial(board.data@, board.n as int),
            s.estimator() == heuristic,
            s.start().data@ == board.data@,
            s.start().n == board.n,
    {
        let first = Node { id: 0, board: board.duplicate(), h: 0, g: 0, f: usize::MAX, parent: None };
        let mut open_set = SortedSet::new();
        assert(!open_set@.holds(first.board.data@));
        open_set.insert(&first);
        let mut nodes: Vec<Node> = Vec::new();
        nodes.push(first);
        let s = Solver {
            board: board.duplicate(),
            heuristic,
            nodes,
            open_set,
            closed_set: BoardMap::new(),
            expanded: Ghost(Set::empty()),
            eval_count: 0,
            max_total_states: 0,
        };
        proof {
            assert(s@.nodes =~= seq![root(board.data@)]);
            assert(s@.open =~= set![0usize]);
            assert(s@.queued =~= set![0usize]);
            assert(s@.node_ok(0, heuristic));
            assert(s@.closed.dom() =~= Set::<Seq<u8>>::empty());
            assert(s@.open == set![0usize]);
            assert(s.open_set@.boards.dom() =~= set![0usize]);
        }
        s
    }

    /// Holds the generated node `c`, a child of the node `cur`, against the
    /// closed set and the frontier, and files it among the nodes.
    fn offer(&mut self, c: Node, cur: usize)
        requires
            old(self).coupled(),
            old(self)@.expanding(cur, old(self).heuristic),
            old(self).nodes@.len() <= NODE_LIMIT + 3,
            c.id == old(self).nodes@.len(),
            c.extends(&old(self).nodes@[cur as int], &old(self).heuristic),
        ensures
            final(self).coupled(),
            final(self).heuristic == old(self).heuristic,
            final(self).board == old(self).board,
            final(self).nodes@ == old(self).nodes@.push(c),
            final(self)@ == old(self)@.offer(c@),
            c@ == child(
                old(self).heuristic,
                old(self)@.n,
                old(self)@.nodes[cur as int],
                cur,
                c.board.data@,
            ),
            final(self)@.expanding(cur, final(self).heuristic),
    {
        let ghost before = self@;
        let ghost tiles = c.board.data@;
        proof {
            assert(before.nodes[cur as int] == self.nodes@[cur as int]@);
            assert(self.nodes@[cur as int].id == cur);
            assert(c@ == child(self.heuristic, before.n, before.nodes[cur as int], cur, tiles));
            lemma_offer(before, self.heuristic, cur, tiles);
            self.open_set.lemma_valid();
            assert(before.holds(tiles) == self.open_set@.holds(tiles)) by {
                if before.holds(tiles) {
                    let id = before.holder(tiles);
                    assert(self.open_set@.alive.contains(id));
                    assert(self.open_set@.boards.contains_key(id));
                }
                if self.open_set@.holds(tiles) {
                    let id = self.open_set@.holder(tiles);
                    assert(self.open_set@.boards.contains_key(id));
                    assert(before.open.contains(id) && before.nodes[id as int].tiles == tiles);
                }
            }
        }
        let mut fresh: bool = false;
        match self.closed_set.get(&c.board.data) {
            Some(settled) => {
                if c.f < self.nodes[settled].f {
                    self.closed_set.remove(&c.board.data);
                    fresh = true;
                }
                proof {
                    if self.open_set@.holds(tiles) {
                        let id = self.open_set@.holder(tiles);
                        assert(before.open.contains(id));
                    }
                }
            },
            None => {
                match self.open_set.find(&c.board) {
                    Some(queued) => {
                        proof {
                            assert(self.open_set@.boards.contains_key(queued));
                            lemma_holder_unique(before, self.heuristic, queued);
                        }
                        if c.f < self.nodes[queued].f {
                            self.open_set.remove(queued);
                            fresh = true;
                            proof {
                                if self.open_set@.holds(tiles) {
                                    let id = self.open_set@.holder(tiles);
                                    assert(before.open.contains(id) && before.open.contains(queued));
                                    assert(self.open_set@.boards.contains_key(id));
                                }
                            }
                        }
                    },
                    None => {
                        fresh = true;
                    },
                }
            },
        }
        if fresh {
            self.open_set.insert(&c);
        }
        self.nodes.push(c);
        proof {
            assert(views_of(self.nodes@) =~= before.nodes.push(c@));
            assert(self@.open =~= before.offer(c@).open);
            assert(self@.queued =~= before.offer(c@).queued);
            assert(self@.closed =~= before.offer(c@).closed);
            assert forall|id: usize| #[trigger]
                self.open_set@.boards.contains_key(id) implies id < self.nodes@.len()
                && self.open_set@.boards[id] == self.nodes@[id as int].board.data@ by {
                if id != c.id {
                    assert(old(self).open_set@.boards.contains_key(id));
                }
            }
            assert forall|id: usize| #[trigger]
                self.open_set@.queued.contains_key(id) implies self.open_set@.queued[id]
                == self.nodes@[id as int].f by {
                if id != c.id {
                    assert(old(self).open_set@.queued.contains_key(id));
                    self.open_set.lemma_valid();
                    old(self).open_set.lemma_valid();
                    assert(old(self).open_set@.boards.contains_key(id));
                }
            }
            assert forall|i: int| 0 <= i < self.nodes@.len() implies {
                &&& (#[trigger] self.nodes@[i]).id == i
                &&& self.nodes@[i].board.wf()
                &&& self.nodes@[i].board.n == self.board.n
            } by {
                if i < old(self).nodes@.len() {
                    assert(self.nodes@[i] == old(self).nodes@[i]);
                }
            }
        }
    }

    /// Makes one step of the search and tells how the search stands.
    ///
    /// With an empty frontier the search is exhausted, and beyond the node
    /// limit it is full; nothing changes then. Otherwise the first live node
    /// leaves the frontier. Where its board has estimate zero the search is
    /// solved. Else the node is expanded: its successors are generated and
    /// held against the closed set and the frontier, the peak is brought up
    /// to date, the node is closed, and the search goes on running.
    pub fn step(&mut self) -> (status: Status)
        requires
            old(self).wf(),
        ensures
            final(self).wf(),
            final(self).estimator() == old(self).estimator(),
            final(self).start() == old(self).start(),
            (final(self)@, status) == old(self)@.step(old(self).estimator()),
            old(self).complete() && !(status is Solved) ==> final(self).complete(),
            status is Solved ==> status->Solved_0 < final(self).arena().len(),
            old(self).arena().len() <= final(self).arena().len(),
            forall|i: int| 0 <= i < old(self).arena().len() ==> final(self).arena()[i] == old(self).arena()[i],
    {
        let ghost before = self@;
        proof {
            if self.complete() && !(before.step(self.heuristic).1 is Solved) {
                lemma_step_complete(before, self.heuristic);
            }
        }
        if self.open_set.len() == 0 {
            return Status::Exhausted;
        }
        if self.nodes.len() > NODE_LIMIT {
            return Status::Full;
        }
        proof {
            self.open_set.lemma_valid();
        }
        let cur: usize = self.open_set.pop();
        proof {
            assert(before.is_first(cur)) by {
                assert forall|j: usize| #[trigger] before.open.contains(j) implies precedes(
                    before.nodes[cur as int].f,
                    cur,
                    before.nodes[j as int].f,
                    j,
                ) by {
                    assert(old(self).open_set@.queued.contains_key(j));
                    assert(old(self).open_set@.queued.contains_key(cur));
                    assert(precedes(
                        old(self).open_set@.queued[cur],
                        cur,
                        old(self).open_set@.queued[j],
                        j,
                    ));
                }
            }
            lemma_first_unique(before, cur, before.first());
            lemma_take_first(before, self.heuristic, cur);
            assert(self@.queued =~= before.without(cur).queued) by {
                assert forall|j: usize| self@.queued.contains(j) == before.without(cur).queued.contains(
                    j,
                ) by {
                    if old(self).open_set@.queued.contains_key(j) {
                        assert(old(self).open_set@.queued[j] == old(self).nodes@[j as int].f);
                    }
                }
            }
            assert(self@ == before.without(cur));
            assert forall|id: usize| #[trigger]
                self.open_set@.queued.contains_key(id) implies self.open_set@.queued[id]
                == self.nodes@[id as int].f by {
                assert(old(self).open_set@.queued.contains_key(id));
            }
            assert(before.node_ok(cur as int, self.heuristic));
        }
        let ghost mid = self@;
        if self.heuristic.evaluate(&self.nodes[cur].board) == 0 {
            return Status::Solved(cur);
        }
        let mut counter: usize = self.nodes.len();
        let mut rest: Vec<Node> = self.nodes[cur].get_permutations(&self.heuristic, &mut counter);
        let ghost all = rest@;
        let ghost kids = mid.children(cur, self.heuristic);
        let ghost source = self.nodes@[cur as int];
        let ghost base = self.nodes@.len();
        proof {
            lemma_successors_exist(mid.nodes[cur as int].tiles, mid.n);
            assert(all.len() == kids.len()) by {
                assert(boards_of(all).len() == all.len());
            }
            assert(mid.offer_all(kids.take(0)) == mid);
        }
        let mut j: usize = 0;
        while rest.len() > 0
            invariant
                self.coupled(),
                self.heuristic == old(self).heuristic,
                self.board == old(self).board,
                mid == before.without(cur),
                kids == mid.children(cur, self.heuristic),
                all.len() == kids.len(),
                1 <= all.len() <= 4,
                j <= all.len(),
                rest@ == all.skip(j as int),
                base == old(self).nodes@.len(),
                base <= NODE_LIMIT,
                self.nodes@.len() == base + j,
                cur < base,
                forall|i: int| 0 <= i < base ==> self.nodes@[i] == old(self).nodes@[i],
                source == self.nodes@[cur as int],
                mid.nodes.len() == base,
                mid.n == self.board.n,
                source.board.n == self.board.n,
                source@ == mid.nodes[cur as int],
                boards_of(all) == successors(source.board.data@, source.board.n as int),
                forall|k: int| 0 <= k < all.len() ==> (#[trigger] all[k]).extends(&source, &self.heuristic),
                forall|k: int| 0 <= k < all.len() ==> (#[trigger] all[k]).id == base + k,
                self@ == mid.offer_all(kids.take(j as int)),
                self@.expanding(cur, self.heuristic),
                self@.evaluated == before.evaluated,
                before.evaluated < base,
            decreases rest.len(),
        {
            let c: Node = rest.remove(0);
            proof {
                assert(c == all[j as int]);
                assert(c.extends(&source, &self.heuristic));
                assert(boards_of(all)[j as int] == c.board.data@);
                assert(kids[j as int] == child(
                    self.heuristic,
                    mid.n,
                    mid.nodes[cur as int],
                    cur,
                    c.board.data@,
                ));
                assert(self@.nodes[cur as int] == mid.nodes[cur as int]);
                assert(kids.take(j + 1).drop_last() =~= kids.take(j as int));
                assert(kids.take(j + 1).last() == kids[j as int]);
                assert(rest@ =~= all.skip(j + 1));
            }
            self.offer(c, cur);
            j += 1;
        }
        proof {
            assert(kids.take(j as int) =~= kids);
        }
        let held: usize = self.open_set.len() + self.closed_set.len();
        if held > self.max_total_states {
            self.max_total_states = held;
        }
        let ghost after = self@;
        self.closed_set.insert(self.nodes[cur].board.data.clone(), cur);
        self.eval_count += 1;
        proof {
            self.expanded@ = self.expanded@.insert(cur);
            lemma_close(mid.offer_all(kids), self.heuristic, cur, after.peak);
            assert(self@ == mid.expand(cur, self.heuristic));
        }
        Status::Running
    }

    /// Makes at most `budget` steps of the search, up to the first that does
    /// not leave it running, and tells how the search stands.
    pub fn run(&mut self, budget: usize) -> (status: Status)
        requires
            old(self).wf(),
        ensures
            final(self).wf(),
            final(self).estimator() == old(self).estimator(),
            final(self).start() == old(self).start(),
            (final(self)@, status) == old(self)@.run(old(self).estimator(), budget as nat),
            old(self).complete() && !(status is Solved) ==> final(self).complete(),
            status is Solved ==> status->Solved_0 < final(self).arena().len(),
    {
        let mut left: usize = budget;
        while left > 0
            invariant
                self.wf(),
                old(self).complete() ==> self.complete(),
                self.heuristic == old(self).heuristic,
                self.board == old(self).board,
                old(self)@.run(self.heuristic, budget as nat) == self@.run(self.heuristic, left as nat),
            decreases left,
        {
            let status = self.step();
            if status != Status::Running {
                return status;
            }
            left -= 1;
        }
        Status::Running
    }

    /// The identities of the nodes from the root to the node `id`, along the
    /// parent links.
    pub fn rewind_steps(&self, id: usize) -> (steps: Vec<usize>)
        requires
            self.wf(),
            id < self.arena().len(),
        ensures
            steps@ == trail(self@.nodes, id),
            steps@.len() == self.arena()[id as int].g + 1,
            forall|k: int| 0 <= k < steps@.len() ==> (#[trigger] steps@[k]) < self.arena().len(),
    {
        let mut steps: Vec<usize> = Vec::new();
        let mut at: usize = id;
        proof {
            lemma_trail(self@, self.heuristic, id);
        }
        loop
            invariant_except_break
                trail(self@.nodes, id) == trail(self@.nodes, at) + steps@,
            invariant
                self.coupled(),
                self@.shape(self.heuristic),
                at < self.nodes@.len(),
                id < self.nodes@.len(),
            ensures
                steps@ == trail(self@.nodes, id),
            decreases at,
        {
            proof {
                assert(self@.node_ok(at as int, self.heuristic));
                assert(self@.nodes[at as int].parent == self.nodes@[at as int].parent);
            }
            let ghost was = steps@;
            steps.insert(0, at);
            match self.nodes[at].parent {
                Some(p) => {
                    proof {
                        assert(trail(self@.nodes, at) == trail(self@.nodes, p).push(at));
                        assert(trail(self@.nodes, p).push(at) + was =~= trail(self@.nodes, p) + steps@);
                    }
                    at = p;
                },
                None => {
                    proof {
                        assert(trail(self@.nodes, at) == seq![at]);
                        assert(seq![at] + was =~= steps@);
                    }
                    break ;
                },
            }
        }
        steps
    }

    /// The boards of the nodes from the root to the node `id`.
    pub fn path_to(&self, id: usize) -> (path: Vec<Board>)
        requires
            self.wf(),
            id < self.arena().len(),
        ensures
            tiles_of(path@) == tiles_along(self@.nodes, trail(self@.nodes, id)),
            path@.len() == self.arena()[id as int].g + 1,
            forall|k: int| 0 <= k < path@.len() ==> (#[trigger] path@[k]).wf(),
    {
        let steps: Vec<usize> = self.rewind_steps(id);
        let mut path: Vec<Board> = Vec::with_capacity(steps.len());
        let mut k: usize = 0;
        while k < steps.len()
            invariant
                self.wf(),
                k <= steps@.len(),
                path@.len() == k,
                forall|j: int| 0 <= j < steps@.len() ==> (#[trigger] steps@[j]) < self.nodes@.len(),
                forall|j: int| 0 <= j < k ==> (#[trigger] path@[j]).wf(),
                forall|j: int|
                    0 <= j < k ==> (#[trigger] path@[j]).data@ == self.nodes@[steps@[j] as int].board.data@,
            decreases steps@.len() - k,
        {
            let at: usize = steps[k];
            path.push(self.nodes[at].board.duplicate());
            k += 1;
        }
        assert(tiles_of(path@) =~= tiles_along(self@.nodes, steps@));
        path
    }

    /// Searches from the start board until the search is solved, exhausted or
    /// out of room.
    ///
    /// A board that the parity rule excludes is reported as unsolvable, and
    /// no step is made. Otherwise steps are made up to the first that does
    /// not leave the search running. A solved search is answered with the
    /// boards from the start to the board reached, the number of moves, and
    /// the counters; an exhausted one and one out of room with their error.
    ///
    /// Where the search was not solved before, a solution found with an
    /// admissible estimate is a shortest one, and an exhausted search shows
    /// that no way leads from the start to a board with estimate zero.
    pub fn solve(&mut self) -> (r: Result<Solution, SolveError>)
        requires
            old(self).wf(),
        ensures
            final(self).wf(),
            final(self).estimator() == old(self).estimator(),
            final(self).start() == old(self).start(),
            !solvable(old(self).start().data@, old(self).start().n as int) ==> {
                &&& r == Err::<Solution, SolveError>(SolveError::Unsolvable)
                &&& final(self)@ == old(self)@
            },
            solvable(old(self).start().data@, old(self).start().n as int) ==> {
                &&& final(self)@ == old(self)@.run(old(self).estimator(), usize::MAX as nat).0
                &&& match old(self)@.run(old(self).estimator(), usize::MAX as nat).1 {
                    Status::Solved(id) => {
                        &&& r is Ok
                        &&& tiles_of(r->Ok_0.path@) == tiles_along(
                            final(self)@.nodes,
                            trail(final(self)@.nodes, id),
                        )
                        &&& r->Ok_0.path@[0].data@ == old(self).start().data@
                        &&& old(self).estimator().value(
                            r->Ok_0.path@.last().data@,
                            old(self).start().n as int,
                        ) == 0
                        &&& forall|k: int|
                            0 <= k < r->Ok_0.path@.len() - 1 ==> is_move(
                                old(self).start().n as int,
                                (#[trigger] r->Ok_0.path@[k]).data@,
                                r->Ok_0.path@[k + 1].data@,
                            )
                        &&& forall|k: int|
                            0 <= k < r->Ok_0.path@.len() ==> (#[trigger] r->Ok_0.path@[k]).wf()
                        &&& r->Ok_0.moves == final(self)@.nodes[id as int].g
                        &&& r->Ok_0.path@.len() == r->Ok_0.moves + 1
                        &&& r->Ok_0.evaluated == final(self)@.evaluated
                        &&& r->Ok_0.peak == final(self)@.peak
                    },
                    Status::Exhausted => r == Err::<Solution, SolveError>(SolveError::Exhausted),
                    _ => r == Err::<Solution, SolveError>(SolveError::LimitReached),
                }
            },
            r is Ok && old(self).complete() && admissible(
                old(self).estimator(),
                old(self).start().n as int,
            ) ==> forall|way: Seq<Seq<u8>>| #[trigger]
                is_solution(
                    way,
                    old(self).start().data@,
                    old(self).start().n as int,
                    old(self).estimator(),
                ) ==> r->Ok_0.moves <= way.len() - 1,
            r == Err::<Solution, SolveError>(SolveError::Exhausted) && old(self).complete()
                ==> forall|way: Seq<Seq<u8>>|
                !#[trigger] is_solution(
                    way,
                    old(self).start().data@,
                    old(self).start().n as int,
                    old(self).estimator(),
                ),
    {
        if !self.is_solvable() {
            return Err(SolveError::Unsolvable);
        }
        match self.run(usize::MAX) {
            Status::Solved(id) => {
                let path: Vec<Board> = self.path_to(id);
                proof {
                    if old(self).complete() && admissible(self.heuristic, self.board.n as int) {
                        assert forall|way: Seq<Seq<u8>>| #[trigger]
                            is_solution(
                                way,
                                self.board.data@,
                                self.board.n as int,
                                self.heuristic,
                            ) implies self.nodes@[id as int].g <= way.len() - 1 by {
                            lemma_run_shortest(old(self)@, self.heuristic, usize::MAX as nat, way);
                        }
                    }
                    {
                        lemma_solution_path(old(self)@, self.heuristic, usize::MAX as nat);
                        let along = tiles_along(self@.nodes, trail(self@.nodes, id));
                        assert forall|k: int| 0 <= k < path@.len() - 1 implies is_move(
                            self.board.n as int,
                            (#[trigger] path@[k]).data@,
                            path@[k + 1].data@,
                        ) by {
                            assert(tiles_of(path@)[k] == along[k]);
                            assert(tiles_of(path@)[k + 1] == along[k + 1]);
                            assert(is_move(self.board.n as int, along[k], along[k + 1]));
                        }
                        assert(tiles_of(path@)[0] == along[0]);
                        assert(tiles_of(path@).last() == along.last());
                    }
                }
                Ok(
                    Solution {
                        path,
                        moves: self.nodes[id].g,
                        evaluated: self.eval_count,
                        peak: self.max_total_states,
                    },
                )
            },
            Status::Exhausted => {
                proof {
                    if old(self).complete() {
                        assert forall|way: Seq<Seq<u8>>|
                            !#[trigger] is_solution(
                                way,
                                self.board.data@,
                                self.board.n as int,
                                self.heuristic,
                            ) by {
                            lemma_run_exhausted(old(self)@, self.heuristic, usize::MAX as nat, way);
                        }
                    }
                }
                Err(SolveError::Exhausted)
            },
            _ => Err(SolveError::LimitReached),
        }
    }

    /// The number of nodes expanded so far.
    pub fn eval_count(&self) -> (r: usize)
        ensures
            r == self@.evaluated,
    {
        self.eval_count
    }

    /// The largest number of open and closed nodes held after an expansion.
    pub fn max_total_states(&self) -> (r: usize)
        ensures
            r == self@.peak,
    {
        self.max_total_states
    }

    /// The number of live nodes in the frontier.
    pub fn open_len(&self) -> (r: usize)
        requires
            self.wf(),
        ensures
            r == self@.open.len(),
    {
        self.open_set.len()
    }

    /// The number of closed boards.
    pub fn closed_len(&self) -> (r: usize)
        requires
            self.wf(),
        ensures
            r == self@.closed.dom().len(),
    {
        self.closed_set.len()
    }

    /// The number of nodes that the frontier's priority structure holds,
    /// tombstones included.
    pub fn open_sorted_len(&self) -> (r: usize)
        requires
            self.wf(),
        ensures
            r == self@.queued.len(),
    {
        self.open_set.sorted_len()
    }

    /// The number of tombstones in the frontier's priority structure.
    pub fn open_deleted_len(&self) -> (r: usize)
        requires
            self.wf(),
        ensures
            r == self@.queued.len() - self@.open.len(),
    {
        self.open_set.deleted_len()
    }

    /// The identity of the live frontier node that stands for `board`, if
    /// there is one.
    pub fn open_find(&self, board: &Board) -> (r: Option<usize>)
        requires
            self.wf(),
        ensures
            r.is_some() == self@.holds(board.data@),
            r.is_some() ==> r.unwrap() == self@.holder(board.data@),
    {
        let r = self.open_set.find(board);
        proof {
            let tiles = board.data@;
            self.open_set.lemma_valid();
            if self@.holds(tiles) {
                let id = self@.holder(tiles);
                assert(self.open_set@.alive.contains(id));
                assert(self.open_set@.boards.contains_key(id));
                assert(self.open_set@.boards[id] == tiles);
            }
            if r.is_some() {
                assert(self.open_set@.boards.contains_key(r.unwrap()));
                lemma_holder_unique(self@, self.heuristic, r.unwrap());
            }
        }
        r
    }

    /// The identity of the node that closed `board`, if the board is closed.
    pub fn closed_find(&self, board: &Board) -> (r: Option<usize>)
        requires
            self.wf(),
        ensures
            r == if self@.closed.contains_key(board.data@) {
                Some(self@.closed[board.data@])
            } else {
                None
            },
    {
        self.closed_set.get(&board.data)
    }

    /// The node with identity `id`.
    pub fn node(&self, id: usize) -> (r: &Node)
        requires
            id < self.arena().len(),
        ensures
            *r == self.arena()[id as int],
            self.wf() ==> {
                &&& r@ == self@.nodes[id as int]
                &&& r.id == id
                &&& r.board.wf()
                &&& r.board.n == self.start().n
            },
    {
        &self.nodes[id]
    }

    /// The number of nodes generated so far.
    pub fn node_count(&self) -> (r: usize)
        ensures
            r == self.arena().len(),
            self.wf() ==> r == self@.nodes.len(),
    {
        self.nodes.len()
    }

    /// The number of inversions of the start board.
    pub fn get_inversion_count(&self) -> (count: i32)
        requires
            self.wf(),
        ensures
            count == inversions(self.start().data@),
    {
        let len: usize = self.board.data.len();
        let mut count: i32 = 0;
        let mut i: usize = 0;
        assert(len <= 256) by (nonlinear_arith)
            requires
                len == self.board.n * self.board.n,
                self.board.n <= 16,
        ;
        while i < len
            invariant
                len == self.board.data.len(),
                len <= 256,
                i <= len,
                count == inversions_upto(self.board.data@, i as int),
            decreases len - i,
        {
            let mut j: usize = i + 1;
            let mut row: i32 = 0;
            while j < len
                invariant
                    len == self.board.data.len(),
                    len <= 256,
                    i < len,
                    i + 1 <= j <= len,
                    row == inversions_of(self.board.data@, i as int, j as int),
                    0 <= row <= j - i - 1,
                decreases len - j,
            {
                proof {
                    lemma_below_bound(self.board.data@, self.board.data@[i as int], i + 1, j as int);
                }
                if self.board.data[i] != 0 && self.board.data[j] != 0 && self.board.data[i]
                    > self.board.data[j] {
                    row += 1;
                }
                j += 1;
            }
            proof {
                lemma_inversions_bound(self.board.data@, i as int);
                assert(i * len <= 256 * 256) by (nonlinear_arith)
                    requires
                        i <= 256,
                        len <= 256,
                ;
            }
            count += row;
            i += 1;
        }
        count
    }

    /// Whether the parity rule admits the start board.
    pub fn is_solvable(&self) -> (r: bool)
        requires
            self.wf(),
        ensures
            r == solvable(self.start().data@, self.start().n as int),
    {
        let inversions: i32 = self.get_inversion_count();
        proof {
            lemma_inversions_bound(self.board.data@, self.board.data@.len() as int);
        }
        if self.board.n % 2 == 1 {
            inversions % 2 == 1
        } else {
            let empty_idx: usize = self.board.blank_index();
            let pos = Position::from_u64(empty_idx, self.board.n);
            if pos.x % 2 == 0 {
                inversions % 2 == 1
            } else {
                inversions % 2 == 0
            }
        }
    }
}

} // verus!
