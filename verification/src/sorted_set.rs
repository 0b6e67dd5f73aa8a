//! The frontier of the search: queued nodes ordered by cost, found by board,
//! and retired without being taken out of the queue.

use vstd::prelude::*;
use std::collections::HashSet;
use crate::board::Board;
use crate::board_map::BoardMap;
use crate::queue::{MinQueue, precedes};
use crate::solver::Node;

verus! {

/// What a frontier holds.
pub struct FrontierView {
    /// The board of every identity that was ever inserted.
    pub boards: Map<usize, Seq<u8>>,
    /// The cost of every identity that the priority structure still holds.
    pub queued: Map<usize, usize>,
    /// The queued identities that are not tombstoned.
    pub alive: Set<usize>,
}

impl FrontierView {
    /// Whether the live identities are queued, the queued ones known, and no
    /// two live identities stand for the same board.
    pub open spec fn valid(self) -> bool {
        &&& self.alive.finite()
        &&& self.queued.dom().finite()
        &&& self.boards.dom().finite()
        &&& self.alive.subset_of(self.queued.dom())
        &&& self.queued.dom().subset_of(self.boards.dom())
        &&& forall|a: usize, b: usize|
            self.alive.contains(a) && self.alive.contains(b) && a != b ==> self.boards[a]
                != self.boards[b]
    }

    /// Whether some live identity stands for the board `tiles`.
    pub open spec fn holds(self, tiles: Seq<u8>) -> bool {
        exists|id: usize| self.alive.contains(id) && self.boards[id] == tiles
    }

    /// The live identity that stands for the board `tiles`.
    pub open spec fn holder(self, tiles: Seq<u8>) -> usize {
        choose|id: usize| self.alive.contains(id) && self.boards[id] == tiles
    }

    /// Whether `id` is the live identity that precedes all live identities.
    pub open spec fn is_first(self, id: usize) -> bool {
        &&& self.alive.contains(id)
        &&& forall|j: usize|
            self.alive.contains(j) ==> precedes(self.queued[id], id, #[trigger] self.queued[j], j)
    }

    /// The queued costs that are left when every entry up to and including
    /// `id` has been taken out.
    pub open spec fn drained(self, id: usize) -> Map<usize, usize> {
        Map::new(
            |j: usize| self.queued.contains_key(j) && !precedes(self.queued[j], j, self.queued[id], id),
            |j: usize| self.queued[j],
        )
    }
}

/// The open set of the search.
///
/// A node is inserted once. It stays live until it is popped or removed; a
/// removed node stays in the priority structure as a tombstone until a pop
/// passes over it.
pub struct SortedSet {
    sorted: MinQueue,
    store: BoardMap,
    alive: HashSet<usize>,
    boards: Ghost<Map<usize, Seq<u8>>>,
}

impl View for SortedSet {
    type V = FrontierView;

    closed spec fn view(&self) -> FrontierView {
        FrontierView { boards: self.boards@, queued: self.sorted@, alive: self.alive@ }
    }
}

impl SortedSet {
    /// Whether the lookup table leads from the board of every live identity
    /// to that identity.
    pub closed spec fn linked(&self) -> bool {
        &&& self.sorted.wf()
        &&& self.store.wf()
        &&& self.store@.dom().len() <= self.boards@.dom().len()
        &&& forall|id: usize| #[trigger]
            self.alive@.contains(id) ==> self.store@.contains_key(self.boards@[id])
                && self.store@[self.boards@[id]] == id
        &&& forall|t: Seq<u8>| #[trigger]
            self.store@.contains_key(t) ==> self.boards@.contains_key(self.store@[t])
                && self.boards@[self.store@[t]] == t
    }

    /// Whether the frontier is consistent.
    pub open spec fn wf(&self) -> bool {
        self.linked() && self@.valid()
    }

    /// A consistent frontier has a valid view.
    pub proof fn lemma_valid(&self)
        requires
            self.wf(),
        ensures
            self@.valid(),
    {
    }

    /// The empty frontier.
    pub fn new() -> (s: SortedSet)
        ensures
            s.wf(),
            s@.boards == Map::<usize, Seq<u8>>::empty(),
            s@.queued == Map::<usize, usize>::empty(),
            s@.alive == Set::<usize>::empty(),
    {
        SortedSet {
            sorted: MinQueue::new(),
            store: BoardMap::new(),
            alive: HashSet::new(),
            boards: Ghost(Map::empty()),
        }
    }

    /// Queues the node `n` and makes it the live node of its board. A node
    /// that was live for the same board becomes a tombstone.
    pub fn insert(&mut self, n: &Node)
        requires
            old(self).wf(),
            !old(self)@.boards.contains_key(n.id),
            old(self)@.boards.dom().len() < usize::MAX,
        ensures
            final(self).wf(),
            final(self)@.boards == old(self)@.boards.insert(n.id, n.board.data@),
            final(self)@.queued == old(self)@.queued.insert(n.id, n.f),
            final(self)@.alive == if old(self)@.holds(n.board.data@) {
                old(self)@.alive.remove(old(self)@.holder(n.board.data@)).insert(n.id)
            } else {
                old(self)@.alive.insert(n.id)
            },
    {
        broadcast use vstd::std_specs::hash::group_hash_axioms;

        let ghost tiles = n.board.data@;
        let ghost start = self@;
        match self.store.get(&n.board.data) {
            Some(held) => {
                self.alive.remove(&held);
                proof {
                    if start.holds(tiles) {
                        let h = start.holder(tiles);
                        assert(start.alive.contains(h) && start.boards[h] == tiles);
                        assert(old(self).store@[old(self).boards@[h]] == h);
                    } else if start.alive.contains(held) {
                        assert(start.boards[held] == tiles);
                    }
                }
            },
            None => {
                proof {
                    if start.holds(tiles) {
                        let h = start.holder(tiles);
                        assert(start.alive.contains(h) && start.boards[h] == tiles);
                        assert(old(self).store@.contains_key(old(self).boards@[h]));
                    }
                }
            },
        }
        let ghost kept = self.alive@;
        assert forall|id: usize| kept.contains(id) implies start.alive.contains(id)
            && start.boards[id] != tiles by {
            assert(start.alive.contains(id));
            if start.boards[id] == tiles {
                assert(old(self).store@[old(self).boards@[id]] == id);
            }
        }
        self.sorted.push(n.f, n.id);
        self.store.insert(n.board.data.clone(), n.id);
        self.alive.insert(n.id);
        proof {
            self.boards@ = self.boards@.insert(n.id, tiles);
            assert forall|id: usize| #[trigger] self.alive@.contains(id) implies self.store@.contains_key(
                self.boards@[id],
            ) && self.store@[self.boards@[id]] == id by {
                if id != n.id {
                    assert(kept.contains(id));
                    assert(old(self).alive@.contains(id));
                }
            }
            assert forall|t: Seq<u8>| #[trigger] self.store@.contains_key(t) implies self.boards@.contains_key(
                self.store@[t],
            ) && self.boards@[self.store@[t]] == t by {
                if t != tiles {
                    assert(old(self).store@.contains_key(t));
                }
            }
            assert forall|a: usize, b: usize|
                self.alive@.contains(a) && self.alive@.contains(b) && a != b implies self.boards@[a]
                != self.boards@[b] by {
                if a != n.id {
                    assert(kept.contains(a));
                }
                if b != n.id {
                    assert(kept.contains(b));
                }
            }
            assert(self@.alive.subset_of(self@.queued.dom())) by {
                assert forall|id: usize| self@.alive.contains(id) implies self@.queued.dom().contains(
                    id,
                ) by {
                    if id != n.id {
                        assert(kept.contains(id));
                        assert(start.queued.dom().contains(id));
                    }
                }
            }
            self.sorted.lemma_finite();
            self.store.lemma_finite();
            old(self).store.lemma_finite();
        }
    }

    /// Takes out the live node that precedes all live nodes and returns its
    /// identity. Tombstones that come before it leave the priority structure.
    pub fn pop(&mut self) -> (r: usize)
        requires
            old(self).wf(),
            old(self)@.alive.len() > 0,
        ensures
            final(self).wf(),
            old(self)@.is_first(r),
            final(self)@.alive == old(self)@.alive.remove(r),
            final(self)@.boards == old(self)@.boards,
            final(self)@.queued == old(self)@.drained(r),
    {
        broadcast use vstd::std_specs::hash::group_hash_axioms;

        let ghost start = self@;
        loop
            invariant
                self.sorted.wf(),
                self.store == old(self).store,
                self.boards == old(self).boards,
                self.alive@ == old(self).alive@,
                start == old(self)@,
                old(self).wf(),
                start.alive.len() > 0,
                forall|id: usize| #[trigger]
                    self.sorted@.contains_key(id) ==> start.queued.contains_key(id)
                        && start.queued[id] == self.sorted@[id],
                forall|id: usize|
                    start.queued.contains_key(id) && !self.sorted@.contains_key(id)
                        ==> !start.alive.contains(id),
                forall|id: usize, j: usize|
                    start.queued.contains_key(id) && !self.sorted@.contains_key(id)
                        && #[trigger] self.sorted@.contains_key(j) ==> precedes(
                        #[trigger] start.queued[id],
                        id,
                        start.queued[j],
                        j,
                    ),
            decreases self.sorted@.dom().len(),
        {
            let ghost before = self.sorted@;
            proof {
                self.sorted.lemma_finite();
                let w = start.alive.choose();
                assert(start.alive.contains(w));
                assert(start.queued.contains_key(w));
                assert(before.contains_key(w));
                assert(before.dom().contains(w));
            }
            let (f, id) = self.sorted.pop_min();
            assert(before.dom().contains(id));
            assert(start.queued.contains_key(id) && start.queued[id] == f);
            if self.alive.remove(&id) {
                proof {
                    assert forall|j: usize| start.alive.contains(j) implies precedes(
                        start.queued[id],
                        id,
                        #[trigger] start.queued[j],
                        j,
                    ) by {
                        assert(start.queued.contains_key(j));
                        assert(before.contains_key(j));
                        assert(before[j] == start.queued[j]);
                    }
                    assert(self.sorted@ =~= start.drained(id)) by {
                        assert forall|j: usize| self.sorted@.contains_key(j) implies start.drained(
                            id,
                        ).contains_key(j) && start.drained(id)[j] == self.sorted@[j] by {
                            assert(before.contains_key(j));
                            assert(before[j] == start.queued[j]);
                            assert(precedes(f, id, before[j], j));
                        }
                        assert forall|j: usize| start.drained(id).contains_key(j) implies self.sorted@.contains_key(
                        j) by {
                            if !before.contains_key(j) {
                                assert(precedes(start.queued[j], j, start.queued[id], id));
                            }
                        }
                    }
                    assert forall|i: usize| #[trigger] self.alive@.contains(i) implies self.store@.contains_key(
                        self.boards@[i],
                    ) && self.store@[self.boards@[i]] == i by {
                        assert(old(self).alive@.contains(i));
                    }
                    assert(self@.alive.subset_of(self@.queued.dom())) by {
                        assert forall|i: usize| self@.alive.contains(i) implies self@.queued.dom().contains(
                        i) by {
                            assert(start.alive.contains(i));
                            assert(start.queued.contains_key(i));
                            assert(before.contains_key(i));
                        }
                    }
                    assert(self@.queued.dom().subset_of(self@.boards.dom())) by {
                        assert forall|i: usize| self@.queued.dom().contains(i) implies self@.boards.dom().contains(
                        i) by {
                            assert(before.contains_key(i));
                            assert(start.queued.dom().contains(i));
                        }
                    }
                    self.sorted.lemma_finite();
                }
                return id;
            }
            proof {
                assert forall|i: usize, j: usize|
                    start.queued.contains_key(i) && !self.sorted@.contains_key(i)
                        && #[trigger] self.sorted@.contains_key(j) implies precedes(
                    #[trigger] start.queued[i],
                    i,
                    start.queued[j],
                    j,
                ) by {
                    assert(before.contains_key(j));
                    assert(before[j] == start.queued[j]);
                    assert(precedes(f, id, before[j], j));
                    if i != id {
                        assert(!before.contains_key(i));
                    }
                }
            }
        }
    }

    /// Tombstones the identity `id`: it is no longer live, and stays in the
    /// priority structure.
    pub fn remove(&mut self, id: usize)
        requires
            old(self).wf(),
        ensures
            final(self).wf(),
            final(self)@.alive == old(self)@.alive.remove(id),
            final(self)@.boards == old(self)@.boards,
            final(self)@.queued == old(self)@.queued,
    {
        broadcast use vstd::std_specs::hash::group_hash_axioms;

        self.alive.remove(&id);
        proof {
            assert forall|i: usize| #[trigger] self.alive@.contains(i) implies self.store@.contains_key(
                self.boards@[i],
            ) && self.store@[self.boards@[i]] == i by {
                assert(old(self).alive@.contains(i));
            }
        }
    }

    /// The identity of the live node that stands for `board`, if there is
    /// one.
    pub fn find(&self, board: &Board) -> (r: Option<usize>)
        requires
            self.wf(),
        ensures
            r.is_some() == self@.holds(board.data@),
            r.is_some() ==> r.unwrap() == self@.holder(board.data@),
            r.is_some() ==> self@.alive.contains(r.unwrap()) && self@.boards[r.unwrap()] == board.data@,
    {
        broadcast use vstd::std_specs::hash::group_hash_axioms;

        match self.store.get(&board.data) {
            Some(id) => {
                if self.alive.contains(&id) {
                    Some(id)
                } else {
                    assert(!self@.holds(board.data@));
                    None
                }
            },
            None => None,
        }
    }

    /// The number of live nodes.
    pub fn len(&self) -> (r: usize)
        requires
            self.wf(),
        ensures
            r == self@.alive.len(),
    {
        broadcast use vstd::std_specs::hash::group_hash_axioms;

        self.alive.len()
    }

    /// The number of nodes in the priority structure, tombstones included.
    pub fn sorted_len(&self) -> (r: usize)
        requires
            self.wf(),
        ensures
            r == self@.queued.dom().len(),
    {
        self.sorted.len()
    }

    /// The number of tombstones in the priority structure.
    pub fn deleted_len(&self) -> (r: usize)
        requires
            self.wf(),
        ensures
            r == self@.queued.dom().len() - self@.alive.len(),
    {
        broadcast use vstd::std_specs::hash::group_hash_axioms;

        proof {
            vstd::set_lib::lemma_len_subset(self@.alive, self@.queued.dom());
        }
        self.sorted.len() - self.alive.len()
    }

    /// Empties the priority structure: no node is queued or live afterwards.
    pub fn clear_1(&mut self)
        requires
            old(self).wf(),
        ensures
            final(self).wf(),
            final(self)@.alive == Set::<usize>::empty(),
            final(self)@.queued == Map::<usize, usize>::empty(),
            final(self)@.boards == old(self)@.boards,
    {
        self.alive.clear();
        self.sorted.clear();
    }
}

} // verus!
