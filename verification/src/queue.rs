//! A priority queue of identities ordered by cost.

use vstd::prelude::*;

verus! {

/// Whether the entry with cost `f` and identity `id` comes out no later than
/// the entry with cost `g` and identity `jd`: lower cost first, and among
/// equal costs the lower identity.
pub open spec fn precedes(f: usize, id: usize, g: usize, jd: usize) -> bool {
    f < g || (f == g && id <= jd)
}

/// Whether the entry `a` comes out no later than the entry `b`; an entry is
/// a cost and an identity.
spec fn before(a: (usize, usize), b: (usize, usize)) -> bool {
    precedes(a.0, a.1, b.0, b.1)
}

/// Whether `items` holds the entries of `model`, each once.
#[verifier::opaque]
spec fn stores(items: Seq<(usize, usize)>, model: Map<usize, usize>) -> bool {
    &&& model.dom().finite()
    &&& model.dom().len() == items.len()
    &&& forall|k: int|
        0 <= k < items.len() ==> model.contains_key((#[trigger] items[k]).1) && model[items[k].1]
            == items[k].0
    &&& forall|id: usize|
        model.contains_key(id) ==> exists|k: int| 0 <= k < items.len() && (#[trigger] items[k]).1 == id
    &&& forall|j: int, k: int|
        0 <= j < k < items.len() ==> (#[trigger] items[j]).1 != (#[trigger] items[k]).1
}

/// Whether every entry but the one at `skip` comes out no earlier than the
/// entry above it in the heap, and the entries below `skip` no earlier than
/// the entry above `skip`.
#[verifier::opaque]
spec fn sifting_up(items: Seq<(usize, usize)>, skip: int) -> bool {
    &&& forall|j: int| 1 <= j < items.len() && j != skip ==> before(items[(j - 1) / 2], #[trigger] items[j])
    &&& forall|j: int|
        1 <= j < items.len() && (j - 1) / 2 == skip && skip >= 1 ==> before(
            items[(skip - 1) / 2],
            #[trigger] items[j],
        )
}

/// Whether every entry but those right below `skip` comes out no earlier
/// than the entry above it in the heap, and those right below `skip` no
/// earlier than the entry above `skip`.
#[verifier::opaque]
spec fn sifting_down(items: Seq<(usize, usize)>, skip: int) -> bool {
    &&& forall|j: int|
        1 <= j < items.len() && (j - 1) / 2 != skip ==> before(items[(j - 1) / 2], #[trigger] items[j])
    &&& forall|j: int|
        1 <= j < items.len() && (j - 1) / 2 == skip && skip >= 1 ==> before(
            items[(skip - 1) / 2],
            #[trigger] items[j],
        )
}

/// Whether every entry comes out no earlier than the entry above it in the
/// heap.
#[verifier::opaque]
spec fn heaped(items: Seq<(usize, usize)>) -> bool {
    forall|j: int| 1 <= j < items.len() ==> before(items[(j - 1) / 2], #[trigger] items[j])
}

/// `items` with the entries at `a` and `b` exchanged.
spec fn exchanged(items: Seq<(usize, usize)>, a: int, b: int) -> Seq<(usize, usize)> {
    items.update(a, items[b]).update(b, items[a])
}

/// The top of a heap comes out no later than any entry.
proof fn lemma_top_first(items: Seq<(usize, usize)>, k: int)
    requires
        heaped(items),
        0 <= k < items.len(),
    ensures
        before(items[0], items[k]),
    decreases k,
{
    reveal(heaped);
    if k > 0 {
        lemma_top_first(items, (k - 1) / 2);
        assert(before(items[(k - 1) / 2], items[k]));
    }
}

/// Exchanging two entries leaves the stored entries what they are.
proof fn lemma_exchange(items: Seq<(usize, usize)>, model: Map<usize, usize>, a: int, b: int)
    requires
        stores(items, model),
        0 <= a < items.len(),
        0 <= b < items.len(),
    ensures
        stores(exchanged(items, a, b), model),
{
    reveal(stores);
    let next = exchanged(items, a, b);
    let back = |k: int|
        if k == a {
            b
        } else if k == b {
            a
        } else {
            k
        };
    assert forall|k: int| 0 <= k < next.len() implies next[k] == items[back(k)] by {}
    assert forall|k: int| 0 <= k < next.len() implies model.contains_key((#[trigger] next[k]).1)
        && model[next[k].1] == next[k].0 by {
        assert(next[k] == items[back(k)]);
    }
    assert forall|id: usize| model.contains_key(id) implies exists|k: int|
        0 <= k < next.len() && (#[trigger] next[k]).1 == id by {
        let k = choose|k: int| 0 <= k < items.len() && (#[trigger] items[k]).1 == id;
        assert(next[back(k)].1 == id);
    }
    assert forall|j: int, k: int| 0 <= j < k < next.len() implies (#[trigger] next[j]).1 != (
    #[trigger] next[k]).1 by {
        let p = back(j);
        let q = back(k);
        assert(next[j] == items[p] && next[k] == items[q]);
        if p < q {
            assert(items[p].1 != items[q].1);
        } else {
            assert(items[q].1 != items[p].1);
        }
    }
}

/// A new entry at the end of a heap is the one entry that may stand too low.
proof fn lemma_append(items: Seq<(usize, usize)>, model: Map<usize, usize>, f: usize, id: usize)
    requires
        stores(items, model),
        heaped(items),
        !model.contains_key(id),
    ensures
        stores(items.push((f, id)), model.insert(id, f)),
        sifting_up(items.push((f, id)), items.len() as int),
{
    reveal(stores);
    reveal(heaped);
    reveal(sifting_up);
    let next = items.push((f, id));
    let grown = model.insert(id, f);
    let last = items.len() as int;
    assert forall|jd: usize| grown.contains_key(jd) implies exists|k: int|
        0 <= k < next.len() && (#[trigger] next[k]).1 == jd by {
        if jd == id {
            assert(next[last].1 == jd);
        } else {
            let k = choose|k: int| 0 <= k < items.len() && (#[trigger] items[k]).1 == jd;
            assert(next[k].1 == jd);
        }
    }
    assert forall|k: int| 0 <= k < next.len() implies grown.contains_key((#[trigger] next[k]).1)
        && grown[next[k].1] == next[k].0 by {
        if k < last {
            assert(next[k] == items[k]);
        }
    }
    assert forall|j: int, k: int| 0 <= j < k < next.len() implies (#[trigger] next[j]).1 != (
    #[trigger] next[k]).1 by {
        assert(next[j] == items[j]);
        if k < last {
            assert(next[k] == items[k]);
        }
    }
    assert forall|j: int| 1 <= j < next.len() && j != last implies before(
        next[(j - 1) / 2],
        #[trigger] next[j],
    ) by {
        assert(next[j] == items[j]);
        assert(before(items[(j - 1) / 2], items[j]));
    }
}

/// Lifting an entry that comes out before the entry above it moves the one
/// place that may be out of order up.
proof fn lemma_lift(was: Seq<(usize, usize)>, k: int)
    requires
        1 <= k < was.len(),
        sifting_up(was, k),
        !before(was[(k - 1) / 2], was[k]),
    ensures
        sifting_up(exchanged(was, k, (k - 1) / 2), (k - 1) / 2),
{
    reveal(sifting_up);
    let above = (k - 1) / 2;
    let now = exchanged(was, k, above);
    assert forall|j: int| 1 <= j < now.len() && j != above implies before(
        now[(j - 1) / 2],
        #[trigger] now[j],
    ) by {
        if j == k {
        } else if (j - 1) / 2 == above {
            assert(before(was[above], was[j]));
        } else if (j - 1) / 2 == k {
            assert(before(was[(k - 1) / 2], was[j]));
        } else {
            assert(before(was[(j - 1) / 2], was[j]));
        }
    }
    assert forall|j: int| 1 <= j < now.len() && (j - 1) / 2 == above && above >= 1 implies before(
        now[(above - 1) / 2],
        #[trigger] now[j],
    ) by {
        assert(before(was[(above - 1) / 2], was[above]));
        if j != k {
            assert(before(was[above], was[j]));
        }
    }
}

/// An entry that stands at the top, or no earlier than the entry above it,
/// completes the heap.
proof fn lemma_lifted(items: Seq<(usize, usize)>, k: int)
    requires
        0 <= k < items.len(),
        sifting_up(items, k),
        k == 0 || before(items[(k - 1) / 2], items[k]),
    ensures
        heaped(items),
{
    reveal(sifting_up);
    reveal(heaped);
}

/// With the last entry in the place of the top, the entries right below the
/// top are the only ones that may be out of order.
proof fn lemma_remove_top(start: Seq<(usize, usize)>, model: Map<usize, usize>)
    requires
        stores(start, model),
        heaped(start),
        start.len() > 0,
    ensures
        stores(start.update(0, start.last()).drop_last(), model.remove(start[0].1)),
        sifting_down(start.update(0, start.last()).drop_last(), 0),
        model.contains_key(start[0].1),
        model[start[0].1] == start[0].0,
        forall|id: usize|
            model.contains_key(id) ==> precedes(start[0].0, start[0].1, #[trigger] model[id], id),
{
    reveal(stores);
    reveal(sifting_down);
    let after = start.update(0, start.last()).drop_last();
    let less = model.remove(start[0].1);
    let cut = start.len() - 1;
    assert(model.contains_key(start[0].1));
    assert forall|k: int| 0 <= k < after.len() implies after[k] == start[if k == 0 {
        cut
    } else {
        k
    }] by {}
    assert forall|id: usize| model.contains_key(id) implies precedes(
        start[0].0,
        start[0].1,
        #[trigger] model[id],
        id,
    ) by {
        let j = choose|j: int| 0 <= j < start.len() && (#[trigger] start[j]).1 == id;
        lemma_top_first(start, j);
    }
    assert forall|id: usize| less.contains_key(id) implies exists|k: int|
        0 <= k < after.len() && (#[trigger] after[k]).1 == id by {
        let j = choose|j: int| 0 <= j < start.len() && (#[trigger] start[j]).1 == id;
        if j == cut {
            assert(after[0].1 == id);
        } else {
            assert(after[j].1 == id);
        }
    }
    assert forall|k: int| 0 <= k < after.len() implies less.contains_key((#[trigger] after[k]).1)
        && less[after[k].1] == after[k].0 by {
        if k == 0 {
            assert(start[0].1 != start[cut].1);
        } else {
            assert(after[k] == start[k]);
            assert(start[0].1 != start[k].1);
        }
    }
    assert forall|j: int, k: int| 0 <= j < k < after.len() implies (#[trigger] after[j]).1 != (
    #[trigger] after[k]).1 by {
        if j == 0 {
            assert(start[k].1 != start[cut].1);
        } else {
            assert(start[j].1 != start[k].1);
        }
    }
    assert forall|j: int| 1 <= j < after.len() && (j - 1) / 2 != 0 implies before(
        after[(j - 1) / 2],
        #[trigger] after[j],
    ) by {
        reveal(heaped);
        assert(before(start[(j - 1) / 2], start[j]));
    }
}

/// Sinking an entry below the earlier of the entries right below it moves
/// the one place that may be out of order down.
proof fn lemma_sink(was: Seq<(usize, usize)>, k: int, least: int)
    requires
        0 <= k,
        least < was.len(),
        least == 2 * k + 1 || least == 2 * k + 2,
        sifting_down(was, k),
        !before(was[k], was[least]),
        2 * k + 1 < was.len() ==> before(was[least], was[2 * k + 1]),
        2 * k + 2 < was.len() ==> before(was[least], was[2 * k + 2]),
    ensures
        sifting_down(exchanged(was, k, least), least),
{
    reveal(sifting_down);
    let now = exchanged(was, k, least);
    assert forall|j: int| 1 <= j < now.len() && (j - 1) / 2 != least implies before(
        now[(j - 1) / 2],
        #[trigger] now[j],
    ) by {
        if j == least {
        } else if (j - 1) / 2 == k {
            assert(j == 2 * k + 1 || j == 2 * k + 2);
        } else if j == k {
            assert(before(was[(k - 1) / 2], was[least]));
        } else {
            assert(before(was[(j - 1) / 2], was[j]));
        }
    }
    assert forall|j: int| 1 <= j < now.len() && (j - 1) / 2 == least && least >= 1 implies before(
        now[(least - 1) / 2],
        #[trigger] now[j],
    ) by {
        assert(before(was[least], was[j]));
    }
}

/// An entry that comes out no later than the entries right below it
/// completes the heap.
proof fn lemma_sunk(items: Seq<(usize, usize)>, k: int)
    requires
        0 <= k,
        sifting_down(items, k),
        2 * k + 1 < items.len() ==> before(items[k], items[2 * k + 1]),
        2 * k + 2 < items.len() ==> before(items[k], items[2 * k + 2]),
    ensures
        heaped(items),
{
    reveal(sifting_down);
    reveal(heaped);
    assert forall|j: int| 1 <= j < items.len() implies before(items[(j - 1) / 2], #[trigger] items[j]) by {
        if (j - 1) / 2 == k {
            assert(j == 2 * k + 1 || j == 2 * k + 2);
        }
    }
}

/// A queue of identities, each with a cost, that hands out the entry that
/// precedes all others. The entries are kept as a binary heap.
pub struct MinQueue {
    items: Vec<(usize, usize)>,
    model: Ghost<Map<usize, usize>>,
}

impl View for MinQueue {
    type V = Map<usize, usize>;

    /// The queue is viewed as the map from each queued identity to its cost.
    closed spec fn view(&self) -> Map<usize, usize> {
        self.model@
    }
}

impl MinQueue {
    /// Whether the stored entries are the entries of the view, each once,
    /// in heap order.
    pub closed spec fn wf(&self) -> bool {
        stores(self.items@, self.model@) && heaped(self.items@)
    }

    /// A valid queue has finitely many entries.
    pub proof fn lemma_finite(&self)
        requires
            self.wf(),
        ensures
            self@.dom().finite(),
    {
        reveal(stores);
    }

    /// The empty queue.
    pub fn new() -> (q: MinQueue)
        ensures
            q.wf(),
            q@ == Map::<usize, usize>::empty(),
    {
        proof {
            reveal(stores);
            reveal(heaped);
        }
        MinQueue { items: Vec::new(), model: Ghost(Map::empty()) }
    }

    /// The number of entries.
    pub fn len(&self) -> (r: usize)
        requires
            self.wf(),
        ensures
            r == self@.dom().len(),
    {
        proof {
            reveal(stores);
        }
        self.items.len()
    }

    /// Exchanges the entries at `a` and `b`.
    fn exchange(&mut self, a: usize, b: usize)
        requires
            stores(old(self).items@, old(self).model@),
            a < old(self).items@.len(),
            b < old(self).items@.len(),
        ensures
            stores(final(self).items@, final(self).model@),
            final(self).model@ == old(self).model@,
            final(self).items@ == exchanged(old(self).items@, a as int, b as int),
    {
        proof {
            lemma_exchange(self.items@, self.model@, a as int, b as int);
        }
        let first: (usize, usize) = self.items[a];
        let second: (usize, usize) = self.items[b];
        self.items[a] = second;
        self.items[b] = first;
    }

    /// Adds the identity `id` with cost `f`.
    pub fn push(&mut self, f: usize, id: usize)
        requires
            old(self).wf(),
            !old(self)@.contains_key(id),
        ensures
            final(self).wf(),
            final(self)@ == old(self)@.insert(id, f),
    {
        proof {
            lemma_append(self.items@, self.model@, f, id);
        }
        self.items.push((f, id));
        proof {
            self.model@ = self.model@.insert(id, f);
        }
        let ghost target = self.model@;
        let mut k: usize = self.items.len() - 1;
        loop
            invariant_except_break
                sifting_up(self.items@, k as int),
            invariant
                k < self.items@.len(),
                stores(self.items@, self.model@),
                self.model@ == target,
            ensures
                heaped(self.items@),
            decreases k,
        {
            if k == 0 {
                proof {
                    lemma_lifted(self.items@, 0);
                }
                break ;
            }
            let above: usize = (k - 1) / 2;
            let here: (usize, usize) = self.items[k];
            let over: (usize, usize) = self.items[above];
            if !(here.0 < over.0 || (here.0 == over.0 && here.1 < over.1)) {
                proof {
                    lemma_lifted(self.items@, k as int);
                }
                break ;
            }
            proof {
                lemma_lift(self.items@, k as int);
            }
            self.exchange(k, above);
            k = above;
        }
    }

    /// Removes the entry that precedes all others and returns its cost and
    /// its identity.
    pub fn pop_min(&mut self) -> (r: (usize, usize))
        requires
            old(self).wf(),
            old(self)@.dom().len() > 0,
        ensures
            final(self).wf(),
            old(self)@.contains_key(r.1),
            old(self)@[r.1] == r.0,
            forall|id: usize|
                old(self)@.contains_key(id) ==> precedes(r.0, r.1, #[trigger] old(self)@[id], id),
            final(self)@ == old(self)@.remove(r.1),
    {
        proof {
            assert(self.items@.len() > 0) by {
                reveal(stores);
            }
            lemma_remove_top(self.items@, self.model@);
        }
        let found: (usize, usize) = self.items.swap_remove(0);
        proof {
            self.model@ = self.model@.remove(found.1);
        }
        let ghost target = self.model@;
        let len: usize = self.items.len();
        let mut k: usize = 0;
        loop
            invariant_except_break
                sifting_down(self.items@, k as int),
            invariant
                len == self.items@.len(),
                stores(self.items@, self.model@),
                self.model@ == target,
            ensures
                heaped(self.items@),
            decreases len - k,
        {
            if k >= len / 2 {
                proof {
                    lemma_sunk(self.items@, k as int);
                }
                break ;
            }
            let left: usize = 2 * k + 1;
            let mut least: usize = left;
            if left + 1 < len {
                let a: (usize, usize) = self.items[left];
                let b: (usize, usize) = self.items[left + 1];
                if b.0 < a.0 || (b.0 == a.0 && b.1 < a.1) {
                    least = left + 1;
                }
            }
            let here: (usize, usize) = self.items[k];
            let under: (usize, usize) = self.items[least];
            if !(under.0 < here.0 || (under.0 == here.0 && under.1 < here.1)) {
                proof {
                    lemma_sunk(self.items@, k as int);
                }
                break ;
            }
            proof {
                lemma_sink(self.items@, k as int, least as int);
            }
            self.exchange(k, least);
            k = least;
        }
        found
    }

    /// Removes every entry.
    pub fn clear(&mut self)
        ensures
            final(self).wf(),
            final(self)@ == Map::<usize, usize>::empty(),
    {
        self.items.clear();
        proof {
            self.model@ = Map::empty();
            reveal(stores);
            reveal(heaped);
        }
    }
}

} // verus!
