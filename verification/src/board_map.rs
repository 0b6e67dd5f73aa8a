//! A table from tile sequences to node identities.
//!
//! Tile sequences are spread over buckets by a fingerprint; a bucket holds the
//! sequences that share it.

use vstd::prelude::*;
use std::collections::HashMap;

verus! {

/// The modulus of the fingerprint.
pub const FINGERPRINT_MODULUS: u64 = 4294967291;

/// The fingerprint of the first `k` tiles of `tiles`.
pub open spec fn fingerprint_upto(tiles: Seq<u8>, k: int) -> u64
    decreases k,
{
    if k <= 0 {
        0
    } else {
        ((fingerprint_upto(tiles, k - 1) * 31 + tiles[k - 1]) % (FINGERPRINT_MODULUS as int)) as u64
    }
}

/// The fingerprint of `tiles`.
pub open spec fn fingerprint(tiles: Seq<u8>) -> u64 {
    fingerprint_upto(tiles, tiles.len() as int)
}

/// The fingerprint of `tiles`.
fn fingerprint_of(tiles: &Vec<u8>) -> (h: u64)
    ensures
        h == fingerprint(tiles@),
{
    let mut h: u64 = 0;
    let mut k: usize = 0;
    while k < tiles.len()
        invariant
            k <= tiles.len(),
            h == fingerprint_upto(tiles@, k as int),
            h < FINGERPRINT_MODULUS,
        decreases tiles.len() - k,
    {
        h = (h * 31 + tiles[k] as u64) % FINGERPRINT_MODULUS;
        k += 1;
    }
    h
}

/// Whether two tile sequences are equal.
pub fn same_tiles(a: &Vec<u8>, b: &Vec<u8>) -> (r: bool)
    ensures
        r == (a@ == b@),
{
    if a.len() != b.len() {
        return false;
    }
    let mut k: usize = 0;
    while k < a.len()
        invariant
            a.len() == b.len(),
            k <= a.len(),
            forall|j: int| 0 <= j < k ==> a@[j] == b@[j],
        decreases a.len() - k,
    {
        if a[k] != b[k] {
            return false;
        }
        k += 1;
    }
    assert(a@ =~= b@);
    true
}

/// Whether the bucket with fingerprint `h` holds entries of `model` only,
/// each under its own fingerprint and no tile sequence twice.
spec fn bucket_ok(bucket: Seq<(Vec<u8>, usize)>, h: u64, model: Map<Seq<u8>, usize>) -> bool {
    &&& forall|e: int|
        0 <= e < bucket.len() ==> {
            &&& fingerprint((#[trigger] bucket[e]).0@) == h
            &&& model.contains_key(bucket[e].0@)
            &&& model[bucket[e].0@] == bucket[e].1
        }
    &&& forall|d: int, e: int|
        0 <= d < e < bucket.len() ==> (#[trigger] bucket[d]).0@ != (#[trigger] bucket[e]).0@
}

/// Whether the bucket holds an entry for `tiles`.
spec fn bucket_has(bucket: Seq<(Vec<u8>, usize)>, tiles: Seq<u8>) -> bool {
    exists|e: int| 0 <= e < bucket.len() && (#[trigger] bucket[e]).0@ == tiles
}

/// The place of `tiles` in the bucket, if it has one.
fn locate(bucket: &Vec<(Vec<u8>, usize)>, tiles: &Vec<u8>) -> (r: Option<usize>)
    ensures
        match r {
            Some(e) => e < bucket@.len() && bucket@[e as int].0@ == tiles@,
            None => !bucket_has(bucket@, tiles@),
        },
{
    let mut e: usize = 0;
    while e < bucket.len()
        invariant
            e <= bucket.len(),
            forall|d: int| 0 <= d < e ==> (#[trigger] bucket@[d]).0@ != tiles@,
        decreases bucket.len() - e,
    {
        if same_tiles(&bucket[e].0, tiles) {
            return Some(e);
        }
        e += 1;
    }
    None
}

/// A finite map from tile sequences to node identities.
pub struct BoardMap {
    buckets: HashMap<u64, Vec<(Vec<u8>, usize)>>,
    count: usize,
    model: Ghost<Map<Seq<u8>, usize>>,
}

impl View for BoardMap {
    type V = Map<Seq<u8>, usize>;

    closed spec fn view(&self) -> Map<Seq<u8>, usize> {
        self.model@
    }
}

impl BoardMap {
    /// Whether the buckets hold the entries of the view, each once and under
    /// its fingerprint.
    pub closed spec fn wf(&self) -> bool {
        &&& self.model@.dom().finite()
        &&& self.count == self.model@.dom().len()
        &&& forall|h: u64| #[trigger]
            self.buckets@.contains_key(h) ==> bucket_ok(self.buckets@[h]@, h, self.model@)
        &&& forall|t: Seq<u8>| #[trigger]
            self.model@.contains_key(t) ==> self.buckets@.contains_key(fingerprint(t)) && bucket_has(
                self.buckets@[fingerprint(t)]@,
                t,
            )
    }

    /// A valid table has finitely many entries.
    pub proof fn lemma_finite(&self)
        requires
            self.wf(),
        ensures
            self@.dom().finite(),
    {
    }

    /// The empty table.
    pub fn new() -> (m: BoardMap)
        ensures
            m.wf(),
            m@ == Map::<Seq<u8>, usize>::empty(),
    {
        BoardMap { buckets: HashMap::new(), count: 0, model: Ghost(Map::empty()) }
    }

    /// The number of entries.
    pub fn len(&self) -> (r: usize)
        requires
            self.wf(),
        ensures
            r == self@.dom().len(),
    {
        self.count
    }

    /// The identity stored for `tiles`, if there is one.
    pub fn get(&self, tiles: &Vec<u8>) -> (r: Option<usize>)
        requires
            self.wf(),
        ensures
            r == if self@.contains_key(tiles@) {
                Some(self@[tiles@])
            } else {
                None
            },
    {
        broadcast use vstd::std_specs::hash::group_hash_axioms;

        let h: u64 = fingerprint_of(tiles);
        match self.buckets.get(&h) {
            None => None,
            Some(bucket) => {
                assert(self.buckets@.contains_key(h));
                match locate(bucket, tiles) {
                    Some(e) => {
                        let id: usize = bucket[e].1;
                        assert(bucket@[e as int].0@ == tiles@);
                        Some(id)
                    },
                    None => None,
                }
            },
        }
    }

    /// Stores `id` for `tiles`, in place of what was stored for it.
    pub fn insert(&mut self, tiles: Vec<u8>, id: usize)
        requires
            old(self).wf(),
            old(self)@.dom().len() < usize::MAX,
        ensures
            final(self).wf(),
            final(self)@ == old(self)@.insert(tiles@, id),
    {
        broadcast use vstd::std_specs::hash::group_hash_axioms;

        let h: u64 = fingerprint_of(&tiles);
        let ghost key = tiles@;
        let ghost before = self.buckets@;
        let ghost model = self.model@;
        let mut bucket: Vec<(Vec<u8>, usize)> = match self.buckets.remove(&h) {
            Some(b) => b,
            None => Vec::new(),
        };
        let ghost was = bucket@;
        assert(bucket_ok(was, h, model)) by {
            if before.contains_key(h) {
                assert(was == before[h]@);
            }
        }
        let ghost mut at: int = 0;
        match locate(&bucket, &tiles) {
            Some(e) => {
                bucket[e] = (tiles, id);
                proof {
                    at = e as int;
                }
            },
            None => {
                bucket.push((tiles, id));
                proof {
                    at = was.len() as int;
                }
                assert(!model.contains_key(key)) by {
                    if model.contains_key(key) {
                        assert(before.contains_key(h));
                        assert(bucket_has(was, key));
                    }
                }
                self.count += 1;
            },
        }
        let ghost now = bucket@;
        self.buckets.insert(h, bucket);
        proof {
            self.model@ = model.insert(key, id);
            let fresh = self.model@;
            assert(bucket_ok(now, h, fresh)) by {
                assert forall|e: int| 0 <= e < now.len() implies {
                    &&& fingerprint((#[trigger] now[e]).0@) == h
                    &&& fresh.contains_key(now[e].0@)
                    &&& fresh[now[e].0@] == now[e].1
                } by {
                    if now[e].0@ != key {
                        assert(now[e] == was[e]);
                    }
                }
                assert forall|d: int, e: int| 0 <= d < e < now.len() implies (#[trigger] now[d]).0@ != (
                #[trigger] now[e]).0@ by {
                    if now[d].0@ != key {
                        assert(now[d] == was[d]);
                    }
                    if now[e].0@ != key {
                        assert(now[e] == was[e]);
                    }
                    if now.len() == was.len() && now[d].0@ != key && now[e].0@ != key {
                        assert(was[d].0@ != was[e].0@);
                    }
                    if now.len() == was.len() && now[d].0@ == key && now[e].0@ == key {
                        assert(was[d].0@ == key && was[e].0@ == key);
                    }
                    if now.len() != was.len() && now[d].0@ == key {
                        assert(was[d].0@ == key);
                        assert(bucket_has(was, key));
                    }
                }
            }
            assert forall|g: u64| #[trigger] self.buckets@.contains_key(g) implies bucket_ok(
                self.buckets@[g]@,
                g,
                fresh,
            ) by {
                if g != h {
                    assert(before.contains_key(g));
                    let other = before[g]@;
                    assert(bucket_ok(other, g, model));
                    assert forall|e: int| 0 <= e < other.len() implies {
                        &&& fingerprint((#[trigger] other[e]).0@) == g
                        &&& fresh.contains_key(other[e].0@)
                        &&& fresh[other[e].0@] == other[e].1
                    } by {
                        assert(other[e].0@ != key);
                    }
                }
            }
            assert forall|t: Seq<u8>| #[trigger] fresh.contains_key(t) implies self.buckets@.contains_key(
                fingerprint(t),
            ) && bucket_has(self.buckets@[fingerprint(t)]@, t) by {
                if t == key {
                    assert(now[at].0@ == t);
                } else {
                    assert(model.contains_key(t));
                    if fingerprint(t) == h {
                        let e = choose|e: int| 0 <= e < was.len() && (#[trigger] was[e]).0@ == t;
                        assert(now[e].0@ == t);
                    }
                }
            }
        }
    }

    /// Removes the entry for `tiles`, if there is one.
    pub fn remove(&mut self, tiles: &Vec<u8>)
        requires
            old(self).wf(),
        ensures
            final(self).wf(),
            final(self)@ == old(self)@.remove(tiles@),
    {
        broadcast use vstd::std_specs::hash::group_hash_axioms;

        let h: u64 = fingerprint_of(tiles);
        let ghost key = tiles@;
        let ghost before = self.buckets@;
        let ghost model = self.model@;
        let mut bucket: Vec<(Vec<u8>, usize)> = match self.buckets.remove(&h) {
            Some(b) => b,
            None => {
                assert(!model.contains_key(key));
                assert(model.remove(key) =~= model);
                return ;
            },
        };
        let ghost was = bucket@;
        assert(was == before[h]@);
        assert(bucket_ok(was, h, model));
        match locate(&bucket, tiles) {
            Some(e) => {
                bucket.swap_remove(e);
                assert(model.contains_key(key));
                self.count -= 1;
                proof {
                    self.model@ = model.remove(key);
                }
            },
            None => {
                assert(!model.contains_key(key));
                assert(model.remove(key) =~= model);
            },
        }
        let ghost now = bucket@;
        self.buckets.insert(h, bucket);
        proof {
            let fresh = self.model@;
            let cut = was.len() - 1;
            assert(fresh == model.remove(key));
            assert forall|e: int| 0 <= e < now.len() implies exists|d: int|
                0 <= d < was.len() && was[d] == #[trigger] now[e] && was[d].0@ != key by {
                if now.len() == was.len() {
                    assert(was[e] == now[e]);
                } else if was[e].0@ == key {
                    assert(was[cut] == now[e]);
                    if e != cut {
                        assert(was[e].0@ != was[cut].0@);
                    }
                } else {
                    assert(was[e] == now[e]);
                }
            }
            assert(bucket_ok(now, h, fresh)) by {
                assert forall|e: int| 0 <= e < now.len() implies {
                    &&& fingerprint((#[trigger] now[e]).0@) == h
                    &&& fresh.contains_key(now[e].0@)
                    &&& fresh[now[e].0@] == now[e].1
                } by {
                    let d = choose|d: int| 0 <= d < was.len() && was[d] == now[e] && was[d].0@ != key;
                    assert(was[d] == now[e]);
                }
                assert forall|d: int, e: int| 0 <= d < e < now.len() implies (#[trigger] now[d]).0@ != (
                #[trigger] now[e]).0@ by {
                    if now.len() == was.len() {
                        assert(was[d] == now[d] && was[e] == now[e]);
                    } else {
                        let p = if was[d].0@ == key {
                            cut
                        } else {
                            d
                        };
                        let q = if was[e].0@ == key {
                            cut
                        } else {
                            e
                        };
                        assert(now[d] == was[p] && now[e] == was[q]);
                        if p < q {
                            assert(was[p].0@ != was[q].0@);
                        } else if q < p {
                            assert(was[q].0@ != was[p].0@);
                        } else {
                            assert(was[d].0@ != was[e].0@);
                        }
                    }
                }
            }
            assert forall|g: u64| #[trigger] self.buckets@.contains_key(g) implies bucket_ok(
                self.buckets@[g]@,
                g,
                fresh,
            ) by {
                if g != h {
                    assert(before.contains_key(g));
                    let other = before[g]@;
                    assert(bucket_ok(other, g, model));
                    assert forall|e: int| 0 <= e < other.len() implies {
                        &&& fingerprint((#[trigger] other[e]).0@) == g
                        &&& fresh.contains_key(other[e].0@)
                        &&& fresh[other[e].0@] == other[e].1
                    } by {
                        assert(other[e].0@ != key);
                    }
                }
            }
            assert forall|t: Seq<u8>| #[trigger] fresh.contains_key(t) implies self.buckets@.contains_key(
                fingerprint(t),
            ) && bucket_has(self.buckets@[fingerprint(t)]@, t) by {
                assert(model.contains_key(t));
                if fingerprint(t) == h {
                    let e = choose|e: int| 0 <= e < was.len() && (#[trigger] was[e]).0@ == t;
                    if now.len() == was.len() || e != cut {
                        if now.len() != was.len() && was[e].0@ == key {
                        } else {
                            assert(now[e].0@ == t);
                        }
                    } else {
                        let m = choose|m: int| 0 <= m < was.len() && was[m].0@ == key;
                        assert(now[m] == was[cut]);
                        assert(now[m].0@ == t);
                    }
                }
            }
        }
    }
}

} // verus!
