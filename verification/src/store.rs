//! The in-memory object store and the visited-hash set.
//!
//! The store does not own object bytes: each slot records the byte range of
//! one loose object inside the caller's archive buffer, keyed by the
//! 40-character hexadecimal object name. A later slot for the same key
//! shadows an earlier one, so the store reads as a map whose last insertion
//! wins.

use vstd::prelude::*;

verus! {

broadcast use vstd::seq_lib::seq_to_set_is_finite;

/// One loose object: its key and the byte range of its compressed form.
pub struct StoreSlot {
    pub key: Vec<u8>,
    pub start: usize,
    pub end: usize,
}

/// The map read of a slot list: each slot inserted in order, so that the
/// last slot for a key provides its range.
pub open spec fn slots_map(s: Seq<StoreSlot>) -> Map<Seq<u8>, (int, int)>
    decreases s.len(),
{
    if s.len() == 0 {
        Map::empty()
    } else {
        slots_map(s.drop_last()).insert(s.last().key@, (s.last().start as int, s.last().end as int))
    }
}

/// A lookup table from object hashes to byte ranges of an archive buffer.
pub struct ObjectStore {
    slots: Vec<StoreSlot>,
}

impl View for ObjectStore {
    type V = Map<Seq<u8>, (int, int)>;

    closed spec fn view(&self) -> Map<Seq<u8>, (int, int)> {
        slots_map(self.slots@)
    }
}

pub proof fn lemma_slots_map_finite(s: Seq<StoreSlot>)
    ensures
        slots_map(s).dom().finite(),
    decreases s.len(),
{
    if s.len() > 0 {
        lemma_slots_map_finite(s.drop_last());
    }
}

/// Every range in the map of a bounded slot list lies inside the buffer.
pub proof fn lemma_slots_map_bounded(s: Seq<StoreSlot>, n: int)
    requires
        forall|i: int|
            0 <= i < s.len() ==> (#[trigger] s[i]).start <= s[i].end && s[i].end <= n,
    ensures
        forall|k: Seq<u8>|
            #[trigger] slots_map(s).contains_key(k) ==> 0 <= slots_map(s)[k].0 <= slots_map(
                s,
            )[k].1 <= n,
    decreases s.len(),
{
    if s.len() > 0 {
        assert forall|i: int| 0 <= i < s.drop_last().len() implies (#[trigger] s.drop_last()[i]).start
            <= s.drop_last()[i].end && s.drop_last()[i].end <= n by {
            assert(s.drop_last()[i] == s[i]);
        }
        lemma_slots_map_bounded(s.drop_last(), n);
        assert(s[s.len() - 1] == s.last());
        assert forall|k: Seq<u8>| #[trigger] slots_map(s).contains_key(k) implies 0 <= slots_map(
            s,
        )[k].0 <= slots_map(s)[k].1 <= n by {
            if k != s.last().key@ {
                assert(slots_map(s.drop_last()).contains_key(k));
            }
        }
    }
}

impl ObjectStore {
    /// Every recorded range stays inside a buffer of length `n`.
    pub closed spec fn bounded(&self, n: int) -> bool {
        forall|i: int|
            0 <= i < self.slots@.len() ==> (#[trigger] self.slots@[i]).start
                <= self.slots@[i].end && self.slots@[i].end <= n
    }

    pub fn new() -> (r: ObjectStore)
        ensures
            r@ == Map::<Seq<u8>, (int, int)>::empty(),
            forall|n: int| r.bounded(n),
    {
        ObjectStore { slots: Vec::new() }
    }

    /// Records the byte range `[start, end)` for `key`, shadowing any earlier
    /// range under the same key.
    pub fn insert(&mut self, key: Vec<u8>, start: usize, end: usize)
        ensures
            final(self)@ == old(self)@.insert(key@, (start as int, end as int)),
            forall|n: int|
                old(self).bounded(n) && start <= end && end <= n ==> final(self).bounded(n),
    {
        let ghost prev = self.slots@;
        self.slots.push(StoreSlot { key, start, end });
        proof {
            assert(self.slots@.drop_last() =~= prev);
        }
    }

    /// Looks a key up, returning the byte range recorded last for it.
    #[verifier::loop_isolation(false)]
    pub fn get(&self, key: &[u8]) -> (r: Option<(usize, usize)>)
        ensures
            match r {
                Some(span) => self@.contains_key(key@) && self@[key@] == (
                    span.0 as int,
                    span.1 as int,
                ),
                None => !self@.contains_key(key@),
            },
    {
        let n = self.slots.len();
        proof {
            assert(self.slots@.subrange(0, n as int) =~= self.slots@);
        }
        let mut i = n;
        while i > 0
            invariant
                i <= n == self.slots@.len(),
                slots_map(self.slots@.subrange(0, i as int)).contains_key(key@)
                    == self@.contains_key(key@),
                slots_map(self.slots@.subrange(0, i as int)).contains_key(key@)
                    ==> slots_map(self.slots@.subrange(0, i as int))[key@] == self@[key@],
            decreases i,
        {
            let slot = &self.slots[i - 1];
            let ghost pre = self.slots@.subrange(0, i as int);
            proof {
                assert(pre.drop_last() =~= self.slots@.subrange(0, i - 1));
                assert(pre.last() == self.slots@[i - 1]);
            }
            if crate::bytes::bytes_eq(slot.key.as_slice(), key) {
                return Some((slot.start, slot.end));
            }
            i = i - 1;
        }
        proof {
            assert(self.slots@.subrange(0, 0) =~= Seq::<StoreSlot>::empty());
        }
        None
    }

    pub proof fn lemma_dom_finite(&self)
        ensures
            self@.dom().finite(),
    {
        lemma_slots_map_finite(self.slots@);
    }

    pub proof fn lemma_bounded_map(&self, n: int)
        requires
            self.bounded(n),
        ensures
            forall|k: Seq<u8>|
                #[trigger] self@.contains_key(k) ==> 0 <= self@[k].0 <= self@[k].1 <= n,
    {
        lemma_slots_map_bounded(self.slots@, n);
    }
}

/// The set read of a list of hashes.
pub open spec fn hashes_of(items: Seq<Vec<u8>>) -> Set<Seq<u8>> {
    items.map_values(|v: Vec<u8>| v@).to_set()
}

proof fn lemma_hashes_push(items: Seq<Vec<u8>>, x: Vec<u8>)
    ensures
        hashes_of(items.push(x)) == hashes_of(items).insert(x@),
{
    let f = |v: Vec<u8>| v@;
    assert(items.push(x).map_values(f) =~= items.map_values(f) + seq![x@]);
    Seq::<Seq<u8>>::lemma_to_set_insert_commutes(items.map_values(f), x@);
    assert(hashes_of(items.push(x)) =~= hashes_of(items).insert(x@));
}

/// A set of object hashes, held as the list of its members.
pub struct FoundSet {
    items: Vec<Vec<u8>>,
}

impl View for FoundSet {
    type V = Set<Seq<u8>>;

    closed spec fn view(&self) -> Set<Seq<u8>> {
        hashes_of(self.items@)
    }
}

impl FoundSet {
    pub fn new() -> (r: FoundSet)
        ensures
            r@ == Set::<Seq<u8>>::empty(),
    {
        let r = FoundSet { items: Vec::new() };
        proof {
            assert(r.items@.map_values(|v: Vec<u8>| v@) =~= Seq::<Seq<u8>>::empty());
            assert(r@ =~= Set::<Seq<u8>>::empty());
        }
        r
    }

    /// Whether `x` is a member.
    #[verifier::loop_isolation(false)]
    pub fn contains(&self, x: &[u8]) -> (r: bool)
        ensures
            r == self@.contains(x@),
    {
        let n = self.items.len();
        let mut i: usize = 0;
        while i < n
            invariant
                i <= n == self.items@.len(),
                forall|k: int| 0 <= k < i ==> self.items@[k]@ != x@,
            decreases n - i,
        {
            if crate::bytes::bytes_eq(self.items[i].as_slice(), x) {
                proof {
                    let f = |v: Vec<u8>| v@;
                    assert(self.items@.map_values(f)[i as int] == x@);
                    assert(self.items@.map_values(f).contains(x@));
                }
                return true;
            }
            i = i + 1;
        }
        proof {
            let f = |v: Vec<u8>| v@;
            let m = self.items@.map_values(f);
            assert(forall|k: int| 0 <= k < m.len() ==> m[k] != x@);
            assert(!m.contains(x@));
        }
        false
    }

    /// Adds `x`, reporting whether it was new.
    pub fn insert(&mut self, x: Vec<u8>) -> (r: bool)
        ensures
            final(self)@ == old(self)@.insert(x@),
            r == !old(self)@.contains(x@),
    {
        let fresh = !self.contains(x.as_slice());
        if fresh {
            let ghost prev = self.items@;
            self.items.push(x);
            proof {
                lemma_hashes_push(prev, x);
            }
        } else {
            proof {
                assert(old(self)@.insert(x@) =~= old(self)@);
            }
        }
        fresh
    }

    /// Folds every member of `other` into this set.
    #[verifier::loop_isolation(false)]
    pub fn extend_from(&mut self, other: &FoundSet)
        ensures
            final(self)@ == old(self)@.union(other@),
    {
        let n = other.items.len();
        let mut i: usize = 0;
        while i < n
            invariant
                i <= n == other.items@.len(),
                self@ == old(self)@.union(hashes_of(other.items@.subrange(0, i as int))),
            decreases n - i,
        {
            let ghost prevsub = other.items@.subrange(0, i as int);
            let item = other.items[i].clone();
            assert(item@ == other.items@[i as int]@);
            let _ = self.insert(item);
            proof {
                assert(prevsub.push(other.items@[i as int]) =~= other.items@.subrange(
                    0,
                    i + 1,
                ));
                lemma_hashes_push(prevsub, other.items@[i as int]);
                assert(self@ =~= old(self)@.union(hashes_of(other.items@.subrange(0, i + 1))));
            }
            i = i + 1;
        }
        proof {
            assert(other.items@.subrange(0, n as int) =~= other.items@);
        }
    }
}

} // verus!
