//! The in-memory index: where the latest record of every live key stands.
use crate::segment::Location;
use vstd::prelude::*;

verus! {

/// Whether some slot holds the key `k`.
pub open spec fn has_key(slots: Seq<(Seq<u8>, Location)>, k: Seq<u8>) -> bool {
    exists|i: int| 0 <= i < slots.len() && (#[trigger] slots[i]).0 == k
}

/// A slot that holds the key `k`.
pub open spec fn slot_of(slots: Seq<(Seq<u8>, Location)>, k: Seq<u8>) -> int {
    choose|i: int| 0 <= i < slots.len() && (#[trigger] slots[i]).0 == k
}

/// Whether no key stands in two slots.
pub open spec fn distinct_keys(slots: Seq<(Seq<u8>, Location)>) -> bool {
    forall|i: int, j: int|
        0 <= i < j < slots.len() ==> (#[trigger] slots[i]).0 != (#[trigger] slots[j]).0
}

/// The mapping that the slots stand for.
pub open spec fn map_of(slots: Seq<(Seq<u8>, Location)>) -> Map<Seq<u8>, Location> {
    Map::new(|k: Seq<u8>| has_key(slots, k), |k: Seq<u8>| slots[slot_of(slots, k)].1)
}

/// With distinct keys, every slot is the slot of its key.
pub proof fn lemma_slot(slots: Seq<(Seq<u8>, Location)>, i: int)
    requires
        distinct_keys(slots),
        0 <= i < slots.len(),
    ensures
        has_key(slots, slots[i].0),
        slot_of(slots, slots[i].0) == i,
        map_of(slots).contains_key(slots[i].0),
        map_of(slots)[slots[i].0] == slots[i].1,
{
    let k = slots[i].0;
    assert(has_key(slots, k));
    let j = slot_of(slots, k);
    assert(0 <= j < slots.len() && slots[j].0 == k);
    if j < i {
        assert(slots[j].0 != slots[i].0);
    } else if i < j {
        assert(slots[i].0 != slots[j].0);
    }
}

/// Every key of the mapping stands in some slot.
pub proof fn lemma_key_has_slot(slots: Seq<(Seq<u8>, Location)>, k: Seq<u8>)
    requires
        map_of(slots).contains_key(k),
    ensures
        0 <= slot_of(slots, k) < slots.len(),
        slots[slot_of(slots, k)].0 == k,
{
    assert(has_key(slots, k));
}

#[derive(Debug)]
struct IndexEntry {
    key: Vec<u8>,
    loc: Location,
}

/// Maps every live key to the place of its latest record.
#[derive(Debug)]
pub struct Index {
    entries: Vec<IndexEntry>,
}

impl View for Index {
    type V = Map<Seq<u8>, Location>;

    open spec fn view(&self) -> Map<Seq<u8>, Location> {
        map_of(self.slots())
    }
}

/// Whether two byte strings are equal.
pub fn bytes_eq(a: &[u8], b: &[u8]) -> (r: bool)
    ensures
        r == (a@ == b@),
{
    if a.len() != b.len() {
        return false;
    }
    let mut i: usize = 0;
    while i < a.len()
        invariant
            i <= a.len(),
            a.len() == b.len(),
            forall|j: int| 0 <= j < i ==> a@[j] == b@[j],
        decreases a.len() - i,
    {
        if a[i] != b[i] {
            return false;
        }
        i = i + 1;
    }
    assert(a@ =~= b@);
    true
}

impl Index {
    /// The keys and places held, in the order in which the keys came.
    pub closed spec fn slots(&self) -> Seq<(Seq<u8>, Location)> {
        Seq::new(self.entries@.len(), |i: int| (self.entries@[i].key@, self.entries@[i].loc))
    }

    /// Whether the index is well formed: no key is held twice.
    pub open spec fn wf(&self) -> bool {
        distinct_keys(self.slots())
    }

    /// An index that holds no key.
    pub fn new() -> (index: Self)
        ensures
            index.wf(),
            index@ == Map::<Seq<u8>, Location>::empty(),
            index.slots().len() == 0,
    {
        let index = Index { entries: Vec::new() };
        assert(index@ =~= Map::<Seq<u8>, Location>::empty());
        index
    }

    /// The number of keys held.
    pub fn len(&self) -> (n: usize)
        ensures
            n == self.slots().len(),
            self.wf() ==> self@.dom().finite() && n == self@.dom().len(),
    {
        proof {
            if self.wf() {
                lemma_slots_count(self.slots());
            }
        }
        self.entries.len()
    }

    /// The key in slot `i`.
    pub fn key_at(&self, i: usize) -> (key: &[u8])
        requires
            i < self.slots().len(),
        ensures
            key@ == self.slots()[i as int].0,
    {
        self.entries[i].key.as_slice()
    }

    /// The place in slot `i`.
    pub fn location_at(&self, i: usize) -> (loc: Location)
        requires
            i < self.slots().len(),
        ensures
            loc == self.slots()[i as int].1,
    {
        self.entries[i].loc
    }

    fn position(&self, key: &[u8]) -> (r: Option<usize>)
        ensures
            match r {
                Some(i) => i < self.slots().len() && self.slots()[i as int].0 == key@,
                None => !has_key(self.slots(), key@),
            },
    {
        let mut i: usize = 0;
        while i < self.entries.len()
            invariant
                i <= self.entries.len(),
                forall|j: int| 0 <= j < i ==> (#[trigger] self.slots()[j]).0 != key@,
            decreases self.entries.len() - i,
        {
            if bytes_eq(self.entries[i].key.as_slice(), key) {
                return Some(i);
            }
            i = i + 1;
        }
        None
    }

    /// The place of the latest record of `key`, if the key is live.
    pub fn get(&self, key: &[u8]) -> (r: Option<Location>)
        requires
            self.wf(),
        ensures
            r == if self@.contains_key(key@) {
                Some(self@[key@])
            } else {
                None
            },
    {
        match self.position(key) {
            Some(i) => {
                proof {
                    lemma_slot(self.slots(), i as int);
                }
                Some(self.entries[i].loc)
            },
            None => None,
        }
    }

    /// Makes `key` point at the given place, whatever it pointed at before.
    pub fn set(&mut self, key: Vec<u8>, segment_id: u64, offset: usize, length: usize)
        requires
            old(self).wf(),
        ensures
            final(self).wf(),
            final(self)@ == old(self)@.insert(key@, Location { segment_id, offset, length }),
    {
        let loc = Location { segment_id, offset, length };
        let ghost before = self.slots();
        let ghost k = key@;
        match self.position(key.as_slice()) {
            Some(i) => {
                self.entries.set(i, IndexEntry { key, loc });
                proof {
                    let after = self.slots();
                    assert(after =~= before.update(i as int, (k, loc)));
                    assert forall|a: int, b: int| 0 <= a < b < after.len() implies (
                    #[trigger] after[a]).0 != (#[trigger] after[b]).0 by {
                        assert(after[a].0 == before[a].0);
                        assert(after[b].0 == before[b].0);
                    }
                    assert forall|q: Seq<u8>| has_key(after, q) == has_key(before, q) by {
                        if has_key(after, q) {
                            let j = slot_of(after, q);
                            assert(before[j].0 == q);
                        }
                        if has_key(before, q) {
                            let j = slot_of(before, q);
                            assert(after[j].0 == q);
                        }
                    }
                    assert forall|q: Seq<u8>| has_key(after, q) implies #[trigger] map_of(
                        after,
                    )[q] == map_of(before).insert(k, loc)[q] by {
                        let j = slot_of(after, q);
                        lemma_slot(after, j);
                        lemma_slot(before, j);
                    }
                    lemma_slot(before, i as int);
                    assert(map_of(after) =~= map_of(before).insert(k, loc));
                }
            },
            None => {
                self.entries.push(IndexEntry { key, loc });
                proof {
                    let after = self.slots();
                    assert(after =~= before.push((k, loc)));
                    lemma_push_slot(before, k, loc);
                }
            },
        }
    }

    /// Adds a key that the index does not hold yet.
    pub fn insert_new(&mut self, key: Vec<u8>, loc: Location)
        requires
            old(self).wf(),
            !old(self)@.contains_key(key@),
        ensures
            final(self).wf(),
            final(self)@ == old(self)@.insert(key@, loc),
            final(self).slots() == old(self).slots().push((key@, loc)),
    {
        let ghost before = self.slots();
        let ghost k = key@;
        self.entries.push(IndexEntry { key, loc });
        proof {
            assert(self.slots() =~= before.push((k, loc)));
            lemma_push_slot(before, k, loc);
        }
    }

    /// Forgets `key`. Removing a key that is not held changes nothing.
    pub fn remove(&mut self, key: &[u8])
        requires
            old(self).wf(),
        ensures
            final(self).wf(),
            final(self)@ == old(self)@.remove(key@),
    {
        let ghost before = self.slots();
        match self.position(key) {
            Some(i) => {
                self.entries.remove(i);
                proof {
                    let after = self.slots();
                    assert(after =~= before.remove(i as int));
                    lemma_remove_slot(before, i as int);
                }
            },
            None => {
                assert(self@ =~= self@.remove(key@));
            },
        }
    }

    /// All live keys, each once: the key of every slot, in the order of the
    /// slots.
    pub fn keys(&self) -> (keys: Vec<Vec<u8>>)
        ensures
            keys@.len() == self.slots().len(),
            forall|i: int| 0 <= i < keys@.len() ==> (#[trigger] keys@[i])@ == self.slots()[i].0,
            forall|k: Seq<u8>|
                self@.contains_key(k) <==> exists|i: int|
                    0 <= i < keys@.len() && (#[trigger] keys@[i])@ == k,
            self.wf() ==> forall|i: int, j: int|
                0 <= i < j < keys@.len() ==> (#[trigger] keys@[i])@ != (#[trigger] keys@[j])@,
    {
        let mut keys: Vec<Vec<u8>> = Vec::new();
        let mut i: usize = 0;
        while i < self.entries.len()
            invariant
                i <= self.entries.len(),
                self.entries.len() == self.slots().len(),
                keys@.len() == i,
                forall|j: int| 0 <= j < i ==> (#[trigger] keys@[j])@ == self.slots()[j].0,
            decreases self.entries.len() - i,
        {
            keys.push(vstd::slice::slice_to_vec(self.entries[i].key.as_slice()));
            i = i + 1;
        }
        proof {
            let slots = self.slots();
            assert forall|k: Seq<u8>| self@.contains_key(k) <==> exists|i: int|
                0 <= i < keys@.len() && (#[trigger] keys@[i])@ == k by {
                if self@.contains_key(k) {
                    lemma_key_has_slot(slots, k);
                    assert(keys@[slot_of(slots, k)]@ == k);
                }
                if exists|i: int| 0 <= i < keys@.len() && (#[trigger] keys@[i])@ == k {
                    let i = choose|i: int| 0 <= i < keys@.len() && (#[trigger] keys@[i])@ == k;
                    assert(slots[i].0 == k);
                }
            }
            if self.wf() {
                assert forall|i: int, j: int| 0 <= i < j < keys@.len() implies (
                #[trigger] keys@[i])@ != (#[trigger] keys@[j])@ by {
                    assert(slots[i].0 != slots[j].0);
                }
            }
        }
        keys
    }
}

/// Slots with distinct keys stand for as many keys as there are slots.
pub proof fn lemma_slots_count(slots: Seq<(Seq<u8>, Location)>)
    requires
        distinct_keys(slots),
    ensures
        map_of(slots).dom().finite(),
        map_of(slots).dom().len() == slots.len(),
    decreases slots.len(),
{
    if slots.len() == 0 {
        assert(map_of(slots).dom() =~= Set::<Seq<u8>>::empty());
    } else {
        let front = slots.drop_last();
        let last = slots.last();
        assert forall|a: int, b: int| 0 <= a < b < front.len() implies (#[trigger] front[a]).0 != (
        #[trigger] front[b]).0 by {
            assert(front[a] == slots[a]);
            assert(front[b] == slots[b]);
        }
        assert(!has_key(front, last.0)) by {
            if has_key(front, last.0) {
                let j = slot_of(front, last.0);
                assert(slots[j].0 != slots[slots.len() - 1].0);
            }
        }
        lemma_slots_count(front);
        lemma_push_slot(front, last.0, last.1);
        assert(front.push((last.0, last.1)) =~= slots);
        assert(map_of(slots).dom() =~= map_of(front).dom().insert(last.0));
        vstd::set::axiom_set_insert_len(map_of(front).dom(), last.0);
        vstd::set::axiom_set_insert_finite(map_of(front).dom(), last.0);
    }
}

/// Pushing a key that no slot holds keeps the keys distinct and inserts the
/// key into the mapping.
pub proof fn lemma_push_slot(before: Seq<(Seq<u8>, Location)>, k: Seq<u8>, loc: Location)
    requires
        distinct_keys(before),
        !has_key(before, k),
    ensures
        distinct_keys(before.push((k, loc))),
        map_of(before.push((k, loc))) == map_of(before).insert(k, loc),
{
    let after = before.push((k, loc));
    assert forall|a: int, b: int| 0 <= a < b < after.len() implies (#[trigger] after[a]).0 != (
    #[trigger] after[b]).0 by {
        assert(after[a] == before[a]);
        if b < before.len() {
            assert(after[b] == before[b]);
        }
    }
    assert forall|q: Seq<u8>| has_key(after, q) == (has_key(before, q) || q == k) by {
        if has_key(after, q) {
            let j = slot_of(after, q);
            if j < before.len() {
                assert(before[j].0 == q);
            }
        }
        if has_key(before, q) {
            let j = slot_of(before, q);
            assert(after[j].0 == q);
        }
        if q == k {
            assert(after[before.len() as int].0 == q);
        }
    }
    assert forall|q: Seq<u8>| has_key(after, q) implies #[trigger] map_of(after)[q] == map_of(
        before,
    ).insert(k, loc)[q] by {
        let j = slot_of(after, q);
        lemma_slot(after, j);
        if j < before.len() {
            assert(before[j] == after[j]);
            lemma_slot(before, j);
        }
    }
    assert(map_of(after) =~= map_of(before).insert(k, loc));
}

/// Taking a slot out keeps the keys distinct and removes its key from the
/// mapping.
pub proof fn lemma_remove_slot(before: Seq<(Seq<u8>, Location)>, i: int)
    requires
        distinct_keys(before),
        0 <= i < before.len(),
    ensures
        distinct_keys(before.remove(i)),
        map_of(before.remove(i)) == map_of(before).remove(before[i].0),
{
    let after = before.remove(i);
    let k = before[i].0;
    assert forall|a: int| 0 <= a < after.len() implies #[trigger] after[a] == before[if a < i {
        a
    } else {
        a + 1
    }] by {}
    assert forall|a: int, b: int| 0 <= a < b < after.len() implies (#[trigger] after[a]).0 != (
    #[trigger] after[b]).0 by {
        let a0 = if a < i { a } else { a + 1 };
        let b0 = if b < i { b } else { b + 1 };
        assert(after[a] == before[a0]);
        assert(after[b] == before[b0]);
    }
    assert forall|q: Seq<u8>| has_key(after, q) == (has_key(before, q) && q != k) by {
        if has_key(after, q) {
            let j = slot_of(after, q);
            let j0 = if j < i { j } else { j + 1 };
            assert(after[j] == before[j0]);
            assert(before[j0].0 == q);
            if j0 < i {
                assert(before[j0].0 != before[i].0);
            } else {
                assert(before[i].0 != before[j0].0);
            }
        }
        if has_key(before, q) && q != k {
            let j = slot_of(before, q);
            let j1 = if j < i { j } else { j - 1 };
            assert(after[j1] == before[j]);
            assert(after[j1].0 == q);
        }
    }
    assert forall|q: Seq<u8>| has_key(after, q) implies #[trigger] map_of(after)[q] == map_of(
        before,
    ).remove(k)[q] by {
        let j = slot_of(after, q);
        let j0 = if j < i { j } else { j + 1 };
        assert(after[j] == before[j0]);
        lemma_slot(after, j);
        lemma_slot(before, j0);
    }
    assert(map_of(after) =~= map_of(before).remove(k));
}

} // verus!
