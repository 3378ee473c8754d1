//! An index from 64-bit keys to the positions of a growing sequence: for a
//! key, the last position that holds it, and for a position, the last one
//! before it that holds the same key. A lookup walks only the positions that
//! share the key.

use vstd::prelude::*;
use vstd::hash_map::HashMapWithView;
use vstd::std_specs::hash::axiom_u64_obeys_hash_table_key_model;

verus! {

/// `found` is the last position below `limit` at which `keys` holds `key`;
/// it is `None` where no position below `limit` holds it.
pub open spec fn last_before(keys: Seq<u64>, key: u64, limit: int, found: Option<usize>) -> bool {
    match found {
        Some(p) => p < limit && keys[p as int] == key && forall|j: int|
            p < j < limit ==> keys[j] != key,
        None => forall|j: int| 0 <= j < limit ==> keys[j] != key,
    }
}

/// The index of a sequence of keys that grows at its end.
pub struct KeyIndex {
    keys: Ghost<Seq<u64>>,
    previous: Vec<Option<usize>>,
    latest: HashMapWithView<u64, usize>,
}

impl KeyIndex {
    /// The keys that were pushed, in order.
    pub closed spec fn keys(&self) -> Seq<u64> {
        self.keys@
    }

    spec fn latest_of(&self, key: u64) -> Option<usize> {
        if self.latest@.contains_key(key) {
            Some(self.latest@[key])
        } else {
            None
        }
    }

    /// Every link leads to the last earlier position with the same key, and
    /// every key to the last position that holds it.
    pub closed spec fn wf(&self) -> bool {
        &&& self.previous@.len() == self.keys@.len()
        &&& forall|i: int|
            0 <= i < self.keys@.len() ==> last_before(
                self.keys@,
                self.keys@[i],
                i,
                #[trigger] self.previous@[i],
            )
        &&& forall|key: u64|
            last_before(self.keys@, key, self.keys@.len() as int, #[trigger] self.latest_of(key))
    }

    /// The index of the empty sequence.
    pub fn new() -> (r: KeyIndex)
        ensures
            r.wf(),
            r.keys() == Seq::<u64>::empty(),
    {
        broadcast use axiom_u64_obeys_hash_table_key_model;

        KeyIndex { keys: Ghost(Seq::empty()), previous: Vec::new(), latest: HashMapWithView::new() }
    }

    /// The last position that holds `key`.
    pub fn last(&self, key: u64) -> (r: Option<usize>)
        requires
            self.wf(),
        ensures
            last_before(self.keys(), key, self.keys().len() as int, r),
    {
        assert(last_before(self.keys@, key, self.keys@.len() as int, self.latest_of(key)));
        match self.latest.get(&key) {
            Some(p) => Some(*p),
            None => None,
        }
    }

    /// The last position before `position` that holds the same key.
    pub fn before(&self, position: usize) -> (r: Option<usize>)
        requires
            self.wf(),
            position < self.keys().len(),
        ensures
            last_before(self.keys(), self.keys()[position as int], position as int, r),
    {
        self.previous[position]
    }

    /// Records `key` at the next position.
    pub fn push(&mut self, key: u64)
        requires
            old(self).wf(),
        ensures
            final(self).wf(),
            final(self).keys() == old(self).keys().push(key),
    {
        let position: usize = self.previous.len();
        let earlier: Option<usize> = self.last(key);
        self.previous.push(earlier);
        self.latest.insert(key, position);
        self.keys = Ghost(self.keys@.push(key));
        proof {
            assert forall|i: int| 0 <= i < self.keys@.len() implies last_before(
                self.keys@,
                self.keys@[i],
                i,
                #[trigger] self.previous@[i],
            ) by {
                if i < position {
                    assert(last_before(
                        old(self).keys@,
                        old(self).keys@[i],
                        i,
                        old(self).previous@[i],
                    ));
                }
            }
            assert forall|k: u64|
                last_before(
                    self.keys@,
                    k,
                    self.keys@.len() as int,
                    #[trigger] self.latest_of(k),
                ) by {
                assert(last_before(
                    old(self).keys@,
                    k,
                    old(self).keys@.len() as int,
                    old(self).latest_of(k),
                ));
            }
        }
    }
}

} // verus!
