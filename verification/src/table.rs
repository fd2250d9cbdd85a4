//! A hash table keyed by a packed integer key, remembering the order its keys were
//! first inserted in so it can be walked and counted without walking the hash map.

use std::collections::HashMap;
use vstd::prelude::*;

verus! {

broadcast use vstd::std_specs::hash::group_hash_axioms;

/// A table from packed keys to values.
pub struct Table<V> {
    map: HashMap<u128, V>,
    order: Vec<u128>,
}

impl<V: Copy> Table<V> {
    /// The entries, as a mathematical map.
    pub closed spec fn view(&self) -> Map<u128, V> {
        self.map@
    }

    /// The keys, in the order they were first inserted.
    pub closed spec fn keys(&self) -> Seq<u128> {
        self.order@
    }

    /// Each key is recorded once, and the recorded keys are exactly the map's.
    pub closed spec fn wf(&self) -> bool {
        &&& self.order@.no_duplicates()
        &&& forall|k: u128| self.map@.contains_key(k) <==> self.order@.contains(k)
    }

    /// An empty table.
    pub fn new() -> (r: Table<V>)
        ensures
            r.wf(),
            r.view() == Map::<u128, V>::empty(),
            r.keys() == Seq::<u128>::empty(),
    {
        Table { map: HashMap::new(), order: Vec::new() }
    }

    /// The value recorded under `key`.
    pub fn get(&self, key: u128) -> (r: Option<V>)
        ensures
            r == (if self.view().contains_key(key) { Some(self.view()[key]) } else { None }),
    {
        match self.map.get(&key) {
            Some(v) => Some(*v),
            None => None,
        }
    }

    /// Records `value` under `key`, replacing any value recorded there.
    pub fn insert(&mut self, key: u128, value: V)
        requires
            old(self).wf(),
        ensures
            final(self).wf(),
            final(self).view() == old(self).view().insert(key, value),
            final(self).keys() == if old(self).view().contains_key(key) {
                old(self).keys()
            } else {
                old(self).keys().push(key)
            },
    {
        let fresh = !self.map.contains_key(&key);
        let ghost old_order = self.order@;
        self.map.insert(key, value);
        if fresh {
            self.order.push(key);
            proof {
                assert(!old_order.contains(key));
                assert forall|k: u128| self.map@.contains_key(k) <==> self.order@.contains(k) by {
                    if k != key && old_order.contains(k) {
                        let i = choose|i: int| 0 <= i < old_order.len() && old_order[i] == k;
                        assert(self.order@[i] == k);
                    }
                    if self.order@.contains(k) && k != key {
                        let i = choose|i: int| 0 <= i < self.order@.len() && self.order@[i] == k;
                        assert(i < old_order.len());
                        assert(old_order[i] == k);
                    }
                    if k == key {
                        assert(self.order@[old_order.len() as int] == key);
                    }
                }
            }
        }
    }

    /// The number of keys.
    pub fn len(&self) -> (r: usize)
        requires
            self.wf(),
        ensures
            r == self.view().len(),
            r == self.keys().len(),
    {
        proof {
            self.order@.unique_seq_to_set();
            assert(self.order@.to_set() =~= self.map@.dom());
        }
        self.order.len()
    }

    /// The key inserted `i`-th.
    pub fn key_at(&self, i: usize) -> (r: u128)
        requires
            i < self.keys().len(),
        ensures
            r == self.keys()[i as int],
    {
        self.order[i]
    }

    /// Records every entry of `other`, its value winning where both hold a key.
    pub fn absorb(&mut self, other: &Table<V>)
        requires
            old(self).wf(),
            other.wf(),
        ensures
            final(self).wf(),
            final(self).view() == old(self).view().union_prefer_right(other.view()),
    {
        let n = other.order.len();
        let ghost start = self.view();
        let mut i: usize = 0;
        while i < n
            invariant
                self.wf(),
                other.wf(),
                n == other.keys().len(),
                i <= n,
                self.view() == start.union_prefer_right(
                    other.view().restrict(other.keys().subrange(0, i as int).to_set()),
                ),
            decreases n - i,
        {
            let k = other.order[i];
            proof {
                other.lemma_keys_are_entries(i as int);
            }
            let v = match other.map.get(&k) {
                Some(v) => *v,
                None => {
                    assert(false);
                    return;
                },
            };
            self.insert(k, v);
            i = i + 1;
            proof {
                let before = other.keys().subrange(0, (i - 1) as int).to_set();
                let after = other.keys().subrange(0, i as int).to_set();
                let s1 = other.keys().subrange(0, (i - 1) as int);
                let s2 = other.keys().subrange(0, i as int);
                assert(s2 =~= s1.push(k));
                assert forall|x: u128| after.contains(x) <==> before.insert(k).contains(x) by {
                    if s2.contains(x) {
                        let j = choose|j: int| 0 <= j < s2.len() && s2[j] == x;
                        if j < s1.len() {
                            assert(s1[j] == x);
                        }
                    }
                    if s1.contains(x) {
                        let j = choose|j: int| 0 <= j < s1.len() && s1[j] == x;
                        assert(s2[j] == x);
                    }
                    if x == k {
                        assert(s2[s1.len() as int] == k);
                    }
                }
                assert(after =~= before.insert(k));
                assert(self.view() =~= start.union_prefer_right(other.view().restrict(after)));
            }
        }
        proof {
            assert(other.keys().subrange(0, n as int) =~= other.keys());
            assert(other.keys().to_set() =~= other.view().dom()) by {
                assert forall|k: u128| other.keys().to_set().contains(k) == other.view().dom().contains(k) by {}
            }
            assert(other.view().restrict(other.view().dom()) =~= other.view());
        }
    }

    /// Every key of a well-formed table has an entry.
    pub proof fn lemma_keys_are_entries(&self, i: int)
        requires
            self.wf(),
            0 <= i < self.keys().len(),
        ensures
            self.view().contains_key(self.keys()[i]),
    {
        assert(self.order@.contains(self.order@[i]));
    }

    /// In a well-formed table the keys are the entries' keys, each recorded once.
    pub proof fn lemma_dom_is_keys(&self)
        requires
            self.wf(),
        ensures
            self.keys().no_duplicates(),
            forall|k: u128| self.view().contains_key(k) <==> self.keys().contains(k),
    {
    }

    /// A copy of the table, with its keys in the same order.
    pub fn copy(&self) -> (r: Table<V>)
        requires
            self.wf(),
        ensures
            r.wf(),
            r.view() == self.view(),
            r.keys() == self.keys(),
    {
        let mut out: Table<V> = Table::new();
        let n = self.order.len();
        let mut i: usize = 0;
        while i < n
            invariant
                self.wf(),
                out.wf(),
                n == self.keys().len(),
                i <= n,
                out.keys() == self.keys().subrange(0, i as int),
                forall|j: int| 0 <= j < i ==> out.view().contains_key(#[trigger] self.keys()[j])
                    && out.view()[self.keys()[j]] == self.view()[self.keys()[j]],
            decreases n - i,
        {
            let k = self.order[i];
            proof {
                self.lemma_keys_are_entries(i as int);
                assert(!out.keys().contains(k)) by {
                    if out.keys().contains(k) {
                        let j = choose|j: int| 0 <= j < out.keys().len() && out.keys()[j] == k;
                        assert(self.keys()[j] == self.keys()[i as int]);
                    }
                }
            }
            let v = match self.get(k) {
                Some(v) => v,
                None => {
                    assert(false);
                    return out;
                },
            };
            let ghost before = out.view();
            out.insert(k, v);
            proof {
                assert(out.keys() =~= self.keys().subrange(0, i + 1));
                assert forall|j: int| 0 <= j < i + 1 implies out.view().contains_key(#[trigger] self.keys()[j])
                    && out.view()[self.keys()[j]] == self.view()[self.keys()[j]] by {
                    if j < i {
                        assert(self.keys()[j] != k);
                    }
                }
            }
            i = i + 1;
        }
        proof {
            assert(out.keys() =~= self.keys());
            assert forall|k: u128| out.view().contains_key(k) <==> self.view().contains_key(k) by {
                if self.view().contains_key(k) {
                    assert(self.order@.contains(k));
                    let j = choose|j: int| 0 <= j < self.keys().len() && self.keys()[j] == k;
                    assert(out.view().contains_key(self.keys()[j]));
                }
                if out.view().contains_key(k) {
                    assert(out.order@.contains(k));
                    assert(self.order@.contains(k));
                }
            }
            assert forall|k: u128| #[trigger] out.view().contains_key(k) implies out.view()[k] == self.view()[k] by {
                assert(out.order@.contains(k));
                assert(self.order@.contains(k));
                let j = choose|j: int| 0 <= j < self.keys().len() && self.keys()[j] == k;
                assert(out.view().contains_key(self.keys()[j]));
            }
            assert(out.view() =~= self.view());
        }
        out
    }
}


/// A table from packed keys to values that are not copied out: each key names a slot
/// of a vector of values.
pub struct Slots<V> {
    index: Table<usize>,
    values: Vec<V>,
}

impl<V> Slots<V> {
    /// The entries, as a mathematical map.
    pub closed spec fn view(&self) -> Map<u128, V> {
        Map::new(
            |k: u128| self.index.view().contains_key(k),
            |k: u128| self.values@[self.index.view()[k] as int],
        )
    }

    /// The keys, in the order they were first inserted.
    pub closed spec fn keys(&self) -> Seq<u128> {
        self.index.keys()
    }

    /// Every key names a slot of its own.
    pub closed spec fn wf(&self) -> bool {
        &&& self.index.wf()
        &&& forall|k: u128| #[trigger] self.index.view().contains_key(k) ==> self.index.view()[k] < self.values@.len()
        &&& forall|k1: u128, k2: u128|
            #[trigger] self.index.view().contains_key(k1) && #[trigger] self.index.view().contains_key(k2) && k1 != k2
                ==> self.index.view()[k1] != self.index.view()[k2]
    }

    /// An empty table.
    pub fn new() -> (r: Slots<V>)
        ensures
            r.wf(),
            r.view() == Map::<u128, V>::empty(),
            r.keys() == Seq::<u128>::empty(),
    {
        let r = Slots { index: Table::new(), values: Vec::new() };
        assert(r.view() =~= Map::<u128, V>::empty());
        r
    }

    /// The value recorded under `key`.
    pub fn get(&self, key: u128) -> (r: Option<&V>)
        requires
            self.wf(),
        ensures
            r matches Some(v) ==> self.view().contains_key(key) && *v == self.view()[key],
            r is None ==> !self.view().contains_key(key),
    {
        match self.index.get(key) {
            Some(i) => Some(&self.values[i]),
            None => None,
        }
    }

    /// The number of keys.
    pub fn len(&self) -> (r: usize)
        requires
            self.wf(),
        ensures
            r == self.view().len(),
            r == self.keys().len(),
    {
        let r = self.index.len();
        assert(self.view().dom() =~= self.index.view().dom());
        r
    }

    /// The key inserted `i`-th.
    pub fn key_at(&self, i: usize) -> (r: u128)
        requires
            i < self.keys().len(),
        ensures
            r == self.keys()[i as int],
    {
        self.index.key_at(i)
    }

    /// Every key of a well-formed table has an entry.
    pub proof fn lemma_keys_are_entries(&self, i: int)
        requires
            self.wf(),
            0 <= i < self.keys().len(),
        ensures
            self.view().contains_key(self.keys()[i]),
    {
        self.index.lemma_keys_are_entries(i);
    }

    /// In a well-formed table the keys are the entries' keys, each recorded once.
    pub proof fn lemma_dom_is_keys(&self)
        requires
            self.wf(),
        ensures
            self.keys().no_duplicates(),
            forall|k: u128| self.view().contains_key(k) <==> self.keys().contains(k),
    {
        self.index.lemma_dom_is_keys();
    }

    /// Records `value` under `key`, replacing any value recorded there.
    pub fn insert(&mut self, key: u128, value: V)
        requires
            old(self).wf(),
        ensures
            final(self).wf(),
            final(self).view() == old(self).view().insert(key, value),
            final(self).keys() == if old(self).view().contains_key(key) {
                old(self).keys()
            } else {
                old(self).keys().push(key)
            },
    {
        let ghost old_view = self.view();
        let ghost old_index = self.index.view();
        let ghost old_values = self.values@;
        match self.index.get(key) {
            Some(i) => {
                self.values.set(i, value);
                proof {
                    assert forall|k: u128| #[trigger] self.index.view().contains_key(k) implies self.index.view()[k]
                        < self.values@.len() by {}
                    assert(self.view() =~= old_view.insert(key, value)) by {
                        assert forall|k: u128| self.view().contains_key(k) implies self.view()[k]
                            == old_view.insert(key, value)[k] by {
                            if k != key {
                                assert(self.index.view()[k] != self.index.view()[key]);
                            }
                        }
                    }
                }
            },
            None => {
                let n = self.values.len();
                self.values.push(value);
                self.index.insert(key, n);
                proof {
                    assert forall|k: u128| #[trigger] self.index.view().contains_key(k) implies self.index.view()[k]
                        < self.values@.len() by {}
                    assert forall|k1: u128, k2: u128|
                        #[trigger] self.index.view().contains_key(k1) && #[trigger] self.index.view().contains_key(k2) && k1 != k2
                        implies self.index.view()[k1] != self.index.view()[k2] by {
                        if k1 != key && k2 != key {
                            assert(old_index.contains_key(k1) && old_index.contains_key(k2));
                        }
                    }
                    assert(self.view() =~= old_view.insert(key, value)) by {
                        assert forall|k: u128| self.view().contains_key(k) implies self.view()[k]
                            == old_view.insert(key, value)[k] by {
                            if k != key {
                                assert(old_index.contains_key(k));
                                assert(self.values@[old_index[k] as int] == old_values[old_index[k] as int]);
                            }
                        }
                    }
                }
            },
        }
    }
}

} // verus!
