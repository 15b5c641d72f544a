//! An ordered map with string keys.

use vstd::prelude::*;

use crate::text::{
    lemma_str_leq_antisymmetric, lemma_str_leq_reflexive, lemma_str_lt_transitive,
    lemma_str_not_leq, str_le, str_lt,
};

verus! {

/// Keys in strictly increasing lexicographic order.
pub open spec fn strictly_sorted(keys: Seq<Seq<char>>) -> bool {
    forall|i: int, j: int| 0 <= i < j < keys.len() ==> #[trigger] str_lt(keys[i], keys[j])
}

/// Position of a key in a sequence of distinct keys.
pub open spec fn key_index(keys: Seq<Seq<char>>, k: Seq<char>) -> int {
    choose|i: int| 0 <= i < keys.len() && keys[i] == k
}

/// A finite map from strings to values, kept ordered by key: the portable
/// counterpart of an ordered tree map with string keys.
pub struct OrderedMap<T: View> {
    entries: Vec<(String, T)>,
}

impl<T: View> View for OrderedMap<T> {
    type V = Map<Seq<char>, T::V>;

    closed spec fn view(&self) -> Map<Seq<char>, T::V> {
        Map::new(
            |k: Seq<char>| self.keys().contains(k),
            |k: Seq<char>| self.values()[key_index(self.keys(), k)],
        )
    }
}

/// The keys of a sequence of entries.
pub open spec fn entry_keys<T>(e: Seq<(String, T)>) -> Seq<Seq<char>> {
    e.map_values(|p: (String, T)| p.0@)
}

impl<T: View> OrderedMap<T> {
    /// The keys, in increasing order.
    pub closed spec fn keys(&self) -> Seq<Seq<char>> {
        entry_keys(self.entries@)
    }

    /// The values, in the order of their keys.
    pub closed spec fn values(&self) -> Seq<T::V> {
        self.entries@.map_values(|p: (String, T)| p.1@)
    }

    #[verifier::type_invariant]
    spec fn sorted(&self) -> bool {
        strictly_sorted(self.keys())
    }

    /// How the ordered keys and values make up the map.
    pub open spec fn ordered(&self) -> bool {
        &&& strictly_sorted(self.keys())
        &&& self.keys().len() == self.values().len()
        &&& self.keys().no_duplicates()
        &&& self@.dom() == self.keys().to_set()
        &&& self@.dom().finite()
        &&& self@.dom().len() == self.keys().len()
        &&& forall|i: int|
            0 <= i < self.keys().len() ==> #[trigger] self@[self.keys()[i]] == self.values()[i]
    }

    proof fn lemma_index(&self, j: int)
        requires
            strictly_sorted(self.keys()),
            0 <= j < self.keys().len(),
        ensures
            key_index(self.keys(), self.keys()[j]) == j,
    {
        let i = key_index(self.keys(), self.keys()[j]);
        assert(0 <= i < self.keys().len() && self.keys()[i] == self.keys()[j]);
        if i < j {
            assert(str_lt(self.keys()[i], self.keys()[j]));
        } else if j < i {
            assert(str_lt(self.keys()[j], self.keys()[i]));
        }
    }

    proof fn lemma_ordered(&self)
        requires
            strictly_sorted(self.keys()),
        ensures
            self.ordered(),
    {
        assert(self.keys().no_duplicates()) by {
            assert forall|i: int, j: int|
                0 <= i < self.keys().len() && 0 <= j < self.keys().len() && i != j implies self.keys()[i]
                != self.keys()[j] by {
                if i < j {
                    assert(str_lt(self.keys()[i], self.keys()[j]));
                } else {
                    assert(str_lt(self.keys()[j], self.keys()[i]));
                }
            }
        }
        assert(self@.dom() =~= self.keys().to_set());
        self.keys().unique_seq_to_set();
        assert forall|i: int| 0 <= i < self.keys().len() implies #[trigger] self@[self.keys()[i]]
            == self.values()[i] by {
            self.lemma_index(i);
        }
    }

    pub fn new() -> (r: Self)
        ensures
            r.ordered(),
            r@ == Map::<Seq<char>, T::V>::empty(),
            r.keys() == Seq::<Seq<char>>::empty(),
    {
        let r = OrderedMap { entries: Vec::new() };
        proof {
            assert(r.keys() =~= Seq::<Seq<char>>::empty());
            r.lemma_ordered();
            assert(r@ =~= Map::<Seq<char>, T::V>::empty());
        }
        r
    }

    pub fn len(&self) -> (n: usize)
        ensures
            self.ordered(),
            n == self.keys().len(),
            n == self@.dom().len(),
    {
        proof {
            use_type_invariant(self);
            self.lemma_ordered();
        }
        self.entries.len()
    }

    pub fn is_empty(&self) -> (b: bool)
        ensures
            self.ordered(),
            b == (self@.dom().len() == 0),
    {
        proof {
            use_type_invariant(self);
            self.lemma_ordered();
        }
        self.entries.len() == 0
    }

    pub fn key_at(&self, i: usize) -> (k: &String)
        requires
            i < self.keys().len(),
        ensures
            self.ordered(),
            k@ == self.keys()[i as int],
    {
        proof {
            use_type_invariant(self);
            self.lemma_ordered();
        }
        &self.entries[i].0
    }

    pub fn value_at(&self, i: usize) -> (v: &T)
        requires
            i < self.keys().len(),
        ensures
            self.ordered(),
            v@ == self.values()[i as int],
            v@ == self@[self.keys()[i as int]],
    {
        proof {
            use_type_invariant(self);
            self.lemma_ordered();
        }
        &self.entries[i].1
    }

    /// Where `key` stands, or should stand, in the key order, and whether it is there.
    fn locate(&self, key: &str) -> (r: (usize, bool))
        ensures
            strictly_sorted(self.keys()),
            r.0 <= self.keys().len(),
            r.1 == (r.0 < self.keys().len() && self.keys()[r.0 as int] == key@),
            forall|i: int| 0 <= i < r.0 ==> str_lt(#[trigger] self.keys()[i], key@),
            !r.1 ==> forall|i: int|
                r.0 <= i < self.keys().len() ==> str_lt(key@, #[trigger] self.keys()[i]),
    {
        proof { use_type_invariant(self); }
        let n = self.entries.len();
        let mut i: usize = 0;
        while i < n
            invariant
                strictly_sorted(self.keys()),
                n == self.keys().len(),
                i <= n,
                forall|j: int| 0 <= j < i ==> str_lt(#[trigger] self.keys()[j], key@),
            decreases n - i,
        {
            let k = self.entries[i].0.as_str();
            if str_le(key, k) {
                let same = str_le(k, key);
                proof {
                    if same {
                        lemma_str_leq_antisymmetric(key@, self.keys()[i as int]);
                    }
                    assert forall|j: int| i <= j < n implies str_lt(key@, #[trigger] self.keys()[j]) || (
                    same && j == i) by {
                        if j > i {
                            assert(str_lt(self.keys()[i as int], self.keys()[j]));
                            if !same {
                                if key@ == self.keys()[i as int] {
                                    lemma_str_leq_reflexive(key@);
                                }
                                lemma_str_lt_transitive(key@, self.keys()[i as int], self.keys()[j]);
                            }
                        }
                    }
                }
                return (i, same);
            }
            proof {
                lemma_str_not_leq(key@, self.keys()[i as int]);
            }
            i = i + 1;
        }
        (n, false)
    }

    /// Position of `key`, if present.
    pub fn find(&self, key: &str) -> (r: Option<usize>)
        ensures
            self.ordered(),
            match r {
                Some(i) => i < self.keys().len() && self.keys()[i as int] == key@,
                None => !self@.dom().contains(key@),
            },
    {
        let (i, found) = self.locate(key);
        proof { self.lemma_ordered(); }
        if found {
            Some(i)
        } else {
            proof {
                if self@.dom().contains(key@) {
                    let j = key_index(self.keys(), key@);
                    assert(0 <= j < self.keys().len() && self.keys()[j] == key@);
                    if j < i {
                        assert(str_lt(self.keys()[j], key@));
                    } else {
                        assert(str_lt(key@, self.keys()[j]));
                    }
                }
            }
            None
        }
    }

    /// The value stored under `key`, if any.
    pub fn get(&self, key: &str) -> (r: Option<&T>)
        ensures
            self.ordered(),
            match r {
                Some(v) => self@.dom().contains(key@) && v@ == self@[key@],
                None => !self@.dom().contains(key@),
            },
    {
        match self.find(key) {
            Some(i) => Some(&self.entries[i].1),
            None => None,
        }
    }

    /// Removes the entry at position `i` and hands back its key and value.
    pub fn remove_at(&mut self, i: usize) -> (r: (String, T))
        requires
            i < old(self).keys().len(),
        ensures
            old(self).ordered(),
            final(self).ordered(),
            r.0@ == old(self).keys()[i as int],
            r.1@ == old(self)@[r.0@],
            final(self)@ == old(self)@.remove(r.0@),
    {
        proof {
            use_type_invariant(&*self);
            self.lemma_ordered();
        }
        let ghost old_self = *self;
        let mut entries: Vec<(String, T)> = Vec::new();
        std::mem::swap(&mut entries, &mut self.entries);
        let ghost old_entries = entries@;
        let r = entries.remove(i);
        proof {
            let ok = old_self.keys();
            assert(entry_keys(entries@) =~= ok.remove(i as int));
            assert forall|a: int, b: int| 0 <= a < b < entry_keys(entries@).len() implies #[trigger] str_lt(
                entry_keys(entries@)[a], entry_keys(entries@)[b]) by {
                let na = if a < i { a } else { a + 1 };
                let nb = if b < i { b } else { b + 1 };
                assert(str_lt(ok[na], ok[nb]));
            }
        }
        self.entries = entries;
        proof {
            self.lemma_ordered();
            let ok = old_self.keys();
            let k = r.0@;
            assert(self.keys() =~= ok.remove(i as int));
            assert(self.values() =~= old_self.values().remove(i as int));
            assert forall|x: Seq<char>| #[trigger] self.keys().contains(x) <==> (ok.contains(x) && x != k) by {
                if ok.contains(x) && x != k {
                    let j = choose|j: int| 0 <= j < ok.len() && ok[j] == x;
                    if j < i {
                        assert(self.keys()[j] == x);
                    } else {
                        assert(j != i);
                        assert(self.keys()[j - 1] == x);
                    }
                }
                if self.keys().contains(x) {
                    let j = choose|j: int| 0 <= j < self.keys().len() && self.keys()[j] == x;
                    if j < i {
                        assert(ok[j] == x);
                        assert(str_lt(ok[j], ok[i as int]));
                    } else {
                        assert(ok[j + 1] == x);
                        assert(str_lt(ok[i as int], ok[j + 1]));
                    }
                }
            }
            assert forall|x: Seq<char>| #[trigger] self@.dom().contains(x) implies self@[x] == old_self@[x] by {
                let j = key_index(self.keys(), x);
                self.lemma_index(j);
                if j < i {
                    old_self.lemma_index(j);
                } else {
                    old_self.lemma_index(j + 1);
                }
            }
            assert(self@ =~= old_self@.remove(k));
        }
        r
    }

    /// Inserts or replaces the value under `key`; tells whether the key is new.
    pub fn upsert(&mut self, key: String, val: T) -> (added: bool)
        ensures
            final(self).ordered(),
            final(self)@ == old(self)@.insert(key@, val@),
            added == !old(self)@.dom().contains(key@),
    {
        let (i, found) = self.locate(key.as_str());
        proof {
            use_type_invariant(&*self);
            self.lemma_ordered();
        }
        let ghost old_self = *self;
        let ghost kv = key@;
        let ghost vv = val@;
        let mut entries: Vec<(String, T)> = Vec::new();
        std::mem::swap(&mut entries, &mut self.entries);
        let ghost ok = old_self.keys();
        if found {
            entries.set(i, (key, val));
            proof {
                assert(entry_keys(entries@) =~= ok);
            }
        } else {
            proof {
                if old_self@.dom().contains(kv) {
                    let j = key_index(ok, kv);
                    if j < i {
                        assert(str_lt(ok[j], kv));
                    } else {
                        assert(str_lt(kv, ok[j]));
                    }
                }
            }
            entries.insert(i, (key, val));
            proof {
                assert(entry_keys(entries@) =~= ok.insert(i as int, kv));
                assert forall|a: int, b: int| 0 <= a < b < entry_keys(entries@).len() implies #[trigger] str_lt(
                    entry_keys(entries@)[a], entry_keys(entries@)[b]) by {
                    let ek = entry_keys(entries@);
                    if b < i {
                        assert(str_lt(ok[a], ok[b]));
                    } else if b == i {
                    } else if a == i {
                    } else if a < i {
                        assert(str_lt(ok[a], kv));
                        lemma_str_lt_transitive(ok[a], kv, ok[b - 1]);
                    } else {
                        assert(str_lt(ok[a - 1], ok[b - 1]));
                    }
                }
            }
        }
        self.entries = entries;
        proof {
            self.lemma_ordered();
            if found {
                assert(self.keys() =~= ok);
                assert(self.values() =~= old_self.values().update(i as int, vv));
                assert forall|k: Seq<char>| #[trigger] self@.dom().contains(k) implies self@[k]
                    == old_self@.insert(kv, vv)[k] by {
                    let j = key_index(self.keys(), k);
                    self.lemma_index(j);
                    old_self.lemma_index(j);
                }
            } else {
                assert(self.keys() =~= ok.insert(i as int, kv));
                assert(self.values() =~= old_self.values().insert(i as int, vv));
                assert forall|k: Seq<char>| #[trigger] self.keys().contains(k) <==> (ok.contains(k) || k == kv) by {
                    if ok.contains(k) {
                        let j = choose|j: int| 0 <= j < ok.len() && ok[j] == k;
                        if j < i {
                            assert(self.keys()[j] == k);
                        } else {
                            assert(self.keys()[j + 1] == k);
                        }
                    }
                    if k == kv {
                        assert(self.keys()[i as int] == k);
                    }
                    if self.keys().contains(k) {
                        let j = choose|j: int| 0 <= j < self.keys().len() && self.keys()[j] == k;
                        if j < i {
                            assert(ok[j] == k);
                        } else if j > i {
                            assert(ok[j - 1] == k);
                        }
                    }
                }
                assert forall|k: Seq<char>| #[trigger] self@.dom().contains(k) implies self@[k]
                    == old_self@.insert(kv, vv)[k] by {
                    let j = key_index(self.keys(), k);
                    self.lemma_index(j);
                    if j < i {
                        old_self.lemma_index(j);
                    } else if j > i {
                        old_self.lemma_index(j - 1);
                    }
                }
            }
            assert(self@ =~= old_self@.insert(kv, vv));
        }
        !found
    }
}

} // verus!
