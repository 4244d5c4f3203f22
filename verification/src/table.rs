//! A table from string keys to values, kept in insertion order.
//!
//! It is the map that the storage backends, the hash data structure and the
//! TTL bookkeeping are built on.

use vstd::prelude::*;

verus! {

/// A map from `String` keys to values; each key occurs at most once and the
/// pairs are kept in the order in which their keys were first inserted.
#[verifier::reject_recursive_types(V)]
pub struct Table<V> {
    entries: Vec<(String, V)>,
    contents: Ghost<Map<Seq<char>, V>>,
}

impl<V> View for Table<V> {
    type V = Map<Seq<char>, V>;

    closed spec fn view(&self) -> Map<Seq<char>, V> {
        self.contents@
    }
}

impl<V> Table<V> {
    /// The keys, in table order.
    pub closed spec fn key_seq(&self) -> Seq<Seq<char>> {
        Seq::new(self.entries@.len(), |i: int| self.entries@[i].0@)
    }

    /// The values, in table order.
    pub closed spec fn value_seq(&self) -> Seq<V> {
        Seq::new(self.entries@.len(), |i: int| self.entries@[i].1)
    }

    /// Well-formedness: keys are unique and the pairs are exactly the map.
    pub closed spec fn wf(&self) -> bool {
        &&& forall|i: int, j: int|
            0 <= i < j < self.entries@.len() ==> #[trigger] self.entries@[i].0@
                != #[trigger] self.entries@[j].0@
        &&& forall|i: int|
            0 <= i < self.entries@.len() ==> self.contents@.contains_key(
                #[trigger] self.entries@[i].0@,
            ) && self.contents@[self.entries@[i].0@] == self.entries@[i].1
        &&& forall|k: Seq<char>|
            #[trigger] self.contents@.contains_key(k) ==> exists|i: int|
                0 <= i < self.entries@.len() && #[trigger] self.entries@[i].0@ == k
    }

    /// The key sequence has no duplicates and covers the map's domain.
    pub proof fn lemma_keys(&self)
        requires
            self.wf(),
        ensures
            self.key_seq().no_duplicates(),
            self.key_seq().to_set() == self@.dom(),
            self.key_seq().len() == self@.len(),
            self@.dom().finite(),
            self.value_seq().len() == self.key_seq().len(),
            forall|i: int|
                0 <= i < self.key_seq().len() ==> #[trigger] self@[self.key_seq()[i]]
                    == self.value_seq()[i],
    {
        let ks = self.key_seq();
        assert forall|i: int, j: int|
            0 <= i < ks.len() && 0 <= j < ks.len() && i != j implies ks[i] != ks[j] by {
            if i < j {
                assert(self.entries@[i].0@ != self.entries@[j].0@);
            } else {
                assert(self.entries@[j].0@ != self.entries@[i].0@);
            }
        }
        assert forall|k: Seq<char>| ks.to_set().contains(k) <==> self@.dom().contains(k) by {
            if self@.dom().contains(k) {
                let i = choose|i: int| 0 <= i < self.entries@.len() && self.entries@[i].0@ == k;
                assert(ks[i] == k);
            }
            if ks.to_set().contains(k) {
                let i = choose|i: int| 0 <= i < ks.len() && ks[i] == k;
                assert(self.entries@[i].0@ == k);
            }
        }
        assert(ks.to_set() =~= self@.dom());
        ks.unique_seq_to_set();
    }

    /// An empty table.
    pub fn new() -> (t: Self)
        ensures
            t.wf(),
            t@ == Map::<Seq<char>, V>::empty(),
            t.key_seq() == Seq::<Seq<char>>::empty(),
    {
        let t = Table { entries: Vec::new(), contents: Ghost(Map::empty()) };
        assert(t.key_seq() =~= Seq::<Seq<char>>::empty());
        t
    }

    /// The number of keys.
    pub fn len(&self) -> (n: usize)
        requires
            self.wf(),
        ensures
            n == self@.len(),
    {
        proof {
            self.lemma_keys();
        }
        self.entries.len()
    }

    /// The position of `key`, if it is present.
    fn find(&self, key: &str) -> (r: Option<usize>)
        requires
            self.wf(),
        ensures
            match r {
                Some(i) => i < self.entries@.len() && self.entries@[i as int].0@ == key@,
                None => !self@.contains_key(key@),
            },
    {
        let k = key.to_owned();
        let mut i: usize = 0;
        while i < self.entries.len()
            invariant
                self.wf(),
                k@ == key@,
                i <= self.entries@.len(),
                forall|j: int| 0 <= j < i ==> self.entries@[j].0@ != key@,
            decreases self.entries@.len() - i,
        {
            if self.entries[i].0 == k {
                return Some(i);
            }
            i = i + 1;
        }
        None
    }

    /// Whether `key` is present.
    pub fn contains_key(&self, key: &str) -> (r: bool)
        requires
            self.wf(),
        ensures
            r == self@.contains_key(key@),
    {
        self.find(key).is_some()
    }

    /// The value under `key`, if any.
    pub fn get(&self, key: &str) -> (r: Option<&V>)
        requires
            self.wf(),
        ensures
            match r {
                Some(v) => self@.contains_key(key@) && *v == self@[key@],
                None => !self@.contains_key(key@),
            },
    {
        match self.find(key) {
            Some(i) => Some(&self.entries[i].1),
            None => None,
        }
    }

    /// Puts `value` under `key`, in place if the key is present and at the
    /// end otherwise; gives back the value that it replaced.
    pub fn insert(&mut self, key: String, value: V) -> (r: Option<V>)
        requires
            old(self).wf(),
        ensures
            final(self).wf(),
            final(self)@ == old(self)@.insert(key@, value),
            match r {
                Some(v) => old(self)@.contains_key(key@) && v == old(self)@[key@],
                None => !old(self)@.contains_key(key@),
            },
            old(self)@.contains_key(key@) ==> final(self).key_seq() == old(self).key_seq(),
            !old(self)@.contains_key(key@) ==> final(self).key_seq() == old(self).key_seq().push(
                key@,
            ),
    {
        let ghost k = key@;
        let ghost old_entries = self.entries@;
        match self.find(key.as_str()) {
            Some(i) => {
                let mut pair = (key, value);
                let ghost new_pair = pair;
                std::mem::swap(&mut pair, &mut self.entries[i]);
                self.contents = Ghost(self.contents@.insert(k, new_pair.1));
                proof {
                    assert(self.entries@ == old_entries.update(i as int, new_pair));
                    assert forall|j: int|
                        0 <= j < self.entries@.len() implies self.contents@.contains_key(
                        #[trigger] self.entries@[j].0@,
                    ) && self.contents@[self.entries@[j].0@] == self.entries@[j].1 by {
                        if j != i {
                            assert(old_entries[j].0@ != k);
                        }
                    }
                    assert forall|kk: Seq<char>| #[trigger]
                        self.contents@.contains_key(kk) implies exists|j: int|
                        0 <= j < self.entries@.len() && #[trigger] self.entries@[j].0@ == kk by {
                        if kk != k {
                            let j = choose|j: int|
                                0 <= j < old_entries.len() && old_entries[j].0@ == kk;
                            assert(self.entries@[j].0@ == kk);
                        } else {
                            assert(self.entries@[i as int].0@ == kk);
                        }
                    }
                    assert(self.key_seq() =~= old(self).key_seq());
                }
                Some(pair.1)
            },
            None => {
                self.entries.push((key, value));
                self.contents = Ghost(self.contents@.insert(k, value));
                proof {
                    let n = old_entries.len() as int;
                    assert forall|kk: Seq<char>| #[trigger]
                        self.contents@.contains_key(kk) implies exists|j: int|
                        0 <= j < self.entries@.len() && #[trigger] self.entries@[j].0@ == kk by {
                        if kk != k {
                            let j = choose|j: int|
                                0 <= j < old_entries.len() && old_entries[j].0@ == kk;
                            assert(self.entries@[j].0@ == kk);
                        } else {
                            assert(self.entries@[n].0@ == kk);
                        }
                    }
                    assert forall|a: int, b: int|
                        0 <= a < b < self.entries@.len() implies #[trigger] self.entries@[a].0@
                        != #[trigger] self.entries@[b].0@ by {
                        if b == n {
                            assert(old(self)@.contains_key(old_entries[a].0@));
                        }
                    }
                    assert(self.key_seq() =~= old(self).key_seq().push(k));
                }
                None
            },
        }
    }

    /// Takes `key` out of the table, keeping the order of the others;
    /// gives back its value.
    pub fn remove(&mut self, key: &str) -> (r: Option<V>)
        requires
            old(self).wf(),
        ensures
            final(self).wf(),
            final(self)@ == old(self)@.remove(key@),
            match r {
                Some(v) => old(self)@.contains_key(key@) && v == old(self)@[key@],
                None => !old(self)@.contains_key(key@) && final(self).key_seq() == old(
                    self,
                ).key_seq(),
            },
    {
        let ghost old_entries = self.entries@;
        match self.find(key) {
            Some(i) => {
                let pair = self.entries.remove(i);
                self.contents = Ghost(self.contents@.remove(key@));
                proof {
                    assert forall|j: int|
                        0 <= j < self.entries@.len() implies self.contents@.contains_key(
                        #[trigger] self.entries@[j].0@,
                    ) && self.contents@[self.entries@[j].0@] == self.entries@[j].1 by {
                        if j < i {
                            assert(self.entries@[j] == old_entries[j]);
                        } else {
                            assert(self.entries@[j] == old_entries[j + 1]);
                        }
                    }
                    assert forall|kk: Seq<char>| #[trigger]
                        self.contents@.contains_key(kk) implies exists|j: int|
                        0 <= j < self.entries@.len() && #[trigger] self.entries@[j].0@ == kk by {
                        let j = choose|j: int|
                            0 <= j < old_entries.len() && old_entries[j].0@ == kk;
                        if j < i {
                            assert(self.entries@[j].0@ == kk);
                        } else {
                            assert(j != i);
                            assert(self.entries@[j - 1].0@ == kk);
                        }
                    }
                    assert forall|a: int, b: int|
                        0 <= a < b < self.entries@.len() implies #[trigger] self.entries@[a].0@
                        != #[trigger] self.entries@[b].0@ by {
                        let a2 = if a < i { a } else { a + 1 };
                        let b2 = if b < i { b } else { b + 1 };
                        assert(self.entries@[a] == old_entries[a2]);
                        assert(self.entries@[b] == old_entries[b2]);
                    }
                }
                Some(pair.1)
            },
            None => {
                assert(self.contents@.remove(key@) =~= self.contents@);
                None
            },
        }
    }

    /// Removes every key.
    pub fn clear(&mut self)
        requires
            old(self).wf(),
        ensures
            final(self).wf(),
            final(self)@ == Map::<Seq<char>, V>::empty(),
            final(self).key_seq() == Seq::<Seq<char>>::empty(),
    {
        self.entries.clear();
        self.contents = Ghost(Map::empty());
        assert(self.key_seq() =~= Seq::<Seq<char>>::empty());
    }

    /// The keys, in table order.
    pub fn keys(&self) -> (r: Vec<String>)
        requires
            self.wf(),
        ensures
            r@.len() == self.key_seq().len(),
            forall|i: int| 0 <= i < r@.len() ==> #[trigger] r@[i]@ == self.key_seq()[i],
    {
        let mut r: Vec<String> = Vec::new();
        let mut i: usize = 0;
        while i < self.entries.len()
            invariant
                i <= self.entries@.len(),
                r@.len() == i,
                forall|j: int| 0 <= j < i ==> #[trigger] r@[j]@ == self.entries@[j].0@,
            decreases self.entries@.len() - i,
        {
            r.push(self.entries[i].0.clone());
            i = i + 1;
        }
        r
    }

    /// References to the keys, in table order.
    pub fn key_refs(&self) -> (r: Vec<&String>)
        requires
            self.wf(),
        ensures
            r@.len() == self.key_seq().len(),
            forall|i: int| 0 <= i < r@.len() ==> (#[trigger] r@[i])@ == self.key_seq()[i],
    {
        let mut r: Vec<&String> = Vec::new();
        let mut i: usize = 0;
        while i < self.entries.len()
            invariant
                i <= self.entries@.len(),
                r@.len() == i,
                forall|j: int| 0 <= j < i ==> (#[trigger] r@[j])@ == self.entries@[j].0@,
            decreases self.entries@.len() - i,
        {
            r.push(&self.entries[i].0);
            i = i + 1;
        }
        r
    }

    /// References to the values, in table order.
    pub fn values(&self) -> (r: Vec<&V>)
        requires
            self.wf(),
        ensures
            r@.len() == self.value_seq().len(),
            forall|i: int| 0 <= i < r@.len() ==> *#[trigger] r@[i] == self.value_seq()[i],
    {
        let mut r: Vec<&V> = Vec::new();
        let mut i: usize = 0;
        while i < self.entries.len()
            invariant
                i <= self.entries@.len(),
                r@.len() == i,
                forall|j: int| 0 <= j < i ==> *#[trigger] r@[j] == self.entries@[j].1,
            decreases self.entries@.len() - i,
        {
            r.push(&self.entries[i].1);
            i = i + 1;
        }
        r
    }

    /// The `i`-th key and value, in table order.
    pub fn entry_at(&self, i: usize) -> (r: (&String, &V))
        requires
            self.wf(),
            i < self.key_seq().len(),
        ensures
            r.0@ == self.key_seq()[i as int],
            *r.1 == self.value_seq()[i as int],
    {
        let e = &self.entries[i];
        (&e.0, &e.1)
    }
}

} // verus!
