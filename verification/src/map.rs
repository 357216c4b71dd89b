//! A map from strings to values, kept as a vector of entries with distinct keys.
//! Its view is a `Map` from the keys' characters to the values' deep views.
use vstd::prelude::*;

verus! {

/// A map keyed by strings; inserting a present key replaces its value.
#[derive(Debug)]
pub struct StrMap<V> {
    entries: Vec<(String, V)>,
}

impl<V> StrMap<V> {
    /// No key occurs twice.
    #[verifier::type_invariant]
    spec fn keys_distinct(self) -> bool {
        forall|i: int, j: int|
            0 <= i < self.entries@.len() && 0 <= j < self.entries@.len() && i != j
                ==> self.entries@[i].0@ != self.entries@[j].0@
    }

    /// The keys, in storage order.
    spec fn key_seq(self) -> Seq<Seq<char>> {
        self.entries@.map_values(|e: (String, V)| e.0@)
    }

    /// Some entry holds `k`.
    spec fn has_key(self, k: Seq<char>) -> bool {
        exists|i: int| 0 <= i < self.entries@.len() && self.entries@[i].0@ == k
    }

    /// The index of an entry holding `k`.
    spec fn index_for(self, k: Seq<char>) -> int {
        choose|i: int| 0 <= i < self.entries@.len() && self.entries@[i].0@ == k
    }
}

impl<V: DeepView> View for StrMap<V> {
    type V = Map<Seq<char>, V::V>;

    closed spec fn view(&self) -> Map<Seq<char>, V::V> {
        Map::new(
            |k: Seq<char>| self.has_key(k),
            |k: Seq<char>| self.entries@[self.index_for(k)].1.deep_view(),
        )
    }
}

impl<V: DeepView> StrMap<V> {
    proof fn lemma_entry(self, i: int)
        requires
            self.keys_distinct(),
            0 <= i < self.entries@.len(),
        ensures
            self@.contains_key(self.entries@[i].0@),
            self@[self.entries@[i].0@] == self.entries@[i].1.deep_view(),
    {
        let k = self.entries@[i].0@;
        assert(self.has_key(k));
        let j = self.index_for(k);
        assert(j == i);
    }

    /// An empty map.
    pub fn new() -> (r: Self)
        ensures
            r@ == Map::<Seq<char>, V::V>::empty(),
    {
        let r = StrMap { entries: Vec::new() };
        assert(r@ =~= Map::<Seq<char>, V::V>::empty());
        r
    }

    /// The index of the entry holding `key`.
    fn index_of(&self, key: &str) -> (r: Option<usize>)
        ensures
            r matches Some(i) ==> i < self.entries@.len() && self.entries@[i as int].0@ == key@,
            r is None ==> !self@.contains_key(key@),
    {
        let wanted = key.to_owned();
        let mut i: usize = 0;
        while i < self.entries.len()
            invariant
                i <= self.entries@.len(),
                wanted@ == key@,
                forall|j: int| 0 <= j < i ==> self.entries@[j].0@ != key@,
            decreases self.entries@.len() - i,
        {
            if self.entries[i].0 == wanted {
                return Some(i);
            }
            i = i + 1;
        }
        None
    }

    /// The value held under `key`.
    pub fn get(&self, key: &str) -> (r: Option<&V>)
        ensures
            r is Some <==> self@.contains_key(key@),
            r matches Some(v) ==> v.deep_view() == self@[key@],
    {
        proof {
            use_type_invariant(self);
        }
        match self.index_of(key) {
            Some(i) => {
                proof {
                    self.lemma_entry(i as int);
                }
                Some(&self.entries[i].1)
            },
            None => None,
        }
    }

    /// Whether `key` is present.
    pub fn contains_key(&self, key: &str) -> (r: bool)
        ensures
            r == self@.contains_key(key@),
    {
        proof {
            use_type_invariant(self);
        }
        match self.index_of(key) {
            Some(i) => {
                proof {
                    self.lemma_entry(i as int);
                }
                true
            },
            None => false,
        }
    }

    proof fn lemma_dom(self)
        requires
            self.keys_distinct(),
        ensures
            self@.dom() == self.key_seq().to_set(),
            self@.dom().finite(),
            self@.dom().len() == self.entries@.len(),
    {
        let keys = self.key_seq();
        assert(keys.no_duplicates());
        keys.unique_seq_to_set();
        assert forall|k: Seq<char>| self@.dom().contains(k) <==> keys.to_set().contains(k) by {
            if self@.dom().contains(k) {
                let i = self.index_for(k);
                assert(keys[i] == k);
            }
            if keys.to_set().contains(k) {
                let i = choose|i: int| 0 <= i < keys.len() && keys[i] == k;
                assert(self.entries@[i].0@ == k);
            }
        }
        assert(self@.dom() =~= keys.to_set());
        vstd::seq_lib::seq_to_set_is_finite(keys);
    }

    /// The number of keys.
    pub fn len(&self) -> (r: usize)
        ensures
            r == self@.dom().len(),
    {
        proof {
            use_type_invariant(self);
            self.lemma_dom();
        }
        self.entries.len()
    }

    /// The keys, each once, in storage order.
    pub fn keys(&self) -> (r: Vec<String>)
        ensures
            r@.map_values(|k: String| k@).no_duplicates(),
            r@.map_values(|k: String| k@).to_set() == self@.dom(),
            r@.len() == self@.dom().len(),
    {
        proof {
            use_type_invariant(self);
            self.lemma_dom();
        }
        let mut out: Vec<String> = Vec::new();
        let mut i: usize = 0;
        while i < self.entries.len()
            invariant
                i <= self.entries@.len(),
                out@.map_values(|k: String| k@) == self.key_seq().take(i as int),
            decreases self.entries@.len() - i,
        {
            let ghost before = out@.map_values(|k: String| k@);
            out.push(self.entries[i].0.clone());
            assert(out@.map_values(|k: String| k@) =~= before.push(self.entries@[i as int].0@));
            assert(self.key_seq().take(i + 1) =~= self.key_seq().take(i as int).push(
                self.entries@[i as int].0@,
            ));
            i = i + 1;
        }
        assert(self.key_seq().take(i as int) =~= self.key_seq());
        assert(self.key_seq().no_duplicates());
        out
    }

    /// Sets the value under `key`, replacing any earlier one.
    pub fn insert(&mut self, key: String, value: V)
        ensures
            final(self)@ == old(self)@.insert(key@, value.deep_view()),
    {
        proof {
            use_type_invariant(&*self);
        }
        let ghost old_map = self@;
        let ghost k = key@;
        let ghost dv = value.deep_view();
        match self.index_of(key.as_str()) {
            Some(i) => {
                let ghost before = self.entries@;
                let mut entries = Vec::new();
                std::mem::swap(&mut entries, &mut self.entries);
                entries.set(i, (key, value));
                self.entries = entries;
                proof {
                    assert forall|x: Seq<char>| #![auto] self@.contains_key(x) <==> old_map.insert(k, dv).contains_key(x) by {
                        if self.has_key(x) {
                            let j = self.index_for(x);
                            if j != i {
                                assert(before[j].0@ == x);
                            }
                        }
                        if old_map.contains_key(x) && x != k {
                            let j = choose|j: int| 0 <= j < before.len() && before[j].0@ == x;
                            assert(self.entries@[j].0@ == x);
                        }
                        if x == k {
                            assert(self.entries@[i as int].0@ == x);
                        }
                    }
                    assert forall|x: Seq<char>| #![auto] self@.contains_key(x) implies self@[x] == old_map.insert(k, dv)[x] by {
                        let j = self.index_for(x);
                        if x == k {
                            assert(j == i);
                        } else {
                            assert(j != i);
                            assert(before[j].0@ == x);
                            let j0 = choose|j0: int| 0 <= j0 < before.len() && before[j0].0@ == x;
                            assert(j0 == j);
                        }
                    }
                    assert(self@ =~= old_map.insert(k, dv));
                }
            },
            None => {
                let ghost before = self.entries@;
                let mut entries = Vec::new();
                std::mem::swap(&mut entries, &mut self.entries);
                entries.push((key, value));
                self.entries = entries;
                proof {
                    let n = before.len() as int;
                    assert forall|x: Seq<char>| #![auto] self@.contains_key(x) <==> old_map.insert(k, dv).contains_key(x) by {
                        if self.has_key(x) && x != k {
                            let j = self.index_for(x);
                            assert(j != n);
                            assert(before[j].0@ == x);
                        }
                        if old_map.contains_key(x) && x != k {
                            let j = choose|j: int| 0 <= j < before.len() && before[j].0@ == x;
                            assert(self.entries@[j].0@ == x);
                        }
                        if x == k {
                            assert(self.entries@[n].0@ == x);
                        }
                    }
                    assert forall|x: Seq<char>| #![auto] self@.contains_key(x) implies self@[x] == old_map.insert(k, dv)[x] by {
                        let j = self.index_for(x);
                        if x == k {
                            assert(self.entries@[n].0@ == x);
                            assert(j == n);
                        } else {
                            assert(j != n);
                            assert(before[j].0@ == x);
                            let j0 = choose|j0: int| 0 <= j0 < before.len() && before[j0].0@ == x;
                            assert(j0 == j);
                        }
                    }
                    assert(self@ =~= old_map.insert(k, dv));
                }
            },
        }
    }

    /// Removes `key` and returns the value it held.
    pub fn remove(&mut self, key: &str) -> (r: Option<V>)
        ensures
            final(self)@ == old(self)@.remove(key@),
            r is Some <==> old(self)@.contains_key(key@),
            r matches Some(v) ==> v.deep_view() == old(self)@[key@],
    {
        proof {
            use_type_invariant(&*self);
        }
        let ghost old_map = self@;
        let ghost k = key@;
        match self.index_of(key) {
            Some(i) => {
                proof {
                    self.lemma_entry(i as int);
                }
                let ghost before = self.entries@;
                let mut entries = Vec::new();
                std::mem::swap(&mut entries, &mut self.entries);
                let (_, v) = entries.remove(i);
                self.entries = entries;
                proof {
                    assert forall|x: Seq<char>| #![auto] self@.contains_key(x) <==> old_map.remove(k).contains_key(x) by {
                        if self.has_key(x) {
                            let j = self.index_for(x);
                            if j < i {
                                assert(before[j].0@ == x);
                            } else {
                                assert(before[j + 1].0@ == x);
                            }
                        }
                        if old_map.contains_key(x) && x != k {
                            let j = choose|j: int| 0 <= j < before.len() && before[j].0@ == x;
                            assert(j != i);
                            if j < i {
                                assert(self.entries@[j].0@ == x);
                            } else {
                                assert(self.entries@[j - 1].0@ == x);
                            }
                        }
                    }
                    assert forall|x: Seq<char>| #![auto] self@.contains_key(x) implies self@[x] == old_map.remove(k)[x] by {
                        let j = self.index_for(x);
                        let j0 = if j < i { j } else { j + 1 };
                        assert(before[j0].0@ == x);
                        let j1 = choose|j1: int| 0 <= j1 < before.len() && before[j1].0@ == x;
                        assert(j1 == j0);
                    }
                    assert(self@ =~= old_map.remove(k));
                }
                Some(v)
            },
            None => {
                assert(old_map.remove(k) =~= old_map);
                None
            },
        }
    }
}

/// Values that can be compared for equality of their deep views.
pub trait SameValue: DeepView + Sized {
    /// Whether the two values have the same deep view.
    fn same_value(&self, other: &Self) -> (r: bool)
        ensures
            r == (self.deep_view() == other.deep_view()),
    ;
}

impl<V: SameValue> StrMap<V> {
    /// Whether both maps hold the same keys with the same values.
    pub fn equals(&self, other: &Self) -> (r: bool)
        ensures
            r == (self@ == other@),
    {
        proof {
            use_type_invariant(self);
            use_type_invariant(other);
            self.lemma_dom();
            other.lemma_dom();
        }
        if self.entries.len() != other.entries.len() {
            return false;
        }
        let mut i: usize = 0;
        while i < self.entries.len()
            invariant
                i <= self.entries@.len(),
                self.keys_distinct(),
                other.keys_distinct(),
                self@.dom().len() == other@.dom().len(),
                self@.dom().finite(),
                other@.dom().finite(),
                self.entries@.len() == self@.dom().len(),
                forall|j: int|
                    0 <= j < i ==> other@.contains_key(#[trigger] self.entries@[j].0@)
                        && other@[self.entries@[j].0@] == self.entries@[j].1.deep_view(),
            decreases self.entries@.len() - i,
        {
            proof {
                self.lemma_entry(i as int);
            }
            match other.get(self.entries[i].0.as_str()) {
                Some(v) => {
                    if !v.same_value(&self.entries[i].1) {
                        return false;
                    }
                },
                None => {
                    return false;
                },
            }
            i = i + 1;
        }
        proof {
            assert(self@.dom().subset_of(other@.dom())) by {
                assert forall|k: Seq<char>| self@.dom().contains(k) implies other@.dom().contains(k) by {
                    let j = self.index_for(k);
                    assert(self.entries@[j].0@ == k);
                }
            }
            assert forall|k: Seq<char>| other@.dom().contains(k) implies self@.dom().contains(k) by {
                if !self@.dom().contains(k) {
                    vstd::set_lib::lemma_len_subset(self@.dom(), other@.dom().remove(k));
                }
            }
            assert forall|k: Seq<char>| self@.dom().contains(k) implies self@[k] == other@[k] by {
                let j = self.index_for(k);
                assert(self.entries@[j].0@ == k);
                self.lemma_entry(j);
            }
            assert(self@ =~= other@);
        }
        true
    }
}

} // verus!
