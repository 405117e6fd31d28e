use vstd::prelude::*;

verus! {

/// A map keyed by strings, kept as a list of entries in which no key occurs twice.
///
/// Its meaning is the mathematical map `view()` from the characters of each key to
/// its value; the order of the entries is an internal detail that only shows through
/// `keys()` and the positional accessors.
pub struct StrMap<V> {
    entries: Vec<(String, V)>,
}

/// The characters of every key of a list of entries, in order.
pub open spec fn entry_keys<V>(entries: Seq<(String, V)>) -> Seq<Seq<char>> {
    entries.map_values(|e: (String, V)| e.0@)
}

impl<V> StrMap<V> {
    /// The keys of the map in the order in which positional access sees them.
    pub closed spec fn keys(&self) -> Seq<Seq<char>> {
        entry_keys(self.entries@)
    }

    /// No key occurs twice.
    pub closed spec fn wf(&self) -> bool {
        self.keys().no_duplicates()
    }

    spec fn has_key(&self, k: Seq<char>) -> bool {
        exists|i: int| 0 <= i < self.entries@.len() && #[trigger] self.entries@[i].0@ == k
    }

    spec fn position(&self, k: Seq<char>) -> int {
        choose|i: int| 0 <= i < self.entries@.len() && #[trigger] self.entries@[i].0@ == k
    }

    /// The map from each key's characters to its value.
    pub closed spec fn as_map(&self) -> Map<Seq<char>, V> {
        Map::new(|k: Seq<char>| self.has_key(k), |k: Seq<char>| self.entries@[self.position(k)].1)
    }

    proof fn lemma_entry(&self, i: int)
        requires
            self.wf(),
            0 <= i < self.entries@.len(),
        ensures
            self.view().contains_key(self.entries@[i].0@),
            self.view()[self.entries@[i].0@] == self.entries@[i].1,
            self.keys()[i] == self.entries@[i].0@,
    {
        let k = self.entries@[i].0@;
        assert(self.has_key(k));
        let j = self.position(k);
        assert(self.keys()[i] == k);
        assert(self.keys()[j] == k);
    }

    /// The keys are exactly the domain of the map, each once.
    pub proof fn lemma_keys(&self)
        requires
            self.wf(),
        ensures
            self.keys().no_duplicates(),
            self.keys().to_set() == self.view().dom(),
            forall|i: int| 0 <= i < self.keys().len() ==> self.view().contains_key(#[trigger] self.keys()[i]),
    {
        assert forall|k: Seq<char>| self.keys().to_set().contains(k) <==> self.view().dom().contains(k) by {
            if self.keys().contains(k) {
                let i = choose|i: int| 0 <= i < self.keys().len() && self.keys()[i] == k;
                self.lemma_entry(i);
            }
            if self.has_key(k) {
                let i = self.position(k);
                assert(self.keys()[i] == k);
            }
        }
        assert(self.keys().to_set() =~= self.view().dom());
        assert forall|i: int| 0 <= i < self.keys().len() implies self.view().contains_key(#[trigger] self.keys()[i]) by {
            self.lemma_entry(i);
        }
    }

    /// An empty map.
    pub fn new() -> (m: Self)
        ensures
            m.wf(),
            m@ == Map::<Seq<char>, V>::empty(),
            m.keys() == Seq::<Seq<char>>::empty(),
    {
        let m = StrMap { entries: Vec::new() };
        assert(m.keys() =~= Seq::<Seq<char>>::empty());
        assert(m@ =~= Map::<Seq<char>, V>::empty());
        m
    }

    /// The number of keys.
    pub fn len(&self) -> (n: usize)
        requires
            self.wf(),
        ensures
            n == self.keys().len(),
            n == self@.dom().len(),
            self@.dom().finite(),
    {
        proof {
            self.lemma_keys();
            self.keys().unique_seq_to_set();
            vstd::seq_lib::seq_to_set_is_finite(self.keys());
        }
        self.entries.len()
    }

    /// The key at position `i` in the order of `keys()`.
    pub fn key_at(&self, i: usize) -> (k: &String)
        requires
            i < self.keys().len(),
        ensures
            k@ == self.keys()[i as int],
    {
        &self.entries[i].0
    }

    /// The value stored under the key at position `i` in the order of `keys()`.
    pub fn value_at(&self, i: usize) -> (v: &V)
        requires
            self.wf(),
            i < self.keys().len(),
        ensures
            self@.contains_key(self.keys()[i as int]),
            *v == self@[self.keys()[i as int]],
    {
        proof {
            self.lemma_entry(i as int);
        }
        &self.entries[i].1
    }

    fn find(&self, k: &String) -> (r: Option<usize>)
        requires
            self.wf(),
        ensures
            match r {
                Some(i) => i < self.entries@.len() && self.entries@[i as int].0@ == k@,
                None => !self@.contains_key(k@),
            },
    {
        let mut i: usize = 0;
        while i < self.entries.len()
            invariant
                i <= self.entries@.len(),
                forall|j: int| 0 <= j < i ==> self.entries@[j].0@ != k@,
            decreases self.entries@.len() - i,
        {
            if self.entries[i].0 == *k {
                return Some(i);
            }
            i = i + 1;
        }
        None
    }

    /// Whether `k` is a key of the map.
    pub fn contains_key(&self, k: &String) -> (b: bool)
        requires
            self.wf(),
        ensures
            b == self@.contains_key(k@),
    {
        match self.find(k) {
            Some(i) => {
                proof {
                    self.lemma_entry(i as int);
                }
                true
            },
            None => false,
        }
    }

    /// The value stored under `k`, if any.
    pub fn get(&self, k: &String) -> (r: Option<&V>)
        requires
            self.wf(),
        ensures
            match r {
                Some(v) => self@.contains_key(k@) && *v == self@[k@],
                None => !self@.contains_key(k@),
            },
    {
        match self.find(k) {
            Some(i) => {
                proof {
                    self.lemma_entry(i as int);
                }
                Some(&self.entries[i].1)
            },
            None => None,
        }
    }

    /// Stores `v` under `k`, replacing what was stored there.
    pub fn insert(&mut self, k: String, v: V)
        requires
            old(self).wf(),
        ensures
            final(self).wf(),
            final(self)@ == old(self)@.insert(k@, v),
    {
        let ghost pre = *self;
        let ghost kv = k@;
        match self.find(&k) {
            Some(i) => {
                self.entries.set(i, (k, v));
                proof {
                    assert(self.keys() =~= pre.keys());
                    assert forall|key: Seq<char>|
                        self@.contains_key(key) == pre@.insert(kv, v).contains_key(key) by {
                        if pre.has_key(key) {
                            let j = pre.position(key);
                            assert(self.entries@[j].0@ == key);
                        }
                        if self.has_key(key) {
                            let j = self.position(key);
                            assert(pre.entries@[j].0@ == key);
                        }
                    }
                    assert forall|key: Seq<char>| #[trigger] self@.contains_key(key) implies self@[key]
                        == pre@.insert(kv, v)[key] by {
                        let j = self.position(key);
                        self.lemma_entry(j);
                        if key != kv {
                            assert(pre.entries@[j] == self.entries@[j]);
                            pre.lemma_entry(j);
                        } else {
                            self.lemma_entry(i as int);
                        }
                    }
                    assert(self@ =~= pre@.insert(kv, v));
                }
            },
            None => {
                self.entries.push((k, v));
                proof {
                    let n = pre.entries@.len() as int;
                    assert(self.keys() =~= pre.keys().push(kv));
                    assert(!pre.keys().contains(kv)) by {
                        if pre.keys().contains(kv) {
                            let j = choose|j: int| 0 <= j < pre.keys().len() && pre.keys()[j] == kv;
                            pre.lemma_entry(j);
                        }
                    }
                    assert(self.wf());
                    assert forall|key: Seq<char>|
                        self@.contains_key(key) == pre@.insert(kv, v).contains_key(key) by {
                        if pre.has_key(key) {
                            let j = pre.position(key);
                            assert(self.entries@[j].0@ == key);
                        }
                        if key == kv {
                            assert(self.entries@[n].0@ == key);
                        }
                        if self.has_key(key) {
                            let j = self.position(key);
                            if j < n {
                                assert(pre.entries@[j].0@ == key);
                            }
                        }
                    }
                    assert forall|key: Seq<char>| #[trigger] self@.contains_key(key) implies self@[key]
                        == pre@.insert(kv, v)[key] by {
                        let j = self.position(key);
                        self.lemma_entry(j);
                        if key != kv {
                            assert(j < n);
                            assert(pre.entries@[j] == self.entries@[j]);
                            pre.lemma_entry(j);
                        } else {
                            self.lemma_entry(n);
                        }
                    }
                    assert(self@ =~= pre@.insert(kv, v));
                }
            },
        }
    }

    /// Removes `k` and hands back what was stored under it.
    pub fn remove(&mut self, k: &String) -> (r: Option<V>)
        requires
            old(self).wf(),
        ensures
            final(self).wf(),
            final(self)@ == old(self)@.remove(k@),
            r == (if old(self)@.contains_key(k@) {
                Some(old(self)@[k@])
            } else {
                None::<V>
            }),
    {
        let ghost pre = *self;
        match self.find(k) {
            Some(i) => {
                proof {
                    pre.lemma_entry(i as int);
                }
                let (_, v) = self.entries.remove(i);
                proof {
                    let ii = i as int;
                    assert(self.keys() =~= pre.keys().remove(ii));
                    assert(self.wf()) by {
                        assert forall|a: int, b: int|
                            0 <= a < self.keys().len() && 0 <= b < self.keys().len() && a != b
                                implies self.keys()[a] != self.keys()[b] by {
                            let pa = if a < ii { a } else { a + 1 };
                            let pb = if b < ii { b } else { b + 1 };
                            assert(self.keys()[a] == pre.keys()[pa]);
                            assert(self.keys()[b] == pre.keys()[pb]);
                        }
                    }
                    assert forall|key: Seq<char>|
                        self@.contains_key(key) == pre@.remove(k@).contains_key(key) by {
                        if self.has_key(key) {
                            let j = self.position(key);
                            let pj = if j < ii { j } else { j + 1 };
                            assert(pre.entries@[pj].0@ == key);
                            assert(pre.keys()[pj] == key);
                            assert(pre.keys()[ii] == k@);
                        }
                        if pre.has_key(key) && key != k@ {
                            let j = pre.position(key);
                            assert(j != ii);
                            let sj = if j < ii { j } else { j - 1 };
                            assert(self.entries@[sj].0@ == key);
                        }
                    }
                    assert forall|key: Seq<char>| #[trigger] self@.contains_key(key) implies self@[key]
                        == pre@.remove(k@)[key] by {
                        let j = self.position(key);
                        self.lemma_entry(j);
                        let pj = if j < ii { j } else { j + 1 };
                        assert(pre.entries@[pj] == self.entries@[j]);
                        pre.lemma_entry(pj);
                    }
                    assert(self@ =~= pre@.remove(k@));
                }
                Some(v)
            },
            None => {
                assert(self@ =~= pre@.remove(k@));
                None
            },
        }
    }
}

impl<V> View for StrMap<V> {
    type V = Map<Seq<char>, V>;

    open spec fn view(&self) -> Map<Seq<char>, V> {
        self.as_map()
    }
}

impl<V: DeepView> DeepView for StrMap<V> {
    type V = Map<Seq<char>, V::V>;

    open spec fn deep_view(&self) -> Map<Seq<char>, V::V> {
        self.view().map_values(|v: V| v.deep_view())
    }
}

/// Every inner map of a map of maps keeps its keys distinct.
pub open spec fn nested_wf<V>(m: Map<Seq<char>, StrMap<V>>) -> bool {
    forall|k: Seq<char>| m.contains_key(k) ==> (#[trigger] m[k]).wf()
}

/// After a store, the deep view has the stored value's deep view under the key.
pub proof fn lemma_deep_insert<V: DeepView>(a: StrMap<V>, b: StrMap<V>, k: Seq<char>, v: V)
    requires
        b@ == a@.insert(k, v),
    ensures
        b.deep_view() == a.deep_view().insert(k, v.deep_view()),
{
    assert(b.deep_view() =~= a.deep_view().insert(k, v.deep_view()));
}

/// After a removal, the deep view loses the key.
pub proof fn lemma_deep_remove<V: DeepView>(a: StrMap<V>, b: StrMap<V>, k: Seq<char>)
    requires
        b@ == a@.remove(k),
    ensures
        b.deep_view() == a.deep_view().remove(k),
{
    assert(b.deep_view() =~= a.deep_view().remove(k));
}

/// The deep view of an empty map is empty.
pub proof fn lemma_deep_empty<V: DeepView>(a: StrMap<V>)
    requires
        a@ == Map::<Seq<char>, V>::empty(),
    ensures
        a.deep_view() == Map::<Seq<char>, V::V>::empty(),
{
    assert(a.deep_view() =~= Map::<Seq<char>, V::V>::empty());
}

/// Takes the inner map stored under `k` out of a map of maps, or an empty one where
/// there is none.
pub fn take_inner<V: DeepView>(outer: &mut StrMap<StrMap<V>>, k: &String) -> (inner: StrMap<V>)
    requires
        old(outer).wf(),
        nested_wf(old(outer)@),
    ensures
        final(outer).wf(),
        nested_wf(final(outer)@),
        final(outer)@ == old(outer)@.remove(k@),
        final(outer).deep_view() == old(outer).deep_view().remove(k@),
        inner.wf(),
        inner.deep_view() == (if old(outer).deep_view().contains_key(k@) {
            old(outer).deep_view()[k@]
        } else {
            Map::<Seq<char>, V::V>::empty()
        }),
{
    let ghost pre = *outer;
    let r = outer.remove(k);
    proof {
        lemma_deep_remove(pre, *outer, k@);
    }
    match r {
        Some(m) => m,
        None => {
            let m = StrMap::new();
            proof {
                lemma_deep_empty(m);
            }
            m
        },
    }
}

/// Stores an inner map under `k` in a map of maps.
pub fn put_inner<V: DeepView>(outer: &mut StrMap<StrMap<V>>, k: String, inner: StrMap<V>)
    requires
        old(outer).wf(),
        nested_wf(old(outer)@),
        inner.wf(),
    ensures
        final(outer).wf(),
        nested_wf(final(outer)@),
        final(outer)@ == old(outer)@.insert(k@, inner),
        final(outer).deep_view() == old(outer).deep_view().insert(k@, inner.deep_view()),
{
    let ghost pre = *outer;
    let ghost kv = k@;
    let ghost iv = inner;
    outer.insert(k, inner);
    proof {
        lemma_deep_insert(pre, *outer, kv, iv);
    }
}

} // verus!
