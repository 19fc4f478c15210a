use vstd::prelude::*;

verus! {

/// A finite map from relative paths (`/`-separated, no leading slash) to values,
/// kept as a list of entries with pairwise distinct keys in insertion order.
#[derive(Debug)]
pub struct PathMap<V> {
    entries: Vec<(String, V)>,
}

/// True when `i` is a position of `k` in `keys`.
pub open spec fn key_at_index(keys: Seq<Seq<char>>, k: Seq<char>, i: int) -> bool {
    0 <= i < keys.len() && keys[i] == k
}

impl<V> PathMap<V> {
    /// The keys of the map, in the order in which they were first inserted.
    pub closed spec fn key_seq(&self) -> Seq<Seq<char>> {
        self.entries@.map_values(|e: (String, V)| e.0@)
    }

    /// Well-formedness: no key occurs twice.
    pub closed spec fn wf(&self) -> bool {
        forall|i: int, j: int|
            0 <= i < self.entries@.len() && 0 <= j < self.entries@.len() && i != j
                ==> #[trigger] self.entries@[i].0@ != #[trigger] self.entries@[j].0@
    }

    /// Every key that the map holds appears exactly once in `key_seq`, and the map's
    /// domain is exactly the set of those keys.
    pub proof fn lemma_keys(&self)
        requires
            self.wf(),
        ensures
            self.key_seq().no_duplicates(),
            forall|k: Seq<char>| #[trigger] self@.contains_key(k) <==> self.key_seq().contains(k),
    {
        assert forall|k: Seq<char>| #[trigger] self@.contains_key(k) <==> self.key_seq().contains(
            k,
        ) by {
            if self@.contains_key(k) {
                let i = choose|i: int| key_at_index(self.key_seq(), k, i);
                assert(self.key_seq()[i] == k);
            }
            if self.key_seq().contains(k) {
                let i = choose|i: int| 0 <= i < self.key_seq().len() && self.key_seq()[i] == k;
                assert(key_at_index(self.key_seq(), k, i));
            }
        }
        assert forall|i: int, j: int|
            0 <= i < self.key_seq().len() && 0 <= j < self.key_seq().len() && i != j implies #[trigger] self.key_seq()[i]
                != #[trigger] self.key_seq()[j] by {
            assert(self.key_seq()[i] == self.entries@[i].0@);
            assert(self.key_seq()[j] == self.entries@[j].0@);
        }
    }

    pub fn new() -> (m: Self)
        ensures
            m.wf(),
            m@ == Map::<Seq<char>, V>::empty(),
            m.key_seq() == Seq::<Seq<char>>::empty(),
    {
        let m = PathMap { entries: Vec::new() };
        assert(m@ =~= Map::<Seq<char>, V>::empty());
        assert(m.key_seq() =~= Seq::<Seq<char>>::empty());
        m
    }

    pub fn len(&self) -> (n: usize)
        requires
            self.wf(),
        ensures
            n == self.key_seq().len(),
            n == self@.len(),
    {
        proof {
            self.lemma_keys();
            assert(self.key_seq().len() == self.entries@.len());
            self.key_seq().unique_seq_to_set();
            assert(self@.dom() =~= self.key_seq().to_set());
        }
        self.entries.len()
    }

    /// The key inserted `i`-th.
    pub fn key_at(&self, i: usize) -> (k: &String)
        requires
            i < self.key_seq().len(),
        ensures
            k@ == self.key_seq()[i as int],
    {
        &self.entries[i].0
    }

    /// The value held under the key inserted `i`-th.
    pub fn value_at(&self, i: usize) -> (v: &V)
        requires
            self.wf(),
            i < self.key_seq().len(),
        ensures
            self@.contains_key(self.key_seq()[i as int]),
            *v == self@[self.key_seq()[i as int]],
    {
        proof {
                self.lemma_index_is_unique(i as int);
        }
        &self.entries[i].1
    }

    proof fn lemma_index_is_unique(&self, i: int)
        requires
            self.wf(),
            0 <= i < self.entries@.len(),
        ensures
            self@.contains_key(self.entries@[i].0@),
            self@[self.entries@[i].0@] == self.entries@[i].1,
    {
        let k = self.entries@[i].0@;
        assert(key_at_index(self.key_seq(), k, i));
        let j = choose|j: int| key_at_index(self.key_seq(), k, j);
        assert(self.entries@[j].0@ == k);
    }

    /// Position of `k` among the keys, if the map holds it.
    pub fn position(&self, k: &str) -> (r: Option<usize>)
        requires
            self.wf(),
        ensures
            r matches Some(i) ==> i < self.key_seq().len() && self.key_seq()[i as int] == k@
                && self@.contains_key(k@),
            r is None ==> !self@.contains_key(k@),
    {
        let mut i: usize = 0;
        while i < self.entries.len()
            invariant
                i <= self.entries@.len(),
                forall|j: int| 0 <= j < i ==> self.entries@[j].0@ != k@,
            decreases self.entries@.len() - i,
        {
            if str_eq(self.entries[i].0.as_str(), k) {
                proof {
                    assert(key_at_index(self.key_seq(), k@, i as int));
                }
                return Some(i);
            }
            i = i + 1;
        }
        proof {
            if self@.contains_key(k@) {
                let j = choose|j: int| key_at_index(self.key_seq(), k@, j);
                assert(self.entries@[j].0@ == k@);
            }
        }
        None
    }

    pub fn get(&self, k: &str) -> (r: Option<&V>)
        requires
            self.wf(),
        ensures
            r matches Some(v) ==> self@.contains_key(k@) && *v == self@[k@],
            r is None ==> !self@.contains_key(k@),
    {
        match self.position(k) {
            Some(i) => Some(self.value_at(i)),
            None => None,
        }
    }

    pub fn contains_key(&self, k: &str) -> (b: bool)
        requires
            self.wf(),
        ensures
            b == self@.contains_key(k@),
    {
        self.position(k).is_some()
    }

    /// Sets the value under `k`; a new key goes after all others, an existing key keeps
    /// its position.
    pub fn insert(&mut self, k: String, v: V)
        requires
            old(self).wf(),
        ensures
            final(self).wf(),
            final(self)@ == old(self)@.insert(k@, v),
            old(self)@.contains_key(k@) ==> final(self).key_seq() == old(self).key_seq(),
            !old(self)@.contains_key(k@) ==> final(self).key_seq() == old(self).key_seq().push(
                k@,
            ),
    {
        let pos = self.position(k.as_str());
        let ghost k_view = k@;
        let ghost before = self.entries@;
        match pos {
            Some(i) => {
                let ghost old_map = self@;
                assert(old(self).key_seq()[i as int] == before[i as int].0@);
                self.entries.set(i, (k, v));
                proof {
                    assert forall|a: int, b: int|
                        0 <= a < self.entries@.len() && 0 <= b < self.entries@.len() && a != b
                            implies #[trigger] self.entries@[a].0@ != #[trigger] self.entries@[b].0@ by {
                        if a == i {
                            assert(before[a].0@ == k_view);
                        }
                        if b == i {
                            assert(before[b].0@ == k_view);
                        }
                    }
                    assert(self.key_seq() =~= old(self).key_seq());
                    assert forall|q: Seq<char>| #[trigger]
                        self@.contains_key(q) == old_map.contains_key(q) by {
                        if self@.contains_key(q) {
                            let j = choose|j: int| key_at_index(self.key_seq(), q, j);
                            assert(key_at_index(old(self).key_seq(), q, j));
                        }
                        if old_map.contains_key(q) {
                            let j = choose|j: int| key_at_index(old(self).key_seq(), q, j);
                            assert(key_at_index(self.key_seq(), q, j));
                        }
                    }
                    assert(self@ =~= old_map.insert(k_view, v)) by {
                        assert forall|q: Seq<char>| #[trigger]
                            self@.contains_key(q) implies self@[q] == old_map.insert(
                            k_view,
                            v,
                        )[q] by {
                            let j = choose|j: int| key_at_index(self.key_seq(), q, j);
                            assert(self.entries@[j].0@ == q);
                            if q != k_view {
                                assert(j != i);
                                assert(before[j].0@ == q);
                                assert(key_at_index(old(self).key_seq(), q, j));
                                let j2 = choose|j2: int| key_at_index(old(self).key_seq(), q, j2);
                                assert(before[j2].0@ == q);
                            }
                        }
                    }
                }
            },
            None => {
                let ghost old_map = self@;
                self.entries.push((k, v));
                proof {
                    assert forall|a: int| 0 <= a < before.len() implies before[a].0@ != k_view by {
                        if before[a].0@ == k_view {
                            assert(key_at_index(old(self).key_seq(), k_view, a));
                        }
                    }
                    assert forall|a: int, b: int|
                        0 <= a < self.entries@.len() && 0 <= b < self.entries@.len() && a != b
                            implies #[trigger] self.entries@[a].0@ != #[trigger] self.entries@[b].0@ by {
                        if a < before.len() && b < before.len() {
                            assert(before[a].0@ != before[b].0@);
                        }
                    }
                    assert(self.key_seq() =~= old(self).key_seq().push(k_view));
                    assert forall|q: Seq<char>| old_map.contains_key(q) implies before.len() >= 1
                        && q != k_view by {
                        let j = choose|j: int| key_at_index(old(self).key_seq(), q, j);
                        assert(before[j].0@ == q);
                    }
                    assert forall|q: Seq<char>| #[trigger]
                        self@.contains_key(q) == old_map.insert(k_view, v).contains_key(q) by {
                        if self@.contains_key(q) && q != k_view {
                            let j = choose|j: int| key_at_index(self.key_seq(), q, j);
                            assert(key_at_index(old(self).key_seq(), q, j));
                        }
                        if old_map.contains_key(q) {
                            let j = choose|j: int| key_at_index(old(self).key_seq(), q, j);
                            assert(key_at_index(self.key_seq(), q, j));
                        }
                        if q == k_view {
                            assert(key_at_index(self.key_seq(), q, before.len() as int));
                        }
                    }
                    assert(self@ =~= old_map.insert(k_view, v)) by {
                        assert forall|q: Seq<char>| #[trigger]
                            self@.contains_key(q) implies self@[q] == old_map.insert(
                            k_view,
                            v,
                        )[q] by {
                            let j = choose|j: int| key_at_index(self.key_seq(), q, j);
                            assert(self.entries@[j].0@ == q);
                            if q != k_view {
                                assert(j != before.len());
                                assert(key_at_index(old(self).key_seq(), q, j));
                                let j2 = choose|j2: int| key_at_index(old(self).key_seq(), q, j2);
                                assert(before[j2].0@ == q);
                            } else {
                                assert(key_at_index(self.key_seq(), q, before.len() as int));
                                if j != before.len() {
                                    assert(before[j].0@ == q);
                                    assert(key_at_index(old(self).key_seq(), q, j));
                                    assert(old_map.contains_key(q));
                                }
                            }
                        }
                    }
                }
            },
        }
    }
}

impl<V> View for PathMap<V> {
    type V = Map<Seq<char>, V>;

    closed spec fn view(&self) -> Map<Seq<char>, V> {
        Map::new(
            |k: Seq<char>| exists|i: int| key_at_index(self.key_seq(), k, i),
            |k: Seq<char>|
                self.entries@[choose|i: int| key_at_index(self.key_seq(), k, i)].1,
        )
    }
}

/// Character-wise equality of two string slices.
pub fn str_eq(a: &str, b: &str) -> (r: bool)
    ensures
        r == (a@ == b@),
{
    let n = a.unicode_len();
    if n != b.unicode_len() {
        return false;
    }
    let mut i: usize = 0;
    while i < n
        invariant
            n == a@.len(),
            n == b@.len(),
            i <= n,
            forall|j: int| 0 <= j < i ==> a@[j] == b@[j],
        decreases n - i,
    {
        if a.get_char(i) != b.get_char(i) {
            return false;
        }
        i = i + 1;
    }
    assert(a@ =~= b@);
    true
}

} // verus!
