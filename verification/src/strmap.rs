//! A map keyed by text, kept as a list of pairs in which no key occurs twice.

use vstd::prelude::*;

verus! {

/// Whether no key occurs twice among `s`.
pub open spec fn keys_unique<V>(s: Seq<(String, V)>) -> bool {
    forall|i: int, j: int| 0 <= i < j < s.len() ==> (#[trigger] s[i]).0@ != (#[trigger] s[j]).0@
}

/// Whether some pair of `s` has key `k`.
pub open spec fn has_key<V>(s: Seq<(String, V)>, k: Seq<char>) -> bool {
    exists|i: int| 0 <= i < s.len() && (#[trigger] s[i]).0@ == k
}

/// The map that the pairs `s` stand for.
pub open spec fn pairs_map<V>(s: Seq<(String, V)>) -> Map<Seq<char>, V> {
    Map::new(
        |k: Seq<char>| has_key(s, k),
        |k: Seq<char>| s[choose|i: int| 0 <= i < s.len() && (#[trigger] s[i]).0@ == k].1,
    )
}

/// The keys of the pairs `s`, in order.
pub open spec fn pair_keys<V>(s: Seq<(String, V)>) -> Seq<Seq<char>> {
    s.map_values(|p: (String, V)| p.0@)
}

/// The pair at `i` is what the map holds for its key.
pub proof fn lemma_pairs_map_at<V>(s: Seq<(String, V)>, i: int)
    requires
        keys_unique(s),
        0 <= i < s.len(),
    ensures
        pairs_map(s).contains_key(s[i].0@),
        pairs_map(s)[s[i].0@] == s[i].1,
{
    let k = s[i].0@;
    assert(has_key(s, k));
    let j = choose|j: int| 0 <= j < s.len() && (#[trigger] s[j]).0@ == k;
    if j != i {
        if j < i {
            assert(s[j].0@ != s[i].0@);
        } else {
            assert(s[i].0@ != s[j].0@);
        }
    }
}

/// Every pair of `s` is what the map holds for its key.
pub proof fn lemma_pairs_map_all<V>(s: Seq<(String, V)>)
    requires
        keys_unique(s),
    ensures
        forall|i: int|
            0 <= i < s.len() ==> pairs_map(s).contains_key((#[trigger] s[i]).0@) && pairs_map(s)[s[i].0@]
                == s[i].1,
{
    assert forall|i: int| 0 <= i < s.len() implies pairs_map(s).contains_key((#[trigger] s[i]).0@)
        && pairs_map(s)[s[i].0@] == s[i].1 by {
        lemma_pairs_map_at(s, i);
    }
}

/// A map keyed by text.
pub struct StrMap<V> {
    pairs: Vec<(String, V)>,
}

impl<V> StrMap<V> {
    /// The pairs, in the order they are kept.
    pub closed spec fn entries(&self) -> Seq<(String, V)> {
        self.pairs@
    }

    /// The map as a mathematical value.
    pub open spec fn map(&self) -> Map<Seq<char>, V> {
        pairs_map(self.entries())
    }

    /// No key occurs twice.
    pub open spec fn wf(&self) -> bool {
        keys_unique(self.entries())
    }

    /// An empty map.
    pub fn new() -> (r: Self)
        ensures
            r.wf(),
            r.entries().len() == 0,
            r.map() == Map::<Seq<char>, V>::empty(),
    {
        let r = StrMap { pairs: Vec::new() };
        assert(r.map() =~= Map::<Seq<char>, V>::empty());
        r
    }

    /// The pairs, in the order they are kept.
    pub fn pairs(&self) -> (r: &Vec<(String, V)>)
        ensures
            r@ == self.entries(),
    {
        &self.pairs
    }

    /// The number of keys.
    pub fn len(&self) -> (r: usize)
        ensures
            r == self.entries().len(),
    {
        self.pairs.len()
    }

    /// The pair at position `i`.
    pub fn entry_at(&self, i: usize) -> (r: (&String, &V))
        requires
            i < self.entries().len(),
        ensures
            *r.0 == self.entries()[i as int].0,
            *r.1 == self.entries()[i as int].1,
    {
        let p = &self.pairs[i];
        (&p.0, &p.1)
    }

    /// The position of key `k`, if it is present.
    pub fn find(&self, k: &str) -> (r: Option<usize>)
        ensures
            match r {
                Some(i) => i < self.entries().len() && self.entries()[i as int].0@ == k@,
                None => !has_key(self.entries(), k@),
            },
    {
        let key = k.to_owned();
        let mut i: usize = 0;
        while i < self.pairs.len()
            invariant
                i <= self.pairs@.len(),
                key@ == k@,
                forall|j: int| 0 <= j < i ==> (#[trigger] self.pairs@[j]).0@ != k@,
            decreases self.pairs@.len() - i,
        {
            if self.pairs[i].0 == key {
                return Some(i);
            }
            i = i + 1;
        }
        None
    }

    /// The value stored under `k`.
    pub fn get(&self, k: &str) -> (r: Option<&V>)
        requires
            self.wf(),
        ensures
            match r {
                Some(v) => self.map().contains_key(k@) && self.map()[k@] == *v,
                None => !self.map().contains_key(k@),
            },
    {
        match self.find(k) {
            Some(i) => {
                proof {
                    lemma_pairs_map_at(self.pairs@, i as int);
                }
                Some(&self.pairs[i].1)
            },
            None => None,
        }
    }

    /// Stores `v` under `k`; a new key goes last, a present one keeps its place.
    pub fn insert(&mut self, k: String, v: V)
        requires
            old(self).wf(),
        ensures
            final(self).wf(),
            final(self).map() == old(self).map().insert(k@, v),
            has_key(old(self).entries(), k@) ==> final(self).entries().len() == old(self).entries().len(),
            has_key(old(self).entries(), k@) ==> exists|i: int|
                0 <= i < old(self).entries().len() && (#[trigger] old(self).entries()[i]).0@ == k@
                    && final(self).entries() == old(self).entries().update(i, (k, v)),
            !has_key(old(self).entries(), k@) ==> final(self).entries() == old(self).entries().push(
                (k, v),
            ),
    {
        let ghost old_pairs = self.pairs@;
        match self.find(k.as_str()) {
            Some(i) => {
                let mut pairs = Vec::new();
                std::mem::swap(&mut pairs, &mut self.pairs);
                pairs.set(i, (k, v));
                let ghost new_pairs = pairs@;
                assert(keys_unique(new_pairs)) by {
                    assert forall|a: int, b: int| 0 <= a < b < new_pairs.len() implies (
                    #[trigger] new_pairs[a]).0@ != (#[trigger] new_pairs[b]).0@ by {
                        assert(old_pairs[a].0@ != old_pairs[b].0@);
                    }
                }
                self.pairs = pairs;
                proof {
                    lemma_pairs_map_all(new_pairs);
                    lemma_pairs_map_all(old_pairs);
                    assert forall|key: Seq<char>| #[trigger] has_key(new_pairs, key) == (has_key(
                        old_pairs,
                        key,
                    )) by {
                        if has_key(old_pairs, key) {
                            let j = choose|j: int| 0 <= j < old_pairs.len() && (#[trigger] old_pairs[j]).0@ == key;
                            assert(new_pairs[j].0@ == key);
                        }
                        if has_key(new_pairs, key) {
                            let j = choose|j: int| 0 <= j < new_pairs.len() && (#[trigger] new_pairs[j]).0@ == key;
                            assert(old_pairs[j].0@ == key);
                        }
                    }
                    assert(pairs_map(new_pairs) =~= pairs_map(old_pairs).insert(k@, v)) by {
                        assert forall|key: Seq<char>| #[trigger] pairs_map(new_pairs).contains_key(key)
                            implies pairs_map(new_pairs)[key] == pairs_map(old_pairs).insert(k@, v)[key] by {
                            let j = choose|j: int| 0 <= j < new_pairs.len() && (#[trigger] new_pairs[j]).0@ == key;
                            assert(new_pairs[j].0@ == key);
                        }
                    }
                }
            },
            None => {
                let ghost kv = k@;
                let mut pairs = Vec::new();
                std::mem::swap(&mut pairs, &mut self.pairs);
                pairs.push((k, v));
                let ghost new_pairs = pairs@;
                assert(keys_unique(new_pairs)) by {
                    assert forall|a: int, b: int| 0 <= a < b < new_pairs.len() implies (
                    #[trigger] new_pairs[a]).0@ != (#[trigger] new_pairs[b]).0@ by {
                        if b == old_pairs.len() {
                            assert(old_pairs[a].0@ != kv);
                        } else {
                            assert(old_pairs[a].0@ != old_pairs[b].0@);
                        }
                    }
                }
                self.pairs = pairs;
                proof {
                    lemma_pairs_map_all(new_pairs);
                    lemma_pairs_map_all(old_pairs);
                    assert(pairs_map(new_pairs) =~= pairs_map(old_pairs).insert(kv, v)) by {
                        assert forall|key: Seq<char>| #[trigger] pairs_map(new_pairs).contains_key(key)
                            <==> pairs_map(old_pairs).insert(kv, v).contains_key(key) by {
                            if has_key(new_pairs, key) {
                                let j = choose|j: int| 0 <= j < new_pairs.len() && (#[trigger] new_pairs[j]).0@ == key;
                                if j < old_pairs.len() {
                                    assert(old_pairs[j].0@ == key);
                                }
                            }
                            if has_key(old_pairs, key) {
                                let j = choose|j: int| 0 <= j < old_pairs.len() && (#[trigger] old_pairs[j]).0@ == key;
                                assert(new_pairs[j].0@ == key);
                            }
                            if key == kv {
                                assert(new_pairs[old_pairs.len() as int].0@ == key);
                            }
                        }
                        assert forall|key: Seq<char>| #[trigger] pairs_map(new_pairs).contains_key(key)
                            implies pairs_map(new_pairs)[key] == pairs_map(old_pairs).insert(kv, v)[key] by {
                            let j = choose|j: int| 0 <= j < new_pairs.len() && (#[trigger] new_pairs[j]).0@ == key;
                            assert(new_pairs[j].0@ == key);
                        }
                    }
                }
            },
        }
    }

    /// Removes the value stored under `k`, keeping the order of the others.
    pub fn remove(&mut self, k: &str) -> (r: Option<V>)
        requires
            old(self).wf(),
        ensures
            final(self).wf(),
            final(self).map() == old(self).map().remove(k@),
            match r {
                Some(v) => old(self).map().contains_key(k@) && old(self).map()[k@] == v,
                None => !old(self).map().contains_key(k@),
            },
            match r {
                Some(v) => exists|i: int|
                    0 <= i < old(self).entries().len() && (#[trigger] old(self).entries()[i]).0@ == k@
                        && final(self).entries() == old(self).entries().remove(i),
                None => final(self).entries() == old(self).entries(),
            },
    {
        let ghost old_pairs = self.pairs@;
        match self.find(k) {
            Some(i) => {
                let mut pairs = Vec::new();
                std::mem::swap(&mut pairs, &mut self.pairs);
                let (_, v) = pairs.remove(i);
                let ghost new_pairs = pairs@;
                assert(keys_unique(new_pairs)) by {
                    assert forall|a: int, b: int| 0 <= a < b < new_pairs.len() implies (
                    #[trigger] new_pairs[a]).0@ != (#[trigger] new_pairs[b]).0@ by {
                        let a2 = if a < i { a } else { a + 1 };
                        let b2 = if b < i { b } else { b + 1 };
                        assert(new_pairs[a] == old_pairs[a2]);
                        assert(new_pairs[b] == old_pairs[b2]);
                        assert(old_pairs[a2].0@ != old_pairs[b2].0@);
                    }
                }
                self.pairs = pairs;
                proof {
                    lemma_pairs_map_all(new_pairs);
                    lemma_pairs_map_all(old_pairs);
                    lemma_pairs_map_at(old_pairs, i as int);
                    assert(pairs_map(new_pairs) =~= pairs_map(old_pairs).remove(k@)) by {
                        assert forall|key: Seq<char>| #[trigger] pairs_map(new_pairs).contains_key(key)
                            <==> pairs_map(old_pairs).remove(k@).contains_key(key) by {
                            if has_key(new_pairs, key) {
                                let j = choose|j: int| 0 <= j < new_pairs.len() && (#[trigger] new_pairs[j]).0@ == key;
                                let j2 = if j < i { j } else { j + 1 };
                                assert(old_pairs[j2].0@ == key);
                                assert(old_pairs[j2].0@ != old_pairs[i as int].0@);
                            }
                            if has_key(old_pairs, key) && key != k@ {
                                let j = choose|j: int| 0 <= j < old_pairs.len() && (#[trigger] old_pairs[j]).0@ == key;
                                let j2 = if j < i { j } else { j - 1 };
                                assert(new_pairs[j2].0@ == key);
                            }
                        }
                        assert forall|key: Seq<char>| #[trigger] pairs_map(new_pairs).contains_key(key)
                            implies pairs_map(new_pairs)[key] == pairs_map(old_pairs).remove(k@)[key] by {
                            let j = choose|j: int| 0 <= j < new_pairs.len() && (#[trigger] new_pairs[j]).0@ == key;
                            let j2 = if j < i { j } else { j + 1 };
                            assert(old_pairs[j2].0@ == key);
                        }
                    }
                }
                Some(v)
            },
            None => {
                proof {
                    assert(pairs_map(old_pairs) =~= pairs_map(old_pairs).remove(k@));
                }
                None
            },
        }
    }
}

} // verus!
