//! A map keyed by strings, standing where the server used `HashMap<String, _>`:
//! header tables, form fields and parameter lists.
use vstd::prelude::*;
use vstd::std_specs::cmp::PartialEqSpecImpl;

verus! {

/// The map that a list of (key, value) pairs with distinct keys stands for.
pub open spec fn pairs_to_map<V>(p: Seq<(Seq<char>, V)>) -> Map<Seq<char>, V> {
    Map::new(
        |k: Seq<char>| exists|i: int| 0 <= i < p.len() && #[trigger] p[i].0 == k,
        |k: Seq<char>| p[choose|i: int| 0 <= i < p.len() && #[trigger] p[i].0 == k].1,
    )
}

/// No key occurs twice in the list.
pub open spec fn keys_distinct<V>(p: Seq<(Seq<char>, V)>) -> bool {
    forall|i: int, j: int|
        0 <= i < p.len() && 0 <= j < p.len() && i != j ==> #[trigger] p[i].0 != #[trigger] p[j].0
}

/// In a list with distinct keys, the value at an index is the map's value for its key.
pub proof fn lemma_pairs_index<V>(p: Seq<(Seq<char>, V)>, i: int)
    requires
        keys_distinct(p),
        0 <= i < p.len(),
    ensures
        pairs_to_map(p).contains_key(p[i].0),
        pairs_to_map(p)[p[i].0] == p[i].1,
{
    let k = p[i].0;
    assert(exists|j: int| 0 <= j < p.len() && #[trigger] p[j].0 == k);
    let c = choose|j: int| 0 <= j < p.len() && #[trigger] p[j].0 == k;
    assert(c == i);
}

/// Replacing the value of an existing key.
pub proof fn lemma_pairs_update<V>(p: Seq<(Seq<char>, V)>, i: int, v: V)
    requires
        keys_distinct(p),
        0 <= i < p.len(),
    ensures
        keys_distinct(p.update(i, (p[i].0, v))),
        pairs_to_map(p.update(i, (p[i].0, v))) == pairs_to_map(p).insert(p[i].0, v),
{
    let k = p[i].0;
    let q = p.update(i, (k, v));
    assert forall|a: int, b: int|
        0 <= a < q.len() && 0 <= b < q.len() && a != b implies #[trigger] q[a].0 != #[trigger] q[b].0 by {
        assert(q[a].0 == p[a].0);
        assert(q[b].0 == p[b].0);
    }
    let m = pairs_to_map(p).insert(k, v);
    assert forall|key: Seq<char>| #[trigger] pairs_to_map(q).contains_key(key) <==> m.contains_key(key) by {
        if m.contains_key(key) {
            if key != k {
                let j = choose|j: int| 0 <= j < p.len() && #[trigger] p[j].0 == key;
                assert(q[j].0 == key);
            } else {
                assert(q[i].0 == key);
            }
        }
        if pairs_to_map(q).contains_key(key) {
            let j = choose|j: int| 0 <= j < q.len() && #[trigger] q[j].0 == key;
            assert(p[j].0 == key);
        }
    }
    assert forall|key: Seq<char>| #[trigger] m.contains_key(key) implies pairs_to_map(q)[key] == m[key] by {
        if key == k {
            lemma_pairs_index(q, i);
        } else {
            let j = choose|j: int| 0 <= j < p.len() && #[trigger] p[j].0 == key;
            lemma_pairs_index(p, j);
            assert(q[j] == p[j]);
            lemma_pairs_index(q, j);
        }
    }
    assert(pairs_to_map(q) =~= m);
}

/// Appending a pair whose key is new.
pub proof fn lemma_pairs_push<V>(p: Seq<(Seq<char>, V)>, k: Seq<char>, v: V)
    requires
        keys_distinct(p),
        !pairs_to_map(p).contains_key(k),
    ensures
        keys_distinct(p.push((k, v))),
        pairs_to_map(p.push((k, v))) == pairs_to_map(p).insert(k, v),
{
    let q = p.push((k, v));
    assert forall|a: int, b: int|
        0 <= a < q.len() && 0 <= b < q.len() && a != b implies #[trigger] q[a].0 != #[trigger] q[b].0 by {
        if a == p.len() {
            assert(p[b].0 == q[b].0);
        } else if b == p.len() {
            assert(p[a].0 == q[a].0);
        } else {
            assert(p[a].0 == q[a].0);
            assert(p[b].0 == q[b].0);
        }
    }
    let m = pairs_to_map(p).insert(k, v);
    assert forall|key: Seq<char>| #[trigger] pairs_to_map(q).contains_key(key) <==> m.contains_key(key) by {
        if m.contains_key(key) {
            if key != k {
                let j = choose|j: int| 0 <= j < p.len() && #[trigger] p[j].0 == key;
                assert(q[j].0 == key);
            } else {
                assert(q[p.len() as int].0 == key);
            }
        }
        if pairs_to_map(q).contains_key(key) {
            let j = choose|j: int| 0 <= j < q.len() && #[trigger] q[j].0 == key;
            if j < p.len() {
                assert(p[j].0 == key);
            }
        }
    }
    assert forall|key: Seq<char>| #[trigger] m.contains_key(key) implies pairs_to_map(q)[key] == m[key] by {
        if key == k {
            lemma_pairs_index(q, p.len() as int);
        } else {
            let j = choose|j: int| 0 <= j < p.len() && #[trigger] p[j].0 == key;
            lemma_pairs_index(p, j);
            assert(q[j] == p[j]);
            lemma_pairs_index(q, j);
        }
    }
    assert(pairs_to_map(q) =~= m);
}

/// Taking out the pair at an index.
pub proof fn lemma_pairs_remove<V>(p: Seq<(Seq<char>, V)>, i: int)
    requires
        keys_distinct(p),
        0 <= i < p.len(),
    ensures
        keys_distinct(p.remove(i)),
        pairs_to_map(p.remove(i)) == pairs_to_map(p).remove(p[i].0),
{
    let k = p[i].0;
    let q = p.remove(i);
    assert forall|j: int| 0 <= j < q.len() implies #[trigger] q[j] == p[if j < i { j } else { j + 1 }] by {}
    assert forall|a: int, b: int|
        0 <= a < q.len() && 0 <= b < q.len() && a != b implies #[trigger] q[a].0 != #[trigger] q[b].0 by {
        let a2 = if a < i { a } else { a + 1 };
        let b2 = if b < i { b } else { b + 1 };
        assert(q[a] == p[a2]);
        assert(q[b] == p[b2]);
    }
    let m = pairs_to_map(p).remove(k);
    assert forall|key: Seq<char>| #[trigger] pairs_to_map(q).contains_key(key) <==> m.contains_key(key) by {
        if m.contains_key(key) {
            let j = choose|j: int| 0 <= j < p.len() && #[trigger] p[j].0 == key;
            assert(j != i);
            let j2 = if j < i { j } else { j - 1 };
            assert(q[j2] == p[j]);
        }
        if pairs_to_map(q).contains_key(key) {
            let j = choose|j: int| 0 <= j < q.len() && #[trigger] q[j].0 == key;
            let j2 = if j < i { j } else { j + 1 };
            assert(q[j] == p[j2]);
            assert(j2 != i);
        }
    }
    assert forall|key: Seq<char>| #[trigger] m.contains_key(key) implies pairs_to_map(q)[key] == m[key] by {
        let j = choose|j: int| 0 <= j < p.len() && #[trigger] p[j].0 == key;
        assert(j != i);
        let j2 = if j < i { j } else { j - 1 };
        assert(q[j2] == p[j]);
        lemma_pairs_index(p, j);
        lemma_pairs_index(q, j2);
    }
    assert(pairs_to_map(q) =~= m);
}

/// The list after setting `k` to `v`: the value replaced where the key is
/// present, the pair appended where it is not.
pub open spec fn insert_pair<V>(p: Seq<(Seq<char>, V)>, k: Seq<char>, v: V) -> Seq<(Seq<char>, V)> {
    if exists|i: int| 0 <= i < p.len() && #[trigger] p[i].0 == k {
        p.update(choose|i: int| 0 <= i < p.len() && #[trigger] p[i].0 == k, (k, v))
    } else {
        p.push((k, v))
    }
}

/// The list without the pair of key `k`, the others kept in order.
pub open spec fn remove_pair<V>(p: Seq<(Seq<char>, V)>, k: Seq<char>) -> Seq<(Seq<char>, V)> {
    if exists|i: int| 0 <= i < p.len() && #[trigger] p[i].0 == k {
        p.remove(choose|i: int| 0 <= i < p.len() && #[trigger] p[i].0 == k)
    } else {
        p
    }
}

/// A map from strings to values, kept as a list of pairs with distinct keys.
#[derive(Debug)]
pub struct StringMap<V: DeepView> {
    entries: Vec<(String, V)>,
}

impl<V: DeepView> StringMap<V> {
    /// The entries, in the order in which the map keeps them.
    pub closed spec fn pairs(&self) -> Seq<(Seq<char>, V::V)> {
        Seq::new(self.entries@.len(), |i: int| (self.entries@[i].0@, self.entries@[i].1.deep_view()))
    }

    #[verifier::type_invariant]
    spec fn wf(self) -> bool {
        keys_distinct(self.pairs())
    }

    /// An empty map.
    pub fn new() -> (m: Self)
        ensures
            m@ == Map::<Seq<char>, V::V>::empty(),
            m.pairs().len() == 0,
    {
        let m = StringMap { entries: Vec::new() };
        assert(m@ =~= Map::<Seq<char>, V::V>::empty());
        m
    }

    /// How many entries the map holds.
    pub fn len(&self) -> (n: usize)
        ensures
            n == self.pairs().len(),
    {
        self.entries.len()
    }

    /// The entry at a position of the map's order.
    pub fn entry(&self, i: usize) -> (kv: (&String, &V))
        requires
            i < self.pairs().len(),
        ensures
            (kv.0@, kv.1.deep_view()) == self.pairs()[i as int],
    {
        (&self.entries[i].0, &self.entries[i].1)
    }

    /// The entries have distinct keys and make up the map.
    pub fn entries_are_map(&self)
        ensures
            keys_distinct(self.pairs()),
            self@ == pairs_to_map(self.pairs()),
    {
        proof { use_type_invariant(self); }
    }

    /// Where `key` stands in the list of entries.
    fn index_of(&self, key: &str) -> (found: Option<usize>)
        ensures
            match found {
                Some(i) => i < self.pairs().len() && self.pairs()[i as int].0 == key@,
                None => !self@.contains_key(key@),
            },
    {
        let k = key.to_owned();
        let mut i: usize = 0;
        while i < self.entries.len()
            invariant
                i <= self.entries@.len(),
                k@ == key@,
                forall|j: int| 0 <= j < i ==> #[trigger] self.pairs()[j].0 != key@,
            decreases self.entries.len() - i,
        {
            if self.entries[i].0 == k {
                return Some(i);
            }
            i = i + 1;
        }
        proof {
            if self@.contains_key(key@) {
                let j = choose|j: int| 0 <= j < self.pairs().len() && #[trigger] self.pairs()[j].0 == key@;
            }
        }
        None
    }

    /// The value for `key`, if there is one.
    pub fn get(&self, key: &str) -> (value: Option<&V>)
        ensures
            value is Some <==> self@.contains_key(key@),
            value matches Some(v) ==> v.deep_view() == self@[key@],
    {
        proof { use_type_invariant(self); }
        match self.index_of(key) {
            Some(i) => {
                proof { lemma_pairs_index(self.pairs(), i as int); }
                Some(&self.entries[i].1)
            },
            None => None,
        }
    }

    /// Sets the value for `key`, replacing any earlier one.
    pub fn insert(&mut self, key: String, value: V)
        ensures
            final(self)@ == old(self)@.insert(key@, value.deep_view()),
            final(self).pairs() == insert_pair(old(self).pairs(), key@, value.deep_view()),
    {
        proof { use_type_invariant(&*self); }
        let ghost old_pairs = self.pairs();
        let mut entries: Vec<(String, V)> = Vec::new();
        std::mem::swap(&mut entries, &mut self.entries);
        let found = {
            let tmp = StringMap { entries };
            let f = tmp.index_of(key.as_str());
            entries = tmp.entries;
            f
        };
        match found {
            Some(i) => {
                proof {
                    let c = choose|j: int| 0 <= j < old_pairs.len() && #[trigger] old_pairs[j].0 == key@;
                    assert(old_pairs[i as int].0 == key@);
                    assert(c == i);
                }
                entries.set(i, (key, value));
                proof {
                    lemma_pairs_update(old_pairs, i as int, value.deep_view());
                    assert(Seq::new(entries@.len(), |j: int| (entries@[j].0@, entries@[j].1.deep_view()))
                        =~= old_pairs.update(i as int, (old_pairs[i as int].0, value.deep_view())));
                }
            },
            None => {
                proof {
                    if exists|j: int| 0 <= j < old_pairs.len() && #[trigger] old_pairs[j].0 == key@ {
                        let c = choose|j: int| 0 <= j < old_pairs.len() && #[trigger] old_pairs[j].0 == key@;
                        assert(pairs_to_map(old_pairs).contains_key(key@));
                    }
                }
                let ghost kv = key@;
                entries.push((key, value));
                proof {
                    lemma_pairs_push(old_pairs, kv, value.deep_view());
                    assert(Seq::new(entries@.len(), |j: int| (entries@[j].0@, entries@[j].1.deep_view()))
                        =~= old_pairs.push((kv, value.deep_view())));
                }
            },
        }
        self.entries = entries;
    }

    /// Removes `key` and its value, if present.
    pub fn remove(&mut self, key: &str)
        ensures
            final(self)@ == old(self)@.remove(key@),
            final(self).pairs() == remove_pair(old(self).pairs(), key@),
    {
        proof { use_type_invariant(&*self); }
        let ghost old_pairs = self.pairs();
        let mut entries: Vec<(String, V)> = Vec::new();
        std::mem::swap(&mut entries, &mut self.entries);
        let found = {
            let tmp = StringMap { entries };
            let f = tmp.index_of(key);
            entries = tmp.entries;
            f
        };
        match found {
            Some(i) => {
                proof {
                    let c = choose|j: int| 0 <= j < old_pairs.len() && #[trigger] old_pairs[j].0 == key@;
                    assert(old_pairs[i as int].0 == key@);
                    assert(c == i);
                }
                entries.remove(i);
                proof {
                    lemma_pairs_remove(old_pairs, i as int);
                    assert(Seq::new(entries@.len(), |j: int| (entries@[j].0@, entries@[j].1.deep_view()))
                        =~= old_pairs.remove(i as int));
                }
            },
            None => {
                proof {
                    assert(pairs_to_map(old_pairs).remove(key@) =~= pairs_to_map(old_pairs));
                    if exists|j: int| 0 <= j < old_pairs.len() && #[trigger] old_pairs[j].0 == key@ {
                        let c = choose|j: int| 0 <= j < old_pairs.len() && #[trigger] old_pairs[j].0 == key@;
                        assert(pairs_to_map(old_pairs).contains_key(key@));
                    }
                }
            },
        }
        self.entries = entries;
    }
}

impl StringMap<String> {
    /// Every key of `other` is in `self` with the same value.
    fn includes(&self, other: &StringMap<String>) -> (r: bool)
        ensures
            r == forall|k: Seq<char>| #[trigger] other@.contains_key(k) ==> self@.contains_key(k) && self@[k] == other@[k],
    {
        proof { use_type_invariant(other); }
        let mut i: usize = 0;
        while i < other.entries.len()
            invariant
                i <= other.entries@.len(),
                keys_distinct(other.pairs()),
                forall|j: int| 0 <= j < i ==> self@.contains_key(#[trigger] other.pairs()[j].0)
                    && self@[other.pairs()[j].0] == other.pairs()[j].1,
            decreases other.entries.len() - i,
        {
            match self.get(other.entries[i].0.as_str()) {
                Some(v) => {
                    if *v != other.entries[i].1 {
                        proof {
                            lemma_pairs_index(other.pairs(), i as int);
                            let k = other.pairs()[i as int].0;
                            assert(other@.contains_key(k));
                            assert(self@[k] != other@[k]);
                        }
                        return false;
                    }
                },
                None => {
                    proof {
                        lemma_pairs_index(other.pairs(), i as int);
                        let k = other.pairs()[i as int].0;
                        assert(other@.contains_key(k));
                    }
                    return false;
                },
            }
            i = i + 1;
        }
        proof {
            assert forall|k: Seq<char>| #[trigger] other@.contains_key(k) implies self@.contains_key(k) && self@[k] == other@[k] by {
                let j = choose|j: int| 0 <= j < other.pairs().len() && #[trigger] other.pairs()[j].0 == k;
                lemma_pairs_index(other.pairs(), j);
            }
        }
        true
    }
}

/// Two maps are equal when they hold the same keys with the same values,
/// whatever order they keep them in.
impl PartialEq for StringMap<String> {
    fn eq(&self, other: &Self) -> (r: bool) {
        let r = self.includes(other) && other.includes(self);
        proof {
            if r {
                assert(self@ =~= other@);
            }
        }
        r
    }
}

impl PartialEqSpecImpl for StringMap<String> {
    open spec fn obeys_eq_spec() -> bool {
        true
    }

    open spec fn eq_spec(&self, other: &StringMap<String>) -> bool {
        self@ == other@
    }
}

impl<V: DeepView> View for StringMap<V> {
    type V = Map<Seq<char>, V::V>;

    closed spec fn view(&self) -> Map<Seq<char>, V::V> {
        pairs_to_map(self.pairs())
    }
}

} // verus!
