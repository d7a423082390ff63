//! An association table kept as a vector of pairs with unique keys, viewed as a map.

use vstd::prelude::*;

verus! {

/// Keys that can be compared at run time by their view.
pub trait TableKey: View + Sized {
    fn same_key(&self, other: &Self) -> (r: bool)
        ensures
            r == (self@ == other@),
    ;
}

impl TableKey for String {
    fn same_key(&self, other: &Self) -> (r: bool) {
        *self == *other
    }
}

/// The map that a sequence of pairs denotes: a later pair overrides an earlier one.
pub open spec fn pairs_map<K: View, V>(s: Seq<(K, V)>) -> Map<K::V, V>
    decreases s.len(),
{
    if s.len() == 0 {
        Map::empty()
    } else {
        pairs_map(s.drop_last()).insert(s.last().0@, s.last().1)
    }
}

/// No two pairs share a key.
pub open spec fn keys_unique<K: View, V>(s: Seq<(K, V)>) -> bool {
    forall|i: int, j: int|
        0 <= i < s.len() && 0 <= j < s.len() && i != j ==> s[i].0@ != s[j].0@
}

pub struct Table<K, V> {
    pub entries: Vec<(K, V)>,
}

impl<K: TableKey, V> View for Table<K, V> {
    type V = Map<K::V, V>;

    open spec fn view(&self) -> Map<K::V, V> {
        pairs_map(self.entries@)
    }
}

/// A key absent from every pair of a sequence is absent from its map.
pub proof fn lemma_absent_key<K: View, V>(s: Seq<(K, V)>, k: K::V)
    requires
        forall|i: int| 0 <= i < s.len() ==> s[i].0@ != k,
    ensures
        !pairs_map(s).contains_key(k),
    decreases s.len(),
{
    if s.len() > 0 {
        lemma_absent_key(s.drop_last(), k);
    }
}

/// Every key of the map comes from some pair.
pub proof fn lemma_key_has_pair<K: View, V>(s: Seq<(K, V)>, k: K::V)
    requires
        pairs_map(s).contains_key(k),
    ensures
        exists|i: int| 0 <= i < s.len() && s[i].0@ == k,
    decreases s.len(),
{
    if s.last().0@ != k {
        lemma_key_has_pair(s.drop_last(), k);
        let i = choose|i: int| 0 <= i < s.drop_last().len() && s.drop_last()[i].0@ == k;
        assert(s[i].0@ == k);
    }
}

/// The keys of the map are the keys of the pairs.
pub proof fn lemma_pairs_dom<K: View, V>(s: Seq<(K, V)>)
    ensures
        forall|k: K::V| #[trigger] pairs_map(s).contains_key(k) <==> exists|i: int| 0 <= i < s.len() && s[i].0@ == k,
{
    assert forall|k: K::V| #[trigger] pairs_map(s).contains_key(k) <==> exists|i: int| 0 <= i < s.len() && s[i].0@ == k by {
        if pairs_map(s).contains_key(k) {
            lemma_key_has_pair(s, k);
        }
        if exists|i: int| 0 <= i < s.len() && s[i].0@ == k {
            if !pairs_map(s).contains_key(k) {
                let i = choose|i: int| 0 <= i < s.len() && s[i].0@ == k;
                lemma_absent_key_rev(s, k, i);
            }
        }
    }
}

proof fn lemma_absent_key_rev<K: View, V>(s: Seq<(K, V)>, k: K::V, i: int)
    requires
        0 <= i < s.len(),
        s[i].0@ == k,
    ensures
        pairs_map(s).contains_key(k),
    decreases s.len(),
{
    if i < s.len() - 1 {
        lemma_absent_key_rev(s.drop_last(), k, i);
    }
}

/// With unique keys, each pair is what the map holds for its key.
pub proof fn lemma_pair_in_map<K: View, V>(s: Seq<(K, V)>, i: int)
    requires
        keys_unique(s),
        0 <= i < s.len(),
    ensures
        pairs_map(s).contains_key(s[i].0@),
        pairs_map(s)[s[i].0@] == s[i].1,
    decreases s.len(),
{
    if i < s.len() - 1 {
        assert(keys_unique(s.drop_last()));
        lemma_pair_in_map(s.drop_last(), i);
    }
}

/// The map of a sequence agrees with the map of a prefix on a key that the rest lacks.
proof fn lemma_suffix_lacks<K: View, V>(s: Seq<(K, V)>, n: int, k: K::V)
    requires
        0 <= n <= s.len(),
        forall|i: int| n <= i < s.len() ==> s[i].0@ != k,
    ensures
        pairs_map(s).contains_key(k) == pairs_map(s.take(n)).contains_key(k),
        pairs_map(s).contains_key(k) ==> pairs_map(s)[k] == pairs_map(s.take(n))[k],
    decreases s.len() - n,
{
    if n < s.len() {
        assert(s.drop_last().take(n) =~= s.take(n));
        lemma_suffix_lacks(s.drop_last(), n, k);
    } else {
        assert(s.take(n) =~= s);
    }
}

impl<K: TableKey, V> Table<K, V> {
    pub open spec fn wf(&self) -> bool {
        keys_unique(self.entries@)
    }

    pub fn new() -> (r: Self)
        ensures
            r.wf(),
            r@ == Map::<K::V, V>::empty(),
    {
        Table { entries: Vec::new() }
    }

    pub fn len(&self) -> (r: usize)
        requires
            self.wf(),
        ensures
            r == self.entries@.len(),
    {
        self.entries.len()
    }

    /// Position of the pair with key `k`, if any.
    pub fn position(&self, k: &K) -> (r: Option<usize>)
        requires
            self.wf(),
        ensures
            r is None <==> !self@.contains_key(k@),
            r matches Some(i) ==> i < self.entries@.len() && self.entries@[i as int].0@ == k@
                && self@[k@] == self.entries@[i as int].1,
    {
        let mut i: usize = 0;
        while i < self.entries.len()
            invariant
                self.wf(),
                i <= self.entries@.len(),
                forall|j: int| 0 <= j < i ==> self.entries@[j].0@ != k@,
            decreases self.entries@.len() - i,
        {
            if self.entries[i].0.same_key(k) {
                proof {
                    lemma_pair_in_map(self.entries@, i as int);
                }
                return Some(i);
            }
            i = i + 1;
        }
        proof {
            lemma_absent_key(self.entries@, k@);
        }
        None
    }

    pub fn contains(&self, k: &K) -> (r: bool)
        requires
            self.wf(),
        ensures
            r == self@.contains_key(k@),
    {
        self.position(k).is_some()
    }

    pub fn get(&self, k: &K) -> (r: Option<&V>)
        requires
            self.wf(),
        ensures
            r is None <==> !self@.contains_key(k@),
            r matches Some(v) ==> *v == self@[k@],
    {
        match self.position(k) {
            Some(i) => Some(&self.entries[i].1),
            None => None,
        }
    }

    /// Removes the pair with key `k` and hands back its value.
    pub fn remove(&mut self, k: &K) -> (r: Option<V>)
        requires
            old(self).wf(),
        ensures
            final(self).wf(),
            final(self)@ == old(self)@.remove(k@),
            r is None <==> !old(self)@.contains_key(k@),
            r matches Some(v) ==> v == old(self)@[k@],
    {
        match self.position(k) {
            None => {
                proof {
                    assert(self@.remove(k@) =~= self@);
                }
                None
            },
            Some(i) => {
                let ghost s = self.entries@;
                let ghost key = k@;
                let (_, v) = self.entries.remove(i);
                proof {
                    let t = self.entries@;
                    assert(t =~= s.take(i as int) + s.skip(i as int + 1));
                    assert(keys_unique(t)) by {
                        assert forall|a: int, b: int|
                            0 <= a < t.len() && 0 <= b < t.len() && a != b implies t[a].0@
                            != t[b].0@ by {
                            let a2 = if a < i { a } else { a + 1 };
                            let b2 = if b < i { b } else { b + 1 };
                            assert(t[a] == s[a2] && t[b] == s[b2]);
                        }
                    }
                    assert forall|j: int| 0 <= j < t.len() implies t[j].0@ != key by {
                        let j2 = if j < i { j } else { j + 1 };
                        assert(t[j] == s[j2]);
                    }
                    lemma_absent_key(t, key);
                    let m = pairs_map(s).remove(key);
                    assert forall|q: K::V| #[trigger] pairs_map(t).contains_key(q) <==> m.contains_key(q) by {
                        lemma_same_entry(s, t, i as int, key, q);
                    }
                    assert forall|q: K::V| #[trigger] pairs_map(t).contains_key(q) implies pairs_map(t)[q] == m[q] by {
                        lemma_same_entry(s, t, i as int, key, q);
                    }
                    assert(pairs_map(t) =~= m);
                }
                Some(v)
            },
        }
    }

    /// Sets the value of `k`, replacing any earlier one.
    pub fn insert(&mut self, k: K, v: V)
        requires
            old(self).wf(),
        ensures
            final(self).wf(),
            final(self)@ == old(self)@.insert(k@, v),
    {
        let _ = self.remove(&k);
        let ghost s = self.entries@;
        let ghost key = k@;
        proof {
            lemma_absent_key_of_map(s, key);
        }
        self.entries.push((k, v));
        proof {
            assert(self.entries@.drop_last() =~= s);
            assert(self@ =~= pairs_map(s).insert(key, v));
        }
    }
}

/// Dropping the pair at `i` keeps what the map holds for every other key.
proof fn lemma_same_entry<K: View, V>(s: Seq<(K, V)>, t: Seq<(K, V)>, i: int, key: K::V, q: K::V)
    requires
        keys_unique(s),
        keys_unique(t),
        0 <= i < s.len(),
        s[i].0@ == key,
        t == s.take(i) + s.skip(i + 1),
        !pairs_map(t).contains_key(key),
    ensures
        pairs_map(t).contains_key(q) == pairs_map(s).remove(key).contains_key(q),
        pairs_map(t).contains_key(q) ==> pairs_map(t)[q] == pairs_map(s)[q],
{
    if q != key {
        if pairs_map(s).contains_key(q) {
            lemma_key_has_pair(s, q);
            let j = choose|j: int| 0 <= j < s.len() && s[j].0@ == q;
            lemma_pair_in_map(s, j);
            let j2 = if j < i { j } else { j - 1 };
            assert(t[j2] == s[j]);
            lemma_pair_in_map(t, j2);
        }
        if pairs_map(t).contains_key(q) {
            lemma_key_has_pair(t, q);
            let j = choose|j: int| 0 <= j < t.len() && t[j].0@ == q;
            let j2 = if j < i { j } else { j + 1 };
            assert(t[j] == s[j2]);
            lemma_pair_in_map(s, j2);
            lemma_pair_in_map(t, j);
        }
    }
}

/// A key missing from the map of a sequence with unique keys is missing from every pair.
proof fn lemma_absent_key_of_map<K: View, V>(s: Seq<(K, V)>, k: K::V)
    requires
        keys_unique(s),
        !pairs_map(s).contains_key(k),
    ensures
        forall|i: int| 0 <= i < s.len() ==> s[i].0@ != k,
{
    assert forall|i: int| 0 <= i < s.len() implies s[i].0@ != k by {
        if s[i].0@ == k {
            lemma_pair_in_map(s, i);
        }
    }
}

} // verus!
