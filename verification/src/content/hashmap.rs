//! A map that remembers the order in which its keys were first inserted.
use vstd::prelude::*;
use vstd::laws_eq::obeys_concrete_eq;

verus! {

broadcast use vstd::std_specs::vec::group_vec_axioms;

/// The position of the first entry at or after `i` with the key `k`.
pub open spec fn key_index_from<K, V>(entries: Seq<(K, V)>, k: K, i: int) -> Option<int>
    decreases entries.len() - i,
{
    if i < 0 || i >= entries.len() {
        None
    } else if entries[i].0 == k {
        Some(i)
    } else {
        key_index_from(entries, k, i + 1)
    }
}

/// The position of the first entry with the key `k`.
pub open spec fn key_index<K, V>(entries: Seq<(K, V)>, k: K) -> Option<int> {
    key_index_from(entries, k, 0)
}

/// The entries after inserting a value under a key: a new key goes after
/// the others, a key that is there keeps its place and gets the value.
pub open spec fn insert_spec<K, V>(m: Seq<(K, V)>, k: K, v: V) -> Seq<(K, V)> {
    match key_index(m, k) {
        Some(i) => m.update(i, (m[i].0, v)),
        None => m.push((k, v)),
    }
}

/// The entries after inserting the pairs in order.
pub open spec fn insert_all<K, V>(m: Seq<(K, V)>, pairs: Seq<(K, V)>) -> Seq<(K, V)>
    decreases pairs.len(),
{
    if pairs.len() == 0 {
        m
    } else {
        insert_all(insert_spec(m, pairs[0].0, pairs[0].1), pairs.drop_first())
    }
}

/// Whether no key occurs twice.
pub open spec fn distinct_keys<K, V>(entries: Seq<(K, V)>) -> bool {
    forall|i: int, j: int|
        0 <= i < j < entries.len() ==> #[trigger] entries[i].0 != #[trigger] entries[j].0
}

/// The value under a key.
pub open spec fn value_of<K, V>(entries: Seq<(K, V)>, k: K) -> Option<V> {
    match key_index(entries, k) {
        Some(i) => Some(entries[i].1),
        None => None,
    }
}

proof fn lemma_key_index_from<K, V>(entries: Seq<(K, V)>, k: K, i: int)
    requires
        0 <= i,
    ensures
        match key_index_from(entries, k, i) {
            Some(m) => i <= m < entries.len() && entries[m].0 == k && forall|j: int|
                i <= j < m ==> entries[j].0 != k,
            None => forall|j: int| i <= j < entries.len() ==> entries[j].0 != k,
        },
    decreases entries.len() - i,
{
    if i < entries.len() && entries[i].0 != k {
        lemma_key_index_from(entries, k, i + 1);
    }
}

proof fn lemma_key_index<K, V>(entries: Seq<(K, V)>, k: K)
    ensures
        match key_index(entries, k) {
            Some(i) => 0 <= i < entries.len() && entries[i].0 == k && forall|j: int|
                0 <= j < i ==> entries[j].0 != k,
            None => forall|j: int| 0 <= j < entries.len() ==> entries[j].0 != k,
        },
{
    lemma_key_index_from(entries, k, 0);
}

proof fn lemma_key_index_at<K, V>(entries: Seq<(K, V)>, k: K, i: int)
    requires
        0 <= i < entries.len(),
        entries[i].0 == k,
        forall|j: int| 0 <= j < i ==> entries[j].0 != k,
    ensures
        key_index(entries, k) == Some(i),
{
    lemma_key_index(entries, k);
    match key_index(entries, k) {
        Some(m) => {
            if m < i {
                assert(entries[m].0 != k);
            } else if m > i {
                assert(entries[i].0 != k);
            }
        },
        None => {
            assert(entries[i].0 != k);
        },
    }
}

/// A map that keeps its entries in the order their keys were first
/// inserted.
#[derive(Debug)]
pub struct OrderedHashMap<K, V> {
    entries: Vec<(K, V)>,
}

impl<K, V> View for OrderedHashMap<K, V> {
    type V = Seq<(K, V)>;

    closed spec fn view(&self) -> Seq<(K, V)> {
        self.entries@
    }
}

impl<K: PartialEq, V> OrderedHashMap<K, V> {
    /// An empty map.
    pub fn new() -> (r: Self)
        ensures
            r@ == Seq::<(K, V)>::empty(),
    {
        OrderedHashMap { entries: Vec::new() }
    }

    fn position(&self, key: &K) -> (r: Option<usize>)
        requires
            obeys_concrete_eq::<K>(),
        ensures
            match r {
                Some(i) => key_index(self@, *key) == Some(i as int),
                None => key_index(self@, *key) is None,
            },
    {
        proof {
            reveal(obeys_concrete_eq);
        }
        let mut i: usize = 0;
        while i < self.entries.len()
            invariant
                i <= self.entries@.len(),
                obeys_concrete_eq::<K>(),
                forall|j: int| 0 <= j < i ==> self@[j].0 != *key,
            decreases self.entries.len() - i,
        {
            proof {
                reveal(obeys_concrete_eq);
            }
            if self.entries[i].0 == *key {
                proof {
                    lemma_key_index_at(self@, *key, i as int);
                }
                return Some(i);
            }
            i += 1;
        }
        proof {
            lemma_key_index(self@, *key);
            match key_index(self@, *key) {
                Some(m) => assert(self@[m].0 != *key),
                None => {},
            }
        }
        None
    }

    /// Inserts a value under a key: a new key goes after the others, a key
    /// that is there keeps its place and gets the new value.  Returns the
    /// value it had.
    pub fn insert(&mut self, key: K, value: V) -> (r: Option<V>)
        requires
            obeys_concrete_eq::<K>(),
        ensures
            final(self)@ == insert_spec(old(self)@, key, value),
            r == match key_index(old(self)@, key) {
                Some(i) => Some(old(self)@[i].1),
                None => None,
            },
    {
        match self.position(&key) {
            Some(i) => {
                proof {
                    lemma_key_index(self@, key);
                }
                let mut entry = (key, value);
                self.entries.set_and_swap(i, &mut entry);
                Some(entry.1)
            },
            None => {
                self.entries.push((key, value));
                None
            },
        }
    }

    /// The value under a key.
    pub fn get(&self, key: &K) -> (r: Option<&V>)
        requires
            obeys_concrete_eq::<K>(),
        ensures
            match value_of(self@, *key) {
                Some(v) => r == Some(&v),
                None => r is None,
            },
    {
        proof {
            lemma_key_index(self@, *key);
        }
        match self.position(key) {
            Some(i) => Some(&self.entries[i].1),
            None => None,
        }
    }

    /// Whether the map has no entries.
    pub fn is_empty(&self) -> (r: bool)
        ensures
            r == (self@.len() == 0),
    {
        self.entries.len() == 0
    }

    /// Walks the entries in the order their keys were first inserted.
    pub fn iter(&self) -> (r: Iter<'_, K, V>)
        ensures
            r.rest() == self@,
    {
        Iter { entries: &self.entries, pos: 0 }
    }

    /// Hands out the entries in the order their keys were first inserted.
    pub fn into_iter(self) -> (r: IntoIter<K, V>)
        ensures
            r.rest() == self@,
    {
        let mut rev: Vec<(K, V)> = Vec::new();
        let mut entries = self.entries;
        let ghost all = entries@;
        while entries.len() > 0
            invariant
                all == entries@ + rev@.reverse(),
            decreases entries.len(),
        {
            let ghost before_e = entries@;
            let ghost before_r = rev@;
            let e = entries.pop().unwrap();
            rev.push(e);
            assert(rev@.reverse() =~= seq![e] + before_r.reverse());
            assert(before_e =~= entries@.push(e));
            assert(all =~= entries@ + rev@.reverse());
        }
        assert(all =~= rev@.reverse());
        IntoIter { rev }
    }

    /// A map from pairs, inserted in order.
    pub fn from_pairs(pairs: Vec<(K, V)>) -> (r: Self)
        requires
            obeys_concrete_eq::<K>(),
        ensures
            r@ == insert_all(Seq::<(K, V)>::empty(), pairs@),
    {
        let mut map = OrderedHashMap::new();
        let len0 = pairs.len();
        let mut it = OrderedHashMap { entries: pairs }.into_iter();
        let ghost all = it.rest();
        let mut n: usize = 0;
        assert(all.skip(0) =~= all);
        while it.len() > 0
            invariant
                obeys_concrete_eq::<K>(),
                n <= all.len(),
                all.len() == len0,
                all == pairs@,
                it.rest() == all.skip(n as int),
                insert_all(Seq::<(K, V)>::empty(), all) == insert_all(map@, all.skip(n as int)),
            decreases it.rest().len(),
        {
            let ghost rest = it.rest();
            let (k, v) = it.next().unwrap();
            assert(rest.drop_first() =~= all.skip(n + 1));
            map.insert(k, v);
            n += 1;
        }
        assert(all.skip(n as int).len() == 0);
        map
    }
}

/// Inserting keeps the keys distinct, adds the key, and keeps the others.
proof fn lemma_insert_keys<K, V>(before: Seq<(K, V)>, k: K, v: V)
    requires
        distinct_keys(before),
    ensures
        ({
            let after = match key_index(before, k) {
                Some(i) => before.update(i, (before[i].0, v)),
                None => before.push((k, v)),
            };
            &&& distinct_keys(after)
            &&& value_of(after, k) == Some(v)
            &&& forall|k2: K| k2 != k ==> value_of(after, k2) == value_of(before, k2)
        }),
{
    lemma_key_index(before, k);
    let after = match key_index(before, k) {
        Some(i) => before.update(i, (before[i].0, v)),
        None => before.push((k, v)),
    };
    assert(forall|j: int| 0 <= j < before.len() ==> #[trigger] after[j].0 == before[j].0);
    assert(distinct_keys(after)) by {
        assert forall|i: int, j: int| 0 <= i < j < after.len() implies #[trigger] after[i].0 != #[trigger] after[j].0 by {
            if j < before.len() {
                assert(before[i].0 != before[j].0);
            }
        }
    }
    lemma_key_index(after, k);
    match key_index(before, k) {
        Some(i) => {
            lemma_key_index_at(after, k, i);
        },
        None => {
            lemma_key_index_at(after, k, before.len() as int);
        },
    }
    assert forall|k2: K| k2 != k implies value_of(after, k2) == value_of(before, k2) by {
        lemma_key_index(before, k2);
        lemma_key_index(after, k2);
        match key_index(before, k2) {
            Some(m) => {
                lemma_key_index_at(after, k2, m);
            },
            None => {
                match key_index(after, k2) {
                    Some(m) => {
                        if m < before.len() {
                            assert(before[m].0 == k2);
                        }
                    },
                    None => {},
                }
            },
        }
    }
}

/// Inserting a value under a key and then looking the key up gives the
/// value; every other key keeps its value, and no key occurs twice.
pub proof fn lemma_insert_get<K, V>(before: Seq<(K, V)>, k: K, v: V)
    requires
        distinct_keys(before),
    ensures
        ({
            let after = match key_index(before, k) {
                Some(i) => before.update(i, (before[i].0, v)),
                None => before.push((k, v)),
            };
            &&& value_of(after, k) == Some(v)
            &&& forall|k2: K| k2 != k ==> value_of(after, k2) == value_of(before, k2)
            &&& distinct_keys(after)
        }),
{
    lemma_insert_keys(before, k, v);
}

/// Walks the entries of an ordered map by reference.
pub struct Iter<'a, K, V> {
    entries: &'a Vec<(K, V)>,
    pos: usize,
}

impl<'a, K, V> Iter<'a, K, V> {
    /// The entries still to come.
    pub closed spec fn rest(&self) -> Seq<(K, V)> {
        if self.pos <= self.entries@.len() {
            self.entries@.skip(self.pos as int)
        } else {
            Seq::empty()
        }
    }

    /// The next entry.
    pub fn next(&mut self) -> (r: Option<(&'a K, &'a V)>)
        ensures
            old(self).rest().len() == 0 ==> r is None && final(self).rest() == old(self).rest(),
            old(self).rest().len() > 0 ==> r == Some((&old(self).rest()[0].0, &old(self).rest()[0].1))
                && final(self).rest() == old(self).rest().drop_first(),
    {
        if self.pos < self.entries.len() {
            let e = &self.entries[self.pos];
            assert(old(self).rest()[0] == self.entries@[self.pos as int]);
            self.pos += 1;
            assert(old(self).rest().drop_first() =~= self.rest());
            Some((&e.0, &e.1))
        } else {
            None
        }
    }
}

/// Hands out the entries of an ordered map.
pub struct IntoIter<K, V> {
    rev: Vec<(K, V)>,
}

impl<K, V> IntoIter<K, V> {
    /// The entries still to come.
    pub closed spec fn rest(&self) -> Seq<(K, V)> {
        self.rev@.reverse()
    }

    /// The number of entries still to come.
    pub fn len(&self) -> (r: usize)
        ensures
            r == self.rest().len(),
    {
        self.rev.len()
    }

    /// The next entry.
    pub fn next(&mut self) -> (r: Option<(K, V)>)
        ensures
            old(self).rest().len() == 0 ==> r is None && final(self).rest() == old(self).rest(),
            old(self).rest().len() > 0 ==> r == Some(old(self).rest()[0]) && final(self).rest()
                == old(self).rest().drop_first(),
    {
        let ghost before = self.rev@;
        let r = self.rev.pop();
        proof {
            if before.len() > 0 {
                assert(before.reverse()[0] == before.last());
                assert(self.rev@.reverse() =~= before.reverse().drop_first());
            }
        }
        r
    }
}

} // verus!
