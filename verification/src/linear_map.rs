use vstd::prelude::*;

use vstd::laws_eq::obeys_concrete_eq;

use crate::{Error, Vec};

verus! {

/// No key occurs twice among the entries.
pub open spec fn keys_distinct<K, V>(s: Seq<(K, V)>) -> bool {
    forall|i: int, j: int|
        0 <= i < s.len() && 0 <= j < s.len() && i != j ==> #[trigger] s[i].0 != #[trigger] s[j].0
}

/// Some entry has key `k`.
pub open spec fn has_key<K, V>(s: Seq<(K, V)>, k: K) -> bool {
    exists|i: int| 0 <= i < s.len() && #[trigger] s[i].0 == k
}

/// The position of the entry with key `k` (meaningful when `has_key(s, k)`).
pub open spec fn key_index<K, V>(s: Seq<(K, V)>, k: K) -> int {
    choose|i: int| 0 <= i < s.len() && #[trigger] s[i].0 == k
}

/// The map that a sequence of entries with distinct keys stands for.
pub open spec fn entries_map<K, V>(s: Seq<(K, V)>) -> Map<K, V> {
    Map::new(|k: K| has_key(s, k), |k: K| s[key_index(s, k)].1)
}

/// With distinct keys, the entry at position `i` is the one the map gives for its key.
pub proof fn lemma_entries_map_index<K, V>(s: Seq<(K, V)>, i: int)
    requires
        keys_distinct(s),
        0 <= i < s.len(),
    ensures
        has_key(s, s[i].0),
        key_index(s, s[i].0) == i,
        entries_map(s).dom().contains(s[i].0),
        entries_map(s)[s[i].0] == s[i].1,
{
    assert(has_key(s, s[i].0));
    let j = key_index(s, s[i].0);
    assert(s[j].0 == s[i].0);
}

/// Replacing the value of the entry at `i` replaces it in the map.
proof fn lemma_update_value<K, V>(s: Seq<(K, V)>, i: int, v: V)
    requires
        keys_distinct(s),
        0 <= i < s.len(),
    ensures
        keys_distinct(s.update(i, (s[i].0, v))),
        entries_map(s.update(i, (s[i].0, v))) == entries_map(s).insert(s[i].0, v),
{
    let t = s.update(i, (s[i].0, v));
    assert(keys_distinct(t)) by {
        assert forall|a: int, b: int|
            0 <= a < t.len() && 0 <= b < t.len() && a != b implies #[trigger] t[a].0
            != #[trigger] t[b].0 by {
            assert(t[a].0 == s[a].0);
            assert(t[b].0 == s[b].0);
        }
    }
    let m = entries_map(s).insert(s[i].0, v);
    assert forall|k: K| #[trigger] entries_map(t).dom().contains(k) <==> m.dom().contains(k) by {
        if has_key(s, k) {
            let j = key_index(s, k);
            assert(t[j].0 == k);
        }
        if has_key(t, k) {
            let j = key_index(t, k);
            assert(s[j].0 == k);
        }
        lemma_entries_map_index(s, i);
    }
    assert forall|k: K| #[trigger] entries_map(t).dom().contains(k) implies entries_map(t)[k]
        == m[k] by {
        let j = key_index(t, k);
        lemma_entries_map_index(t, j);
        lemma_entries_map_index(s, j);
    }
    assert(entries_map(t) =~= m);
}

/// Appending an entry with a new key inserts it in the map.
proof fn lemma_push_new<K, V>(s: Seq<(K, V)>, k: K, v: V)
    requires
        keys_distinct(s),
        !has_key(s, k),
    ensures
        keys_distinct(s.push((k, v))),
        entries_map(s.push((k, v))) == entries_map(s).insert(k, v),
{
    let t = s.push((k, v));
    assert(keys_distinct(t)) by {
        assert forall|a: int, b: int|
            0 <= a < t.len() && 0 <= b < t.len() && a != b implies #[trigger] t[a].0
            != #[trigger] t[b].0 by {
            if a < s.len() && b < s.len() {
                assert(t[a] == s[a] && t[b] == s[b]);
            } else if a < s.len() {
                assert(t[a] == s[a]);
            } else {
                assert(t[b] == s[b]);
            }
        }
    }
    let m = entries_map(s).insert(k, v);
    assert forall|q: K| #[trigger] entries_map(t).dom().contains(q) <==> m.dom().contains(q) by {
        if has_key(s, q) {
            let j = key_index(s, q);
            assert(t[j].0 == q);
        }
        if has_key(t, q) {
            let j = key_index(t, q);
            if j < s.len() {
                assert(s[j].0 == q);
            }
        }
        assert(t[s.len() as int].0 == k);
    }
    assert forall|q: K| #[trigger] entries_map(t).dom().contains(q) implies entries_map(t)[q]
        == m[q] by {
        let j = key_index(t, q);
        lemma_entries_map_index(t, j);
        if j < s.len() {
            assert(t[j] == s[j]);
            lemma_entries_map_index(s, j);
        }
    }
    assert(entries_map(t) =~= m);
}

/// Removing the entry at `i` by moving the last entry into its place removes its key from
/// the map.
proof fn lemma_swap_remove<K, V>(s: Seq<(K, V)>, i: int)
    requires
        keys_distinct(s),
        0 <= i < s.len(),
    ensures
        keys_distinct(s.update(i, s.last()).drop_last()),
        entries_map(s.update(i, s.last()).drop_last()) == entries_map(s).remove(s[i].0),
{
    let n = s.len() - 1;
    let t = s.update(i, s.last()).drop_last();
    assert forall|a: int| 0 <= a < t.len() implies #[trigger] t[a] == (if a == i {
        s[n]
    } else {
        s[a]
    }) by {}
    assert(keys_distinct(t)) by {
        assert forall|a: int, b: int|
            0 <= a < t.len() && 0 <= b < t.len() && a != b implies #[trigger] t[a].0
            != #[trigger] t[b].0 by {
            let sa = if a == i { n } else { a };
            let sb = if b == i { n } else { b };
            assert(t[a] == s[sa] && t[b] == s[sb]);
        }
    }
    let k = s[i].0;
    let m = entries_map(s).remove(k);
    lemma_entries_map_index(s, i);
    assert forall|q: K| #[trigger] entries_map(t).dom().contains(q) <==> m.dom().contains(q) by {
        if has_key(s, q) && q != k {
            let j = key_index(s, q);
            assert(j != i);
            let tj = if j == n { i } else { j };
            assert(t[tj].0 == q);
        }
        if has_key(t, q) {
            let j = key_index(t, q);
            let sj = if j == i { n } else { j };
            assert(s[sj].0 == q);
            assert(sj != i);
        }
    }
    assert forall|q: K| #[trigger] entries_map(t).dom().contains(q) implies entries_map(t)[q]
        == m[q] by {
        let j = key_index(t, q);
        lemma_entries_map_index(t, j);
        let sj = if j == i { n } else { j };
        assert(t[j] == s[sj]);
        lemma_entries_map_index(s, sj);
    }
    assert(entries_map(t) =~= m);
}

/// A map from keys to values, stored as a list of at most `N` entries that is searched
/// linearly.
///
/// Its view (`m@`) is the map it stands for; `entries` gives the stored order, which the
/// iterators follow.
pub struct LinearMap<K: Eq, V, const N: usize> {
    buffer: Vec<(K, V), N>,
}

impl<K: Eq, V, const N: usize> View for LinearMap<K, V, N> {
    type V = Map<K, V>;

    open spec fn view(&self) -> Map<K, V> {
        entries_map(self.entries())
    }
}

impl<K: Eq, V, const N: usize> LinearMap<K, V, N> {
    /// The entries in their stored order.
    pub closed spec fn entries(&self) -> Seq<(K, V)> {
        self.buffer@
    }

    /// Well-formedness: at most `N` entries, and no key twice.
    pub closed spec fn wf(&self) -> bool {
        &&& self.buffer.wf()
        &&& keys_distinct(self.buffer@)
    }

    /// A well-formed map holds at most `N` entries, with distinct keys.
    pub proof fn lemma_wf(&self)
        requires
            self.wf(),
        ensures
            self.entries().len() <= N,
            keys_distinct(self.entries()),
    {
        self.buffer.lemma_wf();
    }

    /// Removing a key right after inserting it as a new key gives back the map as it was,
    /// with its entries in the same order: `inserted` is what `insert(key, value)` leaves of
    /// `before`, and `after` is what `remove(key)` leaves of `inserted`.
    pub proof fn law_remove_undoes_insert(
        before: &Self,
        inserted: &Self,
        after: &Self,
        key: K,
        value: V,
    )
        requires
            before.wf(),
            !before@.dom().contains(key),
            inserted.entries() == before.entries().push((key, value)),
            after.entries() == inserted.entries().update(
                key_index(inserted.entries(), key),
                inserted.entries().last(),
            ).drop_last(),
        ensures
            after.entries() == before.entries(),
            after@ == before@,
    {
        let s = before.entries();
        lemma_push_new(s, key, value);
        let t = inserted.entries();
        lemma_entries_map_index(t, s.len() as int);
        assert(t.update(s.len() as int, t.last()).drop_last() =~= s);
    }

    /// The number of entries is the number of keys in the map.
    pub proof fn law_len_is_key_count(&self)
        requires
            self.wf(),
        ensures
            self@.dom().finite(),
            self@.dom().len() == self.entries().len(),
    {
        let s = self.entries();
        let keys = s.map_values(|e: (K, V)| e.0);
        assert(keys.no_duplicates()) by {
            assert forall|i: int, j: int|
                0 <= i < keys.len() && 0 <= j < keys.len() && i != j implies keys[i]
                != keys[j] by {
                assert(keys[i] == s[i].0 && keys[j] == s[j].0);
            }
        }
        keys.unique_seq_to_set();
        assert forall|k: K| #[trigger] self@.dom().contains(k) <==> keys.to_set().contains(k) by {
            if has_key(s, k) {
                let i = key_index(s, k);
                assert(keys[i] == k);
            }
            if keys.to_set().contains(k) {
                let i = choose|i: int| 0 <= i < keys.len() && keys[i] == k;
                assert(s[i].0 == k);
            }
        }
        assert(self@.dom() =~= keys.to_set());
        vstd::seq_lib::seq_to_set_is_finite(keys);
    }

    /// An empty map.
    pub fn new() -> (m: Self)
        ensures
            m.wf(),
            m.entries() == Seq::<(K, V)>::empty(),
            m@ == Map::<K, V>::empty(),
    {
        let m = LinearMap { buffer: Vec::new() };
        assert(m@ =~= Map::<K, V>::empty());
        m
    }

    /// The fixed capacity `N`.
    pub fn capacity(&self) -> (c: usize)
        ensures
            c == N,
    {
        self.buffer.capacity()
    }

    /// The number of entries.
    pub fn len(&self) -> (l: usize)
        ensures
            l == self.entries().len(),
    {
        self.buffer.len()
    }

    /// Whether there is no entry.
    pub fn is_empty(&self) -> (b: bool)
        ensures
            b == (self.entries().len() == 0),
    {
        self.len() == 0
    }

    /// Removes every entry.
    pub fn clear(&mut self)
        requires
            old(self).wf(),
        ensures
            final(self).wf(),
            final(self).entries() == Seq::<(K, V)>::empty(),
            final(self)@ == Map::<K, V>::empty(),
    {
        self.buffer.clear();
        assert(self@ =~= Map::<K, V>::empty());
    }

    /// The position of the entry with key `key`, if any.
    fn find(&self, key: &K) -> (r: Option<usize>)
        requires
            self.wf(),
            obeys_concrete_eq::<K>(),
        ensures
            r is Some ==> r->0 < self.entries().len() && self.entries()[r->0 as int].0 == *key
                && key_index(self.entries(), *key) == r->0,
            r is None <==> !has_key(self.entries(), *key),
    {
        proof {
            reveal(obeys_concrete_eq);
        }
        let entries = self.buffer.as_slice();
        let mut i: usize = 0;
        while i < entries.len()
            invariant
                entries@ == self.entries(),
                self.wf(),
                i <= entries@.len(),
                obeys_concrete_eq::<K>(),
                forall|j: int| 0 <= j < i ==> #[trigger] entries@[j].0 != *key,
            decreases entries@.len() - i,
        {
            proof {
                reveal(obeys_concrete_eq);
            }
            if entries[i].0 == *key {
                proof {
                    lemma_entries_map_index(self.entries(), i as int);
                }
                return Some(i);
            }
            i = i + 1;
        }
        None
    }

    /// Inserts `value` under `key`. Where the key is present, its value is replaced and the
    /// old one returned; otherwise a new entry is appended, or `Full` is reported when `N`
    /// entries are already held (the map is then unchanged).
    pub fn insert(&mut self, key: K, value: V) -> (r: Result<Option<V>, Error>)
        requires
            old(self).wf(),
            obeys_concrete_eq::<K>(),
        ensures
            final(self).wf(),
            old(self)@.dom().contains(key) ==> r == Ok::<Option<V>, Error>(Some(old(self)@[key]))
                && final(self)@ == old(self)@.insert(key, value) && final(self).entries()
                == old(self).entries().update(
                key_index(old(self).entries(), key),
                (old(self).entries()[key_index(old(self).entries(), key)].0, value),
            ),
            !old(self)@.dom().contains(key) && old(self).entries().len() < N ==> r == Ok::<
                Option<V>,
                Error,
            >(None) && final(self)@ == old(self)@.insert(key, value) && final(self).entries()
                == old(self).entries().push((key, value)),
            !old(self)@.dom().contains(key) && old(self).entries().len() >= N ==> r == Err::<
                Option<V>,
                Error,
            >(Error::Full) && final(self).entries() == old(self).entries(),
            r is Ok ==> final(self)@.dom().contains(key) && final(self)@[key] == value,
            r is Ok ==> forall|other: K|
                other != key ==> {
                    &&& final(self)@.dom().contains(other) == old(self)@.dom().contains(other)
                    &&& old(self)@.dom().contains(other) ==> final(self)@[other] == old(self)@[other]
                },
            r == Ok::<Option<V>, Error>(None) ==> final(self).entries().len() == old(
                self,
            ).entries().len() + 1,
            r is Ok && r->Ok_0 is Some ==> final(self).entries().len() == old(
                self,
            ).entries().len(),
    {
        match self.find(&key) {
            Some(i) => {
                let mut value = value;
                proof {
                    lemma_entries_map_index(self.entries(), i as int);
                    lemma_update_value(self.entries(), i as int, value);
                }
                let entry = self.buffer.get_mut(i).unwrap();
                std::mem::swap(&mut entry.1, &mut value);
                Ok(Some(value))
            },
            None => {
                if self.buffer.len() < N {
                    proof {
                        lemma_push_new(self.entries(), key, value);
                    }
                    let _ = self.buffer.push((key, value));
                    Ok(None)
                } else {
                    Err(Error::Full)
                }
            },
        }
    }

    /// Whether an entry has key `key`.
    pub fn conatains_key(&self, key: &K) -> (b: bool)
        requires
            self.wf(),
            obeys_concrete_eq::<K>(),
        ensures
            b == self@.dom().contains(*key),
    {
        self.get(key).is_some()
    }

    /// The value stored under `key`, if any.
    pub fn get(&self, key: &K) -> (r: Option<&V>)
        requires
            self.wf(),
            obeys_concrete_eq::<K>(),
        ensures
            self@.dom().contains(*key) ==> r == Some(&self@[*key]),
            !self@.dom().contains(*key) ==> r is None,
    {
        match self.find(key) {
            Some(i) => {
                proof {
                    lemma_entries_map_index(self.entries(), i as int);
                }
                let entries = self.buffer.as_slice();
                Some(&entries[i].1)
            },
            None => None,
        }
    }

    /// A mutable reference to the value stored under `key`, if any. The keys stay as they
    /// are; the value is what the reference holds when it is released.
    pub fn get_mut(&mut self, key: &K) -> (r: Option<&mut V>)
        requires
            old(self).wf(),
            obeys_concrete_eq::<K>(),
        ensures
            final(self).wf(),
            old(self)@.dom().contains(*key) ==> r is Some && *r->0 == old(self)@[*key]
                && final(self)@ == old(self)@.insert(*key, *final(r->0)) && final(self).entries()
                == old(self).entries().update(
                key_index(old(self).entries(), *key),
                (old(self).entries()[key_index(old(self).entries(), *key)].0, *final(r->0)),
            ),
            !old(self)@.dom().contains(*key) ==> r is None && final(self).entries()
                == old(self).entries(),
    {
        match self.find(key) {
            Some(i) => {
                proof {
                    lemma_entries_map_index(self.entries(), i as int);
                }
                let entry = self.buffer.get_mut(i).unwrap();
                let value = &mut entry.1;
                proof {
                    lemma_update_value(old(self).entries(), i as int, *final(value));
                }
                Some(value)
            },
            None => None,
        }
    }

    /// The value stored under `key`, which must be present.
    pub fn index(&self, key: &K) -> (r: &V)
        requires
            self.wf(),
            obeys_concrete_eq::<K>(),
            self@.dom().contains(*key),
        ensures
            *r == self@[*key],
    {
        self.get(key).unwrap()
    }

    /// A mutable reference to the value stored under `key`, which must be present.
    pub fn index_mut(&mut self, key: &K) -> (r: &mut V)
        requires
            old(self).wf(),
            obeys_concrete_eq::<K>(),
            old(self)@.dom().contains(*key),
        ensures
            final(self).wf(),
            *r == old(self)@[*key],
            final(self)@ == old(self)@.insert(*key, *final(r)),
            final(self).entries() == old(self).entries().update(
                key_index(old(self).entries(), *key),
                (old(self).entries()[key_index(old(self).entries(), *key)].0, *final(r)),
            ),
    {
        match self.get_mut(key) {
            Some(v) => v,
            None => {
                assert(false);
                unreached()
            },
        }
    }

    /// Removes the entry with key `key` and returns its value, if there is one. The last
    /// entry takes the place of the removed one.
    pub fn remove(&mut self, key: K) -> (r: Option<V>)
        requires
            old(self).wf(),
            obeys_concrete_eq::<K>(),
        ensures
            final(self).wf(),
            final(self)@ == old(self)@.remove(key),
            old(self)@.dom().contains(key) ==> r == Some(old(self)@[key]) && final(self).entries()
                == old(self).entries().update(
                key_index(old(self).entries(), key),
                old(self).entries().last(),
            ).drop_last(),
            !old(self)@.dom().contains(key) ==> r is None && final(self).entries()
                == old(self).entries(),
            !final(self)@.dom().contains(key),
            r is Some ==> final(self).entries().len() == old(self).entries().len() - 1,
    {
        match self.find(&key) {
            Some(i) => {
                proof {
                    lemma_entries_map_index(self.entries(), i as int);
                    lemma_swap_remove(self.entries(), i as int);
                }
                let entry = self.buffer.swap_remove(i);
                Some(entry.1)
            },
            None => {
                assert(old(self)@.remove(key) =~= old(self)@);
                None
            },
        }
    }

    /// An iterator over the entries in stored order.
    pub fn iter(&self) -> (it: Iter<'_, K, V>)
        ensures
            it.entries() == self.entries(),
            it.index() == 0,
    {
        Iter { entries: self.buffer.as_slice(), index: 0 }
    }

    /// An iterator over the keys in stored order.
    pub fn keys(&self) -> (it: Keys<'_, K, V>)
        ensures
            it.entries() == self.entries(),
            it.index() == 0,
    {
        Keys { inner: self.iter() }
    }

    /// An iterator over the values in stored order.
    pub fn values(&self) -> (it: Values<'_, K, V>)
        ensures
            it.entries() == self.entries(),
            it.index() == 0,
    {
        Values { inner: self.iter() }
    }

    /// A mutable iterator over the values in stored order.
    pub fn values_mut(&mut self) -> (it: ValuesMut<'_, K, V, N>)
        requires
            old(self).wf(),
        ensures
            *it.inner.map == *old(self),
            it.inner.index() == 0,
            *final(self) == *final(it.inner.map),
    {
        ValuesMut { inner: self.iter_mut() }
    }

    /// A mutable iterator over the entries in stored order.
    pub fn iter_mut(&mut self) -> (it: IterMut<'_, K, V, N>)
        requires
            old(self).wf(),
        ensures
            *it.map == *old(self),
            it.index() == 0,
            *final(self) == *final(it.map),
    {
        IterMut { map: self, index: 0 }
    }
}


/// An iterator over the entries of a `LinearMap`, in stored order.
pub struct Iter<'a, K, V> {
    entries: &'a [(K, V)],
    index: usize,
}

impl<'a, K, V> Iter<'a, K, V> {
    /// The entries iterated over.
    pub closed spec fn entries(&self) -> Seq<(K, V)> {
        self.entries@
    }

    /// How many entries have been handed out.
    pub closed spec fn index(&self) -> int {
        self.index as int
    }

    /// The count of handed-out entries is never negative.
    pub proof fn lemma_index(&self)
        ensures
            0 <= self.index(),
    {
    }

    /// The next entry, as references to its key and value.
    pub fn next(&mut self) -> (r: Option<(&'a K, &'a V)>)
        ensures
            final(self).entries() == old(self).entries(),
            old(self).index() < old(self).entries().len() ==> r is Some
                && *(r->0).0 == old(self).entries()[old(self).index()].0
                && *(r->0).1 == old(self).entries()[old(self).index()].1
                && final(self).index() == old(self).index() + 1,
            old(self).index() >= old(self).entries().len() ==> r is None && final(self).index()
                == old(self).index(),
    {
        if self.index < self.entries.len() {
            let entry = &self.entries[self.index];
            self.index = self.index + 1;
            Some((&entry.0, &entry.1))
        } else {
            None
        }
    }
}

/// An iterator over the keys of a `LinearMap`, in stored order.
pub struct Keys<'a, K, V> {
    inner: Iter<'a, K, V>,
}

impl<'a, K, V> Keys<'a, K, V> {
    /// The entries whose keys are iterated over.
    pub closed spec fn entries(&self) -> Seq<(K, V)> {
        self.inner.entries()
    }

    /// How many keys have been handed out.
    pub closed spec fn index(&self) -> int {
        self.inner.index()
    }

    /// The count of handed-out keys is never negative.
    pub proof fn lemma_index(&self)
        ensures
            0 <= self.index(),
    {
        self.inner.lemma_index();
    }

    /// The next key.
    pub fn next(&mut self) -> (r: Option<&'a K>)
        ensures
            final(self).entries() == old(self).entries(),
            old(self).index() < old(self).entries().len() ==> r is Some
                && *r->0 == old(self).entries()[old(self).index()].0
                && final(self).index() == old(self).index() + 1,
            old(self).index() >= old(self).entries().len() ==> r is None && final(self).index()
                == old(self).index(),
    {
        match self.inner.next() {
            Some((k, _)) => Some(k),
            None => None,
        }
    }
}

/// An iterator over the values of a `LinearMap`, in stored order.
pub struct Values<'a, K, V> {
    inner: Iter<'a, K, V>,
}

impl<'a, K, V> Values<'a, K, V> {
    /// The entries whose values are iterated over.
    pub closed spec fn entries(&self) -> Seq<(K, V)> {
        self.inner.entries()
    }

    /// How many values have been handed out.
    pub closed spec fn index(&self) -> int {
        self.inner.index()
    }

    /// The count of handed-out values is never negative.
    pub proof fn lemma_index(&self)
        ensures
            0 <= self.index(),
    {
        self.inner.lemma_index();
    }

    /// The next value.
    pub fn next(&mut self) -> (r: Option<&'a V>)
        ensures
            final(self).entries() == old(self).entries(),
            old(self).index() < old(self).entries().len() ==> r is Some
                && *r->0 == old(self).entries()[old(self).index()].1
                && final(self).index() == old(self).index() + 1,
            old(self).index() >= old(self).entries().len() ==> r is None && final(self).index()
                == old(self).index(),
    {
        match self.inner.next() {
            Some((_, v)) => Some(v),
            None => None,
        }
    }
}

/// A mutable iterator over the values of a `LinearMap`, in stored order. Its field is public
/// for the reason given at `IterMut`.
pub struct ValuesMut<'a, K: Eq, V, const N: usize> {
    pub inner: IterMut<'a, K, V, N>,
}

impl<'a, K: Eq, V, const N: usize> ValuesMut<'a, K, V, N> {
    /// The next value, as a mutable reference. The keys stay as they are.
    pub fn next(&mut self) -> (r: Option<&mut V>)
        requires
            old(self).inner.map.wf(),
        ensures
            final(self).inner.map.wf(),
            *final(final(self).inner.map) == *final(old(self).inner.map),
            old(self).inner.index() < old(self).inner.map.entries().len() ==> r is Some
                && *r->0 == old(self).inner.map.entries()[old(self).inner.index()].1
                && final(self).inner.map.entries() == old(self).inner.map.entries().update(
                old(self).inner.index(),
                (old(self).inner.map.entries()[old(self).inner.index()].0, *final(r->0)),
            ) && final(self).inner.map@ == old(self).inner.map@.insert(
                old(self).inner.map.entries()[old(self).inner.index()].0,
                *final(r->0),
            ) && final(self).inner.index() == old(self).inner.index() + 1,
            old(self).inner.index() >= old(self).inner.map.entries().len() ==> r is None
                && *final(self).inner.map == *old(self).inner.map && final(self).inner.index()
                == old(self).inner.index(),
    {
        match self.inner.next() {
            Some((_, v)) => Some(v),
            None => None,
        }
    }
}

/// A mutable iterator over the entries of a `LinearMap`: each step hands out the key and a
/// mutable reference to the value.
///
/// `map` is public because the contracts of `LinearMap::iter_mut` and `next` speak of the
/// value the map holds when the borrow ends (and a datatype's fields are visible together or
/// not at all); through `map` only the map's own methods can be called, and they all keep the
/// map well-formed.
pub struct IterMut<'a, K: Eq, V, const N: usize> {
    pub map: &'a mut LinearMap<K, V, N>,
    pub index: usize,
}

impl<'a, K: Eq, V, const N: usize> IterMut<'a, K, V, N> {
    /// How many entries have been handed out.
    pub closed spec fn index(&self) -> int {
        self.index as int
    }

    /// The count of handed-out entries is never negative.
    pub proof fn lemma_index(&self)
        ensures
            0 <= self.index(),
    {
    }

    /// The next entry: its key, and a mutable reference to its value. The keys stay as they
    /// are.
    pub fn next(&mut self) -> (r: Option<(&K, &mut V)>)
        requires
            old(self).map.wf(),
        ensures
            final(self).map.wf(),
            *final(final(self).map) == *final(old(self).map),
            old(self).index() < old(self).map.entries().len() ==> r is Some
                && *(r->0).0 == old(self).map.entries()[old(self).index()].0
                && *(r->0).1 == old(self).map.entries()[old(self).index()].1
                && final(self).map.entries() == old(self).map.entries().update(
                old(self).index(),
                (old(self).map.entries()[old(self).index()].0, *final((r->0).1)),
            ) && final(self).map@ == old(self).map@.insert(
                old(self).map.entries()[old(self).index()].0,
                *final((r->0).1),
            ) && final(self).index() == old(self).index() + 1,
            old(self).index() >= old(self).map.entries().len() ==> r is None && *final(self).map
                == *old(self).map && final(self).index() == old(self).index(),
    {
        if self.index < self.map.buffer.len() {
            let i = self.index;
            self.index = i + 1;
            let entry = self.map.buffer.get_mut(i).unwrap();
            let key = &entry.0;
            let value = &mut entry.1;
            proof {
                lemma_update_value(old(self).map.entries(), i as int, *final(value));
            }
            Some((key, value))
        } else {
            None
        }
    }
}

} // verus!
