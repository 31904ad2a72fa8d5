//! A small map that keeps its entries in the order in which they were added.
use crate::framework::RootKey;
use vstd::prelude::*;

verus! {

/// A map from keys to values that remembers the order of insertion. No key
/// occurs twice.
pub struct Table<K: RootKey, V> {
    columns: Columns<K, V>,
}

/// The keys and, at the same positions, their values.
struct Columns<K, V> {
    keys: Vec<K>,
    values: Vec<V>,
}

/// The position of the first entry of `entries` under `key`, if there is one.
pub open spec fn position<K, V>(entries: Seq<(K, V)>, key: K) -> Option<int>
    decreases entries.len(),
{
    if entries.len() == 0 {
        None
    } else if entries.last().0 == key && position(entries.drop_last(), key).is_none() {
        Some(entries.len() - 1)
    } else {
        position(entries.drop_last(), key)
    }
}

/// The entries after `value` was put under `key`: an entry that was there is
/// replaced in its place, a new one goes to the end.
pub open spec fn put<K, V>(entries: Seq<(K, V)>, key: K, value: V) -> Seq<(K, V)> {
    match position(entries, key) {
        Some(i) => entries.update(i, (key, value)),
        None => entries.push((key, value)),
    }
}

/// No key occurs twice in `entries`.
pub open spec fn distinct_keys<K, V>(entries: Seq<(K, V)>) -> bool {
    forall|i: int, j: int|
        0 <= i < j < entries.len() ==> (#[trigger] entries[i]).0 != (#[trigger] entries[j]).0
}

/// `position` finds a key exactly where it stands.
pub proof fn lemma_position<K, V>(entries: Seq<(K, V)>, key: K)
    ensures
        match position(entries, key) {
            Some(i) => 0 <= i < entries.len() && entries[i].0 == key && forall|j: int|
                0 <= j < i ==> (#[trigger] entries[j]).0 != key,
            None => forall|j: int| 0 <= j < entries.len() ==> (#[trigger] entries[j]).0 != key,
        },
    decreases entries.len(),
{
    if entries.len() > 0 {
        let front = entries.drop_last();
        lemma_position(front, key);
        assert forall|j: int| 0 <= j < front.len() implies front[j] == entries[j] by {}
        match position(front, key) {
            Some(i) => {
                assert(front[i] == entries[i]);
            },
            None => {
                assert forall|j: int| 0 <= j < front.len() implies (#[trigger] entries[j]).0
                    != key by {
                    assert(front[j] == entries[j]);
                }
            },
        }
    }
}

/// Where no key occurs twice, `position` finds each entry at its own place.
pub proof fn lemma_position_of_entry<K, V>(entries: Seq<(K, V)>, i: int)
    requires
        distinct_keys(entries),
        0 <= i < entries.len(),
    ensures
        position(entries, entries[i].0) == Some(i),
{
    lemma_position(entries, entries[i].0);
}

/// Where two tables hold the same keys at the same places, a key is found
/// at the same place in both.
pub proof fn lemma_position_same_keys<K, V, W>(a: Seq<(K, V)>, b: Seq<(K, W)>, key: K)
    requires
        a.len() == b.len(),
        forall|i: int| 0 <= i < a.len() ==> (#[trigger] a[i]).0 == b[i].0,
    ensures
        position(a, key) == position(b, key),
    decreases a.len(),
{
    if a.len() > 0 {
        assert forall|i: int| 0 <= i < a.drop_last().len() implies (#[trigger] a.drop_last()[i]).0
            == b.drop_last()[i].0 by {
            assert(a[i].0 == b[i].0);
        }
        lemma_position_same_keys(a.drop_last(), b.drop_last(), key);
        assert(a.last().0 == b.last().0) by {
            assert(a[a.len() - 1].0 == b[a.len() - 1].0);
        }
    }
}

/// Replacing the value of an entry moves no key.
pub proof fn lemma_position_update<K, V>(entries: Seq<(K, V)>, i: int, value: V, key: K)
    requires
        0 <= i < entries.len(),
    ensures
        position(entries.update(i, (entries[i].0, value)), key) == position(entries, key),
{
    lemma_position_same_keys(entries.update(i, (entries[i].0, value)), entries, key);
}

/// An entry added at the end is found there under its own key if that key
/// is new, and moves no other key.
pub proof fn lemma_position_push<K, V>(entries: Seq<(K, V)>, added: K, value: V, key: K)
    ensures
        position(entries.push((added, value)), key) == if position(entries, key).is_none()
            && added == key {
            Some(entries.len() as int)
        } else {
            position(entries, key)
        },
{
    assert(entries.push((added, value)).drop_last() =~= entries);
}

impl<K: RootKey, V> View for Table<K, V> {
    type V = Seq<(K, V)>;

    closed spec fn view(&self) -> Seq<(K, V)> {
        Seq::new(
            self.columns.keys@.len(),
            |i: int| (self.columns.keys@[i], self.columns.values@[i]),
        )
    }
}

impl<K: RootKey, V> Table<K, V> {
    #[verifier::type_invariant]
    spec fn well_formed(self) -> bool {
        &&& self.columns.keys.len() == self.columns.values.len()
        &&& forall|i: int, j: int|
            0 <= i < j < self.columns.keys.len() ==> self.columns.keys[i] != self.columns.keys[j]
    }

    /// The entry under `key`, if there is one.
    pub open spec fn lookup(self, key: K) -> Option<V> {
        match position(self@, key) {
            Some(i) => Some(self@[i].1),
            None => None,
        }
    }

    /// An empty table.
    pub fn new() -> (t: Self)
        ensures
            t@ == Seq::<(K, V)>::empty(),
    {
        let t = Table { columns: Columns { keys: Vec::new(), values: Vec::new() } };
        assert(t@ =~= Seq::<(K, V)>::empty());
        t
    }

    /// The number of entries. No key occurs twice among them.
    pub fn len(&self) -> (n: usize)
        ensures
            n == self@.len(),
            distinct_keys(self@),
    {
        proof {
            use_type_invariant(self);
        }
        self.columns.keys.len()
    }

    /// The key of the entry at position `i`.
    pub fn key_at(&self, i: usize) -> (k: &K)
        requires
            i < self@.len(),
        ensures
            *k == self@[i as int].0,
    {
        &self.columns.keys[i]
    }

    /// The value of the entry at position `i`.
    pub fn value_at(&self, i: usize) -> (v: &V)
        requires
            i < self@.len(),
        ensures
            *v == self@[i as int].1,
    {
        proof {
            use_type_invariant(self);
        }
        &self.columns.values[i]
    }

    /// The value of the entry at position `i`, to be changed in place.
    pub fn value_at_mut(&mut self, i: usize) -> (v: &mut V)
        requires
            i < old(self)@.len(),
        ensures
            *v == old(self)@[i as int].1,
            final(self)@ == old(self)@.update(i as int, (old(self)@[i as int].0, *final(v))),
    {
        proof {
            use_type_invariant(&*self);
        }
        &mut self.columns.values[i]
    }

    /// The position of the entry under `key`.
    pub fn index_of(&self, key: &K) -> (r: Option<usize>)
        ensures
            match r {
                Some(i) => i < self@.len() && self@[i as int].0 == *key && position(self@, *key)
                    == Some(i as int),
                None => position(self@, *key).is_none(),
            },
    {
        let mut i: usize = 0;
        while i < self.columns.keys.len()
            invariant
                i <= self.columns.keys.len(),
                self.columns.keys.len() == self@.len(),
                forall|j: int| 0 <= j < i ==> (#[trigger] self@[j]).0 != *key,
            decreases self.columns.keys.len() - i,
        {
            if self.columns.keys[i].same(key) {
                proof {
                    lemma_position(self@, *key);
                    assert(self@[i as int].0 == *key);
                }
                return Some(i);
            }
            i += 1;
        }
        proof {
            lemma_position(self@, *key);
        }
        None
    }

    /// Whether there is an entry under `key`.
    pub fn contains_key(&self, key: &K) -> (b: bool)
        ensures
            b == self.lookup(*key).is_some(),
    {
        self.index_of(key).is_some()
    }

    /// The value under `key`.
    pub fn get(&self, key: &K) -> (r: Option<&V>)
        ensures
            match r {
                Some(v) => self.lookup(*key) == Some(*v),
                None => self.lookup(*key).is_none(),
            },
    {
        match self.index_of(key) {
            Some(i) => {
                proof {
                    lemma_position(self@, *key);
                }
                Some(self.value_at(i))
            },
            None => None,
        }
    }

    /// The value under `key`, to be changed in place.
    pub fn get_mut(&mut self, key: &K) -> (r: Option<&mut V>)
        ensures
            match r {
                Some(v) => match position(old(self)@, *key) {
                    Some(i) => *v == old(self)@[i].1 && final(self)@ == old(self)@.update(
                        i,
                        (old(self)@[i].0, *final(v)),
                    ),
                    None => false,
                },
                None => position(old(self)@, *key).is_none() && final(self)@ == old(self)@,
            },
    {
        match self.index_of(key) {
            Some(i) => Some(self.value_at_mut(i)),
            None => None,
        }
    }

    /// Puts `value` under `key`. An entry that was there keeps its place and
    /// hands back its old value; a new entry goes to the end.
    pub fn insert(&mut self, key: K, value: V) -> (previous: Option<V>)
        ensures
            final(self)@ == put(old(self)@, key, value),
            previous == old(self).lookup(key),
    {
        proof {
            use_type_invariant(&*self);
            lemma_position(self@, key);
        }
        match self.index_of(&key) {
            Some(i) => {
                let mut value = value;
                core::mem::swap(&mut value, self.value_at_mut(i));
                Some(value)
            },
            None => {
                let mut columns = Columns { keys: Vec::new(), values: Vec::new() };
                core::mem::swap(&mut columns, &mut self.columns);
                assert forall|j: int| 0 <= j < columns.keys.len() implies columns.keys[j]
                    != key by {
                    assert(old(self)@[j].0 == columns.keys[j]);
                }
                columns.keys.push(key);
                columns.values.push(value);
                self.columns = columns;
                assert(self@ =~= old(self)@.push((key, value)));
                None
            },
        }
    }

    /// Takes the entry under `key` out of the table. The entries behind it
    /// move up by one place.
    pub fn remove(&mut self, key: &K) -> (previous: Option<V>)
        ensures
            match position(old(self)@, *key) {
                Some(i) => previous == Some(old(self)@[i].1) && final(self)@ == old(self)@.remove(
                    i,
                ),
                None => previous.is_none() && final(self)@ == old(self)@,
            },
    {
        proof {
            use_type_invariant(&*self);
        }
        match self.index_of(key) {
            Some(i) => {
                proof {
                    lemma_position(self@, *key);
                }
                let mut columns = Columns { keys: Vec::new(), values: Vec::new() };
                core::mem::swap(&mut columns, &mut self.columns);
                columns.keys.remove(i);
                let value = columns.values.remove(i);
                self.columns = columns;
                assert(self@ =~= old(self)@.remove(i as int));
                Some(value)
            },
            None => None,
        }
    }
}

} // verus!
