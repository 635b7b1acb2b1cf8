//! A cache of bounded size that forgets what was used longest ago.

use vstd::prelude::*;
use vstd::laws_eq::obeys_concrete_eq;
use std::hash::Hash;

verus! {

/// Whether `key` is among the keys of `entries`.
pub open spec fn has_key<K, V>(entries: Seq<(K, V)>, key: K) -> bool {
    exists|i: int| 0 <= i < entries.len() && (#[trigger] entries[i]).0 == key
}

/// A place at which `key` stands in `entries`, where it stands in them.
pub open spec fn key_index<K, V>(entries: Seq<(K, V)>, key: K) -> int {
    choose|i: int| 0 <= i < entries.len() && (#[trigger] entries[i]).0 == key
}

/// No key stands at two places.
pub open spec fn distinct_keys<K, V>(entries: Seq<(K, V)>) -> bool {
    forall|i: int, j: int|
        0 <= i < j < entries.len() ==> (#[trigger] entries[i]).0 != (#[trigger] entries[j]).0
}

/// The entries after the one at place `i` was used: it moves to the end,
/// where the most recently used entry stands.
pub open spec fn touched<K, V>(entries: Seq<(K, V)>, i: int) -> Seq<(K, V)> {
    entries.remove(i).push(entries[i])
}

/// The entries after `key` was given `value` in a cache that holds
/// `capacity` entries at most. The pair becomes the most recently used
/// entry: it replaces the entry of `key` where there is one; it takes the
/// place of the least recently used entry where the cache is full; else it
/// is added.
pub open spec fn stored<K, V>(entries: Seq<(K, V)>, capacity: nat, key: K, value: V) -> Seq<
    (K, V),
> {
    if has_key(entries, key) {
        entries.remove(key_index(entries, key)).push((key, value))
    } else if entries.len() >= capacity {
        entries.drop_first().push((key, value))
    } else {
        entries.push((key, value))
    }
}

/// A cache of at most `capacity` entries. When a new key arrives in a full
/// cache, the entry that was read or written longest ago leaves.
pub struct LruCache<K, V> {
    capacity: usize,
    /// Least recently used first.
    entries: Vec<(K, V)>,
}

impl<K, V> View for LruCache<K, V> {
    type V = Seq<(K, V)>;

    /// The entries, least recently used first.
    closed spec fn view(&self) -> Seq<(K, V)> {
        self.entries@
    }
}

impl<K: Eq + Hash + Clone, V: Clone> LruCache<K, V> {
    /// The most entries that the cache holds.
    pub closed spec fn capacity(&self) -> nat {
        self.capacity as nat
    }

    /// The invariant of a cache: room for one entry at least, never more
    /// entries than there is room for, and no key twice.
    pub open spec fn wf(&self) -> bool {
        &&& self.capacity() > 0
        &&& self@.len() <= self.capacity()
        &&& distinct_keys(self@)
    }

    /// Makes an empty cache with room for `capacity` entries.
    pub fn new(capacity: usize) -> (cache: Self)
        requires
            capacity > 0,
        ensures
            cache.wf(),
            cache@ == Seq::<(K, V)>::empty(),
            cache.capacity() == capacity,
    {
        LruCache { capacity, entries: Vec::new() }
    }

    /// The number of entries.
    pub fn len(&self) -> (n: usize)
        ensures
            n == self@.len(),
    {
        self.entries.len()
    }

    /// The place of `key` among the entries, if it has one.
    fn find(&self, key: &K) -> (at: Option<usize>)
        requires
            self.wf(),
            obeys_concrete_eq::<K>(),
        ensures
            match at {
                Some(i) => has_key(self@, *key) && i == key_index(self@, *key) && i < self@.len(),
                None => !has_key(self@, *key),
            },
    {
        proof {
            reveal(obeys_concrete_eq);
        }
        let mut i: usize = 0;
        while i < self.entries.len()
            invariant
                i <= self.entries.len(),
                obeys_concrete_eq::<K>(),
                self.wf(),
                forall|k: int| 0 <= k < i ==> (#[trigger] self@[k]).0 != *key,
            decreases self.entries.len() - i,
        {
            proof {
                reveal(obeys_concrete_eq);
            }
            if self.entries[i].0 == *key {
                proof {
                    assert(self@[i as int].0 == *key);
                    let j = key_index(self@, *key);
                    if j < i {
                        assert(self@[j].0 != *key);
                    }
                }
                return Some(i);
            }
            i = i + 1;
        }
        None
    }

    /// Reads the value of `key`, and marks the entry as the most recently
    /// used. An unknown key changes nothing.
    pub fn get(&mut self, key: &K) -> (r: Option<V>)
        requires
            old(self).wf(),
            obeys_concrete_eq::<K>(),
        ensures
            final(self).wf(),
            final(self).capacity() == old(self).capacity(),
            has_key(old(self)@, *key) <==> r is Some,
            match r {
                Some(value) => {
                    let at = key_index(old(self)@, *key);
                    &&& cloned(old(self)@[at].1, value)
                    &&& final(self)@ == touched(old(self)@, at)
                },
                None => final(self)@ == old(self)@,
            },
    {
        match self.find(key) {
            Some(i) => {
                let entry = self.entries.remove(i);
                let value = entry.1.clone();
                self.entries.push(entry);
                proof {
                    lemma_touched_keeps_keys_distinct(old(self)@, i as int);
                }
                Some(value)
            },
            None => None,
        }
    }

    /// Gives `key` the value `value`, and marks the entry as the most
    /// recently used. A known key keeps its place in the cache and loses its
    /// old value; a new key in a full cache drives out the least recently
    /// used entry.
    pub fn put(&mut self, key: K, value: V)
        requires
            old(self).wf(),
            obeys_concrete_eq::<K>(),
        ensures
            final(self).wf(),
            final(self).capacity() == old(self).capacity(),
            final(self)@ == stored(old(self)@, old(self).capacity(), key, value),
    {
        let ghost before = self@;
        match self.find(&key) {
            Some(i) => {
                let _replaced = self.entries.remove(i);
                self.entries.push((key, value));
                proof {
                    lemma_touched_keeps_keys_distinct(before, i as int);
                    assert(self@ =~= touched(before, i as int).drop_last().push((key, value)));
                    assert(touched(before, i as int).drop_last() =~= before.remove(i as int));
                    lemma_replaced_last_keeps_keys_distinct(touched(before, i as int), value);
                }
            },
            None => {
                if self.entries.len() >= self.capacity {
                    let _evicted = self.entries.remove(0);
                    assert(self@ =~= before.drop_first());
                }
                let ghost kept = self@;
                self.entries.push((key, value));
                proof {
                    assert forall|i: int, j: int| 0 <= i < j < self@.len() implies (
                    #[trigger] self@[i]).0 != (#[trigger] self@[j]).0 by {
                        let shift = before.len() - kept.len();
                        assert(kept[i] == before[i + shift]);
                        if j < kept.len() {
                            assert(kept[j] == before[j + shift]);
                        }
                    }
                }
            },
        }
    }
}

/// Moving an entry to the end keeps the keys distinct.
proof fn lemma_touched_keeps_keys_distinct<K, V>(entries: Seq<(K, V)>, at: int)
    requires
        distinct_keys(entries),
        0 <= at < entries.len(),
    ensures
        distinct_keys(touched(entries, at)),
        touched(entries, at).len() == entries.len(),
{
    let after = touched(entries, at);
    assert forall|i: int, j: int| 0 <= i < j < after.len() implies (#[trigger] after[i]).0 != (
    #[trigger] after[j]).0 by {
        let a = if i < at { i } else { i + 1 };
        assert(after[i] == entries[a]);
        if j < after.len() - 1 {
            let b = if j < at { j } else { j + 1 };
            assert(after[j] == entries[b]);
        } else {
            assert(after[j] == entries[at]);
        }
    }
}

/// Giving the last entry another value keeps the keys distinct.
proof fn lemma_replaced_last_keeps_keys_distinct<K, V>(entries: Seq<(K, V)>, value: V)
    requires
        distinct_keys(entries),
        entries.len() > 0,
    ensures
        distinct_keys(entries.drop_last().push((entries.last().0, value))),
{
    let after = entries.drop_last().push((entries.last().0, value));
    assert forall|i: int, j: int| 0 <= i < j < after.len() implies (#[trigger] after[i]).0 != (
    #[trigger] after[j]).0 by {
        assert(after[i] == entries[i]);
        assert(after[j].0 == entries[j].0);
    }
}

} // verus!
