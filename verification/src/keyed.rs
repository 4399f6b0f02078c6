//! Ordered map from integer keys, stored as a vector of entries in strictly
//! ascending key order. Iteration visits keys in ascending order.

use vstd::prelude::*;

verus! {

/// Entries have strictly ascending keys.
pub open spec fn ascending<V>(entries: Seq<(u64, V)>) -> bool {
    forall|i: int, j: int| 0 <= i < j < entries.len() ==> entries[i].0 < entries[j].0
}

/// Map denoted by a sequence of entries.
pub open spec fn entries_map<V>(entries: Seq<(u64, V)>) -> Map<u64, V>
    decreases entries.len(),
{
    if entries.len() == 0 {
        Map::empty()
    } else {
        entries_map(entries.drop_last()).insert(entries.last().0, entries.last().1)
    }
}

pub proof fn lemma_entries_map<V>(entries: Seq<(u64, V)>)
    requires
        ascending(entries),
    ensures
        forall|k: u64| #[trigger] entries_map(entries).contains_key(k) <==> exists|i: int|
            0 <= i < entries.len() && entries[i].0 == k,
        forall|i: int| 0 <= i < entries.len() ==> #[trigger] entries_map(entries)[entries[i].0] == entries[i].1,
        entries_map(entries).dom().finite(),
    decreases entries.len(),
{
    if entries.len() > 0 {
        let rest = entries.drop_last();
        lemma_entries_map(rest);
        assert forall|k: u64| #[trigger] entries_map(entries).contains_key(k) <==> exists|i: int|
            0 <= i < entries.len() && entries[i].0 == k by {
            if entries_map(entries).contains_key(k) && k != entries.last().0 {
                let i = choose|i: int| 0 <= i < rest.len() && rest[i].0 == k;
                assert(entries[i].0 == k);
            }
            if exists|i: int| 0 <= i < entries.len() && entries[i].0 == k {
                let i = choose|i: int| 0 <= i < entries.len() && entries[i].0 == k;
                if i < entries.len() - 1 {
                    assert(rest[i].0 == k);
                }
            }
        }
        assert forall|i: int| 0 <= i < entries.len() implies #[trigger] entries_map(entries)[entries[i].0] == entries[i].1 by {
            if i < entries.len() - 1 {
                assert(rest[i] == entries[i]);
                assert(entries[i].0 < entries.last().0);
            }
        }
    }
}

/// The value a map holds for a key, if any.
pub open spec fn lookup<V>(m: Map<u64, V>, key: u64) -> Option<V> {
    if m.contains_key(key) {
        Some(m[key])
    } else {
        None
    }
}

/// Ordered integer-keyed map.
pub struct KeyedMap<V> {
    pub entries: Vec<(u64, V)>,
}

impl<V: Copy> KeyedMap<V> {
    pub open spec fn wf(&self) -> bool {
        ascending(self.entries@)
    }

    pub open spec fn view(&self) -> Map<u64, V> {
        entries_map(self.entries@)
    }

    /// Empty map.
    pub fn new() -> (r: Self)
        ensures
            r.wf(),
            r.view() == Map::<u64, V>::empty(),
    {
        KeyedMap { entries: Vec::new() }
    }

    /// Position of a key, or the position where it would be inserted.
    fn search(&self, key: u64) -> (r: (bool, usize))
        requires
            self.wf(),
        ensures
            r.1 <= self.entries@.len(),
            forall|i: int| 0 <= i < r.1 ==> self.entries@[i].0 < key,
            r.0 ==> r.1 < self.entries@.len() && self.entries@[r.1 as int].0 == key,
            !r.0 ==> forall|i: int| r.1 <= i < self.entries@.len() ==> self.entries@[i].0 > key,
    {
        let mut i: usize = 0;
        while i < self.entries.len()
            invariant
                self.wf(),
                i <= self.entries@.len(),
                forall|j: int| 0 <= j < i ==> self.entries@[j].0 < key,
            decreases self.entries@.len() - i,
        {
            let k = self.entries[i].0;
            if k == key {
                return (true, i);
            }
            if k > key {
                return (false, i);
            }
            i = i + 1;
        }
        (false, i)
    }

    /// Value stored for a key.
    pub fn get(&self, key: u64) -> (r: Option<V>)
        requires
            self.wf(),
        ensures
            r is Some <==> self.view().contains_key(key),
            r matches Some(v) ==> self.view()[key] == v,
    {
        proof {
            lemma_entries_map(self.entries@);
        }
        let (found, i) = self.search(key);
        if found {
            Some(self.entries[i].1)
        } else {
            proof {
                if self.view().contains_key(key) {
                    let j = choose|j: int| 0 <= j < self.entries@.len() && self.entries@[j].0 == key;
                    assert(j < i || j >= i);
                }
            }
            None
        }
    }

    /// Whether a key is present.
    pub fn contains_key(&self, key: u64) -> (r: bool)
        requires
            self.wf(),
        ensures
            r == self.view().contains_key(key),
    {
        self.get(key).is_some()
    }

    /// Insert or replace the value for a key.
    pub fn insert(&mut self, key: u64, value: V)
        requires
            old(self).wf(),
        ensures
            final(self).wf(),
            final(self).view() == old(self).view().insert(key, value),
    {
        let ghost before = self.entries@;
        proof {
            lemma_entries_map(before);
        }
        let (found, i) = self.search(key);
        if found {
            self.entries.set(i, (key, value));
        } else {
            self.entries.insert(i, (key, value));
        }
        proof {
            let after = self.entries@;
            assert(ascending(after)) by {
                assert forall|a: int, b: int| 0 <= a < b < after.len() implies after[a].0 < after[b].0 by {
                    if !found {
                        if a < i && b > i {
                            assert(after[b] == before[b - 1]);
                        } else if a > i {
                            assert(after[a] == before[a - 1] && after[b] == before[b - 1]);
                        } else if b < i {
                        } else if a == i {
                            assert(after[b] == before[b - 1]);
                        }
                    }
                }
            }
            lemma_entries_map(after);
            assert forall|k: u64| #[trigger] entries_map(after).contains_key(k) == before_insert_contains(before, key, k) by {
                if entries_map(after).contains_key(k) {
                    let j = choose|j: int| 0 <= j < after.len() && after[j].0 == k;
                    if k != key {
                        if found {
                            assert(before[j].0 == k);
                        } else if j < i {
                            assert(before[j].0 == k);
                        } else {
                            assert(before[j - 1].0 == k);
                        }
                    }
                }
                if k != key && entries_map(before).contains_key(k) {
                    let j = choose|j: int| 0 <= j < before.len() && before[j].0 == k;
                    if found {
                        assert(after[j].0 == k);
                    } else if j < i {
                        assert(after[j].0 == k);
                    } else {
                        assert(after[j + 1].0 == k);
                    }
                }
                if k == key {
                    assert(after[i as int].0 == key);
                }
            }
            assert forall|k: u64| entries_map(after).contains_key(k) implies entries_map(after)[k]
                == entries_map(before).insert(key, value)[k] by {
                let j = choose|j: int| 0 <= j < after.len() && after[j].0 == k;
                if k != key {
                    if found {
                        assert(after[j] == before[j]);
                    } else if j < i {
                        assert(after[j] == before[j]);
                    } else {
                        assert(after[j] == before[j - 1]);
                    }
                } else {
                    assert(j == i);
                }
            }
            assert(entries_map(after) =~= entries_map(before).insert(key, value));
        }
    }

    /// Remove a key; returns its former value.
    pub fn remove(&mut self, key: u64) -> (r: Option<V>)
        requires
            old(self).wf(),
        ensures
            final(self).wf(),
            final(self).view() == old(self).view().remove(key),
            r is Some <==> old(self).view().contains_key(key),
            r matches Some(v) ==> old(self).view()[key] == v,
    {
        let ghost before = self.entries@;
        proof {
            lemma_entries_map(before);
        }
        let (found, i) = self.search(key);
        if !found {
            proof {
                if entries_map(before).contains_key(key) {
                    let j = choose|j: int| 0 <= j < before.len() && before[j].0 == key;
                    assert(j < i || j >= i);
                }
                assert(entries_map(before).remove(key) =~= entries_map(before));
            }
            return None;
        }
        let (_, v) = self.entries.remove(i);
        proof {
            let after = self.entries@;
            assert(ascending(after)) by {
                assert forall|a: int, b: int| 0 <= a < b < after.len() implies after[a].0 < after[b].0 by {
                    if a >= i {
                        assert(after[a] == before[a + 1] && after[b] == before[b + 1]);
                    } else if b >= i {
                        assert(after[b] == before[b + 1]);
                    }
                }
            }
            lemma_entries_map(after);
            assert forall|k: u64| #[trigger] entries_map(after).contains_key(k) == entries_map(before).remove(key).contains_key(k) by {
                if entries_map(after).contains_key(k) {
                    let j = choose|j: int| 0 <= j < after.len() && after[j].0 == k;
                    if j < i {
                        assert(before[j].0 == k);
                    } else {
                        assert(before[j + 1].0 == k);
                        assert(before[j + 1].0 > key);
                    }
                }
                if k != key && entries_map(before).contains_key(k) {
                    let j = choose|j: int| 0 <= j < before.len() && before[j].0 == k;
                    if j < i {
                        assert(after[j].0 == k);
                    } else {
                        assert(j != i);
                        assert(after[j - 1].0 == k);
                    }
                }
            }
            assert forall|k: u64| entries_map(after).contains_key(k) implies entries_map(after)[k]
                == entries_map(before)[k] by {
                let j = choose|j: int| 0 <= j < after.len() && after[j].0 == k;
                if j < i {
                    assert(after[j] == before[j]);
                } else {
                    assert(after[j] == before[j + 1]);
                }
            }
            assert(entries_map(after) =~= entries_map(before).remove(key));
        }
        Some(v)
    }

    /// Keys in ascending order.
    pub fn keys(&self) -> (r: Vec<u64>)
        requires
            self.wf(),
        ensures
            r@.len() == self.entries@.len(),
            forall|i: int| 0 <= i < r@.len() ==> r@[i] == self.entries@[i].0,
            forall|k: u64| #[trigger] self.view().contains_key(k) <==> r@.contains(k),
    {
        proof {
            lemma_entries_map(self.entries@);
        }
        let mut out: Vec<u64> = Vec::new();
        let mut i: usize = 0;
        while i < self.entries.len()
            invariant
                i <= self.entries@.len(),
                out@.len() == i,
                forall|j: int| 0 <= j < i ==> out@[j] == self.entries@[j].0,
            decreases self.entries@.len() - i,
        {
            out.push(self.entries[i].0);
            i = i + 1;
        }
        proof {
            assert forall|k: u64| #[trigger] self.view().contains_key(k) <==> out@.contains(k) by {
                if self.view().contains_key(k) {
                    let j = choose|j: int| 0 <= j < self.entries@.len() && self.entries@[j].0 == k;
                    assert(out@[j] == k);
                }
                if out@.contains(k) {
                    let j = choose|j: int| 0 <= j < out@.len() && out@[j] == k;
                    assert(self.entries@[j].0 == k);
                }
            }
        }
        out
    }

    /// Number of entries.
    pub fn len(&self) -> (r: usize)
        requires
            self.wf(),
        ensures
            r == self.view().len(),
    {
        proof {
            lemma_entries_len(self.entries@);
        }
        self.entries.len()
    }

    /// Remove every entry.
    pub fn clear(&mut self)
        ensures
            final(self).wf(),
            final(self).view() == Map::<u64, V>::empty(),
    {
        self.entries = Vec::new();
    }
}

/// Key membership after an insertion, stated on the entries before it.
pub open spec fn before_insert_contains<V>(before: Seq<(u64, V)>, key: u64, k: u64) -> bool {
    k == key || entries_map(before).contains_key(k)
}

pub proof fn lemma_entries_len<V>(entries: Seq<(u64, V)>)
    requires
        ascending(entries),
    ensures
        entries_map(entries).len() == entries.len(),
    decreases entries.len(),
{
    if entries.len() > 0 {
        let rest = entries.drop_last();
        lemma_entries_len(rest);
        lemma_entries_map(rest);
        if entries_map(rest).contains_key(entries.last().0) {
            let i = choose|i: int| 0 <= i < rest.len() && rest[i].0 == entries.last().0;
            assert(entries[i].0 < entries.last().0);
        }
    }
}

/// Read after write: after an insert a read sees the inserted value at its
/// key and the earlier contents at every other key; after a removal the key
/// reads as absent and the others are unchanged.
pub proof fn lemma_read_after_write<V>(m: Map<u64, V>, key: u64, value: V, probe: u64)
    ensures
        lookup(m.insert(key, value), probe) == if probe == key {
            Some(value)
        } else {
            lookup(m, probe)
        },
        lookup(m.remove(key), probe) == if probe == key {
            None
        } else {
            lookup(m, probe)
        },
{
}

} // verus!
