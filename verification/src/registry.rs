//! A table from text keys to values, kept as two vectors side by side in
//! the order of insertion.

use vstd::prelude::*;
use vstd::string::StringExecFns;

verus! {

/// Values under distinct text keys.
pub struct Registry<V> {
    keys: Vec<String>,
    values: Vec<V>,
}

/// No two keys are the same.
pub open spec fn distinct(keys: Seq<String>) -> bool {
    forall|i: int, j: int| 0 <= i < j < keys.len() ==> (#[trigger] keys[i])@ != (#[trigger] keys[j])@
}

/// Whether `key` is one of the keys.
pub open spec fn listed(keys: Seq<String>, key: Seq<char>) -> bool {
    exists|i: int| 0 <= i < keys.len() && (#[trigger] keys[i])@ == key
}

/// The index of `key` among the keys.
pub open spec fn index_of(keys: Seq<String>, key: Seq<char>) -> int {
    choose|i: int| 0 <= i < keys.len() && (#[trigger] keys[i])@ == key
}

/// Keys and values as a map.
pub open spec fn as_map<V>(keys: Seq<String>, values: Seq<V>) -> Map<Seq<char>, V> {
    Map::new(|key: Seq<char>| listed(keys, key), |key: Seq<char>| values[index_of(keys, key)])
}

/// The value at index `i` is what the map has under the key at `i`.
pub proof fn lemma_entry<V>(keys: Seq<String>, values: Seq<V>, i: int)
    requires
        distinct(keys),
        keys.len() == values.len(),
        0 <= i < keys.len(),
    ensures
        listed(keys, keys[i]@),
        index_of(keys, keys[i]@) == i,
        as_map(keys, values).contains_key(keys[i]@),
        as_map(keys, values)[keys[i]@] == values[i],
{
    let k = index_of(keys, keys[i]@);
    if k < i {
        assert(keys[k]@ != keys[i]@);
    } else if k > i {
        assert(keys[i]@ != keys[k]@);
    }
}

/// Replacing the value at index `i` is inserting under its key.
pub proof fn lemma_replace<V>(keys: Seq<String>, values: Seq<V>, i: int, v: V)
    requires
        distinct(keys),
        keys.len() == values.len(),
        0 <= i < keys.len(),
    ensures
        as_map(keys, values.update(i, v)) == as_map(keys, values).insert(keys[i]@, v),
{
    let after = values.update(i, v);
    let target = as_map(keys, values).insert(keys[i]@, v);
    lemma_entry(keys, values, i);
    assert forall|k: Seq<char>| #[trigger]
        as_map(keys, after).contains_key(k) == target.contains_key(k) by {}
    assert forall|k: Seq<char>| as_map(keys, after).contains_key(k) implies #[trigger] as_map(
        keys,
        after,
    )[k] == target[k] by {
        let j = index_of(keys, k);
        lemma_entry(keys, after, j);
        lemma_entry(keys, values, j);
    }
    assert(as_map(keys, after) =~= target);
}

/// Appending a value under a new key is inserting under that key.
pub proof fn lemma_append<V>(keys: Seq<String>, values: Seq<V>, key: String, v: V)
    requires
        distinct(keys),
        keys.len() == values.len(),
        !listed(keys, key@),
    ensures
        distinct(keys.push(key)),
        as_map(keys.push(key), values.push(v)) == as_map(keys, values).insert(key@, v),
{
    let keys2 = keys.push(key);
    let values2 = values.push(v);
    let last = keys.len() as int;
    let target = as_map(keys, values).insert(key@, v);
    assert forall|a: int, b: int| 0 <= a < b < keys2.len() implies (#[trigger] keys2[a])@ != (
    #[trigger] keys2[b])@ by {
        if b == last {
            assert(keys2[a] == keys[a]);
        } else {
            assert(keys2[a] == keys[a] && keys2[b] == keys[b]);
        }
    }
    assert forall|k: Seq<char>| #[trigger]
        as_map(keys2, values2).contains_key(k) == target.contains_key(k) by {
        if listed(keys2, k) {
            let j = index_of(keys2, k);
            if j < last {
                assert(keys[j]@ == k);
            }
        }
        if listed(keys, k) {
            let j = index_of(keys, k);
            assert(keys2[j]@ == k);
        }
        if k == key@ {
            assert(keys2[last]@ == k);
        }
    }
    assert forall|k: Seq<char>| as_map(keys2, values2).contains_key(k) implies #[trigger] as_map(
        keys2,
        values2,
    )[k] == target[k] by {
        let j = index_of(keys2, k);
        lemma_entry(keys2, values2, j);
        if j < last {
            assert(keys2[j] == keys[j]);
            lemma_entry(keys, values, j);
        }
    }
    assert(as_map(keys2, values2) =~= target);
}

/// Taking the entry at index `i` out is removing its key.
pub proof fn lemma_remove<V>(keys: Seq<String>, values: Seq<V>, i: int)
    requires
        distinct(keys),
        keys.len() == values.len(),
        0 <= i < keys.len(),
    ensures
        distinct(keys.remove(i)),
        as_map(keys.remove(i), values.remove(i)) == as_map(keys, values).remove(keys[i]@),
{
    let keys2 = keys.remove(i);
    let values2 = values.remove(i);
    let target = as_map(keys, values).remove(keys[i]@);
    assert forall|a: int, b: int| 0 <= a < b < keys2.len() implies (#[trigger] keys2[a])@ != (
    #[trigger] keys2[b])@ by {
        let a0 = if a < i { a } else { a + 1 };
        let b0 = if b < i { b } else { b + 1 };
        assert(keys[a0]@ != keys[b0]@);
    }
    assert forall|k: Seq<char>| #[trigger]
        as_map(keys2, values2).contains_key(k) == target.contains_key(k) by {
        if listed(keys2, k) {
            let j = index_of(keys2, k);
            let j0 = if j < i { j } else { j + 1 };
            assert(keys[j0]@ == k);
            if k == keys[i]@ {
                if j0 < i {
                    assert(keys[j0]@ != keys[i]@);
                } else {
                    assert(keys[i]@ != keys[j0]@);
                }
            }
        }
        if listed(keys, k) && k != keys[i]@ {
            let j0 = index_of(keys, k);
            let j = if j0 < i { j0 } else { j0 - 1 };
            assert(keys2[j]@ == k);
        }
    }
    assert forall|k: Seq<char>| as_map(keys2, values2).contains_key(k) implies #[trigger] as_map(
        keys2,
        values2,
    )[k] == target[k] by {
        let j = index_of(keys2, k);
        lemma_entry(keys2, values2, j);
        let j0 = if j < i { j } else { j + 1 };
        lemma_entry(keys, values, j0);
    }
    assert(as_map(keys2, values2) =~= target);
}

impl<V> Registry<V> {
    /// The table as a map.
    pub closed spec fn map(&self) -> Map<Seq<char>, V> {
        as_map(self.keys@, self.values@)
    }

    /// The keys in the order of insertion.
    pub closed spec fn key_seq(&self) -> Seq<Seq<char>> {
        self.keys@.map_values(|k: String| k@)
    }

    /// The values in the order of insertion.
    pub closed spec fn value_seq(&self) -> Seq<V> {
        self.values@
    }

    /// Every key stands once, beside its value.
    pub closed spec fn wf(&self) -> bool {
        distinct(self.keys@) && self.keys@.len() == self.values@.len()
    }

    /// The map holds the values of the sequence under the keys of the
    /// sequence, and nothing else.
    pub proof fn lemma_map_of_seqs(&self)
        requires
            self.wf(),
        ensures
            self.key_seq().len() == self.value_seq().len(),
            forall|i: int|
                0 <= i < self.key_seq().len() ==> self.map().contains_key(
                    #[trigger] self.key_seq()[i],
                ) && self.map()[self.key_seq()[i]] == self.value_seq()[i],
            forall|k: Seq<char>| #[trigger]
                self.map().contains_key(k) ==> exists|i: int|
                    0 <= i < self.key_seq().len() && #[trigger] self.key_seq()[i] == k,
            forall|i: int, j: int|
                0 <= i < j < self.key_seq().len() ==> #[trigger] self.key_seq()[i]
                    != #[trigger] self.key_seq()[j],
    {
        assert forall|i: int| 0 <= i < self.key_seq().len() implies self.map().contains_key(
            #[trigger] self.key_seq()[i],
        ) && self.map()[self.key_seq()[i]] == self.value_seq()[i] by {
            lemma_entry(self.keys@, self.values@, i);
        }
        assert forall|k: Seq<char>| #[trigger] self.map().contains_key(k) implies exists|i: int|
            0 <= i < self.key_seq().len() && #[trigger] self.key_seq()[i] == k by {
            let i = index_of(self.keys@, k);
            assert(self.key_seq()[i] == k);
        }
    }

    /// A table without entries.
    pub fn new() -> (r: Registry<V>)
        ensures
            r.wf(),
            r.map() == Map::<Seq<char>, V>::empty(),
            r.key_seq().len() == 0,
            r.value_seq().len() == 0,
    {
        let r = Registry { keys: Vec::new(), values: Vec::new() };
        assert(r.map() =~= Map::<Seq<char>, V>::empty());
        r
    }

    /// How many entries there are.
    pub fn len(&self) -> (n: usize)
        requires
            self.wf(),
        ensures
            n == self.value_seq().len(),
    {
        self.values.len()
    }

    /// The index of `key`, if it is a key.
    pub fn find(&self, key: &str) -> (r: Option<usize>)
        requires
            self.wf(),
        ensures
            match r {
                Some(i) => {
                    &&& i < self.value_seq().len()
                    &&& self.key_seq()[i as int] == key@
                    &&& self.map().contains_key(key@)
                    &&& self.map()[key@] == self.value_seq()[i as int]
                },
                None => !self.map().contains_key(key@),
            },
    {
        let wanted = String::from_str(key);
        let mut i: usize = 0;
        while i < self.keys.len()
            invariant
                self.wf(),
                i <= self.keys@.len(),
                wanted@ == key@,
                forall|j: int| 0 <= j < i ==> (#[trigger] self.keys@[j])@ != key@,
            decreases self.keys@.len() - i,
        {
            if self.keys[i] == wanted {
                proof {
                    lemma_entry(self.keys@, self.values@, i as int);
                }
                return Some(i);
            }
            i = i + 1;
        }
        None
    }

    /// The value at index `i`.
    pub fn value(&self, i: usize) -> (v: &V)
        requires
            self.wf(),
            i < self.value_seq().len(),
        ensures
            *v == self.value_seq()[i as int],
    {
        &self.values[i]
    }

    /// The value at index `i`, to be changed in place.
    pub fn value_mut(&mut self, i: usize) -> (v: &mut V)
        requires
            old(self).wf(),
            i < old(self).value_seq().len(),
        ensures
            *v == old(self).value_seq()[i as int],
            final(self).wf(),
            final(self).key_seq() == old(self).key_seq(),
            final(self).value_seq() == old(self).value_seq().update(i as int, *final(v)),
            final(self).map() == old(self).map().insert(old(self).key_seq()[i as int], *final(v)),
    {
        proof {
            assert forall|w: V| #[trigger]
                as_map(self.keys@, self.values@.update(i as int, w)) == as_map(
                    self.keys@,
                    self.values@,
                ).insert(self.keys@[i as int]@, w) by {
                lemma_replace(self.keys@, self.values@, i as int, w);
            }
        }
        &mut self.values[i]
    }

    /// Puts `v` in place of the value at index `i`.
    pub fn set(&mut self, i: usize, v: V)
        requires
            old(self).wf(),
            i < old(self).value_seq().len(),
        ensures
            final(self).wf(),
            final(self).key_seq() == old(self).key_seq(),
            final(self).value_seq() == old(self).value_seq().update(i as int, v),
            final(self).map() == old(self).map().insert(old(self).key_seq()[i as int], v),
    {
        proof {
            lemma_replace(self.keys@, self.values@, i as int, v);
        }
        self.values[i] = v;
        assert(self.values@ =~= old(self).values@.update(i as int, v));
    }

    /// Puts `v` under `key`: in place of the value that was there, or as
    /// the last entry.
    pub fn insert(&mut self, key: &str, v: V)
        requires
            old(self).wf(),
        ensures
            final(self).wf(),
            final(self).map() == old(self).map().insert(key@, v),
            final(self).key_seq().len() == final(self).value_seq().len(),
            old(self).map().contains_key(key@) ==> final(self).key_seq() == old(self).key_seq()
                && exists|i: int|
                0 <= i < old(self).key_seq().len() && old(self).key_seq()[i] == key@ && final(self).value_seq() == #[trigger] old(self).value_seq().update(i, v),
            !old(self).map().contains_key(key@) ==> final(self).key_seq() == old(self).key_seq().push(key@) && final(self).value_seq() == old(self).value_seq().push(v),
    {
        match self.find(key) {
            Some(i) => {
                self.set(i, v);
                assert(self.value_seq() == old(self).value_seq().update(i as int, v));
            },
            None => {
                let k = String::from_str(key);
                proof {
                    lemma_append(self.keys@, self.values@, k, v);
                }
                self.keys.push(k);
                self.values.push(v);
                assert(self.key_seq() =~= old(self).key_seq().push(key@));
            },
        }
    }

    /// Takes the entry under `key` out and returns its value.
    pub fn remove(&mut self, key: &str) -> (r: Option<V>)
        requires
            old(self).wf(),
        ensures
            final(self).wf(),
            final(self).map() == old(self).map().remove(key@),
            match r {
                Some(v) => old(self).map().contains_key(key@) && old(self).map()[key@] == v
                    && exists|i: int|
                    0 <= i < old(self).key_seq().len() && old(self).key_seq()[i] == key@ && final(self).key_seq() == #[trigger] old(self).key_seq().remove(i) && final(self).value_seq() == old(self).value_seq().remove(i),
                None => !old(self).map().contains_key(key@) && final(self).key_seq() == old(self).key_seq() && final(self).value_seq() == old(self).value_seq(),
            },
    {
        match self.find(key) {
            Some(i) => {
                proof {
                    lemma_remove(self.keys@, self.values@, i as int);
                }
                let _ = self.keys.remove(i);
                let v = self.values.remove(i);
                assert(self.key_seq() =~= old(self).key_seq().remove(i as int));
                Some(v)
            },
            None => {
                assert(self.map() =~= old(self).map().remove(key@));
                None
            },
        }
    }
}

} // verus!
