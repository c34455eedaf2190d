//! An association list keyed by strings.
//!
//! `StringMap<V>` keeps its entries in insertion order and never holds a key
//! twice. Its view is the finite map from each key's characters to its value.

use vstd::prelude::*;
use crate::text::str_eq;

verus! {

/// A map from strings to values, stored as two parallel vectors.
#[derive(Debug)]
pub struct StringMap<V> {
    keys: Vec<String>,
    values: Vec<V>,
}

impl<V> View for StringMap<V> {
    type V = Map<Seq<char>, V>;

    open spec fn view(&self) -> Map<Seq<char>, V> {
        Map::new(
            |k: Seq<char>| self.key_seq().contains(k),
            |k: Seq<char>| self.value_seq()[self.key_seq().index_of(k)],
        )
    }
}

impl<V> StringMap<V> {
    /// The keys in storage order, each as its characters.
    pub closed spec fn key_seq(&self) -> Seq<Seq<char>> {
        self.keys@.map_values(|k: String| k@)
    }

    /// The values in storage order; `value_seq()[i]` belongs to
    /// `key_seq()[i]`.
    pub closed spec fn value_seq(&self) -> Seq<V> {
        self.values@
    }

    /// Well-formedness: one value per key, and no key twice.
    pub open spec fn wf(&self) -> bool {
        &&& self.key_seq().len() == self.value_seq().len()
        &&& self.key_seq().no_duplicates()
    }

    /// In a well-formed map the entry stored at position `i` is what the
    /// view holds for that key.
    pub proof fn lemma_entry(&self, i: int)
        requires
            self.wf(),
            0 <= i < self.key_seq().len(),
        ensures
            self@.contains_key(self.key_seq()[i]),
            self@[self.key_seq()[i]] == self.value_seq()[i],
            self.key_seq().index_of(self.key_seq()[i]) == i,
    {
        let k = self.key_seq()[i];
        assert(self.key_seq().contains(k));
        let j = self.key_seq().index_of(k);
        assert(self.key_seq()[j] == k);
    }

    /// Every key of the view sits at some position of the storage.
    pub proof fn lemma_key_position(&self, k: Seq<char>)
        requires
            self.wf(),
            self@.contains_key(k),
        ensures
            0 <= self.key_seq().index_of(k) < self.key_seq().len(),
            self.key_seq()[self.key_seq().index_of(k)] == k,
            self@[k] == self.value_seq()[self.key_seq().index_of(k)],
    {
        assert(self.key_seq().contains(k));
    }

    /// The view of a well-formed map is finite and has one entry per stored
    /// key.
    pub proof fn lemma_view_finite(&self)
        requires
            self.wf(),
        ensures
            self@.dom().finite(),
            self@.dom() == self.key_seq().to_set(),
            self@.dom().len() == self.key_seq().len(),
    {
        assert(self@.dom() =~= self.key_seq().to_set());
        self.key_seq().unique_seq_to_set();
    }

    /// An empty map.
    pub fn new() -> (m: Self)
        ensures
            m.wf(),
            m.key_seq() == Seq::<Seq<char>>::empty(),
            m.value_seq() == Seq::<V>::empty(),
            m@ == Map::<Seq<char>, V>::empty(),
    {
        let m = StringMap { keys: Vec::new(), values: Vec::new() };
        assert(m.key_seq() =~= Seq::<Seq<char>>::empty());
        assert(m@ =~= Map::<Seq<char>, V>::empty());
        m
    }

    /// The number of entries.
    pub fn len(&self) -> (n: usize)
        requires
            self.wf(),
        ensures
            n == self.key_seq().len(),
            n == self.value_seq().len(),
    {
        self.keys.len()
    }

    /// True when the map holds no entry.
    pub fn is_empty(&self) -> (b: bool)
        requires
            self.wf(),
        ensures
            b == (self.key_seq().len() == 0),
    {
        self.keys.len() == 0
    }

    /// The key stored at position `i`.
    pub fn key_at(&self, i: usize) -> (k: &String)
        requires
            self.wf(),
            i < self.key_seq().len(),
        ensures
            k@ == self.key_seq()[i as int],
    {
        &self.keys[i]
    }

    /// The value stored at position `i`.
    pub fn value_at(&self, i: usize) -> (v: &V)
        requires
            self.wf(),
            i < self.key_seq().len(),
        ensures
            *v == self.value_seq()[i as int],
    {
        &self.values[i]
    }

    /// The position at which `key` is stored, if it is stored at all.
    pub fn position(&self, key: &str) -> (r: Option<usize>)
        requires
            self.wf(),
        ensures
            match r {
                Some(i) => i < self.key_seq().len() && self.key_seq()[i as int] == key@,
                None => !self.key_seq().contains(key@),
            },
            r is Some <==> self@.contains_key(key@),
    {
        let mut i: usize = 0;
        while i < self.keys.len()
            invariant
                i <= self.keys.len(),
                forall|j: int| 0 <= j < i ==> self.key_seq()[j] != key@,
            decreases self.keys.len() - i,
        {
            if str_eq(self.keys[i].as_str(), key) {
                assert(self.key_seq()[i as int] == key@);
                assert(self.key_seq().contains(key@));
                return Some(i);
            }
            i += 1;
        }
        None
    }

    /// True when `key` has an entry.
    pub fn contains_key(&self, key: &str) -> (b: bool)
        requires
            self.wf(),
        ensures
            b == self@.contains_key(key@),
    {
        self.position(key).is_some()
    }

    /// The value stored for `key`, if any.
    pub fn get(&self, key: &str) -> (r: Option<&V>)
        requires
            self.wf(),
        ensures
            match r {
                Some(v) => self@.contains_key(key@) && *v == self@[key@],
                None => !self@.contains_key(key@),
            },
    {
        match self.position(key) {
            Some(i) => {
                proof {
                    self.lemma_entry(i as int);
                }
                Some(&self.values[i])
            },
            None => None,
        }
    }

    /// Replaces the value stored at position `i` and returns the old one.
    pub fn replace_at(&mut self, i: usize, value: V) -> (previous: V)
        requires
            old(self).wf(),
            i < old(self).key_seq().len(),
        ensures
            final(self).wf(),
            final(self).key_seq() == old(self).key_seq(),
            final(self).value_seq() == old(self).value_seq().update(i as int, value),
            previous == old(self).value_seq()[i as int],
            final(self)@ == old(self)@.insert(old(self).key_seq()[i as int], value),
    {
        self.values.push(value);
        let previous = self.values.swap_remove(i);
        proof {
            assert(self.value_seq() =~= old(self).value_seq().update(i as int, value));
            let k = old(self).key_seq()[i as int];
            old(self).lemma_entry(i as int);
            assert forall|q: Seq<char>| #[trigger]
                self@.contains_key(q) implies self@[q] == old(self)@.insert(k, value)[q] by {
                self.lemma_key_position(q);
                old(self).lemma_key_position(q);
            }
            assert(self@ =~= old(self)@.insert(k, value));
        }
        previous
    }

    /// Stores `value` under `key`. An existing entry keeps its position and
    /// has its value replaced; a new key goes to the end. Returns the value
    /// that was stored before, if any.
    pub fn insert(&mut self, key: String, value: V) -> (previous: Option<V>)
        requires
            old(self).wf(),
        ensures
            final(self).wf(),
            final(self)@ == old(self)@.insert(key@, value),
            previous == (if old(self)@.contains_key(key@) {
                Some(old(self)@[key@])
            } else {
                None
            }),
            old(self)@.contains_key(key@) ==> final(self).key_seq() == old(self).key_seq()
                && final(self).value_seq() == old(self).value_seq().update(
                old(self).key_seq().index_of(key@),
                value,
            ),
            !old(self)@.contains_key(key@) ==> final(self).key_seq() == old(self).key_seq().push(
                key@,
            ) && final(self).value_seq() == old(self).value_seq().push(value),
    {
        match self.position(key.as_str()) {
            Some(i) => {
                proof {
                    self.lemma_entry(i as int);
                }
                let previous = self.replace_at(i, value);
                Some(previous)
            },
            None => {
                self.keys.push(key);
                self.values.push(value);
                proof {
                    assert(self.key_seq() =~= old(self).key_seq().push(key@));
                    assert(self.key_seq().no_duplicates());
                    let n = old(self).key_seq().len() as int;
                    assert forall|q: Seq<char>| #[trigger]
                        self@.contains_key(q) implies self@[q] == old(self)@.insert(
                        key@,
                        value,
                    )[q] by {
                        self.lemma_key_position(q);
                        if q != key@ {
                            let j = self.key_seq().index_of(q);
                            assert(j < n);
                            assert(old(self).key_seq()[j] == q);
                            old(self).lemma_entry(j);
                        } else {
                            assert(self.key_seq()[n] == key@);
                        }
                    }
                    assert forall|q: Seq<char>|
                        old(self)@.insert(key@, value).contains_key(q) implies #[trigger]
                        self@.contains_key(q) by {
                        if q != key@ {
                            old(self).lemma_key_position(q);
                            let j = old(self).key_seq().index_of(q);
                            assert(self.key_seq()[j] == q);
                        } else {
                            assert(self.key_seq()[n] == key@);
                        }
                    }
                    assert(self@ =~= old(self)@.insert(key@, value));
                }
                None
            },
        }
    }

    /// Removes the entry of `key`, if there is one, and returns its value.
    /// The other entries keep their order.
    pub fn remove(&mut self, key: &str) -> (previous: Option<V>)
        requires
            old(self).wf(),
        ensures
            final(self).wf(),
            final(self)@ == old(self)@.remove(key@),
            previous == (if old(self)@.contains_key(key@) {
                Some(old(self)@[key@])
            } else {
                None
            }),
            !old(self)@.contains_key(key@) ==> final(self).key_seq() == old(self).key_seq()
                && final(self).value_seq() == old(self).value_seq(),
            old(self)@.contains_key(key@) ==> final(self).key_seq() == old(self).key_seq().remove(
                old(self).key_seq().index_of(key@),
            ) && final(self).value_seq() == old(self).value_seq().remove(
                old(self).key_seq().index_of(key@),
            ),
    {
        match self.position(key) {
            Some(i) => {
                proof {
                    self.lemma_entry(i as int);
                }
                let _ = self.keys.remove(i);
                let previous = self.values.remove(i);
                proof {
                    let ok = old(self).key_seq();
                    assert(self.key_seq() =~= ok.remove(i as int));
                    assert(self.value_seq() =~= old(self).value_seq().remove(i as int));
                    assert forall|a: int, b: int|
                        0 <= a < self.key_seq().len() && 0 <= b < self.key_seq().len() && a
                            != b implies self.key_seq()[a] != self.key_seq()[b] by {
                        let a0 = if a < i { a } else { a + 1 };
                        let b0 = if b < i { b } else { b + 1 };
                        assert(self.key_seq()[a] == ok[a0]);
                        assert(self.key_seq()[b] == ok[b0]);
                    }
                    assert forall|q: Seq<char>| #[trigger]
                        self@.contains_key(q) implies old(self)@.remove(key@).contains_key(q)
                        && self@[q] == old(self)@.remove(key@)[q] by {
                        self.lemma_key_position(q);
                        let j = self.key_seq().index_of(q);
                        let j0 = if j < i { j } else { j + 1 };
                        assert(ok[j0] == q);
                        old(self).lemma_entry(j0);
                    }
                    assert forall|q: Seq<char>|
                        old(self)@.remove(key@).contains_key(q) implies #[trigger]
                        self@.contains_key(q) by {
                        old(self).lemma_key_position(q);
                        let j0 = ok.index_of(q);
                        let j = if j0 < i { j0 } else { j0 - 1 };
                        assert(self.key_seq()[j] == q);
                    }
                    assert(self@ =~= old(self)@.remove(key@));
                }
                Some(previous)
            },
            None => {
                assert(self@ =~= old(self)@.remove(key@));
                None
            },
        }
    }

    /// The stored keys, in storage order.
    pub fn keys(&self) -> (keys: &Vec<String>)
        ensures
            keys@.map_values(|k: String| k@) == self.key_seq(),
    {
        &self.keys
    }

    /// The stored values, in storage order.
    pub fn values(&self) -> (values: &Vec<V>)
        ensures
            values@ == self.value_seq(),
    {
        &self.values
    }

    /// The values in storage order, without their keys.
    pub fn into_values(self) -> (values: Vec<V>)
        ensures
            values@ == self.value_seq(),
    {
        self.values
    }

    /// Removes every entry.
    pub fn clear(&mut self)
        ensures
            final(self).wf(),
            final(self).key_seq() == Seq::<Seq<char>>::empty(),
            final(self).value_seq() == Seq::<V>::empty(),
            final(self)@ == Map::<Seq<char>, V>::empty(),
    {
        self.keys.clear();
        self.values.clear();
        assert(self.key_seq() =~= Seq::<Seq<char>>::empty());
        assert(self@ =~= Map::<Seq<char>, V>::empty());
    }
}

impl<V: Clone> Clone for StringMap<V> {
    /// The copy has the same keys in the same order, and at each position a
    /// clone of the value stored there.
    fn clone(&self) -> (r: Self)
        ensures
            r.key_seq() == self.key_seq(),
            r.value_seq().len() == self.value_seq().len(),
            forall|i: int|
                0 <= i < self.value_seq().len() ==> cloned::<V>(
                    #[trigger] self.value_seq()[i],
                    r.value_seq()[i],
                ),
            self.wf() ==> r.wf(),
    {
        let r = StringMap { keys: self.keys.clone(), values: self.values.clone() };
        proof {
            assert forall|i: int| 0 <= i < self.keys@.len() implies r.keys@[i]@ == self.keys@[i]@ by {
                assert(cloned::<String>(self.keys@[i], r.keys@[i]));
            }
            assert(r.key_seq() =~= self.key_seq());
        }
        r
    }
}

} // verus!
