//! Secondary indexes.
//!
//! An index belongs to one column. It maps the canonical key of a cell
//! value to the ids of the rows that hold that value in the column, in the
//! order in which the rows were inserted. The index set of a table holds at
//! most one index per column.

use vstd::prelude::*;
use crate::assoc::StringMap;
use crate::db::number::{number_text, push_number_text, push_timestamp_text, timestamp_text};
use crate::db::order::{key_before, lemma_key_order, lemma_key_transitive, place_of, Place};
use crate::db::row::Row;
use crate::db::{DBValue, ValueModel};
use crate::text::{push_str_chars, string_of};

verus! {

/// The canonical index key of a cell value: `s:` and the text of a string,
/// `n:` and the text of a number, `t:` and the text of a timestamp, and
/// `null` for null.
pub open spec fn index_key(value: ValueModel) -> Seq<char> {
    match value {
        ValueModel::String(text) => seq!['s', ':'] + text,
        ValueModel::Number(bits) => seq!['n', ':'] + number_text(bits),
        ValueModel::Timestamp(t) => seq!['t', ':'] + timestamp_text(t),
        ValueModel::Null => seq!['n', 'u', 'l', 'l'],
    }
}

/// The canonical index key of a cell value.
pub fn to_index_key(value: &DBValue) -> (key: String)
    ensures
        key@ == index_key(value@),
{
    let mut out: Vec<char> = Vec::new();
    match value {
        DBValue::String(text) => {
            out.push('s');
            out.push(':');
            push_str_chars(&mut out, text.as_str());
        },
        DBValue::Number(bits) => {
            out.push('n');
            out.push(':');
            push_number_text(&mut out, *bits);
        },
        DBValue::Timestamp(t) => {
            out.push('t');
            out.push(':');
            push_timestamp_text(&mut out, *t);
        },
        DBValue::Null => {
            out.push('n');
            out.push('u');
            out.push('l');
            out.push('l');
        },
    }
    assert(out@ =~= index_key(value@));
    string_of(&out)
}

/// An index with one more row id: the id goes to the end of the bucket of
/// `key`, and a key that had no bucket gets one.
pub open spec fn with_row_id(index: Map<Seq<char>, Seq<u64>>, key: Seq<char>, id: u64) -> Map<
    Seq<char>,
    Seq<u64>,
> {
    index.insert(
        key,
        if index.contains_key(key) {
            index[key].push(id)
        } else {
            seq![id]
        },
    )
}

/// The index of one column. The keys are kept in ascending order, so that
/// a key is found by halving.
#[derive(Debug)]
pub struct Index {
    keys: Vec<String>,
    lists: Vec<Vec<u64>>,
}

impl View for Index {
    type V = Map<Seq<char>, Seq<u64>>;

    /// The index as a map from key to the row ids of its bucket.
    closed spec fn view(&self) -> Map<Seq<char>, Seq<u64>> {
        Map::new(
            |k: Seq<char>| self.keys().contains(k),
            |k: Seq<char>| self.lists()[self.keys().index_of(k)],
        )
    }
}

impl Index {
    /// The keys in stored order.
    pub closed spec fn keys(&self) -> Seq<Seq<char>> {
        self.keys@.map_values(|k: String| k@)
    }

    /// The buckets in stored order; `lists()[i]` belongs to `keys()[i]`.
    pub closed spec fn lists(&self) -> Seq<Seq<u64>> {
        self.lists@.map_values(|ids: Vec<u64>| ids@)
    }

    /// Well-formedness: one bucket per key, and the keys in strictly
    /// ascending order.
    pub closed spec fn wf(&self) -> bool {
        &&& self.keys().len() == self.lists().len()
        &&& forall|i: int, j: int|
            0 <= i < j < self.keys().len() ==> key_before(
                #[trigger] self.keys()[i],
                #[trigger] self.keys()[j],
            )
    }

    /// The stored keys ascend and are distinct, and the view holds each
    /// stored bucket under its key and nothing else.
    pub proof fn lemma_listing(&self)
        requires
            self.wf(),
        ensures
            self.keys().len() == self.lists().len(),
            self.keys().no_duplicates(),
            forall|i: int, j: int|
                0 <= i < j < self.keys().len() ==> key_before(
                    #[trigger] self.keys()[i],
                    #[trigger] self.keys()[j],
                ),
            forall|i: int|
                0 <= i < self.keys().len() ==> self@.contains_key(#[trigger] self.keys()[i])
                    && self@[self.keys()[i]] == self.lists()[i],
            forall|k: Seq<char>| #[trigger] self@.contains_key(k) ==> self.keys().contains(k),
    {
        assert forall|i: int, j: int|
            0 <= i < self.keys().len() && 0 <= j < self.keys().len() && i != j implies self.keys()[i]
            != self.keys()[j] by {
            lemma_key_order(self.keys()[i], self.keys()[j]);
            if i < j {
                assert(key_before(self.keys()[i], self.keys()[j]));
            } else {
                assert(key_before(self.keys()[j], self.keys()[i]));
            }
        }
        assert forall|i: int| 0 <= i < self.keys().len() implies self@.contains_key(
            #[trigger] self.keys()[i],
        ) && self@[self.keys()[i]] == self.lists()[i] by {
            let k = self.keys()[i];
            assert(self.keys().contains(k));
            let at = self.keys().index_of(k);
            assert(self.keys()[at] == k);
        }
    }

    /// An index without buckets.
    pub fn new() -> (index: Self)
        ensures
            index.wf(),
            index@ == Map::<Seq<char>, Seq<u64>>::empty(),
    {
        let index = Index { keys: Vec::new(), lists: Vec::new() };
        assert(index.keys() =~= Seq::<Seq<char>>::empty());
        assert(index@ =~= Map::<Seq<char>, Seq<u64>>::empty());
        index
    }

    /// The number of buckets.
    pub fn len(&self) -> (n: usize)
        requires
            self.wf(),
        ensures
            n == self.keys().len(),
    {
        self.keys.len()
    }

    /// The key stored at position `i`.
    pub fn key_at(&self, i: usize) -> (key: &String)
        requires
            self.wf(),
            i < self.keys().len(),
        ensures
            key@ == self.keys()[i as int],
    {
        &self.keys[i]
    }

    /// Finds the place of a key by halving: whether it is stored, and the
    /// position at which it is stored or would have to be.
    pub fn search(&self, key: &str) -> (r: (bool, usize))
        requires
            self.wf(),
        ensures
            r.1 <= self.keys().len(),
            r.0 ==> r.1 < self.keys().len() && self.keys()[r.1 as int] == key@,
            r.0 == self.keys().contains(key@),
            !r.0 ==> forall|j: int| 0 <= j < r.1 ==> key_before(#[trigger] self.keys()[j], key@),
            !r.0 ==> forall|j: int|
                r.1 <= j < self.keys().len() ==> key_before(key@, #[trigger] self.keys()[j]),
    {
        let mut lo: usize = 0;
        let mut hi: usize = self.keys.len();
        while lo < hi
            invariant
                self.wf(),
                lo <= hi <= self.keys.len(),
                forall|j: int| 0 <= j < lo ==> key_before(#[trigger] self.keys()[j], key@),
                forall|j: int|
                    hi <= j < self.keys().len() ==> key_before(key@, #[trigger] self.keys()[j]),
            decreases hi - lo,
        {
            let mid = lo + (hi - lo) / 2;
            match place_of(self.keys[mid].as_str(), key) {
                Place::Same => {
                    assert(self.keys()[mid as int] == key@);
                    return (true, mid);
                },
                Place::Before => {
                    proof {
                        assert forall|j: int| 0 <= j < mid + 1 implies key_before(
                            #[trigger] self.keys()[j],
                            key@,
                        ) by {
                            if j < mid {
                                assert(key_before(self.keys()[j], self.keys()[mid as int]));
                                lemma_key_transitive(
                                    self.keys()[j],
                                    self.keys()[mid as int],
                                    key@,
                                );
                            }
                        }
                    }
                    lo = mid + 1;
                },
                Place::After => {
                    proof {
                        assert forall|j: int| mid <= j < self.keys().len() implies key_before(
                            key@,
                            #[trigger] self.keys()[j],
                        ) by {
                            if j > mid {
                                assert(key_before(self.keys()[mid as int], self.keys()[j]));
                                lemma_key_transitive(
                                    key@,
                                    self.keys()[mid as int],
                                    self.keys()[j],
                                );
                            }
                        }
                    }
                    hi = mid;
                },
            }
        }
        proof {
            if self.keys().contains(key@) {
                let j = self.keys().index_of(key@);
                lemma_key_order(self.keys()[j], key@);
                if j < lo {
                    assert(key_before(self.keys()[j], key@));
                } else {
                    assert(key_before(key@, self.keys()[j]));
                }
            }
        }
        (false, lo)
    }

    /// The bucket of `key`, if there is one.
    pub fn get(&self, key: &str) -> (r: Option<&Vec<u64>>)
        requires
            self.wf(),
        ensures
            match r {
                Some(ids) => self@.contains_key(key@) && ids@ == self@[key@],
                None => !self@.contains_key(key@),
            },
    {
        proof {
            self.lemma_listing();
        }
        let (found, at) = self.search(key);
        if found {
            Some(&self.lists[at])
        } else {
            None
        }
    }

    /// Puts `ids` in place of the bucket of `key`.
    pub fn set_bucket(&mut self, key: String, ids: Vec<u64>)
        requires
            old(self).wf(),
        ensures
            final(self).wf(),
            final(self)@ == old(self)@.insert(key@, ids@),
    {
        proof {
            self.lemma_listing();
        }
        let (found, at) = self.search(key.as_str());
        if found {
            self.lists.set(at, ids);
            proof {
                assert(self.keys() == old(self).keys());
                assert(self.lists() =~= old(self).lists().update(at as int, ids@));
                self.lemma_same_keys(*old(self), at as int, ids@);
            }
        } else {
            self.keys.insert(at, key);
            self.lists.insert(at, ids);
            proof {
                self.lemma_new_key(*old(self), at as int, key@, ids@);
            }
        }
    }

    /// Adds a row id to the end of the bucket of `key`, making the bucket
    /// if the key had none.
    pub fn add(&mut self, key: String, id: u64)
        requires
            old(self).wf(),
        ensures
            final(self).wf(),
            final(self)@ == with_row_id(old(self)@, key@, id),
    {
        proof {
            self.lemma_listing();
        }
        let (found, at) = self.search(key.as_str());
        if found {
            let mut ids: Vec<u64> = Vec::new();
            self.lists.push(ids);
            ids = self.lists.swap_remove(at);
            ids.push(id);
            let ghost grown = ids@;
            self.lists.push(ids);
            let _ = self.lists.swap_remove(at);
            proof {
                assert(self.keys() == old(self).keys());
                assert(self.lists() =~= old(self).lists().update(at as int, grown));
                self.lemma_same_keys(*old(self), at as int, grown);
                assert(grown == old(self)@[key@].push(id));
            }
        } else {
            let mut ids: Vec<u64> = Vec::new();
            ids.push(id);
            assert(ids@ =~= seq![id]);
            self.keys.insert(at, key);
            self.lists.insert(at, ids);
            proof {
                self.lemma_new_key(*old(self), at as int, key@, seq![id]);
            }
        }
    }

    /// An index that differs from a well-formed one in the bucket at one
    /// position is well-formed and holds the new bucket under the key
    /// stored there.
    proof fn lemma_same_keys(&self, before: Index, at: int, ids: Seq<u64>)
        requires
            before.wf(),
            0 <= at < before.keys().len(),
            self.keys() == before.keys(),
            self.lists() == before.lists().update(at, ids),
        ensures
            self.wf(),
            self@ == before@.insert(before.keys()[at], ids),
    {
        before.lemma_listing();
        assert(self.wf());
        self.lemma_listing();
        let k = before.keys()[at];
        assert forall|q: Seq<char>| #[trigger] self@.contains_key(q) implies self@[q]
            == before@.insert(k, ids)[q] by {
            let j = self.keys().index_of(q);
            assert(self.keys()[j] == q);
            assert(self@[self.keys()[j]] == self.lists()[j]);
            assert(before@[before.keys()[j]] == before.lists()[j]);
        }
        assert(self@ =~= before@.insert(k, ids));
    }

    /// An index that has one key more than a well-formed one, at the place
    /// where the key belongs, is well-formed and holds the new bucket under
    /// the new key.
    proof fn lemma_new_key(&self, before: Index, at: int, key: Seq<char>, ids: Seq<u64>)
        requires
            before.wf(),
            0 <= at <= before.keys().len(),
            !before.keys().contains(key),
            forall|j: int| 0 <= j < at ==> key_before(#[trigger] before.keys()[j], key),
            forall|j: int|
                at <= j < before.keys().len() ==> key_before(key, #[trigger] before.keys()[j]),
            self.keys@ == before.keys@.insert(at, self.keys@[at]),
            self.keys@[at]@ == key,
            self.lists@ == before.lists@.insert(at, self.lists@[at]),
            self.lists@[at]@ == ids,
        ensures
            self.wf(),
            self@ == before@.insert(key, ids),
    {
        before.lemma_listing();
        assert(self.keys() =~= before.keys().insert(at, key));
        assert(self.lists() =~= before.lists().insert(at, ids));
        assert forall|i: int, j: int| 0 <= i < j < self.keys().len() implies key_before(
            #[trigger] self.keys()[i],
            #[trigger] self.keys()[j],
        ) by {
            let i0 = if i < at {
                i
            } else {
                i - 1
            };
            let j0 = if j < at {
                j
            } else {
                j - 1
            };
            if i != at && j != at {
                assert(self.keys()[i] == before.keys()[i0]);
                assert(self.keys()[j] == before.keys()[j0]);
                assert(key_before(before.keys()[i0], before.keys()[j0]));
            } else if i == at {
                assert(self.keys()[j] == before.keys()[j0]);
            } else {
                assert(self.keys()[i] == before.keys()[i0]);
            }
        }
        assert(self.wf());
        self.lemma_listing();
        assert forall|q: Seq<char>| #[trigger] self@.contains_key(q) implies before@.insert(
            key,
            ids,
        ).contains_key(q) && self@[q] == before@.insert(key, ids)[q] by {
            let j = self.keys().index_of(q);
            assert(self.keys()[j] == q);
            assert(self@[self.keys()[j]] == self.lists()[j]);
            if j != at {
                let j0 = if j < at {
                    j
                } else {
                    j - 1
                };
                assert(before.keys()[j0] == q);
                assert(before@[before.keys()[j0]] == before.lists()[j0]);
            }
        }
        assert forall|q: Seq<char>| before@.insert(key, ids).contains_key(q) implies #[trigger]
            self@.contains_key(q) by {
            if q == key {
                assert(self.keys()[at] == q);
            } else {
                let j0 = before.keys().index_of(q);
                assert(before.keys()[j0] == q);
                let j = if j0 < at {
                    j0
                } else {
                    j0 + 1
                };
                assert(self.keys()[j] == q);
            }
        }
        assert(self@ =~= before@.insert(key, ids));
    }
}

/// The indexes of a table, by column.
#[derive(Debug)]
pub struct IndexSet {
    columns: StringMap<Index>,
}

impl View for IndexSet {
    type V = Map<Seq<char>, Map<Seq<char>, Seq<u64>>>;

    /// The indexes as a map from column name to index.
    closed spec fn view(&self) -> Map<Seq<char>, Map<Seq<char>, Seq<u64>>> {
        self.columns@.map_values(|index: Index| index@)
    }
}

/// The indexes after a row with the given id was inserted: every index
/// whose column the row holds has the id added under the key of the row's
/// cell; the others are as before.
pub open spec fn recorded(
    indexes: Map<Seq<char>, Map<Seq<char>, Seq<u64>>>,
    row: Map<Seq<char>, ValueModel>,
    id: u64,
) -> Map<Seq<char>, Map<Seq<char>, Seq<u64>>> {
    Map::new(
        |column: Seq<char>| indexes.contains_key(column),
        |column: Seq<char>|
            if row.contains_key(column) {
                with_row_id(indexes[column], index_key(row[column]), id)
            } else {
                indexes[column]
            },
    )
}

/// The same indexes with every bucket gone.
pub open spec fn emptied(indexes: Map<Seq<char>, Map<Seq<char>, Seq<u64>>>) -> Map<
    Seq<char>,
    Map<Seq<char>, Seq<u64>>,
> {
    Map::new(
        |column: Seq<char>| indexes.contains_key(column),
        |column: Seq<char>| Map::<Seq<char>, Seq<u64>>::empty(),
    )
}

impl IndexSet {
    /// Well-formedness: no column has two indexes, and every index is
    /// well-formed.
    pub closed spec fn wf(&self) -> bool {
        &&& self.columns.wf()
        &&& forall|i: int|
            0 <= i < self.columns.value_seq().len() ==> (#[trigger] self.columns.value_seq()[i]).wf()
    }

    /// The indexed columns in the order in which their indexes were made.
    pub closed spec fn names(&self) -> Seq<Seq<char>> {
        self.columns.key_seq()
    }

    /// The indexes in stored order; `indexes()[i]` belongs to `names()[i]`.
    pub closed spec fn indexes(&self) -> Seq<Index> {
        self.columns.value_seq()
    }

    /// The stored names are distinct, every stored index is well-formed,
    /// and the view holds each stored index under its column and nothing
    /// else.
    pub proof fn lemma_listing(&self)
        requires
            self.wf(),
        ensures
            self.names().len() == self.indexes().len(),
            self.names().no_duplicates(),
            self@.dom().finite(),
            self@.dom().len() == self.names().len(),
            forall|i: int| 0 <= i < self.names().len() ==> (#[trigger] self.indexes()[i]).wf(),
            forall|i: int|
                0 <= i < self.names().len() ==> self@.contains_key(#[trigger] self.names()[i])
                    && self@[self.names()[i]] == self.indexes()[i]@,
            forall|c: Seq<char>| #[trigger] self@.contains_key(c) ==> self.names().contains(c),
    {
        self.columns.lemma_view_finite();
        assert(self@.dom() =~= self.columns@.dom());
        assert forall|i: int| 0 <= i < self.names().len() implies self@.contains_key(
            #[trigger] self.names()[i],
        ) && self@[self.names()[i]] == self.indexes()[i]@ by {
            self.columns.lemma_entry(i);
        }
    }

    /// No index at all.
    pub fn new() -> (set: Self)
        ensures
            set.wf(),
            set@ == Map::<Seq<char>, Map<Seq<char>, Seq<u64>>>::empty(),
            set.names() == Seq::<Seq<char>>::empty(),
    {
        let set = IndexSet { columns: StringMap::new() };
        assert(set@ =~= Map::<Seq<char>, Map<Seq<char>, Seq<u64>>>::empty());
        set
    }

    /// The number of indexes.
    pub fn len(&self) -> (n: usize)
        requires
            self.wf(),
        ensures
            n == self.names().len(),
            n == self@.dom().len(),
    {
        proof {
            self.lemma_listing();
        }
        self.columns.len()
    }

    /// True when there is no index.
    pub fn is_empty(&self) -> (b: bool)
        requires
            self.wf(),
        ensures
            b == (self.names().len() == 0),
            b == (self@ == Map::<Seq<char>, Map<Seq<char>, Seq<u64>>>::empty()),
    {
        proof {
            self.lemma_listing();
            if self.names().len() == 0 {
                assert(self@ =~= Map::<Seq<char>, Map<Seq<char>, Seq<u64>>>::empty());
            } else {
                assert(self@.contains_key(self.names()[0]));
            }
        }
        self.columns.is_empty()
    }

    /// The column stored at position `i`.
    pub fn name_at(&self, i: usize) -> (name: &String)
        requires
            self.wf(),
            i < self.names().len(),
        ensures
            name@ == self.names()[i as int],
    {
        self.columns.key_at(i)
    }

    /// True when the column has an index.
    pub fn contains(&self, column: &str) -> (b: bool)
        requires
            self.wf(),
        ensures
            b == self@.contains_key(column@),
    {
        self.columns.contains_key(column)
    }

    /// The index of the column, if it has one.
    pub fn get(&self, column: &str) -> (r: Option<&Index>)
        requires
            self.wf(),
        ensures
            match r {
                Some(index) => index.wf() && self@.contains_key(column@) && index@
                    == self@[column@],
                None => !self@.contains_key(column@),
            },
    {
        match self.columns.position(column) {
            Some(i) => {
                proof {
                    self.columns.lemma_entry(i as int);
                }
                Some(self.columns.value_at(i))
            },
            None => None,
        }
    }

    /// Makes `index` the index of `column`, in place of the one that the
    /// column had, if any.
    pub fn define(&mut self, column: String, index: Index)
        requires
            old(self).wf(),
            index.wf(),
        ensures
            final(self).wf(),
            final(self)@ == old(self)@.insert(column@, index@),
    {
        proof {
            if self.columns@.contains_key(column@) {
                self.columns.lemma_key_position(column@);
            }
        }
        let _ = self.columns.insert(column, index);
        proof {
            assert(self@ =~= old(self)@.insert(column@, index@));
            assert forall|i: int| 0 <= i < self.columns.value_seq().len() implies (
            #[trigger] self.columns.value_seq()[i]).wf() by {
                if i < old(self).columns.value_seq().len() && self.columns.value_seq()[i]
                    != index {
                    assert(self.columns.value_seq()[i] == old(self).columns.value_seq()[i]);
                }
            }
        }
    }

    /// Removes the index of `column`, if it has one.
    pub fn remove(&mut self, column: &str)
        requires
            old(self).wf(),
        ensures
            final(self).wf(),
            final(self)@ == old(self)@.remove(column@),
    {
        proof {
            if self.columns@.contains_key(column@) {
                self.columns.lemma_key_position(column@);
            }
        }
        let _ = self.columns.remove(column);
        proof {
            assert(self@ =~= old(self)@.remove(column@));
            let at = old(self).columns.key_seq().index_of(column@);
            assert forall|i: int| 0 <= i < self.columns.value_seq().len() implies (
            #[trigger] self.columns.value_seq()[i]).wf() by {
                if old(self).columns@.contains_key(column@) {
                    let j = if i < at {
                        i
                    } else {
                        i + 1
                    };
                    assert(self.columns.value_seq()[i] == old(self).columns.value_seq()[j]);
                } else {
                    assert(self.columns.value_seq()[i] == old(self).columns.value_seq()[i]);
                }
            }
        }
    }

    /// Removes every index.
    pub fn clear(&mut self)
        ensures
            final(self).wf(),
            final(self)@ == Map::<Seq<char>, Map<Seq<char>, Seq<u64>>>::empty(),
    {
        self.columns.clear();
        assert(self@ =~= Map::<Seq<char>, Map<Seq<char>, Seq<u64>>>::empty());
    }

    /// The indexed columns, each once.
    pub fn list_names(&self) -> (names: Vec<String>)
        requires
            self.wf(),
        ensures
            names@.map_values(|name: String| name@) == self.names(),
            names.len() == self@.dom().len(),
            forall|c: Seq<char>|
                self@.contains_key(c) <==> names@.map_values(|name: String| name@).contains(c),
    {
        proof {
            self.lemma_listing();
        }
        let keys = self.columns.keys();
        let names = keys.clone();
        proof {
            let listed = names@.map_values(|name: String| name@);
            let stored = keys@;
            assert forall|i: int| 0 <= i < stored.len() implies listed[i] == self.names()[i] by {
                assert(cloned::<String>(stored[i], names@[i]));
                assert(stored.map_values(|k: String| k@)[i] == stored[i]@);
            }
            assert(listed =~= self.names());
            assert forall|c: Seq<char>| self@.contains_key(c) <==> listed.contains(c) by {
                if listed.contains(c) {
                    let i = listed.index_of(c);
                    assert(self.names()[i] == c);
                }
            }
        }
        names
    }

    /// Notes a newly inserted row in every index whose column the row
    /// holds.
    pub fn record(&mut self, row: &Row, id: u64)
        requires
            old(self).wf(),
            row.wf(),
        ensures
            final(self).wf(),
            final(self)@ == recorded(old(self)@, row@, id),
            final(self).names() == old(self).names(),
    {
        let n = self.columns.len();
        let mut i: usize = 0;
        proof {
            old(self).lemma_listing();
        }
        while i < n
            invariant
                i <= n,
                n == old(self).names().len(),
                old(self).wf(),
                row.wf(),
                self.wf(),
                self.names() == old(self).names(),
                forall|j: int|
                    i <= j < n ==> #[trigger] self.indexes()[j] == old(self).indexes()[j],
                forall|j: int|
                    0 <= j < i ==> (#[trigger] self.indexes()[j])@ == (if row@.contains_key(
                        self.names()[j],
                    ) {
                        with_row_id(
                            old(self).indexes()[j]@,
                            index_key(row@[self.names()[j]]),
                            id,
                        )
                    } else {
                        old(self).indexes()[j]@
                    }),
            decreases n - i,
        {
            let ghost before = *self;
            proof {
                before.lemma_listing();
                old(self).lemma_listing();
            }
            let key = match row.get(self.columns.key_at(i).as_str()) {
                Some(value) => Some(to_index_key(value)),
                None => None,
            };
            match key {
                Some(key) => {
                    let mut index = self.columns.replace_at(i, Index::new());
                    index.add(key, id);
                    let _ = self.columns.replace_at(i, index);
                    proof {
                        assert forall|j: int|
                            0 <= j < self.columns.value_seq().len() implies (
                        #[trigger] self.columns.value_seq()[j]).wf() by {
                            if j != i {
                                assert(self.columns.value_seq()[j] == before.columns.value_seq()[j]);
                            }
                        }
                        assert forall|j: int| i < j < n implies #[trigger] self.indexes()[j]
                            == old(self).indexes()[j] by {
                            assert(self.indexes()[j] == before.indexes()[j]);
                        }
                        assert forall|j: int| 0 <= j < i implies (#[trigger] self.indexes()[j])@
                            == (if row@.contains_key(self.names()[j]) {
                            with_row_id(
                                old(self).indexes()[j]@,
                                index_key(row@[self.names()[j]]),
                                id,
                            )
                        } else {
                            old(self).indexes()[j]@
                        }) by {
                            assert(self.indexes()[j] == before.indexes()[j]);
                        }
                    }
                },
                None => {},
            }
            i += 1;
        }
        proof {
            self.lemma_listing();
            old(self).lemma_listing();
            let want = recorded(old(self)@, row@, id);
            assert forall|c: Seq<char>| #[trigger] self@.contains_key(c) implies want.contains_key(
                c,
            ) && self@[c] == want[c] by {
                let j = self.names().index_of(c);
                assert(self.names()[j] == c);
                assert(old(self).names()[j] == c);
                assert(self@[self.names()[j]] == self.indexes()[j]@);
                assert(old(self)@[old(self).names()[j]] == old(self).indexes()[j]@);
            }
            assert forall|c: Seq<char>| want.contains_key(c) implies #[trigger] self@.contains_key(
                c,
            ) by {
                let j = old(self).names().index_of(c);
                assert(old(self).names()[j] == c);
                assert(self.names()[j] == c);
            }
            assert(self@ =~= want);
        }
    }

    /// Empties every index and keeps the indexes themselves.
    pub fn clear_buckets(&mut self)
        requires
            old(self).wf(),
        ensures
            final(self).wf(),
            final(self)@ == emptied(old(self)@),
            final(self).names() == old(self).names(),
    {
        let n = self.columns.len();
        let mut i: usize = 0;
        while i < n
            invariant
                i <= n,
                n == old(self).names().len(),
                self.wf(),
                self.names() == old(self).names(),
                forall|j: int|
                    0 <= j < i ==> (#[trigger] self.indexes()[j])@ == Map::<
                        Seq<char>,
                        Seq<u64>,
                    >::empty(),
            decreases n - i,
        {
            let ghost before = *self;
            let _ = self.columns.replace_at(i, Index::new());
            proof {
                assert forall|j: int| 0 <= j < self.columns.value_seq().len() implies (
                #[trigger] self.columns.value_seq()[j]).wf() by {
                    if j != i {
                        assert(self.columns.value_seq()[j] == before.columns.value_seq()[j]);
                    }
                }
                assert forall|j: int| 0 <= j < i + 1 implies (#[trigger] self.indexes()[j])@
                    == Map::<Seq<char>, Seq<u64>>::empty() by {
                    if j != i {
                        assert(self.indexes()[j] == before.indexes()[j]);
                    }
                }
            }
            i += 1;
        }
        proof {
            self.lemma_listing();
            old(self).lemma_listing();
            let want = emptied(old(self)@);
            assert forall|c: Seq<char>| #[trigger] self@.contains_key(c) implies want.contains_key(
                c,
            ) && self@[c] == want[c] by {
                let j = self.names().index_of(c);
                assert(self.names()[j] == c);
                assert(old(self).names()[j] == c);
                assert(self@[self.names()[j]] == self.indexes()[j]@);
            }
            assert forall|c: Seq<char>| want.contains_key(c) implies #[trigger] self@.contains_key(
                c,
            ) by {
                let j = old(self).names().index_of(c);
                assert(old(self).names()[j] == c);
                assert(self.names()[j] == c);
            }
            assert(self@ =~= want);
        }
    }
}

/// The snapshot of an index set: the bytes that `bincode::encode_to_vec`
/// writes, in bincode's standard configuration, for the indexes as an
/// ordered map from column name to an ordered map from key to row ids; or
/// `None` where bincode reports an error.
pub uninterp spec fn snapshot_bytes(indexes: Map<Seq<char>, Map<Seq<char>, Seq<u64>>>) -> Option<
    Seq<u8>,
>;

/// What a snapshot holds: the indexes that `bincode::decode_from_slice`
/// reads from the bytes, listed by ascending column name and, within an
/// index, by ascending key; or `None` where bincode finds no index set in
/// the bytes or one that announces more than a gibibyte of contents.
pub uninterp spec fn snapshot_listing(bytes: Seq<u8>) -> Option<
    Seq<(Seq<char>, Seq<(Seq<char>, Seq<u64>)>)>,
>;

/// `bincode::encode_to_vec` in the standard configuration, applied to the
/// indexes as ordered maps. The index set is well-formed, so each column
/// and each key goes into its map exactly once, and the bytes depend on the
/// indexes alone.
#[verifier::external_body]
fn encode_snapshot(set: &IndexSet) -> (r: Option<Vec<u8>>)
    requires
        set.wf(),
    ensures
        match r {
            Some(bytes) => snapshot_bytes(set@) == Some(bytes@),
            None => snapshot_bytes(set@) is None,
        },
{
    let indexes: std::collections::BTreeMap<
        &String,
        std::collections::BTreeMap<&String, &Vec<u64>>,
    > = set.columns.keys().iter().zip(
        set.columns.values().iter().map(
            |index| index.keys.iter().zip(index.lists.iter()).collect(),
        ),
    ).collect();
    bincode::encode_to_vec(&indexes, bincode::config::standard()).ok()
}

/// `bincode::decode_from_slice` in the standard configuration with a limit
/// of one gibibyte, reading an ordered map from column name to an ordered
/// map from key to row ids. The maps are handed out as lists in their own
/// order. Bytes after the index set are not looked at.
#[verifier::external_body]
fn decode_snapshot(bytes: &[u8]) -> (r: Option<Vec<(String, Vec<(String, Vec<u64>)>)>>)
    ensures
        match r {
            Some(listing) => snapshot_listing(bytes@) == Some(listing_model(listing@)),
            None => snapshot_listing(bytes@) is None,
        },
{
    let config = bincode::config::standard().with_limit::<1073741824>();
    match bincode::decode_from_slice::<
        std::collections::BTreeMap<String, std::collections::BTreeMap<String, Vec<u64>>>,
        _,
    >(bytes, config) {
        Ok((indexes, _)) => Some(
            indexes.into_iter().map(|(column, index)| (column, index.into_iter().collect())).collect(),
        ),
        Err(_) => None,
    }
}

/// A list of buckets with text as sequences of characters.
pub open spec fn buckets_model(buckets: Seq<(String, Vec<u64>)>) -> Seq<(Seq<char>, Seq<u64>)> {
    buckets.map_values(|b: (String, Vec<u64>)| (b.0@, b.1@))
}

/// A list of indexes with text as sequences of characters.
pub open spec fn listing_model(listing: Seq<(String, Vec<(String, Vec<u64>)>)>) -> Seq<
    (Seq<char>, Seq<(Seq<char>, Seq<u64>)>),
> {
    listing.map_values(|c: (String, Vec<(String, Vec<u64>)>)| (c.0@, buckets_model(c.1@)))
}

/// The index that a list of buckets describes; a key listed twice keeps
/// the bucket listed last.
pub open spec fn index_of_buckets(buckets: Seq<(Seq<char>, Seq<u64>)>) -> Map<Seq<char>, Seq<u64>>
    decreases buckets.len(),
{
    if buckets.len() == 0 {
        Map::empty()
    } else {
        index_of_buckets(buckets.drop_last()).insert(buckets.last().0, buckets.last().1)
    }
}

/// The index set that a list of indexes describes; a column listed twice
/// keeps the index listed last.
pub open spec fn indexes_of_listing(listing: Seq<(Seq<char>, Seq<(Seq<char>, Seq<u64>)>)>) -> Map<
    Seq<char>,
    Map<Seq<char>, Seq<u64>>,
>
    decreases listing.len(),
{
    if listing.len() == 0 {
        Map::empty()
    } else {
        indexes_of_listing(listing.drop_last()).insert(
            listing.last().0,
            index_of_buckets(listing.last().1),
        )
    }
}

/// A copy of a list of row ids.
fn copy_ids(ids: &Vec<u64>) -> (copy: Vec<u64>)
    ensures
        copy@ == ids@,
{
    let mut copy: Vec<u64> = Vec::new();
    let mut i: usize = 0;
    while i < ids.len()
        invariant
            i <= ids.len(),
            copy@ == ids@.take(i as int),
        decreases ids.len() - i,
    {
        copy.push(ids[i]);
        i += 1;
        assert(copy@ =~= ids@.take(i as int));
    }
    assert(ids@.take(i as int) =~= ids@);
    copy
}

impl Index {
    /// The index that a list of buckets describes.
    pub fn from_buckets(buckets: &Vec<(String, Vec<u64>)>) -> (index: Self)
        ensures
            index.wf(),
            index@ == index_of_buckets(buckets_model(buckets@)),
    {
        let mut index = Index::new();
        let mut i: usize = 0;
        assert(buckets_model(buckets@).take(0) =~= Seq::<(Seq<char>, Seq<u64>)>::empty());
        while i < buckets.len()
            invariant
                i <= buckets.len(),
                index.wf(),
                index@ == index_of_buckets(buckets_model(buckets@).take(i as int)),
            decreases buckets.len() - i,
        {
            index.set_bucket(buckets[i].0.clone(), copy_ids(&buckets[i].1));
            i += 1;
            proof {
                let all = buckets_model(buckets@);
                assert(all.take(i as int).drop_last() =~= all.take(i - 1));
                assert(all.take(i as int).last() == all[i - 1]);
            }
        }
        assert(buckets_model(buckets@).take(i as int) =~= buckets_model(buckets@));
        index
    }
}

impl IndexSet {
    /// The index set that a list of indexes describes.
    pub fn from_listing(listing: &Vec<(String, Vec<(String, Vec<u64>)>)>) -> (set: Self)
        ensures
            set.wf(),
            set@ == indexes_of_listing(listing_model(listing@)),
    {
        let mut set = IndexSet::new();
        let mut i: usize = 0;
        assert(listing_model(listing@).take(0) =~= Seq::<
            (Seq<char>, Seq<(Seq<char>, Seq<u64>)>),
        >::empty());
        while i < listing.len()
            invariant
                i <= listing.len(),
                set.wf(),
                set@ == indexes_of_listing(listing_model(listing@).take(i as int)),
            decreases listing.len() - i,
        {
            let index = Index::from_buckets(&listing[i].1);
            set.define(listing[i].0.clone(), index);
            i += 1;
            proof {
                let all = listing_model(listing@);
                assert(all.take(i as int).drop_last() =~= all.take(i - 1));
                assert(all.take(i as int).last() == all[i - 1]);
            }
        }
        assert(listing_model(listing@).take(i as int) =~= listing_model(listing@));
        set
    }

    /// The snapshot of the index set, to be written in place of the one on
    /// disk; `None` where it cannot be encoded.
    pub fn to_snapshot(&self) -> (r: Option<Vec<u8>>)
        requires
            self.wf(),
        ensures
            match r {
                Some(bytes) => snapshot_bytes(self@) == Some(bytes@),
                None => snapshot_bytes(self@) is None,
            },
    {
        encode_snapshot(self)
    }

    /// The index set that a snapshot holds; `None` where the bytes hold
    /// none.
    pub fn from_snapshot(bytes: &[u8]) -> (r: Option<Self>)
        ensures
            match r {
                Some(set) => set.wf() && snapshot_listing(bytes@) is Some && set@
                    == indexes_of_listing(snapshot_listing(bytes@)->0),
                None => snapshot_listing(bytes@) is None,
            },
    {
        match decode_snapshot(bytes) {
            Some(listing) => Some(IndexSet::from_listing(&listing)),
            None => None,
        }
    }
}

} // verus!
