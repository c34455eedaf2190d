//! Rows: schemaless mappings from column names to cell values.

use vstd::prelude::*;
use crate::assoc::StringMap;
use crate::db::{DBValue, ValueModel};
use crate::text::{bytes_of, utf8_bytes};

verus! {

/// A row: each column name occurs at most once. Columns keep the order in
/// which they were first inserted.
#[derive(Debug)]
pub struct Row {
    fields: StringMap<DBValue>,
}

impl View for Row {
    type V = Map<Seq<char>, ValueModel>;

    /// The row as a finite map from column names to values.
    open spec fn view(&self) -> Map<Seq<char>, ValueModel> {
        Map::new(
            |k: Seq<char>| self.names().contains(k),
            |k: Seq<char>| self.cells()[self.names().index_of(k)],
        )
    }
}

/// True when every text among the names and cells has a UTF-8 form whose
/// length fits the machine word, as the text of every string in memory
/// does.
pub open spec fn texts_fit(names: Seq<Seq<char>>, cells: Seq<ValueModel>) -> bool {
    &&& names.len() <= usize::MAX
    &&& forall|i: int| 0 <= i < names.len() ==> utf8_bytes(#[trigger] names[i]).len() <= usize::MAX
    &&& forall|i: int| 0 <= i < cells.len() ==> cell_fits(#[trigger] cells[i])
}

/// True when the cell, if it is text, has a UTF-8 form whose length fits
/// the machine word.
pub open spec fn cell_fits(cell: ValueModel) -> bool {
    match cell {
        ValueModel::String(text) => utf8_bytes(text).len() <= usize::MAX,
        _ => true,
    }
}

impl Row {
    /// The column names in stored order.
    pub closed spec fn names(&self) -> Seq<Seq<char>> {
        self.fields.key_seq()
    }

    /// The cell values in stored order; `cells()[i]` belongs to
    /// `names()[i]`.
    pub closed spec fn cells(&self) -> Seq<ValueModel> {
        self.fields.value_seq().map_values(|v: DBValue| v@)
    }

    /// Well-formedness: one cell per name, no name twice, and every text
    /// of a size that a string can have.
    pub closed spec fn wf(&self) -> bool {
        &&& self.fields.wf()
        &&& texts_fit(self.names(), self.cells())
    }

    /// In a well-formed row there are as many cells as names, and the names
    /// are distinct.
    pub proof fn lemma_wf(&self)
        requires
            self.wf(),
        ensures
            self.names().len() == self.cells().len(),
            self.names().no_duplicates(),
            texts_fit(self.names(), self.cells()),
            self@.dom().finite(),
            self@.dom() == self.names().to_set(),
            self@.dom().len() == self.names().len(),
    {
        assert(self@.dom() =~= self.names().to_set());
        self.names().unique_seq_to_set();
    }

    /// The cell stored at position `i` is what the view holds for the name
    /// stored there.
    pub proof fn lemma_entry(&self, i: int)
        requires
            self.wf(),
            0 <= i < self.names().len(),
        ensures
            self@.contains_key(self.names()[i]),
            self@[self.names()[i]] == self.cells()[i],
            self.names().index_of(self.names()[i]) == i,
    {
        let k = self.names()[i];
        assert(self.names().contains(k));
        let j = self.names().index_of(k);
        assert(self.names()[j] == k);
    }

    /// The view is the stored map with each value replaced by its model.
    proof fn lemma_view(&self)
        requires
            self.wf(),
        ensures
            self@ == self.fields@.map_values(|v: DBValue| v@),
    {
        let m = self.fields@.map_values(|v: DBValue| v@);
        assert forall|k: Seq<char>| #[trigger] self@.contains_key(k) implies m.contains_key(k)
            && m[k] == self@[k] by {
            assert(self.names().contains(k));
            self.fields.lemma_key_position(k);
        }
        assert(self@ =~= m);
    }

    /// A row with no column.
    pub fn new() -> (row: Self)
        ensures
            row.wf(),
            row.names() == Seq::<Seq<char>>::empty(),
            row.cells() == Seq::<ValueModel>::empty(),
            row@ == Map::<Seq<char>, ValueModel>::empty(),
    {
        let row = Row { fields: StringMap::new() };
        assert(row.cells() =~= Seq::<ValueModel>::empty());
        assert(row@ =~= Map::<Seq<char>, ValueModel>::empty());
        row
    }

    /// The number of columns.
    pub fn len(&self) -> (n: usize)
        requires
            self.wf(),
        ensures
            n == self.names().len(),
            n == self.cells().len(),
    {
        self.fields.len()
    }

    /// True when the row has no column.
    pub fn is_empty(&self) -> (b: bool)
        requires
            self.wf(),
        ensures
            b == (self.names().len() == 0),
    {
        self.fields.is_empty()
    }

    /// The name stored at position `i`.
    pub fn name_at(&self, i: usize) -> (name: &String)
        requires
            self.wf(),
            i < self.names().len(),
        ensures
            name@ == self.names()[i as int],
    {
        self.fields.key_at(i)
    }

    /// The cell stored at position `i`.
    pub fn value_at(&self, i: usize) -> (value: &DBValue)
        requires
            self.wf(),
            i < self.names().len(),
        ensures
            value@ == self.cells()[i as int],
    {
        self.fields.value_at(i)
    }

    /// True when the row has a column of that name.
    pub fn contains_key(&self, name: &str) -> (b: bool)
        requires
            self.wf(),
        ensures
            b == self@.contains_key(name@),
    {
        proof {
            self.lemma_view();
        }
        self.fields.contains_key(name)
    }

    /// The cell of the column `name`, if the row has that column.
    pub fn get(&self, name: &str) -> (r: Option<&DBValue>)
        requires
            self.wf(),
        ensures
            match r {
                Some(v) => self@.contains_key(name@) && v@ == self@[name@],
                None => !self@.contains_key(name@),
            },
    {
        proof {
            self.lemma_view();
        }
        self.fields.get(name)
    }

    /// Sets the column `name` to `value`. A column that exists keeps its
    /// position; a new one goes last. Returns the cell that was there
    /// before, if any.
    pub fn insert(&mut self, name: String, value: DBValue) -> (previous: Option<DBValue>)
        requires
            old(self).wf(),
        ensures
            final(self).wf(),
            final(self)@ == old(self)@.insert(name@, value@),
            match previous {
                Some(v) => old(self)@.contains_key(name@) && v@ == old(self)@[name@],
                None => !old(self)@.contains_key(name@),
            },
            old(self)@.contains_key(name@) ==> final(self).names() == old(self).names()
                && final(self).cells() == old(self).cells().update(
                old(self).names().index_of(name@),
                value@,
            ),
            !old(self)@.contains_key(name@) ==> final(self).names() == old(self).names().push(
                name@,
            ) && final(self).cells() == old(self).cells().push(value@),
    {
        proof {
            self.lemma_view();
        }
        let _ = bytes_of(name.as_str());
        match &value {
            DBValue::String(text) => {
                let _ = bytes_of(text.as_str());
            },
            _ => {},
        }
        let previous = self.fields.insert(name, value);
        let _ = self.fields.len();
        proof {
            let at = old(self).names().index_of(name@);
            if old(self)@.contains_key(name@) {
                old(self).fields.lemma_key_position(name@);
            }
            assert forall|i: int| 0 <= i < self.names().len() implies utf8_bytes(
                #[trigger] self.names()[i],
            ).len() <= usize::MAX by {
                if i < old(self).names().len() {
                    assert(self.names()[i] == old(self).names()[i]);
                }
            }
            assert forall|i: int| 0 <= i < self.cells().len() implies cell_fits(
                #[trigger] self.cells()[i],
            ) by {
                if old(self)@.contains_key(name@) {
                    if i != at {
                        assert(self.cells()[i] == old(self).cells()[i]);
                    }
                } else {
                    if i < old(self).cells().len() {
                        assert(self.cells()[i] == old(self).cells()[i]);
                    }
                }
            }
            assert(texts_fit(self.names(), self.cells()));
            self.lemma_view();
            assert(self@ =~= old(self)@.insert(name@, value@));
            if old(self)@.contains_key(name@) {
                old(self).fields.lemma_key_position(name@);
                assert(self.cells() =~= old(self).cells().update(
                    old(self).names().index_of(name@),
                    value@,
                ));
            } else {
                assert(self.cells() =~= old(self).cells().push(value@));
            }
        }
        previous
    }

    /// The row made by inserting the pairs in order; a later pair replaces
    /// the value of an earlier one with the same name.
    pub fn from_pairs(pairs: Vec<(String, DBValue)>) -> (row: Self)
        ensures
            row.wf(),
            row@ == Self::pairs_model(pairs@),
    {
        let mut row = Row::new();
        let mut i: usize = 0;
        while i < pairs.len()
            invariant
                i <= pairs.len(),
                row.wf(),
                row@ == Self::pairs_model(pairs@.take(i as int)),
            decreases pairs.len() - i,
        {
            let name = pairs[i].0.clone();
            let value = pairs[i].1.clone();
            let _ = row.insert(name, value);
            i += 1;
            proof {
                assert(pairs@.take(i as int).drop_last() =~= pairs@.take(i - 1));
            }
        }
        assert(pairs@.take(i as int) =~= pairs@);
        row
    }

    /// The map that inserting `pairs` in order builds.
    pub open spec fn pairs_model(pairs: Seq<(String, DBValue)>) -> Map<Seq<char>, ValueModel>
        decreases pairs.len(),
    {
        if pairs.len() == 0 {
            Map::empty()
        } else {
            Self::pairs_model(pairs.drop_last()).insert(pairs.last().0@, pairs.last().1@)
        }
    }

    /// True when the two rows have the same columns and every column holds
    /// equal cells in both.
    pub fn equals(&self, other: &Row) -> (r: bool)
        requires
            self.wf(),
            other.wf(),
        ensures
            r == (self@.dom() == other@.dom() && forall|k: Seq<char>| #[trigger]
                self@.contains_key(k) ==> self@[k].equals(other@[k])),
    {
        proof {
            self.lemma_wf();
            other.lemma_wf();
        }
        if self.len() != other.len() {
            return false;
        }
        let mut i: usize = 0;
        while i < self.len()
            invariant
                self.wf(),
                other.wf(),
                i <= self.names().len(),
                self.names().len() == other.names().len(),
                forall|j: int|
                    0 <= j < i ==> other@.contains_key(#[trigger] self.names()[j])
                        && self.cells()[j].equals(other@[self.names()[j]]),
            decreases self.names().len() - i,
        {
            match other.get(self.name_at(i).as_str()) {
                Some(v) => {
                    if !self.value_at(i).equals(v) {
                        proof {
                            self.lemma_entry(i as int);
                        }
                        return false;
                    }
                },
                None => {
                    proof {
                        self.lemma_entry(i as int);
                    }
                    return false;
                },
            }
            i += 1;
        }
        proof {
            // Every name of `self` is a name of `other`, and both have as
            // many names, so the two sets of names are the same.
            assert(self.names().to_set().subset_of(other.names().to_set())) by {
                assert forall|k: Seq<char>| self.names().to_set().contains(k) implies other.names().to_set().contains(
                    k,
                ) by {
                    let j = self.names().index_of(k);
                    assert(self.names()[j] == k);
                    assert(other@.contains_key(self.names()[j]));
                }
            }
            vstd::set_lib::lemma_subset_equality(self.names().to_set(), other.names().to_set());
            assert forall|k: Seq<char>| #[trigger] self@.contains_key(k) implies self@[k].equals(
                other@[k],
            ) by {
                let j = self.names().index_of(k);
                assert(self.names()[j] == k);
                self.lemma_entry(j);
            }
        }
        true
    }
}

impl Clone for Row {
    fn clone(&self) -> (r: Self)
        ensures
            r.names() == self.names(),
            r.cells() == self.cells(),
            r@ == self@,
            self.wf() ==> r.wf(),
    {
        let r = Row { fields: self.fields.clone() };
        proof {
            assert forall|i: int| 0 <= i < self.cells().len() implies r.cells()[i]
                == self.cells()[i] by {
                assert(cloned::<DBValue>(self.fields.value_seq()[i], r.fields.value_seq()[i]));
            }
            assert(r.cells() =~= self.cells());
            assert(r@ =~= self@);
        }
        r
    }
}

} // verus!
