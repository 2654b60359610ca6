//! The write half of the default dictionary.

use crate::error::Error;
use crate::index::dict::table::{is_first_at, key_views, TermTable};
use crate::index::dict::IndexDictionaryEditor;
use crate::traits::deser::Deser;
use core::marker::PhantomData;
use std::cmp::Ordering;
use vstd::prelude::*;

verus! {

/// Inserts terms into a default dictionary. A term that the dictionary holds
/// keeps its id; a new term gets the next one.
pub struct DictEditor<T> {
    table: TermTable,
    marker: PhantomData<T>,
}

impl<T: Deser> DictEditor<T> {
    /// An editor over a dictionary without terms.
    pub(super) fn new() -> (editor: Self)
        ensures
            editor.wf(),
            editor.looks_up(),
            editor.terms() == Seq::<Seq<u8>>::empty(),
    {
        DictEditor { table: TermTable::new(), marker: PhantomData }
    }

    /// The id of `term`, if the dictionary holds it.
    pub fn term_id(&self, term: &T) -> (id: Option<u32>)
        requires
            self.wf(),
        ensures
            id matches Some(found) ==> is_first_at(self.terms(), term.encoding(), found as int),
            id is None ==> !self.terms().contains(term.encoding()),
    {
        let key = term.serialize();
        self.table.find(key.as_slice())
    }

    /// An editor over the dictionary that holds the terms with these
    /// serialized forms, in this order. A form that stands among them twice
    /// is refused as a duplicate entry; more terms than there are ids are out
    /// of bounds.
    pub(super) fn from_terms(forms: Vec<Vec<u8>>) -> (r: Result<Self, Error>)
        ensures
            match r {
                Ok(editor) => editor.wf() && editor.terms() == key_views(forms@),
                Err(e) => if e == Error::DuplicateEntry {
                    !key_views(forms@).no_duplicates()
                } else {
                    e == Error::OutOfBounds && forms@.len() > u32::MAX + 1
                },
            },
    {
        match TermTable::from_keys(forms, true) {
            Ok(table) => Ok(DictEditor { table, marker: PhantomData }),
            Err(e) => Err(e),
        }
    }

    /// Gives up the editor for the serialized forms of its terms, in the
    /// order of their ids.
    pub(super) fn into_terms(self) -> (forms: Vec<Vec<u8>>)
        ensures
            key_views(forms@) == self.terms(),
    {
        self.table.into_keys()
    }

    /// The term with the id `id`. An id that no term has is out of bounds;
    /// bytes that are no term's serialized form are a codec error.
    pub fn term(&self, id: u32) -> (r: Result<T, Error>)
        requires
            self.wf(),
        ensures
            match r {
                Ok(term) => id < self.terms().len() && term.encoding() == self.terms()[id as int],
                Err(e) => if id < self.terms().len() {
                    e == Error::Codec && forall|term: T| #[trigger]
                        term.encoding() != self.terms()[id as int]
                } else {
                    e == Error::OutOfBounds
                },
            },
    {
        if id as usize >= self.table.len() {
            return Err(Error::OutOfBounds);
        }
        match <T as Deser>::deserialize(self.table.key(id)) {
            Some(term) => Ok(term),
            None => Err(Error::Codec),
        }
    }

    /// Every id fits in `u32`.
    pub proof fn lemma_ids_fit(&self)
        requires
            self.wf(),
        ensures
            self.terms().len() <= u32::MAX + 1,
    {
        self.table.lemma_ids_fit();
    }

    /// The number of terms in the dictionary.
    pub fn len(&self) -> (n: usize)
        requires
            self.wf(),
        ensures
            n == self.terms().len(),
    {
        self.table.len()
    }

    /// Takes a ranking of the terms, for callers that know which terms are
    /// looked up most. A lookup here goes by the hash of the term and costs
    /// the same for every term, so there is nothing to rearrange: the
    /// dictionary stays as it is and the ranking is not consulted.
    pub fn optimize<C>(&mut self, cmp: C) -> (r: Result<(), Error>) where
        C: FnMut(&T, &T) -> Ordering,

        requires
            old(self).wf(),
        ensures
            final(self).wf(),
            r is Ok,
            final(self).terms() == old(self).terms(),
    {
        Ok(())
    }

    /// Takes the frequency of each term as its rank. See `optimize`.
    pub fn optimize_with_termfreqs<F>(&mut self, tf: F) where F: FnMut(&T) -> usize
        requires
            old(self).wf(),
        ensures
            final(self).wf(),
            final(self).terms() == old(self).terms(),
    {
    }

    /// No term stands in the dictionary twice.
    pub proof fn lemma_terms_distinct(&self)
        requires
            self.wf(),
        ensures
            self.terms().no_duplicates(),
    {
    }
}

impl<T: Deser> IndexDictionaryEditor<T> for DictEditor<T> {
    closed spec fn wf(&self) -> bool {
        self.table.wf() && self.table.keys().no_duplicates()
    }

    closed spec fn terms(&self) -> Seq<Seq<u8>> {
        self.table.keys()
    }

    open spec fn looks_up(&self) -> bool {
        true
    }

    fn announce_new_terms(&mut self, terms: usize, term_size: usize) -> (r: Result<(), Error>) {
        self.table.reserve(terms)
    }

    fn insert_or_get_single(&mut self, term: &T) -> (r: Result<u32, Error>) {
        let key = term.serialize();
        if let Some(found) = self.table.find(key.as_slice()) {
            return Ok(found);
        }
        let ghost before = self.table.keys();
        match self.table.push(key) {
            Some(id) => {
                proof {
                    assert forall|i: int, j: int|
                        0 <= i < j < self.table.keys().len() implies self.table.keys()[i]
                        != self.table.keys()[j] by {
                        if j == before.len() {
                            assert(before.contains(before[i]));
                        }
                    }
                }
                Ok(id)
            },
            None => Err(Error::OutOfBounds),
        }
    }
}

} // verus!
