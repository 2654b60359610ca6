//! The write half of the n-gram dictionary.

use crate::error::Error;
use crate::index::dict::ngram::ngram::Ngram;
use crate::index::dict::table::{is_first_at, key_views, TermTable};
use crate::index::dict::IndexDictionaryEditor;
use crate::traits::deser::Deser;
use vstd::prelude::*;

verus! {

/// Appends terms to an n-gram dictionary. It does not look a term up before
/// appending it: a term inserted twice stands in the dictionary twice, and
/// lookups find its first id.
pub struct DictEditor<const N: usize> {
    table: TermTable,
}

impl<const N: usize> DictEditor<N> {
    /// An editor over a dictionary without terms.
    pub(super) fn new() -> (editor: Self)
        ensures
            editor.wf(),
            !editor.looks_up(),
            editor.terms() == Seq::<Seq<u8>>::empty(),
    {
        DictEditor { table: TermTable::new() }
    }

    /// The first id of `term`, if the dictionary holds it.
    pub fn term_id(&self, term: &Ngram<N>) -> (id: Option<u32>)
        requires
            self.wf(),
        ensures
            id matches Some(found) ==> is_first_at(self.terms(), term.encoding(), found as int),
            id is None ==> !self.terms().contains(term.encoding()),
    {
        let key = term.serialize();
        self.table.find(key.as_slice())
    }

    /// An editor over the dictionary that holds the terms with these
    /// serialized forms, in this order. More terms than there are ids are
    /// out of bounds.
    pub(super) fn from_terms(forms: Vec<Vec<u8>>) -> (r: Result<Self, Error>)
        ensures
            match r {
                Ok(editor) => editor.wf() && editor.terms() == key_views(forms@),
                Err(e) => e == Error::OutOfBounds && forms@.len() > u32::MAX + 1,
            },
    {
        match TermTable::from_keys(forms, false) {
            Ok(table) => Ok(DictEditor { table }),
            Err(e) => Err(e),
        }
    }

    /// Gives up the editor for the serialized forms of its terms, in the
    /// order of their ids.
    pub(super) fn into_terms(self) -> (forms: Vec<Vec<u8>>)
        ensures
            key_views(forms@) == self.terms(),
    {
        self.table.into_keys()
    }

    /// The term with the id `id`. An id that no term has is out of bounds;
    /// bytes that are no term's serialized form are a codec error.
    pub fn term(&self, id: u32) -> (r: Result<Ngram<N>, Error>)
        requires
            self.wf(),
        ensures
            match r {
                Ok(term) => id < self.terms().len() && term.encoding() == self.terms()[id as int],
                Err(e) => if id < self.terms().len() {
                    e == Error::Codec && forall|term: Ngram<N>| #[trigger]
                        term.encoding() != self.terms()[id as int]
                } else {
                    e == Error::OutOfBounds
                },
            },
    {
        if id as usize >= self.table.len() {
            return Err(Error::OutOfBounds);
        }
        match <Ngram<N> as Deser>::deserialize(self.table.key(id)) {
            Some(term) => Ok(term),
            None => Err(Error::Codec),
        }
    }

    /// Every id fits in `u32`.
    pub proof fn lemma_ids_fit(&self)
        requires
            self.wf(),
        ensures
            self.terms().len() <= u32::MAX + 1,
    {
        self.table.lemma_ids_fit();
    }

    /// The number of terms in the dictionary.
    pub fn len(&self) -> (n: usize)
        requires
            self.wf(),
        ensures
            n == self.terms().len(),
    {
        self.table.len()
    }
}

impl<const N: usize> IndexDictionaryEditor<Ngram<N>> for DictEditor<N> {
    closed spec fn wf(&self) -> bool {
        self.table.wf()
    }

    closed spec fn terms(&self) -> Seq<Seq<u8>> {
        self.table.keys()
    }

    open spec fn looks_up(&self) -> bool {
        false
    }

    fn announce_new_terms(&mut self, terms: usize, term_size: usize) -> (r: Result<(), Error>) {
        self.table.reserve(terms)
    }

    fn insert_or_get_single(&mut self, term: &Ngram<N>) -> (r: Result<u32, Error>) {
        let key = term.serialize();
        match self.table.push(key) {
            Some(id) => Ok(id),
            None => Err(Error::OutOfBounds),
        }
    }
}

} // verus!
