//! The write half of the dictionaries that find terms by binary search.

use crate::error::Error;
use crate::index::dict::simple::table::SortedTable;
use crate::index::dict::table::is_first_at;
use crate::index::dict::IndexDictionaryEditor;
use crate::traits::deser::Deser;
use core::marker::PhantomData;
use vstd::prelude::*;

verus! {

/// Inserts terms into a dictionary that is kept in the order of its terms. A
/// term that the dictionary holds keeps its id; a new term gets the next id
/// and goes to its place in the order.
pub struct DictEditor<T> {
    table: SortedTable,
    marker: PhantomData<T>,
}

impl<T: Deser> DictEditor<T> {
    /// An editor over a dictionary without terms.
    pub(crate) fn new() -> (editor: Self)
        ensures
            editor.wf(),
            editor.terms() == Seq::<Seq<u8>>::empty(),
    {
        DictEditor { table: SortedTable::new(), marker: PhantomData }
    }

    /// The id of `term`, if the dictionary holds it.
    pub fn term_id(&self, term: &T) -> (id: Option<u32>)
        requires
            self.wf(),
        ensures
            id matches Some(found) ==> is_first_at(self.terms(), term.encoding(), found as int),
            id is None ==> !self.terms().contains(term.encoding()),
    {
        let key = term.serialize();
        self.table.find(key.as_slice())
    }

    /// Every id fits in `u32`.
    pub proof fn lemma_ids_fit(&self)
        requires
            self.wf(),
        ensures
            self.terms().len() <= u32::MAX + 1,
    {
        self.table.lemma_ids_fit();
    }

    /// The number of terms in the dictionary.
    pub fn len(&self) -> (n: usize)
        requires
            self.wf(),
        ensures
            n == self.terms().len(),
    {
        self.table.len()
    }

    /// No term stands in the dictionary twice.
    pub proof fn lemma_terms_distinct(&self)
        requires
            self.wf(),
        ensures
            self.terms().no_duplicates(),
    {
        self.table.lemma_keys_distinct();
    }
}

impl<T: Deser> IndexDictionaryEditor<T> for DictEditor<T> {
    closed spec fn wf(&self) -> bool {
        self.table.wf()
    }

    closed spec fn terms(&self) -> Seq<Seq<u8>> {
        self.table.keys()
    }

    open spec fn looks_up(&self) -> bool {
        true
    }

    fn announce_new_terms(&mut self, terms: usize, term_size: usize) -> (r: Result<(), Error>) {
        self.table.reserve(terms)
    }

    fn insert_or_get_single(&mut self, term: &T) -> (r: Result<u32, Error>) {
        let key = term.serialize();
        match self.table.insert_new_item(key) {
            Some(id) => Ok(id),
            None => Err(Error::OutOfBounds),
        }
    }
}

} // verus!
