//! What is handed to the bulk editor for one insertion.

use vstd::prelude::*;

verus! {

/// One insertion: the terms under which a payload is to be found, and the
/// payload.
#[derive(Clone, Debug)]
pub struct NewItem<T, S> {
    terms: Vec<T>,
    store_item: S,
}

impl<T, S> NewItem<T, S> {
    /// The terms, in the order given.
    pub closed spec fn spec_terms(&self) -> Seq<T> {
        self.terms@
    }

    /// The payload.
    pub closed spec fn spec_store_item(&self) -> S {
        self.store_item
    }

    /// An insertion of `store_item` under `terms`.
    pub fn new(terms: Vec<T>, store_item: S) -> (item: Self)
        ensures
            item.spec_terms() == terms@,
            item.spec_store_item() == store_item,
    {
        Self { terms, store_item }
    }

    /// The terms, in the order given.
    pub fn terms(&self) -> (terms: &[T])
        ensures
            terms@ == self.spec_terms(),
    {
        self.terms.as_slice()
    }

    /// The payload.
    pub fn store_item(&self) -> (store_item: &S)
        ensures
            *store_item == self.spec_store_item(),
    {
        &self.store_item
    }

    /// Takes the terms out and leaves none behind.
    pub fn take_terms(&mut self) -> (terms: Vec<T>)
        ensures
            terms@ == old(self).spec_terms(),
            final(self).spec_terms() == Seq::<T>::empty(),
            final(self).spec_store_item() == old(self).spec_store_item(),
    {
        let mut terms: Vec<T> = Vec::new();
        core::mem::swap(&mut self.terms, &mut terms);
        terms
    }

    /// Gives up the insertion for its payload.
    pub fn into_store_item(self) -> (store_item: S)
        ensures
            store_item == self.spec_store_item(),
    {
        self.store_item
    }
}

} // verus!
