//! A term together with the id it was given.

use vstd::prelude::*;

verus! {

/// A dictionary entry: a term and its id.
#[derive(Copy, Clone)]
pub struct DictItem<T> {
    item: T,
    id: u32,
}

impl<T> DictItem<T> {
    /// The term of the entry.
    pub closed spec fn spec_item(&self) -> T {
        self.item
    }

    /// The id of the entry.
    pub closed spec fn spec_id(&self) -> u32 {
        self.id
    }

    /// The entry that gives `item` the id `id`.
    pub fn new(item: T, id: u32) -> (entry: Self)
        ensures
            entry.spec_item() == item,
            entry.spec_id() == id,
    {
        Self { item, id }
    }

    /// The term of the entry.
    pub fn item(&self) -> (item: &T)
        ensures
            *item == self.spec_item(),
    {
        &self.item
    }

    /// The id of the entry.
    pub fn id(&self) -> (id: u32)
        ensures
            id == self.spec_id(),
    {
        self.id
    }

    /// Gives up the entry for its term.
    pub fn into_inner(self) -> (item: T)
        ensures
            item == self.spec_item(),
    {
        self.item
    }
}

} // verus!
