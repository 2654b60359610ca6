//! Read access to the parts of an index.

use crate::index::traits::helper::{DictImpl, PostingImpl, StorageImpl};
use crate::traits::deser::Deser;
use vstd::prelude::*;

verus! {

/// An index that hands out its storage and its postings for reading.
pub trait InvertedIndex<T: Deser, S: Deser>: InvertedIndexDict<T> {
    type StorageImpl: StorageImpl<S>;

    type PostingsImpl: PostingImpl;

    /// The storage of the index.
    spec fn storage_view(&self) -> Self::StorageImpl;

    /// The postings of the index.
    spec fn postings_view(&self) -> Self::PostingsImpl;

    /// Hands out the storage.
    fn get_storage(&self) -> (storage: &Self::StorageImpl)
        ensures
            *storage == self.storage_view(),
    ;

    /// Hands out the postings.
    fn get_postings(&self) -> (postings: &Self::PostingsImpl)
        ensures
            *postings == self.postings_view(),
    ;
}

/// An index that hands out its dictionary for reading.
pub trait InvertedIndexDict<T: Deser> {
    type DictImpl: DictImpl<T>;

    /// The dictionary of the index.
    spec fn dict_view(&self) -> Self::DictImpl;

    /// Hands out the dictionary.
    fn get_dict(&self) -> (dict: &Self::DictImpl)
        ensures
            *dict == self.dict_view(),
    ;
}

} // verus!
