//! Write access to the parts of an index.

use crate::index::traits::helper::{EditableDictImpl, EditablePostingImpl, EditableStorageImpl};
use crate::traits::deser::Deser;
use vstd::prelude::*;

verus! {

/// An index that hands out its three parts for editing, one at a time. While
/// one part is lent out, the other two stay as they are.
pub trait EditableInvertedIndex<T: Deser, S: Deser> {
    type DictImpl: EditableDictImpl<T>;

    type StorageImpl: EditableStorageImpl<S>;

    type PostingsImpl: EditablePostingImpl;

    /// The dictionary of the index.
    spec fn dict_part(&self) -> Self::DictImpl;

    /// The storage of the index.
    spec fn storage_part(&self) -> Self::StorageImpl;

    /// The postings of the index.
    spec fn postings_part(&self) -> Self::PostingsImpl;

    /// Lends out the dictionary.
    fn get_dict_mut(&mut self) -> (dict: &mut Self::DictImpl)
        ensures
            *dict == old(self).dict_part(),
            final(self).dict_part() == *final(dict),
            final(self).storage_part() == old(self).storage_part(),
            final(self).postings_part() == old(self).postings_part(),
    ;

    /// Lends out the storage.
    fn get_storage_mut(&mut self) -> (storage: &mut Self::StorageImpl)
        ensures
            *storage == old(self).storage_part(),
            final(self).storage_part() == *final(storage),
            final(self).dict_part() == old(self).dict_part(),
            final(self).postings_part() == old(self).postings_part(),
    ;

    /// Lends out the postings.
    fn get_postings_mut(&mut self) -> (postings: &mut Self::PostingsImpl)
        ensures
            *postings == old(self).postings_part(),
            final(self).postings_part() == *final(postings),
            final(self).dict_part() == old(self).dict_part(),
            final(self).storage_part() == old(self).storage_part(),
    ;
}

} // verus!
