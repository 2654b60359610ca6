//! Names for the combinations of traits that the parts of an index have.

use crate::index::dict::{EditableIndexDictionary, IndexDictionary};
use crate::index::posting::{EditableIndexPosting, IndexPosting};
use crate::index::storage::{EditableIndexStorage, IndexStorage};
use crate::traits::deser::Deser;
use vstd::prelude::*;

verus! {

/// A dictionary that an index can read.
pub trait DictImpl<T: Deser>: IndexDictionary<T> {

}

impl<T: Deser, U: IndexDictionary<T>> DictImpl<T> for U {

}

/// A storage that an index can read.
pub trait StorageImpl<S: Deser>: IndexStorage<S> {

}

impl<S: Deser, U: IndexStorage<S>> StorageImpl<S> for U {

}

/// Postings that an index can read.
pub trait PostingImpl: IndexPosting {

}

impl<U: IndexPosting> PostingImpl for U {

}

/// A dictionary that an index can read and edit.
pub trait EditableDictImpl<T: Deser>: IndexDictionary<T> + EditableIndexDictionary<T> {

}

impl<T: Deser, U: IndexDictionary<T> + EditableIndexDictionary<T>> EditableDictImpl<T> for U {

}

/// A storage that an index can read and edit.
pub trait EditableStorageImpl<S: Deser>: EditableIndexStorage<S> {

}

impl<S: Deser, U: EditableIndexStorage<S>> EditableStorageImpl<S> for U {

}

/// Postings that an index can read and edit.
pub trait EditablePostingImpl: IndexPosting + EditableIndexPosting {

}

impl<U: IndexPosting + EditableIndexPosting> EditablePostingImpl for U {

}

} // verus!
