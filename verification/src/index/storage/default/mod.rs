//! A storage that keeps each payload in its serialized form, one record per
//! id, ids counted from zero.

pub mod editor;

use crate::error::Error;
use crate::index::storage::default::editor::StorageEditor;
use crate::index::storage::{
    stored_records, EditableIndexStorage, IndexStorage, IndexStorageEditor,
};
use crate::traits::deser::Deser;
use vstd::prelude::*;

verus! {

/// The storage for most uses: payloads are serialized on insertion and read
/// back on lookup.
pub struct DefaultStorage<S> {
    /// The write half, which owns the records.
    editor: StorageEditor<S>,
}

impl<S: Deser> DefaultStorage<S> {
    /// A storage that holds nothing.
    pub fn new() -> (storage: Self)
        ensures
            storage.wf(),
            storage.count() == 0,
            storage.items() == Map::<nat, Seq<u8>>::empty(),
    {
        DefaultStorage { editor: StorageEditor::new() }
    }

    /// The storage that holds these records, in this order: what
    /// `into_records` handed out. A record that is no payload's serialized
    /// form is found out when it is read.
    pub fn from_records(records: Vec<Vec<u8>>) -> (storage: Self)
        ensures
            storage.wf(),
            storage.count() == records@.len(),
            storage.items() == stored_records(records@),
    {
        DefaultStorage { editor: StorageEditor::from_records(records) }
    }

    /// Gives up the storage for its records: the serialized form of each
    /// payload, in the order of the ids.
    pub fn into_records(self) -> (records: Vec<Vec<u8>>)
        ensures
            records@.len() == self.count(),
            stored_records(records@) == self.items(),
    {
        self.editor.into_records()
    }

    /// A storage that holds nothing. The capacity is a hint and changes
    /// nothing that can be observed.
    pub fn with_capacity(capacity: usize) -> (storage: Self)
        ensures
            storage.wf(),
            storage.count() == 0,
            storage.items() == Map::<nat, Seq<u8>>::empty(),
    {
        DefaultStorage { editor: StorageEditor::new() }
    }
}

impl<S: Deser> IndexStorage<S> for DefaultStorage<S> {
    closed spec fn wf(&self) -> bool {
        self.editor.wf()
    }

    closed spec fn items(&self) -> Map<nat, Seq<u8>> {
        self.editor.items()
    }

    closed spec fn count(&self) -> nat {
        self.editor.count()
    }

    open spec fn consecutive(&self) -> bool {
        true
    }

    fn get_item(&self, id: usize) -> (r: Result<S, Error>) {
        self.editor.get_item(id)
    }

    fn len(&self) -> (n: usize) {
        self.editor.len()
    }
}

impl<S: Deser> EditableIndexStorage<S> for DefaultStorage<S> {
    type Editor = StorageEditor<S>;

    fn editor(&mut self) -> (editor: &mut StorageEditor<S>) {
        &mut self.editor
    }
}

} // verus!
