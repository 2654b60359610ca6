//! The write half of the default storage.

use crate::error::Error;
use crate::index::storage::{
    encodings, stored, stored_records, IndexStorageEditor, StorageInsertionResult,
};
use crate::traits::deser::Deser;
use core::marker::PhantomData;
use vstd::prelude::*;

verus! {

/// Appends payloads to a default storage.
pub struct StorageEditor<S> {
    /// `records[id]` is the serialized form of the payload under `id`.
    records: Vec<Vec<u8>>,
    marker: PhantomData<S>,
}

impl<S: Deser> StorageEditor<S> {
    /// An editor over a storage that holds nothing.
    pub(super) fn new() -> (editor: Self)
        ensures
            editor.wf(),
            editor.count() == 0,
            editor.items() == Map::<nat, Seq<u8>>::empty(),
    {
        let editor = StorageEditor { records: Vec::new(), marker: PhantomData };
        assert(editor.items() =~= Map::<nat, Seq<u8>>::empty());
        editor
    }

    /// An editor over the storage that holds these records, in this order.
    pub(super) fn from_records(records: Vec<Vec<u8>>) -> (editor: Self)
        ensures
            editor.wf(),
            editor.count() == records@.len(),
            editor.items() == stored_records(records@),
    {
        let editor = StorageEditor { records, marker: PhantomData };
        assert(editor.items() =~= stored_records(records@));
        editor
    }

    /// Gives up the editor for its records, in the order of their ids.
    pub(super) fn into_records(self) -> (records: Vec<Vec<u8>>)
        ensures
            records@.len() == self.count(),
            stored_records(records@) == self.items(),
    {
        assert(self.items() =~= stored_records(self.records@));
        self.records
    }

    /// The payload under `id`. An id at or beyond the count is out of bounds;
    /// a record that is no payload's serialized form is a codec error.
    pub fn get_item(&self, id: usize) -> (r: Result<S, Error>)
        requires
            self.wf(),
        ensures
            match r {
                Ok(item) => self.items().contains_key(id as nat) && self.items()[id as nat]
                    == item.encoding(),
                Err(e) => if self.items().contains_key(id as nat) {
                    e == Error::Codec && forall|item: S| #[trigger]
                        item.encoding() != self.items()[id as nat]
                } else {
                    e == Error::OutOfBounds
                },
            },
            self.items().contains_key(id as nat) <==> id < self.count(),
    {
        if id >= self.records.len() {
            return Err(Error::OutOfBounds);
        }
        match S::deserialize(self.records[id].as_slice()) {
            Some(item) => Ok(item),
            None => Err(Error::Codec),
        }
    }

    /// The number of payloads held.
    pub fn len(&self) -> (n: usize)
        requires
            self.wf(),
        ensures
            n == self.count(),
    {
        self.records.len()
    }
}

impl<S: Deser> IndexStorageEditor<S> for StorageEditor<S> {
    closed spec fn wf(&self) -> bool {
        true
    }

    closed spec fn items(&self) -> Map<nat, Seq<u8>> {
        Map::new(|id: nat| id < self.records@.len(), |id: nat| self.records@[id as int]@)
    }

    closed spec fn count(&self) -> nat {
        self.records@.len()
    }

    open spec fn consecutive(&self) -> bool {
        true
    }

    fn insert_items(&mut self, items: &[S]) -> (r: Result<StorageInsertionResult, Error>) {
        if items.len() == 0 {
            return Err(Error::UnsupportedOperation);
        }
        let first_id: u64 = self.records.len() as u64;
        let ghost before = self.records@;
        let mut i: usize = 0;
        while i < items.len()
            invariant
                i <= items.len(),
                self.records@.len() == before.len() + i,
                forall|k: int| 0 <= k < before.len() ==> self.records@[k] == before[k],
                forall|k: int| 0 <= k < i ==> self.records@[before.len() + k]@ == items@[k].encoding(),
            decreases items.len() - i,
        {
            let record = items[i].serialize();
            self.records.push(record);
            i = i + 1;
        }
        let result = StorageInsertionResult::First(first_id);
        proof {
            let forms = encodings(items@);
            let after = self.items();
            assert(self.records@.len() == self.records.len());
            assert(result.covers(forms.len()));
            assert forall|id: nat| #[trigger]
                old(self).items().contains_key(id) implies after.contains_key(id) && after[id]
                == old(self).items()[id] by {
                assert(self.records@[id as int] == before[id as int]);
            }
            assert forall|id: nat| #[trigger] after.contains_key(id) implies old(self).items().contains_key(id) || exists|k: int|
                0 <= k < forms.len() && #[trigger] result.id_of(k) == id by {
                if id >= before.len() {
                    assert(result.id_of(id - before.len()) == id);
                }
            }
            assert forall|k: int| 0 <= k < forms.len() implies after.contains_key(
                result.id_of(k) as nat,
            ) && after[result.id_of(k) as nat] == #[trigger] forms[k] by {
                assert(self.records@[before.len() + k]@ == items@[k].encoding());
            }
        }
        Ok(result)
    }
}

} // verus!
