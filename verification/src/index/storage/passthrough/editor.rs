//! The write half of the pass-through storage.

use crate::error::Error;
use crate::index::storage::passthrough::{every_id, IdPayload};
use crate::index::storage::{encodings, stored, IndexStorageEditor, StorageInsertionResult};
use crate::traits::deser::Deser;
use core::marker::PhantomData;
use vstd::prelude::*;

verus! {

/// The ids that a run of payloads stands for, in their order.
pub open spec fn own_ids<T: IdPayload>(items: Seq<T>) -> Seq<u64> {
    Seq::new(items.len(), |i: int| items[i].as_id())
}

/// Names the ids of payloads that are their own ids.
pub struct PassThroughEditor<T> {
    marker: PhantomData<T>,
}

impl<T> PassThroughEditor<T> {
    /// The editor. There is nothing to set up.
    pub(super) fn new() -> (editor: Self) {
        Self { marker: PhantomData }
    }
}

impl<T: IdPayload> IndexStorageEditor<T> for PassThroughEditor<T> {
    open spec fn wf(&self) -> bool {
        true
    }

    open spec fn items(&self) -> Map<nat, Seq<u8>> {
        every_id::<T>()
    }

    open spec fn count(&self) -> nat {
        0
    }

    open spec fn consecutive(&self) -> bool {
        false
    }

    fn insert_items(&mut self, items: &[T]) -> (r: Result<StorageInsertionResult, Error>)
        ensures
            r matches Ok(result) ==> result matches StorageInsertionResult::Ids(ids) && ids@
                == own_ids(items@),
    {
        if items.len() == 0 {
            return Err(Error::UnsupportedOperation);
        }
        let mut ids: Vec<u64> = Vec::with_capacity(items.len());
        let mut i: usize = 0;
        while i < items.len()
            invariant
                i <= items.len(),
                ids@ == own_ids(items@).take(i as int),
            decreases items.len() - i,
        {
            ids.push(items[i].into_id());
            assert(own_ids(items@).take(i as int).push(items@[i as int].as_id()) == own_ids(
                items@,
            ).take(i + 1));
            i = i + 1;
        }
        assert(own_ids(items@).take(i as int) == own_ids(items@));
        let result = StorageInsertionResult::Ids(ids);
        proof {
            let forms = encodings(items@);
            assert forall|k: int| 0 <= k < forms.len() implies every_id::<T>().contains_key(
                result.id_of(k) as nat,
            ) && every_id::<T>()[result.id_of(k) as nat] == #[trigger] forms[k] by {
                assert(result.id_of(k) == items@[k].as_id());
                items@[k].lemma_of_own_id();
                T::of_id(items@[k].as_id()).lemma_one_form(&items@[k]);
            }
        }
        Ok(result)
    }
}

} // verus!
