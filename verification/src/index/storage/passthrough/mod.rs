//! A storage that keeps nothing: every id is its own payload.

pub mod editor;

use crate::error::Error;
use crate::index::storage::passthrough::editor::PassThroughEditor;
use crate::index::storage::{EditableIndexStorage, IndexStorage, IndexStorageEditor};
use crate::traits::deser::Deser;
use core::marker::PhantomData;
use vstd::prelude::*;

verus! {

/// A payload that is a storage id under another name: it is made from an id
/// and gives that id back.
pub trait IdPayload: Deser {
    /// The id that the payload stands for.
    spec fn as_id(&self) -> u64;

    /// The payload that stands for `id`.
    spec fn of_id(id: u64) -> Self;

    /// A payload is the payload of its own id.
    proof fn lemma_of_own_id(&self)
        ensures
            Self::of_id(self.as_id()).alike(self),
    ;

    /// The id that the payload stands for.
    fn into_id(&self) -> (id: u64)
        ensures
            id == self.as_id(),
    ;

    /// The payload that stands for `id`.
    fn from_id(id: u64) -> (payload: Self)
        ensures
            payload == Self::of_id(id),
    ;
}

impl IdPayload for u64 {
    open spec fn as_id(&self) -> u64 {
        *self
    }

    open spec fn of_id(id: u64) -> u64 {
        id
    }

    proof fn lemma_of_own_id(&self) {
    }

    fn into_id(&self) -> (id: u64) {
        *self
    }

    fn from_id(id: u64) -> (payload: u64) {
        id
    }
}

/// A storage for payloads that are kept elsewhere and known by a number: it
/// hands out every id it is asked for as the payload, and counts no items.
pub struct PassThroughStorage<S> {
    /// The write half.
    editor: PassThroughEditor<S>,
    marker: PhantomData<S>,
}

impl<S> PassThroughStorage<S> {
    /// The storage. There is nothing to set up.
    pub fn new() -> (storage: Self) {
        PassThroughStorage { editor: PassThroughEditor::new(), marker: PhantomData }
    }

    /// The storage. The capacity changes nothing.
    pub fn with_capacity(capacity: usize) -> (storage: Self) {
        PassThroughStorage::new()
    }
}

/// What a pass-through storage hands out: under every id that fits in
/// `u64`, the serialized form of the payload that stands for the id.
pub open spec fn every_id<S: IdPayload>() -> Map<nat, Seq<u8>> {
    Map::new(|id: nat| id <= u64::MAX, |id: nat| S::of_id(id as u64).encoding())
}

impl<S: IdPayload> IndexStorage<S> for PassThroughStorage<S> {
    open spec fn wf(&self) -> bool {
        true
    }

    open spec fn items(&self) -> Map<nat, Seq<u8>> {
        every_id::<S>()
    }

    open spec fn count(&self) -> nat {
        0
    }

    open spec fn consecutive(&self) -> bool {
        false
    }

    fn get_item(&self, id: usize) -> (r: Result<S, Error>)
        ensures
            r == Ok::<S, Error>(S::of_id(id as u64)),
    {
        Ok(S::from_id(id as u64))
    }

    fn len(&self) -> (n: usize) {
        0
    }
}

impl<S: IdPayload> EditableIndexStorage<S> for PassThroughStorage<S> {
    type Editor = PassThroughEditor<S>;

    fn editor(&mut self) -> (editor: &mut PassThroughEditor<S>) {
        &mut self.editor
    }
}

} // verus!
