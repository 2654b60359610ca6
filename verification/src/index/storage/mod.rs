//! Storages: payloads and the ids under which they are kept.

pub mod default;
pub mod passthrough;

use crate::error::Error;
use crate::traits::deser::Deser;
use vstd::prelude::*;

verus! {

/// The ids that a storage gave to a run of inserted items.
pub enum StorageInsertionResult {
    /// Item `i` of the run got the id `ids[i]`.
    Ids(Vec<u64>),
    /// The items were laid out one after the other, starting at this id.
    First(u64),
}

impl StorageInsertionResult {
    /// The id that item `i` of the run got.
    pub open spec fn id_of(&self, i: int) -> int {
        match self {
            StorageInsertionResult::Ids(ids) => ids@[i] as int,
            StorageInsertionResult::First(first) => first + i,
        }
    }

    /// Whether each of `n` items has an id in the result, which fits in `u64`.
    pub open spec fn covers(&self, n: nat) -> bool {
        match self {
            StorageInsertionResult::Ids(ids) => ids@.len() == n,
            StorageInsertionResult::First(first) => first + n <= u64::MAX + 1,
        }
    }

    /// The id that item `i` of the run got, or `None` where the run had no
    /// such item.
    pub fn get(&self, i: usize) -> (id: Option<u64>)
        ensures
            match self {
                StorageInsertionResult::Ids(ids) => id is Some <==> i < ids@.len(),
                StorageInsertionResult::First(first) => id is Some <==> first + i <= u64::MAX,
            },
            id matches Some(found) ==> found == self.id_of(i as int),
    {
        match self {
            StorageInsertionResult::Ids(ids) => {
                if i < ids.len() {
                    Some(ids[i])
                } else {
                    None
                }
            },
            StorageInsertionResult::First(first) => {
                if i as u64 <= u64::MAX - *first {
                    Some(*first + i as u64)
                } else {
                    None
                }
            },
        }
    }
}

/// What a storage hands out that keeps these records, one for each id from
/// zero.
pub open spec fn stored_records(records: Seq<Vec<u8>>) -> Map<nat, Seq<u8>> {
    Map::new(|id: nat| id < records.len(), |id: nat| records[id as int]@)
}

/// The serialized forms of a run of items.
pub open spec fn encodings<S: Deser>(items: Seq<S>) -> Seq<Seq<u8>> {
    Seq::new(items.len(), |i: int| items[i].encoding())
}

/// Whether `after` is what a storage holds once it held `before` and a run of
/// items with the serialized forms `forms` got the ids of `result`: what was
/// held is still held, every item of the run is held under its id, and
/// nothing else is.
pub open spec fn stored(
    before: Map<nat, Seq<u8>>,
    result: StorageInsertionResult,
    forms: Seq<Seq<u8>>,
    after: Map<nat, Seq<u8>>,
) -> bool {
    &&& result.covers(forms.len())
    &&& forall|id: nat| #[trigger]
        before.contains_key(id) ==> after.contains_key(id) && after[id] == before[id]
    &&& forall|i: int|
        0 <= i < forms.len() ==> after.contains_key(result.id_of(i) as nat) && after[result.id_of(
            i,
        ) as nat] == #[trigger] forms[i]
    &&& forall|id: nat| #[trigger]
        after.contains_key(id) ==> before.contains_key(id) || exists|i: int|
            0 <= i < forms.len() && #[trigger] result.id_of(i) == id
}

/// Read access to the storage of an index.
pub trait IndexStorage<S: Deser> {
    /// What the storage must satisfy for its methods to be called.
    spec fn wf(&self) -> bool;

    /// What the storage hands out: the serialized form of the payload under
    /// each id that has one.
    spec fn items(&self) -> Map<nat, Seq<u8>>;

    /// The number of items that the storage counts. A storage that keeps
    /// nothing itself counts none.
    spec fn count(&self) -> nat;

    /// Whether the storage numbers its payloads itself, one after the other:
    /// an insertion is then answered with a first id, which is the count
    /// before it. A storage that does not answers with a list of ids.
    spec fn consecutive(&self) -> bool;

    /// The payload under `id`. An id without a payload is out of bounds;
    /// bytes that are no payload's serialized form are a codec error.
    fn get_item(&self, id: usize) -> (r: Result<S, Error>)
        requires
            self.wf(),
        ensures
            match r {
                Ok(item) => self.items().contains_key(id as nat) && self.items()[id as nat]
                    == item.encoding(),
                Err(e) => if self.items().contains_key(id as nat) {
                    e == Error::Codec && forall|item: S| #[trigger]
                        item.encoding() != self.items()[id as nat]
                } else {
                    e == Error::OutOfBounds
                },
            },
    ;

    /// The number of items that the storage counts.
    fn len(&self) -> (n: usize)
        requires
            self.wf(),
        ensures
            n == self.count(),
    ;

    /// Whether the storage hands out a payload under `id`.
    fn has_item(&self, id: usize) -> (b: bool)
        requires
            self.wf(),
        ensures
            b ==> self.items().contains_key(id as nat),
            b <==> exists|item: S|
                self.items().contains_key(id as nat) && self.items()[id as nat]
                    == #[trigger] item.encoding(),
    {
        match self.get_item(id) {
            Ok(item) => {
                assert(self.items()[id as nat] == item.encoding());
                true
            },
            Err(_) => false,
        }
    }

    /// Whether the storage counts no item.
    fn is_empty(&self) -> (b: bool)
        requires
            self.wf(),
        ensures
            b == (self.count() == 0),
    {
        self.len() == 0
    }
}

/// A storage that lends out an editor.
pub trait EditableIndexStorage<S: Deser>: IndexStorage<S> {
    type Editor: IndexStorageEditor<S>;

    /// Lends out the editor. What the editor holds when it is given back is
    /// what the storage holds from then on.
    fn editor(&mut self) -> (editor: &mut Self::Editor)
        requires
            old(self).wf(),
        ensures
            editor.wf(),
            editor.items() == old(self).items(),
            editor.count() == old(self).count(),
            editor.consecutive() == old(self).consecutive(),
            final(self).wf() == final(editor).wf(),
            final(self).items() == final(editor).items(),
            final(self).count() == final(editor).count(),
            final(self).consecutive() == final(editor).consecutive(),
    ;
}

/// Write access to a storage.
pub trait IndexStorageEditor<S: Deser> {
    /// What the editor must satisfy for its methods to be called.
    spec fn wf(&self) -> bool;

    /// What the storage hands out: the serialized form of the payload under
    /// each id that has one.
    spec fn items(&self) -> Map<nat, Seq<u8>>;

    /// The number of items that the storage counts.
    spec fn count(&self) -> nat;

    /// Whether the storage numbers its payloads itself, one after the other.
    spec fn consecutive(&self) -> bool;

    /// Inserts a run of items and says which ids they got. An empty run is
    /// refused. A storage that numbers its payloads itself answers with a
    /// first id: the count before the insertion, and the count grows by the
    /// length of the run. Any other storage answers with a list of ids and
    /// leaves the count as it was.
    fn insert_items(&mut self, items: &[S]) -> (r: Result<StorageInsertionResult, Error>)
        requires
            old(self).wf(),
        ensures
            final(self).wf(),
            final(self).consecutive() == old(self).consecutive(),
            r is Err <==> items@.len() == 0,
            r matches Ok(result) ==> (result is First <==> old(self).consecutive()),
            r matches Err(e) ==> e == Error::UnsupportedOperation && final(self).items() == old(self).items() && final(self).count() == old(self).count(),
            r matches Ok(result) ==> stored(
                old(self).items(),
                result,
                encodings(items@),
                final(self).items(),
            ) && match result {
                StorageInsertionResult::First(first) => first == old(self).count() && final(self).count() == old(self).count() + items@.len(),
                StorageInsertionResult::Ids(_) => final(self).count() == old(self).count(),
            },
    ;
}

} // verus!
