//! The indexes that come ready made: each combines one kind of dictionary,
//! one kind of storage and one kind of postings.

use crate::edit::{IndexEditor, PostView};
use crate::error::Error;
use crate::index::dict::default::DefaultDict;
use crate::index::dict::ngram::ngram::Ngram;
use crate::index::dict::ngram::NGramDict;
use crate::index::dict::IndexDictionary;
use crate::index::posting::compressed::CompressedPostings;
use crate::index::posting::default::DefaultPostings;
use crate::index::posting::IndexPosting;
use crate::index::storage::default::DefaultStorage;
use crate::index::storage::passthrough::PassThroughStorage;
use crate::index::storage::IndexStorage;
use crate::index::traits::editable_index::EditableInvertedIndex;
use crate::index::traits::index::{InvertedIndex, InvertedIndexDict};
use crate::traits::deser::Deser;
use vstd::prelude::*;

verus! {

/// The index for most uses: any term, any payload, postings stored as fixed
/// eight-byte ids.
pub struct DefaultIndex<T, S> {
    dict: DefaultDict<T>,
    storage: DefaultStorage<S>,
    postings: DefaultPostings,
}

impl<T: Deser, S: Deser> DefaultIndex<T, S> {
    /// The three parts are fit for use.
    pub open spec fn wf(&self) -> bool {
        &&& self.dict_part().wf()
        &&& self.storage_part().wf()
        &&& self.postings_part().wf()
    }

    /// An index that holds nothing.
    pub fn create() -> (index: Self)
        ensures
            index.wf(),
            index.dict_part().terms() == Seq::<Seq<u8>>::empty(),
            index.storage_part().count() == 0,
            index.postings_part().lists() == Seq::<Seq<Seq<u64>>>::empty(),
    {
        DefaultIndex { dict: DefaultDict::new(), storage: DefaultStorage::new(), postings: DefaultPostings::new() }
    }

    /// The index made of these three parts.
    pub fn load(dict: DefaultDict<T>, storage: DefaultStorage<S>, postings: DefaultPostings) -> (index: Self)
        ensures
            index.dict_part() == dict,
            index.storage_part() == storage,
            index.postings_part() == postings,
    {
        DefaultIndex { dict, storage, postings }
    }

    /// Gives up the index for its three parts.
    pub fn into_parts(self) -> (parts: (DefaultDict<T>, DefaultStorage<S>, DefaultPostings))
        ensures
            parts.0 == self.dict_part(),
            parts.1 == self.storage_part(),
            parts.2 == self.postings_part(),
    {
        (self.dict, self.storage, self.postings)
    }

    /// An editor over the index, with nothing staged.
    pub fn editor(&mut self) -> (editor: IndexEditor<'_, Self, T, S>)
        ensures
            *editor.index == *old(self),
            *final(editor.index) == *final(self),
            editor.staging.wf(),
            !editor.staging.sorts(),
            editor.staging.items() == Seq::<S>::empty(),
            editor.staging.terms() == Seq::<Seq<u8>>::empty(),
            editor.staging.posts() == Seq::<PostView>::empty(),
            editor.staging.cached_terms() == Seq::<Seq<u8>>::empty(),
            editor.staging.cached_ids() == Seq::<u32>::empty(),
    {
        IndexEditor::new(self)
    }

    /// The dictionary, for reading.
    pub fn dict(&self) -> (dict: &DefaultDict<T>)
        ensures
            *dict == self.dict_part(),
    {
        &self.dict
    }

    /// The storage, for reading.
    pub fn storage(&self) -> (storage: &DefaultStorage<S>)
        ensures
            *storage == self.storage_part(),
    {
        &self.storage
    }

    /// The postings, for reading.
    pub fn postings(&self) -> (postings: &DefaultPostings)
        ensures
            *postings == self.postings_part(),
    {
        &self.postings
    }

    /// The dictionary, for editing.
    pub fn dict_mut(&mut self) -> (dict: &mut DefaultDict<T>)
        ensures
            *dict == old(self).dict_part(),
            final(self).dict_part() == *final(dict),
            final(self).storage_part() == old(self).storage_part(),
            final(self).postings_part() == old(self).postings_part(),
    {
        &mut self.dict
    }

    /// The storage, for editing.
    pub fn storage_mut(&mut self) -> (storage: &mut DefaultStorage<S>)
        ensures
            *storage == old(self).storage_part(),
            final(self).storage_part() == *final(storage),
            final(self).dict_part() == old(self).dict_part(),
            final(self).postings_part() == old(self).postings_part(),
    {
        &mut self.storage
    }

    /// The postings, for editing.
    pub fn postings_mut(&mut self) -> (postings: &mut DefaultPostings)
        ensures
            *postings == old(self).postings_part(),
            final(self).postings_part() == *final(postings),
            final(self).dict_part() == old(self).dict_part(),
            final(self).storage_part() == old(self).storage_part(),
    {
        &mut self.postings
    }
}

impl<T: Deser, S: Deser> InvertedIndexDict<T> for DefaultIndex<T, S> {
    type DictImpl = DefaultDict<T>;

    closed spec fn dict_view(&self) -> DefaultDict<T> {
        self.dict
    }

    fn get_dict(&self) -> (dict: &DefaultDict<T>) {
        &self.dict
    }
}

impl<T: Deser, S: Deser> InvertedIndex<T, S> for DefaultIndex<T, S> {
    type StorageImpl = DefaultStorage<S>;

    type PostingsImpl = DefaultPostings;

    closed spec fn storage_view(&self) -> DefaultStorage<S> {
        self.storage
    }

    closed spec fn postings_view(&self) -> DefaultPostings {
        self.postings
    }

    fn get_storage(&self) -> (storage: &DefaultStorage<S>) {
        &self.storage
    }

    fn get_postings(&self) -> (postings: &DefaultPostings) {
        &self.postings
    }
}

impl<T: Deser, S: Deser> EditableInvertedIndex<T, S> for DefaultIndex<T, S> {
    type DictImpl = DefaultDict<T>;

    type StorageImpl = DefaultStorage<S>;

    type PostingsImpl = DefaultPostings;

    closed spec fn dict_part(&self) -> DefaultDict<T> {
        self.dict
    }

    closed spec fn storage_part(&self) -> DefaultStorage<S> {
        self.storage
    }

    closed spec fn postings_part(&self) -> DefaultPostings {
        self.postings
    }

    fn get_dict_mut(&mut self) -> (dict: &mut DefaultDict<T>) {
        &mut self.dict
    }

    fn get_storage_mut(&mut self) -> (storage: &mut DefaultStorage<S>) {
        &mut self.storage
    }

    fn get_postings_mut(&mut self) -> (postings: &mut DefaultPostings) {
        &mut self.postings
    }
}

/// An index that stores its postings as varints.
pub struct CompressedIndex<T, S> {
    dict: DefaultDict<T>,
    storage: DefaultStorage<S>,
    postings: CompressedPostings,
}

impl<T: Deser, S: Deser> CompressedIndex<T, S> {
    /// The three parts are fit for use.
    pub open spec fn wf(&self) -> bool {
        &&& self.dict_part().wf()
        &&& self.storage_part().wf()
        &&& self.postings_part().wf()
    }

    /// An index that holds nothing.
    pub fn create() -> (index: Self)
        ensures
            index.wf(),
            index.dict_part().terms() == Seq::<Seq<u8>>::empty(),
            index.storage_part().count() == 0,
            index.postings_part().lists() == Seq::<Seq<Seq<u64>>>::empty(),
    {
        CompressedIndex { dict: DefaultDict::new(), storage: DefaultStorage::new(), postings: CompressedPostings::new() }
    }

    /// The index made of these three parts.
    pub fn load(dict: DefaultDict<T>, storage: DefaultStorage<S>, postings: CompressedPostings) -> (index: Self)
        ensures
            index.dict_part() == dict,
            index.storage_part() == storage,
            index.postings_part() == postings,
    {
        CompressedIndex { dict, storage, postings }
    }

    /// Gives up the index for its three parts.
    pub fn into_parts(self) -> (parts: (DefaultDict<T>, DefaultStorage<S>, CompressedPostings))
        ensures
            parts.0 == self.dict_part(),
            parts.1 == self.storage_part(),
            parts.2 == self.postings_part(),
    {
        (self.dict, self.storage, self.postings)
    }

    /// An editor over the index, with nothing staged.
    pub fn editor(&mut self) -> (editor: IndexEditor<'_, Self, T, S>)
        ensures
            *editor.index == *old(self),
            *final(editor.index) == *final(self),
            editor.staging.wf(),
            !editor.staging.sorts(),
            editor.staging.items() == Seq::<S>::empty(),
            editor.staging.terms() == Seq::<Seq<u8>>::empty(),
            editor.staging.posts() == Seq::<PostView>::empty(),
            editor.staging.cached_terms() == Seq::<Seq<u8>>::empty(),
            editor.staging.cached_ids() == Seq::<u32>::empty(),
    {
        IndexEditor::new(self)
    }

    /// The dictionary, for reading.
    pub fn dict(&self) -> (dict: &DefaultDict<T>)
        ensures
            *dict == self.dict_part(),
    {
        &self.dict
    }

    /// The storage, for reading.
    pub fn storage(&self) -> (storage: &DefaultStorage<S>)
        ensures
            *storage == self.storage_part(),
    {
        &self.storage
    }

    /// The postings, for reading.
    pub fn postings(&self) -> (postings: &CompressedPostings)
        ensures
            *postings == self.postings_part(),
    {
        &self.postings
    }

    /// The dictionary, for editing.
    pub fn dict_mut(&mut self) -> (dict: &mut DefaultDict<T>)
        ensures
            *dict == old(self).dict_part(),
            final(self).dict_part() == *final(dict),
            final(self).storage_part() == old(self).storage_part(),
            final(self).postings_part() == old(self).postings_part(),
    {
        &mut self.dict
    }

    /// The storage, for editing.
    pub fn storage_mut(&mut self) -> (storage: &mut DefaultStorage<S>)
        ensures
            *storage == old(self).storage_part(),
            final(self).storage_part() == *final(storage),
            final(self).dict_part() == old(self).dict_part(),
            final(self).postings_part() == old(self).postings_part(),
    {
        &mut self.storage
    }

    /// The postings, for editing.
    pub fn postings_mut(&mut self) -> (postings: &mut CompressedPostings)
        ensures
            *postings == old(self).postings_part(),
            final(self).postings_part() == *final(postings),
            final(self).dict_part() == old(self).dict_part(),
            final(self).storage_part() == old(self).storage_part(),
    {
        &mut self.postings
    }
}

impl<T: Deser, S: Deser> InvertedIndexDict<T> for CompressedIndex<T, S> {
    type DictImpl = DefaultDict<T>;

    closed spec fn dict_view(&self) -> DefaultDict<T> {
        self.dict
    }

    fn get_dict(&self) -> (dict: &DefaultDict<T>) {
        &self.dict
    }
}

impl<T: Deser, S: Deser> InvertedIndex<T, S> for CompressedIndex<T, S> {
    type StorageImpl = DefaultStorage<S>;

    type PostingsImpl = CompressedPostings;

    closed spec fn storage_view(&self) -> DefaultStorage<S> {
        self.storage
    }

    closed spec fn postings_view(&self) -> CompressedPostings {
        self.postings
    }

    fn get_storage(&self) -> (storage: &DefaultStorage<S>) {
        &self.storage
    }

    fn get_postings(&self) -> (postings: &CompressedPostings) {
        &self.postings
    }
}

impl<T: Deser, S: Deser> EditableInvertedIndex<T, S> for CompressedIndex<T, S> {
    type DictImpl = DefaultDict<T>;

    type StorageImpl = DefaultStorage<S>;

    type PostingsImpl = CompressedPostings;

    closed spec fn dict_part(&self) -> DefaultDict<T> {
        self.dict
    }

    closed spec fn storage_part(&self) -> DefaultStorage<S> {
        self.storage
    }

    closed spec fn postings_part(&self) -> CompressedPostings {
        self.postings
    }

    fn get_dict_mut(&mut self) -> (dict: &mut DefaultDict<T>) {
        &mut self.dict
    }

    fn get_storage_mut(&mut self) -> (storage: &mut DefaultStorage<S>) {
        &mut self.storage
    }

    fn get_postings_mut(&mut self) -> (postings: &mut CompressedPostings) {
        &mut self.postings
    }
}

/// An index over payloads that are their own storage ids, with postings
/// stored as varints.
pub struct CompressedIntIndex<T> {
    dict: DefaultDict<T>,
    storage: PassThroughStorage<u64>,
    postings: CompressedPostings,
}

impl<T: Deser> CompressedIntIndex<T> {
    /// The three parts are fit for use.
    pub open spec fn wf(&self) -> bool {
        &&& self.dict_part().wf()
        &&& self.storage_part().wf()
        &&& self.postings_part().wf()
    }

    /// An index that holds nothing.
    pub fn create() -> (index: Self)
        ensures
            index.wf(),
            index.dict_part().terms() == Seq::<Seq<u8>>::empty(),
            index.storage_part().count() == 0,
            index.postings_part().lists() == Seq::<Seq<Seq<u64>>>::empty(),
    {
        CompressedIntIndex { dict: DefaultDict::new(), storage: PassThroughStorage::new(), postings: CompressedPostings::new() }
    }

    /// The index made of these three parts.
    pub fn load(dict: DefaultDict<T>, storage: PassThroughStorage<u64>, postings: CompressedPostings) -> (index: Self)
        ensures
            index.dict_part() == dict,
            index.storage_part() == storage,
            index.postings_part() == postings,
    {
        CompressedIntIndex { dict, storage, postings }
    }

    /// Gives up the index for its three parts.
    pub fn into_parts(self) -> (parts: (DefaultDict<T>, PassThroughStorage<u64>, CompressedPostings))
        ensures
            parts.0 == self.dict_part(),
            parts.1 == self.storage_part(),
            parts.2 == self.postings_part(),
    {
        (self.dict, self.storage, self.postings)
    }

    /// An editor over the index, with nothing staged.
    pub fn editor(&mut self) -> (editor: IndexEditor<'_, Self, T, u64>)
        ensures
            *editor.index == *old(self),
            *final(editor.index) == *final(self),
            editor.staging.wf(),
            !editor.staging.sorts(),
            editor.staging.items() == Seq::<u64>::empty(),
            editor.staging.terms() == Seq::<Seq<u8>>::empty(),
            editor.staging.posts() == Seq::<PostView>::empty(),
            editor.staging.cached_terms() == Seq::<Seq<u8>>::empty(),
            editor.staging.cached_ids() == Seq::<u32>::empty(),
    {
        IndexEditor::new(self)
    }

    /// The dictionary, for reading.
    pub fn dict(&self) -> (dict: &DefaultDict<T>)
        ensures
            *dict == self.dict_part(),
    {
        &self.dict
    }

    /// The storage, for reading.
    pub fn storage(&self) -> (storage: &PassThroughStorage<u64>)
        ensures
            *storage == self.storage_part(),
    {
        &self.storage
    }

    /// The postings, for reading.
    pub fn postings(&self) -> (postings: &CompressedPostings)
        ensures
            *postings == self.postings_part(),
    {
        &self.postings
    }

    /// The dictionary, for editing.
    pub fn dict_mut(&mut self) -> (dict: &mut DefaultDict<T>)
        ensures
            *dict == old(self).dict_part(),
            final(self).dict_part() == *final(dict),
            final(self).storage_part() == old(self).storage_part(),
            final(self).postings_part() == old(self).postings_part(),
    {
        &mut self.dict
    }

    /// The storage, for editing.
    pub fn storage_mut(&mut self) -> (storage: &mut PassThroughStorage<u64>)
        ensures
            *storage == old(self).storage_part(),
            final(self).storage_part() == *final(storage),
            final(self).dict_part() == old(self).dict_part(),
            final(self).postings_part() == old(self).postings_part(),
    {
        &mut self.storage
    }

    /// The postings, for editing.
    pub fn postings_mut(&mut self) -> (postings: &mut CompressedPostings)
        ensures
            *postings == old(self).postings_part(),
            final(self).postings_part() == *final(postings),
            final(self).dict_part() == old(self).dict_part(),
            final(self).storage_part() == old(self).storage_part(),
    {
        &mut self.postings
    }
}

impl<T: Deser> InvertedIndexDict<T> for CompressedIntIndex<T> {
    type DictImpl = DefaultDict<T>;

    closed spec fn dict_view(&self) -> DefaultDict<T> {
        self.dict
    }

    fn get_dict(&self) -> (dict: &DefaultDict<T>) {
        &self.dict
    }
}

impl<T: Deser> InvertedIndex<T, u64> for CompressedIntIndex<T> {
    type StorageImpl = PassThroughStorage<u64>;

    type PostingsImpl = CompressedPostings;

    closed spec fn storage_view(&self) -> PassThroughStorage<u64> {
        self.storage
    }

    closed spec fn postings_view(&self) -> CompressedPostings {
        self.postings
    }

    fn get_storage(&self) -> (storage: &PassThroughStorage<u64>) {
        &self.storage
    }

    fn get_postings(&self) -> (postings: &CompressedPostings) {
        &self.postings
    }
}

impl<T: Deser> EditableInvertedIndex<T, u64> for CompressedIntIndex<T> {
    type DictImpl = DefaultDict<T>;

    type StorageImpl = PassThroughStorage<u64>;

    type PostingsImpl = CompressedPostings;

    closed spec fn dict_part(&self) -> DefaultDict<T> {
        self.dict
    }

    closed spec fn storage_part(&self) -> PassThroughStorage<u64> {
        self.storage
    }

    closed spec fn postings_part(&self) -> CompressedPostings {
        self.postings
    }

    fn get_dict_mut(&mut self) -> (dict: &mut DefaultDict<T>) {
        &mut self.dict
    }

    fn get_storage_mut(&mut self) -> (storage: &mut PassThroughStorage<u64>) {
        &mut self.storage
    }

    fn get_postings_mut(&mut self) -> (postings: &mut CompressedPostings) {
        &mut self.postings
    }
}

/// An index over n-grams, postings stored as fixed eight-byte ids.
pub struct DefaultNgramIndex<S, const N: usize> {
    dict: NGramDict<N>,
    storage: DefaultStorage<S>,
    postings: DefaultPostings,
}

impl<S: Deser, const N: usize> DefaultNgramIndex<S, N> {
    /// The three parts are fit for use.
    pub open spec fn wf(&self) -> bool {
        &&& self.dict_part().wf()
        &&& self.storage_part().wf()
        &&& self.postings_part().wf()
    }

    /// An index that holds nothing.
    pub fn create() -> (index: Self)
        ensures
            index.wf(),
            index.dict_part().terms() == Seq::<Seq<u8>>::empty(),
            index.storage_part().count() == 0,
            index.postings_part().lists() == Seq::<Seq<Seq<u64>>>::empty(),
    {
        DefaultNgramIndex { dict: NGramDict::new(), storage: DefaultStorage::new(), postings: DefaultPostings::new() }
    }

    /// The index made of these three parts.
    pub fn load(dict: NGramDict<N>, storage: DefaultStorage<S>, postings: DefaultPostings) -> (index: Self)
        ensures
            index.dict_part() == dict,
            index.storage_part() == storage,
            index.postings_part() == postings,
    {
        DefaultNgramIndex { dict, storage, postings }
    }

    /// Gives up the index for its three parts.
    pub fn into_parts(self) -> (parts: (NGramDict<N>, DefaultStorage<S>, DefaultPostings))
        ensures
            parts.0 == self.dict_part(),
            parts.1 == self.storage_part(),
            parts.2 == self.postings_part(),
    {
        (self.dict, self.storage, self.postings)
    }

    /// An editor over the index, with nothing staged.
    pub fn editor(&mut self) -> (editor: IndexEditor<'_, Self, Ngram<N>, S>)
        ensures
            *editor.index == *old(self),
            *final(editor.index) == *final(self),
            editor.staging.wf(),
            !editor.staging.sorts(),
            editor.staging.items() == Seq::<S>::empty(),
            editor.staging.terms() == Seq::<Seq<u8>>::empty(),
            editor.staging.posts() == Seq::<PostView>::empty(),
            editor.staging.cached_terms() == Seq::<Seq<u8>>::empty(),
            editor.staging.cached_ids() == Seq::<u32>::empty(),
    {
        IndexEditor::new(self)
    }

    /// The dictionary, for reading.
    pub fn dict(&self) -> (dict: &NGramDict<N>)
        ensures
            *dict == self.dict_part(),
    {
        &self.dict
    }

    /// The storage, for reading.
    pub fn storage(&self) -> (storage: &DefaultStorage<S>)
        ensures
            *storage == self.storage_part(),
    {
        &self.storage
    }

    /// The postings, for reading.
    pub fn postings(&self) -> (postings: &DefaultPostings)
        ensures
            *postings == self.postings_part(),
    {
        &self.postings
    }

    /// The dictionary, for editing.
    pub fn dict_mut(&mut self) -> (dict: &mut NGramDict<N>)
        ensures
            *dict == old(self).dict_part(),
            final(self).dict_part() == *final(dict),
            final(self).storage_part() == old(self).storage_part(),
            final(self).postings_part() == old(self).postings_part(),
    {
        &mut self.dict
    }

    /// The storage, for editing.
    pub fn storage_mut(&mut self) -> (storage: &mut DefaultStorage<S>)
        ensures
            *storage == old(self).storage_part(),
            final(self).storage_part() == *final(storage),
            final(self).dict_part() == old(self).dict_part(),
            final(self).postings_part() == old(self).postings_part(),
    {
        &mut self.storage
    }

    /// The postings, for editing.
    pub fn postings_mut(&mut self) -> (postings: &mut DefaultPostings)
        ensures
            *postings == old(self).postings_part(),
            final(self).postings_part() == *final(postings),
            final(self).dict_part() == old(self).dict_part(),
            final(self).storage_part() == old(self).storage_part(),
    {
        &mut self.postings
    }
}

impl<S: Deser, const N: usize> InvertedIndexDict<Ngram<N>> for DefaultNgramIndex<S, N> {
    type DictImpl = NGramDict<N>;

    closed spec fn dict_view(&self) -> NGramDict<N> {
        self.dict
    }

    fn get_dict(&self) -> (dict: &NGramDict<N>) {
        &self.dict
    }
}

impl<S: Deser, const N: usize> InvertedIndex<Ngram<N>, S> for DefaultNgramIndex<S, N> {
    type StorageImpl = DefaultStorage<S>;

    type PostingsImpl = DefaultPostings;

    closed spec fn storage_view(&self) -> DefaultStorage<S> {
        self.storage
    }

    closed spec fn postings_view(&self) -> DefaultPostings {
        self.postings
    }

    fn get_storage(&self) -> (storage: &DefaultStorage<S>) {
        &self.storage
    }

    fn get_postings(&self) -> (postings: &DefaultPostings) {
        &self.postings
    }
}

impl<S: Deser, const N: usize> EditableInvertedIndex<Ngram<N>, S> for DefaultNgramIndex<S, N> {
    type DictImpl = NGramDict<N>;

    type StorageImpl = DefaultStorage<S>;

    type PostingsImpl = DefaultPostings;

    closed spec fn dict_part(&self) -> NGramDict<N> {
        self.dict
    }

    closed spec fn storage_part(&self) -> DefaultStorage<S> {
        self.storage
    }

    closed spec fn postings_part(&self) -> DefaultPostings {
        self.postings
    }

    fn get_dict_mut(&mut self) -> (dict: &mut NGramDict<N>) {
        &mut self.dict
    }

    fn get_storage_mut(&mut self) -> (storage: &mut DefaultStorage<S>) {
        &mut self.storage
    }

    fn get_postings_mut(&mut self) -> (postings: &mut DefaultPostings) {
        &mut self.postings
    }
}

/// An index over n-grams that stores its postings as varints.
pub struct CompressedNgramIndex<S, const N: usize> {
    dict: NGramDict<N>,
    storage: DefaultStorage<S>,
    postings: CompressedPostings,
}

impl<S: Deser, const N: usize> CompressedNgramIndex<S, N> {
    /// The three parts are fit for use.
    pub open spec fn wf(&self) -> bool {
        &&& self.dict_part().wf()
        &&& self.storage_part().wf()
        &&& self.postings_part().wf()
    }

    /// An index that holds nothing.
    pub fn create() -> (index: Self)
        ensures
            index.wf(),
            index.dict_part().terms() == Seq::<Seq<u8>>::empty(),
            index.storage_part().count() == 0,
            index.postings_part().lists() == Seq::<Seq<Seq<u64>>>::empty(),
    {
        CompressedNgramIndex { dict: NGramDict::new(), storage: DefaultStorage::new(), postings: CompressedPostings::new() }
    }

    /// The index made of these three parts.
    pub fn load(dict: NGramDict<N>, storage: DefaultStorage<S>, postings: CompressedPostings) -> (index: Self)
        ensures
            index.dict_part() == dict,
            index.storage_part() == storage,
            index.postings_part() == postings,
    {
        CompressedNgramIndex { dict, storage, postings }
    }

    /// Gives up the index for its three parts.
    pub fn into_parts(self) -> (parts: (NGramDict<N>, DefaultStorage<S>, CompressedPostings))
        ensures
            parts.0 == self.dict_part(),
            parts.1 == self.storage_part(),
            parts.2 == self.postings_part(),
    {
        (self.dict, self.storage, self.postings)
    }

    /// An editor over the index, with nothing staged.
    pub fn editor(&mut self) -> (editor: IndexEditor<'_, Self, Ngram<N>, S>)
        ensures
            *editor.index == *old(self),
            *final(editor.index) == *final(self),
            editor.staging.wf(),
            !editor.staging.sorts(),
            editor.staging.items() == Seq::<S>::empty(),
            editor.staging.terms() == Seq::<Seq<u8>>::empty(),
            editor.staging.posts() == Seq::<PostView>::empty(),
            editor.staging.cached_terms() == Seq::<Seq<u8>>::empty(),
            editor.staging.cached_ids() == Seq::<u32>::empty(),
    {
        IndexEditor::new(self)
    }

    /// The dictionary, for reading.
    pub fn dict(&self) -> (dict: &NGramDict<N>)
        ensures
            *dict == self.dict_part(),
    {
        &self.dict
    }

    /// The storage, for reading.
    pub fn storage(&self) -> (storage: &DefaultStorage<S>)
        ensures
            *storage == self.storage_part(),
    {
        &self.storage
    }

    /// The postings, for reading.
    pub fn postings(&self) -> (postings: &CompressedPostings)
        ensures
            *postings == self.postings_part(),
    {
        &self.postings
    }

    /// The dictionary, for editing.
    pub fn dict_mut(&mut self) -> (dict: &mut NGramDict<N>)
        ensures
            *dict == old(self).dict_part(),
            final(self).dict_part() == *final(dict),
            final(self).storage_part() == old(self).storage_part(),
            final(self).postings_part() == old(self).postings_part(),
    {
        &mut self.dict
    }

    /// The storage, for editing.
    pub fn storage_mut(&mut self) -> (storage: &mut DefaultStorage<S>)
        ensures
            *storage == old(self).storage_part(),
            final(self).storage_part() == *final(storage),
            final(self).dict_part() == old(self).dict_part(),
            final(self).postings_part() == old(self).postings_part(),
    {
        &mut self.storage
    }

    /// The postings, for editing.
    pub fn postings_mut(&mut self) -> (postings: &mut CompressedPostings)
        ensures
            *postings == old(self).postings_part(),
            final(self).postings_part() == *final(postings),
            final(self).dict_part() == old(self).dict_part(),
            final(self).storage_part() == old(self).storage_part(),
    {
        &mut self.postings
    }
}

impl<S: Deser, const N: usize> InvertedIndexDict<Ngram<N>> for CompressedNgramIndex<S, N> {
    type DictImpl = NGramDict<N>;

    closed spec fn dict_view(&self) -> NGramDict<N> {
        self.dict
    }

    fn get_dict(&self) -> (dict: &NGramDict<N>) {
        &self.dict
    }
}

impl<S: Deser, const N: usize> InvertedIndex<Ngram<N>, S> for CompressedNgramIndex<S, N> {
    type StorageImpl = DefaultStorage<S>;

    type PostingsImpl = CompressedPostings;

    closed spec fn storage_view(&self) -> DefaultStorage<S> {
        self.storage
    }

    closed spec fn postings_view(&self) -> CompressedPostings {
        self.postings
    }

    fn get_storage(&self) -> (storage: &DefaultStorage<S>) {
        &self.storage
    }

    fn get_postings(&self) -> (postings: &CompressedPostings) {
        &self.postings
    }
}

impl<S: Deser, const N: usize> EditableInvertedIndex<Ngram<N>, S> for CompressedNgramIndex<S, N> {
    type DictImpl = NGramDict<N>;

    type StorageImpl = DefaultStorage<S>;

    type PostingsImpl = CompressedPostings;

    closed spec fn dict_part(&self) -> NGramDict<N> {
        self.dict
    }

    closed spec fn storage_part(&self) -> DefaultStorage<S> {
        self.storage
    }

    closed spec fn postings_part(&self) -> CompressedPostings {
        self.postings
    }

    fn get_dict_mut(&mut self) -> (dict: &mut NGramDict<N>) {
        &mut self.dict
    }

    fn get_storage_mut(&mut self) -> (storage: &mut DefaultStorage<S>) {
        &mut self.storage
    }

    fn get_postings_mut(&mut self) -> (postings: &mut CompressedPostings) {
        &mut self.postings
    }
}

/// An index over n-grams and payloads that are their own storage ids, with
/// postings stored as varints.
pub struct CompressedIntNgramIndex<const N: usize> {
    dict: NGramDict<N>,
    storage: PassThroughStorage<u64>,
    postings: CompressedPostings,
}

impl<const N: usize> CompressedIntNgramIndex<N> {
    /// The three parts are fit for use.
    pub open spec fn wf(&self) -> bool {
        &&& self.dict_part().wf()
        &&& self.storage_part().wf()
        &&& self.postings_part().wf()
    }

    /// An index that holds nothing.
    pub fn create() -> (index: Self)
        ensures
            index.wf(),
            index.dict_part().terms() == Seq::<Seq<u8>>::empty(),
            index.storage_part().count() == 0,
            index.postings_part().lists() == Seq::<Seq<Seq<u64>>>::empty(),
    {
        CompressedIntNgramIndex { dict: NGramDict::new(), storage: PassThroughStorage::new(), postings: CompressedPostings::new() }
    }

    /// The index made of these three parts.
    pub fn load(dict: NGramDict<N>, storage: PassThroughStorage<u64>, postings: CompressedPostings) -> (index: Self)
        ensures
            index.dict_part() == dict,
            index.storage_part() == storage,
            index.postings_part() == postings,
    {
        CompressedIntNgramIndex { dict, storage, postings }
    }

    /// Gives up the index for its three parts.
    pub fn into_parts(self) -> (parts: (NGramDict<N>, PassThroughStorage<u64>, CompressedPostings))
        ensures
            parts.0 == self.dict_part(),
            parts.1 == self.storage_part(),
            parts.2 == self.postings_part(),
    {
        (self.dict, self.storage, self.postings)
    }

    /// An editor over the index, with nothing staged.
    pub fn editor(&mut self) -> (editor: IndexEditor<'_, Self, Ngram<N>, u64>)
        ensures
            *editor.index == *old(self),
            *final(editor.index) == *final(self),
            editor.staging.wf(),
            !editor.staging.sorts(),
            editor.staging.items() == Seq::<u64>::empty(),
            editor.staging.terms() == Seq::<Seq<u8>>::empty(),
            editor.staging.posts() == Seq::<PostView>::empty(),
            editor.staging.cached_terms() == Seq::<Seq<u8>>::empty(),
            editor.staging.cached_ids() == Seq::<u32>::empty(),
    {
        IndexEditor::new(self)
    }

    /// The dictionary, for reading.
    pub fn dict(&self) -> (dict: &NGramDict<N>)
        ensures
            *dict == self.dict_part(),
    {
        &self.dict
    }

    /// The storage, for reading.
    pub fn storage(&self) -> (storage: &PassThroughStorage<u64>)
        ensures
            *storage == self.storage_part(),
    {
        &self.storage
    }

    /// The postings, for reading.
    pub fn postings(&self) -> (postings: &CompressedPostings)
        ensures
            *postings == self.postings_part(),
    {
        &self.postings
    }

    /// The dictionary, for editing.
    pub fn dict_mut(&mut self) -> (dict: &mut NGramDict<N>)
        ensures
            *dict == old(self).dict_part(),
            final(self).dict_part() == *final(dict),
            final(self).storage_part() == old(self).storage_part(),
            final(self).postings_part() == old(self).postings_part(),
    {
        &mut self.dict
    }

    /// The storage, for editing.
    pub fn storage_mut(&mut self) -> (storage: &mut PassThroughStorage<u64>)
        ensures
            *storage == old(self).storage_part(),
            final(self).storage_part() == *final(storage),
            final(self).dict_part() == old(self).dict_part(),
            final(self).postings_part() == old(self).postings_part(),
    {
        &mut self.storage
    }

    /// The postings, for editing.
    pub fn postings_mut(&mut self) -> (postings: &mut CompressedPostings)
        ensures
            *postings == old(self).postings_part(),
            final(self).postings_part() == *final(postings),
            final(self).dict_part() == old(self).dict_part(),
            final(self).storage_part() == old(self).storage_part(),
    {
        &mut self.postings
    }
}

impl<const N: usize> InvertedIndexDict<Ngram<N>> for CompressedIntNgramIndex<N> {
    type DictImpl = NGramDict<N>;

    closed spec fn dict_view(&self) -> NGramDict<N> {
        self.dict
    }

    fn get_dict(&self) -> (dict: &NGramDict<N>) {
        &self.dict
    }
}

impl<const N: usize> InvertedIndex<Ngram<N>, u64> for CompressedIntNgramIndex<N> {
    type StorageImpl = PassThroughStorage<u64>;

    type PostingsImpl = CompressedPostings;

    closed spec fn storage_view(&self) -> PassThroughStorage<u64> {
        self.storage
    }

    closed spec fn postings_view(&self) -> CompressedPostings {
        self.postings
    }

    fn get_storage(&self) -> (storage: &PassThroughStorage<u64>) {
        &self.storage
    }

    fn get_postings(&self) -> (postings: &CompressedPostings) {
        &self.postings
    }
}

impl<const N: usize> EditableInvertedIndex<Ngram<N>, u64> for CompressedIntNgramIndex<N> {
    type DictImpl = NGramDict<N>;

    type StorageImpl = PassThroughStorage<u64>;

    type PostingsImpl = CompressedPostings;

    closed spec fn dict_part(&self) -> NGramDict<N> {
        self.dict
    }

    closed spec fn storage_part(&self) -> PassThroughStorage<u64> {
        self.storage
    }

    closed spec fn postings_part(&self) -> CompressedPostings {
        self.postings
    }

    fn get_dict_mut(&mut self) -> (dict: &mut NGramDict<N>) {
        &mut self.dict
    }

    fn get_storage_mut(&mut self) -> (storage: &mut PassThroughStorage<u64>) {
        &mut self.storage
    }

    fn get_postings_mut(&mut self) -> (postings: &mut CompressedPostings) {
        &mut self.postings
    }
}

} // verus!
