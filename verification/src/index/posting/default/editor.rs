//! The write half of postings that store ids as eight big-endian bytes each.

use crate::error::Error;
use crate::index::posting::table::{
    list_committed, record_lists, records_wf, staged_ids, staged_wf, PostingIter, PostingTable,
};
use crate::index::posting::IndexPostingEditor;
use std::collections::HashMap;
use vstd::prelude::*;

verus! {

/// Stages insertions into posting lists and commits them in bulk. Ids are
/// stored as eight big-endian bytes each.
pub struct DefaultPostingEditor {
    table: PostingTable,
}

impl DefaultPostingEditor {
    /// An editor over no posting lists, with nothing staged.
    pub(super) fn new() -> (editor: Self)
        ensures
            editor.wf(),
            editor.lists() == Seq::<Seq<Seq<u64>>>::empty(),
            editor.pending() == Seq::<Map<usize, Seq<u64>>>::empty(),
    {
        DefaultPostingEditor { table: PostingTable::new(false) }
    }

    /// An editor over the postings that hold these records, with nothing
    /// staged. Bytes that are not the encoding of some storage ids are
    /// refused.
    pub(super) fn from_records(records: Vec<Vec<Vec<u8>>>) -> (r: Result<Self, Error>)
        ensures
            match r {
                Ok(editor) => {
                    &&& editor.wf()
                    &&& editor.pending() == Seq::<Map<usize, Seq<u64>>>::empty()
                    &&& records_wf(records@, false)
                    &&& editor.lists() == record_lists(records@, false)
                },
                Err(e) => e == Error::Internal && !records_wf(records@, false),
            },
    {
        match PostingTable::from_records(records, false) {
            Ok(table) => Ok(DefaultPostingEditor { table }),
            Err(e) => Err(e),
        }
    }

    /// Gives up the editor for its records. What is staged is dropped.
    pub(super) fn into_records(self) -> (records: Vec<Vec<Vec<u8>>>)
        requires
            self.wf(),
        ensures
            records_wf(records@, false),
            record_lists(records@, false) == self.lists(),
    {
        self.table.into_records()
    }

    /// Drops what is announced and staged.
    pub(super) fn discard_pending(&mut self)
        requires
            old(self).wf(),
        ensures
            final(self).wf(),
            final(self).lists() == old(self).lists(),
            final(self).pending() == Seq::<Map<usize, Seq<u64>>>::empty(),
    {
        self.table.discard_pending();
    }

    /// The number of posting lists.
    pub fn posting_list_count(&self) -> (n: usize)
        requires
            self.wf(),
        ensures
            n == self.lists().len(),
    {
        self.table.posting_list_count()
    }

    /// A single pass over the committed posting of term `term_id` in posting
    /// list `post_id`, if the list exists and has a slot for the term.
    pub fn posting_retriever(&self, post_id: usize, term_id: u64) -> (r: Option<PostingIter<'_>>)
        requires
            self.wf(),
        ensures
            r is Some <==> post_id < self.lists().len() && term_id < self.lists()[post_id as int].len(),
            r matches Some(iter) ==> iter.wf() && iter.remaining()
                == self.lists()[post_id as int][term_id as int],
    {
        self.table.posting_retriever(post_id, term_id)
    }

    /// Appends the blobs of `postings` to the records of posting list
    /// `post_id`: takes the term ids in ascending order, makes the list and a
    /// slot for the largest of them exist, and appends each blob to the record
    /// of its term. Every blob has to be the encoding of some storage ids.
    /// Fails, changing nothing, where the list or a term has the largest
    /// `usize` as its id.
    pub fn commit_postings(&mut self, post_id: usize, postings: HashMap<usize, Vec<u8>>) -> (r:
        Result<(), Error>)
        requires
            old(self).wf(),
            !postings@.is_empty(),
            staged_wf(postings@, false),
        ensures
            final(self).wf(),
            final(self).pending() == old(self).pending(),
            r is Err <==> post_id == usize::MAX || postings@.contains_key(usize::MAX),
            r is Err ==> r == Err::<(), Error>(Error::OutOfBounds) && final(self).lists() == old(self).lists(),
            r is Ok ==> list_committed(
                old(self).lists(),
                post_id as nat,
                staged_ids(postings@, false),
                final(self).lists(),
            ),
    {
        self.table.commit_postings(post_id, postings)
    }
}

impl IndexPostingEditor for DefaultPostingEditor {
    closed spec fn wf(&self) -> bool {
        self.table.wf() && !self.table.compressed()
    }

    closed spec fn lists(&self) -> Seq<Seq<Seq<u64>>> {
        self.table.lists()
    }

    closed spec fn pending(&self) -> Seq<Map<usize, Seq<u64>>> {
        self.table.pending()
    }

    fn announce_term_count(&mut self, count: usize) -> (r: Result<(), Error>) {
        self.table.announce_term_count(count);
        Ok(())
    }

    fn insert_posts(&mut self, post_id: u16, storage_id: u64, term_ids: &[usize]) -> (r: Result<
        (),
        Error,
    >) {
        self.table.insert_posts(post_id, storage_id, term_ids);
        Ok(())
    }

    fn sort_postings(&mut self, posting_id: usize, term_id: usize) -> (r: Result<(), Error>) {
        self.table.sort_postings(posting_id, term_id)
    }

    fn sort_all_postings(&mut self) -> (r: Result<(), Error>) {
        self.table.sort_all_postings()
    }

    fn commit(&mut self) -> (r: Result<(), Error>) {
        self.table.commit()
    }
}

} // verus!
