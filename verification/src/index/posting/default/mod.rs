//! Postings whose records hold storage ids as eight big-endian bytes each.

pub mod editor;

use crate::index::posting::default::editor::DefaultPostingEditor;
use crate::error::Error;
use crate::index::posting::table::{record_lists, records_wf, PostingIter};
use crate::index::posting::{EditableIndexPosting, IndexPosting, IndexPostingEditor};
use vstd::prelude::*;

verus! {

/// Posting lists with one record per term, ids stored as eight big-endian bytes each.
pub struct DefaultPostings {
    /// The write half, which owns the records.
    editor: DefaultPostingEditor,
}

impl DefaultPostings {
    /// Postings without any posting list.
    pub fn new() -> (postings: Self)
        ensures
            postings.wf(),
            postings.lists() == Seq::<Seq<Seq<u64>>>::empty(),
    {
        DefaultPostings { editor: DefaultPostingEditor::new() }
    }

    /// Postings without any posting list. The capacity is a hint and changes
    /// nothing that can be observed.
    pub fn with_capacity(capacity: usize) -> (postings: Self)
        ensures
            postings.wf(),
            postings.lists() == Seq::<Seq<Seq<u64>>>::empty(),
    {
        DefaultPostings::new()
    }

    /// The postings that hold these records: `records[p][t]` is the record of
    /// term `t` in posting list `p`, as `into_records` handed it out. Bytes
    /// that are not the encoding of some storage ids are refused.
    pub fn from_records(records: Vec<Vec<Vec<u8>>>) -> (r: Result<Self, Error>)
        ensures
            match r {
                Ok(postings) => {
                    &&& postings.wf()
                    &&& records_wf(records@, false)
                    &&& postings.lists() == record_lists(records@, false)
                },
                Err(e) => e == Error::Internal && !records_wf(records@, false),
            },
    {
        match DefaultPostingEditor::from_records(records) {
            Ok(editor) => Ok(DefaultPostings { editor }),
            Err(e) => Err(e),
        }
    }

    /// Gives up the postings for their records.
    pub fn into_records(self) -> (records: Vec<Vec<Vec<u8>>>)
        requires
            self.wf(),
        ensures
            records_wf(records@, false),
            record_lists(records@, false) == self.lists(),
    {
        self.editor.into_records()
    }

    /// The number of posting lists.
    pub fn posting_list_count(&self) -> (n: usize)
        requires
            self.wf(),
        ensures
            n == self.lists().len(),
    {
        self.editor.posting_list_count()
    }
}

impl IndexPosting for DefaultPostings {
    closed spec fn wf(&self) -> bool {
        self.editor.wf()
    }

    closed spec fn lists(&self) -> Seq<Seq<Seq<u64>>> {
        self.editor.lists()
    }

    fn posting_retriever(&self, post_id: usize, term_id: u64) -> (r: Option<PostingIter<'_>>) {
        self.editor.posting_retriever(post_id, term_id)
    }

    fn len(&self) -> (n: usize) {
        self.editor.posting_list_count()
    }
}

impl EditableIndexPosting for DefaultPostings {
    type Editor = DefaultPostingEditor;

    fn editor(&mut self) -> (editor: &mut DefaultPostingEditor) {
        self.editor.discard_pending();
        &mut self.editor
    }
}

} // verus!
