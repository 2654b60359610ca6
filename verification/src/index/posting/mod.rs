//! Postings: for each posting list and term, the storage ids filed under it.

pub mod codec;
pub mod compressed;
pub mod default;
pub mod sort;
pub mod table;

use crate::error::Error;
use crate::index::posting::table::{
    all_sorted, announced, committed, materialized, posting_sorted, staged_after, stages_last_term,
    PostingIter,
};
use vstd::prelude::*;

verus! {

/// Read access to the postings of an index.
pub trait IndexPosting {
    /// What the postings must satisfy for their methods to be called.
    spec fn wf(&self) -> bool;

    /// The postings: `lists()[p][t]` holds the storage ids of term `t` in
    /// posting list `p`, in stored order.
    spec fn lists(&self) -> Seq<Seq<Seq<u64>>>;

    /// A single pass over the posting of term `term_id` in posting list
    /// `post_id`, if the list exists and has a slot for the term.
    fn posting_retriever(&self, post_id: usize, term_id: u64) -> (r: Option<PostingIter<'_>>)
        requires
            self.wf(),
        ensures
            r is Some <==> post_id < self.lists().len() && term_id < self.lists()[post_id as int].len(),
            r matches Some(iter) ==> iter.wf() && iter.remaining()
                == self.lists()[post_id as int][term_id as int],
    ;

    /// The number of posting lists.
    fn len(&self) -> (n: usize)
        requires
            self.wf(),
        ensures
            n == self.lists().len(),
    ;

    /// Whether there is no posting list.
    fn is_empty(&self) -> (b: bool)
        requires
            self.wf(),
        ensures
            b == (self.lists().len() == 0),
    {
        self.len() == 0
    }
}

/// Postings that lend out an editor.
pub trait EditableIndexPosting: IndexPosting {
    type Editor: IndexPostingEditor;

    /// Lends out the editor, with nothing announced or staged. What the editor
    /// holds when it is given back is what the postings hold from then on.
    fn editor(&mut self) -> (editor: &mut Self::Editor)
        requires
            old(self).wf(),
        ensures
            editor.wf(),
            editor.lists() == old(self).lists(),
            editor.pending() == Seq::<Map<usize, Seq<u64>>>::empty(),
            final(self).wf() == final(editor).wf(),
            final(self).lists() == final(editor).lists(),
    ;
}

/// Write access to postings: insertions are staged, then committed in bulk.
pub trait IndexPostingEditor {
    /// What the editor must satisfy for its methods to be called.
    spec fn wf(&self) -> bool;

    /// The committed postings.
    spec fn lists(&self) -> Seq<Seq<Seq<u64>>>;

    /// The staged postings: `pending()[p]` maps a term id to the storage ids
    /// that wait to be appended to its posting in list `p`.
    spec fn pending(&self) -> Seq<Map<usize, Seq<u64>>>;

    /// Makes the staging area hold at least `count` posting lists: what is
    /// staged stays, and lists that are missing come in empty.
    fn announce_term_count(&mut self, count: usize) -> (r: Result<(), Error>)
        requires
            old(self).wf(),
        ensures
            final(self).wf(),
            r is Ok,
            final(self).lists() == old(self).lists(),
            final(self).pending() == announced(old(self).pending(), count as nat),
    ;

    /// Stages `storage_id` under each of `term_ids` in posting list `post_id`,
    /// once for every occurrence of a term id. With no term ids it does
    /// nothing.
    fn insert_posts(&mut self, post_id: u16, storage_id: u64, term_ids: &[usize]) -> (r: Result<
        (),
        Error,
    >)
        requires
            old(self).wf(),
        ensures
            final(self).wf(),
            r is Ok,
            final(self).lists() == old(self).lists(),
            final(self).pending() == staged_after(
                old(self).pending(),
                post_id as nat,
                term_ids@,
                storage_id,
            ),
    ;

    /// Puts the posting of term `term_id` in posting list `posting_id` in
    /// ascending order. Refuses while anything is announced or staged. The
    /// list is made to exist first; a term without a slot is out of bounds.
    fn sort_postings(&mut self, posting_id: usize, term_id: usize) -> (r: Result<(), Error>)
        requires
            old(self).wf(),
        ensures
            final(self).wf(),
            final(self).pending() == old(self).pending(),
            old(self).pending().len() > 0 ==> r == Err::<(), Error>(Error::UnsupportedOperation)
                && final(self).lists() == old(self).lists(),
            old(self).pending().len() == 0 && posting_id == usize::MAX ==> r == Err::<(), Error>(
                Error::OutOfBounds,
            ) && final(self).lists() == old(self).lists(),
            old(self).pending().len() == 0 && posting_id < usize::MAX ==> ({
                let lists = materialized(old(self).lists(), posting_id as nat);
                if term_id < lists[posting_id as int].len() {
                    r is Ok && posting_sorted(
                        lists,
                        posting_id as int,
                        term_id as int,
                        final(self).lists(),
                    )
                } else {
                    r == Err::<(), Error>(Error::OutOfBounds) && final(self).lists() == lists
                }
            }),
    ;

    /// Puts every posting in ascending order. Refuses, changing nothing, while
    /// anything is announced or staged.
    fn sort_all_postings(&mut self) -> (r: Result<(), Error>)
        requires
            old(self).wf(),
        ensures
            final(self).wf(),
            final(self).pending() == old(self).pending(),
            r is Err <==> old(self).pending().len() > 0,
            r is Err ==> r == Err::<(), Error>(Error::UnsupportedOperation) && final(self).lists()
                == old(self).lists(),
            r is Ok ==> all_sorted(old(self).lists(), final(self).lists()),
    ;

    /// Appends everything that is staged to the postings and leaves nothing
    /// staged. Fails, changing nothing, where something is staged for the
    /// largest `usize` as a term id.
    fn commit(&mut self) -> (r: Result<(), Error>)
        requires
            old(self).wf(),
        ensures
            final(self).wf(),
            r is Err <==> stages_last_term(old(self).pending()),
            r is Err ==> r == Err::<(), Error>(Error::OutOfBounds) && final(self).lists() == old(self).lists() && final(self).pending() == old(self).pending(),
            r is Ok ==> committed(old(self).lists(), old(self).pending(), final(self).lists())
                && final(self).pending() == Seq::<Map<usize, Seq<u64>>>::empty(),
    ;
}

} // verus!
