//! What a retriever is asked for.

use vstd::prelude::*;

verus! {

/// The terms and posting lists that a retriever looks at, and how.
pub struct RetrieveOptions {
    /// The posting lists to look in.
    pub posting_lists: Vec<u16>,
    /// The ids of the terms to look for.
    pub term_ids: Vec<u64>,
    /// Whether a storage id is handed out once only.
    pub unique: bool,
    /// An upper bound on the number of results; zero for none. Kept for
    /// callers, no retriever reads it.
    pub limit: usize,
}

impl Default for RetrieveOptions {
    /// Posting list 0, no terms, repeats allowed, no limit.
    fn default() -> (options: Self)
        ensures
            options.posting_lists@ == seq![0u16],
            options.term_ids@ == Seq::<u64>::empty(),
            !options.unique,
            options.limit == 0,
    {
        let mut posting_lists: Vec<u16> = Vec::new();
        posting_lists.push(0);
        assert(posting_lists@ =~= seq![0u16]);
        Self { posting_lists, term_ids: Vec::new(), unique: false, limit: 0 }
    }
}

impl Clone for RetrieveOptions {
    fn clone(&self) -> (options: Self)
        ensures
            options.posting_lists@ == self.posting_lists@,
            options.term_ids@ == self.term_ids@,
            options.unique == self.unique,
            options.limit == self.limit,
    {
        let posting_lists = self.posting_lists.clone();
        let term_ids = self.term_ids.clone();
        assert(posting_lists@ =~= self.posting_lists@);
        assert(term_ids@ =~= self.term_ids@);
        Self { posting_lists, term_ids, unique: self.unique, limit: self.limit }
    }
}

} // verus!
