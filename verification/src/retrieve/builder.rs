//! Putting together what a retriever is asked for.

use crate::index::dict::table::is_first_at;
use crate::index::dict::{id_after, term_forms, IndexDictionary};
use crate::index::posting::IndexPosting;
use crate::index::traits::index::{InvertedIndex, InvertedIndexDict};
use crate::retrieve::options::RetrieveOptions;
use crate::retrieve::retriever::RetrieveAlgo;
use crate::traits::deser::Deser;
use vstd::prelude::*;
use vstd::slice::slice_to_vec;

verus! {

/// The ids of those of the terms that the dictionary holds, in the order of
/// the terms. A term that the dictionary does not hold is passed over.
pub open spec fn known_ids(dict: Seq<Seq<u8>>, forms: Seq<Seq<u8>>) -> Seq<u64>
    decreases forms.len(),
{
    if forms.len() == 0 {
        Seq::empty()
    } else {
        let before = known_ids(dict, forms.drop_last());
        if dict.contains(forms.last()) {
            before.push(id_after(dict, forms.last(), true) as u64)
        } else {
            before
        }
    }
}

/// The posting lists with the ids from zero up to, not including, `count`.
pub open spec fn all_lists(count: nat) -> Seq<u16> {
    Seq::new(count, |i: int| i as u16)
}

/// Collects terms and posting lists, then makes the retriever for them.
pub struct RetrieverBuilder<'a, P, I> {
    /// The index whose postings are read.
    pub index: &'a I,
    /// The postings of that index.
    pub postings: &'a P,
    /// What was collected so far.
    pub options: RetrieveOptions,
}

impl<'a, P: IndexPosting, I> RetrieverBuilder<'a, P, I> {
    /// A builder over `index` that looks in posting list 0 and has no terms
    /// yet.
    pub fn new<T: Deser, S: Deser>(index: &'a I) -> (builder: Self) where
        I: InvertedIndex<T, S, PostingsImpl = P>,

        ensures
            builder.index == index,
            *builder.postings == index.postings_view(),
            builder.options.posting_lists@ == seq![0u16],
            builder.options.term_ids@ == Seq::<u64>::empty(),
            !builder.options.unique,
            builder.options.limit == 0,
    {
        let postings = index.get_postings();
        Self { index, postings, options: RetrieveOptions::default() }
    }

    /// Adds a term by its id.
    pub fn add_term_id(&mut self, term: u64)
        ensures
            final(self).options.term_ids@ == old(self).options.term_ids@.push(term),
            final(self).options.posting_lists == old(self).options.posting_lists,
            final(self).options.unique == old(self).options.unique,
            final(self).options.limit == old(self).options.limit,
            final(self).index == old(self).index,
            final(self).postings == old(self).postings,
    {
        self.options.term_ids.push(term);
    }

    /// Asks that a storage id be handed out once only.
    pub fn unique(self) -> (builder: Self)
        ensures
            builder.options.unique,
            builder.options.term_ids == self.options.term_ids,
            builder.options.posting_lists == self.options.posting_lists,
            builder.options.limit == self.options.limit,
            builder.index == self.index,
            builder.postings == self.postings,
    {
        let mut builder = self;
        builder.options.unique = true;
        builder
    }

    /// Replaces the terms by those with the ids `ids`.
    pub fn with_term_ids(self, ids: &[u64]) -> (builder: Self)
        ensures
            builder.options.term_ids@ == ids@,
            builder.options.unique == self.options.unique,
            builder.options.posting_lists == self.options.posting_lists,
            builder.options.limit == self.options.limit,
            builder.index == self.index,
            builder.postings == self.postings,
    {
        let mut builder = self;
        builder.options.term_ids = slice_to_vec(ids);
        builder
    }

    /// Replaces the posting lists to look in.
    pub fn in_posting_lists(self, post_lists: &[u16]) -> (builder: Self)
        ensures
            builder.options.posting_lists@ == post_lists@,
            builder.options.unique == self.options.unique,
            builder.options.term_ids == self.options.term_ids,
            builder.options.limit == self.options.limit,
            builder.index == self.index,
            builder.postings == self.postings,
    {
        let mut builder = self;
        builder.options.posting_lists = slice_to_vec(post_lists);
        builder
    }

    /// Adds those of `terms` that the dictionary of the index holds, each by
    /// its id. The others are passed over: they match nothing.
    pub fn add_terms<T: Deser>(&mut self, terms: &[T]) -> (r: Option<()>) where
        I: InvertedIndexDict<T>,

        requires
            old(self).index.dict_view().wf(),
        ensures
            r is Some,
            final(self).options.term_ids@ == old(self).options.term_ids@ + known_ids(
                old(self).index.dict_view().terms(),
                term_forms(terms@),
            ),
            final(self).options.posting_lists == old(self).options.posting_lists,
            final(self).options.unique == old(self).options.unique,
            final(self).options.limit == old(self).options.limit,
            final(self).index == old(self).index,
            final(self).postings == old(self).postings,
    {
        let dict = self.index.get_dict();
        let ghost held = dict.terms();
        let ghost forms = term_forms(terms@);
        let ghost start = self.options.term_ids@;
        let mut i: usize = 0;
        proof {
            assert(forms.take(0) == Seq::<Seq<u8>>::empty());
            assert(start + Seq::<u64>::empty() == start);
        }
        while i < terms.len()
            invariant
                i <= terms.len(),
                dict.wf(),
                held == dict.terms(),
                forms == term_forms(terms@),
                self.options.term_ids@ == start + known_ids(held, forms.take(i as int)),
                self.options.posting_lists == old(self).options.posting_lists,
                self.options.unique == old(self).options.unique,
                self.options.limit == old(self).options.limit,
                self.index == old(self).index,
                self.postings == old(self).postings,
            decreases terms.len() - i,
        {
            proof {
                assert(forms.take(i + 1).drop_last() == forms.take(i as int));
                assert(forms.take(i + 1).last() == terms@[i as int].encoding());
            }
            if let Some(term_id) = dict.term_id(&terms[i]) {
                proof {
                    crate::index::dict::lemma_id_after(
                        held,
                        terms@[i as int].encoding(),
                        true,
                        term_id as int,
                    );
                    let before = known_ids(held, forms.take(i as int));
                    assert(start + before.push(term_id as u64) == (start + before).push(
                        term_id as u64,
                    ));
                }
                self.options.term_ids.push(term_id as u64);
            }
            i = i + 1;
        }
        proof {
            assert(forms.take(i as int) == forms);
        }
        Some(())
    }

    /// Adds `term` by its id, if the dictionary of the index holds it.
    pub fn add_term<T: Deser>(&mut self, term: &T) -> (r: Option<()>) where I: InvertedIndexDict<T>
        requires
            old(self).index.dict_view().wf(),
        ensures
            r is Some <==> old(self).index.dict_view().terms().contains(term.encoding()),
            r is Some ==> final(self).options.term_ids@.len() == old(self).options.term_ids@.len()
                + 1 && final(self).options.term_ids@.drop_last() == old(self).options.term_ids@
                && is_first_at(
                old(self).index.dict_view().terms(),
                term.encoding(),
                final(self).options.term_ids@.last() as int,
            ),
            r is None ==> final(self).options.term_ids == old(self).options.term_ids,
            final(self).options.posting_lists == old(self).options.posting_lists,
            final(self).options.unique == old(self).options.unique,
            final(self).options.limit == old(self).options.limit,
            final(self).index == old(self).index,
            final(self).postings == old(self).postings,
    {
        let dict = self.index.get_dict();
        match dict.term_id(term) {
            Some(tid) => {
                let ghost before = self.options.term_ids@;
                self.options.term_ids.push(tid as u64);
                assert(before.push(tid as u64).drop_last() == before);
                Some(())
            },
            None => None,
        }
    }

    /// Looks in all the posting lists that the postings have.
    pub fn in_all_postings(&mut self)
        requires
            old(self).postings.wf(),
            old(self).postings.lists().len() <= u16::MAX,
        ensures
            final(self).options.posting_lists@ == all_lists(old(self).postings.lists().len()),
            final(self).options.term_ids == old(self).options.term_ids,
            final(self).options.unique == old(self).options.unique,
            final(self).options.limit == old(self).options.limit,
            final(self).index == old(self).index,
            final(self).postings == old(self).postings,
    {
        let len: u16 = self.postings.len() as u16;
        let mut lists: Vec<u16> = Vec::with_capacity(len as usize);
        let mut i: u16 = 0;
        while i < len
            invariant
                i <= len,
                lists@ == all_lists(i as nat),
            decreases len - i,
        {
            lists.push(i);
            assert(lists@ =~= all_lists((i + 1) as nat));
            i = i + 1;
        }
        self.options.posting_lists = lists;
    }

    /// The retriever of the kind asked for, over what was collected.
    pub fn retriever<A: RetrieveAlgo<'a, P>>(&'a self) -> (retriever: A)
        requires
            self.postings.wf(),
        ensures
            retriever.wf(),
            retriever.remaining() == A::stream(
                self.postings.lists(),
                self.options.term_ids@,
                self.options.posting_lists@,
                self.options.unique,
            ),
    {
        let options = self.options.clone();
        proof {
            assert(options.posting_lists@ == self.options.posting_lists@);
        }
        A::new(self.postings, options)
    }
}

} // verus!
