//! The retriever for postings in any order: every storage id filed under at
//! least one of the terms.

use crate::index::posting::table::{posting_at, PostingIter};
use crate::index::posting::IndexPosting;
use crate::retrieve::options::RetrieveOptions;
use crate::retrieve::retriever::{first_seen, term_stream, terms_stream, RetrieveAlgo};
use std::collections::HashSet;
use vstd::prelude::*;

verus! {

broadcast use vstd::std_specs::hash::group_hash_axioms;

/// Hands out every storage id that is filed under at least one of the terms,
/// in one of the posting lists. Terms are taken from the last to the first,
/// and for each term the posting lists in the order given. With `unique` set
/// a storage id is handed out the first time it is met and never again.
pub struct DefaultRetriever<'a, P> where P: IndexPosting {
    postings: &'a P,
    options: RetrieveOptions,
    iter: Option<PostingIter<'a>>,
    curr_posting: usize,
    seen: HashSet<u64>,
}

impl<'a, P: IndexPosting> DefaultRetriever<'a, P> {
    /// The ids that come once the open posting is read to its end, repeats
    /// let through: the other posting lists of the term at hand, then the
    /// terms before it.
    pub closed spec fn later(&self) -> Seq<u64> {
        let terms = self.options.term_ids@;
        let lists = self.options.posting_lists@;
        if terms.len() == 0 {
            Seq::empty()
        } else {
            term_stream(self.postings.lists(), terms.last(), lists.skip(self.curr_posting as int))
                + terms_stream(self.postings.lists(), terms.drop_last(), lists)
        }
    }

    /// The ids that are still to come when repeats are let through: what is
    /// left of the open posting, then what comes later.
    pub closed spec fn pending(&self) -> Seq<u64> {
        let open = match self.iter {
            Some(iter) => iter.remaining(),
            None => Seq::empty(),
        };
        open + self.later()
    }

    /// The id of the term at hand: the last of those that are left.
    fn curr_term_id(&self) -> (id: Option<u64>)
        ensures
            id == if self.options.term_ids@.len() > 0 {
                Some(self.options.term_ids@.last())
            } else {
                None
            },
    {
        let n = self.options.term_ids.len();
        if n == 0 {
            None
        } else {
            Some(self.options.term_ids[n - 1])
        }
    }
}

/// The stream of terms taken from the last one unfolds into the stream of
/// the last term and the stream of the terms before it.
proof fn lemma_term_stream_skip(lists: Seq<Seq<Seq<u64>>>, term: u64, posting_lists: Seq<u16>, k: int)
    requires
        0 <= k < posting_lists.len(),
    ensures
        term_stream(lists, term, posting_lists.skip(k)) == posting_at(
            lists,
            posting_lists[k] as int,
            term as int,
        ) + term_stream(lists, term, posting_lists.skip(k + 1)),
{
    assert(posting_lists.skip(k).drop_first() == posting_lists.skip(k + 1));
}

impl<'a, P: IndexPosting> RetrieveAlgo<'a, P> for DefaultRetriever<'a, P> {
    closed spec fn wf(&self) -> bool {
        &&& self.postings.wf()
        &&& self.curr_posting <= self.options.posting_lists@.len()
        &&& self.iter matches Some(iter) ==> iter.wf()
    }

    closed spec fn remaining(&self) -> Seq<u64> {
        if self.options.unique {
            first_seen(self.seen@, self.pending())
        } else {
            self.pending()
        }
    }

    open spec fn stream(
        lists: Seq<Seq<Seq<u64>>>,
        term_ids: Seq<u64>,
        posting_lists: Seq<u16>,
        unique: bool,
    ) -> Seq<u64> {
        let all = terms_stream(lists, term_ids, posting_lists);
        if unique {
            first_seen(Set::empty(), all)
        } else {
            all
        }
    }

    fn new(postings: &'a P, options: RetrieveOptions) -> (retriever: Self) {
        let retriever = Self {
            postings,
            options,
            iter: None,
            curr_posting: 0,
            seen: HashSet::new(),
        };
        proof {
            let terms = options.term_ids@;
            let lists = options.posting_lists@;
            assert(lists.skip(0) == lists);
            assert(Seq::<u64>::empty() + retriever.later() == retriever.later());
        }
        retriever
    }

    fn next(&mut self) -> (r: Option<u64>) {
        loop
            invariant
                self.wf(),
                self.remaining() == old(self).remaining(),
            decreases
                    self.options.term_ids@.len(),
                    self.options.posting_lists@.len() - self.curr_posting,
                    (match self.iter {
                        Some(iter) => iter.remaining().len() + 1,
                        None => 0,
                    }),
        {
            let ghost lists = self.postings.lists();
            let ghost terms = self.options.term_ids@;
            let ghost named = self.options.posting_lists@;
            let ghost later = self.later();
            let ghost seen = self.seen@;
            let unique = self.options.unique;
            let mut open_iter: Option<PostingIter<'a>> = None;
            core::mem::swap(&mut self.iter, &mut open_iter);
            assert(self.later() == later);
            if let Some(mut iter) = open_iter {
                let ghost open = iter.remaining();
                match iter.next() {
                    Some(id) => {
                        self.iter = Some(iter);
                        proof {
                            assert(self.later() == later);
                            assert(self.pending() == open.drop_first() + later);
                            assert((open + later).drop_first() == open.drop_first() + later);
                            assert((open + later)[0] == id);
                        }
                        if !unique {
                            return Some(id);
                        }
                        let fresh = !self.seen.contains(&id);
                        if fresh {
                            self.seen.insert(id);
                            proof {
                                assert(self.later() == later);
                                assert(self.pending() == open.drop_first() + later);
                                assert(seq![id] + first_seen(
                                    seen.insert(id),
                                    open.drop_first() + later,
                                ) == first_seen(seen, open + later));
                                assert((seq![id] + first_seen(
                                    seen.insert(id),
                                    open.drop_first() + later,
                                )).drop_first() == first_seen(
                                    seen.insert(id),
                                    open.drop_first() + later,
                                ));
                            }
                            return Some(id);
                        }
                    },
                    None => {
                        proof {
                            assert(open + later == Seq::<u64>::empty() + later);
                        }
                    },
                }
            } else if self.curr_posting >= self.options.posting_lists.len() {
                if self.options.term_ids.len() == 0 {
                    proof {
                        assert(Seq::<u64>::empty() + later == Seq::<u64>::empty());
                        assert(first_seen(seen, Seq::<u64>::empty()) == Seq::<u64>::empty());
                    }
                    return None;
                }
                proof {
                    assert(named.skip(self.curr_posting as int) == Seq::<u16>::empty());
                    assert(term_stream(lists, terms.last(), Seq::<u16>::empty()) == Seq::<
                        u64,
                    >::empty());
                    assert(named.skip(0) == named);
                    assert(later == terms_stream(lists, terms.drop_last(), named)) by {
                        assert(Seq::<u64>::empty() + terms_stream(lists, terms.drop_last(), named)
                            == terms_stream(lists, terms.drop_last(), named));
                    }
                }
                self.curr_posting = 0;
                self.options.term_ids.pop();
                proof {
                    assert(self.options.term_ids@ == terms.drop_last());
                    assert(self.later() == later);
                }
            } else {
                let curr_term = match self.curr_term_id() {
                    Some(term) => term,
                    None => {
                        proof {
                            assert(Seq::<u64>::empty() + later == Seq::<u64>::empty());
                            assert(first_seen(seen, Seq::<u64>::empty()) == Seq::<u64>::empty());
                        }
                        return None;
                    },
                };
                let list: u16 = self.options.posting_lists[self.curr_posting];
                proof {
                    lemma_term_stream_skip(lists, curr_term, named, self.curr_posting as int);
                    let here = posting_at(lists, list as int, curr_term as int);
                    let after = term_stream(lists, curr_term, named.skip(self.curr_posting + 1));
                    let earlier = terms_stream(lists, terms.drop_last(), named);
                    assert(later == here + after + earlier);
                    assert(here + after + earlier == here + (after + earlier));
                    assert(Seq::<u64>::empty() + later == later);
                    assert(here == Seq::<u64>::empty() ==> Seq::<u64>::empty() + (after + earlier)
                        == here + (after + earlier));
                }
                self.iter = self.postings.posting_retriever(list as usize, curr_term);
                self.curr_posting = self.curr_posting + 1;
            }
        }
    }
}

} // verus!
