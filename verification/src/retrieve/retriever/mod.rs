//! The algorithms that turn postings into a stream of storage ids.

pub mod all_terms;
pub mod default;

use crate::index::posting::table::posting_at;
use crate::index::posting::IndexPosting;
use crate::retrieve::options::RetrieveOptions;
use vstd::prelude::*;

verus! {

/// The storage ids filed under `term` in the posting lists `posting_lists`,
/// list after list in the order given.
pub open spec fn term_stream(lists: Seq<Seq<Seq<u64>>>, term: u64, posting_lists: Seq<u16>) -> Seq<
    u64,
>
    decreases posting_lists.len(),
{
    if posting_lists.len() == 0 {
        Seq::empty()
    } else {
        posting_at(lists, posting_lists[0] as int, term as int) + term_stream(
            lists,
            term,
            posting_lists.drop_first(),
        )
    }
}

/// The storage ids filed under any of `term_ids` in the posting lists
/// `posting_lists`: term after term from the last to the first, and for each
/// term list after list in the order given.
pub open spec fn terms_stream(
    lists: Seq<Seq<Seq<u64>>>,
    term_ids: Seq<u64>,
    posting_lists: Seq<u16>,
) -> Seq<u64>
    decreases term_ids.len(),
{
    if term_ids.len() == 0 {
        Seq::empty()
    } else {
        term_stream(lists, term_ids.last(), posting_lists) + terms_stream(
            lists,
            term_ids.drop_last(),
            posting_lists,
        )
    }
}

/// `ids` without the ids in `seen` and without repeats: of each id the first
/// occurrence stays.
pub open spec fn first_seen(seen: Set<u64>, ids: Seq<u64>) -> Seq<u64>
    decreases ids.len(),
{
    if ids.len() == 0 {
        Seq::empty()
    } else if seen.contains(ids[0]) {
        first_seen(seen, ids.drop_first())
    } else {
        seq![ids[0]] + first_seen(seen.insert(ids[0]), ids.drop_first())
    }
}

/// The storage ids filed under at least one of `term_ids` in at least one of
/// the posting lists `posting_lists`.
pub open spec fn union_of(lists: Seq<Seq<Seq<u64>>>, term_ids: Seq<u64>, posting_lists: Seq<u16>) -> Set<
    u64,
> {
    Set::new(
        |id: u64|
            exists|i: int, j: int|
                0 <= i < term_ids.len() && 0 <= j < posting_lists.len() && #[trigger] posting_at(
                    lists,
                    posting_lists[j] as int,
                    term_ids[i] as int,
                ).contains(id),
    )
}

/// The stream of one term holds exactly the ids of its postings in the
/// posting lists named.
pub proof fn lemma_term_stream_holds(
    lists: Seq<Seq<Seq<u64>>>,
    term: u64,
    posting_lists: Seq<u16>,
    id: u64,
)
    ensures
        term_stream(lists, term, posting_lists).contains(id) <==> exists|j: int|
            0 <= j < posting_lists.len() && #[trigger] posting_at(
                lists,
                posting_lists[j] as int,
                term as int,
            ).contains(id),
    decreases posting_lists.len(),
{
    if posting_lists.len() > 0 {
        let first = posting_at(lists, posting_lists[0] as int, term as int);
        let rest = term_stream(lists, term, posting_lists.drop_first());
        lemma_term_stream_holds(lists, term, posting_lists.drop_first(), id);
        vstd::seq_lib::lemma_seq_concat_contains_all_elements(first, rest, id);
        if rest.contains(id) {
            let j = choose|j: int|
                0 <= j < posting_lists.drop_first().len() && #[trigger] posting_at(
                    lists,
                    posting_lists.drop_first()[j] as int,
                    term as int,
                ).contains(id);
            assert(posting_lists.drop_first()[j] == posting_lists[j + 1]);
            assert(posting_at(lists, posting_lists[j + 1] as int, term as int).contains(id));
        }
        if exists|j: int|
            0 <= j < posting_lists.len() && #[trigger] posting_at(
                lists,
                posting_lists[j] as int,
                term as int,
            ).contains(id) {
            let j = choose|j: int|
                0 <= j < posting_lists.len() && #[trigger] posting_at(
                    lists,
                    posting_lists[j] as int,
                    term as int,
                ).contains(id);
            if j > 0 {
                assert(posting_lists.drop_first()[j - 1] == posting_lists[j]);
                assert(posting_at(
                    lists,
                    posting_lists.drop_first()[j - 1] as int,
                    term as int,
                ).contains(id));
            }
        }
    }
}

/// The stream of some terms holds exactly the ids filed under at least one
/// of them in at least one of the posting lists named.
pub proof fn lemma_terms_stream_holds(
    lists: Seq<Seq<Seq<u64>>>,
    term_ids: Seq<u64>,
    posting_lists: Seq<u16>,
    id: u64,
)
    ensures
        terms_stream(lists, term_ids, posting_lists).contains(id) <==> union_of(
            lists,
            term_ids,
            posting_lists,
        ).contains(id),
    decreases term_ids.len(),
{
    if term_ids.len() > 0 {
        let last = term_stream(lists, term_ids.last(), posting_lists);
        let rest = terms_stream(lists, term_ids.drop_last(), posting_lists);
        lemma_terms_stream_holds(lists, term_ids.drop_last(), posting_lists, id);
        lemma_term_stream_holds(lists, term_ids.last(), posting_lists, id);
        vstd::seq_lib::lemma_seq_concat_contains_all_elements(last, rest, id);
        if rest.contains(id) {
            let (i, j) = choose|i: int, j: int|
                0 <= i < term_ids.drop_last().len() && 0 <= j < posting_lists.len()
                    && #[trigger] posting_at(
                    lists,
                    posting_lists[j] as int,
                    term_ids.drop_last()[i] as int,
                ).contains(id);
            assert(term_ids.drop_last()[i] == term_ids[i]);
            assert(posting_at(lists, posting_lists[j] as int, term_ids[i] as int).contains(id));
        }
        if last.contains(id) {
            let j = choose|j: int|
                0 <= j < posting_lists.len() && #[trigger] posting_at(
                    lists,
                    posting_lists[j] as int,
                    term_ids.last() as int,
                ).contains(id);
            assert(posting_at(
                lists,
                posting_lists[j] as int,
                term_ids[term_ids.len() - 1] as int,
            ).contains(id));
        }
        if union_of(lists, term_ids, posting_lists).contains(id) {
            let (i, j) = choose|i: int, j: int|
                0 <= i < term_ids.len() && 0 <= j < posting_lists.len() && #[trigger] posting_at(
                    lists,
                    posting_lists[j] as int,
                    term_ids[i] as int,
                ).contains(id);
            if i < term_ids.len() - 1 {
                assert(term_ids.drop_last()[i] == term_ids[i]);
                assert(posting_at(
                    lists,
                    posting_lists[j] as int,
                    term_ids.drop_last()[i] as int,
                ).contains(id));
            }
        }
    }
}

/// Dropping repeats keeps every id that was not seen before, once.
pub proof fn lemma_first_seen(seen: Set<u64>, ids: Seq<u64>)
    ensures
        first_seen(seen, ids).no_duplicates(),
        forall|id: u64| #[trigger]
            first_seen(seen, ids).contains(id) <==> ids.contains(id) && !seen.contains(id),
    decreases ids.len(),
{
    if ids.len() > 0 {
        let head = ids[0];
        let tail = ids.drop_first();
        assert(ids == seq![head] + tail);
        if seen.contains(head) {
            lemma_first_seen(seen, tail);
            assert forall|id: u64| #[trigger]
                first_seen(seen, ids).contains(id) <==> ids.contains(id) && !seen.contains(id) by {
                vstd::seq_lib::lemma_seq_concat_contains_all_elements(seq![head], tail, id);
                assert(seq![head].contains(id) <==> id == head) by {
                    if id == head {
                        assert(seq![head][0] == id);
                    }
                }
            }
        } else {
            lemma_first_seen(seen.insert(head), tail);
            let rest = first_seen(seen.insert(head), tail);
            assert(!rest.contains(head));
            assert(first_seen(seen, ids) == seq![head] + rest);
            assert forall|a: int, b: int|
                0 <= a < b < first_seen(seen, ids).len() implies first_seen(seen, ids)[a]
                != first_seen(seen, ids)[b] by {
                if a == 0 {
                    assert(rest.contains(rest[b - 1]));
                } else {
                    assert(rest[a - 1] != rest[b - 1]);
                }
            }
            assert forall|id: u64| #[trigger]
                first_seen(seen, ids).contains(id) <==> ids.contains(id) && !seen.contains(id) by {
                vstd::seq_lib::lemma_seq_concat_contains_all_elements(seq![head], tail, id);
                vstd::seq_lib::lemma_seq_concat_contains_all_elements(seq![head], rest, id);
                assert(seq![head].contains(id) <==> id == head) by {
                    if id == head {
                        assert(seq![head][0] == id);
                    }
                }
            }
        }
    }
}

/// Retrieval with `unique` set hands out no storage id twice, and hands out
/// exactly the storage ids filed under at least one of the terms in at least
/// one of the posting lists named. Without `unique` the same ids are handed
/// out, possibly more than once.
pub proof fn lemma_union_retrieval(
    lists: Seq<Seq<Seq<u64>>>,
    term_ids: Seq<u64>,
    posting_lists: Seq<u16>,
)
    ensures
        first_seen(Set::empty(), terms_stream(lists, term_ids, posting_lists)).no_duplicates(),
        first_seen(Set::empty(), terms_stream(lists, term_ids, posting_lists)).to_set()
            == union_of(lists, term_ids, posting_lists),
        terms_stream(lists, term_ids, posting_lists).to_set() == union_of(
            lists,
            term_ids,
            posting_lists,
        ),
{
    let all = terms_stream(lists, term_ids, posting_lists);
    let once = first_seen(Set::empty(), all);
    lemma_first_seen(Set::empty(), all);
    assert forall|id: u64| once.to_set().contains(id) <==> union_of(
        lists,
        term_ids,
        posting_lists,
    ).contains(id) by {
        lemma_terms_stream_holds(lists, term_ids, posting_lists, id);
        assert(once.contains(id) <==> all.contains(id));
    }
    assert forall|id: u64| all.to_set().contains(id) <==> union_of(
        lists,
        term_ids,
        posting_lists,
    ).contains(id) by {
        lemma_terms_stream_holds(lists, term_ids, posting_lists, id);
    }
    assert(once.to_set() =~= union_of(lists, term_ids, posting_lists));
    assert(all.to_set() =~= union_of(lists, term_ids, posting_lists));
}

/// A retrieval algorithm: a single pass over the storage ids that match the
/// options.
pub trait RetrieveAlgo<'a, P: IndexPosting>: Sized {
    /// What the retriever must satisfy for its methods to be called.
    spec fn wf(&self) -> bool;

    /// The storage ids that are still to come, next one first.
    spec fn remaining(&self) -> Seq<u64>;

    /// The storage ids that the algorithm hands out for these postings,
    /// terms and posting lists, from the first to the last. `unique` says
    /// whether a storage id is to be handed out once only.
    spec fn stream(
        lists: Seq<Seq<Seq<u64>>>,
        term_ids: Seq<u64>,
        posting_lists: Seq<u16>,
        unique: bool,
    ) -> Seq<u64>;

    /// A retriever over `postings` that is yet to hand out its first id.
    fn new(postings: &'a P, options: RetrieveOptions) -> (retriever: Self)
        requires
            postings.wf(),
        ensures
            retriever.wf(),
            retriever.remaining() == Self::stream(
                postings.lists(),
                options.term_ids@,
                options.posting_lists@,
                options.unique,
            ),
    ;

    /// Hands out the next storage id, or `None` once all were handed out.
    fn next(&mut self) -> (r: Option<u64>)
        requires
            old(self).wf(),
        ensures
            final(self).wf(),
            match r {
                Some(id) => old(self).remaining().len() > 0 && id == old(self).remaining()[0]
                    && final(self).remaining() == old(self).remaining().drop_first(),
                None => old(self).remaining().len() == 0 && final(self).remaining().len() == 0,
            },
    ;

    /// Hands out all the storage ids that are still to come.
    fn collect(self) -> (ids: Vec<u64>)
        requires
            self.wf(),
        ensures
            ids@ == self.remaining(),
    {
        let mut retriever = self;
        let mut ids: Vec<u64> = Vec::new();
        loop
            invariant
                retriever.wf(),
                ids@ + retriever.remaining() == self.remaining(),
            ensures
                ids@ == self.remaining(),
            decreases retriever.remaining().len(),
        {
            let ghost left = retriever.remaining();
            match retriever.next() {
                Some(id) => {
                    assert(ids@.push(id) + left.drop_first() == ids@ + left);
                    ids.push(id);
                },
                None => {
                    assert(ids@ + left == ids@);
                    break ;
                },
            }
        }
        ids
    }
}

} // verus!
