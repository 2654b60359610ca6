//! The records behind a set of posting lists, and the insertions staged for them.

use crate::error::Error;
use crate::index::posting::sort::{ascending, sort_ids, staged_terms, strictly_ascending};
use crate::index::posting::codec::{
    check_record, decode_id, decode_record, encode_id, encode_record, is_record, lemma_record_concat, lemma_record_empty,
    lemma_record_of, record_ids,
};
use std::collections::hash_map::Entry;
use std::collections::HashMap;
use vstd::prelude::*;

verus! {

broadcast use vstd::std_specs::hash::group_hash_axioms;

/// The room, in bytes, that a term gets when the first id is staged for it:
/// enough for sixteen ids of eight bytes, so that the blob of a term with a
/// handful of ids is allocated once.
pub const STAGED_ROOM: usize = 128;

/// Posting lists as records of encoded storage ids, one record per term, with
/// the insertions that wait for the next commit.
pub struct PostingTable {
    /// `lists[p][t]` is the record of term `t` in posting list `p`.
    lists: Vec<Vec<Vec<u8>>>,
    /// `pending[p]` maps a term id to the encoded ids staged for it.
    pending: Vec<HashMap<usize, Vec<u8>>>,
    /// Whether ids are stored as varints rather than as eight fixed bytes.
    compressed: bool,
}

/// Whether all of `records` are records.
pub open spec fn records_wf(records: Seq<Vec<Vec<u8>>>, compressed: bool) -> bool {
    forall|p: int, t: int|
        0 <= p < records.len() && 0 <= t < records[p]@.len() ==> is_record(
            #[trigger] records[p]@[t]@,
            compressed,
        )
}

/// The storage ids that `records` hold: for each posting list and term, the
/// ids of its record in stored order.
pub open spec fn record_lists(records: Seq<Vec<Vec<u8>>>, compressed: bool) -> Seq<Seq<Seq<u64>>> {
    Seq::new(
        records.len(),
        |p: int| Seq::new(records[p]@.len(), |t: int| record_ids(records[p]@[t]@, compressed)),
    )
}

/// The ids that each staged blob of one posting list holds.
pub open spec fn staged_ids(blobs: Map<usize, Vec<u8>>, compressed: bool) -> Map<usize, Seq<u64>> {
    Map::new(|t: usize| blobs.contains_key(t), |t: usize| record_ids(blobs[t]@, compressed))
}

/// Whether every staged blob of one posting list is a record.
pub open spec fn staged_wf(blobs: Map<usize, Vec<u8>>, compressed: bool) -> bool {
    forall|t: usize| blobs.contains_key(t) ==> is_record(#[trigger] blobs[t]@, compressed)
}

/// What staging `id` under each of `terms` makes of the staged ids of one
/// posting list: `id` is appended once for every occurrence of a term.
pub open spec fn stage_under(staged: Map<usize, Seq<u64>>, terms: Seq<usize>, id: u64) -> Map<
    usize,
    Seq<u64>,
>
    decreases terms.len(),
{
    if terms.len() == 0 {
        staged
    } else {
        let before = stage_under(staged, terms.drop_last(), id);
        let t = terms.last();
        before.insert(
            t,
            if before.contains_key(t) {
                before[t].push(id)
            } else {
                seq![id]
            },
        )
    }
}

/// The staged ids after `count` posting lists were announced: what is staged
/// stays, and posting lists that are missing up to `count` come in empty.
pub open spec fn announced(pending: Seq<Map<usize, Seq<u64>>>, count: nat) -> Seq<
    Map<usize, Seq<u64>>,
> {
    if count <= pending.len() {
        pending
    } else {
        Seq::new(
            count,
            |p: int|
                if p < pending.len() {
                    pending[p]
                } else {
                    Map::empty()
                },
        )
    }
}

/// The staged ids after `id` was staged under `terms` in posting list `p`.
pub open spec fn staged_after(
    pending: Seq<Map<usize, Seq<u64>>>,
    p: nat,
    terms: Seq<usize>,
    id: u64,
) -> Seq<Map<usize, Seq<u64>>> {
    if terms.len() == 0 {
        pending
    } else {
        let grown = if p < pending.len() {
            pending
        } else {
            announced(pending, p + 1)
        };
        grown.update(p as int, stage_under(grown[p as int], terms, id))
    }
}

/// The posting of term `t` in posting list `p`, empty where there is none.
pub open spec fn posting_at(lists: Seq<Seq<Seq<u64>>>, p: int, t: int) -> Seq<u64> {
    if 0 <= p < lists.len() && 0 <= t < lists[p].len() {
        lists[p][t]
    } else {
        Seq::empty()
    }
}

/// The ids staged for term `t`, empty where there are none.
pub open spec fn staged_at(staged: Map<usize, Seq<u64>>, t: int) -> Seq<u64> {
    if 0 <= t <= usize::MAX && staged.contains_key(t as usize) {
        staged[t as usize]
    } else {
        Seq::empty()
    }
}

/// The posting lists once list `p` exists: lists that were missing up to and
/// including `p` come in without terms.
pub open spec fn materialized(lists: Seq<Seq<Seq<u64>>>, p: nat) -> Seq<Seq<Seq<u64>>> {
    if p < lists.len() {
        lists
    } else {
        Seq::new(
            p + 1,
            |q: int|
                if q < lists.len() {
                    lists[q]
                } else {
                    Seq::empty()
                },
        )
    }
}

/// Whether a list of `before` terms has `after` terms once it has a slot for
/// every term id in `keys`: it never shrinks, and grows no further than the
/// largest key asks for.
pub open spec fn grown_to(before: nat, keys: Set<usize>, after: nat) -> bool {
    &&& before <= after
    &&& forall|k: usize| keys.contains(k) ==> k < after
    &&& (after == before || (0 < after <= usize::MAX && keys.contains((after - 1) as usize)))
}

/// Whether `after` is `before` with the ids of `staged` appended in posting
/// list `p`: the list exists, has a slot for every staged term, and each of
/// its postings is the old one followed by what was staged for the term. All
/// other lists are as they were.
pub open spec fn list_committed(
    before: Seq<Seq<Seq<u64>>>,
    p: nat,
    staged: Map<usize, Seq<u64>>,
    after: Seq<Seq<Seq<u64>>>,
) -> bool {
    &&& after.len() == materialized(before, p).len()
    &&& forall|q: int| 0 <= q < after.len() && q != p ==> after[q] == materialized(before, p)[q]
    &&& grown_to(materialized(before, p)[p as int].len(), staged.dom(), after[p as int].len())
    &&& forall|t: int|
        0 <= t < after[p as int].len() ==> #[trigger] after[p as int][t] == posting_at(
            before,
            p as int,
            t,
        ) + staged_at(staged, t)
}

/// Whether `after` holds the ids of `before`, each as often, in ascending
/// order.
pub open spec fn sorted_of(before: Seq<u64>, after: Seq<u64>) -> bool {
    ascending(after) && after.to_multiset() == before.to_multiset()
}

/// Whether `after` is `before` with the posting of term `t` in list `p` put
/// in ascending order, and everything else as it was.
pub open spec fn posting_sorted(
    before: Seq<Seq<Seq<u64>>>,
    p: int,
    t: int,
    after: Seq<Seq<Seq<u64>>>,
) -> bool {
    &&& after.len() == before.len()
    &&& forall|q: int| 0 <= q < before.len() ==> (#[trigger] after[q]).len() == before[q].len()
    &&& forall|q: int, u: int|
        0 <= q < before.len() && 0 <= u < before[q].len() && !(q == p && u == t)
            ==> #[trigger] after[q][u] == before[q][u]
    &&& sorted_of(before[p][t], after[p][t])
}

/// Whether `after` is `before` with every posting put in ascending order.
pub open spec fn all_sorted(before: Seq<Seq<Seq<u64>>>, after: Seq<Seq<Seq<u64>>>) -> bool {
    &&& after.len() == before.len()
    &&& forall|q: int| 0 <= q < before.len() ==> (#[trigger] after[q]).len() == before[q].len()
    &&& forall|q: int, u: int|
        0 <= q < before.len() && 0 <= u < before[q].len() ==> sorted_of(
            before[q][u],
            #[trigger] after[q][u],
        )
}

/// A single pass over the storage ids of one posting, in stored order.
pub struct PostingIter<'a> {
    data: &'a [u8],
    pos: usize,
    compressed: bool,
}

impl<'a> PostingIter<'a> {
    /// What is left to read is a record.
    pub closed spec fn wf(&self) -> bool {
        &&& self.pos <= self.data@.len()
        &&& is_record(self.data@.skip(self.pos as int), self.compressed)
    }

    /// The ids that are still to come, next one first.
    pub closed spec fn remaining(&self) -> Seq<u64> {
        record_ids(self.data@.skip(self.pos as int), self.compressed)
    }

    /// A pass over the ids of `record`.
    pub fn new(record: &'a [u8], compressed: bool) -> (iter: Self)
        requires
            is_record(record@, compressed),
        ensures
            iter.wf(),
            iter.remaining() == record_ids(record@, compressed),
    {
        assert(record@.skip(0) == record@);
        PostingIter { data: record, pos: 0, compressed }
    }

    /// A pass over no ids.
    pub fn empty() -> (iter: Self)
        ensures
            iter.wf(),
            iter.remaining() == Seq::<u64>::empty(),
    {
        let none: &'static [u8] = &[];
        proof {
            assert(none@.skip(0) == none@);
            assert(none@ =~= Seq::<u8>::empty());
            lemma_record_empty(false);
        }
        PostingIter { data: none, pos: 0, compressed: false }
    }

    /// Hands out the next id, or `None` once all were handed out.
    pub fn next(&mut self) -> (r: Option<u64>)
        requires
            old(self).wf(),
        ensures
            final(self).wf(),
            match r {
                Some(id) => old(self).remaining().len() > 0 && id == old(self).remaining()[0]
                    && final(self).remaining() == old(self).remaining().drop_first(),
                None => old(self).remaining().len() == 0 && final(self).remaining() == old(self).remaining(),
            },
    {
        if self.pos >= self.data.len() {
            proof {
                assert(self.data@.skip(self.pos as int) == Seq::<u8>::empty());
                lemma_record_empty(self.compressed);
            }
            return None;
        }
        let (id, next) = decode_id(self.data, self.pos, self.compressed);
        self.pos = next;
        Some(id)
    }

    /// Reads all the ids that are still to come.
    pub fn collect(self) -> (ids: Vec<u64>)
        requires
            self.wf(),
        ensures
            ids@ == self.remaining(),
    {
        let mut iter = self;
        let mut ids: Vec<u64> = Vec::new();
        loop
            invariant
                iter.wf(),
                ids@ + iter.remaining() == self.remaining(),
            ensures
                ids@ == self.remaining(),
            decreases iter.remaining().len(),
        {
            let ghost left = iter.remaining();
            match iter.next() {
                Some(id) => {
                    assert(ids@.push(id) + left.drop_first() == ids@ + left);
                    ids.push(id);
                },
                None => {
                    assert(ids@ + left == ids@);
                    break ;
                },
            }
        }
        ids
    }
}

/// Whether something is staged for the largest `usize` as a term id, for
/// which no slot can be counted.
pub open spec fn stages_last_term(pending: Seq<Map<usize, Seq<u64>>>) -> bool {
    exists|p: int| 0 <= p < pending.len() && (#[trigger] pending[p]).contains_key(usize::MAX)
}

/// The term ids with something staged in posting list `p`.
pub open spec fn staged_keys(pending: Seq<Map<usize, Seq<u64>>>, p: int) -> Set<usize> {
    if 0 <= p < pending.len() {
        pending[p].dom()
    } else {
        Set::empty()
    }
}

/// The number of terms of posting list `p`, zero where there is no such list.
pub open spec fn term_count(lists: Seq<Seq<Seq<u64>>>, p: int) -> nat {
    if 0 <= p < lists.len() {
        lists[p].len()
    } else {
        0
    }
}

/// The ids staged for term `t` in posting list `p`.
pub open spec fn staged_in(pending: Seq<Map<usize, Seq<u64>>>, p: int, t: int) -> Seq<u64> {
    if 0 <= p < pending.len() {
        staged_at(pending[p], t)
    } else {
        Seq::empty()
    }
}

/// Whether `after` is `before` with everything in `pending` appended. No list
/// and no term slot is lost; lists exist up to the last one with something
/// staged and term slots up to the largest staged term id, and no further;
/// every posting is the old one followed by what was staged for it.
pub open spec fn committed(
    before: Seq<Seq<Seq<u64>>>,
    pending: Seq<Map<usize, Seq<u64>>>,
    after: Seq<Seq<Seq<u64>>>,
) -> bool {
    &&& before.len() <= after.len()
    &&& forall|p: int|
        0 <= p < pending.len() && !(#[trigger] pending[p]).dom().is_empty() ==> p < after.len()
    &&& (after.len() == before.len() || (0 < after.len() <= pending.len() && !pending[after.len()
        - 1].dom().is_empty()))
    &&& forall|p: int|
        0 <= p < after.len() ==> grown_to(
            term_count(before, p),
            staged_keys(pending, p),
            (#[trigger] after[p]).len(),
        )
    &&& forall|p: int, t: int|
        0 <= p < after.len() && 0 <= t < after[p].len() ==> #[trigger] after[p][t] == posting_at(
            before,
            p,
            t,
        ) + staged_in(pending, p, t)
}

/// With nothing staged, what is committed is what was there.
pub proof fn lemma_committed_nothing(before: Seq<Seq<Seq<u64>>>)
    ensures
        committed(before, Seq::empty(), before),
{
    assert forall|p: int, t: int|
        0 <= p < before.len() && 0 <= t < before[p].len() implies #[trigger] before[p][t]
        == posting_at(before, p, t) + staged_in(Seq::empty(), p, t) by {
        assert(before[p][t] + Seq::<u64>::empty() == before[p][t]);
    }
}

/// A posting list with nothing staged changes nothing.
pub proof fn lemma_committed_skip(
    before: Seq<Seq<Seq<u64>>>,
    pending: Seq<Map<usize, Seq<u64>>>,
    k: int,
    now: Seq<Seq<Seq<u64>>>,
)
    requires
        0 <= k < pending.len(),
        committed(before, pending.take(k), now),
        pending[k].dom().is_empty(),
    ensures
        committed(before, pending.take(k + 1), now),
{
    let done = pending.take(k);
    let more = pending.take(k + 1);
    assert forall|p: int| 0 <= p < more.len() && !(#[trigger] more[p]).dom().is_empty() implies p
        < now.len() by {
        assert(more[p] == done[p]);
    }
    if now.len() != before.len() {
        assert(done[now.len() - 1] == more[now.len() - 1]);
    }
    assert forall|p: int| 0 <= p < now.len() implies grown_to(
        term_count(before, p),
        staged_keys(more, p),
        (#[trigger] now[p]).len(),
    ) by {
        assert(grown_to(term_count(before, p), staged_keys(done, p), now[p].len()));
        assert(staged_keys(more, p) =~= staged_keys(done, p)) by {
            if p < k {
                assert(more[p] == done[p]);
            }
        }
    }
    assert forall|p: int, t: int|
        0 <= p < now.len() && 0 <= t < now[p].len() implies #[trigger] now[p][t] == posting_at(
        before,
        p,
        t,
    ) + staged_in(more, p, t) by {
        assert(now[p][t] == posting_at(before, p, t) + staged_in(done, p, t));
        if p < k {
            assert(more[p] == done[p]);
        }
    }
}

/// Committing the next posting list on top of the lists before it commits
/// them all.
pub proof fn lemma_committed_step(
    before: Seq<Seq<Seq<u64>>>,
    pending: Seq<Map<usize, Seq<u64>>>,
    k: int,
    now: Seq<Seq<Seq<u64>>>,
    next: Seq<Seq<Seq<u64>>>,
)
    requires
        0 <= k < pending.len(),
        committed(before, pending.take(k), now),
        !pending[k].dom().is_empty(),
        list_committed(now, k as nat, pending[k], next),
    ensures
        committed(before, pending.take(k + 1), next),
{
    let done = pending.take(k);
    let more = pending.take(k + 1);
    let mat = materialized(now, k as nat);
    assert(more[k] == pending[k]);
    assert forall|p: int| 0 <= p < more.len() && !(#[trigger] more[p]).dom().is_empty() implies p
        < next.len() by {
        if p < k {
            assert(more[p] == done[p]);
        }
    }
    if now.len() != before.len() {
        assert(done[now.len() - 1] == more[now.len() - 1]);
    }
    assert forall|p: int| 0 <= p < next.len() implies grown_to(
        term_count(before, p),
        staged_keys(more, p),
        (#[trigger] next[p]).len(),
    ) by {
        if p == k {
            if k < now.len() {
                assert(grown_to(term_count(before, p), staged_keys(done, p), now[p].len()));
            }
        } else {
            assert(next[p] == mat[p]);
            if p < now.len() {
                assert(grown_to(term_count(before, p), staged_keys(done, p), now[p].len()));
                assert(staged_keys(more, p) =~= staged_keys(done, p)) by {
                    if p < k {
                        assert(more[p] == done[p]);
                    }
                }
            } else {
                assert(more[p] == done[p]);
                assert(done[p].dom().is_empty());
            }
        }
    }
    assert forall|p: int, t: int|
        0 <= p < next.len() && 0 <= t < next[p].len() implies #[trigger] next[p][t] == posting_at(
        before,
        p,
        t,
    ) + staged_in(more, p, t) by {
        if p == k {
            assert(next[p][t] == posting_at(now, p, t) + staged_at(pending[k], t));
            if p < now.len() {
                assert(grown_to(term_count(before, p), staged_keys(done, p), now[p].len()));
                if t < now[p].len() {
                    assert(now[p][t] == posting_at(before, p, t) + staged_in(done, p, t));
                    assert(posting_at(before, p, t) + Seq::<u64>::empty() == posting_at(
                        before,
                        p,
                        t,
                    ));
                }
            }
        } else {
            assert(next[p] == mat[p]);
            if p < now.len() {
                assert(now[p][t] == posting_at(before, p, t) + staged_in(done, p, t));
                if p < k {
                    assert(more[p] == done[p]);
                }
            }
        }
    }
}

impl PostingTable {
    /// Whether ids are stored as varints.
    pub closed spec fn compressed(&self) -> bool {
        self.compressed
    }

    /// Every stored record and every staged blob is a record.
    pub closed spec fn wf(&self) -> bool {
        &&& forall|p: int, t: int|
            0 <= p < self.lists@.len() && 0 <= t < self.lists@[p]@.len() ==> is_record(
                #[trigger] self.lists@[p]@[t]@,
                self.compressed,
            )
        &&& forall|p: int|
            0 <= p < self.pending@.len() ==> staged_wf(#[trigger] self.pending@[p]@, self.compressed)
    }

    /// The committed postings: `lists()[p][t]` holds the storage ids of term
    /// `t` in posting list `p`, in stored order.
    pub closed spec fn lists(&self) -> Seq<Seq<Seq<u64>>> {
        Seq::new(
            self.lists@.len(),
            |p: int|
                Seq::new(
                    self.lists@[p]@.len(),
                    |t: int| record_ids(self.lists@[p]@[t]@, self.compressed),
                ),
        )
    }

    /// The staged postings: `pending()[p]` maps a term id to the storage ids
    /// that wait to be appended to its record in posting list `p`.
    pub closed spec fn pending(&self) -> Seq<Map<usize, Seq<u64>>> {
        Seq::new(self.pending@.len(), |p: int| staged_ids(self.pending@[p]@, self.compressed))
    }

    /// A table without posting lists and with nothing staged.
    pub fn new(compressed: bool) -> (table: Self)
        ensures
            table.wf(),
            table.compressed() == compressed,
            table.lists() == Seq::<Seq<Seq<u64>>>::empty(),
            table.pending() == Seq::<Map<usize, Seq<u64>>>::empty(),
    {
        PostingTable { lists: Vec::new(), pending: Vec::new(), compressed }
    }

    /// The table that holds these records: `records[p][t]` is the record of
    /// term `t` in posting list `p`. Bytes that are not the encoding of some
    /// storage ids are refused.
    pub fn from_records(records: Vec<Vec<Vec<u8>>>, compressed: bool) -> (r: Result<Self, Error>)
        ensures
            match r {
                Ok(table) => {
                    &&& table.wf()
                    &&& table.compressed() == compressed
                    &&& table.pending() == Seq::<Map<usize, Seq<u64>>>::empty()
                    &&& records_wf(records@, compressed)
                    &&& table.lists() == record_lists(records@, compressed)
                },
                Err(e) => e == Error::Internal && !records_wf(records@, compressed),
            },
    {
        let mut p: usize = 0;
        while p < records.len()
            invariant
                p <= records@.len(),
                forall|q: int, t: int|
                    0 <= q < p && 0 <= t < records@[q]@.len() ==> is_record(
                        #[trigger] records@[q]@[t]@,
                        compressed,
                    ),
            decreases records@.len() - p,
        {
            let list: &Vec<Vec<u8>> = &records[p];
            let mut t: usize = 0;
            while t < list.len()
                invariant
                    t <= list@.len(),
                    p < records@.len(),
                    *list == records@[p as int],
                    forall|u: int| 0 <= u < t ==> is_record(#[trigger] list@[u]@, compressed),
                decreases list@.len() - t,
            {
                if !check_record(list[t].as_slice(), compressed) {
                    assert(!is_record(records@[p as int]@[t as int]@, compressed));
                    return Err(Error::Internal);
                }
                t = t + 1;
            }
            p = p + 1;
        }
        let table = PostingTable { lists: records, pending: Vec::new(), compressed };
        proof {
            assert(table.pending() =~= Seq::<Map<usize, Seq<u64>>>::empty());
            assert(table.lists() =~= record_lists(records@, compressed)) by {
                assert forall|q: int| 0 <= q < records@.len() implies #[trigger] table.lists()[q]
                    =~= record_lists(records@, compressed)[q] by {}
            }
        }
        Ok(table)
    }

    /// Gives up the table for its records. What is staged is dropped.
    pub fn into_records(self) -> (records: Vec<Vec<Vec<u8>>>)
        requires
            self.wf(),
        ensures
            records_wf(records@, self.compressed()),
            record_lists(records@, self.compressed()) == self.lists(),
    {
        proof {
            assert(self.lists() =~= record_lists(self.lists@, self.compressed)) by {
                assert forall|q: int| 0 <= q < self.lists@.len() implies #[trigger] self.lists()[q]
                    =~= record_lists(self.lists@, self.compressed)[q] by {}
            }
        }
        self.lists
    }

    /// Drops what is staged.
    pub fn discard_pending(&mut self)
        requires
            old(self).wf(),
        ensures
            final(self).wf(),
            final(self).compressed() == old(self).compressed(),
            final(self).lists() == old(self).lists(),
            final(self).pending() == Seq::<Map<usize, Seq<u64>>>::empty(),
    {
        self.pending.clear();
    }

    /// Makes the staging area hold at least `count` posting lists. What is
    /// staged stays.
    pub fn announce_term_count(&mut self, count: usize)
        requires
            old(self).wf(),
        ensures
            final(self).wf(),
            final(self).compressed() == old(self).compressed(),
            final(self).lists() == old(self).lists(),
            final(self).pending() == announced(old(self).pending(), count as nat),
    {
        while self.pending.len() < count
            invariant
                self.wf(),
                self.compressed == old(self).compressed,
                self.lists == old(self).lists,
                old(self).pending@.len() <= self.pending@.len(),
                self.pending@.len() <= count || self.pending == old(self).pending,
                self.pending() == announced(old(self).pending(), self.pending@.len()),
            decreases count - self.pending@.len(),
        {
            let empty: HashMap<usize, Vec<u8>> = HashMap::new();
            let ghost before = self.pending();
            assert(staged_ids(empty@, self.compressed) == Map::<usize, Seq<u64>>::empty());
            self.pending.push(empty);
            assert(self.pending() =~= before.push(Map::empty()));
            assert(before.push(Map::empty()) =~= announced(
                old(self).pending(),
                self.pending@.len(),
            ));
        }
    }

    /// Stages `storage_id` under each of `term_ids` in posting list `post_id`.
    /// With no term ids nothing is staged, and no posting list announced.
    pub fn insert_posts(&mut self, post_id: u16, storage_id: u64, term_ids: &[usize])
        requires
            old(self).wf(),
        ensures
            final(self).wf(),
            final(self).compressed() == old(self).compressed(),
            final(self).lists() == old(self).lists(),
            final(self).pending() == staged_after(
                old(self).pending(),
                post_id as nat,
                term_ids@,
                storage_id,
            ),
    {
        if term_ids.len() == 0 {
            return ;
        }
        let p: usize = post_id as usize;
        if p >= self.pending.len() {
            self.announce_term_count(p + 1);
        }
        let ghost grown = self.pending();
        let ghost start = *self;
        let encoded = encode_id(storage_id, self.compressed);
        proof {
            lemma_record_of(seq![storage_id], self.compressed);
            crate::index::posting::codec::lemma_encode_ids_push(
                Seq::<u64>::empty(),
                storage_id,
                self.compressed,
            );
            assert(Seq::<u64>::empty().push(storage_id) == seq![storage_id]);
            assert(Seq::<u8>::empty() + encoded@ == encoded@);
            assert(stage_under(grown[p as int], term_ids@.take(0), storage_id) == grown[p as int]);
            assert(self.pending() =~= grown.update(p as int, grown[p as int]));
        }
        let mut i: usize = 0;
        while i < term_ids.len()
            invariant
                i <= term_ids.len(),
                self.wf(),
                self.compressed == start.compressed,
                self.lists == start.lists,
                p < self.pending@.len(),
                grown.len() == self.pending@.len(),
                is_record(encoded@, self.compressed),
                record_ids(encoded@, self.compressed) == seq![storage_id],
                self.pending() == grown.update(
                    p as int,
                    stage_under(grown[p as int], term_ids@.take(i as int), storage_id),
                ),
            decreases term_ids.len() - i,
        {
            let t: usize = term_ids[i];
            let ghost before = self.pending();
            let ghost blobs = self.pending@[p as int]@;
            let ghost maps = self.pending@;
            let staged: &mut HashMap<usize, Vec<u8>> = &mut self.pending[p];
            let ghost head = if blobs.contains_key(t) {
                blobs[t]@
            } else {
                Seq::<u8>::empty()
            };
            match staged.entry(t) {
                Entry::Occupied(occupied) => {
                    let blob: &mut Vec<u8> = occupied.into_mut();
                    blob.extend_from_slice(encoded.as_slice());
                    assert(blob@ == head + encoded@);
                },
                Entry::Vacant(vacant) => {
                    let blob: &mut Vec<u8> = vacant.insert(Vec::with_capacity(STAGED_ROOM));
                    blob.extend_from_slice(encoded.as_slice());
                    assert(blob@ == head + encoded@);
                },
            }
            proof {
                let now = self.pending@[p as int]@;
                let blob = now[t];
                assert(now == blobs.insert(t, blob));
                assert(blob@ == head + encoded@);
                lemma_record_empty(self.compressed);
                lemma_record_concat(head, encoded@, self.compressed);
                assert(record_ids(blob@, self.compressed) == record_ids(head, self.compressed)
                    + seq![storage_id]);
                assert(Seq::<u64>::empty() + seq![storage_id] == seq![storage_id]);
                assert(forall|s: Seq<u64>| #[trigger] s.push(storage_id) == s + seq![storage_id]);
                assert(staged_wf(now, self.compressed)) by {
                    assert forall|k: usize| now.contains_key(k) implies is_record(
                        #[trigger] now[k]@,
                        self.compressed,
                    ) by {
                        if k != t {
                            assert(blobs.contains_key(k));
                            assert(now[k] == blobs[k]);
                        }
                    }
                }
                let so_far = stage_under(grown[p as int], term_ids@.take(i as int), storage_id);
                assert(term_ids@.take(i + 1).drop_last() == term_ids@.take(i as int));
                assert(term_ids@.take(i + 1).last() == t);
                assert(before[p as int] == staged_ids(blobs, self.compressed));
                assert(before[p as int] == so_far);
                let next = stage_under(grown[p as int], term_ids@.take(i + 1), storage_id);
                assert(next == so_far.insert(
                    t,
                    if so_far.contains_key(t) {
                        so_far[t].push(storage_id)
                    } else {
                        seq![storage_id]
                    },
                ));
                assert(staged_ids(now, self.compressed)[t] == record_ids(blob@, self.compressed));
                assert(staged_ids(now, self.compressed) =~= next);
                assert(self.pending@.len() == maps.len());
                assert forall|q: int| 0 <= q < maps.len() && q != p implies self.pending@[q]
                    == maps[q] by {}
                assert forall|q: int| 0 <= q < maps.len() && q != p implies #[trigger] self.pending()[q]
                    == before[q] by {
                    assert(self.pending@[q] == maps[q]);
                }
                assert(self.pending() =~= grown.update(p as int, next));
            }
            i = i + 1;
        }
        proof {
            assert(term_ids@.take(i as int) == term_ids@);
            assert(self.lists() == start.lists());
        }
    }

    /// Makes posting list `posting_id` exist, together with all lists before it.
    pub fn materialize(&mut self, posting_id: usize)
        requires
            old(self).wf(),
            posting_id < usize::MAX,
        ensures
            final(self).wf(),
            final(self).compressed() == old(self).compressed(),
            final(self).pending() == old(self).pending(),
            final(self).lists() == materialized(old(self).lists(), posting_id as nat),
    {
        let ghost start = *self;
        while self.lists.len() <= posting_id
            invariant
                posting_id < usize::MAX,
                self.wf(),
                self.compressed == start.compressed,
                self.pending == start.pending,
                start.lists@.len() <= self.lists@.len(),
                self.lists@.len() <= posting_id + 1 || self.lists@ == start.lists@,
                forall|q: int| 0 <= q < start.lists@.len() ==> self.lists@[q] == start.lists@[q],
                forall|q: int| start.lists@.len() <= q < self.lists@.len() ==> self.lists@[q]@.len() == 0,
            decreases posting_id + 1 - self.lists@.len(),
        {
            self.lists.push(Vec::new());
        }
        proof {
            assert(self.lists() =~= materialized(start.lists(), posting_id as nat)) by {
                assert forall|q: int| 0 <= q < self.lists().len() implies #[trigger] self.lists()[q]
                    =~= materialized(start.lists(), posting_id as nat)[q] by {
                    if q < start.lists@.len() {
                        assert(self.lists@[q] == start.lists@[q]);
                        assert(self.lists()[q] =~= start.lists()[q]);
                    }
                }
            }
        }
    }

    /// Gives posting list `posting_id` a slot for `term_id`: records that were
    /// missing up to and including it come in empty.
    fn ensure_term_in_posting(&mut self, posting_id: usize, term_id: usize)
        requires
            old(self).wf(),
            posting_id < old(self).lists@.len(),
            term_id < usize::MAX,
        ensures
            final(self).wf(),
            final(self).compressed == old(self).compressed,
            final(self).pending == old(self).pending,
            final(self).lists@.len() == old(self).lists@.len(),
            ({
                let before = old(self).lists@;
                let after = final(self).lists@;
                let was = before[posting_id as int]@;
                let now = after[posting_id as int]@;
                &&& forall|q: int| 0 <= q < before.len() && q != posting_id ==> after[q] == before[q]
                &&& now.len() == if term_id < was.len() {
                    was.len() as int
                } else {
                    term_id + 1
                }
                &&& forall|t: int| 0 <= t < was.len() ==> now[t] == was[t]
                &&& forall|t: int| was.len() <= t < now.len() ==> now[t]@ == Seq::<u8>::empty()
            }),
    {
        let ghost start = *self;
        proof {
            lemma_record_empty(self.compressed);
        }
        while self.lists[posting_id].len() <= term_id
            invariant
                term_id < usize::MAX,
                self.wf(),
                is_record(Seq::<u8>::empty(), self.compressed),
                self.compressed == start.compressed,
                self.pending == start.pending,
                self.lists@.len() == start.lists@.len(),
                posting_id < self.lists@.len(),
                forall|q: int|
                    0 <= q < start.lists@.len() && q != posting_id ==> self.lists@[q]
                        == start.lists@[q],
                start.lists@[posting_id as int]@.len() <= self.lists@[posting_id as int]@.len(),
                self.lists@[posting_id as int]@.len() <= term_id + 1 || self.lists@[posting_id as int]@.len()
                    == start.lists@[posting_id as int]@.len(),
                forall|t: int|
                    0 <= t < start.lists@[posting_id as int]@.len() ==> self.lists@[posting_id as int]@[t]
                        == start.lists@[posting_id as int]@[t],
                forall|t: int|
                    start.lists@[posting_id as int]@.len() <= t < self.lists@[posting_id as int]@.len()
                        ==> self.lists@[posting_id as int]@[t]@ == Seq::<u8>::empty(),
            decreases term_id + 1 - self.lists@[posting_id as int]@.len(),
        {
            let ghost before = self.lists@;
            let list: &mut Vec<Vec<u8>> = &mut self.lists[posting_id];
            list.push(Vec::new());
            proof {
                assert forall|p: int, t: int|
                    0 <= p < self.lists@.len() && 0 <= t < self.lists@[p]@.len() implies is_record(
                    #[trigger] self.lists@[p]@[t]@,
                    self.compressed,
                ) by {
                    if p != posting_id {
                        assert(self.lists@[p] == before[p]);
                    } else if t < before[p]@.len() {
                        assert(self.lists@[p]@[t] == before[p]@[t]);
                    }
                }
            }
        }
    }

    /// Appends the staged blobs of one posting list to its records: takes the
    /// staged term ids in ascending order, makes the list and a slot for the
    /// largest of them exist, and appends each blob to the record of its term.
    /// Fails, changing nothing, where the list or a term has the largest
    /// `usize` as its id, for which no slot can be counted.
    pub fn commit_postings(&mut self, post_id: usize, postings: HashMap<usize, Vec<u8>>) -> (r:
        Result<(), Error>)
        requires
            old(self).wf(),
            !postings@.is_empty(),
            staged_wf(postings@, old(self).compressed()),
        ensures
            final(self).wf(),
            final(self).compressed() == old(self).compressed(),
            final(self).pending() == old(self).pending(),
            r is Err <==> post_id == usize::MAX || postings@.contains_key(usize::MAX),
            r is Err ==> r == Err::<(), Error>(Error::OutOfBounds) && final(self).lists() == old(self).lists(),
            r is Ok ==> list_committed(
                old(self).lists(),
                post_id as nat,
                staged_ids(postings@, old(self).compressed()),
                final(self).lists(),
            ),
    {
        let top: usize = usize::MAX;
        if post_id == top || postings.contains_key(&top) {
            return Err(Error::OutOfBounds);
        }
        let terms = staged_terms(&postings);
        proof {
            assert(terms@.len() > 0) by {
                if terms@.len() == 0 {
                    assert(terms@.to_set() =~= Set::<usize>::empty());
                    assert(postings@.dom() =~= Set::<usize>::empty());
                }
            }
            assert forall|j: int| 0 <= j < terms@.len() implies postings@.contains_key(
                #[trigger] terms@[j],
            ) by {
                assert(terms@.to_set().contains(terms@[j]));
            }
        }
        self.materialize(post_id);
        assert(self.lists@.len() == self.lists().len());
        let max_tid: usize = terms[terms.len() - 1];
        self.ensure_term_in_posting(post_id, max_tid);
        let ghost start = *self;
        let mut j: usize = 0;
        while j < terms.len()
            invariant
                j <= terms.len(),
                self.wf(),
                staged_wf(postings@, self.compressed),
                strictly_ascending(terms@),
                terms@.len() > 0,
                max_tid == terms@[terms@.len() - 1],
                forall|i: int| 0 <= i < terms@.len() ==> postings@.contains_key(#[trigger] terms@[i]),
                self.compressed == start.compressed,
                self.pending == start.pending,
                self.lists@.len() == start.lists@.len(),
                post_id < self.lists@.len(),
                max_tid < self.lists@[post_id as int]@.len(),
                self.lists@[post_id as int]@.len() == start.lists@[post_id as int]@.len(),
                forall|q: int|
                    0 <= q < start.lists@.len() && q != post_id ==> self.lists@[q] == start.lists@[q],
                forall|t: int|
                    0 <= t < self.lists@[post_id as int]@.len() ==> #[trigger] self.lists@[post_id as int]@[t]@
                        == start.lists@[post_id as int]@[t]@ + (if terms@.take(j as int).contains(
                        t as usize,
                    ) {
                        postings@[t as usize]@
                    } else {
                        Seq::<u8>::empty()
                    }),
            decreases terms.len() - j,
        {
            let t: usize = terms[j];
            assert(terms@[j as int] <= terms@[terms@.len() - 1]);
            let found = postings.get(&t);
            assert(found is Some);
            let blob: &Vec<u8> = found.unwrap();
            let ghost before = self.lists@;
            let ghost was = self.lists@[post_id as int]@;
            let list: &mut Vec<Vec<u8>> = &mut self.lists[post_id];
            let record: &mut Vec<u8> = &mut list[t];
            record.extend_from_slice(blob.as_slice());
            proof {
                let now = self.lists@[post_id as int]@;
                assert(now.len() == was.len());
                assert(now[t as int]@ == was[t as int]@ + blob@);
                assert(forall|u: int| 0 <= u < was.len() && u != t ==> now[u] == was[u]);
                let done = terms@.take(j as int);
                let done_next = terms@.take(j + 1);
                assert(!done.contains(t)) by {
                    if done.contains(t) {
                        let i = choose|i: int| 0 <= i < done.len() && done[i] == t;
                        assert(terms@[i] < terms@[j as int]);
                    }
                }
                assert(done_next == done.push(t));
                assert forall|x: usize| done_next.contains(x) <==> (done.contains(x) || x == t) by {
                    vstd::seq_lib::lemma_seq_contains_after_push(done, t, x);
                }
                assert(was[t as int]@ == start.lists@[post_id as int]@[t as int]@ + Seq::<u8>::empty());
                assert forall|u: int| 0 <= u < now.len() implies #[trigger] now[u]@
                    == start.lists@[post_id as int]@[u]@ + (if done_next.contains(u as usize) {
                    postings@[u as usize]@
                } else {
                    Seq::<u8>::empty()
                }) by {
                    if u == t {
                        assert(done_next.contains(t));
                    } else {
                        assert(now[u] == was[u]);
                        assert(was.len() == before[post_id as int].len());
                        let x = u as usize;
                        assert(x != t);
                        assert(done_next.contains(x) <==> (done.contains(x) || x == t));
                    }
                }
                assert forall|p: int, u: int|
                    0 <= p < self.lists@.len() && 0 <= u < self.lists@[p]@.len() implies is_record(
                    #[trigger] self.lists@[p]@[u]@,
                    self.compressed,
                ) by {
                    if p != post_id {
                        assert(self.lists@[p] == before[p]);
                    } else if u != t {
                        assert(now[u] == was[u]);
                        assert(is_record(before[p]@[u]@, self.compressed));
                    } else {
                        assert(is_record(before[p]@[u]@, self.compressed));
                        assert(is_record(postings@[t]@, self.compressed));
                        lemma_record_concat(was[t as int]@, blob@, self.compressed);
                    }
                }
            }
            j = j + 1;
        }
        proof {
            assert(terms@.take(j as int) == terms@);
            let c = self.compressed;
            let before = old(self).lists();
            let mat = materialized(before, post_id as nat);
            let staged = staged_ids(postings@, c);
            let after = self.lists();
            let p = post_id as int;
            assert(after.len() == mat.len());
            assert forall|q: int| 0 <= q < after.len() && q != p implies after[q] == mat[q] by {
                assert(self.lists@[q] == start.lists@[q]);
                assert(after[q] =~= start.lists()[q]);
            }
            assert(mat[p].len() <= after[p].len());
            assert forall|k: usize| staged.dom().contains(k) implies k < after[p].len() by {
                assert(terms@.to_set().contains(k));
                let i = choose|i: int| 0 <= i < terms@.len() && terms@[i] == k;
                assert(terms@[i] <= terms@[terms@.len() - 1]);
            }
            assert(staged.dom().contains(max_tid));
            assert(grown_to(mat[p].len(), staged.dom(), after[p].len()));
            assert forall|t: int| 0 <= t < after[p].len() implies #[trigger] after[p][t]
                == posting_at(before, p, t) + staged_at(staged, t) by {
                assert(after[p].len() == self.lists@[p].len());
                let base = start.lists@[p]@[t]@;
                lemma_record_empty(c);
                assert(is_record(base, c));
                assert(record_ids(base, c) == posting_at(before, p, t)) by {
                    if t < mat[p].len() {
                        assert(start.lists()[p][t] == mat[p][t]);
                    }
                }
                if terms@.contains(t as usize) {
                    assert(terms@.to_set().contains(t as usize));
                    lemma_record_concat(base, postings@[t as usize]@, c);
                } else {
                    assert(!terms@.to_set().contains(t as usize));
                    assert(base + Seq::<u8>::empty() == base);
                    assert(posting_at(before, p, t) + Seq::<u64>::empty() == posting_at(
                        before,
                        p,
                        t,
                    ));
                }
            }
        }
        Ok(())
    }

    /// Appends everything that is staged to the records, posting list by
    /// posting list, and leaves nothing staged. Fails, changing nothing, where
    /// something is staged for the largest `usize` as a term id.
    pub fn commit(&mut self) -> (r: Result<(), Error>)
        requires
            old(self).wf(),
        ensures
            final(self).wf(),
            final(self).compressed() == old(self).compressed(),
            r is Err <==> stages_last_term(old(self).pending()),
            r is Err ==> r == Err::<(), Error>(Error::OutOfBounds) && final(self).lists() == old(self).lists() && final(self).pending() == old(self).pending(),
            r is Ok ==> committed(old(self).lists(), old(self).pending(), final(self).lists())
                && final(self).pending() == Seq::<Map<usize, Seq<u64>>>::empty(),
    {
        let top: usize = usize::MAX;
        let mut p: usize = 0;
        while p < self.pending.len()
            invariant
                p <= self.pending@.len(),
                top == usize::MAX,
                *self == *old(self),
                self.wf(),
                forall|q: int| 0 <= q < p ==> !(#[trigger] self.pending()[q]).contains_key(usize::MAX),
            decreases self.pending@.len() - p,
        {
            if self.pending[p].contains_key(&top) {
                assert(self.pending()[p as int].contains_key(usize::MAX));
                return Err(Error::OutOfBounds);
            }
            assert(!self.pending()[p as int].contains_key(usize::MAX));
            p = p + 1;
        }
        let mut staged: Vec<HashMap<usize, Vec<u8>>> = Vec::new();
        core::mem::swap(&mut self.pending, &mut staged);
        let ghost before = old(self).lists();
        let ghost pending = old(self).pending();
        proof {
            lemma_committed_nothing(before);
            assert(pending.take(0) == Seq::<Map<usize, Seq<u64>>>::empty());
            assert(self.pending() =~= Seq::<Map<usize, Seq<u64>>>::empty());
        }
        let mut k: usize = 0;
        while k < staged.len()
            invariant
                k <= staged@.len(),
                staged@.len() == pending.len(),
                self.wf(),
                self.compressed == old(self).compressed,
                self.pending() == Seq::<Map<usize, Seq<u64>>>::empty(),
                forall|q: int|
                    k <= q < staged@.len() ==> staged_wf(#[trigger] staged@[q]@, self.compressed),
                forall|q: int|
                    k <= q < staged@.len() ==> staged_ids(#[trigger] staged@[q]@, self.compressed)
                        == pending[q],
                forall|q: int| 0 <= q < pending.len() ==> !(#[trigger] pending[q]).contains_key(usize::MAX),
                committed(before, pending.take(k as int), self.lists()),
            decreases staged@.len() - k,
        {
            let mut blobs: HashMap<usize, Vec<u8>> = HashMap::new();
            core::mem::swap(&mut staged[k], &mut blobs);
            proof {
                assert(staged_ids(blobs@, self.compressed) == pending[k as int]);
                assert(pending[k as int].dom() =~= blobs@.dom());
                assert(!pending[k as int].contains_key(usize::MAX));
            }
            let ghost now = self.lists();
            if !blobs.is_empty() {
                let done = self.commit_postings(k, blobs);
                assert(done is Ok);
                proof {
                    lemma_committed_step(before, pending, k as int, now, self.lists());
                }
            } else {
                proof {
                    lemma_committed_skip(before, pending, k as int, now);
                }
            }
            k = k + 1;
        }
        proof {
            assert(pending.take(k as int) == pending);
            assert(self.pending() =~= Seq::<Map<usize, Seq<u64>>>::empty());
        }
        Ok(())
    }

    /// The number of posting lists.
    pub fn posting_list_count(&self) -> (n: usize)
        ensures
            n == self.lists().len(),
    {
        self.lists.len()
    }

    /// A pass over the posting of term `term_id` in posting list `post_id`, if
    /// the list exists and has a slot for the term.
    pub fn posting_retriever(&self, post_id: usize, term_id: u64) -> (r: Option<PostingIter<'_>>)
        requires
            self.wf(),
        ensures
            r is Some <==> post_id < self.lists().len() && term_id < self.lists()[post_id as int].len(),
            r matches Some(iter) ==> iter.wf() && iter.remaining()
                == self.lists()[post_id as int][term_id as int],
    {
        if post_id >= self.lists.len() {
            return None;
        }
        let list: &Vec<Vec<u8>> = &self.lists[post_id];
        assert(self.lists()[post_id as int].len() == list@.len());
        if term_id >= list.len() as u64 {
            return None;
        }
        let record: &Vec<u8> = &list[term_id as usize];
        Some(PostingIter::new(record.as_slice(), self.compressed))
    }

    /// Puts one record in ascending order.
    fn sort_record(&mut self, posting_id: usize, term_id: usize)
        requires
            old(self).wf(),
            posting_id < old(self).lists().len(),
            term_id < old(self).lists()[posting_id as int].len(),
        ensures
            final(self).wf(),
            final(self).compressed() == old(self).compressed(),
            final(self).pending() == old(self).pending(),
            posting_sorted(
                old(self).lists(),
                posting_id as int,
                term_id as int,
                final(self).lists(),
            ),
    {
        let ghost before = self.lists@;
        assert(self.lists()[posting_id as int].len() == self.lists@[posting_id as int]@.len());
        let compressed = self.compressed;
        let list: &mut Vec<Vec<u8>> = &mut self.lists[posting_id];
        let record: &mut Vec<u8> = &mut list[term_id];
        let mut ids = decode_record(record.as_slice(), compressed);
        sort_ids(&mut ids);
        let mut sorted = encode_record(ids.as_slice(), compressed);
        core::mem::swap(record, &mut sorted);
        proof {
            let p = posting_id as int;
            let t = term_id as int;
            assert(self.lists@.len() == before.len());
            assert(forall|q: int| 0 <= q < before.len() && q != p ==> self.lists@[q] == before[q]);
            assert(self.lists@[p]@.len() == before[p]@.len());
            assert(forall|u: int|
                0 <= u < before[p]@.len() && u != t ==> self.lists@[p]@[u] == before[p]@[u]);
            assert forall|q: int, u: int|
                0 <= q < self.lists@.len() && 0 <= u < self.lists@[q]@.len() implies is_record(
                #[trigger] self.lists@[q]@[u]@,
                self.compressed,
            ) by {
                if q != p {
                    assert(self.lists@[q] == before[q]);
                } else if u != t {
                    assert(self.lists@[q]@[u] == before[q]@[u]);
                }
            }
            let was = old(self).lists();
            let now = self.lists();
            assert forall|q: int| 0 <= q < was.len() implies (#[trigger] now[q]).len()
                == was[q].len() by {
                if q != p {
                    assert(self.lists@[q] == before[q]);
                }
            }
            assert forall|q: int, u: int|
                0 <= q < was.len() && 0 <= u < was[q].len() && !(q == p && u == t)
                    implies #[trigger] now[q][u] == was[q][u] by {
                if q != p {
                    assert(self.lists@[q] == before[q]);
                } else {
                    assert(self.lists@[q]@[u] == before[q]@[u]);
                }
            }
        }
    }

    /// Puts the posting of term `term_id` in posting list `posting_id` in
    /// ascending order. Refuses while anything is announced or staged. The
    /// list is made to exist first; a term without a slot is out of bounds.
    pub fn sort_postings(&mut self, posting_id: usize, term_id: usize) -> (r: Result<(), Error>)
        requires
            old(self).wf(),
        ensures
            final(self).wf(),
            final(self).compressed() == old(self).compressed(),
            final(self).pending() == old(self).pending(),
            old(self).pending().len() > 0 ==> r == Err::<(), Error>(Error::UnsupportedOperation)
                && final(self).lists() == old(self).lists(),
            old(self).pending().len() == 0 && posting_id == usize::MAX ==> r == Err::<(), Error>(
                Error::OutOfBounds,
            ) && final(self).lists() == old(self).lists(),
            old(self).pending().len() == 0 && posting_id < usize::MAX ==> ({
                let lists = materialized(old(self).lists(), posting_id as nat);
                if term_id < lists[posting_id as int].len() {
                    r is Ok && posting_sorted(
                        lists,
                        posting_id as int,
                        term_id as int,
                        final(self).lists(),
                    )
                } else {
                    r == Err::<(), Error>(Error::OutOfBounds) && final(self).lists() == lists
                }
            }),
    {
        if self.pending.len() > 0 {
            return Err(Error::UnsupportedOperation);
        }
        if posting_id == usize::MAX {
            return Err(Error::OutOfBounds);
        }
        self.materialize(posting_id);
        assert(self.lists().len() == self.lists@.len());
        assert(self.lists()[posting_id as int].len() == self.lists@[posting_id as int]@.len());
        if term_id >= self.lists[posting_id].len() {
            return Err(Error::OutOfBounds);
        }
        self.sort_record(posting_id, term_id);
        Ok(())
    }

    /// Puts every posting in ascending order. Refuses, changing nothing, while
    /// anything is announced or staged.
    pub fn sort_all_postings(&mut self) -> (r: Result<(), Error>)
        requires
            old(self).wf(),
        ensures
            final(self).wf(),
            final(self).compressed() == old(self).compressed(),
            final(self).pending() == old(self).pending(),
            r is Err <==> old(self).pending().len() > 0,
            r is Err ==> r == Err::<(), Error>(Error::UnsupportedOperation) && final(self).lists()
                == old(self).lists(),
            r is Ok ==> all_sorted(old(self).lists(), final(self).lists()),
    {
        if self.pending.len() > 0 {
            return Err(Error::UnsupportedOperation);
        }
        let ghost start = self.lists();
        let posting_list_count = self.lists.len();
        let mut p: usize = 0;
        while p < posting_list_count
            invariant
                p <= posting_list_count,
                posting_list_count == start.len(),
                self.wf(),
                self.compressed == old(self).compressed,
                self.pending() == old(self).pending(),
                self.lists().len() == start.len(),
                forall|q: int| 0 <= q < start.len() ==> (#[trigger] self.lists()[q]).len() == start[q].len(),
                forall|q: int, u: int|
                    0 <= q < p && 0 <= u < start[q].len() ==> sorted_of(
                        start[q][u],
                        #[trigger] self.lists()[q][u],
                    ),
                forall|q: int, u: int|
                    p <= q < start.len() && 0 <= u < start[q].len() ==> #[trigger] self.lists()[q][u]
                        == start[q][u],
            decreases posting_list_count - p,
        {
            assert(self.lists()[p as int].len() == self.lists@[p as int]@.len());
            let term_count = self.lists[p].len();
            let mut t: usize = 0;
            while t < term_count
                invariant
                    t <= term_count,
                    p < posting_list_count,
                    posting_list_count == start.len(),
                    term_count == start[p as int].len(),
                    self.wf(),
                    self.compressed == old(self).compressed,
                    self.pending() == old(self).pending(),
                    self.lists().len() == start.len(),
                    forall|q: int|
                        0 <= q < start.len() ==> (#[trigger] self.lists()[q]).len() == start[q].len(),
                    forall|q: int, u: int|
                        0 <= q < p && 0 <= u < start[q].len() ==> sorted_of(
                            start[q][u],
                            #[trigger] self.lists()[q][u],
                        ),
                    forall|u: int|
                        0 <= u < t ==> sorted_of(
                            start[p as int][u],
                            #[trigger] self.lists()[p as int][u],
                        ),
                    forall|u: int|
                        t <= u < term_count ==> #[trigger] self.lists()[p as int][u]
                            == start[p as int][u],
                    forall|q: int, u: int|
                        p < q < start.len() && 0 <= u < start[q].len() ==> #[trigger] self.lists()[q][u]
                            == start[q][u],
                decreases term_count - t,
            {
                let ghost now = self.lists();
                self.sort_record(p, t);
                proof {
                    let next = self.lists();
                    assert(next[p as int][t as int] == next[p as int][t as int]);
                    assert forall|q: int, u: int|
                        0 <= q < p && 0 <= u < start[q].len() implies sorted_of(
                        start[q][u],
                        #[trigger] next[q][u],
                    ) by {
                        assert(next[q][u] == now[q][u]);
                    }
                    assert forall|u: int| 0 <= u < t + 1 implies sorted_of(
                        start[p as int][u],
                        #[trigger] next[p as int][u],
                    ) by {
                        if u < t {
                            assert(next[p as int][u] == now[p as int][u]);
                        }
                    }
                    assert forall|u: int| t + 1 <= u < term_count implies #[trigger] next[p as int][u]
                        == start[p as int][u] by {
                        assert(next[p as int][u] == now[p as int][u]);
                    }
                    assert forall|q: int, u: int|
                        p < q < start.len() && 0 <= u < start[q].len() implies #[trigger] next[q][u]
                        == start[q][u] by {
                        assert(next[q][u] == now[q][u]);
                    }
                }
                t = t + 1;
            }
            p = p + 1;
        }
        Ok(())
    }
}

} // verus!
