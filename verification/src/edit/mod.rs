//! Bulk insertion into an index: insertions are staged in memory and written
//! in three phases on commit.

pub mod new_item;

pub use crate::edit::new_item::NewItem;

use crate::error::Error;
use crate::index::dict::table::TermTable;
use crate::index::dict::{
    id_after, term_forms, terms_after, terms_after_all, EditableIndexDictionary, IndexDictionary,
    IndexDictionaryEditor,
};
use crate::index::dict::{finds, is_id_after, lemma_id_after};
use crate::index::posting::table::{
    all_sorted, committed, stage_under, staged_after, stages_last_term,
};
use crate::index::posting::{EditableIndexPosting, IndexPosting, IndexPostingEditor};
use crate::index::storage::{
    encodings, stored, EditableIndexStorage, IndexStorage, IndexStorageEditor,
    StorageInsertionResult,
};
use vstd::slice::slice_to_vec;
use crate::index::traits::editable_index::EditableInvertedIndex;
use crate::traits::deser::Deser;
use vstd::prelude::*;
use vstd::std_specs::iter::IteratorSpec;

verus! {

/// A staged posting, as contracts see it: the payload with the provisional
/// storage id `item` is filed, in posting list `list`, under the terms with
/// the provisional ids `terms`.
pub struct PostView {
    pub list: u16,
    pub item: u32,
    pub terms: Seq<u32>,
}

/// A staged posting.
pub struct StagedPost {
    list: u16,
    item: u32,
    terms: Vec<u32>,
}

impl View for StagedPost {
    type V = PostView;

    closed spec fn view(&self) -> PostView {
        PostView { list: self.list, item: self.item, terms: self.terms@ }
    }
}

/// The views of a run of staged postings.
pub open spec fn post_views(posts: Seq<StagedPost>) -> Seq<PostView> {
    Seq::new(posts.len(), |i: int| posts[i]@)
}

/// The provisional ids that a run of terms gets from a batch that already
/// holds `staged`: a term of the batch keeps its id, a new term gets the next.
pub open spec fn provisional_ids(staged: Seq<Seq<u8>>, keys: Seq<Seq<u8>>) -> Seq<u32> {
    Seq::new(
        keys.len(),
        |i: int| id_after(terms_after_all(staged, keys.take(i), true), keys[i], true) as u32,
    )
}

/// The postings that one insertion stages: one for each posting list named,
/// in the order of first mention.
pub open spec fn new_posts(lists: Seq<u16>, item: u32, terms: Seq<u32>) -> Seq<PostView>
    decreases lists.len(),
{
    if lists.len() == 0 {
        Seq::empty()
    } else {
        let before = new_posts(lists.drop_last(), item, terms);
        if lists.drop_last().contains(lists.last()) {
            before
        } else {
            before.push(PostView { list: lists.last(), item, terms })
        }
    }
}

/// In a sequence without duplicates a key is found where it stands.
proof fn lemma_index_of(keys: Seq<Seq<u8>>, i: int)
    requires
        keys.no_duplicates(),
        0 <= i < keys.len(),
    ensures
        keys.index_of(keys[i]) == i,
{
    let j = keys.index_of(keys[i]);
    assert(0 <= j < keys.len() && keys[j] == keys[i]);
}

/// Where the dictionary phase of a commit stands after some terms of the
/// batch: the terms of the dictionary, the cache as keys with their ids
/// beside them, and the permanent ids of the batch terms dealt with so far.
pub struct Resolved {
    pub terms: Seq<Seq<u8>>,
    pub cache_keys: Seq<Seq<u8>>,
    pub cache_ids: Seq<u32>,
    pub ids: Seq<u32>,
}

/// The dictionary phase of a commit on a batch of terms: each term in turn
/// takes its permanent id from the cache, or is handed to the dictionary and
/// goes into the cache with the id that comes back. A cache that already
/// holds as many terms as there are `u32` values takes no more.
pub open spec fn resolved(
    terms: Seq<Seq<u8>>,
    cache_keys: Seq<Seq<u8>>,
    cache_ids: Seq<u32>,
    looks_up: bool,
    batch: Seq<Seq<u8>>,
) -> Resolved
    decreases batch.len(),
{
    if batch.len() == 0 {
        Resolved { terms, cache_keys, cache_ids, ids: Seq::empty() }
    } else {
        let before = resolved(terms, cache_keys, cache_ids, looks_up, batch.drop_last());
        let key = batch.last();
        if before.cache_keys.contains(key) {
            Resolved {
                terms: before.terms,
                cache_keys: before.cache_keys,
                cache_ids: before.cache_ids,
                ids: before.ids.push(before.cache_ids[before.cache_keys.index_of(key)]),
            }
        } else {
            let id = id_after(before.terms, key, looks_up) as u32;
            let room = before.cache_keys.len() <= u32::MAX;
            Resolved {
                terms: terms_after(before.terms, key, looks_up),
                cache_keys: if room {
                    before.cache_keys.push(key)
                } else {
                    before.cache_keys
                },
                cache_ids: if room {
                    before.cache_ids.push(id)
                } else {
                    before.cache_ids
                },
                ids: before.ids.push(id),
            }
        }
    }
}

/// Whether the dictionary phase gets through the batch: the dictionary
/// never runs out of ids for a term it has to append, and no term gets the
/// largest `usize` as its id, for which postings have no slot.
pub open spec fn resolvable(
    terms: Seq<Seq<u8>>,
    cache_keys: Seq<Seq<u8>>,
    cache_ids: Seq<u32>,
    looks_up: bool,
    batch: Seq<Seq<u8>>,
) -> bool
    decreases batch.len(),
{
    if batch.len() == 0 {
        true
    } else {
        let before = resolved(terms, cache_keys, cache_ids, looks_up, batch.drop_last());
        let key = batch.last();
        &&& resolvable(terms, cache_keys, cache_ids, looks_up, batch.drop_last())
        &&& before.cache_keys.contains(key) || finds(before.terms, key, looks_up)
            || before.terms.len() <= u32::MAX
        &&& resolved(terms, cache_keys, cache_ids, looks_up, batch).ids.last() as usize
            != usize::MAX
    }
}

/// A dictionary phase that gets through a batch gets through every start of
/// it.
pub proof fn lemma_resolvable_prefix(
    terms: Seq<Seq<u8>>,
    cache_keys: Seq<Seq<u8>>,
    cache_ids: Seq<u32>,
    looks_up: bool,
    batch: Seq<Seq<u8>>,
    k: int,
)
    requires
        0 <= k <= batch.len(),
        resolvable(terms, cache_keys, cache_ids, looks_up, batch),
    ensures
        resolvable(terms, cache_keys, cache_ids, looks_up, batch.take(k)),
    decreases batch.len(),
{
    if k == batch.len() {
        assert(batch.take(k) == batch);
    } else {
        lemma_resolvable_prefix(terms, cache_keys, cache_ids, looks_up, batch.drop_last(), k);
        assert(batch.drop_last().take(k) == batch.take(k));
    }
}

/// The dictionary phase only ever appends to the dictionary, and gives one
/// id for each term of the batch.
pub proof fn lemma_resolved_grows(
    terms: Seq<Seq<u8>>,
    cache_keys: Seq<Seq<u8>>,
    cache_ids: Seq<u32>,
    looks_up: bool,
    batch: Seq<Seq<u8>>,
)
    ensures
        resolved(terms, cache_keys, cache_ids, looks_up, batch).ids.len() == batch.len(),
        terms.is_prefix_of(resolved(terms, cache_keys, cache_ids, looks_up, batch).terms),
    decreases batch.len(),
{
    if batch.len() > 0 {
        lemma_resolved_grows(terms, cache_keys, cache_ids, looks_up, batch.drop_last());
    }
}

/// The permanent ids of the terms of one staged posting.
pub open spec fn permanent_terms(terms: Seq<u32>, table: Seq<u32>) -> Seq<usize> {
    Seq::new(terms.len(), |j: int| table[terms[j] as int] as usize)
}

/// What the postings editor has staged once every staged posting was handed
/// to it with permanent ids: terms go through `table`, payloads through the
/// ids that the storage gave.
pub open spec fn posts_pending(
    posts: Seq<PostView>,
    table: Seq<u32>,
    ids: StorageInsertionResult,
) -> Seq<Map<usize, Seq<u64>>>
    decreases posts.len(),
{
    if posts.len() == 0 {
        Seq::empty()
    } else {
        let post = posts.last();
        staged_after(
            posts_pending(posts.drop_last(), table, ids),
            post.list as nat,
            permanent_terms(post.terms, table),
            ids.id_of(post.item as int) as u64,
        )
    }
}

/// Staging under some terms adds no other term ids.
pub proof fn lemma_stage_under_keys(staged: Map<usize, Seq<u64>>, terms: Seq<usize>, id: u64, t: usize)
    ensures
        stage_under(staged, terms, id).contains_key(t) <==> staged.contains_key(t)
            || terms.contains(t),
    decreases terms.len(),
{
    if terms.len() > 0 {
        lemma_stage_under_keys(staged, terms.drop_last(), id, t);
        assert(terms == terms.drop_last().push(terms.last()));
        vstd::seq_lib::lemma_seq_contains_after_push(terms.drop_last(), terms.last(), t);
    }
}

/// Where no permanent term id is the largest `usize`, nothing is staged under
/// it.
pub proof fn lemma_posts_pending_fit(posts: Seq<PostView>, table: Seq<u32>, ids: StorageInsertionResult)
    requires
        forall|i: int| 0 <= i < table.len() ==> #[trigger] table[i] as usize != usize::MAX,
        forall|i: int, j: int|
            0 <= i < posts.len() && 0 <= j < posts[i].terms.len() ==> #[trigger] posts[i].terms[j]
                < table.len(),
    ensures
        !stages_last_term(posts_pending(posts, table, ids)),
    decreases posts.len(),
{
    if posts.len() > 0 {
        let post = posts.last();
        let before = posts_pending(posts.drop_last(), table, ids);
        assert forall|i: int, j: int|
            0 <= i < posts.drop_last().len() && 0 <= j < posts.drop_last()[i].terms.len()
                implies #[trigger] posts.drop_last()[i].terms[j] < table.len() by {
            assert(posts.drop_last()[i] == posts[i]);
        }
        lemma_posts_pending_fit(posts.drop_last(), table, ids);
        let terms = permanent_terms(post.terms, table);
        let after = posts_pending(posts, table, ids);
        assert forall|p: int| 0 <= p < after.len() implies !(#[trigger] after[p]).contains_key(
            usize::MAX,
        ) by {
            if terms.len() > 0 {
                let grown = if (post.list as nat) < before.len() {
                    before
                } else {
                    crate::index::posting::table::announced(before, post.list as nat + 1)
                };
                if p < before.len() {
                    assert(!before[p].contains_key(usize::MAX));
                }
                assert(!grown[p].contains_key(usize::MAX));
                if p == post.list {
                    lemma_stage_under_keys(
                        grown[p],
                        terms,
                        ids.id_of(post.item as int) as u64,
                        usize::MAX,
                    );
                    if terms.contains(usize::MAX) {
                        let j = choose|j: int| 0 <= j < terms.len() && terms[j] == usize::MAX;
                        assert(posts[posts.len() - 1].terms[j] < table.len());
                    }
                }
            } else {
                assert(!before[p].contains_key(usize::MAX));
            }
        }
    }
}

/// Whether every storage id in the postings is below `bound`.
pub open spec fn ids_within(lists: Seq<Seq<Seq<u64>>>, bound: nat) -> bool {
    forall|p: int, t: int, k: int|
        0 <= p < lists.len() && 0 <= t < lists[p].len() && 0 <= k < lists[p][t].len()
            ==> #[trigger] lists[p][t][k] < bound
}

/// Whether every staged storage id is below `bound`.
pub open spec fn staged_within(pending: Seq<Map<usize, Seq<u64>>>, bound: nat) -> bool {
    forall|p: int, t: usize, k: int|
        0 <= p < pending.len() && pending[p].contains_key(t) && 0 <= k < pending[p][t].len()
            ==> #[trigger] pending[p][t][k] < bound
}

/// Staging an id below a bound keeps what is staged below the bound.
pub proof fn lemma_stage_under_within(
    staged: Map<usize, Seq<u64>>,
    terms: Seq<usize>,
    id: u64,
    bound: nat,
)
    requires
        id < bound,
        forall|t: usize, k: int|
            staged.contains_key(t) && 0 <= k < staged[t].len() ==> #[trigger] staged[t][k] < bound,
    ensures
        forall|t: usize, k: int|
            stage_under(staged, terms, id).contains_key(t) && 0 <= k < stage_under(
                staged,
                terms,
                id,
            )[t].len() ==> #[trigger] stage_under(staged, terms, id)[t][k] < bound,
    decreases terms.len(),
{
    if terms.len() > 0 {
        lemma_stage_under_within(staged, terms.drop_last(), id, bound);
        let before = stage_under(staged, terms.drop_last(), id);
        let last = terms.last();
        let after = stage_under(staged, terms, id);
        assert forall|t: usize, k: int|
            after.contains_key(t) && 0 <= k < after[t].len() implies #[trigger] after[t][k]
            < bound by {
            if t == last {
                if before.contains_key(t) && k < before[t].len() {
                    assert(after[t][k] == before[t][k]);
                }
            } else {
                assert(after[t] == before[t]);
            }
        }
    }
}

/// Where every staged payload got an id below a bound, everything that the
/// postings phase stages is below the bound.
pub proof fn lemma_posts_pending_within(
    posts: Seq<PostView>,
    table: Seq<u32>,
    ids: StorageInsertionResult,
    bound: nat,
)
    requires
        forall|i: int| 0 <= i < posts.len() ==> 0 <= ids.id_of(#[trigger] posts[i].item as int) < bound,
        bound <= u64::MAX + 1,
    ensures
        staged_within(posts_pending(posts, table, ids), bound),
    decreases posts.len(),
{
    if posts.len() > 0 {
        let post = posts.last();
        let before = posts_pending(posts.drop_last(), table, ids);
        assert forall|i: int| 0 <= i < posts.drop_last().len() implies 0 <= ids.id_of(
            #[trigger] posts.drop_last()[i].item as int,
        ) < bound by {
            assert(posts.drop_last()[i] == posts[i]);
        }
        lemma_posts_pending_within(posts.drop_last(), table, ids, bound);
        let terms = permanent_terms(post.terms, table);
        let id = ids.id_of(post.item as int) as u64;
        assert(posts[posts.len() - 1] == post);
        assert(id < bound);
        let after = posts_pending(posts, table, ids);
        if terms.len() > 0 {
            let grown = if (post.list as nat) < before.len() {
                before
            } else {
                crate::index::posting::table::announced(before, post.list as nat + 1)
            };
            assert forall|t: usize, k: int|
                grown[post.list as int].contains_key(t) && 0 <= k < grown[post.list as int][t].len()
                    implies #[trigger] grown[post.list as int][t][k] < bound by {
                if post.list < before.len() {
                    assert(before[post.list as int][t][k] < bound);
                }
            }
            lemma_stage_under_within(grown[post.list as int], terms, id, bound);
            assert forall|p: int, t: usize, k: int|
                0 <= p < after.len() && after[p].contains_key(t) && 0 <= k < after[p][t].len()
                    implies #[trigger] after[p][t][k] < bound by {
                if p != post.list {
                    if p < before.len() {
                        assert(before[p][t][k] < bound);
                    }
                }
            }
        }
    }
}

/// A commit into an index whose storage gives out consecutive ids keeps every
/// storage id in the postings below the number of payloads in the storage:
/// no posting names a payload that is not there.
pub proof fn lemma_commit_keeps_ids_in_storage<T: Deser, S: Deser, E: EditableInvertedIndex<T, S>>(
    before: E,
    staged: Staging<T, S>,
    after: E,
    ids: StorageInsertionResult,
)
    requires
        staged.wf(),
        index_committed(before, staged, after, ids),
        before.storage_part().consecutive(),
        ids_within(before.postings_part().lists(), before.storage_part().count()),
    ensures
        ids_within(after.postings_part().lists(), after.storage_part().count()),
{
    let done = resolved(
        before.dict_part().terms(),
        staged.cached_terms(),
        staged.cached_ids(),
        before.dict_part().looks_up(),
        staged.terms(),
    );
    let bound = after.storage_part().count();
    let old_lists = before.postings_part().lists();
    let new_lists = after.postings_part().lists();
    let pending = posts_pending(staged.posts(), done.ids, ids);
    staged.lemma_posts_name_items();
    assert(encodings(staged.items()).len() == staged.items().len());
    lemma_posts_pending_within(staged.posts(), done.ids, ids, bound);
    assert forall|p: int, t: int, k: int|
        0 <= p < new_lists.len() && 0 <= t < new_lists[p].len() && 0 <= k < new_lists[p][t].len()
            implies #[trigger] new_lists[p][t][k] < bound by {
        let was = crate::index::posting::table::posting_at(old_lists, p, t);
        let added = crate::index::posting::table::staged_in(pending, p, t);
        assert(new_lists[p][t] == was + added);
        if k < was.len() {
            assert(old_lists[p][t][k] < before.storage_part().count());
        } else {
            assert(added[k - was.len()] == pending[p][t as usize][k - was.len()]);
        }
    }
}

/// Whether every term with a posting that is not empty has an id below
/// `bound`.
pub open spec fn terms_within(lists: Seq<Seq<Seq<u64>>>, bound: nat) -> bool {
    forall|p: int, t: int|
        0 <= p < lists.len() && 0 <= t < lists[p].len() && (#[trigger] lists[p][t]).len() > 0 ==> t
            < bound
}

/// Whether every id in a run of term ids is below `bound`.
pub open spec fn all_below(ids: Seq<u32>, bound: nat) -> bool {
    forall|i: int| 0 <= i < ids.len() ==> #[trigger] ids[i] < bound
}

/// A dictionary phase that gets through its batch hands out only ids of
/// terms that the dictionary then holds, and caches only such ids, where the
/// cache held only such ids before.
pub proof fn lemma_resolved_within(
    terms: Seq<Seq<u8>>,
    cache_keys: Seq<Seq<u8>>,
    cache_ids: Seq<u32>,
    looks_up: bool,
    batch: Seq<Seq<u8>>,
)
    requires
        cache_keys.len() == cache_ids.len(),
        all_below(cache_ids, terms.len()),
        resolvable(terms, cache_keys, cache_ids, looks_up, batch),
        terms.len() <= u32::MAX + 1,
    ensures
        ({
            let done = resolved(terms, cache_keys, cache_ids, looks_up, batch);
            &&& done.cache_keys.len() == done.cache_ids.len()
            &&& terms.len() <= done.terms.len() <= u32::MAX + 1
            &&& all_below(done.cache_ids, done.terms.len())
            &&& all_below(done.ids, done.terms.len())
        }),
    decreases batch.len(),
{
    if batch.len() > 0 {
        lemma_resolved_within(terms, cache_keys, cache_ids, looks_up, batch.drop_last());
        let before = resolved(terms, cache_keys, cache_ids, looks_up, batch.drop_last());
        let key = batch.last();
        let done = resolved(terms, cache_keys, cache_ids, looks_up, batch);
        if before.cache_keys.contains(key) {
            let at = before.cache_keys.index_of(key);
            assert(0 <= at < before.cache_keys.len());
            assert(before.cache_ids[at] < before.terms.len());
        } else {
            let id = id_after(before.terms, key, looks_up);
            if finds(before.terms, key, looks_up) {
                let at = choose|i: int| 0 <= i < before.terms.len() && before.terms[i] == key;
                crate::index::dict::lemma_first_exists(before.terms, key, at);
                lemma_id_after(before.terms, key, looks_up, id);
            }
            assert(0 <= id < done.terms.len());
            assert(id <= u32::MAX);
        }
    }
}

/// Whatever the postings phase stages, it stages under the permanent id of a
/// staged term.
pub proof fn lemma_posts_pending_keys(
    posts: Seq<PostView>,
    table: Seq<u32>,
    ids: StorageInsertionResult,
    p: int,
    t: usize,
)
    requires
        forall|i: int, j: int|
            0 <= i < posts.len() && 0 <= j < posts[i].terms.len() ==> #[trigger] posts[i].terms[j]
                < table.len(),
        0 <= p < posts_pending(posts, table, ids).len(),
        posts_pending(posts, table, ids)[p].contains_key(t),
    ensures
        exists|k: int| 0 <= k < table.len() && #[trigger] table[k] as usize == t,
    decreases posts.len(),
{
    if posts.len() > 0 {
        let post = posts.last();
        let before = posts_pending(posts.drop_last(), table, ids);
        let terms = permanent_terms(post.terms, table);
        let id = ids.id_of(post.item as int) as u64;
        assert forall|i: int, j: int|
            0 <= i < posts.drop_last().len() && 0 <= j < posts.drop_last()[i].terms.len()
                implies #[trigger] posts.drop_last()[i].terms[j] < table.len() by {
            assert(posts.drop_last()[i] == posts[i]);
        }
        if terms.len() == 0 {
            lemma_posts_pending_keys(posts.drop_last(), table, ids, p, t);
        } else {
            let grown = if (post.list as nat) < before.len() {
                before
            } else {
                crate::index::posting::table::announced(before, post.list as nat + 1)
            };
            if p == post.list {
                lemma_stage_under_keys(grown[p], terms, id, t);
                if terms.contains(t) {
                    let j = choose|j: int| 0 <= j < terms.len() && terms[j] == t;
                    assert(posts[posts.len() - 1].terms[j] < table.len());
                    assert(table[post.terms[j] as int] as usize == t);
                } else {
                    assert(grown[p].contains_key(t));
                    assert(p < before.len());
                    lemma_posts_pending_keys(posts.drop_last(), table, ids, p, t);
                }
            } else {
                assert(grown[p].contains_key(t));
                assert(p < before.len());
                lemma_posts_pending_keys(posts.drop_last(), table, ids, p, t);
            }
        }
    }
}

/// A commit keeps every term that has a posting in the dictionary: where
/// every term with a posting had an id below the number of terms before,
/// and the editor had cached only such ids, both hold after the commit too.
pub proof fn lemma_commit_keeps_terms_in_dictionary<
    T: Deser,
    S: Deser,
    E: EditableInvertedIndex<T, S>,
>(before: E, staged: Staging<T, S>, after: E, ids: StorageInsertionResult)
    requires
        staged.wf(),
        index_committed(before, staged, after, ids),
        resolvable(
            before.dict_part().terms(),
            staged.cached_terms(),
            staged.cached_ids(),
            before.dict_part().looks_up(),
            staged.terms(),
        ),
        before.dict_part().terms().len() <= u32::MAX + 1,
        all_below(staged.cached_ids(), before.dict_part().terms().len()),
        terms_within(before.postings_part().lists(), before.dict_part().terms().len()),
    ensures
        after.dict_part().terms().len() <= u32::MAX + 1,
        before.dict_part().terms().len() <= after.dict_part().terms().len(),
        terms_within(after.postings_part().lists(), after.dict_part().terms().len()),
        all_below(
            resolved(
                before.dict_part().terms(),
                staged.cached_terms(),
                staged.cached_ids(),
                before.dict_part().looks_up(),
                staged.terms(),
            ).cache_ids,
            after.dict_part().terms().len(),
        ),
{
    let done = resolved(
        before.dict_part().terms(),
        staged.cached_terms(),
        staged.cached_ids(),
        before.dict_part().looks_up(),
        staged.terms(),
    );
    staged.lemma_posts_name_items();
    lemma_resolved_within(
        before.dict_part().terms(),
        staged.cached_terms(),
        staged.cached_ids(),
        before.dict_part().looks_up(),
        staged.terms(),
    );
    lemma_resolved_grows(
        before.dict_part().terms(),
        staged.cached_terms(),
        staged.cached_ids(),
        before.dict_part().looks_up(),
        staged.terms(),
    );
    let old_lists = before.postings_part().lists();
    let new_lists = after.postings_part().lists();
    let pending = posts_pending(staged.posts(), done.ids, ids);
    let bound = after.dict_part().terms().len();
    assert forall|p: int, t: int|
        0 <= p < new_lists.len() && 0 <= t < new_lists[p].len() && (
        #[trigger] new_lists[p][t]).len() > 0 implies t < bound by {
        let was = crate::index::posting::table::posting_at(old_lists, p, t);
        let added = crate::index::posting::table::staged_in(pending, p, t);
        assert(new_lists[p][t] == was + added);
        if was.len() > 0 {
            assert(old_lists[p][t].len() > 0);
        } else {
            assert(added.len() > 0);
            lemma_posts_pending_keys(staged.posts(), done.ids, ids, p, t as usize);
            let k = choose|k: int| 0 <= k < done.ids.len() && #[trigger] done.ids[k] as usize == t;
            assert(done.ids[k] < bound);
        }
    }
}

/// Whether the three parts of an index are fit for use.
pub open spec fn index_wf<T: Deser, S: Deser, E: EditableInvertedIndex<T, S>>(index: &E) -> bool {
    &&& index.dict_part().wf()
    &&& index.storage_part().wf()
    &&& index.postings_part().wf()
}

/// Whether the staging structures fit together.
spec fn fits<T: Deser, S>(
    items: Seq<S>,
    terms: TermTable,
    values: Seq<T>,
    posts: Seq<StagedPost>,
    cache: TermTable,
    cache_ids: Seq<u32>,
) -> bool {
    &&& terms.wf()
    &&& terms.keys().no_duplicates()
    &&& terms.keys().len() <= u32::MAX
    &&& values.len() == terms.keys().len()
    &&& forall|i: int| 0 <= i < values.len() ==> (#[trigger] values[i]).encoding() == terms.keys()[i]
    &&& items.len() <= u32::MAX
    &&& cache.wf()
    &&& cache.keys().no_duplicates()
    &&& cache_ids.len() == cache.keys().len()
    &&& forall|i: int|
        0 <= i < posts.len() ==> {
            let post = #[trigger] posts[i];
            &&& post.item < items.len()
            &&& forall|j: int|
                0 <= j < post.terms@.len() ==> #[trigger] post.terms@[j] < terms.keys().len()
        }
    &&& items.len() == 0 ==> terms.keys().len() == 0 && posts.len() == 0
}

/// What an editor has staged: payloads, terms and postings with provisional
/// ids, and the permanent term ids it has seen.
pub struct Staging<T, S> {
    /// Whether `finish` puts all postings in ascending order.
    sorted_postings: bool,
    /// The staged payloads; the position is the provisional storage id.
    stored_items: Vec<S>,
    /// The staged terms by serialized form; the position is the provisional
    /// term id.
    terms: TermTable,
    /// The staged terms themselves, at the same positions.
    term_values: Vec<T>,
    /// The staged postings, in the order they were staged.
    post_map: Vec<StagedPost>,
    /// The terms whose permanent id this editor has seen, by serialized form.
    cache: TermTable,
    /// The permanent ids of the cached terms, at the same positions.
    cache_ids: Vec<u32>,
}

impl<T: Deser, S: Deser> Staging<T, S> {
    /// Whether `finish` puts all postings in ascending order.
    pub closed spec fn sorts(&self) -> bool {
        self.sorted_postings
    }

    /// The staged payloads; the position is the provisional storage id.
    pub closed spec fn items(&self) -> Seq<S> {
        self.stored_items@
    }

    /// The staged terms by serialized form; the position is the provisional
    /// term id.
    pub closed spec fn terms(&self) -> Seq<Seq<u8>> {
        self.terms.keys()
    }

    /// The staged postings, in the order they were staged.
    pub closed spec fn posts(&self) -> Seq<PostView> {
        post_views(self.post_map@)
    }

    /// The terms whose permanent id the editor has seen, by serialized form,
    /// in the order it saw them.
    pub closed spec fn cached_terms(&self) -> Seq<Seq<u8>> {
        self.cache.keys()
    }

    /// The permanent ids of the cached terms, at the same positions.
    pub closed spec fn cached_ids(&self) -> Seq<u32> {
        self.cache_ids@
    }

    /// The staging structures fit together: no term is staged twice, every
    /// staged posting names a staged payload and staged terms, provisional
    /// ids fit in `u32`, and without a staged payload nothing is staged.
    pub closed spec fn wf(&self) -> bool {
        fits(
            self.stored_items@,
            self.terms,
            self.term_values@,
            self.post_map@,
            self.cache,
            self.cache_ids@,
        )
    }

    /// Every staged posting names a staged payload and staged terms.
    pub proof fn lemma_posts_name_items(&self)
        requires
            self.wf(),
        ensures
            forall|i: int|
                0 <= i < self.posts().len() ==> (#[trigger] self.posts()[i]).item
                    < self.items().len(),
            forall|i: int, j: int|
                0 <= i < self.posts().len() && 0 <= j < self.posts()[i].terms.len()
                    ==> #[trigger] self.posts()[i].terms[j] < self.terms().len(),
            self.terms().no_duplicates(),
            self.terms().len() <= u32::MAX,
            self.items().len() <= u32::MAX,
            self.cached_terms().len() == self.cached_ids().len(),
            self.items().len() == 0 ==> self.terms().len() == 0 && self.posts().len() == 0,
    {
        assert forall|i: int| 0 <= i < self.posts().len() implies (#[trigger] self.posts()[i]).item
            < self.items().len() by {
            assert(self.post_map@[i].item < self.stored_items@.len());
        }
        assert forall|i: int, j: int|
            0 <= i < self.posts().len() && 0 <= j < self.posts()[i].terms.len()
                implies #[trigger] self.posts()[i].terms[j] < self.terms().len() by {
            assert(self.post_map@[i].terms@[j] < self.terms.keys().len());
        }
    }

    /// The same staging with the sort armed.
    fn armed(self) -> (staging: Self)
        ensures
            staging.sorts(),
            staging.wf() == self.wf(),
            staging.items() == self.items(),
            staging.terms() == self.terms(),
            staging.posts() == self.posts(),
            staging.cached_terms() == self.cached_terms(),
            staging.cached_ids() == self.cached_ids(),
    {
        let Staging { sorted_postings, stored_items, terms, term_values, post_map, cache, cache_ids } =
            self;
        Staging {
            sorted_postings: true,
            stored_items,
            terms,
            term_values,
            post_map,
            cache,
            cache_ids,
        }
    }

    /// Stages the payload and hands back its provisional storage id: the
    /// number of payloads staged before.
    fn insert_store_item_temp(&mut self, store_item: S) -> (id: u32)
        requires
            old(self).stored_items@.len() < u32::MAX,
        ensures
            id == old(self).stored_items@.len(),
            final(self).stored_items@ == old(self).stored_items@.push(store_item),
            final(self).sorted_postings == old(self).sorted_postings,
            final(self).terms == old(self).terms,
            final(self).term_values == old(self).term_values,
            final(self).post_map == old(self).post_map,
            final(self).cache == old(self).cache,
            final(self).cache_ids == old(self).cache_ids,
    {
        let id: u32 = self.stored_items.len() as u32;
        self.stored_items.push(store_item);
        id
    }

    /// Stages the terms and hands back their provisional ids, in order: a
    /// term of the batch keeps its id, a new term gets the next.
    fn insert_terms_temp(&mut self, terms: Vec<T>) -> (out: Vec<u32>)
        requires
            old(self).terms.wf(),
            old(self).terms.keys().no_duplicates(),
            old(self).term_values@.len() == old(self).terms.keys().len(),
            forall|i: int|
                0 <= i < old(self).term_values@.len() ==> (#[trigger] old(self).term_values@[i]).encoding() == old(self).terms.keys()[i],
            old(self).terms.keys().len() + terms@.len() <= u32::MAX,
        ensures
            final(self).terms.wf(),
            final(self).terms.keys().no_duplicates(),
            final(self).term_values@.len() == final(self).terms.keys().len(),
            forall|i: int|
                0 <= i < final(self).term_values@.len() ==> (#[trigger] final(self).term_values@[i]).encoding() == final(self).terms.keys()[i],
            final(self).terms.keys() == terms_after_all(
                old(self).terms.keys(),
                term_forms(terms@),
                true,
            ),
            final(self).terms.keys().len() <= old(self).terms.keys().len() + terms@.len(),
            old(self).terms.keys().len() <= final(self).terms.keys().len(),
            out@ == provisional_ids(old(self).terms.keys(), term_forms(terms@)),
            forall|j: int| 0 <= j < out@.len() ==> #[trigger] out@[j] < final(self).terms.keys().len(),
            final(self).sorted_postings == old(self).sorted_postings,
            final(self).stored_items == old(self).stored_items,
            final(self).post_map == old(self).post_map,
            final(self).cache == old(self).cache,
            final(self).cache_ids == old(self).cache_ids,
    {
        let ghost start = self.terms.keys();
        let ghost forms = term_forms(terms@);
        let ghost count = terms@.len();
        let mut out: Vec<u32> = Vec::with_capacity(terms.len());
        proof {
            assert(forms.take(0) == Seq::<Seq<u8>>::empty());
        }
        for term in it: terms
            invariant
                it.seq().len() == count,
                forms == term_forms(it.seq()),
                start == old(self).terms.keys(),
                start.len() + count <= u32::MAX,
                self.terms.wf(),
                self.terms.keys().no_duplicates(),
                self.term_values@.len() == self.terms.keys().len(),
                forall|i: int|
                    0 <= i < self.term_values@.len() ==> (#[trigger] self.term_values@[i]).encoding()
                        == self.terms.keys()[i],
                self.terms.keys() == terms_after_all(start, forms.take(it.index()), true),
                start.len() <= self.terms.keys().len() <= start.len() + it.index(),
                out@.len() == it.index(),
                forall|j: int|
                    0 <= j < it.index() ==> #[trigger] out@[j] == provisional_ids(start, forms)[j],
                forall|j: int| 0 <= j < out@.len() ==> #[trigger] out@[j] < self.terms.keys().len(),
                self.sorted_postings == old(self).sorted_postings,
                self.stored_items == old(self).stored_items,
                self.post_map == old(self).post_map,
                self.cache == old(self).cache,
                self.cache_ids == old(self).cache_ids,
        {
            let ghost i = it.index();
            let ghost before = self.terms.keys();
            let key = term.serialize();
            let ghost form = key@;
            proof {
                assert(forms[i] == form);
                assert(forms.take(i + 1).drop_last() == forms.take(i));
                assert(forms.take(i + 1).last() == form);
            }
            let id: u32 = match self.terms.find(key.as_slice()) {
                Some(found) => {
                    proof {
                        assert(before.contains(form));
                        crate::index::dict::lemma_id_after(before, form, true, found as int);
                    }
                    found
                },
                None => {
                    let given = self.terms.push(key);
                    self.term_values.push(term);
                    proof {
                        assert forall|a: int, b: int|
                            0 <= a < b < self.terms.keys().len() implies self.terms.keys()[a]
                            != self.terms.keys()[b] by {
                            if b == before.len() {
                                assert(before.contains(before[a]));
                            }
                        }
                    }
                    given.unwrap()
                },
            };
            out.push(id);
        }
        proof {
            assert(forms.take(count as int) == forms);
            assert(out@ =~= provisional_ids(start, forms));
        }
        out
    }

    /// Whether `list` stands among the first `upto` entries of `lists`.
    fn named_before(lists: &[u16], upto: usize, list: u16) -> (found: bool)
        requires
            upto <= lists@.len(),
        ensures
            found == lists@.take(upto as int).contains(list),
    {
        let mut k: usize = 0;
        while k < upto
            invariant
                k <= upto <= lists@.len(),
                !lists@.take(k as int).contains(list),
            decreases upto - k,
        {
            if lists[k] == list {
                assert(lists@.take(upto as int)[k as int] == list);
                return true;
            }
            assert(lists@.take(k + 1) == lists@.take(k as int).push(lists@[k as int]));
            k = k + 1;
        }
        false
    }

    /// Stages one insertion for the posting lists named in `postings`. The
    /// payload is staged once, however many lists are named. With no terms
    /// or no posting list nothing is staged and `false` comes back. Fails,
    /// staging nothing, where provisional ids would no longer fit in `u32`.
    pub fn insert_in_postings(&mut self, new_item: NewItem<T, S>, postings: &[u16]) -> (r: Result<
        bool,
        Error,
    >)
        requires
            old(self).wf(),
        ensures
            final(self).wf(),
            final(self).sorts() == old(self).sorts(),
            final(self).cached_terms() == old(self).cached_terms(),
            final(self).cached_ids() == old(self).cached_ids(),
            ({
                let keys = term_forms(new_item.spec_terms());
                if keys.len() == 0 || postings@.len() == 0 {
                    &&& r == Ok::<bool, Error>(false)
                    &&& final(self).items() == old(self).items()
                    &&& final(self).terms() == old(self).terms()
                    &&& final(self).posts() == old(self).posts()
                } else if old(self).terms().len() + keys.len() > u32::MAX || old(self).items().len()
                    >= u32::MAX {
                    &&& r == Err::<bool, Error>(Error::OutOfBounds)
                    &&& final(self).items() == old(self).items()
                    &&& final(self).terms() == old(self).terms()
                    &&& final(self).posts() == old(self).posts()
                } else {
                    &&& r == Ok::<bool, Error>(true)
                    &&& final(self).items() == old(self).items().push(new_item.spec_store_item())
                    &&& final(self).terms() == terms_after_all(old(self).terms(), keys, true)
                    &&& final(self).posts() == old(self).posts() + new_posts(
                        postings@,
                        old(self).items().len() as u32,
                        provisional_ids(old(self).terms(), keys),
                    )
                }
            }),
    {
        let ghost given = new_item;
        let mut new_item = new_item;
        if new_item.terms().len() == 0 || postings.len() == 0 {
            return Ok(false);
        }
        let limit: usize = u32::MAX as usize;
        if self.terms.len() > limit || new_item.terms().len() > limit - self.terms.len()
            || self.stored_items.len() >= limit {
            return Err(Error::OutOfBounds);
        }
        let ghost start = *self;
        let temp_term_ids = self.insert_terms_temp(new_item.take_terms());
        let stored_item_id = self.insert_store_item_temp(new_item.into_store_item());
        proof {
            assert(new_posts(postings@.take(0), stored_item_id, temp_term_ids@)
                == Seq::<PostView>::empty());
            assert(self.posts() + Seq::<PostView>::empty() == self.posts());
        }
        let mut j: usize = 0;
        while j < postings.len()
            invariant
                j <= postings.len(),
                self.sorted_postings == start.sorted_postings,
                self.stored_items@ == start.stored_items@.push(given.spec_store_item()),
                stored_item_id == start.stored_items@.len(),
                self.cache == start.cache,
                self.cache_ids == start.cache_ids,
                fits(
                    self.stored_items@,
                    self.terms,
                    self.term_values@,
                    start.post_map@,
                    self.cache,
                    self.cache_ids@,
                ),
                self.terms.keys() == terms_after_all(
                    start.terms.keys(),
                    term_forms(given.spec_terms()),
                    true,
                ),
                forall|k: int|
                    0 <= k < temp_term_ids@.len() ==> #[trigger] temp_term_ids@[k]
                        < self.terms.keys().len(),
                temp_term_ids@ == provisional_ids(
                    start.terms.keys(),
                    term_forms(given.spec_terms()),
                ),
                self.wf(),
                self.posts() == start.posts() + new_posts(
                    postings@.take(j as int),
                    stored_item_id,
                    temp_term_ids@,
                ),
            decreases postings.len() - j,
        {
            let list: u16 = postings[j];
            let ghost before = self.posts();
            proof {
                assert(postings@.take(j + 1).drop_last() == postings@.take(j as int));
                assert(postings@.take(j + 1).last() == list);
            }
            if !Self::named_before(postings, j, list) {
                let terms = temp_term_ids.clone();
                assert(terms@ == temp_term_ids@);
                let post = StagedPost { list, item: stored_item_id, terms };
                self.post_map.push(post);
                proof {
                    assert(self.posts() =~= before.push(post@));
                    assert(before.push(post@) =~= start.posts() + new_posts(
                        postings@.take(j + 1),
                        stored_item_id,
                        temp_term_ids@,
                    ));
                }
            }
            j = j + 1;
        }
        proof {
            assert(postings@.take(j as int) == postings@);
        }
        Ok(true)
    }

    /// Makes room for this many more payloads and terms.
    pub fn reserve(&mut self, items: usize, terms: usize)
        requires
            old(self).wf(),
        ensures
            final(self).wf(),
            final(self).sorts() == old(self).sorts(),
            final(self).cached_terms() == old(self).cached_terms(),
            final(self).cached_ids() == old(self).cached_ids(),
            final(self).items() == old(self).items(),
            final(self).terms() == old(self).terms(),
            final(self).posts() == old(self).posts(),
    {
        let _ = self.stored_items.try_reserve(items);
        let _ = self.term_values.try_reserve(terms);
        let _ = self.post_map.try_reserve(terms);
    }

    /// The dictionary phase of a commit: finds the permanent id of every
    /// staged term, in the order of the provisional ids. A term that the
    /// cache holds takes its id from there; any other is handed to the
    /// dictionary and goes into the cache with the id that comes back. Fails
    /// where the dictionary runs out of ids or hands out the largest `usize`.
    fn resolve_terms<D: IndexDictionaryEditor<T>>(&mut self, dict: &mut D) -> (r: Result<
        Vec<u32>,
        Error,
    >)
        requires
            old(self).wf(),
            old(dict).wf(),
        ensures
            final(dict).wf(),
            final(dict).looks_up() == old(dict).looks_up(),
            old(dict).terms().is_prefix_of(final(dict).terms()),
            final(self).sorted_postings == old(self).sorted_postings,
            final(self).stored_items == old(self).stored_items,
            final(self).terms == old(self).terms,
            final(self).term_values == old(self).term_values,
            final(self).post_map == old(self).post_map,
            final(self).cache.wf(),
            final(self).cache.keys().no_duplicates(),
            final(self).cache_ids@.len() == final(self).cache.keys().len(),
            r is Ok <==> resolvable(
                old(dict).terms(),
                old(self).cached_terms(),
                old(self).cached_ids(),
                old(dict).looks_up(),
                old(self).terms(),
            ),
            r matches Err(e) ==> e == Error::OutOfBounds,
            r matches Ok(table) ==> ({
                let done = resolved(
                    old(dict).terms(),
                    old(self).cached_terms(),
                    old(self).cached_ids(),
                    old(dict).looks_up(),
                    old(self).terms(),
                );
                &&& table@ == done.ids
                &&& final(dict).terms() == done.terms
                &&& final(self).cached_terms() == done.cache_keys
                &&& final(self).cached_ids() == done.cache_ids
                &&& forall|j: int| 0 <= j < table@.len() ==> #[trigger] table@[j] as usize != usize::MAX
            }),
    {
        let ghost terms0 = dict.terms();
        let ghost keys0 = self.cache.keys();
        let ghost ids0 = self.cache_ids@;
        let ghost looks = dict.looks_up();
        let ghost batch = self.terms.keys();
        let count = self.term_values.len();
        let mut table: Vec<u32> = Vec::with_capacity(count);
        let mut i: usize = 0;
        proof {
            assert(batch.take(0) == Seq::<Seq<u8>>::empty());
        }
        while i < count
            invariant
                i <= count,
                count == batch.len(),
                count <= u32::MAX,
                terms0 == old(dict).terms(),
                keys0 == old(self).cached_terms(),
                ids0 == old(self).cached_ids(),
                looks == old(dict).looks_up(),
                batch == old(self).terms(),
                self.sorted_postings == old(self).sorted_postings,
                self.stored_items == old(self).stored_items,
                self.terms == old(self).terms,
                self.term_values == old(self).term_values,
                self.post_map == old(self).post_map,
                self.terms.keys() == batch,
                self.term_values@.len() == count,
                forall|k: int|
                    0 <= k < count ==> (#[trigger] self.term_values@[k]).encoding() == batch[k],
                dict.wf(),
                dict.looks_up() == looks,
                terms0.is_prefix_of(dict.terms()),
                self.cache.wf(),
                self.cache.keys().no_duplicates(),
                self.cache_ids@.len() == self.cache.keys().len(),
                resolvable(terms0, keys0, ids0, looks, batch.take(i as int)),
                dict.terms() == resolved(terms0, keys0, ids0, looks, batch.take(i as int)).terms,
                self.cache.keys() == resolved(
                    terms0,
                    keys0,
                    ids0,
                    looks,
                    batch.take(i as int),
                ).cache_keys,
                self.cache_ids@ == resolved(terms0, keys0, ids0, looks, batch.take(i as int)).cache_ids,
                table@ == resolved(terms0, keys0, ids0, looks, batch.take(i as int)).ids,
                forall|j: int| 0 <= j < table@.len() ==> #[trigger] table@[j] as usize != usize::MAX,
            decreases count - i,
        {
            let ghost before = resolved(terms0, keys0, ids0, looks, batch.take(i as int));
            let ghost form = batch[i as int];
            proof {
                assert(batch.take(i + 1).drop_last() == batch.take(i as int));
                assert(batch.take(i + 1).last() == form);
            }
            let key = self.terms.key(i as u32);
            let id: u32 = match self.cache.find(key) {
                Some(at) => {
                    proof {
                        lemma_index_of(self.cache.keys(), at as int);
                    }
                    self.cache_ids[at as usize]
                },
                None => {
                    let given = match dict.insert_or_get_single(&self.term_values[i]) {
                        Ok(given) => given,
                        Err(e) => {
                            proof {
                                if resolvable(terms0, keys0, ids0, looks, batch) {
                                    lemma_resolvable_prefix(
                                        terms0,
                                        keys0,
                                        ids0,
                                        looks,
                                        batch,
                                        i + 1,
                                    );
                                }
                            }
                            return Err(e);
                        },
                    };
                    proof {
                        lemma_id_after(before.terms, form, looks, given as int);
                        let keys = self.cache.keys();
                        assert forall|a: int, b: int|
                            0 <= a < b < keys.push(form).len() implies keys.push(form)[a]
                            != keys.push(form)[b] by {
                            if b == keys.len() {
                                assert(keys.contains(keys[a]));
                            }
                        }
                    }
                    let owned = slice_to_vec(key);
                    match self.cache.push(owned) {
                        Some(_) => {
                            self.cache_ids.push(given);
                        },
                        None => {},
                    }
                    given
                },
            };
            if id as usize == usize::MAX {
                proof {
                    if resolvable(terms0, keys0, ids0, looks, batch) {
                        lemma_resolvable_prefix(terms0, keys0, ids0, looks, batch, i + 1);
                    }
                }
                return Err(Error::OutOfBounds);
            }
            table.push(id);
            i = i + 1;
        }
        proof {
            assert(batch.take(i as int) == batch);
        }
        Ok(table)
    }

    /// The postings phase of a commit: hands every staged posting to the
    /// postings editor, terms and payload under their permanent ids.
    fn stage_posts<P: IndexPostingEditor>(
        &self,
        postings: &mut P,
        table: &Vec<u32>,
        store_ids: &StorageInsertionResult,
    )
        requires
            self.wf(),
            table@.len() == self.terms().len(),
            store_ids.covers(self.items().len()),
            old(postings).wf(),
            old(postings).pending() == Seq::<Map<usize, Seq<u64>>>::empty(),
        ensures
            final(postings).wf(),
            final(postings).lists() == old(postings).lists(),
            final(postings).pending() == posts_pending(self.posts(), table@, *store_ids),
    {
        let mut k: usize = 0;
        proof {
            assert(self.posts().take(0) == Seq::<PostView>::empty());
        }
        while k < self.post_map.len()
            invariant
                k <= self.post_map@.len(),
                self.wf(),
                table@.len() == self.terms().len(),
                store_ids.covers(self.items().len()),
                postings.wf(),
                postings.lists() == old(postings).lists(),
                postings.pending() == posts_pending(
                    self.posts().take(k as int),
                    table@,
                    *store_ids,
                ),
            decreases self.post_map@.len() - k,
        {
            let post: &StagedPost = &self.post_map[k];
            let ghost view = self.posts()[k as int];
            proof {
                assert(view == post@);
                assert(self.posts().take(k + 1).drop_last() == self.posts().take(k as int));
                assert(self.posts().take(k + 1).last() == view);
            }
            let mut terms_buf: Vec<usize> = Vec::with_capacity(post.terms.len());
            let mut j: usize = 0;
            while j < post.terms.len()
                invariant
                    j <= post.terms@.len(),
                    table@.len() == self.terms().len(),
                    forall|i: int|
                        0 <= i < post.terms@.len() ==> #[trigger] post.terms@[i]
                            < self.terms.keys().len(),
                    terms_buf@.len() == j,
                    forall|i: int|
                        0 <= i < j ==> #[trigger] terms_buf@[i] == permanent_terms(
                            post.terms@,
                            table@,
                        )[i],
                decreases post.terms@.len() - j,
            {
                let provisional: u32 = post.terms[j];
                terms_buf.push(table[provisional as usize] as usize);
                j = j + 1;
            }
            assert(terms_buf@ =~= permanent_terms(post.terms@, table@));
            let found = store_ids.get(post.item as usize);
            assert(found is Some);
            let store_id: u64 = found.unwrap();
            let _ = postings.insert_posts(post.list, store_id, terms_buf.as_slice());
            k = k + 1;
        }
        proof {
            assert(self.posts().take(k as int) == self.posts());
        }
    }

    /// Drops everything that is staged. The cache and the armed sort stay.
    fn clear(&mut self)
        requires
            old(self).cache.wf(),
            old(self).cache.keys().no_duplicates(),
            old(self).cache_ids@.len() == old(self).cache.keys().len(),
        ensures
            final(self).wf(),
            final(self).sorts() == old(self).sorts(),
            final(self).cached_terms() == old(self).cached_terms(),
            final(self).cached_ids() == old(self).cached_ids(),
            final(self).items() == Seq::<S>::empty(),
            final(self).terms() == Seq::<Seq<u8>>::empty(),
            final(self).posts() == Seq::<PostView>::empty(),
    {
        self.stored_items.clear();
        self.terms = TermTable::new();
        self.term_values.clear();
        self.post_map.clear();
        proof {
            assert(self.posts() =~= Seq::<PostView>::empty());
        }
    }

    /// Nothing staged, nothing seen, no sort armed.
    pub fn new() -> (staging: Self)
        ensures
            staging.wf(),
            !staging.sorts(),
            staging.items() == Seq::<S>::empty(),
            staging.terms() == Seq::<Seq<u8>>::empty(),
            staging.posts() == Seq::<PostView>::empty(),
            staging.cached_terms() == Seq::<Seq<u8>>::empty(),
            staging.cached_ids() == Seq::<u32>::empty(),
    {
        let staging = Staging {
            sorted_postings: false,
            stored_items: Vec::new(),
            terms: TermTable::new(),
            term_values: Vec::new(),
            post_map: Vec::new(),
            cache: TermTable::new(),
            cache_ids: Vec::new(),
        };
        proof {
            assert(staging.posts() =~= Seq::<PostView>::empty());
        }
        staging
    }
}

/// Whether `after` is the index `before` once `staged` was committed and the
/// storage gave the staged payloads the ids `ids`: the dictionary holds what
/// its phase leaves, the storage holds the payloads under their ids, and the
/// postings hold every staged posting under permanent ids.
pub open spec fn index_committed<T: Deser, S: Deser, E: EditableInvertedIndex<T, S>>(
    before: E,
    staged: Staging<T, S>,
    after: E,
    ids: StorageInsertionResult,
) -> bool {
    let done = resolved(
        before.dict_part().terms(),
        staged.cached_terms(),
        staged.cached_ids(),
        before.dict_part().looks_up(),
        staged.terms(),
    );
    &&& after.dict_part().terms() == done.terms
    &&& after.dict_part().looks_up() == before.dict_part().looks_up()
    &&& stored(
        before.storage_part().items(),
        ids,
        encodings(staged.items()),
        after.storage_part().items(),
    )
    &&& after.storage_part().consecutive() == before.storage_part().consecutive()
    &&& ids is First <==> before.storage_part().consecutive()
    &&& match ids {
        StorageInsertionResult::First(first) => first == before.storage_part().count()
            && after.storage_part().count() == before.storage_part().count() + staged.items().len(),
        StorageInsertionResult::Ids(_) => after.storage_part().count()
            == before.storage_part().count(),
    }
    &&& committed(
        before.postings_part().lists(),
        posts_pending(staged.posts(), done.ids, ids),
        after.postings_part().lists(),
    )
}

/// Stages insertions into an index and commits them in bulk. While the editor
/// lives it alone holds the index.
pub struct IndexEditor<'a, E, T, S> {
    /// The index that is edited.
    pub index: &'a mut E,
    /// What is staged for the next commit.
    pub staging: Staging<T, S>,
}

impl<'a, E, T, S> IndexEditor<'a, E, T, S> where
    T: Deser,
    S: Deser,
    E: EditableInvertedIndex<T, S>,
 {
    /// The editor and the index it holds are fit for use.
    pub open spec fn wf(&self) -> bool {
        &&& self.staging.wf()
        &&& index_wf::<T, S, E>(&*self.index)
    }

    /// An editor over `index` with nothing staged.
    pub fn new(index: &'a mut E) -> (editor: Self)
        ensures
            *editor.index == *old(index),
            *final(editor.index) == *final(index),
            editor.staging.wf(),
            !editor.staging.sorts(),
            editor.staging.items() == Seq::<S>::empty(),
            editor.staging.terms() == Seq::<Seq<u8>>::empty(),
            editor.staging.posts() == Seq::<PostView>::empty(),
            editor.staging.cached_terms() == Seq::<Seq<u8>>::empty(),
            editor.staging.cached_ids() == Seq::<u32>::empty(),
    {
        IndexEditor { index, staging: Staging::new() }
    }

    /// Arms the sort of all postings that `finish` then performs.
    pub fn with_sorted_postings(self) -> (editor: Self)
        ensures
            editor.staging.sorts(),
            *editor.index == *old(self.index),
            *final(editor.index) == *final(self.index),
            editor.staging.wf() == self.staging.wf(),
            editor.staging.items() == self.staging.items(),
            editor.staging.terms() == self.staging.terms(),
            editor.staging.posts() == self.staging.posts(),
            editor.staging.cached_terms() == self.staging.cached_terms(),
            editor.staging.cached_ids() == self.staging.cached_ids(),
    {
        let IndexEditor { index, staging } = self;
        IndexEditor { index, staging: staging.armed() }
    }

    /// The number of staged payloads.
    pub fn pending_count(&self) -> (n: usize)
        ensures
            n == self.staging.items().len(),
    {
        self.staging.stored_items.len()
    }

    /// Whether anything is staged.
    pub fn has_pending(&self) -> (b: bool)
        ensures
            b == (self.staging.items().len() > 0),
    {
        self.pending_count() > 0
    }

    /// Stages one insertion for posting list 0.
    pub fn insert(&mut self, new_item: NewItem<T, S>) -> (r: Result<bool, Error>)
        requires
            old(self).wf(),
        ensures
            final(self).wf(),
            *final(self).index == *old(self).index,
            *final(final(self).index) == *final(old(self).index),
            final(self).staging.sorts() == old(self).staging.sorts(),
            final(self).staging.cached_terms() == old(self).staging.cached_terms(),
            final(self).staging.cached_ids() == old(self).staging.cached_ids(),
            ({
                let keys = term_forms(new_item.spec_terms());
                let before = old(self).staging;
                let after = final(self).staging;
                if keys.len() == 0 {
                    &&& r == Ok::<bool, Error>(false)
                    &&& after.items() == before.items()
                    &&& after.terms() == before.terms()
                    &&& after.posts() == before.posts()
                } else if before.terms().len() + keys.len() > u32::MAX || before.items().len()
                    >= u32::MAX {
                    &&& r == Err::<bool, Error>(Error::OutOfBounds)
                    &&& after.items() == before.items()
                    &&& after.terms() == before.terms()
                    &&& after.posts() == before.posts()
                } else {
                    &&& r == Ok::<bool, Error>(true)
                    &&& after.items() == before.items().push(new_item.spec_store_item())
                    &&& after.terms() == terms_after_all(before.terms(), keys, true)
                    &&& after.posts() == before.posts().push(
                        PostView {
                            list: 0,
                            item: before.items().len() as u32,
                            terms: provisional_ids(before.terms(), keys),
                        },
                    )
                }
            }),
    {
        let lists: [u16; 1] = [0];
        proof {
            let item = old(self).staging.items().len() as u32;
            let terms = provisional_ids(
                old(self).staging.terms(),
                term_forms(new_item.spec_terms()),
            );
            assert(lists@ =~= seq![0u16]);
            assert(lists@.drop_last() == Seq::<u16>::empty());
            assert(new_posts(lists@.drop_last(), item, terms) == Seq::<PostView>::empty());
            assert(new_posts(lists@, item, terms) =~= seq![PostView { list: 0, item, terms }]);
            assert(forall|s: Seq<PostView>, p: PostView| #[trigger] s.push(p) == s + seq![p]);
        }
        self.staging.insert_in_postings(new_item, lists.as_slice())
    }

    /// Makes room for this many more payloads and terms.
    pub fn reserve(&mut self, items: usize, terms: usize)
        requires
            old(self).wf(),
        ensures
            final(self).wf(),
            *final(self).index == *old(self).index,
            *final(final(self).index) == *final(old(self).index),
            final(self).staging.sorts() == old(self).staging.sorts(),
            final(self).staging.cached_terms() == old(self).staging.cached_terms(),
            final(self).staging.cached_ids() == old(self).staging.cached_ids(),
            final(self).staging.items() == old(self).staging.items(),
            final(self).staging.terms() == old(self).staging.terms(),
            final(self).staging.posts() == old(self).staging.posts(),
    {
        self.staging.reserve(items, terms);
    }

    /// Stages one insertion for the posting lists named in `postings`. The
    /// payload is staged once, however many lists are named. With no terms
    /// or no posting list nothing is staged and `false` comes back. Fails,
    /// staging nothing, where provisional ids would no longer fit in `u32`.
    pub fn insert_in_postings(&mut self, new_item: NewItem<T, S>, postings: &[u16]) -> (r: Result<
        bool,
        Error,
    >)
        requires
            old(self).wf(),
        ensures
            final(self).wf(),
            *final(self).index == *old(self).index,
            *final(final(self).index) == *final(old(self).index),
            final(self).staging.sorts() == old(self).staging.sorts(),
            final(self).staging.cached_terms() == old(self).staging.cached_terms(),
            final(self).staging.cached_ids() == old(self).staging.cached_ids(),
            ({
                let keys = term_forms(new_item.spec_terms());
                let before = old(self).staging;
                let after = final(self).staging;
                if keys.len() == 0 || postings@.len() == 0 {
                    &&& r == Ok::<bool, Error>(false)
                    &&& after.items() == before.items()
                    &&& after.terms() == before.terms()
                    &&& after.posts() == before.posts()
                } else if before.terms().len() + keys.len() > u32::MAX || before.items().len()
                    >= u32::MAX {
                    &&& r == Err::<bool, Error>(Error::OutOfBounds)
                    &&& after.items() == before.items()
                    &&& after.terms() == before.terms()
                    &&& after.posts() == before.posts()
                } else {
                    &&& r == Ok::<bool, Error>(true)
                    &&& after.items() == before.items().push(new_item.spec_store_item())
                    &&& after.terms() == terms_after_all(before.terms(), keys, true)
                    &&& after.posts() == before.posts() + new_posts(
                        postings@,
                        before.items().len() as u32,
                        provisional_ids(before.terms(), keys),
                    )
                }
            }),
    {
        self.staging.insert_in_postings(new_item, postings)
    }

    /// Tells the dictionary that about `count` terms of `term_avg_size`
    /// bytes each are coming. Nothing that can be observed changes; where no
    /// room can be had the call fails.
    pub fn announce_dict_term_count(&mut self, count: usize, term_avg_size: usize) -> (r: Result<
        (),
        Error,
    >)
        requires
            old(self).wf(),
        ensures
            final(self).wf(),
            *final(final(self).index) == *final(old(self).index),
            final(self).staging == old(self).staging,
            final(self).index.dict_part().terms() == old(self).index.dict_part().terms(),
            final(self).index.dict_part().looks_up() == old(self).index.dict_part().looks_up(),
            final(self).index.storage_part() == old(self).index.storage_part(),
            final(self).index.postings_part() == old(self).index.postings_part(),
            r matches Err(e) ==> e == Error::OutOfBounds,
    {
        let dict = self.index.get_dict_mut();
        let editor = dict.editor();
        editor.announce_new_terms(count, term_avg_size)
    }

    /// Writes what is staged into the index, in three phases: the payloads
    /// go into the storage in one call, which says which ids they got; every
    /// staged term gets its permanent id from the cache or the dictionary;
    /// every staged posting is handed to the postings under permanent ids,
    /// and the postings commit. With nothing staged nothing happens. A commit
    /// that fails leaves the editor unfit for further use.
    pub fn commit(&mut self) -> (r: Result<(), Error>)
        requires
            old(self).wf(),
        ensures
            *final(final(self).index) == *final(old(self).index),
            old(self).staging.items().len() == 0 ==> r is Ok && *final(self).index == *old(self).index && final(self).staging == old(self).staging,
            old(self).staging.items().len() > 0 ==> {
                &&& r is Ok <==> resolvable(
                    old(self).index.dict_part().terms(),
                    old(self).staging.cached_terms(),
                    old(self).staging.cached_ids(),
                    old(self).index.dict_part().looks_up(),
                    old(self).staging.terms(),
                )
                &&& r matches Err(e) ==> e == Error::OutOfBounds
            },
            r is Ok ==> final(self).wf(),
            index_wf::<T, S, E>(&*final(self).index),
            old(self).index.dict_part().terms().is_prefix_of(final(self).index.dict_part().terms()),
            r is Err ==> final(self).index.postings_part() == old(self).index.postings_part()
                && old(self).index.dict_part().terms().is_prefix_of(
                final(self).index.dict_part().terms(),
            ),
            r is Ok && old(self).staging.items().len() > 0 ==> {
                let done = resolved(
                    old(self).index.dict_part().terms(),
                    old(self).staging.cached_terms(),
                    old(self).staging.cached_ids(),
                    old(self).index.dict_part().looks_up(),
                    old(self).staging.terms(),
                );
                &&& final(self).staging.sorts() == old(self).staging.sorts()
                &&& final(self).staging.cached_terms() == done.cache_keys
                &&& final(self).staging.cached_ids() == done.cache_ids
                &&& final(self).staging.items() == Seq::<S>::empty()
                &&& final(self).staging.terms() == Seq::<Seq<u8>>::empty()
                &&& final(self).staging.posts() == Seq::<PostView>::empty()
                &&& exists|ids: StorageInsertionResult| #[trigger]
                    index_committed(*old(self).index, old(self).staging, *final(self).index, ids)
                &&& old(self).index.storage_part().consecutive() ==> index_committed(
                    *old(self).index,
                    old(self).staging,
                    *final(self).index,
                    StorageInsertionResult::First(old(self).index.storage_part().count() as u64),
                )
            },
    {
        if !self.has_pending() {
            return Ok(());
        }
        let ghost before = *self.index;
        let store_ids = {
            let storage = self.index.get_storage_mut();
            let editor = storage.editor();
            match editor.insert_items(self.staging.stored_items.as_slice()) {
                Ok(ids) => ids,
                Err(e) => {
                    return Err(e);
                },
            }
        };
        let ghost stored_index = *self.index;
        let table = {
            let dict = self.index.get_dict_mut();
            let editor = dict.editor();
            match self.staging.resolve_terms(editor) {
                Ok(table) => table,
                Err(e) => {
                    return Err(e);
                },
            }
        };
        let ghost resolved_index = *self.index;
        let ghost resolved_staging = self.staging;
        proof {
            lemma_resolved_grows(
                before.dict_part().terms(),
                old(self).staging.cached_terms(),
                old(self).staging.cached_ids(),
                before.dict_part().looks_up(),
                old(self).staging.terms(),
            );
            assert(resolved_staging.wf());
            assert(resolved_staging.posts() == old(self).staging.posts());
            assert(resolved_staging.items() == old(self).staging.items());
            assert(resolved_staging.terms() == old(self).staging.terms());
        }
        {
            let postings = self.index.get_postings_mut();
            let editor = postings.editor();
            self.staging.stage_posts(editor, &table, &store_ids);
            proof {
                assert forall|i: int, j: int|
                    0 <= i < self.staging.posts().len() && 0 <= j < self.staging.posts()[i].terms.len()
                        implies #[trigger] self.staging.posts()[i].terms[j] < table@.len() by {
                    assert(self.staging.post_map@[i].terms@[j] < self.staging.terms.keys().len());
                }
                lemma_posts_pending_fit(self.staging.posts(), table@, store_ids);
            }
            match editor.commit() {
                Ok(_) => {},
                Err(e) => {
                    return Err(e);
                },
            }
        }
        self.staging.clear();
        proof {
            assert(index_committed(before, old(self).staging, *self.index, store_ids));
        }
        Ok(())
    }

    /// Ends the editing and gives the index back. Where the sort is armed
    /// every posting is put in ascending order first. What is staged and not
    /// committed is dropped.
    pub fn finish(self) -> (r: Result<(), Error>)
        requires
            old(self.index).postings_part().wf(),
        ensures
            r is Ok,
            final(self.index).dict_part() == old(self.index).dict_part(),
            final(self.index).storage_part() == old(self.index).storage_part(),
            final(self.index).postings_part().wf(),
            if self.staging.sorts() {
                all_sorted(
                    old(self.index).postings_part().lists(),
                    final(self.index).postings_part().lists(),
                )
            } else {
                final(self.index).postings_part().lists() == old(self.index).postings_part().lists()
            },
    {
        let IndexEditor { index, staging } = self;
        if staging.sorted_postings {
            let postings = index.get_postings_mut();
            let editor = postings.editor();
            editor.sort_all_postings()
        } else {
            Ok(())
        }
    }
}

} // verus!
