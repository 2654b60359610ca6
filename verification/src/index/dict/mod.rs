//! Dictionaries: terms and the ids they were given.

pub mod default;
pub mod ngram;
pub mod simple;
pub mod sorted;
pub mod table;

use crate::error::Error;
use crate::index::dict::table::is_first_at;
use crate::traits::deser::Deser;
use vstd::prelude::*;

verus! {

/// The serialized forms of a run of terms.
pub open spec fn term_forms<T: Deser>(terms: Seq<T>) -> Seq<Seq<u8>> {
    Seq::new(terms.len(), |i: int| terms[i].encoding())
}

/// Whether a dictionary with these terms, asked to insert `key`, finds it
/// rather than appending it: it looks terms up first and holds the term.
pub open spec fn finds(terms: Seq<Seq<u8>>, key: Seq<u8>, looks_up: bool) -> bool {
    looks_up && terms.contains(key)
}

/// The terms of a dictionary after `key` was inserted.
pub open spec fn terms_after(terms: Seq<Seq<u8>>, key: Seq<u8>, looks_up: bool) -> Seq<Seq<u8>> {
    if finds(terms, key, looks_up) {
        terms
    } else {
        terms.push(key)
    }
}

/// Whether `id` is what inserting `key` hands back: the first id of the term
/// where it is found, the next free id where it is appended.
pub open spec fn is_id_after(terms: Seq<Seq<u8>>, key: Seq<u8>, looks_up: bool, id: int) -> bool {
    if finds(terms, key, looks_up) {
        is_first_at(terms, key, id)
    } else {
        id == terms.len()
    }
}

/// The id that inserting `key` hands back.
pub open spec fn id_after(terms: Seq<Seq<u8>>, key: Seq<u8>, looks_up: bool) -> int {
    if finds(terms, key, looks_up) {
        choose|i: int| is_first_at(terms, key, i)
    } else {
        terms.len() as int
    }
}

/// Only one id is the one that inserting a term hands back.
pub proof fn lemma_id_after(terms: Seq<Seq<u8>>, key: Seq<u8>, looks_up: bool, id: int)
    requires
        is_id_after(terms, key, looks_up, id),
    ensures
        id == id_after(terms, key, looks_up),
        0 <= id <= terms.len(),
        id < terms_after(terms, key, looks_up).len(),
        terms_after(terms, key, looks_up)[id] == key,
{
    if finds(terms, key, looks_up) {
        let other = choose|i: int| is_first_at(terms, key, i);
        assert(is_first_at(terms, key, other));
        if other < id {
            assert(terms[other] != key);
        }
        if id < other {
            assert(terms[id] != key);
        }
    }
}

/// Ids are stable: a dictionary only ever grows at its end, so a term keeps
/// the id it has, whatever is inserted later.
pub proof fn lemma_ids_are_stable(before: Seq<Seq<u8>>, after: Seq<Seq<u8>>, key: Seq<u8>, id: int)
    requires
        before.is_prefix_of(after),
        is_first_at(before, key, id),
    ensures
        is_first_at(after, key, id),
        0 <= id < after.len(),
{
    assert(after[id] == before[id]);
    assert forall|j: int| 0 <= j < id implies after[j] != key by {
        assert(after[j] == before[j]);
    }
}

/// An insertion only ever appends: the terms before it are a start of the
/// terms after it, whatever the term and whether or not it is looked up.
pub proof fn lemma_insertion_appends(terms: Seq<Seq<u8>>, key: Seq<u8>, looks_up: bool)
    ensures
        terms.is_prefix_of(terms_after(terms, key, looks_up)),
        terms_after(terms, key, looks_up).len() == terms.len() + if finds(terms, key, looks_up) {
            0int
        } else {
            1int
        },
{
}

/// A run of insertions only ever appends.
pub proof fn lemma_insertions_append(terms: Seq<Seq<u8>>, keys: Seq<Seq<u8>>, looks_up: bool)
    ensures
        terms.is_prefix_of(terms_after_all(terms, keys, looks_up)),
    decreases keys.len(),
{
    if keys.len() > 0 {
        lemma_insertions_append(terms, keys.drop_last(), looks_up);
        lemma_insertion_appends(
            terms_after_all(terms, keys.drop_last(), looks_up),
            keys.last(),
            looks_up,
        );
    }
}

/// What was inserted is found under the id that the insertion handed back,
/// and a term is found only if it was inserted: the terms of a dictionary
/// are exactly those that were inserted, each at the position of its id.
/// This holds of a dictionary that looks terms up before it inserts them. Of
/// one that does not it holds as long as the term is new: a term appended a
/// second time gets a second id, and lookups keep finding the first.
pub proof fn lemma_inserted_is_found(terms: Seq<Seq<u8>>, key: Seq<u8>, looks_up: bool, id: int)
    requires
        looks_up || !terms.contains(key),
        is_id_after(terms, key, looks_up, id),
    ensures
        is_first_at(terms_after(terms, key, looks_up), key, id),
        forall|other: Seq<u8>|
            other != key ==> (terms_after(terms, key, looks_up).contains(other) <==> terms.contains(
                other,
            )),
{
    let after = terms_after(terms, key, looks_up);
    if !finds(terms, key, looks_up) {
        assert(after[id] == key);
        assert forall|j: int| 0 <= j < id implies after[j] != key by {
            assert(terms.contains(terms[j]));
        }
    }
    assert forall|other: Seq<u8>| other != key implies (after.contains(other) <==> terms.contains(
        other,
    )) by {
        if !finds(terms, key, looks_up) {
            vstd::seq_lib::lemma_seq_contains_after_push(terms, key, other);
        }
    }
}

/// Different terms have different ids: two terms that are found under one id
/// are the same term.
pub proof fn lemma_one_id_one_term<T: Deser>(terms: Seq<Seq<u8>>, a: T, b: T, id: int)
    requires
        is_first_at(terms, a.encoding(), id),
        is_first_at(terms, b.encoding(), id),
    ensures
        a.alike(&b),
{
    a.lemma_one_form(&b);
}

/// One term has one id: two terms that are the same term are found under
/// the same id, or neither is found.
pub proof fn lemma_one_term_one_id<T: Deser>(terms: Seq<Seq<u8>>, a: T, b: T, id: int)
    requires
        a.alike(&b),
    ensures
        is_first_at(terms, a.encoding(), id) == is_first_at(terms, b.encoding(), id),
        terms.contains(a.encoding()) == terms.contains(b.encoding()),
{
    a.lemma_one_form(&b);
}

/// Inserting a term twice into a dictionary that looks terms up hands back
/// the same id both times; the dictionary grows by one term the first time,
/// if the term is new, and not at all the second time.
pub proof fn lemma_insert_twice(terms: Seq<Seq<u8>>, key: Seq<u8>)
    ensures
        ({
            let once = terms_after(terms, key, true);
            let twice = terms_after(once, key, true);
            &&& once.len() == terms.len() + if terms.contains(key) {
                0int
            } else {
                1int
            }
            &&& twice == once
            &&& id_after(once, key, true) == id_after(terms, key, true)
            &&& is_id_after(terms, key, true, id_after(terms, key, true))
        }),
{
    let once = terms_after(terms, key, true);
    let first = id_after(terms, key, true);
    if terms.contains(key) {
        let at = choose|i: int| 0 <= i < terms.len() && terms[i] == key;
        lemma_first_exists(terms, key, at);
    } else {
        assert(once[terms.len() as int] == key);
        assert(once.contains(key));
        assert(is_first_at(once, key, first)) by {
            assert forall|j: int| 0 <= j < first implies once[j] != key by {
                assert(terms.contains(terms[j]));
            }
        }
        lemma_id_after(once, key, true, first);
    }
}

/// A term that stands somewhere stands somewhere first.
pub proof fn lemma_first_exists(terms: Seq<Seq<u8>>, key: Seq<u8>, at: int)
    requires
        0 <= at < terms.len(),
        terms[at] == key,
    ensures
        exists|i: int| is_first_at(terms, key, i),
        is_first_at(terms, key, id_after(terms, key, true)),
    decreases at,
{
    if forall|j: int| 0 <= j < at ==> terms[j] != key {
        assert(is_first_at(terms, key, at));
    } else {
        let j = choose|j: int| 0 <= j < at && terms[j] == key;
        lemma_first_exists(terms, key, j);
    }
    assert(terms.contains(key));
}

/// The terms of a dictionary after each of `keys` was inserted in turn.
pub open spec fn terms_after_all(terms: Seq<Seq<u8>>, keys: Seq<Seq<u8>>, looks_up: bool) -> Seq<
    Seq<u8>,
>
    decreases keys.len(),
{
    if keys.len() == 0 {
        terms
    } else {
        terms_after(terms_after_all(terms, keys.drop_last(), looks_up), keys.last(), looks_up)
    }
}

/// Whether term `k` of a run of insertions finds all ids taken: the terms
/// before it are inserted, it is not found and would have to be appended,
/// and no id that fits in `u32` is left.
pub open spec fn full_at(terms: Seq<Seq<u8>>, keys: Seq<Seq<u8>>, looks_up: bool, k: int) -> bool {
    let before = terms_after_all(terms, keys.take(k), looks_up);
    !finds(before, keys[k], looks_up) && before.len() > u32::MAX
}

/// Whether a run of insertions runs out of ids.
pub open spec fn runs_out(terms: Seq<Seq<u8>>, keys: Seq<Seq<u8>>, looks_up: bool) -> bool {
    exists|k: int| 0 <= k < keys.len() && #[trigger] full_at(terms, keys, looks_up, k)
}

/// Read access to the dictionary of an index.
pub trait IndexDictionary<T: Deser> {
    /// What the dictionary must satisfy for its methods to be called.
    spec fn wf(&self) -> bool;

    /// The terms of the dictionary, each by its serialized form, at the
    /// position of its id.
    spec fn terms(&self) -> Seq<Seq<u8>>;

    /// Every id fits in `u32`: there are no more terms than `u32` has values.
    proof fn lemma_ids_fit(&self)
        requires
            self.wf(),
        ensures
            self.terms().len() <= u32::MAX + 1,
    ;

    /// The id of `term`: the first position at which it stands.
    fn term_id(&self, term: &T) -> (id: Option<u32>)
        requires
            self.wf(),
        ensures
            id matches Some(found) ==> is_first_at(self.terms(), term.encoding(), found as int),
            id is None ==> !self.terms().contains(term.encoding()),
    ;

    /// Whether `term` is in the dictionary.
    fn has_term(&self, term: &T) -> (b: bool)
        requires
            self.wf(),
        ensures
            b == self.terms().contains(term.encoding()),
    {
        self.term_id(term).is_some()
    }

    /// The number of terms in the dictionary.
    fn len(&self) -> (n: usize)
        requires
            self.wf(),
        ensures
            n == self.terms().len(),
    ;

    /// Whether the dictionary has no terms.
    fn is_empty(&self) -> (b: bool)
        requires
            self.wf(),
        ensures
            b == (self.terms().len() == 0),
    {
        self.len() == 0
    }
}

/// A dictionary that lends out an editor.
pub trait EditableIndexDictionary<T: Deser>: IndexDictionary<T> {
    type Editor: IndexDictionaryEditor<T>;

    /// Whether the editor looks a term up before it inserts it.
    spec fn looks_up(&self) -> bool;

    /// Lends out the editor. What the editor holds when it is given back is
    /// what the dictionary holds from then on.
    fn editor(&mut self) -> (editor: &mut Self::Editor)
        requires
            old(self).wf(),
        ensures
            editor.wf(),
            editor.terms() == old(self).terms(),
            editor.looks_up() == old(self).looks_up(),
            final(self).wf() == final(editor).wf(),
            final(self).terms() == final(editor).terms(),
            final(self).looks_up() == final(editor).looks_up(),
    ;
}

/// Write access to a dictionary. Terms are only ever appended: ids are given
/// in order, from zero, and never change.
pub trait IndexDictionaryEditor<T: Deser> {
    /// What the editor must satisfy for its methods to be called.
    spec fn wf(&self) -> bool;

    /// The terms of the dictionary, each by its serialized form, at the
    /// position of its id.
    spec fn terms(&self) -> Seq<Seq<u8>>;

    /// Whether an insertion looks the term up first and hands back the id it
    /// has. An editor that does not appends every term it is given.
    spec fn looks_up(&self) -> bool;

    /// Tells the editor that about `terms` terms of `term_size` bytes each
    /// are coming, so that it can make room. The dictionary's terms stay as
    /// they are; where no room can be had the call fails.
    fn announce_new_terms(&mut self, terms: usize, term_size: usize) -> (r: Result<(), Error>)
        requires
            old(self).wf(),
        ensures
            final(self).wf(),
            final(self).looks_up() == old(self).looks_up(),
            final(self).terms() == old(self).terms(),
            r matches Err(e) ==> e == Error::OutOfBounds,
    ;

    /// Hands back the id of `term`, inserting it where needed. An editor that
    /// looks terms up hands back the id of a term it holds; otherwise the
    /// term is appended and gets the next id. Fails, changing nothing, where
    /// the term would be appended and all ids that fit in `u32` are taken.
    fn insert_or_get_single(&mut self, term: &T) -> (r: Result<u32, Error>)
        requires
            old(self).wf(),
        ensures
            final(self).wf(),
            final(self).looks_up() == old(self).looks_up(),
            r is Err <==> !finds(old(self).terms(), term.encoding(), old(self).looks_up()) && old(self).terms().len() > u32::MAX,
            r matches Err(e) ==> e == Error::OutOfBounds && final(self).terms() == old(self).terms(),
            r matches Ok(id) ==> final(self).terms() == terms_after(
                old(self).terms(),
                term.encoding(),
                old(self).looks_up(),
            ) && is_id_after(old(self).terms(), term.encoding(), old(self).looks_up(), id as int),
    ;

    /// Hands back the ids of `terms`, in their order, inserting each term
    /// where needed: announces the run, then inserts term by term. With no
    /// terms it succeeds. It fails where no room could be had for a run that
    /// is not empty, and where a term has to be appended with all ids taken;
    /// the terms before that one stay inserted.
    fn insert_or_get(&mut self, terms: &[T]) -> (r: Result<Vec<u32>, Error>)
        requires
            old(self).wf(),
        ensures
            final(self).wf(),
            final(self).looks_up() == old(self).looks_up(),
            terms@.len() == 0 ==> r is Ok,
            runs_out(old(self).terms(), term_forms(terms@), old(self).looks_up()) ==> r is Err,
            r matches Ok(ids) ==> {
                &&& ids@.len() == terms@.len()
                &&& final(self).terms() == terms_after_all(
                    old(self).terms(),
                    term_forms(terms@),
                    old(self).looks_up(),
                )
                &&& forall|i: int|
                    0 <= i < terms@.len() ==> is_id_after(
                        terms_after_all(
                            old(self).terms(),
                            term_forms(terms@).take(i),
                            old(self).looks_up(),
                        ),
                        terms@[i].encoding(),
                        old(self).looks_up(),
                        #[trigger] ids@[i] as int,
                    )
            },
            r matches Err(e) ==> e == Error::OutOfBounds && exists|k: int|
                0 <= k < terms@.len() && final(self).terms() == #[trigger] terms_after_all(
                    old(self).terms(),
                    term_forms(terms@).take(k),
                    old(self).looks_up(),
                ),
    {
        let announced = self.announce_new_terms(terms.len(), 500);
        let r = self.insert_each(announced, terms);
        proof {
            if r is Err && announced is Err {
                assert(term_forms(terms@).take(0) == Seq::<Seq<u8>>::empty());
                assert(self.terms() == terms_after_all(
                    old(self).terms(),
                    term_forms(terms@).take(0),
                    old(self).looks_up(),
                ));
            }
        }
        r
    }

    /// Inserts the terms of an announced run one by one and hands back their
    /// ids, in their order. `announced` is what the announcement of the run
    /// came to. With no terms it succeeds. For a run that is not empty it
    /// fails exactly where the announcement failed, and then nothing is
    /// inserted, or where a term has to be appended with all ids taken, and
    /// then the terms before the first such term stay inserted.
    fn insert_each(&mut self, announced: Result<(), Error>, terms: &[T]) -> (r: Result<
        Vec<u32>,
        Error,
    >)
        requires
            old(self).wf(),
        ensures
            final(self).wf(),
            final(self).looks_up() == old(self).looks_up(),
            r is Err <==> terms@.len() > 0 && (announced is Err || runs_out(
                old(self).terms(),
                term_forms(terms@),
                old(self).looks_up(),
            )),
            r matches Ok(ids) ==> {
                &&& ids@.len() == terms@.len()
                &&& final(self).terms() == terms_after_all(
                    old(self).terms(),
                    term_forms(terms@),
                    old(self).looks_up(),
                )
                &&& forall|i: int|
                    0 <= i < terms@.len() ==> is_id_after(
                        terms_after_all(
                            old(self).terms(),
                            term_forms(terms@).take(i),
                            old(self).looks_up(),
                        ),
                        terms@[i].encoding(),
                        old(self).looks_up(),
                        #[trigger] ids@[i] as int,
                    )
            },
            r matches Err(e) ==> match announced {
                Err(refused) => e == refused && final(self).terms() == old(self).terms(),
                Ok(_) => e == Error::OutOfBounds && exists|k: int|
                    0 <= k < terms@.len() && #[trigger] full_at(
                        old(self).terms(),
                        term_forms(terms@),
                        old(self).looks_up(),
                        k,
                    ) && (forall|j: int|
                        0 <= j < k ==> !#[trigger] full_at(
                            old(self).terms(),
                            term_forms(terms@),
                            old(self).looks_up(),
                            j,
                        )) && final(self).terms() == terms_after_all(
                        old(self).terms(),
                        term_forms(terms@).take(k),
                        old(self).looks_up(),
                    ),
            },
    {
        let mut ids: Vec<u32> = Vec::with_capacity(terms.len());
        let ghost start = self.terms();
        let ghost looks_up = self.looks_up();
        let ghost forms = term_forms(terms@);
        if terms.len() > 0 {
            if let Err(refused) = announced {
                return Err(refused);
            }
        }
        let mut i: usize = 0;
        assert(forms.take(0) == Seq::<Seq<u8>>::empty());
        while i < terms.len()
            invariant
                i <= terms.len(),
                self.wf(),
                self.looks_up() == looks_up,
                looks_up == old(self).looks_up(),
                start == old(self).terms(),
                forms == term_forms(terms@),
                terms@.len() > 0 ==> announced is Ok,
                ids@.len() == i,
                self.terms() == terms_after_all(start, forms.take(i as int), looks_up),
                forall|k: int| 0 <= k < i ==> !#[trigger] full_at(start, forms, looks_up, k),
                forall|k: int|
                    0 <= k < i ==> is_id_after(
                        terms_after_all(start, forms.take(k), looks_up),
                        terms@[k].encoding(),
                        looks_up,
                        #[trigger] ids@[k] as int,
                    ),
            decreases terms.len() - i,
        {
            assert(forms[i as int] == terms@[i as int].encoding());
            let id = match self.insert_or_get_single(&terms[i]) {
                Ok(id) => id,
                Err(e) => {
                    assert(full_at(start, forms, looks_up, i as int));
                    return Err(e);
                },
            };
            proof {
                assert(!full_at(start, forms, looks_up, i as int));
                assert(forms.take(i + 1).drop_last() == forms.take(i as int));
                assert(forms.take(i + 1).last() == terms@[i as int].encoding());
            }
            ids.push(id);
            i = i + 1;
        }
        proof {
            assert(forms.take(i as int) == forms);
        }
        Ok(ids)
    }
}

} // verus!
