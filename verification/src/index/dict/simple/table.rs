//! Dictionary entries kept in the order of their terms' bytes, so that a term
//! is found by binary search.

use crate::index::dict::simple::item::DictItem;
use crate::index::dict::table::is_first_at;
use vstd::prelude::*;

verus! {

/// How one byte string stands to another.
pub enum Order {
    Less,
    Equal,
    Greater,
}

/// Whether `a` comes before `b` in the order of byte strings: the first byte
/// that differs decides, and a string comes before those that continue it.
pub open spec fn lex_less(a: Seq<u8>, b: Seq<u8>) -> bool
    decreases a.len(),
{
    if b.len() == 0 {
        false
    } else if a.len() == 0 {
        true
    } else if a[0] != b[0] {
        a[0] < b[0]
    } else {
        lex_less(a.drop_first(), b.drop_first())
    }
}

/// A byte string that comes before another is not the same and does not
/// come after it.
pub proof fn lemma_lex_apart(a: Seq<u8>, b: Seq<u8>)
    requires
        lex_less(a, b),
    ensures
        a != b,
        !lex_less(b, a),
    decreases a.len(),
{
    if a.len() > 0 && b.len() > 0 && a[0] == b[0] {
        lemma_lex_apart(a.drop_first(), b.drop_first());
        if a == b {
            assert(a.drop_first() == b.drop_first());
        }
    }
}

/// What comes before something that comes before a third comes before the
/// third.
pub proof fn lemma_lex_chain(a: Seq<u8>, b: Seq<u8>, c: Seq<u8>)
    requires
        lex_less(a, b),
        lex_less(b, c),
    ensures
        lex_less(a, c),
    decreases a.len(),
{
    if a.len() > 0 && a[0] == b[0] && b[0] == c[0] {
        lemma_lex_chain(a.drop_first(), b.drop_first(), c.drop_first());
    }
}

/// The order does not depend on a start that both strings share.
proof fn lemma_lex_skip(a: Seq<u8>, b: Seq<u8>, i: int)
    requires
        0 <= i <= a.len(),
        i <= b.len(),
        a.take(i) == b.take(i),
    ensures
        lex_less(a, b) == lex_less(a.skip(i), b.skip(i)),
    decreases i,
{
    if i > 0 {
        assert(a[0] == a.take(i)[0]);
        assert(b[0] == b.take(i)[0]);
        assert(a.drop_first().take(i - 1) == a.take(i).drop_first());
        assert(b.drop_first().take(i - 1) == b.take(i).drop_first());
        lemma_lex_skip(a.drop_first(), b.drop_first(), i - 1);
        assert(a.drop_first().skip(i - 1) == a.skip(i));
        assert(b.drop_first().skip(i - 1) == b.skip(i));
    } else {
        assert(a.skip(0) == a);
        assert(b.skip(0) == b);
    }
}

/// Compares two byte strings.
pub fn compare_bytes(a: &[u8], b: &[u8]) -> (r: Order)
    ensures
        match r {
            Order::Less => lex_less(a@, b@),
            Order::Equal => a@ == b@,
            Order::Greater => lex_less(b@, a@),
        },
{
    let mut i: usize = 0;
    while i < a.len() && i < b.len()
        invariant
            i <= a.len(),
            i <= b.len(),
            a@.take(i as int) == b@.take(i as int),
        decreases a.len() - i,
    {
        proof {
            lemma_lex_skip(a@, b@, i as int);
            lemma_lex_skip(b@, a@, i as int);
            assert(a@.skip(i as int)[0] == a@[i as int]);
            assert(b@.skip(i as int)[0] == b@[i as int]);
        }
        if a[i] < b[i] {
            return Order::Less;
        }
        if a[i] > b[i] {
            return Order::Greater;
        }
        proof {
            assert(a@.take(i + 1) == a@.take(i as int).push(a@[i as int]));
            assert(b@.take(i + 1) == b@.take(i as int).push(b@[i as int]));
        }
        i = i + 1;
    }
    proof {
        lemma_lex_skip(a@, b@, i as int);
        lemma_lex_skip(b@, a@, i as int);
    }
    if i < b.len() {
        Order::Less
    } else if i < a.len() {
        Order::Greater
    } else {
        proof {
            assert(a@.take(i as int) == a@);
            assert(b@.take(i as int) == b@);
        }
        Order::Equal
    }
}

/// The serialized term of an entry.
pub open spec fn key_of(item: DictItem<Vec<u8>>) -> Seq<u8> {
    item.spec_item()@
}

/// Whether some entry has the id `id`.
pub open spec fn holds_id(items: Seq<DictItem<Vec<u8>>>, id: int) -> bool {
    exists|pos: int| 0 <= pos < items.len() && #[trigger] items[pos].spec_id() == id
}

/// The entries of a dictionary in the order of their terms' bytes, each with
/// the id it was given: the number of entries before it came.
pub struct SortedTable {
    /// The entries, in ascending order of their terms.
    items: Vec<DictItem<Vec<u8>>>,
    /// The terms at the positions of their ids.
    terms: Ghost<Seq<Seq<u8>>>,
}

impl SortedTable {
    /// The terms of the table, each at the position of its id.
    pub closed spec fn keys(&self) -> Seq<Seq<u8>> {
        self.terms@
    }

    /// The entries are in strictly ascending order of their terms, and they
    /// are the terms with their ids: every entry names the term that has its
    /// id, and every id has an entry. Ids fit in `u32`.
    pub closed spec fn wf(&self) -> bool {
        &&& self.items@.len() == self.terms@.len()
        &&& self.terms@.len() <= u32::MAX + 1
        &&& forall|pos: int|
            0 <= pos < self.items@.len() ==> (#[trigger] self.items@[pos]).spec_id()
                < self.terms@.len() && self.terms@[self.items@[pos].spec_id() as int] == key_of(
                self.items@[pos],
            )
        &&& forall|p: int, q: int|
            0 <= p < q < self.items@.len() ==> lex_less(
                #[trigger] key_of(self.items@[p]),
                #[trigger] key_of(self.items@[q]),
            )
        &&& forall|id: int| 0 <= id < self.terms@.len() ==> #[trigger] holds_id(self.items@, id)
    }

    /// No term stands in the table twice.
    pub proof fn lemma_keys_distinct(&self)
        requires
            self.wf(),
        ensures
            self.keys().no_duplicates(),
    {
        assert forall|i: int, j: int|
            0 <= i < self.terms@.len() && 0 <= j < self.terms@.len() && i != j implies self.terms@[i]
            != self.terms@[j] by {
            assert(holds_id(self.items@, i));
            assert(holds_id(self.items@, j));
            let p = choose|p: int| 0 <= p < self.items@.len() && #[trigger] self.items@[p].spec_id() == i;
            let q = choose|q: int| 0 <= q < self.items@.len() && #[trigger] self.items@[q].spec_id() == j;
            if p < q {
                lemma_lex_apart(key_of(self.items@[p]), key_of(self.items@[q]));
            } else if q < p {
                lemma_lex_apart(key_of(self.items@[q]), key_of(self.items@[p]));
            }
        }
    }

    /// A table without entries.
    pub fn new() -> (table: Self)
        ensures
            table.wf(),
            table.keys() == Seq::<Seq<u8>>::empty(),
    {
        SortedTable { items: Vec::new(), terms: Ghost(Seq::empty()) }
    }

    /// Every id fits in `u32`.
    pub proof fn lemma_ids_fit(&self)
        requires
            self.wf(),
        ensures
            self.keys().len() <= u32::MAX + 1,
    {
    }

    /// The number of entries.
    pub fn len(&self) -> (n: usize)
        requires
            self.wf(),
        ensures
            n == self.keys().len(),
    {
        self.items.len()
    }

    /// The entry at position `pos` in the order of the terms.
    fn dict_item_at(&self, pos: usize) -> (item: Option<&DictItem<Vec<u8>>>)
        ensures
            item is Some <==> pos < self.items@.len(),
            item matches Some(found) ==> *found == self.items@[pos as int],
    {
        if pos < self.items.len() {
            Some(&self.items[pos])
        } else {
            None
        }
    }

    /// Looks for `key` by halving the range in which it can stand. Where the
    /// term is found its position comes back as `Ok`; otherwise the position
    /// at which it would have to be inserted comes back as `Err`.
    pub fn binary_search(&self, key: &[u8]) -> (r: Result<usize, usize>)
        requires
            self.wf(),
        ensures
            match r {
                Ok(pos) => pos < self.keys().len() && self.keys().contains(key@),
                Err(pos) => pos <= self.keys().len() && !self.keys().contains(key@),
            },
    {
        let r = self.search(key);
        proof {
            match r {
                Ok(pos) => {
                    let id = self.items@[pos as int].spec_id() as int;
                    assert(self.terms@[id] == key@);
                },
                Err(pos) => {
                    assert forall|i: int| 0 <= i < self.terms@.len() implies self.terms@[i]
                        != key@ by {
                        assert(holds_id(self.items@, i));
                        let p = choose|p: int|
                            0 <= p < self.items@.len() && #[trigger] self.items@[p].spec_id() == i;
                        if p < pos {
                            lemma_lex_apart(key_of(self.items@[p]), key@);
                        } else {
                            lemma_lex_apart(key@, key_of(self.items@[p]));
                        }
                    }
                },
            }
        }
        r
    }

    /// The search itself, with what it says about the entries around the
    /// position it hands back.
    fn search(&self, key: &[u8]) -> (r: Result<usize, usize>)
        requires
            self.wf(),
        ensures
            match r {
                Ok(pos) => pos < self.items@.len() && key_of(self.items@[pos as int]) == key@,
                Err(pos) => {
                    &&& pos <= self.items@.len()
                    &&& forall|p: int| 0 <= p < pos ==> lex_less(#[trigger] key_of(self.items@[p]), key@)
                    &&& forall|p: int|
                        pos <= p < self.items@.len() ==> lex_less(
                            key@,
                            #[trigger] key_of(self.items@[p]),
                        )
                },
            },
    {
        let mut left: usize = 0;
        let mut right: usize = self.items.len();
        while left < right
            invariant
                left <= right <= self.items@.len(),
                self.wf(),
                forall|p: int| 0 <= p < left ==> lex_less(#[trigger] key_of(self.items@[p]), key@),
                forall|p: int|
                    right <= p < self.items@.len() ==> lex_less(
                        key@,
                        #[trigger] key_of(self.items@[p]),
                    ),
            decreases right - left,
        {
            let mid: usize = left + (right - left) / 2;
            let item = &self.items[mid];
            match compare_bytes(item.item().as_slice(), key) {
                Order::Less => {
                    proof {
                        assert forall|p: int| 0 <= p < mid + 1 implies lex_less(
                            #[trigger] key_of(self.items@[p]),
                            key@,
                        ) by {
                            if p < mid {
                                lemma_lex_chain(
                                    key_of(self.items@[p]),
                                    key_of(self.items@[mid as int]),
                                    key@,
                                );
                            }
                        }
                    }
                    left = mid + 1;
                },
                Order::Greater => {
                    proof {
                        assert forall|p: int| mid <= p < self.items@.len() implies lex_less(
                            key@,
                            #[trigger] key_of(self.items@[p]),
                        ) by {
                            if p > mid {
                                lemma_lex_chain(
                                    key@,
                                    key_of(self.items@[mid as int]),
                                    key_of(self.items@[p]),
                                );
                            }
                        }
                    }
                    right = mid;
                },
                Order::Equal => {
                    return Ok(mid);
                },
            }
        }
        Err(left)
    }

    /// The id of the term `key`, if the table holds it.
    pub fn find(&self, key: &[u8]) -> (id: Option<u32>)
        requires
            self.wf(),
        ensures
            id matches Some(found) ==> is_first_at(self.keys(), key@, found as int),
            id is None ==> !self.keys().contains(key@),
    {
        match self.search(key) {
            Ok(pos) => {
                let found = self.items[pos].id();
                proof {
                    self.lemma_keys_distinct();
                    assert(self.terms@[found as int] == key@);
                }
                Some(found)
            },
            Err(pos) => {
                proof {
                    assert forall|i: int| 0 <= i < self.terms@.len() implies self.terms@[i]
                        != key@ by {
                        assert(holds_id(self.items@, i));
                        let p = choose|p: int|
                            0 <= p < self.items@.len() && #[trigger] self.items@[p].spec_id() == i;
                        if p < pos {
                            lemma_lex_apart(key_of(self.items@[p]), key@);
                        } else {
                            lemma_lex_apart(key@, key_of(self.items@[p]));
                        }
                    }
                }
                None
            },
        }
    }

    /// Hands back the id of the term `key`, inserting it at its place in the
    /// order where the table does not hold it yet. A new term gets the number
    /// of entries before as its id. Where all ids are taken the table stays
    /// as it is and `None` comes back.
    pub fn insert_new_item(&mut self, key: Vec<u8>) -> (id: Option<u32>)
        requires
            old(self).wf(),
        ensures
            final(self).wf(),
            id is None <==> !old(self).keys().contains(key@) && old(self).keys().len() > u32::MAX,
            id is None ==> final(self).keys() == old(self).keys(),
            id matches Some(given) ==> if old(self).keys().contains(key@) {
                final(self).keys() == old(self).keys() && is_first_at(
                    old(self).keys(),
                    key@,
                    given as int,
                )
            } else {
                final(self).keys() == old(self).keys().push(key@) && given == old(self).keys().len()
            },
    {
        let pos = match self.search(key.as_slice()) {
            Ok(pos) => {
                let found = self.items[pos].id();
                proof {
                    self.lemma_keys_distinct();
                    assert(self.terms@[found as int] == key@);
                }
                return Some(found);
            },
            Err(pos) => pos,
        };
        proof {
            assert forall|i: int| 0 <= i < self.terms@.len() implies self.terms@[i] != key@ by {
                assert(holds_id(self.items@, i));
                let p = choose|p: int|
                    0 <= p < self.items@.len() && #[trigger] self.items@[p].spec_id() == i;
                if p < pos {
                    lemma_lex_apart(key_of(self.items@[p]), key@);
                } else {
                    lemma_lex_apart(key@, key_of(self.items@[p]));
                }
            }
        }
        if self.items.len() > u32::MAX as usize {
            return None;
        }
        let id: u32 = self.items.len() as u32;
        let ghost before = self.items@;
        let ghost terms = self.terms@;
        let ghost form = key@;
        let item = DictItem::new(key, id);
        self.items.insert(pos, item);
        proof {
            self.terms@ = terms.push(form);
            let after = self.items@;
            assert(after.len() == before.len() + 1);
            assert(after[pos as int] == item);
            assert(forall|p: int| 0 <= p < pos ==> after[p] == before[p]);
            assert(forall|p: int| pos < p < after.len() ==> after[p] == before[p - 1]);
            assert forall|p: int| 0 <= p < after.len() implies (#[trigger] after[p]).spec_id()
                < self.terms@.len() && self.terms@[after[p].spec_id() as int] == key_of(after[p]) by {
                if p < pos {
                    assert(after[p] == before[p]);
                } else if p > pos {
                    assert(after[p] == before[p - 1]);
                }
            }
            assert forall|p: int, q: int| 0 <= p < q < after.len() implies lex_less(
                #[trigger] key_of(after[p]),
                #[trigger] key_of(after[q]),
            ) by {
                let a = if p < pos {
                    p
                } else {
                    p - 1
                };
                let b = if q < pos {
                    q
                } else {
                    q - 1
                };
                if p != pos && q != pos {
                    assert(lex_less(key_of(before[a]), key_of(before[b])));
                } else if p == pos {
                    assert(lex_less(form, key_of(before[b])));
                } else {
                    assert(lex_less(key_of(before[a]), form));
                }
            }
            assert forall|i: int| 0 <= i < self.terms@.len() implies #[trigger] holds_id(
                after,
                i,
            ) by {
                if i == terms.len() {
                    assert(after[pos as int].spec_id() == i);
                } else {
                    assert(holds_id(before, i));
                    let p = choose|p: int|
                        0 <= p < before.len() && #[trigger] before[p].spec_id() == i;
                    if p < pos {
                        assert(after[p].spec_id() == i);
                    } else {
                        assert(after[p + 1].spec_id() == i);
                    }
                }
            }
        }
        Some(id)
    }

    /// Makes room for `additional` more entries, where room can be had.
    pub fn reserve(&mut self, additional: usize) -> (r: Result<(), crate::error::Error>)
        requires
            old(self).wf(),
        ensures
            final(self).wf(),
            final(self).keys() == old(self).keys(),
            r matches Err(e) ==> e == crate::error::Error::OutOfBounds,
    {
        crate::error::room_made(self.items.try_reserve(additional))
    }
}

} // verus!
