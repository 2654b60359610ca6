//! An append-only table of byte strings, numbered in the order they came,
//! with a hash index to find a string's number.

use crate::error::{room_made, Error};
use fnv::FnvHasher;
use std::collections::HashMap;
use std::hash::Hasher;
use vstd::prelude::*;

verus! {

broadcast use vstd::std_specs::hash::group_hash_axioms;

/// One step of the FNV-1a hash: the byte is xor-ed in, then the state is
/// multiplied by the FNV prime, dropping what overflows 64 bits.
pub open spec fn fnv1a_step(state: u64, byte: u8) -> u64 {
    (((state ^ (byte as u64)) as int * 0x100_0000_01b3) % 0x1_0000_0000_0000_0000) as u64
}

/// The FNV-1a hash of `bytes`, continued from `state`.
pub open spec fn fnv1a_from(state: u64, bytes: Seq<u8>) -> u64
    decreases bytes.len(),
{
    if bytes.len() == 0 {
        state
    } else {
        fnv1a_from(fnv1a_step(state, bytes[0]), bytes.drop_first())
    }
}

/// The 64-bit FNV-1a hash of `bytes`.
pub open spec fn fnv1a(bytes: Seq<u8>) -> u64 {
    fnv1a_from(0xcbf2_9ce4_8422_2325, bytes)
}

/// A fresh `fnv::FnvHasher`, fed `bytes` in one `write`, then asked to
/// `finish`. The crate's source shows the loop: starting from the offset basis
/// each byte is xor-ed into the state, which is then multiplied by the prime
/// with wrapping. The contract claims that this is `fnv1a`.
#[verifier::external_body]
fn fnv_digest(bytes: &[u8]) -> (digest: u64)
    ensures
        digest == fnv1a(bytes@),
{
    let mut hasher = FnvHasher::default();
    hasher.write(bytes);
    hasher.finish()
}

/// Whether two byte strings are the same.
pub fn same_bytes(a: &[u8], b: &[u8]) -> (same: bool)
    ensures
        same == (a@ == b@),
{
    if a.len() != b.len() {
        return false;
    }
    let mut i: usize = 0;
    while i < a.len()
        invariant
            i <= a.len(),
            a.len() == b.len(),
            a@.take(i as int) == b@.take(i as int),
        decreases a.len() - i,
    {
        if a[i] != b[i] {
            assert(a@[i as int] != b@[i as int]);
            return false;
        }
        assert(a@.take(i + 1) == a@.take(i as int).push(a@[i as int]));
        assert(b@.take(i + 1) == b@.take(i as int).push(b@[i as int]));
        i = i + 1;
    }
    assert(a@.take(i as int) == a@);
    assert(b@.take(i as int) == b@);
    true
}

/// Whether `i` is the first position at which `key` stands in `keys`.
pub open spec fn is_first_at(keys: Seq<Seq<u8>>, key: Seq<u8>, i: int) -> bool {
    &&& 0 <= i < keys.len()
    &&& keys[i] == key
    &&& forall|j: int| 0 <= j < i ==> keys[j] != key
}

/// The byte-string views of the keys.
pub open spec fn key_views(keys: Seq<Vec<u8>>) -> Seq<Seq<u8>> {
    Seq::new(keys.len(), |i: int| keys[i]@)
}

/// An append-only table of byte strings. Each string gets the next number,
/// counted from zero, as its id; ids fit in `u32`.
pub struct TermTable {
    /// `keys[id]` is the string with the id `id`.
    keys: Vec<Vec<u8>>,
    /// The ids of the strings with a given hash, in ascending order.
    buckets: HashMap<u64, Vec<u32>>,
}

impl TermTable {
    /// The strings of the table, each at the position of its id.
    pub closed spec fn keys(&self) -> Seq<Seq<u8>> {
        key_views(self.keys@)
    }

    /// The hash index holds every id, once, under the hash of its string, and
    /// nothing else; ids fit in `u32`.
    pub closed spec fn wf(&self) -> bool {
        &&& self.keys@.len() <= u32::MAX + 1
        &&& forall|id: int|
            0 <= id < self.keys@.len() ==> self.buckets@.contains_key(
                #[trigger] fnv1a(self.keys@[id]@),
            ) && self.buckets@[fnv1a(self.keys@[id]@)]@.contains(id as u32)
        &&& forall|digest: u64, j: int|
            self.buckets@.contains_key(digest) && 0 <= j < self.buckets@[digest]@.len() ==> {
                let id = #[trigger] self.buckets@[digest]@[j];
                &&& id < self.keys@.len()
                &&& fnv1a(self.keys@[id as int]@) == digest
            }
        &&& forall|digest: u64, j: int, k: int|
            self.buckets@.contains_key(digest) && 0 <= j < k < self.buckets@[digest]@.len()
                ==> #[trigger] self.buckets@[digest]@[j] < #[trigger] self.buckets@[digest]@[k]
    }

    /// A table without strings.
    pub fn new() -> (table: Self)
        ensures
            table.wf(),
            table.keys() == Seq::<Seq<u8>>::empty(),
    {
        let table = TermTable { keys: Vec::new(), buckets: HashMap::new() };
        assert(table.keys() =~= Seq::<Seq<u8>>::empty());
        table
    }

    /// Makes room for `additional` more strings, where room can be had. The
    /// strings stay as they are.
    pub fn reserve(&mut self, additional: usize) -> (r: Result<(), Error>)
        requires
            old(self).wf(),
        ensures
            final(self).wf(),
            final(self).keys() == old(self).keys(),
            r matches Err(e) ==> e == Error::OutOfBounds,
    {
        room_made(self.keys.try_reserve(additional))
    }

    /// The table that holds `keys` in this order. With `distinct`, a string
    /// that stands among them twice is refused as a duplicate entry; more
    /// strings than there are ids are out of bounds.
    pub fn from_keys(keys: Vec<Vec<u8>>, distinct: bool) -> (r: Result<Self, Error>)
        ensures
            match r {
                Ok(table) => table.wf() && table.keys() == key_views(keys@) && (distinct
                    ==> key_views(keys@).no_duplicates()),
                Err(e) => if e == Error::DuplicateEntry {
                    distinct && !key_views(keys@).no_duplicates()
                } else {
                    e == Error::OutOfBounds && keys@.len() > u32::MAX + 1
                },
            },
    {
        let ghost all = key_views(keys@);
        let mut table = TermTable::new();
        proof {
            assert(all.take(0) == Seq::<Seq<u8>>::empty());
        }
        for key in it: keys
            invariant
                all == key_views(it.seq()),
                table.wf(),
                table.keys() == all.take(it.index()),
                distinct ==> table.keys().no_duplicates(),
        {
            let ghost i = it.index();
            let ghost before = table.keys();
            proof {
                assert(all[i] == key@);
                assert(all.take(i + 1) == all.take(i).push(key@));
            }
            if distinct {
                if table.find(key.as_slice()).is_some() {
                    proof {
                        let at = choose|at: int| 0 <= at < before.len() && before[at] == key@;
                        assert(all[at] == all[i]);
                    }
                    return Err(Error::DuplicateEntry);
                }
                proof {
                    assert forall|a: int, b: int|
                        0 <= a < b < before.push(key@).len() implies before.push(key@)[a]
                        != before.push(key@)[b] by {
                        if b == before.len() {
                            assert(before.contains(before[a]));
                        }
                    }
                }
            }
            if table.push(key).is_none() {
                return Err(Error::OutOfBounds);
            }
        }
        proof {
            assert(all.take(all.len() as int) == all);
        }
        Ok(table)
    }

    /// Gives up the table for its strings, in the order of their ids.
    pub fn into_keys(self) -> (keys: Vec<Vec<u8>>)
        ensures
            key_views(keys@) == self.keys(),
    {
        self.keys
    }

    /// Every id fits in `u32`.
    pub proof fn lemma_ids_fit(&self)
        requires
            self.wf(),
        ensures
            self.keys().len() <= u32::MAX + 1,
    {
    }

    /// The number of strings in the table.
    pub fn len(&self) -> (n: usize)
        ensures
            n == self.keys().len(),
    {
        self.keys.len()
    }

    /// The string with the id `id`.
    pub fn key(&self, id: u32) -> (key: &[u8])
        requires
            id < self.keys().len(),
        ensures
            key@ == self.keys()[id as int],
    {
        self.keys[id as usize].as_slice()
    }

    /// The smallest id whose string is `key`, if there is one.
    pub fn find(&self, key: &[u8]) -> (id: Option<u32>)
        requires
            self.wf(),
        ensures
            id matches Some(found) ==> is_first_at(self.keys(), key@, found as int),
            id is None ==> !self.keys().contains(key@),
    {
        let digest = fnv_digest(key);
        let bucket: &Vec<u32> = match self.buckets.get(&digest) {
            Some(bucket) => bucket,
            None => {
                assert forall|i: int| 0 <= i < self.keys().len() implies self.keys()[i] != key@ by {
                    assert(self.buckets@.contains_key(fnv1a(self.keys@[i]@)));
                }
                return None;
            },
        };
        assert(self.buckets@[digest] == *bucket);
        let mut j: usize = 0;
        while j < bucket.len()
            invariant
                j <= bucket.len(),
                self.wf(),
                digest == fnv1a(key@),
                self.buckets@.contains_key(digest),
                self.buckets@[digest] == *bucket,
                forall|k: int| 0 <= k < j ==> self.keys@[bucket@[k] as int]@ != key@,
            decreases bucket.len() - j,
        {
            let id: u32 = bucket[j];
            assert(id == self.buckets@[digest]@[j as int]);
            if same_bytes(self.keys[id as usize].as_slice(), key) {
                assert forall|i: int| 0 <= i < id implies self.keys()[i] != key@ by {
                    if self.keys()[i] == key@ {
                        assert(self.buckets@[fnv1a(self.keys@[i]@)]@.contains(i as u32));
                        let k = choose|k: int| 0 <= k < bucket@.len() && bucket@[k] == i as u32;
                        if k > j {
                            assert(self.buckets@[digest]@[j as int] < self.buckets@[digest]@[k]);
                        }
                    }
                }
                return Some(id);
            }
            j = j + 1;
        }
        assert forall|i: int| 0 <= i < self.keys().len() implies self.keys()[i] != key@ by {
            if self.keys()[i] == key@ {
                assert(self.buckets@[fnv1a(self.keys@[i]@)]@.contains(i as u32));
                let k = choose|k: int| 0 <= k < bucket@.len() && bucket@[k] == i as u32;
                assert(self.keys@[bucket@[k] as int]@ != key@);
            }
        }
        None
    }

    /// Appends `key` and hands back its id: the number of strings before.
    /// Where all ids are taken the table stays as it is and `None` comes back.
    pub fn push(&mut self, key: Vec<u8>) -> (id: Option<u32>)
        requires
            old(self).wf(),
        ensures
            final(self).wf(),
            id is Some <==> old(self).keys().len() <= u32::MAX,
            id matches Some(given) ==> given == old(self).keys().len() && final(self).keys() == old(self).keys().push(key@),
            id is None ==> final(self).keys() == old(self).keys(),
    {
        if self.keys.len() > u32::MAX as usize {
            return None;
        }
        let id: u32 = self.keys.len() as u32;
        let digest = fnv_digest(key.as_slice());
        let ghost before = *self;
        let mut bucket: Vec<u32> = match self.buckets.remove(&digest) {
            Some(bucket) => bucket,
            None => Vec::new(),
        };
        let ghost was = bucket@;
        bucket.push(id);
        self.buckets.insert(digest, bucket);
        self.keys.push(key);
        proof {
            assert(self.keys() =~= before.keys().push(key@));
            assert(self.buckets@ == before.buckets@.remove(digest).insert(digest, bucket));
            assert(before.buckets@.contains_key(digest) ==> was == before.buckets@[digest]@);
            assert(!before.buckets@.contains_key(digest) ==> was == Seq::<u32>::empty());
            assert forall|i: int| 0 <= i < self.keys@.len() implies self.buckets@.contains_key(
                #[trigger] fnv1a(self.keys@[i]@),
            ) && self.buckets@[fnv1a(self.keys@[i]@)]@.contains(i as u32) by {
                if i < before.keys@.len() {
                    assert(self.keys@[i] == before.keys@[i]);
                    let d = fnv1a(before.keys@[i]@);
                    assert(before.buckets@[d]@.contains(i as u32));
                    if d == digest {
                        let k = choose|k: int| 0 <= k < was.len() && was[k] == i as u32;
                        assert(bucket@[k] == i as u32);
                    }
                } else {
                    assert(bucket@[was.len() as int] == id);
                }
            }
            assert forall|d: u64, j: int|
                self.buckets@.contains_key(d) && 0 <= j < self.buckets@[d]@.len() implies {
                let found = #[trigger] self.buckets@[d]@[j];
                &&& found < self.keys@.len()
                &&& fnv1a(self.keys@[found as int]@) == d
            } by {
                if d == digest {
                    if j < was.len() {
                        assert(bucket@[j] == before.buckets@[d]@[j]);
                        assert(self.keys@[bucket@[j] as int] == before.keys@[bucket@[j] as int]);
                    }
                } else {
                    let found = before.buckets@[d]@[j];
                    assert(self.keys@[found as int] == before.keys@[found as int]);
                }
            }
            assert forall|d: u64, j: int, k: int|
                self.buckets@.contains_key(d) && 0 <= j < k < self.buckets@[d]@.len()
                    implies #[trigger] self.buckets@[d]@[j] < #[trigger] self.buckets@[d]@[k] by {
                if d == digest {
                    if k < was.len() {
                        assert(before.buckets@[d]@[j] < before.buckets@[d]@[k]);
                    } else {
                        assert(bucket@[j] == before.buckets@[d]@[j]);
                    }
                } else {
                    assert(before.buckets@[d]@[j] < before.buckets@[d]@[k]);
                }
            }
        }
        Some(id)
    }
}

} // verus!
