//! Ascending order of storage ids and of term ids.

use std::collections::HashMap;
use vstd::prelude::*;
use vstd::std_specs::iter::IteratorSpec;

verus! {

broadcast use vstd::std_specs::hash::group_hash_axioms;

/// No id is followed by a smaller one.
pub open spec fn ascending(ids: Seq<u64>) -> bool {
    forall|i: int, j: int| 0 <= i <= j < ids.len() ==> ids[i] <= ids[j]
}

/// Every term id is smaller than the next.
pub open spec fn strictly_ascending(terms: Seq<usize>) -> bool {
    forall|i: int, j: int| 0 <= i < j < terms.len() ==> terms[i] < terms[j]
}

/// `sort_unstable` of std on a slice of `u64`. Its documentation says that it
/// sorts the slice in ascending order; the contract claims that, and that the
/// slice afterwards holds the numbers it held before, each as often.
#[verifier::external_body]
pub(crate) fn sort_ids(ids: &mut Vec<u64>)
    ensures
        ascending(final(ids)@),
        final(ids)@.to_multiset() == old(ids)@.to_multiset(),
{
    ids.sort_unstable();
}

/// The term ids that have something staged, in ascending order.
pub fn staged_terms(blobs: &HashMap<usize, Vec<u8>>) -> (terms: Vec<usize>)
    ensures
        strictly_ascending(terms@),
        terms@.to_set() == blobs@.dom(),
{
    let mut keys: Vec<u64> = Vec::new();
    for k in it: blobs.keys()
        invariant
            keys@.len() == it.index(),
            forall|j: int| 0 <= j < it.index() ==> keys@[j] == *it.seq()[j],
    {
        keys.push(*k as u64);
    }
    let ghost found = keys@;
    proof {
        let all = vstd::std_specs::hash::spec_keys_iter(blobs).remaining().unref();
        assert(found.len() == all.len());
        assert forall|i: int, j: int| 0 <= i < found.len() && 0 <= j < found.len() && i
            != j implies found[i] != found[j] by {
            assert(all[i] != all[j]);
        }
        assert forall|k: u64| #[trigger] found.contains(k) <==> (k <= usize::MAX
            && blobs@.contains_key(k as usize)) by {
            if found.contains(k) {
                let i = choose|i: int| 0 <= i < found.len() && found[i] == k;
                assert(all.contains(all[i]));
            }
            if k <= usize::MAX && blobs@.contains_key(k as usize) {
                assert(all.to_set().contains(k as usize));
                let i = choose|i: int| 0 <= i < all.len() && all[i] == k as usize;
                assert(found[i] == k);
            }
        }
        found.lemma_multiset_has_no_duplicates();
    }
    sort_ids(&mut keys);
    proof {
        broadcast use vstd::seq_lib::to_multiset_contains;

        keys@.lemma_multiset_has_no_duplicates_conv();
        assert forall|k: u64| #[trigger] keys@.contains(k) <==> found.contains(k) by {
            assert(keys@.to_multiset().count(k) == found.to_multiset().count(k));
        }
        assert forall|k: u64| #[trigger] keys@.contains(k) <==> (k <= usize::MAX
            && blobs@.contains_key(k as usize)) by {
            assert(keys@.contains(k) <==> found.contains(k));
        }
    }
    let mut terms: Vec<usize> = Vec::with_capacity(keys.len());
    let mut i: usize = 0;
    while i < keys.len()
        invariant
            i <= keys.len(),
            terms@.len() == i,
            forall|k: u64| #[trigger] keys@.contains(k) ==> k <= usize::MAX,
            forall|j: int| 0 <= j < i ==> terms@[j] == keys@[j],
        decreases keys.len() - i,
    {
        assert(keys@.contains(keys@[i as int]));
        terms.push(keys[i] as usize);
        i = i + 1;
    }
    proof {
        assert forall|a: int, b: int| 0 <= a < b < terms@.len() implies terms@[a] < terms@[b] by {
            assert(keys@[a] <= keys@[b]);
            assert(keys@[a] != keys@[b]);
        }
        assert forall|t: usize| terms@.to_set().contains(t) <==> blobs@.dom().contains(t) by {
            if terms@.to_set().contains(t) {
                let j = choose|j: int| 0 <= j < terms@.len() && terms@[j] == t;
                assert(keys@.contains(keys@[j]));
            }
            if blobs@.dom().contains(t) {
                assert(keys@.contains(t as u64));
                let j = choose|j: int| 0 <= j < keys@.len() && keys@[j] == t as u64;
                assert(terms@[j] == t);
            }
        }
        assert(terms@.to_set() =~= blobs@.dom());
    }
    terms
}

} // verus!
