//! The retriever for postings in ascending order: the storage ids filed
//! under every one of the terms.

use crate::index::posting::sort::ascending;
use crate::index::posting::table::{posting_at, PostingIter};
use crate::index::posting::IndexPosting;
use crate::retrieve::options::RetrieveOptions;
use crate::retrieve::retriever::RetrieveAlgo;
use core::marker::PhantomData;
use vstd::prelude::*;

verus! {

/// The cursor to read next among the cursors of one term: the first of
/// those whose next id is smallest, or -1 where all are read to their end.
pub open spec fn min_position(cursors: Seq<Seq<u64>>) -> int
    decreases cursors.len(),
{
    if cursors.len() == 0 {
        -1
    } else {
        let before = min_position(cursors.drop_last());
        if cursors.last().len() == 0 {
            before
        } else if before < 0 || cursors.last()[0] < cursors[before][0] {
            cursors.len() - 1
        } else {
            before
        }
    }
}

/// The number of ids in all the sequences together.
pub open spec fn sum_len(streams: Seq<Seq<u64>>) -> nat
    decreases streams.len(),
{
    if streams.len() == 0 {
        0
    } else {
        sum_len(streams.drop_last()) + streams.last().len()
    }
}

/// Where there is a cursor to read next, it is one of the cursors and has
/// an id left, and none before it has an id that is as small.
pub proof fn lemma_min_position(cursors: Seq<Seq<u64>>)
    ensures
        -1 <= min_position(cursors) < cursors.len(),
        min_position(cursors) >= 0 ==> cursors[min_position(cursors)].len() > 0,
        min_position(cursors) < 0 ==> forall|j: int|
            0 <= j < cursors.len() ==> (#[trigger] cursors[j]).len() == 0,
        min_position(cursors) < 0 ==> sum_len(cursors) == 0,
    decreases cursors.len(),
{
    if cursors.len() > 0 {
        lemma_min_position(cursors.drop_last());
        assert forall|j: int| 0 <= j < cursors.len() - 1 implies cursors.drop_last()[j]
            == cursors[j] by {}
        if min_position(cursors) < 0 {
            assert forall|j: int| 0 <= j < cursors.len() implies (#[trigger] cursors[j]).len()
                == 0 by {
                if j < cursors.len() - 1 {
                    assert(cursors.drop_last()[j].len() == 0);
                }
            }
        }
    }
}

/// Replacing one sequence changes the number of ids by the difference of
/// the lengths.
pub proof fn lemma_sum_len_update(streams: Seq<Seq<u64>>, i: int, with: Seq<u64>)
    requires
        0 <= i < streams.len(),
    ensures
        sum_len(streams.update(i, with)) == sum_len(streams) - streams[i].len() + with.len(),
    decreases streams.len(),
{
    if i == streams.len() - 1 {
        assert(streams.update(i, with).drop_last() == streams.drop_last());
    } else {
        lemma_sum_len_update(streams.drop_last(), i, with);
        assert(streams.update(i, with).drop_last() == streams.drop_last().update(i, with));
    }
}

/// The ids of the cursors of one term as one sequence: again and again the
/// smallest next id among the cursors, taken from the first cursor that has
/// it. Where every cursor is in ascending order, so is the result.
pub open spec fn merged(cursors: Seq<Seq<u64>>) -> Seq<u64>
    decreases sum_len(cursors),
{
    let at = min_position(cursors);
    if at < 0 {
        Seq::empty()
    } else {
        proof {
            lemma_min_position(cursors);
            lemma_sum_len_update(cursors, at, cursors[at].drop_first());
        }
        seq![cursors[at][0]] + merged(cursors.update(at, cursors[at].drop_first()))
    }
}

/// `ids` from its first id that is not below `floor`.
pub open spec fn seek(ids: Seq<u64>, floor: u64) -> Seq<u64>
    decreases ids.len(),
{
    if ids.len() > 0 && ids[0] < floor {
        seek(ids.drop_first(), floor)
    } else {
        ids
    }
}

/// Seeking never adds ids.
pub proof fn lemma_seek_len(ids: Seq<u64>, floor: u64)
    ensures
        seek(ids, floor).len() <= ids.len(),
    decreases ids.len(),
{
    if ids.len() > 0 && ids[0] < floor {
        lemma_seek_len(ids.drop_first(), floor);
    }
}

/// The position after `i` in a round over `count` positions.
pub open spec fn next_in_round(i: int, count: int) -> int {
    if i + 1 < count {
        i + 1
    } else {
        0
    }
}

/// The search for the next id that all terms share, from the point where
/// `candidate` was read from the stream of term `source` and the stream of
/// term `i` is to be asked next. Each stream in turn is moved to its first id
/// that is not below the candidate, and that id is read. A larger id becomes
/// the candidate and its stream the source. Once the round is back at the
/// source all streams have given the candidate: it is the result, together
/// with what is left of the streams. A stream that runs out ends the search.
pub open spec fn settle(streams: Seq<Seq<u64>>, candidate: u64, source: int, i: int) -> Option<
    (u64, Seq<Seq<u64>>),
>
    decreases sum_len(streams),
{
    if i == source || !(0 <= i < streams.len()) {
        Some((candidate, streams))
    } else {
        let at = seek(streams[i], candidate);
        if at.len() == 0 {
            None
        } else {
            proof {
                lemma_seek_len(streams[i], candidate);
                lemma_sum_len_update(streams, i, at.drop_first());
            }
            let rest = streams.update(i, at.drop_first());
            if at[0] > candidate {
                settle(rest, at[0], i, next_in_round(i, streams.len() as int))
            } else {
                settle(rest, candidate, source, next_in_round(i, streams.len() as int))
            }
        }
    }
}

/// The search never adds ids to the streams, nor streams.
pub proof fn lemma_settle_len(streams: Seq<Seq<u64>>, candidate: u64, source: int, i: int)
    ensures
        settle(streams, candidate, source, i) matches Some(found) ==> sum_len(found.1) <= sum_len(
            streams,
        ) && found.1.len() == streams.len(),
    decreases sum_len(streams),
{
    if i == source || !(0 <= i < streams.len()) {
    } else {
        let at = seek(streams[i], candidate);
        if at.len() > 0 {
            lemma_seek_len(streams[i], candidate);
            lemma_sum_len_update(streams, i, at.drop_first());
            let rest = streams.update(i, at.drop_first());
            if at[0] > candidate {
                lemma_settle_len(rest, at[0], i, next_in_round(i, streams.len() as int));
            } else {
                lemma_settle_len(rest, candidate, source, next_in_round(i, streams.len() as int));
            }
        }
    }
}

/// The ids that all terms share, given the stream of each term: again and
/// again an id is read from the first stream as the candidate and the
/// search is run, until a stream runs out.
pub open spec fn intersected(streams: Seq<Seq<u64>>) -> Seq<u64>
    decreases sum_len(streams),
{
    if streams.len() == 0 || streams[0].len() == 0 {
        Seq::empty()
    } else {
        let popped = streams.update(0, streams[0].drop_first());
        match settle(popped, streams[0][0], 0, next_in_round(0, streams.len() as int)) {
            None => Seq::empty(),
            Some(found) => {
                proof {
                    lemma_sum_len_update(streams, 0, streams[0].drop_first());
                    lemma_settle_len(
                        popped,
                        streams[0][0],
                        0,
                        next_in_round(0, streams.len() as int),
                    );
                }
                seq![found.0] + intersected(found.1)
            },
        }
    }
}

/// How often `id` stands in `ids`.
pub open spec fn count_of(ids: Seq<u64>, id: u64) -> nat
    decreases ids.len(),
{
    if ids.len() == 0 {
        0
    } else {
        count_of(ids.drop_first(), id) + if ids[0] == id {
            1nat
        } else {
            0nat
        }
    }
}

/// `ids` with `head` put in front.
pub open spec fn with_head(head: u64, ids: Seq<u64>) -> Seq<u64> {
    seq![head] + ids
}

/// Counting in a sequence with an id put in front.
pub proof fn lemma_count_with_head(head: u64, ids: Seq<u64>, id: u64)
    ensures
        count_of(with_head(head, ids), id) == count_of(ids, id) + if head == id {
            1nat
        } else {
            0nat
        },
{
    assert(with_head(head, ids).drop_first() == ids);
}

/// An id that stands in a sequence is counted, and the other way round.
pub proof fn lemma_count_contains(ids: Seq<u64>, id: u64)
    ensures
        count_of(ids, id) > 0 <==> ids.contains(id),
    decreases ids.len(),
{
    if ids.len() > 0 {
        lemma_count_contains(ids.drop_first(), id);
        assert(ids == seq![ids[0]] + ids.drop_first());
        vstd::seq_lib::lemma_seq_concat_contains_all_elements(seq![ids[0]], ids.drop_first(), id);
        if ids[0] == id {
            assert(seq![ids[0]][0] == id);
        }
    }
}

/// Whether no id of `ids` is below `floor`.
pub open spec fn at_least(ids: Seq<u64>, floor: u64) -> bool {
    forall|k: int| 0 <= k < ids.len() ==> ids[k] >= floor
}

/// A sequence that starts at or above a floor holds nothing below it.
pub proof fn lemma_count_below(ids: Seq<u64>, floor: u64, id: u64)
    requires
        at_least(ids, floor),
        id < floor,
    ensures
        count_of(ids, id) == 0,
    decreases ids.len(),
{
    if ids.len() > 0 {
        assert(ids[0] >= floor);
        assert forall|k: int| 0 <= k < ids.drop_first().len() implies ids.drop_first()[k]
            >= floor by {
            assert(ids.drop_first()[k] == ids[k + 1]);
        }
        lemma_count_below(ids.drop_first(), floor, id);
    }
}

/// What is left of an ascending sequence after its first id is ascending and
/// not below that id.
pub proof fn lemma_ascending_rest(ids: Seq<u64>)
    requires
        ascending(ids),
        ids.len() > 0,
    ensures
        ascending(ids.drop_first()),
        at_least(ids.drop_first(), ids[0]),
        at_least(ids, ids[0]),
{
    assert forall|a: int, b: int| 0 <= a <= b < ids.drop_first().len() implies ids.drop_first()[a]
        <= ids.drop_first()[b] by {
        assert(ids[a + 1] <= ids[b + 1]);
    }
    assert forall|k: int| 0 <= k < ids.drop_first().len() implies ids.drop_first()[k]
        >= ids[0] by {
        assert(ids[0] <= ids[k + 1]);
    }
}

/// Seeking in an ascending sequence gives an ascending sequence that is not
/// below the floor and holds every id from the floor up as often as before.
pub proof fn lemma_seek(ids: Seq<u64>, floor: u64)
    requires
        ascending(ids),
    ensures
        ascending(seek(ids, floor)),
        at_least(seek(ids, floor), floor),
        forall|id: u64| id >= floor ==> count_of(seek(ids, floor), id) == #[trigger] count_of(
            ids,
            id,
        ),
    decreases ids.len(),
{
    if ids.len() > 0 {
        lemma_ascending_rest(ids);
        if ids[0] < floor {
            lemma_seek(ids.drop_first(), floor);
            assert forall|id: u64| id >= floor implies count_of(seek(ids, floor), id)
                == #[trigger] count_of(ids, id) by {
                assert(count_of(seek(ids.drop_first(), floor), id) == count_of(
                    ids.drop_first(),
                    id,
                ));
            }
        } else {
            assert forall|k: int| 0 <= k < ids.len() implies ids[k] >= floor by {
                assert(ids[0] <= ids[k]);
            }
        }
    }
}

/// Whether stream `j` has already given the candidate in the round that
/// started at stream `source` and is about to ask stream `i`.
pub open spec fn in_round(source: int, i: int, j: int) -> bool {
    if source < i {
        source <= j < i
    } else {
        j >= source || j < i
    }
}

/// Stream `j` as it was before it gave the candidate, if it has given it.
pub open spec fn before_round(
    streams: Seq<Seq<u64>>,
    candidate: u64,
    source: int,
    i: int,
    j: int,
) -> Seq<u64> {
    if in_round(source, i, j) {
        with_head(candidate, streams[j])
    } else {
        streams[j]
    }
}

/// Whether some stream did not hold `id` before the round.
pub open spec fn misses(streams: Seq<Seq<u64>>, candidate: u64, source: int, i: int, id: u64) -> bool {
    exists|j: int|
        0 <= j < streams.len() && #[trigger] count_of(
            before_round(streams, candidate, source, i, j),
            id,
        ) == 0
}

/// Whether every stream is in ascending order.
pub open spec fn all_ascending(streams: Seq<Seq<u64>>) -> bool {
    forall|j: int| 0 <= j < streams.len() ==> ascending(#[trigger] streams[j])
}

/// What the search finds. Where it finds an id, every stream held that id,
/// gave it once and is left at or above it, ids above it are untouched, and
/// no id below it was in every stream. Where it finds none, no id was in
/// every stream.
pub proof fn lemma_settle(streams: Seq<Seq<u64>>, candidate: u64, source: int, i: int)
    requires
        all_ascending(streams),
        0 <= source < streams.len(),
        0 <= i < streams.len(),
        forall|j: int|
            0 <= j < streams.len() && in_round(source, i, j) ==> at_least(
                #[trigger] streams[j],
                candidate,
            ),
    ensures
        match settle(streams, candidate, source, i) {
            Some(found) => {
                &&& found.0 >= candidate
                &&& found.1.len() == streams.len()
                &&& all_ascending(found.1)
                &&& forall|j: int|
                    0 <= j < streams.len() ==> at_least(#[trigger] found.1[j], found.0)
                &&& forall|j: int, id: u64|
                    0 <= j < streams.len() && id >= found.0 ==> #[trigger] count_of(
                        before_round(streams, candidate, source, i, j),
                        id,
                    ) == count_of(found.1[j], id) + if id == found.0 {
                        1nat
                    } else {
                        0nat
                    }
                &&& forall|id: u64|
                    id < found.0 ==> #[trigger] misses(streams, candidate, source, i, id)
            },
            None => forall|id: u64|
                #[trigger] misses(streams, candidate, source, i, id),
        },
    decreases sum_len(streams),
{
    let count = streams.len() as int;
    assert(in_round(source, i, source));
    assert(at_least(streams[source], candidate));
    // Nothing below the candidate is in the stream it came from.
    assert forall|id: u64| id < candidate implies count_of(
        before_round(streams, candidate, source, i, source),
        id,
    ) == 0 by {
        lemma_count_with_head(candidate, streams[source], id);
        lemma_count_below(streams[source], candidate, id);
    }
    assert forall|id: u64| id < candidate implies #[trigger] misses(
        streams,
        candidate,
        source,
        i,
        id,
    ) by {
        assert(count_of(before_round(streams, candidate, source, i, source), id) == 0);
    }
    if i == source {
        assert forall|j: int, id: u64|
            0 <= j < streams.len() && id >= candidate implies #[trigger] count_of(
            before_round(streams, candidate, source, i, j),
            id,
        ) == count_of(streams[j], id) + if id == candidate {
            1nat
        } else {
            0nat
        } by {
            assert(in_round(source, i, j));
            lemma_count_with_head(candidate, streams[j], id);
        }
        assert forall|j: int| 0 <= j < streams.len() implies at_least(
            #[trigger] streams[j],
            candidate,
        ) by {
            assert(in_round(source, i, j));
        }
    } else {
        assert(!in_round(source, i, i));
        let at = seek(streams[i], candidate);
        lemma_seek(streams[i], candidate);
        if at.len() == 0 {
            assert forall|id: u64|
                #[trigger] misses(streams, candidate, source, i, id) by {
                if id >= candidate {
                    assert(count_of(streams[i], id) == count_of(at, id));
                    assert(count_of(before_round(streams, candidate, source, i, i), id) == 0);
                } else {
                    assert(count_of(before_round(streams, candidate, source, i, source), id)
                        == 0);
                }
            }
        } else {
            lemma_seek_len(streams[i], candidate);
            lemma_sum_len_update(streams, i, at.drop_first());
            lemma_ascending_rest(at);
            let rest = streams.update(i, at.drop_first());
            let next = next_in_round(i, count);
            assert(at[0] >= candidate);
            assert(all_ascending(rest)) by {
                assert forall|j: int| 0 <= j < rest.len() implies ascending(#[trigger] rest[j]) by {
                    if j != i {
                        assert(rest[j] == streams[j]);
                    }
                }
            }
            assert(with_head(at[0], at.drop_first()) == at);
            if at[0] > candidate {
                let high = at[0];
                assert forall|j: int|
                    0 <= j < rest.len() && in_round(i, next, j) implies at_least(
                    #[trigger] rest[j],
                    high,
                ) by {
                    assert(j == i);
                }
                lemma_settle(rest, high, i, next);
                let outcome = settle(rest, high, i, next);
                assert(outcome == settle(streams, candidate, source, i));
                // How the streams before this step relate to those after it.
                assert forall|j: int, id: u64|
                    0 <= j < streams.len() && id > candidate implies #[trigger] count_of(
                    before_round(streams, candidate, source, i, j),
                    id,
                ) == count_of(before_round(rest, high, i, next, j), id) by {
                    if j == i {
                        assert(in_round(i, next, j));
                        assert(before_round(rest, high, i, next, j) == at);
                        assert(count_of(streams[i], id) == count_of(at, id));
                    } else {
                        assert(!in_round(i, next, j));
                        assert(rest[j] == streams[j]);
                        if in_round(source, i, j) {
                            lemma_count_with_head(candidate, streams[j], id);
                        }
                    }
                }
                assert(count_of(before_round(streams, candidate, source, i, i), candidate) == 0) by {
                    assert(count_of(streams[i], candidate) == count_of(at, candidate));
                    lemma_count_below(at, high, candidate);
                }
                match outcome {
                    Some(found) => {
                        assert forall|id: u64| id < found.0 implies #[trigger] misses(streams, candidate, source, i, id) by {
                            if id < candidate {
                                assert(count_of(
                                    before_round(streams, candidate, source, i, source),
                                    id,
                                ) == 0);
                            } else if id == candidate {
                                assert(count_of(
                                    before_round(streams, candidate, source, i, i),
                                    id,
                                ) == 0);
                            } else {
                                assert(misses(rest, high, i, next, id));
                                let j = choose|j: int|
                                    0 <= j < rest.len() && #[trigger] count_of(
                                        before_round(rest, high, i, next, j),
                                        id,
                                    ) == 0;
                                assert(count_of(
                                    before_round(streams, candidate, source, i, j),
                                    id,
                                ) == 0);
                            }
                        }
                        assert forall|j: int, id: u64|
                            0 <= j < streams.len() && id >= found.0 implies #[trigger] count_of(
                            before_round(streams, candidate, source, i, j),
                            id,
                        ) == count_of(found.1[j], id) + if id == found.0 {
                            1nat
                        } else {
                            0nat
                        } by {
                            assert(count_of(before_round(streams, candidate, source, i, j), id)
                                == count_of(before_round(rest, high, i, next, j), id));
                        }
                    },
                    None => {
                        assert forall|id: u64|
                            #[trigger] misses(streams, candidate, source, i, id) by {
                            if id < candidate {
                                assert(count_of(
                                    before_round(streams, candidate, source, i, source),
                                    id,
                                ) == 0);
                            } else if id == candidate {
                                assert(count_of(
                                    before_round(streams, candidate, source, i, i),
                                    id,
                                ) == 0);
                            } else {
                                assert(misses(rest, high, i, next, id));
                                let j = choose|j: int|
                                    0 <= j < rest.len() && #[trigger] count_of(
                                        before_round(rest, high, i, next, j),
                                        id,
                                    ) == 0;
                                assert(count_of(
                                    before_round(streams, candidate, source, i, j),
                                    id,
                                ) == 0);
                            }
                        }
                    },
                }
            } else {
                assert(at[0] == candidate);
                assert forall|j: int|
                    0 <= j < rest.len() && in_round(source, next, j) implies at_least(
                    #[trigger] rest[j],
                    candidate,
                ) by {
                    if j != i {
                        assert(in_round(source, i, j));
                        assert(rest[j] == streams[j]);
                    }
                }
                lemma_settle(rest, candidate, source, next);
                let outcome = settle(rest, candidate, source, next);
                assert(outcome == settle(streams, candidate, source, i));
                assert forall|j: int, id: u64|
                    0 <= j < streams.len() && id >= candidate implies #[trigger] count_of(
                    before_round(streams, candidate, source, i, j),
                    id,
                ) == count_of(before_round(rest, candidate, source, next, j), id) by {
                    if j == i {
                        assert(in_round(source, next, j));
                        assert(before_round(rest, candidate, source, next, j) == at);
                        assert(count_of(streams[i], id) == count_of(at, id));
                    } else {
                        assert(in_round(source, next, j) == in_round(source, i, j));
                        assert(rest[j] == streams[j]);
                    }
                }
                match outcome {
                    Some(found) => {
                        assert forall|id: u64| id < found.0 implies #[trigger] misses(streams, candidate, source, i, id) by {
                            if id < candidate {
                                assert(count_of(
                                    before_round(streams, candidate, source, i, source),
                                    id,
                                ) == 0);
                            } else {
                                assert(misses(rest, candidate, source, next, id));
                                let j = choose|j: int|
                                    0 <= j < rest.len() && #[trigger] count_of(
                                        before_round(rest, candidate, source, next, j),
                                        id,
                                    ) == 0;
                                assert(count_of(
                                    before_round(streams, candidate, source, i, j),
                                    id,
                                ) == 0);
                            }
                        }
                        assert forall|j: int, id: u64|
                            0 <= j < streams.len() && id >= found.0 implies #[trigger] count_of(
                            before_round(streams, candidate, source, i, j),
                            id,
                        ) == count_of(found.1[j], id) + if id == found.0 {
                            1nat
                        } else {
                            0nat
                        } by {
                            assert(count_of(before_round(streams, candidate, source, i, j), id)
                                == count_of(before_round(rest, candidate, source, next, j), id));
                        }
                    },
                    None => {
                        assert forall|id: u64|
                            #[trigger] misses(streams, candidate, source, i, id) by {
                            if id < candidate {
                                assert(count_of(
                                    before_round(streams, candidate, source, i, source),
                                    id,
                                ) == 0);
                            } else {
                                assert(misses(rest, candidate, source, next, id));
                                let j = choose|j: int|
                                    0 <= j < rest.len() && #[trigger] count_of(
                                        before_round(rest, candidate, source, next, j),
                                        id,
                                    ) == 0;
                                assert(count_of(
                                    before_round(streams, candidate, source, i, j),
                                    id,
                                ) == 0);
                            }
                        }
                    },
                }
            }
        }
    }
}

/// Whether `ids` holds every id as often as the stream that holds it least
/// often: no more often than any stream, and as often as one of them.
pub open spec fn shared(streams: Seq<Seq<u64>>, ids: Seq<u64>) -> bool {
    &&& forall|id: u64, j: int|
        0 <= j < streams.len() ==> count_of(ids, id) <= #[trigger] count_of(streams[j], id)
    &&& forall|id: u64| #[trigger] meets(streams, ids, id)
}

/// Whether some stream holds `id` exactly as often as `ids` does.
pub open spec fn meets(streams: Seq<Seq<u64>>, ids: Seq<u64>, id: u64) -> bool {
    exists|j: int| 0 <= j < streams.len() && count_of(ids, id) == #[trigger] count_of(streams[j], id)
}

/// What the terms share, where the stream of every term is in ascending
/// order: the result is in ascending order and holds every id as often as
/// the term that holds it least often.
pub proof fn lemma_intersected(streams: Seq<Seq<u64>>)
    requires
        streams.len() > 0,
        all_ascending(streams),
    ensures
        ascending(intersected(streams)),
        shared(streams, intersected(streams)),
    decreases sum_len(streams),
{
    let ids = intersected(streams);
    let count = streams.len() as int;
    if streams[0].len() == 0 {
        assert forall|id: u64| #[trigger] meets(streams, ids, id) by {
            assert(count_of(ids, id) == count_of(streams[0], id));
        }
    } else {
        let first = streams[0][0];
        let popped = streams.update(0, streams[0].drop_first());
        let next = next_in_round(0, count);
        lemma_ascending_rest(streams[0]);
        assert(all_ascending(popped)) by {
            assert forall|j: int| 0 <= j < popped.len() implies ascending(#[trigger] popped[j]) by {
                if j != 0 {
                    assert(popped[j] == streams[j]);
                }
            }
        }
        assert forall|j: int| 0 <= j < popped.len() && in_round(0, next, j) implies at_least(
            #[trigger] popped[j],
            first,
        ) by {
            assert(j == 0);
        }
        lemma_settle(popped, first, 0, next);
        assert(with_head(first, streams[0].drop_first()) == streams[0]);
        assert forall|j: int| 0 <= j < count implies before_round(popped, first, 0, next, j)
            == #[trigger] streams[j] by {
            if j != 0 {
                assert(!in_round(0, next, j));
            }
        }
        match settle(popped, first, 0, next) {
            None => {
                assert forall|id: u64| #[trigger] meets(streams, ids, id) by {
                    assert(misses(popped, first, 0, next, id));
                    let j = choose|j: int|
                        0 <= j < popped.len() && #[trigger] count_of(
                            before_round(popped, first, 0, next, j),
                            id,
                        ) == 0;
                    assert(count_of(streams[j], id) == 0);
                }
            },
            Some(found) => {
                let hit = found.0;
                let left = found.1;
                let more = intersected(left);
                lemma_sum_len_update(streams, 0, streams[0].drop_first());
                lemma_settle_len(popped, first, 0, next);
                lemma_intersected(left);
                assert(ids == with_head(hit, more));
                // Nothing below the hit is left, in the streams or in what they share.
                assert forall|id: u64| id < hit implies count_of(more, id) == 0 by {
                    lemma_count_below(left[0], hit, id);
                    assert(count_of(more, id) <= count_of(left[0], id));
                }
                assert forall|id: u64, j: int| 0 <= j < streams.len() implies count_of(ids, id)
                    <= #[trigger] count_of(streams[j], id) by {
                    lemma_count_with_head(hit, more, id);
                    if id >= hit {
                        assert(count_of(before_round(popped, first, 0, next, j), id) == count_of(
                            left[j],
                            id,
                        ) + if id == hit {
                            1nat
                        } else {
                            0nat
                        });
                        assert(count_of(more, id) <= count_of(left[j], id));
                    }
                }
                assert forall|id: u64| #[trigger] meets(streams, ids, id) by {
                    lemma_count_with_head(hit, more, id);
                    if id >= hit {
                        assert(meets(left, more, id));
                        let j = choose|j: int|
                            0 <= j < left.len() && count_of(more, id) == #[trigger] count_of(
                                left[j],
                                id,
                            );
                        assert(count_of(before_round(popped, first, 0, next, j), id) == count_of(
                            left[j],
                            id,
                        ) + if id == hit {
                            1nat
                        } else {
                            0nat
                        });
                        assert(count_of(ids, id) == count_of(streams[j], id));
                    } else {
                        assert(misses(popped, first, 0, next, id));
                        let j = choose|j: int|
                            0 <= j < popped.len() && #[trigger] count_of(
                                before_round(popped, first, 0, next, j),
                                id,
                            ) == 0;
                        assert(count_of(streams[j], id) == 0);
                    }
                }
                assert(ascending(ids)) by {
                    assert forall|k: int| 0 <= k < more.len() implies more[k] >= hit by {
                        if more[k] < hit {
                            lemma_count_contains(more, more[k]);
                        }
                    }
                    assert forall|a: int, b: int| 0 <= a <= b < ids.len() implies ids[a]
                        <= ids[b] by {
                        if a == 0 {
                            if b > 0 {
                                assert(ids[b] == more[b - 1]);
                            }
                        } else {
                            assert(ids[a] == more[a - 1]);
                            assert(ids[b] == more[b - 1]);
                        }
                    }
                }
            },
        }
    }
}

/// How often `id` stands in all the sequences together.
pub open spec fn sum_count(cursors: Seq<Seq<u64>>, id: u64) -> nat
    decreases cursors.len(),
{
    if cursors.len() == 0 {
        0
    } else {
        sum_count(cursors.drop_last(), id) + count_of(cursors.last(), id)
    }
}

/// Replacing one sequence changes the count by the difference of the counts.
pub proof fn lemma_sum_count_update(cursors: Seq<Seq<u64>>, i: int, with: Seq<u64>, id: u64)
    requires
        0 <= i < cursors.len(),
    ensures
        sum_count(cursors.update(i, with), id) == sum_count(cursors, id) - count_of(cursors[i], id)
            + count_of(with, id),
        sum_count(cursors, id) >= count_of(cursors[i], id),
    decreases cursors.len(),
{
    if i == cursors.len() - 1 {
        assert(cursors.update(i, with).drop_last() == cursors.drop_last());
    } else {
        lemma_sum_count_update(cursors.drop_last(), i, with, id);
        assert(cursors.update(i, with).drop_last() == cursors.drop_last().update(i, with));
    }
}

/// An id that is counted in all the sequences together stands in one of
/// them.
pub proof fn lemma_sum_count_somewhere(cursors: Seq<Seq<u64>>, id: u64)
    requires
        sum_count(cursors, id) > 0,
    ensures
        exists|j: int| 0 <= j < cursors.len() && #[trigger] count_of(cursors[j], id) > 0,
    decreases cursors.len(),
{
    if cursors.len() > 0 {
        if count_of(cursors.last(), id) > 0 {
            assert(count_of(cursors[cursors.len() - 1], id) > 0);
        } else {
            lemma_sum_count_somewhere(cursors.drop_last(), id);
            let j = choose|j: int|
                0 <= j < cursors.drop_last().len() && #[trigger] count_of(
                    cursors.drop_last()[j],
                    id,
                ) > 0;
            assert(cursors.drop_last()[j] == cursors[j]);
            assert(count_of(cursors[j], id) > 0);
        }
    }
}

/// The cursor to read next has the smallest next id.
pub proof fn lemma_min_position_least(cursors: Seq<Seq<u64>>, j: int)
    requires
        0 <= j < cursors.len(),
        cursors[j].len() > 0,
    ensures
        min_position(cursors) >= 0,
        cursors[min_position(cursors)][0] <= cursors[j][0],
    decreases cursors.len(),
{
    lemma_min_position(cursors);
    lemma_min_position(cursors.drop_last());
    let before = min_position(cursors.drop_last());
    if before >= 0 {
        assert(cursors.drop_last()[before] == cursors[before]);
    }
    if j < cursors.len() - 1 {
        assert(cursors.drop_last()[j] == cursors[j]);
        lemma_min_position_least(cursors.drop_last(), j);
    }
}

/// Merging cursors that are in ascending order gives a sequence in ascending
/// order that holds every id as often as all the cursors together.
pub proof fn lemma_merged(cursors: Seq<Seq<u64>>)
    requires
        all_ascending(cursors),
    ensures
        ascending(merged(cursors)),
        forall|id: u64| #[trigger] count_of(merged(cursors), id) == sum_count(cursors, id),
    decreases sum_len(cursors),
{
    let at = min_position(cursors);
    lemma_min_position(cursors);
    if at < 0 {
        assert forall|id: u64| #[trigger] count_of(merged(cursors), id) == sum_count(
            cursors,
            id,
        ) by {
            lemma_sum_count_empty(cursors, id);
        }
    } else {
        let least = cursors[at][0];
        let rest = cursors.update(at, cursors[at].drop_first());
        lemma_sum_len_update(cursors, at, cursors[at].drop_first());
        lemma_ascending_rest(cursors[at]);
        assert(all_ascending(rest)) by {
            assert forall|j: int| 0 <= j < rest.len() implies ascending(#[trigger] rest[j]) by {
                if j != at {
                    assert(rest[j] == cursors[j]);
                }
            }
        }
        lemma_merged(rest);
        let more = merged(rest);
        assert(merged(cursors) == with_head(least, more));
        assert(with_head(least, cursors[at].drop_first()) == cursors[at]);
        assert forall|id: u64| #[trigger] count_of(merged(cursors), id) == sum_count(
            cursors,
            id,
        ) by {
            lemma_count_with_head(least, more, id);
            lemma_count_with_head(least, cursors[at].drop_first(), id);
            lemma_sum_count_update(cursors, at, cursors[at].drop_first(), id);
            assert(count_of(more, id) == sum_count(rest, id));
        }
        assert forall|k: int| 0 <= k < more.len() implies more[k] >= least by {
            let id = more[k];
            lemma_count_contains(more, id);
            assert(count_of(more, id) == sum_count(rest, id));
            lemma_sum_count_somewhere(rest, id);
            let j = choose|j: int| 0 <= j < rest.len() && #[trigger] count_of(rest[j], id) > 0;
            lemma_count_contains(rest[j], id);
            let pos = choose|pos: int| 0 <= pos < rest[j].len() && rest[j][pos] == id;
            if j == at {
                assert(cursors[at].drop_first()[pos] == cursors[at][pos + 1]);
                assert(cursors[at][0] <= cursors[at][pos + 1]);
            } else {
                assert(rest[j] == cursors[j]);
                lemma_min_position_least(cursors, j);
                assert(cursors[j][0] <= cursors[j][pos]);
            }
        }
        assert forall|a: int, b: int| 0 <= a <= b < merged(cursors).len() implies merged(
            cursors,
        )[a] <= merged(cursors)[b] by {
            if a == 0 {
                if b > 0 {
                    assert(merged(cursors)[b] == more[b - 1]);
                }
            } else {
                assert(merged(cursors)[a] == more[a - 1]);
                assert(merged(cursors)[b] == more[b - 1]);
            }
        }
    }
}

/// Sequences without ids count nothing.
pub proof fn lemma_sum_count_empty(cursors: Seq<Seq<u64>>, id: u64)
    requires
        forall|j: int| 0 <= j < cursors.len() ==> (#[trigger] cursors[j]).len() == 0,
    ensures
        sum_count(cursors, id) == 0,
    decreases cursors.len(),
{
    if cursors.len() > 0 {
        assert forall|j: int| 0 <= j < cursors.drop_last().len() implies (
        #[trigger] cursors.drop_last()[j]).len() == 0 by {
            assert(cursors.drop_last()[j] == cursors[j]);
        }
        lemma_sum_count_empty(cursors.drop_last(), id);
        assert(cursors[cursors.len() - 1].len() == 0);
    }
}

/// The postings of one term in the posting lists named, one sequence for
/// each list in the order given.
pub open spec fn term_cursors(lists: Seq<Seq<Seq<u64>>>, term: u64, posting_lists: Seq<u16>) -> Seq<
    Seq<u64>,
> {
    Seq::new(posting_lists.len(), |j: int| posting_at(lists, posting_lists[j] as int, term as int))
}

/// The stream of each term: its postings in the posting lists named, merged.
pub open spec fn term_streams(
    lists: Seq<Seq<Seq<u64>>>,
    term_ids: Seq<u64>,
    posting_lists: Seq<u16>,
) -> Seq<Seq<u64>> {
    Seq::new(term_ids.len(), |g: int| merged(term_cursors(lists, term_ids[g], posting_lists)))
}

/// Merging loses and adds nothing: the merged sequence is as long as all the
/// cursors together.
pub proof fn lemma_merged_len(cursors: Seq<Seq<u64>>)
    ensures
        merged(cursors).len() == sum_len(cursors),
    decreases sum_len(cursors),
{
    let at = min_position(cursors);
    lemma_min_position(cursors);
    if at >= 0 {
        lemma_sum_len_update(cursors, at, cursors[at].drop_first());
        lemma_merged_len(cursors.update(at, cursors[at].drop_first()));
    }
}

/// A search that still has to ask a stream without ids finds nothing.
pub proof fn lemma_settle_meets_empty(
    streams: Seq<Seq<u64>>,
    candidate: u64,
    source: int,
    i: int,
    j: int,
)
    requires
        0 <= source < streams.len(),
        0 <= i < streams.len(),
        0 <= j < streams.len(),
        streams[j].len() == 0,
        !in_round(source, i, j),
    ensures
        settle(streams, candidate, source, i) is None,
    decreases sum_len(streams),
{
    if i != source {
        let at = seek(streams[i], candidate);
        if at.len() > 0 {
            lemma_seek_len(streams[i], candidate);
            lemma_sum_len_update(streams, i, at.drop_first());
            let rest = streams.update(i, at.drop_first());
            let next = next_in_round(i, streams.len() as int);
            assert(i != j);
            assert(rest[j] == streams[j]);
            if at[0] > candidate {
                lemma_settle_meets_empty(rest, at[0], i, next, j);
            } else {
                lemma_settle_meets_empty(rest, candidate, source, next, j);
            }
        }
    }
}

/// Where one stream has no ids, the streams share none, whatever order the
/// others are in.
pub proof fn lemma_intersected_with_empty(streams: Seq<Seq<u64>>, j: int)
    requires
        0 <= j < streams.len(),
        streams[j].len() == 0,
    ensures
        intersected(streams) == Seq::<u64>::empty(),
{
    if j != 0 && streams[0].len() > 0 {
        let popped = streams.update(0, streams[0].drop_first());
        let next = next_in_round(0, streams.len() as int);
        assert(popped[j] == streams[j]);
        lemma_settle_meets_empty(popped, streams[0][0], 0, next, j);
    }
}

/// A term without postings in the posting lists named lets nothing come
/// out, whatever the postings of the other terms are.
pub proof fn lemma_term_without_postings(
    lists: Seq<Seq<Seq<u64>>>,
    term_ids: Seq<u64>,
    posting_lists: Seq<u16>,
    i: int,
)
    requires
        0 <= i < term_ids.len(),
        forall|j: int|
            0 <= j < posting_lists.len() ==> (#[trigger] posting_at(
                lists,
                posting_lists[j] as int,
                term_ids[i] as int,
            )).len() == 0,
    ensures
        intersected(term_streams(lists, term_ids, posting_lists)) == Seq::<u64>::empty(),
{
    let cursors = term_cursors(lists, term_ids[i], posting_lists);
    lemma_min_position(cursors);
    if min_position(cursors) >= 0 {
        let at = min_position(cursors);
        assert(cursors[at] == posting_at(lists, posting_lists[at] as int, term_ids[i] as int));
    }
    let streams = term_streams(lists, term_ids, posting_lists);
    assert(streams[i] == merged(cursors));
    lemma_intersected_with_empty(streams, i);
}

/// How often `id` is filed under `term` in the posting lists named, all of
/// them together.
pub open spec fn held_under(
    lists: Seq<Seq<Seq<u64>>>,
    term: u64,
    posting_lists: Seq<u16>,
    id: u64,
) -> nat {
    sum_count(term_cursors(lists, term, posting_lists), id)
}

/// Whether some term holds `id` exactly as often as `ids` does.
pub open spec fn meets_a_term(
    lists: Seq<Seq<Seq<u64>>>,
    term_ids: Seq<u64>,
    posting_lists: Seq<u16>,
    ids: Seq<u64>,
    id: u64,
) -> bool {
    exists|i: int|
        0 <= i < term_ids.len() && count_of(ids, id) == #[trigger] held_under(
            lists,
            term_ids[i],
            posting_lists,
            id,
        )
}

/// Retrieval of what all terms share, over postings in ascending order: the
/// storage ids come out in ascending order, and each comes out as often as
/// the term holds it that holds it least often in the posting lists named.
/// So an id comes out exactly if every term holds it, and where no posting
/// holds an id twice the result is the intersection, over the terms, of the
/// union of their postings. At least one term has to be named: without
/// terms nothing comes out.
pub proof fn lemma_all_terms_retrieval(
    lists: Seq<Seq<Seq<u64>>>,
    term_ids: Seq<u64>,
    posting_lists: Seq<u16>,
)
    requires
        term_ids.len() > 0,
        forall|i: int, j: int|
            0 <= i < term_ids.len() && 0 <= j < posting_lists.len() ==> ascending(
                #[trigger] posting_at(lists, posting_lists[j] as int, term_ids[i] as int),
            ),
    ensures
        ({
            let ids = intersected(term_streams(lists, term_ids, posting_lists));
            &&& ascending(ids)
            &&& forall|id: u64, i: int|
                0 <= i < term_ids.len() ==> count_of(ids, id) <= #[trigger] held_under(
                    lists,
                    term_ids[i],
                    posting_lists,
                    id,
                )
            &&& forall|id: u64| #[trigger] meets_a_term(lists, term_ids, posting_lists, ids, id)
        }),
{
    let streams = term_streams(lists, term_ids, posting_lists);
    let ids = intersected(streams);
    assert forall|i: int| 0 <= i < streams.len() implies ascending(#[trigger] streams[i])
        && forall|id: u64| #[trigger]
        count_of(streams[i], id) == held_under(lists, term_ids[i], posting_lists, id) by {
        let cursors = term_cursors(lists, term_ids[i], posting_lists);
        assert forall|j: int| 0 <= j < cursors.len() implies ascending(#[trigger] cursors[j]) by {
            assert(ascending(posting_at(lists, posting_lists[j] as int, term_ids[i] as int)));
        }
        lemma_merged(cursors);
    }
    lemma_intersected(streams);
    assert forall|id: u64, i: int| 0 <= i < term_ids.len() implies count_of(ids, id)
        <= #[trigger] held_under(lists, term_ids[i], posting_lists, id) by {
        assert(count_of(ids, id) <= count_of(streams[i], id));
    }
    assert forall|id: u64| #[trigger]
        meets_a_term(lists, term_ids, posting_lists, ids, id) by {
        assert(meets(streams, ids, id));
        let i = choose|i: int|
            0 <= i < streams.len() && count_of(ids, id) == #[trigger] count_of(streams[i], id);
        assert(count_of(streams[i], id) == held_under(lists, term_ids[i], posting_lists, id));
    }
}

/// A cursor over one posting together with the id it is about to hand out.
pub struct Cursor<'a> {
    iter: PostingIter<'a>,
    head: Option<u64>,
}

impl<'a> Cursor<'a> {
    /// The cursor has its next id at hand as long as there is one.
    pub closed spec fn wf(&self) -> bool {
        &&& self.iter.wf()
        &&& self.head is None ==> self.iter.remaining().len() == 0
    }

    /// The ids that the cursor is still to hand out.
    pub closed spec fn ids(&self) -> Seq<u64> {
        match self.head {
            Some(id) => seq![id] + self.iter.remaining(),
            None => Seq::empty(),
        }
    }

    /// A cursor at the start of what `iter` is still to hand out.
    fn new(iter: PostingIter<'a>) -> (cursor: Self)
        requires
            iter.wf(),
        ensures
            cursor.wf(),
            cursor.ids() == iter.remaining(),
    {
        let mut iter = iter;
        let ghost all = iter.remaining();
        let head = iter.next();
        proof {
            if head is Some {
                assert(seq![all[0]] + all.drop_first() == all);
            }
        }
        Cursor { iter, head }
    }

    /// The id that the cursor is about to hand out.
    fn peek(&self) -> (head: Option<u64>)
        requires
            self.wf(),
        ensures
            head is Some <==> self.ids().len() > 0,
            head matches Some(id) ==> id == self.ids()[0],
    {
        self.head
    }

    /// Moves the cursor past the id it was about to hand out.
    fn advance(&mut self)
        requires
            old(self).wf(),
            old(self).ids().len() > 0,
        ensures
            final(self).wf(),
            final(self).ids() == old(self).ids().drop_first(),
    {
        let ghost rest = self.iter.remaining();
        assert((seq![self.head->0] + rest).drop_first() == rest);
        self.head = self.iter.next();
        proof {
            if self.head is Some {
                assert(seq![rest[0]] + rest.drop_first() == rest);
            }
        }
    }
}

/// The ids that the cursors of one term are still to hand out.
pub open spec fn cursor_ids(cursors: Seq<Cursor<'_>>) -> Seq<Seq<u64>> {
    Seq::new(cursors.len(), |j: int| cursors[j].ids())
}

/// The streams of the terms, given the cursors of each.
pub open spec fn group_streams(groups: Seq<Vec<Cursor<'_>>>) -> Seq<Seq<u64>> {
    Seq::new(groups.len(), |g: int| merged(cursor_ids(groups[g]@)))
}

/// Hands out the storage ids that are filed under every one of the terms,
/// where the postings are in ascending order. For each term the posting
/// lists named are read side by side, smallest id first; the terms are then
/// searched for ids that all of them hand out. A storage id that every term
/// holds `n` times or more is handed out `n` times.
pub struct AllTermRetriever<'a, P> where P: IndexPosting {
    /// For each term, one cursor for each posting list named.
    iters: Vec<Vec<Cursor<'a>>>,
    /// Whether a term has run out of ids.
    done: bool,
    marker: PhantomData<&'a P>,
}

impl<'a, P: IndexPosting> AllTermRetriever<'a, P> {
    /// What each term is still to hand out: its cursors, merged.
    pub closed spec fn streams(&self) -> Seq<Seq<u64>> {
        group_streams(self.iters@)
    }

    /// Whether a term has run out of ids, so that nothing is handed out any
    /// more.
    pub closed spec fn done(&self) -> bool {
        self.done
    }

    /// Every cursor has its next id at hand.
    pub closed spec fn cursors_wf(&self) -> bool {
        forall|g: int, j: int|
            0 <= g < self.iters@.len() && 0 <= j < self.iters@[g]@.len()
                ==> (#[trigger] self.iters@[g]@[j]).wf()
    }

    /// Hands out the smallest id that the cursors of term `iter_idx` are
    /// about to hand out, and moves the first cursor that has it past it.
    /// `None` where there is no such term or all its cursors are read to
    /// their end.
    pub fn min_item_at(&mut self, iter_idx: usize) -> (r: Option<u64>)
        requires
            old(self).cursors_wf(),
        ensures
            final(self).cursors_wf(),
            final(self).done() == old(self).done(),
            final(self).streams().len() == old(self).streams().len(),
            match r {
                Some(id) => iter_idx < old(self).streams().len() && old(self).streams()[iter_idx as int].len() > 0 && id == old(self).streams()[iter_idx as int][0] && final(self).streams() == old(self).streams().update(
                    iter_idx as int,
                    old(self).streams()[iter_idx as int].drop_first(),
                ),
                None => (iter_idx >= old(self).streams().len() || old(self).streams()[iter_idx as int].len() == 0) && final(self).streams() == old(self).streams(),
            },
    {
        if iter_idx >= self.iters.len() {
            return None;
        }
        let ghost groups = self.iters@;
        let ghost cursors = cursor_ids(groups[iter_idx as int]@);
        let term_iters: &mut Vec<Cursor<'a>> = &mut self.iters[iter_idx];
        let mut min: u64 = 0;
        let mut min_pos: usize = 0;
        let mut found = false;
        let mut p: usize = 0;
        proof {
            assert(cursors.take(0) == Seq::<Seq<u64>>::empty());
        }
        while p < term_iters.len()
            invariant
                p <= term_iters@.len(),
                *term_iters == groups[iter_idx as int],
                cursors == cursor_ids(term_iters@),
                forall|j: int| 0 <= j < term_iters@.len() ==> (#[trigger] term_iters@[j]).wf(),
                found <==> min_position(cursors.take(p as int)) >= 0,
                found ==> min_pos == min_position(cursors.take(p as int)) && min_pos < p && min
                    == cursors[min_pos as int][0],
            decreases term_iters@.len() - p,
        {
            proof {
                assert(cursors.take(p + 1).drop_last() == cursors.take(p as int));
                assert(cursors.take(p + 1).last() == cursors[p as int]);
                lemma_min_position(cursors.take(p as int));
                if found {
                    assert(cursors.take(p + 1)[min_pos as int] == cursors[min_pos as int]);
                }
            }
            match term_iters[p].peek() {
                Some(val) => {
                    if !found || val < min {
                        min = val;
                        min_pos = p;
                        found = true;
                    }
                },
                None => {},
            }
            p = p + 1;
        }
        proof {
            assert(cursors.take(p as int) == cursors);
            lemma_min_position(cursors);
        }
        if !found {
            proof {
                assert(self.iters@ == groups);
                assert(merged(cursors) == Seq::<u64>::empty());
            }
            None
        } else {
            let cursor: &mut Cursor<'a> = &mut term_iters[min_pos];
            cursor.advance();
            proof {
                let now = self.iters@;
                let g = iter_idx as int;
                assert(now.len() == groups.len());
                assert(forall|h: int| 0 <= h < groups.len() && h != g ==> now[h] == groups[h]);
                assert(now[g]@.len() == groups[g]@.len());
                assert(forall|j: int|
                    0 <= j < groups[g]@.len() && j != min_pos ==> now[g]@[j] == groups[g]@[j]);
                assert(cursor_ids(now[g]@) =~= cursors.update(
                    min_pos as int,
                    cursors[min_pos as int].drop_first(),
                ));
                assert(merged(cursors) == seq![min] + merged(cursor_ids(now[g]@)));
                assert((seq![min] + merged(cursor_ids(now[g]@))).drop_first() == merged(
                    cursor_ids(now[g]@),
                ));
                assert(group_streams(now) =~= group_streams(groups).update(
                    g,
                    group_streams(groups)[g].drop_first(),
                ));
                assert forall|h: int, j: int|
                    0 <= h < now.len() && 0 <= j < now[h]@.len() implies (#[trigger] now[h]@[j]).wf() by {
                    if h != g {
                        assert(now[h] == groups[h]);
                    } else if j != min_pos {
                        assert(now[h]@[j] == groups[h]@[j]);
                    }
                }
            }
            Some(min)
        }
    }
}

impl<'a, P: IndexPosting> RetrieveAlgo<'a, P> for AllTermRetriever<'a, P> {
    open spec fn wf(&self) -> bool {
        self.cursors_wf()
    }

    closed spec fn remaining(&self) -> Seq<u64> {
        if self.done {
            Seq::empty()
        } else {
            intersected(self.streams())
        }
    }

    open spec fn stream(
        lists: Seq<Seq<Seq<u64>>>,
        term_ids: Seq<u64>,
        posting_lists: Seq<u16>,
        unique: bool,
    ) -> Seq<u64> {
        intersected(term_streams(lists, term_ids, posting_lists))
    }

    fn new(postings: &'a P, options: RetrieveOptions) -> (retriever: Self)
        ensures
            !retriever.done(),
            retriever.streams() == term_streams(
                postings.lists(),
                options.term_ids@,
                options.posting_lists@,
            ),
    {
        let mut iters: Vec<Vec<Cursor<'a>>> = Vec::new();
        let ghost lists = postings.lists();
        let ghost terms = options.term_ids@;
        let ghost named = options.posting_lists@;
        let mut g: usize = 0;
        while g < options.term_ids.len()
            invariant
                g <= options.term_ids@.len(),
                postings.wf(),
                lists == postings.lists(),
                terms == options.term_ids@,
                named == options.posting_lists@,
                iters@.len() == g,
                forall|h: int, j: int|
                    0 <= h < iters@.len() && 0 <= j < iters@[h]@.len() ==> (#[trigger] iters@[h]@[j]).wf(),
                forall|h: int|
                    0 <= h < g ==> cursor_ids(#[trigger] iters@[h]@) == term_cursors(
                        lists,
                        terms[h],
                        named,
                    ),
            decreases options.term_ids@.len() - g,
        {
            let term_id: u64 = options.term_ids[g];
            let mut term_iter: Vec<Cursor<'a>> = Vec::new();
            let mut j: usize = 0;
            while j < options.posting_lists.len()
                invariant
                    j <= options.posting_lists@.len(),
                    postings.wf(),
                    lists == postings.lists(),
                    named == options.posting_lists@,
                    term_iter@.len() == j,
                    forall|k: int| 0 <= k < j ==> (#[trigger] term_iter@[k]).wf(),
                    forall|k: int|
                        0 <= k < j ==> (#[trigger] term_iter@[k]).ids() == posting_at(
                            lists,
                            named[k] as int,
                            term_id as int,
                        ),
                decreases options.posting_lists@.len() - j,
            {
                let posting_id: u16 = options.posting_lists[j];
                let iter = match postings.posting_retriever(posting_id as usize, term_id) {
                    Some(iter) => iter,
                    None => PostingIter::empty(),
                };
                term_iter.push(Cursor::new(iter));
                j = j + 1;
            }
            proof {
                assert(cursor_ids(term_iter@) =~= term_cursors(lists, term_id, named));
            }
            let ghost before = iters@;
            iters.push(term_iter);
            proof {
                assert forall|h: int, k: int|
                    0 <= h < iters@.len() && 0 <= k < iters@[h]@.len() implies (#[trigger] iters@[h]@[k]).wf() by {
                    if h < before.len() {
                        assert(iters@[h] == before[h]);
                    }
                }
                assert forall|h: int| 0 <= h < g + 1 implies cursor_ids(#[trigger] iters@[h]@)
                    == term_cursors(lists, terms[h], named) by {
                    if h < before.len() {
                        assert(iters@[h] == before[h]);
                    }
                }
            }
            g = g + 1;
        }
        let retriever = AllTermRetriever { iters, done: false, marker: PhantomData };
        proof {
            assert(retriever.streams() =~= term_streams(lists, terms, named));
        }
        retriever
    }

    fn next(&mut self) -> (r: Option<u64>) {
        if self.done {
            return None;
        }
        let iterlen = self.iters.len();
        let ghost start = self.streams();
        let first = self.min_item_at(0);
        let mut candidate: u64 = match first {
            Some(id) => id,
            None => {
                self.done = true;
                return None;
            },
        };
        let mut source: usize = 0;
        let mut i: usize = if iterlen > 1 {
            1
        } else {
            0
        };
        let ghost outcome = settle(self.streams(), candidate, 0, i as int);
        proof {
            assert(i == next_in_round(0, iterlen as int));
            assert(iterlen == start.len());
        }
        while i != source
            invariant
                !self.done,
                self.cursors_wf(),
                iterlen == self.streams().len(),
                iterlen > 0,
                i < iterlen,
                source < iterlen,
                settle(self.streams(), candidate, source as int, i as int) == outcome,
                old(self).remaining() == match outcome {
                    None => Seq::<u64>::empty(),
                    Some(found) => seq![found.0] + intersected(found.1),
                },
            decreases sum_len(self.streams()),
        {
            let ghost round_start = sum_len(self.streams());
            loop
                invariant_except_break
                    i != source,
                    settle(self.streams(), candidate, source as int, i as int) == outcome,
                    sum_len(self.streams()) <= round_start,
                invariant
                    !self.done,
                    self.cursors_wf(),
                    iterlen == self.streams().len(),
                    iterlen > 0,
                    i < iterlen,
                    source < iterlen,
                    old(self).remaining() == match outcome {
                        None => Seq::<u64>::empty(),
                        Some(found) => seq![found.0] + intersected(found.1),
                    },
                ensures
                    !self.done,
                    self.cursors_wf(),
                    iterlen == self.streams().len(),
                    i < iterlen,
                    source < iterlen,
                    settle(
                        self.streams(),
                        candidate,
                        source as int,
                        next_in_round(i as int, iterlen as int),
                    ) == outcome,
                    sum_len(self.streams()) < round_start,
                decreases sum_len(self.streams()),
            {
                let ghost now = self.streams();
                let curr = match self.min_item_at(i) {
                    Some(id) => id,
                    None => {
                        proof {
                            assert(seek(now[i as int], candidate) == now[i as int]);
                        }
                        self.done = true;
                        return None;
                    },
                };
                proof {
                    lemma_sum_len_update(now, i as int, now[i as int].drop_first());
                }
                if curr < candidate {
                    proof {
                        assert(seek(now[i as int], candidate) == seek(
                            now[i as int].drop_first(),
                            candidate,
                        ));
                        assert(self.streams()[i as int] == now[i as int].drop_first());
                        assert(settle(self.streams(), candidate, source as int, i as int)
                            == settle(now, candidate, source as int, i as int)) by {
                            let at = seek(now[i as int], candidate);
                            if at.len() > 0 {
                                assert(self.streams().update(i as int, at.drop_first())
                                    =~= now.update(i as int, at.drop_first()));
                            }
                        }
                    }
                    continue ;
                }
                proof {
                    assert(seek(now[i as int], candidate) == now[i as int]);
                }
                if curr > candidate {
                    candidate = curr;
                    source = i;
                }
                break ;
            }
            i = if i + 1 < iterlen {
                i + 1
            } else {
                0
            };
        }
        Some(candidate)
    }
}

} // verus!
