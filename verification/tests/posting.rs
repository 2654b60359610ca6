use indexa::error::Error;
use indexa::index::posting::compressed::CompressedPostings;
use indexa::index::posting::default::DefaultPostings;
use indexa::index::posting::{EditableIndexPosting, IndexPosting, IndexPostingEditor};
use rand::Rng;
use std::collections::HashMap;
use std::time::Instant;

#[test]
fn posting() {
    let mut postings = DefaultPostings::with_capacity(10);

    let editor = postings.editor();
    editor.announce_term_count(2).unwrap();
    editor.insert_posts(0, 0, &[0, 1]).unwrap();
    editor.commit().unwrap();

    let r = postings.posting_retriever(0, 1).unwrap();
    assert_eq!(r.collect(), vec![0]);

    let r = postings.posting_retriever(0, 0).unwrap();
    assert_eq!(r.collect(), vec![0]);

    let mut postings = DefaultPostings::with_capacity(10);

    let insert_count = 1_000_000u64;

    // The library is built with optimizations and this file is not, so the
    // forty million term ids are drawn with a few shifts each, from a state
    // that starts at random.
    let mut state: u64 = rand::thread_rng().gen::<u64>() | 1;
    let mut term_ids = [0usize; 20];

    for _ in 0..4 {
        let editor = postings.editor();
        editor.announce_term_count(insert_count as usize).unwrap();

        for i in 0..insert_count {
            let n = (i % 20) as usize + 1;
            for term_id in term_ids[..n].iter_mut() {
                state ^= state << 13;
                state ^= state >> 7;
                state ^= state << 17;
                *term_id = (state % insert_count) as usize;
            }
            editor.insert_posts(0, i, &term_ids[..n]).unwrap();
        }

        println!("\nStart committing");
        let start = Instant::now();
        editor.commit().unwrap();
        println!(
            "committing {insert_count} storage elements took: {:?}",
            start.elapsed(),
        );
    }
}

#[test]
fn postings_keep_the_order_of_insertion() {
    for compressed in [false, true] {
        let mut default = DefaultPostings::new();
        let mut packed = CompressedPostings::new();
        let ids = [9u64, 3, 300, 3, u64::MAX, 0];
        if compressed {
            let editor = packed.editor();
            for id in ids {
                editor.insert_posts(2, id, &[5, 1]).unwrap();
            }
            editor.commit().unwrap();
        } else {
            let editor = default.editor();
            for id in ids {
                editor.insert_posts(2, id, &[5, 1]).unwrap();
            }
            editor.commit().unwrap();
        }
        let read = |p: usize, t: u64| -> Option<Vec<u64>> {
            if compressed {
                packed.posting_retriever(p, t).map(|r| r.collect())
            } else {
                default.posting_retriever(p, t).map(|r| r.collect())
            }
        };
        assert_eq!(read(2, 5), Some(ids.to_vec()));
        assert_eq!(read(2, 1), Some(ids.to_vec()));
        // Slots that were only made to exist are empty.
        assert_eq!(read(2, 0), Some(vec![]));
        assert_eq!(read(2, 4), Some(vec![]));
        assert_eq!(read(0, 0), None);
        assert_eq!(read(1, 0), None);
        assert_eq!(read(2, 6), None);
        assert_eq!(read(3, 0), None);
        let count = if compressed { packed.len() } else { default.len() };
        assert_eq!(count, 3);
    }
}

#[test]
fn a_term_named_twice_gets_the_id_twice() {
    let mut postings = DefaultPostings::new();
    let editor = postings.editor();
    editor.insert_posts(0, 7, &[1, 1, 0]).unwrap();
    editor.insert_posts(0, 8, &[]).unwrap();
    editor.commit().unwrap();
    assert_eq!(postings.posting_retriever(0, 1).unwrap().collect(), vec![7, 7]);
    assert_eq!(postings.posting_retriever(0, 0).unwrap().collect(), vec![7]);
    assert_eq!(postings.posting_list_count(), 1);
    assert!(!postings.is_empty());
}

#[test]
fn commits_append() {
    let mut postings = CompressedPostings::new();
    let editor = postings.editor();
    editor.insert_posts(0, 5, &[0]).unwrap();
    editor.commit().unwrap();
    let editor = postings.editor();
    editor.insert_posts(0, 2, &[0, 3]).unwrap();
    editor.insert_posts(1, 1000, &[1]).unwrap();
    editor.commit().unwrap();
    assert_eq!(postings.posting_retriever(0, 0).unwrap().collect(), vec![5, 2]);
    assert_eq!(postings.posting_retriever(0, 3).unwrap().collect(), vec![2]);
    assert_eq!(postings.posting_retriever(0, 1).unwrap().collect(), vec![]);
    assert_eq!(postings.posting_retriever(1, 1).unwrap().collect(), vec![1000]);
    assert_eq!(postings.posting_retriever(1, 2).map(|r| r.collect()), None);
}

#[test]
fn sorting_waits_for_the_commit() {
    let mut postings = DefaultPostings::new();
    let editor = postings.editor();
    editor.insert_posts(0, 9, &[0]).unwrap();
    editor.insert_posts(0, 3, &[0]).unwrap();
    editor.insert_posts(0, 9, &[0]).unwrap();
    assert_eq!(editor.sort_all_postings(), Err(Error::UnsupportedOperation));
    assert_eq!(editor.sort_postings(0, 0), Err(Error::UnsupportedOperation));
    editor.commit().unwrap();
    assert_eq!(postings.posting_retriever(0, 0).unwrap().collect(), vec![9, 3, 9]);
    let editor = postings.editor();
    assert_eq!(editor.sort_all_postings(), Ok(()));
    assert_eq!(postings.posting_retriever(0, 0).unwrap().collect(), vec![3, 9, 9]);
}

#[test]
fn announcing_counts_as_pending() {
    let mut postings = CompressedPostings::new();
    let editor = postings.editor();
    editor.announce_term_count(1).unwrap();
    assert_eq!(editor.sort_all_postings(), Err(Error::UnsupportedOperation));
    editor.commit().unwrap();
    assert_eq!(editor.sort_all_postings(), Ok(()));
    assert_eq!(postings.len(), 0);
}

#[test]
fn sorting_one_posting() {
    let mut postings = CompressedPostings::new();
    let editor = postings.editor();
    editor.insert_posts(0, 300, &[0, 1]).unwrap();
    editor.insert_posts(0, 2, &[0, 1]).unwrap();
    editor.commit().unwrap();
    assert_eq!(editor.sort_postings(0, 1), Ok(()));
    assert_eq!(editor.sort_postings(0, 2), Err(Error::OutOfBounds));
    assert_eq!(editor.sort_postings(usize::MAX, 0), Err(Error::OutOfBounds));
    // Sorting in a list that is not there makes the list and fails on the term.
    assert_eq!(editor.sort_postings(2, 0), Err(Error::OutOfBounds));
    assert_eq!(postings.posting_retriever(0, 0).unwrap().collect(), vec![300, 2]);
    assert_eq!(postings.posting_retriever(0, 1).unwrap().collect(), vec![2, 300]);
    assert_eq!(postings.len(), 3);
}

#[test]
fn commit_postings_appends_blobs() {
    let mut postings = DefaultPostings::new();
    let editor = postings.editor();
    let mut blobs: HashMap<usize, Vec<u8>> = HashMap::new();
    blobs.insert(2, vec![0, 0, 0, 0, 0, 0, 0, 7, 0, 0, 0, 0, 0, 0, 1, 0]);
    blobs.insert(0, vec![0, 0, 0, 0, 0, 0, 0, 1]);
    assert_eq!(editor.commit_postings(1, blobs), Ok(()));
    let mut more: HashMap<usize, Vec<u8>> = HashMap::new();
    more.insert(usize::MAX, vec![]);
    assert_eq!(editor.commit_postings(1, more), Err(Error::OutOfBounds));
    assert_eq!(postings.len(), 2);
    assert_eq!(postings.posting_retriever(1, 2).unwrap().collect(), vec![7, 256]);
    assert_eq!(postings.posting_retriever(1, 1).unwrap().collect(), vec![]);
    assert_eq!(postings.posting_retriever(1, 0).unwrap().collect(), vec![1]);
    assert_eq!(postings.posting_retriever(0, 0).map(|r| r.collect()), None);

    let mut packed = CompressedPostings::new();
    let mut blobs: HashMap<usize, Vec<u8>> = HashMap::new();
    blobs.insert(1, vec![0xAC, 0x02, 0x05]);
    assert_eq!(packed.editor().commit_postings(0, blobs), Ok(()));
    assert_eq!(packed.posting_retriever(0, 1).unwrap().collect(), vec![300, 5]);
}

#[test]
fn a_term_beyond_all_slots_fails_the_commit() {
    let mut postings = DefaultPostings::new();
    let editor = postings.editor();
    editor.insert_posts(0, 1, &[0]).unwrap();
    editor.insert_posts(0, 1, &[usize::MAX]).unwrap();
    assert_eq!(editor.commit(), Err(Error::OutOfBounds));
    assert_eq!(postings.len(), 0);
}
