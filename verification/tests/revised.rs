use indexa::edit::NewItem;
use indexa::error::Error;
use indexa::index::dict::default::DefaultDict;
use indexa::index::dict::ngram::ngram::Ngram;
use indexa::index::dict::ngram::NGramDict;
use indexa::index::dict::{EditableIndexDictionary, IndexDictionary, IndexDictionaryEditor};
use indexa::index::posting::codec::encode_record;
use indexa::index::posting::default::DefaultPostings;
use indexa::index::posting::{EditableIndexPosting, IndexPosting, IndexPostingEditor};
use indexa::index::preset::DefaultIndex;
use indexa::index::storage::default::DefaultStorage;
use indexa::index::storage::passthrough::{IdPayload, PassThroughStorage};
use indexa::index::storage::{
    EditableIndexStorage, IndexStorage, IndexStorageEditor, StorageInsertionResult,
};
use indexa::retrieve::options::RetrieveOptions;
use indexa::retrieve::retriever::all_terms::AllTermRetriever;
use indexa::retrieve::retriever::RetrieveAlgo;
use indexa::traits::deser::Deser;

fn strings(words: &[&str]) -> Vec<String> {
    words.iter().map(|w| w.to_string()).collect()
}

#[test]
fn an_announced_run_is_inserted_term_by_term() {
    let mut dict: DefaultDict<String> = DefaultDict::new();
    let editor = dict.editor();
    assert_eq!(
        editor.insert_each(Ok(()), &strings(&["b", "a", "b", "c"])),
        Ok(vec![0, 1, 0, 2])
    );
    assert_eq!(editor.insert_each(Ok(()), &strings(&["c", "d"])), Ok(vec![2, 3]));
    assert_eq!(editor.len(), 4);
}

#[test]
fn a_run_that_got_no_room_inserts_nothing() {
    let mut dict: DefaultDict<String> = DefaultDict::new();
    let editor = dict.editor();
    assert_eq!(editor.insert_each(Ok(()), &strings(&["a"])), Ok(vec![0]));
    assert_eq!(
        editor.insert_each(Err(Error::OutOfBounds), &strings(&["a", "b"])),
        Err(Error::OutOfBounds)
    );
    assert_eq!(
        editor.insert_each(Err(Error::Io), &strings(&["b"])),
        Err(Error::Io)
    );
    assert_eq!(editor.len(), 1);
    assert_eq!(dict.term_id(&"b".to_string()), None);
    // An empty run needs no room.
    assert_eq!(dict.editor().insert_each(Err(Error::OutOfBounds), &[]), Ok(vec![]));
    assert_eq!(dict.editor().insert_or_get(&[]), Ok(vec![]));

    let mut ngrams: NGramDict<1> = NGramDict::new();
    let a = Ngram::<1>::try_from("a").unwrap();
    assert_eq!(ngrams.editor().insert_each(Ok(()), &[a, a]), Ok(vec![0, 1]));
    assert_eq!(
        ngrams.editor().insert_each(Err(Error::OutOfBounds), &[a]),
        Err(Error::OutOfBounds)
    );
    assert_eq!(ngrams.len(), 2);
}

#[test]
fn the_default_storage_answers_with_the_first_id() {
    let mut storage = DefaultStorage::<String>::new();
    for (round, run) in [vec!["a", "a"], vec!["a"], vec!["b", "c", "a"]].iter().enumerate() {
        let before = storage.len();
        let run = strings(run);
        let result = storage.editor().insert_items(&run).unwrap();
        match result {
            StorageInsertionResult::First(first) => assert_eq!(first as usize, before),
            StorageInsertionResult::Ids(_) => panic!("a first id expected in round {round}"),
        }
        assert_eq!(storage.len(), before + run.len());
        for (k, item) in run.iter().enumerate() {
            assert_eq!(storage.get_item(before + k), Ok(item.clone()));
        }
    }
    assert_eq!(storage.len(), 6);
    assert_eq!(storage.get_item(0), Ok("a".to_string()));
}

#[test]
fn a_commit_files_the_ids_after_those_that_are_there() {
    let mut index: DefaultIndex<String, String> = DefaultIndex::create();
    let mut editor = index.editor();
    editor.insert(NewItem::new(strings(&["a", "b"]), "d0".to_string())).unwrap();
    editor.insert(NewItem::new(strings(&["a"]), "d1".to_string())).unwrap();
    editor.commit().unwrap();
    editor.insert(NewItem::new(strings(&["b", "c", "b"]), "d2".to_string())).unwrap();
    editor.insert_in_postings(NewItem::new(strings(&["a"]), "d3".to_string()), &[0, 1]).unwrap();
    editor.commit().unwrap();
    editor.finish().unwrap();
    assert_eq!(index.storage().len(), 4);
    assert_eq!(index.storage().get_item(2), Ok("d2".to_string()));
    assert_eq!(index.storage().get_item(3), Ok("d3".to_string()));
    let read = |list: usize, term: u64| index.postings().posting_retriever(list, term).map(|r| r.collect());
    assert_eq!(read(0, 0), Some(vec![0, 1, 3]));
    assert_eq!(read(0, 1), Some(vec![0, 2, 2]));
    assert_eq!(read(0, 2), Some(vec![2]));
    assert_eq!(read(1, 0), Some(vec![3]));
    assert_eq!(read(1, 1), None);
    // Every term with a posting is in the dictionary.
    assert_eq!(index.dict().len(), 3);
}

#[test]
fn announcing_lists_never_drops_what_is_staged() {
    let mut postings = DefaultPostings::new();
    let editor = postings.editor();
    editor.insert_posts(2, 7, &[1]).unwrap();
    editor.announce_term_count(1).unwrap();
    editor.announce_term_count(0).unwrap();
    editor.announce_term_count(5).unwrap();
    editor.insert_posts(4, 8, &[0]).unwrap();
    editor.announce_term_count(2).unwrap();
    editor.commit().unwrap();
    assert_eq!(postings.len(), 5);
    assert_eq!(postings.posting_retriever(2, 1).unwrap().collect(), vec![7]);
    assert_eq!(postings.posting_retriever(4, 0).unwrap().collect(), vec![8]);
    assert_eq!(postings.posting_retriever(3, 0).map(|r| r.collect()), None);
}

#[test]
fn pass_through_serves_payloads_that_stand_for_ids() {
    let mut storage = PassThroughStorage::<u64>::new();
    let result = storage.editor().insert_items(&[40, 2, 40]).unwrap();
    match result {
        StorageInsertionResult::Ids(ids) => assert_eq!(ids, vec![40, 2, 40]),
        StorageInsertionResult::First(_) => panic!("ids expected"),
    }
    assert_eq!(storage.get_item(40), Ok(40));
    assert_eq!(storage.len(), 0);
    assert!(matches!(
        storage.editor().insert_items(&[]),
        Err(Error::UnsupportedOperation)
    ));
    assert_eq!(7u64.into_id(), 7);
    assert_eq!(u64::from_id(9), 9);
    assert_eq!(u64::from_id(u64::MAX).into_id(), u64::MAX);
}

#[test]
fn a_term_without_postings_empties_the_intersection() {
    let mut postings = DefaultPostings::new();
    let editor = postings.editor();
    // Not in ascending order, and term 1 has a slot but no ids.
    editor.insert_posts(0, 9, &[0, 2]).unwrap();
    editor.insert_posts(0, 3, &[0, 2]).unwrap();
    editor.commit().unwrap();
    let options = |terms: &[u64]| RetrieveOptions {
        posting_lists: vec![0],
        term_ids: terms.to_vec(),
        unique: false,
        limit: 0,
    };
    for terms in [vec![0, 1], vec![1, 0], vec![0, 1, 2], vec![0, 2, 5], vec![1]] {
        let mut retriever = AllTermRetriever::new(&postings, options(&terms));
        assert_eq!(retriever.next(), None);
        assert_eq!(retriever.next(), None);
    }
}

#[test]
fn min_item_at_gives_the_ascending_merge() {
    let mut postings = DefaultPostings::new();
    let editor = postings.editor();
    for (list, id) in [(0u16, 5u64), (1, 2), (0, 8), (2, 2), (1, 9), (0, 8)] {
        editor.insert_posts(list, id, &[0]).unwrap();
    }
    editor.commit().unwrap();
    let options = RetrieveOptions {
        posting_lists: vec![0, 1, 2],
        term_ids: vec![0],
        unique: false,
        limit: 0,
    };
    let mut retriever = AllTermRetriever::new(&postings, options);
    let mut merged = vec![];
    while let Some(id) = retriever.min_item_at(0) {
        merged.push(id);
    }
    assert_eq!(merged, vec![2, 2, 5, 8, 8, 9]);
    assert_eq!(retriever.min_item_at(0), None);
}

#[test]
fn varints_are_shorter_below_two_to_the_fifty_sixth() {
    let small = [0u64, 127, 128, 1 << 20, (1 << 56) - 1];
    assert!(encode_record(&small, true).len() <= encode_record(&small, false).len());
    assert_eq!(encode_record(&[(1 << 56) - 1], true).len(), 8);
    assert_eq!(encode_record(&[1 << 56], true).len(), 9);
    assert_eq!(encode_record(&[u64::MAX], true).len(), 10);
    assert_eq!(encode_record(&[u64::MAX], false).len(), 8);
}

#[test]
fn a_term_that_cannot_be_read_back() {
    let dict = DefaultDict::<u32>::from_terms(vec![vec![1, 0, 0, 0], vec![1, 0]]).unwrap();
    assert_eq!(dict.term(0), Ok(1));
    assert_eq!(dict.term(1), Err(Error::Codec));
    let grams = NGramDict::<2>::from_terms(vec![b"ab".to_vec(), b"abc".to_vec()]).unwrap();
    assert_eq!(grams.term(0), Ok(Ngram::new(['a', 'b'])));
    assert_eq!(grams.term(1), Err(Error::Codec));
    assert_eq!(grams.term(2), Err(Error::OutOfBounds));
}
