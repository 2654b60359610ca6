use indexa::edit::NewItem;
use indexa::error::Error;
use indexa::index::dict::default::DefaultDict;
use indexa::index::dict::ngram::NGramDict;
use indexa::index::dict::IndexDictionary;
use indexa::index::posting::codec::check_record;
use indexa::index::posting::codec::read_id;
use indexa::index::posting::compressed::CompressedPostings;
use indexa::index::posting::default::DefaultPostings;
use indexa::index::posting::IndexPosting;
use indexa::index::preset::CompressedIndex;
use indexa::index::storage::default::DefaultStorage;
use indexa::index::storage::IndexStorage;
use indexa::index::{DICT_INDEX, POSTINGS_INDEX, STORAGE_INDEX};

#[test]
fn an_index_survives_being_taken_apart() {
    let mut index: CompressedIndex<String, String> = CompressedIndex::create();
    let mut editor = index.editor().with_sorted_postings();
    for (i, doc) in ["b a", "c a", "a"].iter().enumerate() {
        let terms = doc.split(' ').map(|t| t.to_string()).collect();
        editor
            .insert_in_postings(NewItem::new(terms, doc.to_string()), &[(i % 2) as u16])
            .unwrap();
    }
    editor.commit().unwrap();
    editor.finish().unwrap();

    let (dict, storage, postings) = index.into_parts();
    let terms = dict.into_terms();
    let payloads = storage.into_records();
    let records = postings.into_records();
    assert_eq!(terms, vec![b"b".to_vec(), b"a".to_vec(), b"c".to_vec()]);
    assert_eq!(payloads, vec![b"b a".to_vec(), b"c a".to_vec(), b"a".to_vec()]);
    assert_eq!(
        records,
        vec![vec![vec![0], vec![0, 2]], vec![vec![], vec![1], vec![1]]]
    );

    let index: CompressedIndex<String, String> = CompressedIndex::load(
        DefaultDict::from_terms(terms).unwrap(),
        DefaultStorage::from_records(payloads),
        CompressedPostings::from_records(records).unwrap(),
    );
    assert_eq!(index.dict().term_id(&"a".to_string()), Some(1));
    assert_eq!(index.storage().get_item(1), Ok("c a".to_string()));
    assert_eq!(index.postings().posting_retriever(0, 1).unwrap().collect(), vec![0, 2]);
    assert_eq!(index.postings().posting_retriever(1, 2).unwrap().collect(), vec![1]);
}

#[test]
fn a_dictionary_refuses_a_term_twice() {
    let forms = vec![b"a".to_vec(), b"b".to_vec(), b"a".to_vec()];
    assert!(matches!(
        DefaultDict::<String>::from_terms(forms.clone()),
        Err(Error::DuplicateEntry)
    ));
    let ngrams = NGramDict::<1>::from_terms(forms).unwrap();
    assert_eq!(ngrams.len(), 3);
    let dict = DefaultDict::<String>::from_terms(vec![b"x".to_vec(), vec![0xFF]]).unwrap();
    assert_eq!(dict.term(0), Ok("x".to_string()));
    assert_eq!(dict.term(1), Err(Error::Codec));
    assert_eq!(dict.term(2), Err(Error::OutOfBounds));
}

#[test]
fn a_storage_finds_out_a_bad_record_when_it_reads_it() {
    let storage = DefaultStorage::<u64>::from_records(vec![vec![1, 0, 0, 0, 0, 0, 0, 0], vec![1, 2]]);
    assert_eq!(storage.len(), 2);
    assert_eq!(storage.get_item(0), Ok(1));
    assert_eq!(storage.get_item(1), Err(Error::Codec));
    assert_eq!(storage.get_item(2), Err(Error::OutOfBounds));
    assert!(storage.has_item(0));
    assert!(!storage.has_item(1));
}

#[test]
fn postings_refuse_bytes_that_are_no_record() {
    assert!(matches!(
        DefaultPostings::from_records(vec![vec![vec![0; 8], vec![0; 7]]]),
        Err(Error::Internal)
    ));
    assert!(DefaultPostings::from_records(vec![vec![vec![0; 16], vec![]], vec![]]).is_ok());
    // A varint that does not end, one with a zero byte too many, one too large.
    for bad in [vec![0x80], vec![0x80, 0x00], vec![0xFF, 0xFF, 0xFF, 0xFF, 0xFF, 0xFF, 0xFF, 0xFF, 0xFF, 0x02]] {
        assert!(!check_record(&bad, true));
        assert!(matches!(
            CompressedPostings::from_records(vec![vec![bad]]),
            Err(Error::Internal)
        ));
    }
    let postings = CompressedPostings::from_records(vec![vec![vec![0xAC, 0x02, 0x00, 0x7F]]]).unwrap();
    assert_eq!(postings.posting_retriever(0, 0).unwrap().collect(), vec![300, 0, 127]);
}

#[test]
fn reading_one_id() {
    assert_eq!(read_id(&[0xAC, 0x02, 0x05], 0, true), Some((300, 2)));
    assert_eq!(read_id(&[0xAC, 0x02, 0x05], 2, true), Some((5, 3)));
    assert_eq!(read_id(&[0xAC, 0x02, 0x05], 3, true), None);
    assert_eq!(read_id(&[0xAC], 0, true), None);
    assert_eq!(
        read_id(&[0xFF, 0xFF, 0xFF, 0xFF, 0xFF, 0xFF, 0xFF, 0xFF, 0xFF, 0x01], 0, true),
        Some((u64::MAX, 10))
    );
    assert_eq!(read_id(&[0, 0, 0, 0, 0, 0, 1, 0, 9], 0, false), Some((256, 8)));
    assert_eq!(read_id(&[0, 0, 0, 0, 0, 0, 1, 0, 9], 1, false), Some((65536 + 9, 9)));
    assert_eq!(read_id(&[0, 0, 0, 0, 0, 0, 1, 0, 9], 2, false), None);
    assert!(check_record(&[], false));
    assert!(check_record(&[1; 24], false));
    assert!(!check_record(&[1; 25], false));
}

#[test]
fn the_parts_have_their_places() {
    assert_eq!(DICT_INDEX, 0);
    assert_eq!(STORAGE_INDEX, 1);
    assert_eq!(POSTINGS_INDEX, 2);
}
