use indexa::edit::NewItem;
use indexa::error::Error;
use indexa::index::dict::ngram::ngram::Ngram;
use indexa::index::dict::IndexDictionary;
use indexa::index::posting::codec::encode_record;
use indexa::index::posting::IndexPosting;
use indexa::index::preset::{
    CompressedIndex, CompressedIntIndex, CompressedIntNgramIndex, CompressedNgramIndex,
    DefaultIndex, DefaultNgramIndex,
};
use indexa::index::storage::IndexStorage;
use indexa::index::traits::editable_index::EditableInvertedIndex;
use indexa::index::traits::index::{InvertedIndex, InvertedIndexDict};
use indexa::retrieve::builder::RetrieverBuilder;
use indexa::retrieve::retriever::all_terms::AllTermRetriever;
use indexa::retrieve::retriever::default::DefaultRetriever;
use indexa::retrieve::retriever::RetrieveAlgo;
use indexa::traits::deser::Deser;

fn words(text: &str) -> Vec<String> {
    text.split(' ').map(|w| w.to_string()).collect()
}

#[test]
fn single_list_single_term() {
    let mut index: DefaultIndex<String, String> = DefaultIndex::create();
    let mut editor = index.editor().with_sorted_postings();
    for (term, doc) in [("jotoba", "d0"), ("dictionary", "d1"), ("jotoba", "d2")] {
        let item = NewItem::new(vec![term.to_string()], doc.to_string());
        assert_eq!(editor.insert(item), Ok(true));
    }
    assert_eq!(editor.pending_count(), 3);
    assert!(editor.has_pending());
    editor.commit().unwrap();
    assert!(!editor.has_pending());
    editor.finish().unwrap();

    assert_eq!(index.dict().term_id(&"jotoba".to_string()), Some(0));
    assert_eq!(index.dict().term_id(&"dictionary".to_string()), Some(1));

    let builder = RetrieverBuilder::new::<String, String>(&index)
        .with_term_ids(&[0])
        .in_posting_lists(&[0]);
    let found: DefaultRetriever<_> = builder.retriever();
    assert_eq!(found.collect(), vec![0, 2]);

    let builder = RetrieverBuilder::new::<String, String>(&index)
        .with_term_ids(&[1])
        .in_posting_lists(&[0]);
    let found: DefaultRetriever<_> = builder.retriever();
    assert_eq!(found.collect(), vec![1]);

    assert_eq!(index.storage().get_item(0), Ok("d0".to_string()));
    assert_eq!(index.storage().get_item(2), Ok("d2".to_string()));
    assert_eq!(index.storage().get_item(3), Err(Error::OutOfBounds));
}

#[test]
fn multi_term_intersection() {
    let mut index: DefaultIndex<String, String> = DefaultIndex::create();
    let mut editor = index.editor().with_sorted_postings();
    editor
        .insert(NewItem::new(words("the quick brown fox"), "d0".to_string()))
        .unwrap();
    editor
        .insert(NewItem::new(words("quick brown dog"), "d1".to_string()))
        .unwrap();
    editor.commit().unwrap();
    editor.finish().unwrap();

    let id = |term: &str| index.dict().term_id(&term.to_string()).unwrap() as u64;
    assert_eq!(id("the"), 0);
    assert_eq!(id("quick"), 1);
    assert_eq!(id("brown"), 2);
    assert_eq!(id("fox"), 3);
    assert_eq!(id("dog"), 4);

    let builder = RetrieverBuilder::new::<String, String>(&index)
        .with_term_ids(&[id("quick"), id("brown")])
        .in_posting_lists(&[0]);
    let found: AllTermRetriever<_> = builder.retriever();
    assert_eq!(found.collect(), vec![0, 1]);

    let builder = RetrieverBuilder::new::<String, String>(&index)
        .with_term_ids(&[id("quick"), id("fox")])
        .in_posting_lists(&[0]);
    let found: AllTermRetriever<_> = builder.retriever();
    assert_eq!(found.collect(), vec![0]);
}

#[test]
fn two_posting_lists_partition() {
    let mut index: DefaultIndex<String, u64> = DefaultIndex::create();
    let mut editor = index.editor().with_sorted_postings();
    for doc in 0..10u64 {
        let item = NewItem::new(vec!["x".to_string()], doc);
        assert_eq!(editor.insert_in_postings(item, &[(doc % 2) as u16]), Ok(true));
    }
    editor.commit().unwrap();
    editor.finish().unwrap();
    let x = index.dict().term_id(&"x".to_string()).unwrap() as u64;

    let in_lists = |lists: &[u16]| -> Vec<u64> {
        let builder = RetrieverBuilder::new::<String, u64>(&index)
            .with_term_ids(&[x])
            .in_posting_lists(lists);
        let found: DefaultRetriever<_> = builder.retriever();
        found.collect()
    };
    assert_eq!(in_lists(&[0]), vec![0, 2, 4, 6, 8]);
    assert_eq!(in_lists(&[1]), vec![1, 3, 5, 7, 9]);
    let mut both = in_lists(&[0, 1]);
    assert_eq!(both, vec![0, 2, 4, 6, 8, 1, 3, 5, 7, 9]);
    both.sort_unstable();
    assert_eq!(both, (0..10).collect::<Vec<u64>>());
}

#[test]
fn unique_flag() {
    let mut index: DefaultIndex<String, String> = DefaultIndex::create();
    let mut editor = index.editor();
    editor
        .insert(NewItem::new(words("t1 t2"), "d0".to_string()))
        .unwrap();
    editor
        .insert(NewItem::new(words("t2"), "d1".to_string()))
        .unwrap();
    editor.commit().unwrap();
    editor.finish().unwrap();

    let builder = RetrieverBuilder::new::<String, String>(&index).with_term_ids(&[0, 1]);
    let found: DefaultRetriever<_> = builder.retriever();
    assert_eq!(found.collect(), vec![0, 1, 0]);

    let builder = RetrieverBuilder::new::<String, String>(&index)
        .with_term_ids(&[0, 1])
        .unique();
    let found: DefaultRetriever<_> = builder.retriever();
    assert_eq!(found.collect(), vec![0, 1]);
}

#[test]
fn ngram_roundtrip() {
    let ngram = Ngram::<3>::try_from("あb漢").unwrap();
    let bytes = ngram.serialize();
    let back = Ngram::<3>::deserialize(&bytes).unwrap();
    assert_eq!(back, ngram);
    assert_eq!(back.chars(), &['あ', 'b', '漢']);
    assert!(Ngram::<3>::try_from("あb").is_err());
}

#[test]
fn compressed_and_default_agree() {
    let corpus = [
        "the quick brown fox",
        "quick brown dog",
        "lazy dog jumps over the fox",
        "brown brown brown",
        "a fox is a fox",
    ];
    let mut plain: DefaultIndex<String, String> = DefaultIndex::create();
    let mut packed: CompressedIndex<String, String> = CompressedIndex::create();
    {
        let mut editor = plain.editor().with_sorted_postings();
        for (i, doc) in corpus.iter().enumerate() {
            let item = NewItem::new(words(doc), doc.to_string());
            editor.insert_in_postings(item, &[(i % 3) as u16]).unwrap();
        }
        editor.commit().unwrap();
        editor.finish().unwrap();
    }
    {
        let mut editor = packed.editor().with_sorted_postings();
        for (i, doc) in corpus.iter().enumerate() {
            let item = NewItem::new(words(doc), doc.to_string());
            editor.insert_in_postings(item, &[(i % 3) as u16]).unwrap();
        }
        editor.commit().unwrap();
        editor.finish().unwrap();
    }
    assert_eq!(plain.dict().len(), packed.dict().len());
    assert_eq!(plain.postings().len(), packed.postings().len());
    let terms = plain.dict().len() as u64;
    let mut plain_bytes = 0;
    let mut packed_bytes = 0;
    for list in 0..3usize {
        for term in 0..terms + 1 {
            let a = plain.postings().posting_retriever(list, term).map(|r| r.collect());
            let b = packed.postings().posting_retriever(list, term).map(|r| r.collect());
            assert_eq!(a, b);
            if let Some(ids) = a {
                plain_bytes += encode_record(&ids, false).len();
                packed_bytes += encode_record(&ids, true).len();
            }
        }
    }
    assert!(packed_bytes <= plain_bytes);
    assert!(packed_bytes > 0);
    for first in 0..terms {
        for second in 0..terms {
            let a = RetrieverBuilder::new::<String, String>(&plain)
                .with_term_ids(&[first, second])
                .in_posting_lists(&[0, 1, 2]);
            let b = RetrieverBuilder::new::<String, String>(&packed)
                .with_term_ids(&[first, second])
                .in_posting_lists(&[0, 1, 2]);
            let any_a: DefaultRetriever<_> = a.retriever();
            let any_b: DefaultRetriever<_> = b.retriever();
            assert_eq!(any_a.collect(), any_b.collect());
            let all_a: AllTermRetriever<_> = a.retriever();
            let all_b: AllTermRetriever<_> = b.retriever();
            assert_eq!(all_a.collect(), all_b.collect());
        }
    }
}

#[test]
fn empty_commit_changes_nothing() {
    let mut index: DefaultIndex<String, String> = DefaultIndex::create();
    let mut editor = index.editor();
    assert_eq!(editor.commit(), Ok(()));
    editor.insert(NewItem::new(words("a b"), "d0".to_string())).unwrap();
    editor.commit().unwrap();
    assert_eq!(editor.commit(), Ok(()));
    assert_eq!(editor.commit(), Ok(()));
    editor.finish().unwrap();
    assert_eq!(index.dict().len(), 2);
    assert_eq!(index.storage().len(), 1);
    assert_eq!(index.postings().len(), 1);
    assert_eq!(index.postings().posting_retriever(0, 0).unwrap().collect(), vec![0]);
    assert_eq!(index.postings().posting_retriever(0, 1).unwrap().collect(), vec![0]);
}

#[test]
fn nothing_is_staged_without_terms_or_lists() {
    let mut index: DefaultIndex<String, String> = DefaultIndex::create();
    let mut editor = index.editor();
    assert_eq!(editor.insert(NewItem::new(vec![], "d0".to_string())), Ok(false));
    assert_eq!(
        editor.insert_in_postings(NewItem::new(words("a"), "d0".to_string()), &[]),
        Ok(false)
    );
    assert_eq!(editor.pending_count(), 0);
    assert!(!editor.has_pending());
    editor.reserve(10, 10);
    editor.announce_dict_term_count(10, 4).unwrap();
    editor.commit().unwrap();
    editor.finish().unwrap();
    assert!(index.dict().is_empty());
    assert!(index.storage().is_empty());
    assert!(index.postings().is_empty());
}

#[test]
fn ids_stay_across_commits() {
    let mut index: CompressedIndex<String, String> = CompressedIndex::create();
    let mut editor = index.editor().with_sorted_postings();
    editor.insert(NewItem::new(words("b a"), "d0".to_string())).unwrap();
    editor.commit().unwrap();
    editor.insert(NewItem::new(words("c a b"), "d1".to_string())).unwrap();
    editor
        .insert_in_postings(NewItem::new(words("a"), "d2".to_string()), &[1, 1, 0])
        .unwrap();
    editor.commit().unwrap();
    editor.finish().unwrap();
    let id = |term: &str| index.dict().term_id(&term.to_string());
    assert_eq!(id("b"), Some(0));
    assert_eq!(id("a"), Some(1));
    assert_eq!(id("c"), Some(2));
    assert_eq!(index.dict().len(), 3);
    assert_eq!(index.storage().len(), 3);
    let read = |list: usize, term: u64| index.postings().posting_retriever(list, term).map(|r| r.collect());
    assert_eq!(read(0, 0), Some(vec![0, 1]));
    assert_eq!(read(0, 1), Some(vec![0, 1, 2]));
    assert_eq!(read(0, 2), Some(vec![1]));
    assert_eq!(read(1, 1), Some(vec![2]));
    assert_eq!(read(1, 0), Some(vec![]));
    assert_eq!(read(1, 2), None);
    // Every stored id names a payload.
    for list in 0..2 {
        for term in 0..3 {
            for id in read(list, term).unwrap_or_default() {
                assert!((id as usize) < index.storage().len());
            }
        }
    }
}

#[test]
fn finish_without_sort_keeps_the_order() {
    let mut index: DefaultIndex<String, u64> = DefaultIndex::create();
    let mut editor = index.editor();
    for doc in [5u64, 6, 7] {
        editor.insert(NewItem::new(words("x"), doc)).unwrap();
    }
    editor.commit().unwrap();
    editor.finish().unwrap();
    assert_eq!(index.postings().posting_retriever(0, 0).unwrap().collect(), vec![0, 1, 2]);
    assert_eq!(index.storage().get_item(1), Ok(6));
}

#[test]
fn passthrough_presets_file_payloads_under_themselves() {
    let mut index: CompressedIntIndex<String> = CompressedIntIndex::create();
    let mut editor = index.editor().with_sorted_postings();
    editor.insert(NewItem::new(words("a b"), 900)).unwrap();
    editor.insert(NewItem::new(words("a"), 7)).unwrap();
    editor.insert(NewItem::new(words("b"), 900)).unwrap();
    editor.commit().unwrap();
    editor.finish().unwrap();
    assert_eq!(index.postings().posting_retriever(0, 0).unwrap().collect(), vec![7, 900]);
    assert_eq!(index.postings().posting_retriever(0, 1).unwrap().collect(), vec![900, 900]);
    assert_eq!(index.storage().len(), 0);
    assert_eq!(index.storage().get_item(900), Ok(900));

    let mut ngrams: CompressedIntNgramIndex<2> = CompressedIntNgramIndex::create();
    let mut editor = ngrams.editor().with_sorted_postings();
    let gram = |text: &str| Ngram::<2>::try_from(text).unwrap();
    editor.insert(NewItem::new(vec![gram("ab"), gram("bc")], 11)).unwrap();
    editor.insert(NewItem::new(vec![gram("bc")], 3)).unwrap();
    editor.commit().unwrap();
    editor.finish().unwrap();
    assert_eq!(ngrams.dict().term_id(&gram("ab")), Some(0));
    assert_eq!(ngrams.dict().term_id(&gram("bc")), Some(1));
    assert_eq!(ngrams.postings().posting_retriever(0, 1).unwrap().collect(), vec![3, 11]);
}

#[test]
fn ngram_presets() {
    let gram = |text: &str| Ngram::<3>::try_from(text).unwrap();
    let mut plain: DefaultNgramIndex<String, 3> = DefaultNgramIndex::create();
    let mut editor = plain.editor().with_sorted_postings();
    editor
        .insert(NewItem::new(vec![gram("jot"), gram("oto"), gram("tob")], "jotoba".to_string()))
        .unwrap();
    editor
        .insert(NewItem::new(vec![gram("oto"), gram("tot")], "toto".to_string()))
        .unwrap();
    editor.commit().unwrap();
    editor.finish().unwrap();
    assert_eq!(plain.dict().term_id(&gram("oto")), Some(1));
    assert_eq!(plain.postings().posting_retriever(0, 1).unwrap().collect(), vec![0, 1]);
    assert_eq!(plain.storage().get_item(1), Ok("toto".to_string()));

    let mut packed: CompressedNgramIndex<String, 3> = CompressedNgramIndex::create();
    let mut editor = packed.editor();
    editor
        .insert(NewItem::new(vec![gram("abc")], "abc".to_string()))
        .unwrap();
    editor.commit().unwrap();
    // The editor remembers the ids it has seen: the term is not appended again.
    editor
        .insert(NewItem::new(vec![gram("abc")], "abc again".to_string()))
        .unwrap();
    editor.commit().unwrap();
    editor.finish().unwrap();
    assert_eq!(packed.dict().len(), 1);
    assert_eq!(packed.postings().posting_retriever(0, 0).unwrap().collect(), vec![0, 1]);
}

#[test]
fn parts_can_be_taken_and_put_back() {
    let mut index: DefaultIndex<String, String> = DefaultIndex::create();
    let mut editor = index.editor();
    editor.insert(NewItem::new(words("a"), "d0".to_string())).unwrap();
    editor.commit().unwrap();
    editor.finish().unwrap();
    let (dict, storage, postings) = index.into_parts();
    let mut index = DefaultIndex::load(dict, storage, postings);
    assert_eq!(index.get_dict().term_id(&"a".to_string()), Some(0));
    assert_eq!(index.get_storage().len(), 1);
    assert_eq!(index.get_postings().len(), 1);
    assert_eq!(index.get_dict_mut().len(), 1);
    assert_eq!(index.get_storage_mut().len(), 1);
    assert_eq!(index.get_postings_mut().len(), 1);
    assert_eq!(index.dict_mut().len(), 1);
    assert_eq!(index.storage_mut().len(), 1);
    assert_eq!(index.postings_mut().len(), 1);
}
