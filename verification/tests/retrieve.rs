use indexa::edit::NewItem;
use indexa::index::dict::IndexDictionary;
use indexa::index::posting::IndexPosting;
use indexa::index::preset::DefaultIndex;
use indexa::index::storage::IndexStorage;
use indexa::retrieve::builder::RetrieverBuilder;
use indexa::retrieve::options::RetrieveOptions;
use indexa::retrieve::retriever::all_terms::AllTermRetriever;
use indexa::retrieve::retriever::default::DefaultRetriever;
use indexa::retrieve::retriever::RetrieveAlgo;
use std::collections::HashMap;

fn index_test_data() -> (Vec<(Vec<String>, String)>, HashMap<String, Vec<String>>) {
    let text = r#"
        Jotoba is a multilingual Japanese dictionary built upon lots of free resources from the internet.
        It provides a lot of handy tools to lookup words, kanji, example sentences, Japanese names and much more.
        On this page we want to say thank you to all those creating such wonderful resources that make something like Jotoba even possible.
        If you're interested in the development of Jotoba itself, check out our Trello Board and see what we are currently working on and what features will come in future releases!
        Joto-kun was created by a good friend of ours who is truly a wizard when it comes down to design!
        Take a quick tour to get to know about the most relevant features of Jotoba!
        These shortcuts can be used anywhere when the input is not in focus.
        Use Kanji, Kana or Romaji to search for radicals.
        Pick a radical to start searching for kanji.
        "#;

    let sentences: Vec<_> = text
        .split(['.', '!'])
        .filter(|i| !i.is_empty())
        .map(|i| i.trim().to_string())
        .collect();

    let mut out = vec![];

    let mut real_index: HashMap<String, Vec<String>> = HashMap::new();

    for sentence in sentences {
        let terms: Vec<_> = sentence
            .split(['.', ' '])
            .map(|i| i.trim().replace([',', '.', '!'], "").to_lowercase())
            .filter(|i| !i.is_empty())
            .collect();

        for i in terms.iter() {
            real_index
                .entry(i.clone())
                .or_default()
                .push(sentence.clone());
        }

        out.push((terms, sentence));
    }

    (out, real_index)
}

fn make_index(data: &[(Vec<String>, String)], sorted: bool) -> DefaultIndex<String, String> {
    let mut simple_index: DefaultIndex<String, String> = DefaultIndex::create();

    let mut editor = simple_index.editor();

    if sorted {
        editor = editor.with_sorted_postings()
    }

    for (p, (terms, storage_item)) in data.iter().enumerate() {
        let post_id = p as u16 % 2;
        let insert_item = NewItem::new(terms.clone(), storage_item.clone());
        editor.insert_in_postings(insert_item, &[post_id]).unwrap();
    }

    editor.commit().unwrap();
    editor.finish().unwrap();

    simple_index
}

fn sorted_test_index() -> DefaultIndex<String, String> {
    make_index(&index_test_data().0, true)
}

fn dict_entries(index: &DefaultIndex<String, String>) -> Vec<(String, u32)> {
    let dict = index.dict();
    (0..dict.len() as u32)
        .map(|id| (dict.term(id).unwrap(), id))
        .collect()
}

#[test]
fn test_retrieve_single_term() {
    let index = sorted_test_index();
    let exp_index = index_test_data().1;

    for (term, term_id) in dict_entries(&index) {
        let mut retrieve_builder = RetrieverBuilder::new::<String, String>(&index);
        retrieve_builder.add_term_id(term_id as u64);
        retrieve_builder.in_all_postings();
        let retriever: DefaultRetriever<_> = retrieve_builder.retriever();

        let mut res: Vec<_> = retriever
            .collect()
            .into_iter()
            .map(|i| index.storage().get_item(i as usize).unwrap())
            .collect();
        res.sort_unstable();
        res.dedup();

        let mut exp = exp_index.get(&term).unwrap().clone();
        exp.sort_unstable();
        exp.dedup();
        assert_eq!(res, *exp);
    }
}

#[test]
fn test_retrieve_multi_term() {
    let index = sorted_test_index();
    let exp_index = index_test_data().1;

    let dic_len = index.dict().len();
    let entries = dict_entries(&index);

    for i in (1..(dic_len - 1)).step_by(13) {
        for chunk in entries.chunks(i) {
            let mut retrieve_builder = RetrieverBuilder::new::<String, String>(&index);
            for (_, term_id) in chunk.iter() {
                retrieve_builder.add_term_id(*term_id as u64);
            }
            retrieve_builder.in_all_postings();
            let retriever: DefaultRetriever<_> = retrieve_builder.retriever();

            let mut res: Vec<_> = retriever
                .collect()
                .into_iter()
                .map(|i| index.storage().get_item(i as usize).unwrap())
                .collect();
            res.sort_unstable();
            res.dedup();

            let mut exp = vec![];
            for (term, _) in chunk.iter() {
                let e = exp_index.get(term).unwrap();
                exp.extend_from_slice(e);
            }

            exp.sort_unstable();
            exp.dedup();
            assert_eq!(res, *exp);
        }
    }
}

#[test]
fn all_terms_match_the_sentences_that_hold_every_term() {
    let (data, exp_index) = index_test_data();
    let index = make_index(&data, true);
    let entries = dict_entries(&index);
    for pair in entries.windows(2).step_by(3) {
        let mut builder = RetrieverBuilder::new::<String, String>(&index);
        builder.add_term_id(pair[0].1 as u64);
        builder.add_term_id(pair[1].1 as u64);
        builder.in_all_postings();
        let retriever: AllTermRetriever<_> = builder.retriever();
        let found = retriever.collect();
        let mut sorted = found.clone();
        sorted.sort_unstable();
        assert_eq!(found, sorted);
        let mut res: Vec<_> = found
            .into_iter()
            .map(|i| index.storage().get_item(i as usize).unwrap())
            .collect();
        res.dedup();
        let first = exp_index.get(&pair[0].0).unwrap();
        let second = exp_index.get(&pair[1].0).unwrap();
        let mut exp: Vec<String> = data
            .iter()
            .map(|(_, sentence)| sentence.clone())
            .filter(|s| first.contains(s) && second.contains(s))
            .collect();
        exp.dedup();
        assert_eq!(res, exp);
    }
}

fn small_index() -> DefaultIndex<String, String> {
    let mut index: DefaultIndex<String, String> = DefaultIndex::create();
    let mut editor = index.editor().with_sorted_postings();
    let docs: [(&[&str], &str, &[u16]); 5] = [
        (&["a", "b"], "d0", &[0]),
        (&["b", "c"], "d1", &[1]),
        (&["a", "b", "c"], "d2", &[0, 1]),
        (&["c"], "d3", &[0]),
        (&["a", "a"], "d4", &[1]),
    ];
    for (terms, item, lists) in docs {
        let terms = terms.iter().map(|t| t.to_string()).collect();
        assert_eq!(
            editor.insert_in_postings(NewItem::new(terms, item.to_string()), lists),
            Ok(true)
        );
    }
    editor.commit().unwrap();
    editor.finish().unwrap();
    index
}

fn options(terms: &[u64], lists: &[u16], unique: bool) -> RetrieveOptions {
    RetrieveOptions {
        posting_lists: lists.to_vec(),
        term_ids: terms.to_vec(),
        unique,
        limit: 0,
    }
}

fn any(index: &DefaultIndex<String, String>, terms: &[u64], lists: &[u16], unique: bool) -> Vec<u64> {
    DefaultRetriever::new(index.postings(), options(terms, lists, unique)).collect()
}

fn all(index: &DefaultIndex<String, String>, terms: &[u64], lists: &[u16]) -> Vec<u64> {
    AllTermRetriever::new(index.postings(), options(terms, lists, false)).collect()
}

#[test]
fn default_retriever_goes_term_by_term_from_the_last() {
    let index = small_index();
    // a = 0, b = 1, c = 2; list 0: a -> [0, 2], b -> [0, 2], c -> [2, 3];
    // list 1: a -> [2, 4, 4], b -> [1, 2], c -> [1, 2].
    assert_eq!(any(&index, &[0], &[0], false), vec![0, 2]);
    assert_eq!(any(&index, &[0], &[1], false), vec![2, 4, 4]);
    assert_eq!(any(&index, &[0], &[0, 1], false), vec![0, 2, 2, 4, 4]);
    assert_eq!(any(&index, &[0], &[1, 0], false), vec![2, 4, 4, 0, 2]);
    assert_eq!(
        any(&index, &[0, 2], &[0, 1], false),
        vec![2, 3, 1, 2, 0, 2, 2, 4, 4]
    );
    assert_eq!(
        any(&index, &[0, 2], &[0, 1], true),
        vec![2, 3, 1, 0, 4]
    );
    assert_eq!(any(&index, &[], &[0, 1], false), Vec::<u64>::new());
    assert_eq!(any(&index, &[0, 1], &[], true), Vec::<u64>::new());
    assert_eq!(any(&index, &[7], &[0, 1, 9], false), Vec::<u64>::new());
    assert_eq!(any(&index, &[7, 1], &[9, 1], false), vec![1, 2]);
}

#[test]
fn unique_retrieval_gives_the_union_as_a_set() {
    let index = small_index();
    let with_repeats = any(&index, &[0, 1, 2], &[0, 1], false);
    let unique = any(&index, &[0, 1, 2], &[0, 1], true);
    let mut set = with_repeats.clone();
    set.sort_unstable();
    set.dedup();
    let mut sorted = unique.clone();
    sorted.sort_unstable();
    assert_eq!(sorted, set);
    assert_eq!(unique.len(), set.len());
    assert_eq!(set, vec![0, 1, 2, 3, 4]);
    assert!(with_repeats.len() > unique.len());
}

#[test]
fn all_term_retriever_intersects() {
    let index = small_index();
    assert_eq!(all(&index, &[0, 1], &[0]), vec![0, 2]);
    assert_eq!(all(&index, &[0, 1, 2], &[0]), vec![2]);
    assert_eq!(all(&index, &[1, 2], &[1]), vec![1, 2]);
    assert_eq!(all(&index, &[0, 2], &[0, 1]), vec![2, 2]);
    assert_eq!(all(&index, &[0], &[0, 1]), vec![0, 2, 2, 4, 4]);
    assert_eq!(all(&index, &[2, 0], &[1]), vec![2]);
    assert_eq!(all(&index, &[0, 7], &[0, 1]), Vec::<u64>::new());
    assert_eq!(all(&index, &[], &[0, 1]), Vec::<u64>::new());
    assert_eq!(all(&index, &[0, 1], &[]), Vec::<u64>::new());
}

#[test]
fn min_item_at_merges_the_lists_of_a_term() {
    let index = small_index();
    let options = RetrieveOptions {
        posting_lists: vec![0, 1],
        term_ids: vec![0, 2],
        unique: false,
        limit: 0,
    };
    let mut retriever = AllTermRetriever::new(index.postings(), options);
    assert_eq!(retriever.min_item_at(0), Some(0));
    assert_eq!(retriever.min_item_at(1), Some(1));
    assert_eq!(retriever.min_item_at(0), Some(2));
    assert_eq!(retriever.min_item_at(0), Some(2));
    assert_eq!(retriever.min_item_at(0), Some(4));
    assert_eq!(retriever.min_item_at(0), Some(4));
    assert_eq!(retriever.min_item_at(0), None);
    assert_eq!(retriever.min_item_at(2), None);
    assert_eq!(retriever.min_item_at(1), Some(2));
}

#[test]
fn builder_collects_terms_and_lists() {
    let index = small_index();
    let mut builder = RetrieverBuilder::new::<String, String>(&index);
    assert_eq!(builder.options.posting_lists, vec![0]);
    assert_eq!(builder.add_term(&"c".to_string()), Some(()));
    assert_eq!(builder.add_term(&"missing".to_string()), None);
    assert_eq!(
        builder.add_terms(&["a".to_string(), "nope".to_string(), "b".to_string()]),
        Some(())
    );
    assert_eq!(builder.options.term_ids, vec![2, 0, 1]);
    builder.in_all_postings();
    assert_eq!(builder.options.posting_lists, vec![0, 1]);
    let builder = builder.unique().in_posting_lists(&[1]).with_term_ids(&[1, 2]);
    assert!(builder.options.unique);
    let found: DefaultRetriever<_> = builder.retriever();
    assert_eq!(found.collect(), vec![1, 2]);
    assert_eq!(index.postings().len(), 2);
}

#[test]
fn default_options() {
    let options = RetrieveOptions::default();
    assert_eq!(options.posting_lists, vec![0]);
    assert!(options.term_ids.is_empty());
    assert!(!options.unique);
    assert_eq!(options.limit, 0);
    let copy = options.clone();
    assert_eq!(copy.posting_lists, vec![0]);
}
