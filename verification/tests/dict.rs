use indexa::index::dict::default::DefaultDict;
use indexa::index::dict::ngram::ngram::Ngram;
use indexa::index::dict::ngram::NGramDict;
use indexa::index::dict::simple::item::DictItem;
use indexa::index::dict::simple::table::{compare_bytes, Order, SortedTable};
use indexa::index::dict::simple::SimpleDict;
use indexa::index::dict::sorted::SortedDict;
use indexa::index::dict::{EditableIndexDictionary, IndexDictionary, IndexDictionaryEditor};
use std::collections::HashSet;
use std::time::Instant;

#[test]
fn simple_dict() {
    let mut dict: DefaultDict<String> = DefaultDict::with_capacity(10);

    let editor = dict.editor();

    let terms: Vec<_> = (0..10_000).map(|i| format!("{i}")).collect();
    let start = Instant::now();
    let ids = editor.insert_or_get(&terms).unwrap();
    println!("inserted {} terms in {:?}", terms.len(), start.elapsed());

    for (term, id) in terms.iter().zip(ids.iter()) {
        assert_eq!(dict.term_id(term), Some(*id));
    }
}

#[test]
fn mod_simple_dict() {
    let mut dict: SimpleDict<String> = SimpleDict::new();

    let editor = dict.dict_editor();
    let ids = editor
        .insert_or_get(&["".to_string(), "".to_string(), "".to_string()])
        .unwrap();
    assert_eq!(ids, vec![0, 0, 0]);

    let terms: Vec<_> = (0..100_000).map(|i| format!("{i}")).collect();
    editor.insert_or_get(&terms).unwrap();

    let ids = editor
        .insert_or_get(&[
            "music".to_string(),
            "footprint".to_string(),
            "weird".to_string(),
        ])
        .unwrap();
    assert!(ids.iter().all(|i| *i > 0));
    assert_eq!(ids.iter().copied().collect::<HashSet<_>>().len(), ids.len());

    assert_eq!(dict.term_id(&"music".to_string()), Some(ids[0]));
    assert_eq!(dict.term_id(&"footprint".to_string()), Some(ids[1]));
    assert_eq!(dict.term_id(&"weird".to_string()), Some(ids[2]));
    assert_eq!(dict.term_id(&"not existing".to_string()), None);
}

#[test]
fn ids_are_dense_and_stable() {
    let mut dict: DefaultDict<String> = DefaultDict::new();
    assert!(dict.is_empty());
    let editor = dict.editor();
    assert_eq!(editor.insert_or_get_single(&"a".to_string()), Ok(0));
    assert_eq!(editor.insert_or_get_single(&"b".to_string()), Ok(1));
    assert_eq!(editor.insert_or_get_single(&"c".to_string()), Ok(2));
    assert_eq!(dict.len(), 3);
    for (i, t) in ["a", "b", "c"].iter().enumerate() {
        let id = dict.term_id(&t.to_string()).unwrap();
        assert_eq!(id as usize, i);
        assert!((id as usize) < dict.len());
        assert_eq!(dict.term(id).unwrap(), t.to_string());
    }
    let editor = dict.editor();
    assert_eq!(editor.insert_or_get_single(&"d".to_string()), Ok(3));
    assert_eq!(dict.term_id(&"a".to_string()), Some(0));
    assert_eq!(dict.term_id(&"b".to_string()), Some(1));
    assert_eq!(dict.term_id(&"c".to_string()), Some(2));
    assert!(dict.has_term(&"d".to_string()));
    assert!(!dict.has_term(&"e".to_string()));
    assert_eq!(dict.term_id(&"e".to_string()), None);
    assert!(dict.term(4).is_err());
}

#[test]
fn insert_twice_grows_once() {
    let mut dict: DefaultDict<String> = DefaultDict::new();
    let term = "jotoba".to_string();
    let first = dict.editor().insert_or_get_single(&term).unwrap();
    assert_eq!(dict.len(), 1);
    let second = dict.editor().insert_or_get_single(&term).unwrap();
    assert_eq!(dict.len(), 1);
    assert_eq!(first, second);
    assert_eq!(first, 0);
}

#[test]
fn same_hash_bucket_terms_stay_apart() {
    let mut dict: DefaultDict<u64> = DefaultDict::new();
    let editor = dict.editor();
    for i in 0..5000u64 {
        assert_eq!(editor.insert_or_get_single(&i), Ok(i as u32));
    }
    for i in 0..5000u64 {
        assert_eq!(dict.term_id(&i), Some(i as u32));
    }
    assert_eq!(dict.term_id(&5000), None);
}

#[test]
fn ngram_dict_appends_without_lookup() {
    let mut dict: NGramDict<3> = NGramDict::new();
    let abc = Ngram::<3>::try_from("abc").unwrap();
    let abd = Ngram::<3>::try_from("abd").unwrap();
    let editor = dict.editor();
    assert_eq!(editor.insert_or_get_single(&abc), Ok(0));
    assert_eq!(editor.insert_or_get_single(&abd), Ok(1));
    assert_eq!(editor.insert_or_get_single(&abc), Ok(2));
    assert_eq!(dict.len(), 3);
    assert_eq!(dict.term_id(&abc), Some(0));
    assert_eq!(dict.term_id(&abd), Some(1));
    assert_eq!(dict.term(2).unwrap(), abc);
    assert_eq!(dict.term_id(&Ngram::<3>::try_from("xyz").unwrap()), None);
}

#[test]
fn ngram_dict_many_terms() {
    let mut ngram_dict: NGramDict<3> = NGramDict::with_capacity(8);
    let mut default_dict: DefaultDict<String> = DefaultDict::with_capacity(8);
    for i in 0..1000 {
        let term = format!("{i:0>3}");
        ngram_dict
            .editor()
            .insert_or_get_single(&Ngram::try_from(&term).unwrap())
            .unwrap();
        default_dict.editor().insert_or_get_single(&term).unwrap();
    }
    assert_eq!(ngram_dict.len(), 1000);
    assert_eq!(default_dict.len(), 1000);
    for i in 0..1000u32 {
        let term = format!("{i:0>3}");
        assert_eq!(ngram_dict.term_id(&Ngram::try_from(&term).unwrap()), Some(i));
        assert_eq!(default_dict.term_id(&term), Some(i));
    }
}

#[test]
fn dict_item_keeps_what_it_was_given() {
    let item = DictItem::new("term".to_string(), 7);
    assert_eq!(item.item(), "term");
    assert_eq!(item.id(), 7);
    assert_eq!(item.into_inner(), "term".to_string());
}

#[test]
fn ranking_terms_changes_no_id() {
    let mut dict: DefaultDict<String> = DefaultDict::new();
    let editor = dict.editor();
    let terms: Vec<String> = ["delta", "alpha", "charlie", "bravo"]
        .iter()
        .map(|t| t.to_string())
        .collect();
    assert_eq!(editor.insert_or_get(&terms), Ok(vec![0, 1, 2, 3]));
    assert_eq!(editor.optimize(|a, b| a.cmp(b)), Ok(()));
    editor.optimize_with_termfreqs(|term| term.len());
    assert_eq!(editor.announce_new_terms(100, 8), Ok(()));
    assert_eq!(editor.len(), 4);
    for (id, term) in terms.iter().enumerate() {
        assert_eq!(dict.term_id(term), Some(id as u32));
    }
}

#[test]
fn sorted_dict_gives_ids_in_order_of_insertion() {
    let mut dict: SortedDict<String> = SortedDict::with_capacity(4);
    assert!(dict.is_empty());
    let words = ["pear", "apple", "fig", "apple", "zebra", "", "fig", "pea"];
    let expected = [0u32, 1, 2, 1, 3, 4, 2, 5];
    for (word, id) in words.iter().zip(expected.iter()) {
        assert_eq!(
            dict.dict_editor().insert_or_get_single(&word.to_string()),
            Ok(*id)
        );
    }
    assert_eq!(dict.len(), 6);
    for (word, id) in words.iter().zip(expected.iter()) {
        assert_eq!(dict.term_id(&word.to_string()), Some(*id));
    }
    assert_eq!(dict.term_id(&"pe".to_string()), None);
    assert_eq!(dict.term_id(&"pears".to_string()), None);
    assert!(dict.has_term(&"".to_string()));
}

#[test]
fn binary_search_finds_the_place() {
    let mut table = SortedTable::new();
    for (i, key) in ["m", "c", "x", "ca"].iter().enumerate() {
        assert_eq!(table.insert_new_item(key.as_bytes().to_vec()), Some(i as u32));
    }
    assert_eq!(table.insert_new_item(b"c".to_vec()), Some(1));
    assert_eq!(table.len(), 4);
    // In the order of the bytes: c, ca, m, x.
    assert_eq!(table.binary_search(b"c"), Ok(0));
    assert_eq!(table.binary_search(b"ca"), Ok(1));
    assert_eq!(table.binary_search(b"m"), Ok(2));
    assert_eq!(table.binary_search(b"x"), Ok(3));
    assert_eq!(table.binary_search(b"a"), Err(0));
    assert_eq!(table.binary_search(b"cb"), Err(2));
    assert_eq!(table.binary_search(b"n"), Err(3));
    assert_eq!(table.binary_search(b"y"), Err(4));
    assert_eq!(table.find(b"ca"), Some(3));
    assert_eq!(table.find(b"cab"), None);
}

#[test]
fn byte_strings_in_order() {
    assert!(matches!(compare_bytes(b"", b""), Order::Equal));
    assert!(matches!(compare_bytes(b"", b"a"), Order::Less));
    assert!(matches!(compare_bytes(b"a", b""), Order::Greater));
    assert!(matches!(compare_bytes(b"ab", b"abc"), Order::Less));
    assert!(matches!(compare_bytes(b"abd", b"abc"), Order::Greater));
    assert!(matches!(compare_bytes(b"abc", b"abc"), Order::Equal));
    assert!(matches!(compare_bytes(&[0xFF], &[0x00, 0x01]), Order::Greater));
}
