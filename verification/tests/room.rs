use indexa::edit::NewItem;
use indexa::error::{room_made, Error};
use indexa::index::dict::default::DefaultDict;
use indexa::index::dict::ngram::ngram::Ngram;
use indexa::index::dict::ngram::NGramDict;
use indexa::index::dict::simple::table::SortedTable;
use indexa::index::dict::simple::SimpleDict;
use indexa::index::dict::sorted::SortedDict;
use indexa::index::dict::table::TermTable;
use indexa::index::dict::{EditableIndexDictionary, IndexDictionary, IndexDictionaryEditor};
use indexa::index::posting::compressed::CompressedPostings;
use indexa::index::posting::default::DefaultPostings;
use indexa::index::posting::IndexPosting;
use indexa::index::preset::DefaultIndex;
use indexa::index::storage::default::DefaultStorage;
use indexa::index::storage::passthrough::PassThroughStorage;
use indexa::index::storage::{EditableIndexStorage, IndexStorage, IndexStorageEditor};

#[test]
fn room_that_was_had_is_success() {
    let mut some: Vec<u64> = Vec::new();
    assert_eq!(room_made(some.try_reserve(4)), Ok(()));
    assert_eq!(room_made(some.try_reserve(0)), Ok(()));
    assert_eq!(room_made(some.try_reserve(usize::MAX)), Err(Error::OutOfBounds));
}

#[test]
fn tables_say_when_no_room_can_be_had() {
    let mut table = TermTable::new();
    assert_eq!(table.push(b"a".to_vec()), Some(0));
    assert_eq!(table.reserve(16), Ok(()));
    assert_eq!(table.reserve(usize::MAX), Err(Error::OutOfBounds));
    assert_eq!(table.len(), 1);
    assert_eq!(table.find(b"a"), Some(0));

    let mut sorted = SortedTable::new();
    assert_eq!(sorted.insert_new_item(b"a".to_vec()), Some(0));
    assert_eq!(sorted.reserve(16), Ok(()));
    assert_eq!(sorted.reserve(usize::MAX), Err(Error::OutOfBounds));
    assert_eq!(sorted.len(), 1);
    assert_eq!(sorted.find(b"a"), Some(0));
}

#[test]
fn announcing_terms_changes_no_dictionary() {
    let mut dict: DefaultDict<String> = DefaultDict::new();
    let editor = dict.editor();
    assert_eq!(editor.insert_or_get_single(&"a".to_string()), Ok(0));
    assert_eq!(editor.announce_new_terms(8, 4), Ok(()));
    assert_eq!(editor.announce_new_terms(usize::MAX, 4), Err(Error::OutOfBounds));
    assert_eq!(dict.len(), 1);
    assert_eq!(dict.term_id(&"a".to_string()), Some(0));

    let mut ngrams: NGramDict<2> = NGramDict::new();
    let ab = Ngram::<2>::try_from("ab").unwrap();
    let editor = ngrams.editor();
    assert_eq!(editor.insert_or_get_single(&ab), Ok(0));
    assert_eq!(editor.announce_new_terms(8, 2), Ok(()));
    assert_eq!(editor.announce_new_terms(usize::MAX, 2), Err(Error::OutOfBounds));
    assert_eq!(ngrams.len(), 1);
    assert_eq!(ngrams.term_id(&ab), Some(0));

    let mut simple: SimpleDict<String> = SimpleDict::new();
    let editor = simple.dict_editor();
    assert_eq!(editor.insert_or_get_single(&"a".to_string()), Ok(0));
    assert_eq!(editor.announce_new_terms(8, 4), Ok(()));
    assert_eq!(editor.announce_new_terms(usize::MAX, 4), Err(Error::OutOfBounds));
    assert_eq!(simple.len(), 1);
    assert_eq!(simple.term_id(&"a".to_string()), Some(0));
}

#[test]
fn a_run_of_terms_waits_for_room() {
    let mut dict: DefaultDict<String> = DefaultDict::new();
    let none: Vec<String> = vec![];
    assert_eq!(dict.editor().insert_or_get(&none), Ok(vec![]));
    assert_eq!(
        dict.editor().insert_or_get(&["a".to_string(), "b".to_string()]),
        Ok(vec![0, 1])
    );
}

#[test]
fn the_editor_passes_the_announcement_on() {
    let mut index: DefaultIndex<String, String> = DefaultIndex::create();
    let mut editor = index.editor();
    editor
        .insert(NewItem::new(vec!["a".to_string()], "d0".to_string()))
        .unwrap();
    assert_eq!(editor.announce_dict_term_count(4, 8), Ok(()));
    assert_eq!(
        editor.announce_dict_term_count(usize::MAX, 8),
        Err(Error::OutOfBounds)
    );
    editor.reserve(4, 4);
    editor.reserve(usize::MAX, usize::MAX);
    assert_eq!(editor.pending_count(), 1);
    editor.commit().unwrap();
    editor.finish().unwrap();
    assert_eq!(index.dict().term_id(&"a".to_string()), Some(0));
    assert_eq!(index.storage().get_item(0), Ok("d0".to_string()));
}

#[test]
fn a_capacity_gives_the_same_empty_part() {
    assert_eq!(DefaultDict::<String>::with_capacity(1000).len(), 0);
    assert_eq!(NGramDict::<3>::with_capacity(1000).len(), 0);
    assert_eq!(SimpleDict::<String>::with_capacity(1000).len(), 0);
    assert_eq!(SortedDict::<String>::with_capacity(1000).len(), 0);
    assert_eq!(DefaultStorage::<String>::with_capacity(1000).len(), 0);
    assert_eq!(DefaultPostings::with_capacity(1000).len(), 0);
    assert_eq!(CompressedPostings::with_capacity(1000).len(), 0);
    assert_eq!(DefaultDict::<String>::with_capacity(0).term_id(&"a".to_string()), None);
    let mut pass = PassThroughStorage::<u64>::with_capacity(1000);
    assert_eq!(pass.len(), 0);
    assert_eq!(pass.get_item(5), Ok(5));
    assert!(pass.editor().insert_items(&[9]).is_ok());
    assert_eq!(PassThroughStorage::<u64>::new().get_item(7), Ok(7));
}
