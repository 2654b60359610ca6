use indexa::error::Error;
use indexa::index::storage::default::DefaultStorage;
use indexa::index::storage::passthrough::PassThroughStorage;
use indexa::index::storage::{
    EditableIndexStorage, IndexStorage, IndexStorageEditor, StorageInsertionResult,
};

#[test]
fn test_all() {
    let mut storage = DefaultStorage::<usize>::with_capacity(0);

    let editor = storage.editor();
    editor
        .insert_items(&(0..1000usize).collect::<Vec<_>>())
        .unwrap();

    for i in 0..1000 {
        assert_eq!(storage.get_item(i).ok(), Some(i));
    }

    assert_eq!(storage.get_item(1000).ok(), None);
}

#[test]
fn default_storage_gives_consecutive_ids() {
    let mut storage = DefaultStorage::<String>::new();
    assert!(storage.is_empty());
    let first = storage
        .editor()
        .insert_items(&["a".to_string(), "b".to_string()])
        .unwrap();
    assert!(matches!(first, StorageInsertionResult::First(0)));
    assert_eq!(first.get(0), Some(0));
    assert_eq!(first.get(1), Some(1));
    let second = storage.editor().insert_items(&["c".to_string()]).unwrap();
    assert!(matches!(second, StorageInsertionResult::First(2)));
    assert_eq!(storage.len(), 3);
    assert_eq!(storage.get_item(0), Ok("a".to_string()));
    assert_eq!(storage.get_item(1), Ok("b".to_string()));
    assert_eq!(storage.get_item(2), Ok("c".to_string()));
    assert_eq!(storage.get_item(3), Err(Error::OutOfBounds));
    assert!(storage.has_item(2));
    assert!(!storage.has_item(3));
}

#[test]
fn empty_insertion_is_refused() {
    let mut storage = DefaultStorage::<String>::new();
    let none: Vec<String> = vec![];
    assert!(matches!(
        storage.editor().insert_items(&none),
        Err(Error::UnsupportedOperation)
    ));
    assert_eq!(storage.len(), 0);

    let mut pass = PassThroughStorage::<u64>::new();
    assert!(matches!(
        pass.editor().insert_items(&[]),
        Err(Error::UnsupportedOperation)
    ));
}

#[test]
fn passthrough_hands_ids_back() {
    let mut storage = PassThroughStorage::<u64>::with_capacity(3);
    let result = storage.editor().insert_items(&[42, 7, 42]).unwrap();
    match &result {
        StorageInsertionResult::Ids(ids) => assert_eq!(ids, &vec![42, 7, 42]),
        StorageInsertionResult::First(_) => panic!("ids expected"),
    }
    assert_eq!(result.get(1), Some(7));
    assert_eq!(result.get(3), None);
    assert_eq!(storage.len(), 0);
    assert!(storage.is_empty());
    assert_eq!(storage.get_item(123456), Ok(123456));
    assert!(storage.has_item(99));
}

#[test]
fn first_result_stops_at_the_last_id() {
    let result = StorageInsertionResult::First(u64::MAX - 1);
    assert_eq!(result.get(0), Some(u64::MAX - 1));
    assert_eq!(result.get(1), Some(u64::MAX));
    assert_eq!(result.get(2), None);
}
