use kava::storage::{InMemoryStorage, Storage};

#[test]
fn test_in_memory_storage_put_and_read() {
    let mut storage = InMemoryStorage::new();
    storage
        .put("key1".to_string(), "value1".to_string())
        .unwrap();
    let value = storage.read(&"key1".to_string()).unwrap();
    assert_eq!(value, "value1");
}

#[test]
fn test_in_memory_storage_read_key_by_range() {
    let mut storage = InMemoryStorage::new();
    storage
        .put("key1".to_string(), "value1".to_string())
        .unwrap();
    storage
        .put("key2".to_string(), "value2".to_string())
        .unwrap();
    storage
        .put("key3".to_string(), "value3".to_string())
        .unwrap();

    let result = storage
        .read_key_by_range(&"key1".to_string(), &"key2".to_string())
        .unwrap();

    let expected = vec![
        ("key1".to_string(), "value1".to_string()),
        ("key2".to_string(), "value2".to_string()),
    ];

    result.iter().for_each(|(k, v)| {
        assert_eq!(expected.contains(&(k.clone(), v.clone())), true);
    });
}

#[test]
fn test_in_memory_storage_batch_put() {
    let mut storage = InMemoryStorage::new();
    let entries = vec![
        ("key1".to_string(), "value1".to_string()),
        ("key2".to_string(), "value2".to_string()),
    ];
    storage.batch_put(entries).unwrap();

    let value1 = storage.read(&"key1".to_string()).unwrap();
    let value2 = storage.read(&"key2".to_string()).unwrap();
    assert_eq!(value1, "value1");
    assert_eq!(value2, "value2");
}

#[test]
fn test_in_memory_storage_delete() {
    let mut storage = InMemoryStorage::new();
    storage
        .put("key1".to_string(), "value1".to_string())
        .unwrap();
    storage.delete(&"key1".to_string()).unwrap();
    let result = storage.read(&"key1".to_string());
    assert!(result.is_err());
}

use kava::storage::StorageBuilder;

fn s(text: &str) -> String {
    text.to_string()
}

fn sorted(mut pairs: Vec<(String, String)>) -> Vec<(String, String)> {
    pairs.sort();
    pairs
}

#[test]
fn storage_put_overwrites() {
    let mut storage = InMemoryStorage::new();
    assert_eq!(storage.put(s("k"), s("1")), Ok(()));
    assert_eq!(storage.put(s("k"), s("2")), Ok(()));
    assert_eq!(storage.read(&s("k")), Ok(s("2")));
    assert_eq!(sorted(storage.read_key_by_range(&s(""), &s("zzz")).unwrap()), vec![(s("k"), s("2"))]);
}

#[test]
fn storage_read_of_absent_key_fails() {
    let storage = InMemoryStorage::new();
    assert_eq!(storage.read(&s("missing")), Err(s("Key not found")));
}

#[test]
fn storage_delete_of_absent_key_fails() {
    let mut storage = InMemoryStorage::new();
    storage.put(s("a"), s("1")).unwrap();
    assert_eq!(storage.delete(&s("missing")), Err(s("Key not found")));
    assert_eq!(storage.read(&s("a")), Ok(s("1")));
}

#[test]
fn storage_delete_leaves_the_other_keys() {
    let mut storage = InMemoryStorage::new();
    for (k, v) in [("a", "1"), ("b", "2"), ("c", "3"), ("d", "4")] {
        storage.put(s(k), s(v)).unwrap();
    }
    assert_eq!(storage.delete(&s("a")), Ok(()));
    assert_eq!(storage.read(&s("a")), Err(s("Key not found")));
    assert_eq!(storage.read(&s("b")), Ok(s("2")));
    assert_eq!(storage.read(&s("c")), Ok(s("3")));
    assert_eq!(storage.read(&s("d")), Ok(s("4")));
    assert_eq!(storage.delete(&s("d")), Ok(()));
    assert_eq!(storage.delete(&s("d")), Err(s("Key not found")));
    assert_eq!(storage.delete(&s("c")), Ok(()));
    assert_eq!(
        sorted(storage.read_key_by_range(&s("a"), &s("z")).unwrap()),
        vec![(s("b"), s("2"))]
    );
    storage.put(s("a"), s("again")).unwrap();
    assert_eq!(storage.read(&s("a")), Ok(s("again")));
    assert_eq!(storage.delete(&s("b")), Ok(()));
    assert_eq!(storage.delete(&s("a")), Ok(()));
    assert_eq!(storage.read_key_by_range(&s(""), &s("z")).unwrap(), vec![]);
}

#[test]
fn storage_range_is_inclusive_on_both_ends() {
    let mut storage = InMemoryStorage::new();
    for (k, v) in [("a", "1"), ("b", "2"), ("c", "3"), ("ab", "4"), ("B", "5")] {
        storage.put(s(k), s(v)).unwrap();
    }
    assert_eq!(
        sorted(storage.read_key_by_range(&s("a"), &s("b")).unwrap()),
        vec![(s("a"), s("1")), (s("ab"), s("4")), (s("b"), s("2"))]
    );
    assert_eq!(
        sorted(storage.read_key_by_range(&s("b"), &s("b")).unwrap()),
        vec![(s("b"), s("2"))]
    );
    assert_eq!(storage.read_key_by_range(&s("c"), &s("a")).unwrap(), vec![]);
    assert_eq!(storage.read_key_by_range(&s("d"), &s("z")).unwrap(), vec![]);
    assert_eq!(storage.read_key_by_range(&s(""), &s("~")).unwrap().len(), 5);
}

#[test]
fn storage_batch_put_applies_in_order() {
    let mut storage = InMemoryStorage::new();
    storage.put(s("a"), s("old")).unwrap();
    let entries = vec![(s("a"), s("1")), (s("b"), s("2")), (s("a"), s("3"))];
    assert_eq!(storage.batch_put(entries), Ok(()));
    assert_eq!(storage.read(&s("a")), Ok(s("3")));
    assert_eq!(storage.read(&s("b")), Ok(s("2")));
    assert_eq!(storage.batch_put(vec![]), Ok(()));
    assert_eq!(storage.read_key_by_range(&s(""), &s("z")).unwrap().len(), 2);
}

#[test]
fn storage_put_twice_is_put_once() {
    let mut once = InMemoryStorage::new();
    let mut twice = InMemoryStorage::new();
    assert_eq!(once.put(s("k"), s("v")), Ok(()));
    assert_eq!(twice.put(s("k"), s("v")), Ok(()));
    assert_eq!(twice.put(s("k"), s("v")), Ok(()));
    assert_eq!(
        once.read_key_by_range(&s(""), &s("z")).unwrap(),
        twice.read_key_by_range(&s(""), &s("z")).unwrap()
    );
}

#[test]
fn storage_builder_selects_memory_for_any_tag() {
    assert!(StorageBuilder::knows("memory"));
    assert!(!StorageBuilder::knows("disk"));
    assert!(!StorageBuilder::knows(""));
    assert!(!StorageBuilder::knows("Memory"));
    for tag in ["memory", "disk", ""] {
        let mut engine = StorageBuilder::builder(tag).build();
        assert_eq!(engine.read(&s("k")), Err(s("Key not found")));
        assert_eq!(engine.put(s("k"), s("v")), Ok(()));
        assert_eq!(engine.read(&s("k")), Ok(s("v")));
    }
}

#[test]
fn storage_holds_many_keys() {
    let mut storage = InMemoryStorage::new();
    for i in 0..2000 {
        storage.put(format!("key{:04}", i), format!("{}", i)).unwrap();
    }
    for i in (0..2000).step_by(2) {
        assert_eq!(storage.delete(&format!("key{:04}", i)), Ok(()));
    }
    for i in 0..2000 {
        let found = storage.read(&format!("key{:04}", i));
        if i % 2 == 0 {
            assert_eq!(found, Err(s("Key not found")));
        } else {
            assert_eq!(found, Ok(format!("{}", i)));
        }
    }
    let range = storage.read_key_by_range(&s("key0100"), &s("key0199")).unwrap();
    assert_eq!(range.len(), 50);
}
