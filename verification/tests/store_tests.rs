use cakedb::{CakeDb, ComplexRecord, MultimapTableHandle, TableHandle, TestStruct};

fn test_table() -> TableHandle<u32, TestStruct> {
    TableHandle::new("test_table")
}

fn complex_table() -> TableHandle<u32, ComplexRecord> {
    TableHandle::new("complex_table")
}

fn multi_table() -> MultimapTableHandle<String, ComplexRecord> {
    MultimapTableHandle::new("complex_multimap")
}

#[test]
fn insert_and_get() {
    let mut db = CakeDb::new_temp().unwrap();
    let table = test_table();
    db.insert(&table, &1, TestStruct::new(10, "ten")).unwrap();
    let value = db.get(&table, &1).unwrap().unwrap();
    assert_eq!(value.a, 10);
    assert_eq!(value.b, "ten");
}

#[test]
fn batch_insert_and_filter() {
    let mut db = CakeDb::new_temp().unwrap();
    let table = test_table();
    let data = vec![
        (1, TestStruct::new(1, "one")),
        (2, TestStruct::new(2, "two")),
        (3, TestStruct::new(3, "three")),
    ];
    db.batch_insert(&table, &data).unwrap();
    let result = db.filter(&table, |_k: u32, v: TestStruct| v.a % 2 == 1).unwrap();
    assert_eq!(result.len(), 2);
}

#[test]
fn savepoint_and_restore() {
    let mut db = CakeDb::new_temp().unwrap();
    let table = test_table();
    let key = db.savepoint().unwrap();
    db.insert(&table, &1, TestStruct::new(4, "four")).unwrap();
    assert!(db.get(&table, &1).unwrap().is_some());
    db.load_savepoint(key).unwrap();
    assert!(db.get(&table, &1).unwrap().is_none());
}

#[test]
fn try_add_contains_update_remove() {
    let mut db = CakeDb::new_temp().unwrap();
    let table = complex_table();
    let rec = ComplexRecord::new(1, "alpha", &["x", "y"]);
    assert!(db.try_add(&table, &1, rec.clone()).unwrap());
    assert!(!db.try_add(&table, &1, rec.clone()).unwrap());
    assert!(db.contains_key(&table, &1).unwrap());
    assert!(!db.contains_key(&table, &2).unwrap());
    let old = db
        .update(&table, &1, |mut v: ComplexRecord| {
            v.name = "beta".into();
            v
        })
        .unwrap();
    assert_eq!(old.name, "alpha");
    assert_eq!(db.get(&table, &1).unwrap().unwrap().name, "beta");
    assert!(db.update(&table, &99, |v: ComplexRecord| v).is_err());
    assert!(db.remove(&table, &1).unwrap().is_some());
    assert!(db.remove(&table, &1).unwrap().is_none());
}

#[test]
fn query_helpers() {
    let mut db = CakeDb::new_temp().unwrap();
    let table = complex_table();
    let records = vec![
        (1, ComplexRecord::new(1, "one", &["red", "blue"])),
        (2, ComplexRecord::new(2, "two", &["green"])),
        (3, ComplexRecord::new(3, "three", &["red"])),
        (4, ComplexRecord::new(4, "four", &["blue", "yellow"])),
    ];
    db.batch_insert(&table, &records).unwrap();

    let red = |_k: u32, v: ComplexRecord| v.tags.contains(&"red".to_string());
    assert_eq!(db.find(&table, red).unwrap().unwrap().0, 1);
    assert_eq!(db.rfind(&table, red).unwrap().unwrap().0, 3);
    assert_eq!(db.find_nth(1, &table, red).unwrap().unwrap().0, 3);
    assert!(db.find_nth(5, &table, red).unwrap().is_none());
    let blue = |_k: u32, v: ComplexRecord| v.tags.contains(&"blue".to_string());
    assert_eq!(db.count_matches(&table, blue).unwrap(), 2);
    let single = db.filter_keys(&table, |_k: u32, v: ComplexRecord| v.tags.len() == 1).unwrap();
    assert_eq!(single, vec![2, 3]);
    let all = db.table(&table).unwrap();
    assert_eq!(all.len(), 4);
    assert_eq!(db.first(&table).unwrap().unwrap().0, 1);
    assert_eq!(db.last(&table).unwrap().unwrap().0, 4);
    assert_eq!(db.first_key(&table).unwrap(), Some(1));
    assert_eq!(db.last_key(&table).unwrap(), Some(4));
    let range = db.range(&table, &2, &4).unwrap();
    let range_keys: Vec<u32> = range.iter().map(|p| p.0).collect();
    assert_eq!(range_keys, vec![2, 3]);
}

#[test]
fn batch_update_clear_delete() {
    let mut db = CakeDb::new_temp().unwrap();
    let table = complex_table();
    let records = vec![
        (1, ComplexRecord::new(1, "one", &[])),
        (2, ComplexRecord::new(2, "two", &[])),
    ];
    db.batch_insert(&table, &records).unwrap();
    let keys = vec![1u32, 2u32];
    db.batch_update(&table, &keys, |_k: u32, mut v: ComplexRecord| {
        v.tags.push("batch".into());
        v
    })
    .unwrap();
    assert_eq!(db.get(&table, &1).unwrap().unwrap().tags, vec!["batch"]);
    db.clear_table(&table).unwrap();
    assert!(db.table(&table).unwrap().is_empty());
    assert!(db.delete_table(&table).unwrap());
    assert!(!db.delete_table(&table).unwrap());
}

#[test]
fn multimap_operations() {
    let mut db = CakeDb::new_temp().unwrap();
    let table = multi_table();
    let r1 = ComplexRecord::new(1, "one", &["a"]);
    let r2 = ComplexRecord::new(2, "two", &["b"]);
    let r3 = ComplexRecord::new(3, "three", &["c"]);
    assert!(!db.multimap_insert(&table, &"k1".to_string(), r1.clone()).unwrap());
    assert!(db.multimap_insert(&table, &"k1".to_string(), r1.clone()).unwrap());
    assert!(db
        .multimap_insert_values(&table, &"k1".to_string(), vec![r2.clone(), r3.clone()])
        .unwrap());
    let got = db.multimap_get(&table, &"k1".to_string()).unwrap();
    assert_eq!(got, vec![r1.clone(), r2.clone(), r3.clone()]);
    let batch = vec![
        ("k2".to_string(), vec![r1.clone()]),
        ("k3".to_string(), vec![r2.clone(), r3.clone()]),
    ];
    db.multimap_batch_insert(&table, &batch).unwrap();
    let whole = db.multimap_table(&table).unwrap();
    assert_eq!(whole.len(), 3);
    assert!(db.multimap_assign(&table, &"k1".to_string(), vec![r1.clone()]).unwrap());
    assert_eq!(db.multimap_get(&table, &"k1".to_string()).unwrap().len(), 1);
    assert!(db.multimap_remove(&table, &"k1".to_string(), r1.clone()).unwrap());
    assert!(!db.multimap_remove(&table, &"k1".to_string(), r1.clone()).unwrap());
    let removed = db.multimap_remove_all(&table, &"k3".to_string()).unwrap();
    assert_eq!(removed, vec![r2.clone(), r3.clone()]);
    db.clear_multimap_table(&table).unwrap();
    assert!(db.multimap_table(&table).unwrap().is_empty());
    assert!(db.delete_multimap_table(&table).unwrap());
    assert!(!db.delete_multimap_table(&table).unwrap());
}

#[test]
fn savepoint_clear_and_compact() {
    let mut db = CakeDb::new_temp().unwrap();
    assert!(db.tempfile_path().is_some());
    db.compact().unwrap();
    let _ = db.savepoint().unwrap();
    let _ = db.savepoint().unwrap();
    assert_eq!(db.savepoints().len(), 2);
    db.clear_savepoints();
    assert!(db.savepoints().is_empty());
}
