use cakedb::codec::compare_encoded;
use cakedb::error::DbError;
use cakedb::{CakeDb, ComplexRecord, DbValue, KeyBound, MultimapTableHandle, TableHandle, TestStruct};

fn test_table() -> TableHandle<u32, TestStruct> {
    TableHandle::new("test_table")
}

#[test]
fn codec_round_trips_on_concrete_values() {
    let n: u32 = 0xDEAD_BEEF;
    assert_eq!(u32::from_bytes(n.to_bytes().as_slice()).unwrap(), n);
    let w: u64 = 0x0123_4567_89AB_CDEF;
    assert_eq!(u64::from_bytes(w.to_bytes().as_slice()).unwrap(), w);
    let s: String = "héllo, wörld".to_string();
    assert_eq!(String::from_bytes(s.to_bytes().as_slice()).unwrap(), s);
    let t = TestStruct::new(7, "seven");
    assert!(TestStruct::from_bytes(t.to_bytes().as_slice()).unwrap() == t);
    let r = ComplexRecord::new(3, "three", &["x", "y", "z"]);
    assert!(ComplexRecord::from_bytes(r.to_bytes().as_slice()).unwrap() == r);
    let empty = TestStruct::new(0, "");
    assert!(TestStruct::from_bytes(empty.to_bytes().as_slice()).unwrap() == empty);
}

#[test]
fn codec_order_matches_decoded_order() {
    let a = 2u32.to_bytes();
    let b = 5u32.to_bytes();
    assert_eq!(compare_encoded::<u32>(a.as_slice(), b.as_slice()).unwrap(), -1);
    assert_eq!(compare_encoded::<u32>(b.as_slice(), a.as_slice()).unwrap(), 1);
    assert_eq!(compare_encoded::<u32>(a.as_slice(), a.as_slice()).unwrap(), 0);
    let x = "apple".to_string().to_bytes();
    let y = "banana".to_string().to_bytes();
    assert_eq!(compare_encoded::<String>(x.as_slice(), y.as_slice()).unwrap(), -1);
    assert_eq!(compare_encoded::<String>(y.as_slice(), x.as_slice()).unwrap(), 1);
}

#[test]
fn codec_rejects_malformed_bytes() {
    assert_eq!(TestStruct::from_bytes(&[1, 2, 3]), Err(DbError::CorruptData));
    assert_eq!(u32::from_bytes(&[1, 2, 3, 4, 5]), Err(DbError::CorruptData));
    assert_eq!(String::from_bytes(&[255; 12]), Err(DbError::CorruptData));
    assert_eq!(
        compare_encoded::<u32>(&[1], &[1, 2, 3, 4]),
        Err(DbError::CorruptData)
    );
}

#[test]
fn try_add_keeps_first_value() {
    let mut db = CakeDb::new_temp().unwrap();
    let table = test_table();
    let v = TestStruct::new(1, "first");
    let v2 = TestStruct::new(2, "second");
    assert!(db.try_add(&table, &5, v.clone()).unwrap());
    assert!(!db.try_add(&table, &5, v2).unwrap());
    assert!(db.get(&table, &5).unwrap().unwrap() == v);
}

#[test]
fn update_returns_old_and_stores_new() {
    let mut db = CakeDb::new_temp().unwrap();
    let table = test_table();
    db.insert(&table, &1, TestStruct::new(10, "ten")).unwrap();
    db.insert(&table, &2, TestStruct::new(20, "twenty")).unwrap();
    let old = db
        .update(&table, &1, |mut v: TestStruct| {
            v.b = "TEN".to_string();
            v
        })
        .unwrap();
    assert!(old == TestStruct::new(10, "ten"));
    assert!(db.get(&table, &1).unwrap().unwrap() == TestStruct::new(10, "TEN"));
    assert!(db.delete_table(&table).unwrap());
    assert!(!db.delete_table(&table).unwrap());
}

#[test]
fn multimap_assign_replaces_the_whole_set() {
    let mut db = CakeDb::new_temp().unwrap();
    let table: MultimapTableHandle<String, ComplexRecord> = MultimapTableHandle::new("assign_mm");
    let a = ComplexRecord::new(1, "a", &[]);
    let b = ComplexRecord::new(2, "b", &[]);
    let c = ComplexRecord::new(3, "c", &[]);
    let k = "k".to_string();
    db.multimap_insert(&table, &k, a.clone()).unwrap();
    db.multimap_insert(&table, &k, b.clone()).unwrap();
    assert!(db.multimap_assign(&table, &k, vec![c.clone()]).unwrap());
    assert_eq!(db.multimap_get(&table, &k).unwrap(), vec![c.clone()]);
    assert!(db.multimap_assign(&table, &k, vec![]).unwrap());
    assert!(db.multimap_get(&table, &k).unwrap().is_empty());
    assert!(!db.multimap_assign(&table, &k, vec![a.clone()]).unwrap());
}

#[test]
fn savepoint_invalidation_scenario() {
    let mut db = CakeDb::new_temp().unwrap();
    let table = test_table();
    let p1 = db.savepoint().unwrap();
    db.insert(&table, &1, TestStruct::new(1, "one")).unwrap();
    let p2 = db.savepoint().unwrap();
    assert!(p1 != p2);
    db.insert(&table, &2, TestStruct::new(2, "two")).unwrap();
    db.load_savepoint(p1).unwrap();
    assert_eq!(db.load_savepoint(p2), Err(DbError::NotFound));
    db.load_savepoint(p1).unwrap();
    assert!(db.get(&table, &1).unwrap().is_none());
    assert!(db.get(&table, &2).unwrap().is_none());
}

#[test]
fn savepoint_restores_exact_state() {
    let mut db = CakeDb::new_temp().unwrap();
    let table = test_table();
    db.insert(&table, &1, TestStruct::new(1, "one")).unwrap();
    let p = db.savepoint().unwrap();
    db.insert(&table, &1, TestStruct::new(9, "nine")).unwrap();
    db.insert(&table, &2, TestStruct::new(2, "two")).unwrap();
    db.remove(&table, &1).unwrap();
    db.load_savepoint(p).unwrap();
    let all = db.table(&table).unwrap();
    assert_eq!(all.len(), 1);
    assert_eq!(all[0].0, 1);
    assert!(all[0].1 == TestStruct::new(1, "one"));
}

#[test]
fn savepoint_ids_restart_only_after_clear() {
    let mut db = CakeDb::new_temp().unwrap();
    let p0 = db.savepoint().unwrap();
    let p1 = db.savepoint().unwrap();
    assert_eq!(p0, 0);
    assert_eq!(p1, 1);
    db.load_savepoint(p0).unwrap();
    let p2 = db.savepoint().unwrap();
    assert_eq!(p2, 1);
    assert_eq!(db.load_savepoint(42), Err(DbError::NotFound));
}

#[test]
fn update_missing_key_reports_not_found() {
    let mut db = CakeDb::new_temp().unwrap();
    let table = test_table();
    assert_eq!(
        db.update(&table, &7, |v: TestStruct| v),
        Err(DbError::NotFound)
    );
}

#[test]
fn multimap_read_of_missing_table_fails() {
    let db = CakeDb::new_temp().unwrap();
    let table: MultimapTableHandle<String, ComplexRecord> = MultimapTableHandle::new("absent_mm");
    assert_eq!(
        db.multimap_get(&table, &"k".to_string()),
        Err(DbError::TableAccessError)
    );
}

#[test]
fn empty_table_reads() {
    let mut db = CakeDb::new_temp().unwrap();
    let table = test_table();
    assert!(db.table(&table).unwrap().is_empty());
    assert!(db.first(&table).unwrap().is_none());
    assert!(db.last(&table).unwrap().is_none());
    assert!(db.first_key(&table).unwrap().is_none());
    assert!(db.range(&table, &0, &100).unwrap().is_empty());
    assert_eq!(db.count_matches(&table, |_k: u32, _v: TestStruct| true).unwrap(), 0);
}

#[test]
fn batch_insert_reports_prior_values() {
    let mut db = CakeDb::new_temp().unwrap();
    let table = test_table();
    db.insert(&table, &1, TestStruct::new(1, "one")).unwrap();
    let data = vec![
        (1, TestStruct::new(11, "eleven")),
        (2, TestStruct::new(2, "two")),
        (1, TestStruct::new(111, "last")),
    ];
    let priors = db.batch_insert(&table, &data).unwrap();
    assert_eq!(priors.len(), 1);
    assert_eq!(priors[0].0, 1);
    assert!(priors[0].1 == TestStruct::new(1, "one"));
    assert!(db.get(&table, &1).unwrap().unwrap() == TestStruct::new(111, "last"));
}

#[test]
fn stored_text_survives_the_store() {
    let mut db = CakeDb::new_temp().unwrap();
    let table = test_table();
    let v = TestStruct::new(1, "prüfung ✓");
    db.insert(&table, &1, v.clone()).unwrap();
    assert!(db.get(&table, &1).unwrap().unwrap() == v);
}

#[test]
fn batch_try_add_skips_present_and_duplicate_keys() {
    let mut db = CakeDb::new_temp().unwrap();
    let table = test_table();
    db.insert(&table, &1, TestStruct::new(1, "old")).unwrap();
    let data = vec![
        (1, TestStruct::new(11, "new-one")),
        (2, TestStruct::new(2, "two")),
        (2, TestStruct::new(22, "dup-two")),
    ];
    let skipped = db.batch_try_add(&table, &data).unwrap();
    assert_eq!(skipped, vec![1, 2]);
    assert!(db.get(&table, &1).unwrap().unwrap() == TestStruct::new(1, "old"));
    assert!(db.get(&table, &2).unwrap().unwrap() == TestStruct::new(2, "two"));
}

#[test]
fn batch_edit_variants_edit_and_report() {
    let mut db = CakeDb::new_temp().unwrap();
    let table = test_table();
    db.insert(&table, &1, TestStruct::new(1, "one")).unwrap();
    db.insert(&table, &2, TestStruct::new(2, "two")).unwrap();
    let keys = vec![1u32, 2u32, 3u32];
    let priors = db
        .batch_edit(&table, &keys, |_k: u32, mut v: TestStruct| {
            v.a += 100;
            v
        })
        .unwrap();
    assert_eq!(priors.len(), 2);
    assert!(priors[0].1 == TestStruct::new(1, "one"));
    assert!(priors[1].1 == TestStruct::new(2, "two"));
    assert_eq!(db.get(&table, &1).unwrap().unwrap().a, 101);
    db.batch_edit_fast(&table, &keys, |_k: u32, mut v: TestStruct| {
        v.a += 1;
        v
    })
    .unwrap();
    assert_eq!(db.get(&table, &2).unwrap().unwrap().a, 103);
    let changed = db
        .batch_edit_count(&table, &keys, |_k: u32, v: TestStruct| v)
        .unwrap();
    assert_eq!(changed, 0);
    let changed2 = db
        .batch_edit_count(&table, &vec![1u32], |_k: u32, mut v: TestStruct| {
            v.a = 0;
            v
        })
        .unwrap();
    assert_eq!(changed2, 1);
}

#[test]
fn record_keys_order_by_id_first() {
    let a = ComplexRecord::new(1, "zzz", &["z"]);
    let b = ComplexRecord::new(2, "aaa", &["a"]);
    let ab = compare_encoded::<ComplexRecord>(a.to_bytes().as_slice(), b.to_bytes().as_slice());
    assert_eq!(ab.unwrap(), -1);
    let aa = compare_encoded::<ComplexRecord>(a.to_bytes().as_slice(), a.to_bytes().as_slice());
    assert_eq!(aa.unwrap(), 0);
}

#[test]
fn platform_paths_are_answered() {
    let _ = cakedb::data_local_path();
}

#[test]
fn range_bounds_cover_every_end_shape() {
    let mut db = CakeDb::new_temp().unwrap();
    let table = test_table();
    for k in 1..=5u32 {
        db.insert(&table, &k, TestStruct::new(k, "v")).unwrap();
    }
    let keys = |r: Vec<(u32, TestStruct)>| r.iter().map(|p| p.0).collect::<Vec<u32>>();
    let inc_inc = db
        .range_bounds(&table, &KeyBound::Included(2), &KeyBound::Included(4))
        .unwrap();
    assert_eq!(keys(inc_inc), vec![2, 3, 4]);
    let exc_exc = db
        .range_bounds(&table, &KeyBound::Excluded(2), &KeyBound::Excluded(4))
        .unwrap();
    assert_eq!(keys(exc_exc), vec![3]);
    let open_to = db
        .range_bounds(&table, &KeyBound::Unbounded, &KeyBound::Excluded(3))
        .unwrap();
    assert_eq!(keys(open_to), vec![1, 2]);
    let from_open = db
        .range_bounds(&table, &KeyBound::Included(4), &KeyBound::Unbounded)
        .unwrap();
    assert_eq!(keys(from_open), vec![4, 5]);
    let all = db
        .range_bounds(&table, &KeyBound::Unbounded, &KeyBound::Unbounded)
        .unwrap();
    assert_eq!(keys(all), vec![1, 2, 3, 4, 5]);
    let half_open = db.range(&table, &2, &4).unwrap();
    assert_eq!(keys(half_open), vec![2, 3]);
}

#[test]
fn record_meta_keeps_last_index_of_repeated_tags() {
    let r = ComplexRecord::new(1, "r", &["a", "b", "a"]);
    assert_eq!(r.tags.len(), 3);
    assert_eq!(r.meta.len(), 2);
    let a = r.meta.iter().find(|p| p.key == "a").unwrap();
    assert_eq!(a.value, 2);
    let b = r.meta.iter().find(|p| p.key == "b").unwrap();
    assert_eq!(b.value, 1);
}

#[test]
fn multimap_table_groups_come_key_ascending() {
    let mut db = CakeDb::new_temp().unwrap();
    let table: MultimapTableHandle<String, ComplexRecord> = MultimapTableHandle::new("ordered_mm");
    let r1 = ComplexRecord::new(1, "one", &[]);
    let r2 = ComplexRecord::new(2, "two", &[]);
    db.multimap_insert(&table, &"zeta".to_string(), r1.clone()).unwrap();
    db.multimap_insert(&table, &"alpha".to_string(), r2.clone()).unwrap();
    db.multimap_insert(&table, &"alpha".to_string(), r1.clone()).unwrap();
    let groups = db.multimap_table(&table).unwrap();
    assert_eq!(groups.len(), 2);
    assert_eq!(groups[0].0, "alpha");
    assert_eq!(groups[0].1, vec![r1.clone(), r2.clone()]);
    assert_eq!(groups[1].0, "zeta");
    assert_eq!(groups[1].1, vec![r1.clone()]);
}
