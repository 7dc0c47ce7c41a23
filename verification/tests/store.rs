use rates_cache::calendar::CivilDate;
use rates_cache::db::done_from;
use rates_cache::db::pointer_from;
use rates_cache::db::snapshot_from;
use rates_cache::db::snapshots_from;
use rates_cache::db::storage_failure;
use rates_cache::db::store_from;
use rates_cache::db::target_from;
use rates_cache::db::Db;
use rates_cache::errors::Error;
use rates_cache::key::date_as_key;
use rates_cache::snapshot::Currency;
use rates_cache::snapshot::Snapshot;
use rates_cache::sync::pointer_key;
use tempfile::tempdir;
use tempfile::TempDir;

fn open_new() -> (TempDir, Db) {
    let dir = tempdir().unwrap();
    let db = Db::open(dir.path().join("db").to_str().unwrap()).unwrap();
    (dir, db)
}

fn day(value: &str) -> Snapshot {
    Snapshot::new(value.to_string(), Vec::new())
}

fn rates(value: &str, usd: f64) -> Snapshot {
    Snapshot::new(value.to_string(), vec![Currency::new("USD".to_string(), usd.to_bits())])
}

fn date(year: i32, month: u32, day: u32) -> CivilDate {
    CivilDate::new(year, month, day).unwrap()
}

#[test]
fn test_put_get() {
    let (_dir, mut db) = open_new();
    let date = day("1999-01-04");
    let key = date_as_key(&date.value).unwrap();
    db.put(&key, &date).unwrap();
    db.flush().unwrap();
    let date2 = db.get(&key).unwrap().unwrap();
    assert_eq!(date, date2);
}

#[test]
fn test_get_current_rates() {
    let (_dir, mut db) = open_new();
    let date = day("1999-01-04");
    let key = date_as_key(&date.value).unwrap();
    db.set_pointer(key.clone()).unwrap();
    db.put(&key, &date).unwrap();
    db.flush().unwrap();
    let current = db.get_current_rates().unwrap();
    assert_eq!(date, current);
}

#[test]
fn test_get_day_rates() {
    let (_dir, mut db) = open_new();
    let date = day("1999-01-04");
    let key = date_as_key(&date.value).unwrap();
    db.put(&key, &date).unwrap();
    db.flush().unwrap();
    let current = db.get_day_rates("1999-01-04").unwrap().unwrap();
    assert_eq!(date, current);
}

#[test]
fn test_get_range_rates() {
    let (_dir, mut db) = open_new();

    let date = day("1999-01-04");
    let key = date_as_key(&date.value).unwrap();
    db.put(&key, &date).unwrap();

    let date2 = day("2003-01-04");
    let key2 = date_as_key(&date2.value).unwrap();
    db.put(&key2, &date2).unwrap();

    let date3 = day("2012-01-04");
    let key3 = date_as_key(&date3.value).unwrap();
    db.put(&key3, &date3).unwrap();
    db.flush().unwrap();

    let begining = CivilDate::parse("1999-01-04").unwrap();
    let end = CivilDate::parse("2012-01-04").unwrap();
    let dates = db.get_range_rates(begining, end).unwrap();
    assert_eq!(dates.len(), 3);
}

#[test]
fn range_gives_the_days_in_ascending_order() {
    let (_dir, mut db) = open_new();
    for value in ["2012-01-04", "1999-01-04", "2003-01-04"] {
        db.put(&date_as_key(value).unwrap(), &day(value)).unwrap();
    }
    let found = db.get_range_rates(date(1999, 1, 4), date(2012, 1, 4)).unwrap();
    assert_eq!(found, vec![day("1999-01-04"), day("2003-01-04"), day("2012-01-04")]);
}

#[test]
fn range_includes_both_bounds_and_nothing_outside() {
    let (_dir, mut db) = open_new();
    for value in ["1999-01-04", "1999-01-05", "1999-01-06", "1999-01-07"] {
        db.put(&date_as_key(value).unwrap(), &day(value)).unwrap();
    }
    let found = db.get_range_rates(date(1999, 1, 5), date(1999, 1, 6)).unwrap();
    assert_eq!(found, vec![day("1999-01-05"), day("1999-01-06")]);
    let found = db.get_range_rates(date(1999, 1, 5), date(1999, 1, 5)).unwrap();
    assert_eq!(found, vec![day("1999-01-05")]);
    let found = db.get_range_rates(date(2000, 1, 1), date(2001, 1, 1)).unwrap();
    assert_eq!(found, Vec::<Snapshot>::new());
    let found = db.get_range_rates(date(1999, 1, 6), date(1999, 1, 5)).unwrap();
    assert_eq!(found, Vec::<Snapshot>::new());
}

#[test]
fn range_fails_on_a_value_that_is_no_record() {
    let (_dir, mut db) = open_new();
    let key = date_as_key("1999-01-04").unwrap();
    db.put(&key, &day("1999-01-04")).unwrap();
    db.set_pointer(key).unwrap();
    // keys of days before 1970 begin with 255 and sort after the tag
    assert!(matches!(
        db.get_range_rates(date(1999, 1, 4), date(1969, 12, 31)),
        Err(Error::DatabaseError(_))
    ));
    assert_eq!(
        db.get_range_rates(date(1999, 1, 4), date(2000, 1, 1)).unwrap(),
        vec![day("1999-01-04")]
    );
}

#[test]
fn get_of_a_missing_key_is_none() {
    let (_dir, db) = open_new();
    assert_eq!(db.get(&date_as_key("1999-01-04").unwrap()).unwrap(), None);
    assert_eq!(db.get_day_rates("1999-01-04").unwrap(), None);
}

#[test]
fn get_day_of_an_unreadable_date_is_a_parse_error() {
    let (_dir, db) = open_new();
    match db.get_day_rates("yesterday") {
        Err(Error::DateParseError(text)) => assert_eq!(text, "yesterday"),
        other => panic!("expected a parse error, got {:?}", other),
    }
}

#[test]
fn put_overwrites() {
    let (_dir, mut db) = open_new();
    let key = date_as_key("1999-01-04").unwrap();
    db.put(&key, &rates("1999-01-04", 1.1)).unwrap();
    db.put(&key, &rates("1999-01-04", 1.2)).unwrap();
    assert_eq!(db.get(&key).unwrap(), Some(rates("1999-01-04", 1.2)));
}

#[test]
fn put_leaves_other_keys() {
    let (_dir, mut db) = open_new();
    let first = date_as_key("1999-01-04").unwrap();
    let second = date_as_key("1999-01-05").unwrap();
    db.put(&first, &rates("1999-01-04", 1.1)).unwrap();
    db.put(&second, &rates("1999-01-05", 1.2)).unwrap();
    assert_eq!(db.get(&first).unwrap(), Some(rates("1999-01-04", 1.1)));
    assert_eq!(db.get(&second).unwrap(), Some(rates("1999-01-05", 1.2)));
}

#[test]
fn a_store_is_found_again_where_it_was_left() {
    let dir = tempdir().unwrap();
    let path = dir.path().join("db");
    let key = date_as_key("1999-01-04").unwrap();
    {
        let mut db = Db::open(path.to_str().unwrap()).unwrap();
        db.put(&key, &rates("1999-01-04", 1.1)).unwrap();
        db.set_pointer(key.clone()).unwrap();
        db.flush().unwrap();
    }
    let db = Db::init(path.to_str().unwrap(), None).unwrap();
    assert_eq!(db.get_current_rates().unwrap(), rates("1999-01-04", 1.1));
}

#[test]
fn current_of_a_store_without_pointer_is_not_found() {
    let (_dir, db) = open_new();
    match db.get_current_rates() {
        Err(Error::DateNotFound(what)) => assert_eq!(what, "current"),
        other => panic!("expected not found, got {:?}", other),
    }
}

#[test]
fn current_of_a_store_with_a_dangling_pointer_is_a_database_error() {
    let (_dir, mut db) = open_new();
    db.set_pointer(date_as_key("1999-01-04").unwrap()).unwrap();
    assert!(matches!(db.get_current_rates(), Err(Error::DatabaseError(_))));
    assert!(matches!(db.newest_day(), Err(Error::DatabaseError(_))));
}

#[test]
fn a_value_that_is_no_record_is_a_database_error() {
    let (_dir, mut db) = open_new();
    // the pointer holds a key, which is no record
    db.set_pointer(date_as_key("1999-01-04").unwrap()).unwrap();
    assert!(matches!(db.get(&pointer_key()), Err(Error::DatabaseError(_))));
}

#[test]
fn newest_day_of_a_store_without_pointer_is_a_database_error() {
    let (_dir, db) = open_new();
    assert!(matches!(db.newest_day(), Err(Error::DatabaseError(_))));
}

#[test]
fn newest_day_is_the_day_at_the_pointer() {
    let (_dir, mut db) = open_new();
    let key = date_as_key("1999-01-04").unwrap();
    db.put(&key, &day("1999-01-04")).unwrap();
    db.put(&date_as_key("2003-01-04").unwrap(), &day("2003-01-04")).unwrap();
    db.set_pointer(key).unwrap();
    assert_eq!(db.newest_day().unwrap(), date(1999, 1, 4));
}

#[test]
fn newest_day_of_a_snapshot_without_a_day_is_a_database_error() {
    let (_dir, mut db) = open_new();
    let key = date_as_key("1999-01-04").unwrap();
    db.put(&key, &day("some day")).unwrap();
    db.set_pointer(key).unwrap();
    assert!(matches!(db.newest_day(), Err(Error::DatabaseError(_))));
}

#[test]
fn the_pointer_tag_is_the_word_current() {
    assert_eq!(pointer_key(), b"current".to_vec());
}

#[test]
fn what_was_found_becomes_a_snapshot() {
    assert_eq!(snapshot_from(None).unwrap(), None);
    let record = rates("1999-01-04", 1.1).encode();
    assert_eq!(snapshot_from(Some(record)).unwrap(), Some(rates("1999-01-04", 1.1)));
    assert!(matches!(snapshot_from(Some(vec![1, 2, 3])), Err(Error::DatabaseError(_))));
}

#[test]
fn what_the_pointer_held_becomes_a_key() {
    assert_eq!(pointer_from(Some(vec![1, 2, 3])).unwrap(), vec![1, 2, 3]);
    match pointer_from(None) {
        Err(Error::DateNotFound(what)) => assert_eq!(what, "current"),
        other => panic!("expected not found, got {:?}", other),
    }
}

#[test]
fn what_the_target_held_becomes_a_snapshot() {
    let record = rates("1999-01-04", 1.1).encode();
    assert_eq!(target_from(Some(record)).unwrap(), rates("1999-01-04", 1.1));
    assert!(matches!(target_from(None), Err(Error::DatabaseError(_))));
    assert!(matches!(target_from(Some(vec![1, 2, 3])), Err(Error::DatabaseError(_))));
}

#[test]
fn what_a_walk_found_becomes_snapshots() {
    let found = vec![
        (vec![1], rates("1999-01-04", 1.1).encode()),
        (vec![2], rates("1999-01-05", 1.2).encode()),
    ];
    assert_eq!(
        snapshots_from(&found).unwrap(),
        vec![rates("1999-01-04", 1.1), rates("1999-01-05", 1.2)]
    );
    let broken = vec![(vec![1], rates("1999-01-04", 1.1).encode()), (vec![2], vec![0, 1])];
    assert!(matches!(snapshots_from(&broken), Err(Error::DatabaseError(_))));
    assert_eq!(snapshots_from(&Vec::new()).unwrap(), Vec::<Snapshot>::new());
}

#[test]
fn a_failure_of_the_store_keeps_its_text() {
    match storage_failure("disk full".to_string()) {
        Error::DatabaseError(text) => assert_eq!(text, "disk full"),
        other => panic!("expected a database error, got {:?}", other),
    }
}

#[test]
fn open_fails_where_a_file_is_in_the_way() {
    let dir = tempdir().unwrap();
    let store = dir.path().join("store");
    {
        let made = Db::open(store.to_str().unwrap());
        assert!(made.is_ok());
    }
    // a store keeps a plain file named `db`: no store can be below it
    let below = store.join("db").join("below");
    assert!(matches!(Db::open(below.to_str().unwrap()), Err(Error::DatabaseError(_))));
}

#[test]
fn the_cache_is_over_the_tree_that_was_opened() {
    let dir = tempdir().unwrap();
    let tree = (*sled::open(dir.path().join("db")).unwrap()).clone();
    let key = date_as_key("1999-01-04").unwrap();
    tree.insert(key.clone(), rates("1999-01-04", 1.1).encode()).unwrap();
    let mut db = store_from(Ok(tree.clone())).unwrap();
    assert_eq!(db.get(&key).unwrap(), Some(rates("1999-01-04", 1.1)));
    let other = date_as_key("1999-01-05").unwrap();
    db.put(&other, &rates("1999-01-05", 1.2)).unwrap();
    assert_eq!(tree.get(&other).unwrap().unwrap().to_vec(), rates("1999-01-05", 1.2).encode());
}

#[test]
fn a_store_that_did_not_open_is_a_database_error_with_its_text() {
    match store_from(Err("no such place".to_string())) {
        Err(Error::DatabaseError(text)) => assert_eq!(text, "no such place"),
        Err(other) => panic!("expected a database error, got {:?}", other),
        Ok(_) => panic!("expected a database error"),
    }
}

#[test]
fn what_came_of_a_call_without_result() {
    assert!(done_from(Ok(())).is_ok());
    match done_from(Err("disk full".to_string())) {
        Err(Error::DatabaseError(text)) => assert_eq!(text, "disk full"),
        other => panic!("expected a database error, got {:?}", other),
    }
}

#[test]
fn flush_leaves_what_the_store_holds() {
    let (_dir, mut db) = open_new();
    let key = date_as_key("1999-01-04").unwrap();
    db.put(&key, &rates("1999-01-04", 1.1)).unwrap();
    db.flush().unwrap();
    assert_eq!(db.get(&key).unwrap(), Some(rates("1999-01-04", 1.1)));
    db.flush().unwrap();
    assert_eq!(db.get(&key).unwrap(), Some(rates("1999-01-04", 1.1)));
}
