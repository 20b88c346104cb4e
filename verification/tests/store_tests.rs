use kaleidohash::store::Database;

#[test]
fn insert_then_get_returns_hash() {
    let mut db = Database::new();
    db.insert("alice".to_string(), vec![1, 2, 3]);
    db.insert("bob".to_string(), vec![4, 5, 6]);
    assert_eq!(db.get(&"alice".to_string()), vec![1, 2, 3]);
    assert_eq!(db.get(&"bob".to_string()), vec![4, 5, 6]);
}

#[test]
fn later_insert_overrides_earlier() {
    let mut db = Database::new();
    db.insert("alice".to_string(), vec![1]);
    db.insert("alice".to_string(), vec![2]);
    assert_eq!(db.get(&"alice".to_string()), vec![2]);
}

#[test]
fn entries_are_enumerable_in_order() {
    let mut db = Database::new();
    db.insert("a".to_string(), vec![9]);
    db.insert("b".to_string(), vec![8]);
    assert_eq!(db.len(), 2);
    let (n0, p0) = db.entry_at(0);
    let (n1, p1) = db.entry_at(1);
    assert_eq!((n0.as_str(), p0), ("a", vec![9]));
    assert_eq!((n1.as_str(), p1), ("b", vec![8]));
}
