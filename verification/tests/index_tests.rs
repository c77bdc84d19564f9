use kvs::index::{Index, Locator};

fn loc(generation: u64, start: u64, end: u64) -> Locator {
    Locator { generation, start, end }
}

#[test]
fn lookup_after_insert() {
    let mut index = Index::new();
    index.insert(b"a".to_vec(), loc(1, 0, 10));
    index.insert(b"b".to_vec(), loc(1, 10, 25));
    assert_eq!(index.lookup(&b"a".to_vec()), Some(loc(1, 0, 10)));
    assert_eq!(index.lookup(&b"b".to_vec()), Some(loc(1, 10, 25)));
    assert_eq!(index.lookup(&b"c".to_vec()), None);
    assert_eq!(index.len(), 2);
}

#[test]
fn insert_replaces_earlier_binding() {
    let mut index = Index::new();
    index.insert(b"a".to_vec(), loc(1, 0, 10));
    index.insert(b"a".to_vec(), loc(2, 5, 30));
    assert_eq!(index.lookup(&b"a".to_vec()), Some(loc(2, 5, 30)));
    assert_eq!(index.len(), 1);
}

#[test]
fn remove_reports_presence() {
    let mut index = Index::new();
    index.insert(b"a".to_vec(), loc(1, 0, 10));
    assert!(index.remove(&b"a".to_vec()));
    assert_eq!(index.lookup(&b"a".to_vec()), None);
    assert!(!index.remove(&b"a".to_vec()));
}
