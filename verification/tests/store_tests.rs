use kvs::KvsError;
use kvs::store::{FileOp, KvStore, Segment};

/// A directory image: one `(generation, contents)` entry per segment file,
/// kept exactly as an embedding would keep the real files.
struct FakeDir {
    files: Vec<(u64, Vec<u8>)>,
}

impl FakeDir {
    fn new() -> FakeDir {
        FakeDir { files: Vec::new() }
    }

    fn apply(&mut self, ops: Vec<FileOp>) {
        for op in ops {
            match op {
                FileOp::Append { generation, bytes } => {
                    let entry = self
                        .files
                        .iter_mut()
                        .find(|f| f.0 == generation)
                        .expect("append to a file that does not exist");
                    entry.1.extend_from_slice(&bytes);
                }
                FileOp::Create { generation, bytes } => {
                    assert!(
                        self.files.iter().all(|f| f.0 != generation),
                        "create of a file that already exists"
                    );
                    self.files.push((generation, bytes));
                }
                FileOp::Delete { generation } => {
                    let before = self.files.len();
                    self.files.retain(|f| f.0 != generation);
                    assert_eq!(before, self.files.len() + 1, "delete of a missing file");
                }
            }
        }
    }

    fn segments(&self) -> Vec<Segment> {
        let mut files = self.files.clone();
        files.sort_by_key(|f| f.0);
        files
            .into_iter()
            .map(|(generation, data)| Segment { generation, data })
            .collect()
    }
}

#[test]
fn set_then_get_round_trip() {
    let mut store = KvStore::open(Vec::new()).unwrap();
    store.set(b"a".to_vec(), b"1".to_vec()).unwrap();
    assert_eq!(store.get(&b"a".to_vec()).unwrap(), Some(b"1".to_vec()));
    assert_eq!(store.get(&b"b".to_vec()).unwrap(), None);
}

#[test]
fn overwrite_returns_latest_value() {
    let mut store = KvStore::open(Vec::new()).unwrap();
    store.set(b"k".to_vec(), b"v1".to_vec()).unwrap();
    store.set(b"k".to_vec(), b"v2".to_vec()).unwrap();
    assert_eq!(store.get(&b"k".to_vec()).unwrap(), Some(b"v2".to_vec()));
}

#[test]
fn tombstone_after_remove() {
    let mut store = KvStore::open(Vec::new()).unwrap();
    store.set(b"a".to_vec(), b"1".to_vec()).unwrap();
    store.remove(b"a".to_vec()).unwrap();
    assert_eq!(store.get(&b"a".to_vec()).unwrap(), None);
    assert_eq!(store.remove(b"a".to_vec()), Err(KvsError::KeyNotFound));
}

#[test]
fn remove_of_absent_key_is_an_error() {
    let mut store = KvStore::open(Vec::new()).unwrap();
    assert_eq!(store.remove(b"never".to_vec()), Err(KvsError::KeyNotFound));
}

#[test]
fn reopen_yields_identical_mapping() {
    let mut store = KvStore::open(Vec::new()).unwrap();
    store.set(b"a".to_vec(), b"1".to_vec()).unwrap();
    store.set(b"b".to_vec(), b"2".to_vec()).unwrap();
    let reopened = KvStore::open(store.into_segments()).unwrap();
    assert_eq!(reopened.get(&b"a".to_vec()).unwrap(), Some(b"1".to_vec()));
    assert_eq!(reopened.get(&b"b".to_vec()).unwrap(), Some(b"2".to_vec()));
    assert_eq!(reopened.get(&b"c".to_vec()).unwrap(), None);
}

#[test]
fn scenario_set_remove_reopen() {
    let mut dir = FakeDir::new();
    let mut store = KvStore::open(dir.segments()).unwrap();
    let ops = store.take_ops();
    dir.apply(ops);
    store.set(b"a".to_vec(), b"1".to_vec()).unwrap();
    store.set(b"b".to_vec(), b"2".to_vec()).unwrap();
    store.remove(b"a".to_vec()).unwrap();
    dir.apply(store.take_ops());
    let reopened = KvStore::open(dir.segments()).unwrap();
    assert_eq!(reopened.get(&b"a".to_vec()).unwrap(), None);
    assert_eq!(reopened.get(&b"b".to_vec()).unwrap(), Some(b"2".to_vec()));
}

#[test]
fn reopen_after_no_writes_is_idempotent() {
    let mut store = KvStore::open(Vec::new()).unwrap();
    store.set(b"x".to_vec(), b"10".to_vec()).unwrap();
    let once = KvStore::open(store.into_segments()).unwrap();
    assert_eq!(once.get(&b"x".to_vec()).unwrap(), Some(b"10".to_vec()));
    let twice = KvStore::open(once.into_segments()).unwrap();
    assert_eq!(twice.get(&b"x".to_vec()).unwrap(), Some(b"10".to_vec()));
}

#[test]
fn compaction_keeps_live_keys_and_drops_stale_files() {
    let mut dir = FakeDir::new();
    let mut store = KvStore::open(dir.segments()).unwrap();
    dir.apply(store.take_ops());
    let value_a = vec![7u8; 65536];
    let value_b = vec![8u8; 65536];
    // Two rounds over eight keys: the first round's records all go stale,
    // and the total crosses the 1 MiB threshold, forcing compaction.
    for round in 0..2 {
        for k in 0..8u8 {
            let value = if round == 0 { value_a.clone() } else { value_b.clone() };
            store.set(vec![k], value).unwrap();
            dir.apply(store.take_ops());
        }
    }
    for k in 0..8u8 {
        assert_eq!(store.get(&vec![k]).unwrap(), Some(value_b.clone()));
    }
    // All stale segment files are gone: only the compacted segment and the
    // fresh current segment remain on disk.
    assert_eq!(dir.files.len(), 2);
    let reopened = KvStore::open(dir.segments()).unwrap();
    for k in 0..8u8 {
        assert_eq!(reopened.get(&vec![k]).unwrap(), Some(value_b.clone()));
    }
    assert_eq!(reopened.get(&b"other".to_vec()).unwrap(), None);
}

#[test]
fn compaction_is_transparent_to_the_mapping() {
    let mut store = KvStore::open(Vec::new()).unwrap();
    let big = vec![3u8; 131072];
    for k in 0..10u8 {
        store.set(vec![k], big.clone()).unwrap();
    }
    store.set(b"small".to_vec(), b"s".to_vec()).unwrap();
    store.remove(vec![0u8]).unwrap();
    for k in 1..10u8 {
        assert_eq!(store.get(&vec![k]).unwrap(), Some(big.clone()));
    }
    assert_eq!(store.get(&vec![0u8]).unwrap(), None);
    assert_eq!(store.get(&b"small".to_vec()).unwrap(), Some(b"s".to_vec()));
}

#[test]
fn open_emits_the_creation_of_the_current_segment() {
    let mut store = KvStore::open(Vec::new()).unwrap();
    let ops = store.take_ops();
    assert_eq!(ops.len(), 1);
    match &ops[0] {
        FileOp::Create { generation, bytes } => {
            assert_eq!(*generation, 1);
            assert!(bytes.is_empty());
        }
        _ => panic!("open must create the current segment"),
    }
    store.set(b"a".to_vec(), b"1".to_vec()).unwrap();
    let ops = store.take_ops();
    assert_eq!(ops.len(), 1);
    match &ops[0] {
        FileOp::Append { generation, bytes } => {
            assert_eq!(*generation, 1);
            assert_eq!(bytes.len(), 1 + 8 + 1 + 8 + 1);
        }
        _ => panic!("set must append to the current segment"),
    }
}

#[test]
fn open_rejects_corrupt_segments() {
    let segments = vec![Segment { generation: 1, data: vec![0, 1, 2] }];
    assert!(matches!(KvStore::open(segments), Err(KvsError::Corrupt)));
}

#[test]
fn open_rejects_out_of_order_segments() {
    let segments = vec![
        Segment { generation: 2, data: Vec::new() },
        Segment { generation: 1, data: Vec::new() },
    ];
    assert!(matches!(KvStore::open(segments), Err(KvsError::Corrupt)));
}

#[test]
fn open_rejects_exhausted_generations() {
    let segments = vec![Segment { generation: u64::MAX, data: Vec::new() }];
    assert!(matches!(
        KvStore::open(segments),
        Err(KvsError::GenerationsExhausted)
    ));
}

#[test]
fn open_replays_across_segment_boundaries() {
    // Build a two-segment history by reopening once in the middle: the
    // later segment's record must win over the earlier one.
    let mut store = KvStore::open(Vec::new()).unwrap();
    store.set(b"k".to_vec(), b"old".to_vec()).unwrap();
    let mut second = KvStore::open(store.into_segments()).unwrap();
    second.set(b"k".to_vec(), b"new".to_vec()).unwrap();
    let third = KvStore::open(second.into_segments()).unwrap();
    assert_eq!(third.get(&b"k".to_vec()).unwrap(), Some(b"new".to_vec()));
}
