use bawikv::error::InternalError;
use bawikv::store::{BawiKv, Segment};

/// A tiny in-memory stand-in for the store directory: one byte image per
/// generation, kept in step with the engine exactly as a disk-backed shell
/// would keep its files.
struct Dir {
    files: Vec<(u64, Vec<u8>)>,
}

impl Dir {
    fn new() -> Dir {
        Dir { files: Vec::new() }
    }

    fn open(&mut self) -> BawiKv {
        self.files.sort_by_key(|f| f.0);
        let segments: Vec<Segment> = self
            .files
            .iter()
            .map(|(gen, data)| Segment { gen: *gen, data: data.clone() })
            .collect();
        let store = BawiKv::open(segments).expect("segments must replay");
        self.ensure_file(store.current_gen());
        store
    }

    fn ensure_file(&mut self, gen: u64) {
        if !self.files.iter().any(|f| f.0 == gen) {
            self.files.push((gen, Vec::new()));
        }
    }

    fn append(&mut self, gen: u64, bytes: &[u8]) {
        let file = self
            .files
            .iter_mut()
            .find(|f| f.0 == gen)
            .expect("active file exists");
        file.1.extend_from_slice(bytes);
    }

    fn total_bytes(&self) -> u64 {
        self.files.iter().map(|f| f.1.len() as u64).sum()
    }

    fn put(&mut self, store: &mut BawiKv, key: &str, value: &str) {
        let gen = store.current_gen();
        let bytes = store.put(key.to_string(), value.to_string());
        self.append(gen, &bytes);
    }

    fn remove(&mut self, store: &mut BawiKv, key: &str) -> Result<(), InternalError> {
        let gen = store.current_gen();
        let bytes = store.remove(key.to_string())?;
        self.append(gen, &bytes);
        Ok(())
    }

    fn compact(&mut self, store: &mut BawiKv) {
        let outcome = store.compact();
        for gen in outcome.retired {
            self.files.retain(|f| f.0 != gen);
        }
        self.files.push((outcome.compaction_gen, outcome.data));
        self.files.push((outcome.active_gen, Vec::new()));
    }
}

fn get(store: &mut BawiKv, key: &str) -> Option<String> {
    store.get(key.to_string()).expect("get never fails")
}

#[test]
fn it_works() {
    let mut dir = Dir::new();
    let mut bdb = dir.open();
    for i in 0..10 {
        let key = format!("{}-{}", "key", i);
        let val = format!("{}-{}", "value", i);
        dir.put(&mut bdb, &key, &val);
    }
}

#[test]
fn missing_key_on_fresh_store() {
    let mut dir = Dir::new();
    let mut store = dir.open();
    assert_eq!(store.get("nonexistent".to_string()), Ok(None));
}

#[test]
fn round_trip_with_and_without_reopen() {
    let mut dir = Dir::new();
    let mut store = dir.open();
    dir.put(&mut store, "key-1", "value-1");
    dir.put(&mut store, "café", "κλειδί");
    assert_eq!(get(&mut store, "key-1"), Some("value-1".to_string()));
    assert_eq!(get(&mut store, "café"), Some("κλειδί".to_string()));

    let mut reopened = dir.open();
    assert_eq!(get(&mut reopened, "key-1"), Some("value-1".to_string()));
    assert_eq!(get(&mut reopened, "café"), Some("κλειδί".to_string()));
    assert_eq!(get(&mut reopened, "key-2"), None);
}

#[test]
fn overwrite_keeps_second_value_and_counts_first_record() {
    let mut dir = Dir::new();
    let mut store = dir.open();
    let gen = store.current_gen();
    let first = store.put("k".to_string(), "v1".to_string());
    dir.append(gen, &first);
    let before = store.reclaimable_bytes();
    dir.put(&mut store, "k", "v2");
    assert_eq!(get(&mut store, "k"), Some("v2".to_string()));
    assert_eq!(store.reclaimable_bytes(), before + first.len() as u64);
}

#[test]
fn remove_semantics() {
    let mut dir = Dir::new();
    let mut store = dir.open();
    dir.put(&mut store, "k", "v");
    dir.remove(&mut store, "k").expect("k is live");
    assert_eq!(get(&mut store, "k"), None);
    assert_eq!(
        store.remove("k".to_string()).unwrap_err(),
        InternalError::KeyNotFound
    );
    // A reopen sees the same state: the remove record cancels the put.
    let mut reopened = dir.open();
    assert_eq!(get(&mut reopened, "k"), None);
}

#[test]
fn concrete_scenario_with_reopen() {
    let mut dir = Dir::new();
    let mut store = dir.open();
    dir.put(&mut store, "a", "1");
    dir.put(&mut store, "b", "2");
    dir.put(&mut store, "a", "3");
    dir.remove(&mut store, "b").expect("b is live");
    assert_eq!(get(&mut store, "a"), Some("3".to_string()));
    assert_eq!(get(&mut store, "b"), None);

    let mut reopened = dir.open();
    assert_eq!(get(&mut reopened, "a"), Some("3".to_string()));
    assert_eq!(get(&mut reopened, "b"), None);
}

#[test]
fn replay_counts_stale_records_of_prior_runs() {
    let mut dir = Dir::new();
    let mut store = dir.open();
    let gen = store.current_gen();
    let first = store.put("k".to_string(), "v1".to_string());
    dir.append(gen, &first);
    dir.put(&mut store, "k", "v2");

    // The superseded first record is rediscovered while reopening.
    let reopened = dir.open();
    assert_eq!(reopened.reclaimable_bytes(), first.len() as u64);
}

#[test]
fn compaction_preserves_values_and_shrinks_the_store() {
    let mut dir = Dir::new();
    let mut store = dir.open();
    let big = "x".repeat(300 * 1024);
    for _ in 0..5 {
        dir.put(&mut store, "big", &big);
    }
    dir.put(&mut store, "small", "s");
    assert!(store.needs_compaction());

    let total_before = store.total_bytes();
    assert_eq!(total_before, dir.total_bytes());
    dir.compact(&mut store);
    assert_eq!(store.reclaimable_bytes(), 0);
    assert!(!store.needs_compaction());
    assert!(store.total_bytes() < total_before);
    assert_eq!(store.total_bytes(), dir.total_bytes());
    assert_eq!(get(&mut store, "big"), Some(big.clone()));
    assert_eq!(get(&mut store, "small"), Some("s".to_string()));

    // The compacted directory still replays to the same state.
    let mut reopened = dir.open();
    assert_eq!(get(&mut reopened, "big"), Some(big));
    assert_eq!(get(&mut reopened, "small"), Some("s".to_string()));
    assert_eq!(reopened.reclaimable_bytes(), 0);
}

#[test]
fn open_rejects_malformed_segments() {
    let segments = vec![Segment { gen: 1, data: vec![9, 9, 9] }];
    match BawiKv::open(segments) {
        Err(e) => assert_eq!(e, InternalError::Serde),
        Ok(_) => panic!("a malformed segment was accepted"),
    }

    let truncated = vec![Segment { gen: 1, data: vec![0, 3, 0] }];
    match BawiKv::open(truncated) {
        Err(e) => assert_eq!(e, InternalError::Serde),
        Ok(_) => panic!("a truncated segment was accepted"),
    }
}
