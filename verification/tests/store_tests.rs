use availdb::codec::decode_checkpoint;
use availdb::store::DEFAULT_WINDOW;
use availdb::DatabaseClient;
use availdb::DatabaseMetadata;
use availdb::Record;

fn record(key: &str, value: &str, created_at: u64, id: &str) -> Record {
    Record {
        key: key.to_string(),
        value: value.to_string(),
        created_at,
        updated_at: None,
        id: id.to_string(),
    }
}

/// A ledger namespace simulated in memory: every appended blob lands at
/// the next height, and a fetch returns the blobs of a height range in
/// most-recent-first order, as the store expects its windows.
struct FakeLedger {
    blobs: Vec<(u32, String)>,
    height: u32,
}

impl FakeLedger {
    fn new(height: u32) -> Self {
        FakeLedger { blobs: Vec::new(), height }
    }

    fn append(&mut self, blob: String) {
        self.height += 1;
        self.blobs.push((self.height, blob));
    }

    /// The blobs at heights `from..=self.height`, newest first.
    fn window_from(&self, from: u64) -> Vec<String> {
        self.blobs
            .iter()
            .rev()
            .filter(|(h, _)| u64::from(*h) >= from)
            .map(|(_, b)| b.clone())
            .collect()
    }

    /// The read window of a handle: `[start_height, current]`.
    fn read_window(&self, client: &DatabaseClient) -> Vec<String> {
        let start = client.metadata.as_ref().map(|m| m.start_height).unwrap_or(0);
        self.window_from(start)
    }

    /// `open`, driven as the store directs: hand the discovery window to
    /// the bootstrap decision and append the fresh checkpoint if asked.
    fn open(&mut self, block_range: Option<u32>) -> DatabaseClient {
        let lookback = block_range.unwrap_or(DEFAULT_WINDOW);
        let from = u64::from(self.height.saturating_sub(lookback));
        let window = self.window_from(from);
        let (client, to_append) = DatabaseClient::new(7, block_range, self.height, &window);
        if let Some(blob) = to_append {
            self.append(blob);
        }
        client
    }

    /// One `put`, driven as the store directs: append the record blob,
    /// then the refreshed checkpoint blob.
    fn put(&mut self, client: &mut DatabaseClient, key: &str, value: &str, created_at: u64) {
        let rec = record(key, value, created_at, &format!("id-{}-{}", key, created_at));
        let blob = client.add_record(&rec);
        self.append(blob);
        let cp_blob = client.record_appended().expect("bootstrapped handle has a checkpoint");
        self.append(cp_blob);
    }
}

#[test]
fn fresh_open_appends_one_zero_count_checkpoint() {
    let mut ledger = FakeLedger::new(120);
    let window = ledger.window_from(110);
    let (client, to_append) = DatabaseClient::new(7, None, ledger.height, &window);
    let blob = to_append.expect("fresh namespace must append a checkpoint");
    let cp = decode_checkpoint(&blob).expect("the appended blob is a checkpoint");
    assert_eq!(cp.record_count, 0);
    assert_eq!(cp.start_height, 120);
    ledger.append(blob);
    assert_eq!(ledger.blobs.len(), 1);
    let held = client.metadata.expect("open returns a bootstrapped handle");
    assert_eq!(held.record_count, 0);
    assert_eq!(held.start_height, 120);
}

#[test]
fn reopen_recovers_original_start_height() {
    let mut ledger = FakeLedger::new(50);
    let first = ledger.open(None);
    assert_eq!(first.metadata.as_ref().unwrap().start_height, 50);

    // Later opens, with writes in between, keep recovering height 50.
    let mut client = ledger.open(None);
    assert_eq!(client.metadata.as_ref().unwrap().start_height, 50);
    ledger.put(&mut client, "k", "v", 1);
    let third = ledger.open(None);
    assert_eq!(third.metadata.as_ref().unwrap().start_height, 50);
    assert_eq!(third.metadata.as_ref().unwrap().record_count, 1);
}

#[test]
fn last_write_wins_on_get_and_list() {
    let mut ledger = FakeLedger::new(10);
    let mut client = ledger.open(None);
    ledger.put(&mut client, "alpha", "1", 100);
    ledger.put(&mut client, "alpha", "2", 200);

    let window = ledger.read_window(&client);
    let got = client.get_record("alpha", &window).expect("alpha was written");
    assert_eq!(got.key, "alpha");
    assert_eq!(got.value, "2");

    let listed = client.list_records(&window);
    assert_eq!(listed.len(), 1);
    assert_eq!(listed[0].key, "alpha");
    assert_eq!(listed[0].value, "2");
}

#[test]
fn distinct_keys_enumerate_one_each() {
    let mut ledger = FakeLedger::new(10);
    let mut client = ledger.open(None);
    ledger.put(&mut client, "a", "1", 100);
    ledger.put(&mut client, "b", "2", 200);
    ledger.put(&mut client, "c", "3", 300);

    let window = ledger.read_window(&client);
    let mut listed = client.list_records(&window);
    listed.sort_by(|x, y| x.key.cmp(&y.key));
    assert_eq!(listed.len(), 3);
    assert_eq!((listed[0].key.as_str(), listed[0].value.as_str()), ("a", "1"));
    assert_eq!((listed[1].key.as_str(), listed[1].value.as_str()), ("b", "2"));
    assert_eq!((listed[2].key.as_str(), listed[2].value.as_str()), ("c", "3"));

    // Still one entry per key after one key is rewritten.
    ledger.put(&mut client, "b", "22", 400);
    let window = ledger.read_window(&client);
    let mut listed = client.list_records(&window);
    listed.sort_by(|x, y| x.key.cmp(&y.key));
    assert_eq!(listed.len(), 3);
    assert_eq!((listed[1].key.as_str(), listed[1].value.as_str()), ("b", "22"));
}

#[test]
fn missing_key_returns_none() {
    let mut ledger = FakeLedger::new(10);
    let mut client = ledger.open(None);
    assert!(client.get_record("nonexistent", &ledger.read_window(&client)).is_none());
    ledger.put(&mut client, "present", "v", 100);
    let window = ledger.read_window(&client);
    assert!(client.get_record("nonexistent", &window).is_none());
    assert!(client.get_record("present", &window).is_some());
}

#[test]
fn empty_window_lists_nothing() {
    let client = DatabaseClient { app_id: 7, metadata: None, block_range: None };
    let window: Vec<String> = Vec::new();
    assert_eq!(client.list_records(&window).len(), 0);
}

#[test]
fn window_boundary_hides_older_records() {
    // A record durably stored below the checkpoint's start height must
    // not be visible to reads, even though its key matches.
    let mut ledger = FakeLedger::new(10);
    ledger.append(availdb::codec::encode_record(&record("old", "hidden", 1, "id-old")));
    // Time passes; the store is created much later with a narrow window.
    ledger.height = 30;
    let mut client = ledger.open(Some(5));
    assert_eq!(client.metadata.as_ref().unwrap().start_height, 30);

    let window = ledger.read_window(&client);
    assert!(client.get_record("old", &window).is_none());
    assert_eq!(client.list_records(&window).len(), 0);

    // A record written inside the window is visible.
    ledger.put(&mut client, "new", "seen", 2);
    let window = ledger.read_window(&client);
    assert!(client.get_record("new", &window).is_some());
    assert!(client.get_record("old", &window).is_none());
}

#[test]
fn read_window_spans_start_to_current() {
    let client = DatabaseClient {
        app_id: 7,
        metadata: Some(DatabaseMetadata { record_count: 0, last_updated: 0, start_height: 100 }),
        block_range: None,
    };
    assert_eq!(client.read_window(105), 5);
    assert_eq!(client.read_window(100), 0);
    // A current height below the start height yields an empty window.
    assert_eq!(client.read_window(90), 0);
    // Without a checkpoint the scan covers everything up to the current height.
    let bare = DatabaseClient { app_id: 7, metadata: None, block_range: None };
    assert_eq!(bare.read_window(90), 90);
}

#[test]
fn lookback_defaults_to_ten_blocks() {
    let client = DatabaseClient { app_id: 7, metadata: None, block_range: None };
    assert_eq!(client.lookback_blocks(), 10);
    let overridden = DatabaseClient { app_id: 7, metadata: None, block_range: Some(3) };
    assert_eq!(overridden.lookback_blocks(), 3);
}

#[test]
fn write_path_bumps_count_and_keeps_start_height() {
    let mut client = DatabaseClient {
        app_id: 7,
        metadata: Some(DatabaseMetadata { record_count: 4, last_updated: 9, start_height: 33 }),
        block_range: None,
    };
    let cp_blob = client.record_appended().expect("a held checkpoint is refreshed");
    let cp = decode_checkpoint(&cp_blob).expect("the returned blob is a checkpoint");
    assert_eq!(cp.record_count, 5);
    assert_eq!(cp.start_height, 33);
    let held = client.metadata.as_ref().unwrap();
    assert_eq!(held.record_count, 5);
    assert_eq!(held.start_height, 33);

    // Without a bootstrapped checkpoint there is nothing to refresh.
    let mut bare = DatabaseClient { app_id: 7, metadata: None, block_range: None };
    assert!(bare.record_appended().is_none());
}

#[test]
fn record_new_fills_fresh_fields() {
    let r = Record::new("k".to_string(), "v".to_string());
    assert_eq!(r.key, "k");
    assert_eq!(r.value, "v");
    assert!(r.updated_at.is_none());
    assert_eq!(r.id.chars().count(), 36);
}

#[test]
fn metadata_default_is_empty_store() {
    let m = DatabaseMetadata::default();
    assert_eq!(m.record_count, 0);
    assert_eq!(m.start_height, 1);
}

#[test]
fn checkpoints_are_skipped_by_reads() {
    let mut ledger = FakeLedger::new(10);
    let mut client = ledger.open(None);
    ledger.put(&mut client, "k", "v", 100);
    // The window holds checkpoints and one record; only the record shows.
    let window = ledger.read_window(&client);
    assert!(window.len() >= 3);
    let listed = client.list_records(&window);
    assert_eq!(listed.len(), 1);
    assert_eq!(listed[0].key, "k");
}

#[test]
fn error_variants_carry_their_messages() {
    let ledger_down = availdb::DatabaseError::AvailError("node unreachable".to_string());
    match ledger_down {
        availdb::DatabaseError::AvailError(m) => assert_eq!(m, "node unreachable"),
        availdb::DatabaseError::SerializationError(_) => panic!("wrong variant"),
    }
    let bad_blob = availdb::DatabaseError::SerializationError("truncated blob".to_string());
    match bad_blob {
        availdb::DatabaseError::SerializationError(m) => assert_eq!(m, "truncated blob"),
        availdb::DatabaseError::AvailError(_) => panic!("wrong variant"),
    }
}
