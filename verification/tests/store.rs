use kv_store::error::KvError;
use kv_store::record::LogCommand;
use kv_store::store::{Action, KvStore, SnapshotRead};
use kv_store::wal::{frame, split_lines};
use serde_json::Value;

/// The two files of a store, held in memory, and the faults to inject.
struct Disk {
    snapshot: Option<Vec<(String, String)>>,
    log: Vec<u8>,
    fail_append: bool,
    fail_snapshot: bool,
    fail_truncate: bool,
}

fn encode(record: &LogCommand) -> Vec<u8> {
    let mut fields = serde_json::Map::new();
    let tag = match record {
        LogCommand::Put { key, value } => {
            fields.insert("key".to_string(), Value::String(key.clone()));
            fields.insert("value".to_string(), Value::String(value.clone()));
            "Set"
        }
        LogCommand::Remove { key } => {
            fields.insert("key".to_string(), Value::String(key.clone()));
            "Remove"
        }
    };
    let mut tagged = serde_json::Map::new();
    tagged.insert(tag.to_string(), Value::Object(fields));
    serde_json::to_vec(&Value::Object(tagged)).unwrap()
}

fn field(fields: &serde_json::Map<String, Value>, name: &str) -> Result<String, KvError> {
    match fields.get(name) {
        Some(Value::String(text)) => Ok(text.clone()),
        _ => Err(KvError::Serialization(format!("missing field `{}`", name))),
    }
}

fn decode(line: &[u8]) -> Result<LogCommand, KvError> {
    let value: Value =
        serde_json::from_slice(line).map_err(|e| KvError::Serialization(e.to_string()))?;
    if let Value::Object(tagged) = &value {
        if let Some(Value::Object(fields)) = tagged.get("Set") {
            return Ok(LogCommand::Put { key: field(fields, "key")?, value: field(fields, "value")? });
        }
        if let Some(Value::Object(fields)) = tagged.get("Remove") {
            return Ok(LogCommand::Remove { key: field(fields, "key")? });
        }
    }
    Err(KvError::Serialization("unknown record".to_string()))
}

impl Disk {
    fn empty() -> Disk {
        Disk {
            snapshot: None,
            log: Vec::new(),
            fail_append: false,
            fail_snapshot: false,
            fail_truncate: false,
        }
    }

    fn open(&self) -> Result<KvStore, KvError> {
        let snapshot = match &self.snapshot {
            Some(entries) => SnapshotRead::Loaded(entries.clone()),
            None => SnapshotRead::Absent,
        };
        let outcomes = split_lines(&self.log).iter().map(|line| decode(line)).collect();
        KvStore::new(snapshot, outcomes)
    }

    fn perform(&mut self, action: &Action) -> Result<(), KvError> {
        match action {
            Action::Append(record) => {
                if self.fail_append {
                    return Err(KvError::Io("Failed to write WAL: disk full".to_string()));
                }
                let framed = frame(&encode(record))?;
                self.log.extend_from_slice(&framed);
                Ok(())
            }
            Action::WriteSnapshot(entries) => {
                if self.fail_snapshot {
                    return Err(KvError::Io("Failed to create store file: denied".to_string()));
                }
                self.snapshot = Some(entries.clone());
                Ok(())
            }
            Action::TruncateWal => {
                if self.fail_truncate {
                    return Err(KvError::Io("Failed to truncate WAL: denied".to_string()));
                }
                self.log.clear();
                Ok(())
            }
            Action::Finish(_) => panic!("a finished operation asks for no file work"),
        }
    }

    fn run(&mut self, store: &mut KvStore, first: Action) -> Result<(), KvError> {
        let mut action = first;
        loop {
            if let Action::Finish(result) = action {
                return result;
            }
            let outcome = self.perform(&action);
            assert!(!store.is_normal());
            action = store.resume(outcome);
        }
    }

    fn set(&mut self, store: &mut KvStore, key: &str, value: &str) -> Result<(), KvError> {
        assert!(store.is_normal());
        let first = store.set(key.to_string(), value.to_string());
        self.run(store, first)
    }

    fn remove(&mut self, store: &mut KvStore, key: &str) -> Result<(), KvError> {
        assert!(store.is_normal());
        let first = store.remove(key.to_string());
        self.run(store, first)
    }

    fn compact(&mut self, store: &mut KvStore) -> Result<(), KvError> {
        assert!(store.is_normal());
        let first = store.compact();
        self.run(store, first)
    }
}

fn fresh() -> KvStore {
    KvStore::new(SnapshotRead::Absent, Vec::new()).unwrap()
}

fn get(store: &KvStore, key: &str) -> Option<String> {
    store.get(key.to_string())
}

fn put(key: &str, value: &str) -> LogCommand {
    LogCommand::Put { key: key.to_string(), value: value.to_string() }
}

fn del(key: &str) -> LogCommand {
    LogCommand::Remove { key: key.to_string() }
}

fn refusal(opened: Result<KvStore, KvError>) -> KvError {
    match opened {
        Ok(_) => panic!("the store opened"),
        Err(error) => error,
    }
}

#[test]
fn set_then_get_returns_the_value() {
    let mut disk = Disk::empty();
    let mut store = fresh();
    assert_eq!(disk.set(&mut store, "a", "1"), Ok(()));
    assert_eq!(get(&store, "a"), Some("1".to_string()));
}

#[test]
fn set_overwrites_an_earlier_value() {
    let mut disk = Disk::empty();
    let mut store = fresh();
    disk.set(&mut store, "a", "1").unwrap();
    disk.set(&mut store, "b", "2").unwrap();
    disk.set(&mut store, "a", "3").unwrap();
    assert_eq!(get(&store, "a"), Some("3".to_string()));
    assert_eq!(get(&store, "b"), Some("2".to_string()));
}

#[test]
fn remove_after_set_unbinds_the_key() {
    let mut disk = Disk::empty();
    let mut store = fresh();
    disk.set(&mut store, "a", "1").unwrap();
    assert_eq!(disk.remove(&mut store, "a"), Ok(()));
    assert_eq!(get(&store, "a"), None);
}

#[test]
fn remove_of_a_missing_key_fails_and_is_still_logged() {
    let mut disk = Disk::empty();
    let mut store = fresh();
    assert_eq!(disk.remove(&mut store, "x"), Err(KvError::KeyNotFound("x".to_string())));
    assert_eq!(get(&store, "x"), None);
    assert_eq!(split_lines(&disk.log), vec![encode(&del("x"))]);
    let reopened = disk.open().unwrap();
    assert_eq!(get(&reopened, "x"), None);
}

#[test]
fn get_of_a_key_never_set_finds_nothing() {
    let store = fresh();
    assert_eq!(get(&store, "a"), None);
    assert_eq!(get(&store, ""), None);
}

#[test]
fn the_empty_string_is_a_key_like_any_other() {
    let mut disk = Disk::empty();
    let mut store = fresh();
    disk.set(&mut store, "", "").unwrap();
    assert_eq!(get(&store, ""), Some(String::new()));
    assert_eq!(get(&disk.open().unwrap(), ""), Some(String::new()));
}

#[test]
fn set_asks_for_the_record_and_shows_nothing_until_it_is_logged() {
    let mut store = fresh();
    let action = store.set("a".to_string(), "1".to_string());
    assert_eq!(action, Action::Append(put("a", "1")));
    assert!(!store.is_normal());
    assert_eq!(get(&store, "a"), None);
    assert_eq!(store.resume(Ok(())), Action::Finish(Ok(())));
    assert!(store.is_normal());
    assert_eq!(get(&store, "a"), Some("1".to_string()));
}

#[test]
fn remove_asks_for_the_record_and_shows_nothing_until_it_is_logged() {
    let mut disk = Disk::empty();
    let mut store = fresh();
    disk.set(&mut store, "a", "1").unwrap();
    let action = store.remove("a".to_string());
    assert_eq!(action, Action::Append(del("a")));
    assert_eq!(get(&store, "a"), Some("1".to_string()));
    assert_eq!(store.resume(Ok(())), Action::Finish(Ok(())));
    assert_eq!(get(&store, "a"), None);
}

#[test]
fn a_failed_append_leaves_the_map_unchanged() {
    let mut disk = Disk::empty();
    let mut store = fresh();
    disk.set(&mut store, "a", "1").unwrap();
    disk.fail_append = true;
    let failure = KvError::Io("Failed to write WAL: disk full".to_string());
    assert_eq!(disk.set(&mut store, "a", "2"), Err(failure.clone()));
    assert_eq!(disk.set(&mut store, "b", "3"), Err(failure.clone()));
    assert_eq!(disk.remove(&mut store, "a"), Err(failure));
    assert!(store.is_normal());
    assert_eq!(get(&store, "a"), Some("1".to_string()));
    assert_eq!(get(&store, "b"), None);
    let reopened = disk.open().unwrap();
    assert_eq!(get(&reopened, "a"), Some("1".to_string()));
    assert_eq!(get(&reopened, "b"), None);
}

#[test]
fn a_restart_reproduces_the_state() {
    let mut disk = Disk::empty();
    let mut store = fresh();
    disk.set(&mut store, "a", "1").unwrap();
    disk.set(&mut store, "b", "2").unwrap();
    disk.remove(&mut store, "a").unwrap();
    disk.set(&mut store, "c", "line\nfeed").unwrap();
    assert!(disk.remove(&mut store, "zz").is_err());
    disk.compact(&mut store).unwrap();
    disk.set(&mut store, "b", "4").unwrap();
    disk.set(&mut store, "d", "5\r").unwrap();
    disk.remove(&mut store, "c").unwrap();
    let reopened = disk.open().unwrap();
    for key in ["a", "b", "c", "d", "zz"] {
        assert_eq!(get(&reopened, key), get(&store, key));
    }
    assert_eq!(get(&reopened, "a"), None);
    assert_eq!(get(&reopened, "b"), Some("4".to_string()));
    assert_eq!(get(&reopened, "c"), None);
    assert_eq!(get(&reopened, "d"), Some("5\r".to_string()));
}

#[test]
fn compaction_empties_the_log_and_the_snapshot_alone_recovers() {
    let mut disk = Disk::empty();
    let mut store = fresh();
    disk.set(&mut store, "a", "1").unwrap();
    disk.set(&mut store, "b", "2").unwrap();
    disk.remove(&mut store, "a").unwrap();
    assert_eq!(disk.compact(&mut store), Ok(()));
    assert!(disk.log.is_empty());
    assert_eq!(disk.snapshot, Some(vec![("b".to_string(), "2".to_string())]));
    let reopened =
        KvStore::new(SnapshotRead::Loaded(disk.snapshot.clone().unwrap()), Vec::new()).unwrap();
    assert_eq!(get(&reopened, "a"), None);
    assert_eq!(get(&reopened, "b"), Some("2".to_string()));
    assert_eq!(get(&store, "b"), Some("2".to_string()));
}

#[test]
fn compaction_asks_for_the_snapshot_and_then_for_the_truncation() {
    let mut disk = Disk::empty();
    let mut store = fresh();
    disk.set(&mut store, "k", "v").unwrap();
    let first = store.compact();
    assert_eq!(first, Action::WriteSnapshot(vec![("k".to_string(), "v".to_string())]));
    assert!(!store.is_normal());
    assert_eq!(store.resume(Ok(())), Action::TruncateWal);
    assert!(!store.is_normal());
    assert_eq!(store.resume(Ok(())), Action::Finish(Ok(())));
    assert!(store.is_normal());
}

#[test]
fn compaction_of_an_empty_store_writes_an_empty_snapshot() {
    let mut store = fresh();
    assert_eq!(store.compact(), Action::WriteSnapshot(Vec::new()));
}

#[test]
fn a_failed_snapshot_write_keeps_the_log() {
    let mut disk = Disk::empty();
    let mut store = fresh();
    disk.set(&mut store, "a", "1").unwrap();
    disk.compact(&mut store).unwrap();
    disk.set(&mut store, "a", "2").unwrap();
    disk.fail_snapshot = true;
    let failure = KvError::Io("Failed to create store file: denied".to_string());
    assert_eq!(disk.compact(&mut store), Err(failure.clone()));
    assert_eq!(split_lines(&disk.log), vec![encode(&put("a", "2"))]);
    assert_eq!(disk.snapshot, Some(vec![("a".to_string(), "1".to_string())]));
    assert_eq!(get(&store, "a"), Some("2".to_string()));
    assert_eq!(get(&disk.open().unwrap(), "a"), Some("2".to_string()));
    let _ = store.compact();
    assert_eq!(store.resume(Err(failure.clone())), Action::Finish(Err(failure)));
    assert!(store.is_normal());
}

#[test]
fn a_failed_truncation_still_recovers_the_map() {
    let mut disk = Disk::empty();
    let mut store = fresh();
    disk.set(&mut store, "a", "1").unwrap();
    disk.set(&mut store, "b", "2").unwrap();
    disk.remove(&mut store, "a").unwrap();
    disk.fail_truncate = true;
    assert_eq!(
        disk.compact(&mut store),
        Err(KvError::Io("Failed to truncate WAL: denied".to_string()))
    );
    assert!(store.is_normal());
    assert_eq!(split_lines(&disk.log).len(), 3);
    let reopened = disk.open().unwrap();
    assert_eq!(get(&reopened, "a"), None);
    assert_eq!(get(&reopened, "b"), Some("2".to_string()));
    disk.fail_truncate = false;
    disk.set(&mut store, "c", "3").unwrap();
    assert_eq!(get(&disk.open().unwrap(), "c"), Some("3".to_string()));
}

#[test]
fn the_log_is_replayed_over_the_snapshot_in_order() {
    let snapshot = SnapshotRead::Loaded(vec![
        ("a".to_string(), "old".to_string()),
        ("b".to_string(), "kept".to_string()),
        ("c".to_string(), "gone".to_string()),
    ]);
    let log = vec![Ok(put("a", "1")), Ok(del("c")), Ok(put("a", "2")), Ok(del("missing"))];
    let store = KvStore::new(snapshot, log).unwrap();
    assert_eq!(get(&store, "a"), Some("2".to_string()));
    assert_eq!(get(&store, "b"), Some("kept".to_string()));
    assert_eq!(get(&store, "c"), None);
    assert_eq!(get(&store, "missing"), None);
    assert!(store.is_normal());
    assert_eq!(store.startup_fault(), None);
}

#[test]
fn the_last_entry_of_a_key_in_a_snapshot_counts() {
    let snapshot = SnapshotRead::Loaded(vec![
        ("a".to_string(), "1".to_string()),
        ("b".to_string(), "2".to_string()),
        ("a".to_string(), "3".to_string()),
    ]);
    let mut store = KvStore::new(snapshot, Vec::new()).unwrap();
    assert_eq!(get(&store, "a"), Some("3".to_string()));
    match store.compact() {
        Action::WriteSnapshot(mut entries) => {
            entries.sort();
            assert_eq!(
                entries,
                vec![("a".to_string(), "3".to_string()), ("b".to_string(), "2".to_string())]
            );
        }
        other => panic!("unexpected action {:?}", other),
    }
}

#[test]
fn a_malformed_log_record_refuses_the_store() {
    let mut disk = Disk::empty();
    let mut store = fresh();
    disk.set(&mut store, "a", "1").unwrap();
    disk.log.extend_from_slice(b"{\"Set\":{\"key\":\"b\"\n");
    disk.set(&mut store, "c", "3").unwrap();
    match refusal(disk.open()) {
        KvError::Serialization(_) => {}
        other => panic!("unexpected error {:?}", other),
    }
}

#[test]
fn the_first_failure_in_the_log_is_the_one_reported() {
    let log = vec![
        Ok(put("a", "1")),
        Err(KvError::Serialization("line 2".to_string())),
        Ok(put("b", "2")),
        Err(KvError::Io("line 4".to_string())),
    ];
    assert_eq!(
        refusal(KvStore::new(SnapshotRead::Absent, log)),
        KvError::Serialization("line 2".to_string())
    );
    let log = vec![Err(KvError::Io("Failed to open WAL file: denied".to_string()))];
    assert_eq!(
        refusal(KvStore::new(SnapshotRead::Absent, log)),
        KvError::Io("Failed to open WAL file: denied".to_string())
    );
}

#[test]
fn an_unusable_snapshot_counts_as_empty_and_is_reported() {
    let fault =
        KvError::Serialization("Corrupt or invalid store file. Starting with empty store.".to_string());
    let store =
        KvStore::new(SnapshotRead::Unusable(fault.clone()), vec![Ok(put("a", "1"))]).unwrap();
    assert_eq!(get(&store, "a"), Some("1".to_string()));
    assert_eq!(store.startup_fault(), Some(fault));
}

#[test]
fn an_absent_snapshot_is_no_fault() {
    let store = fresh();
    assert_eq!(store.startup_fault(), None);
    assert!(store.is_normal());
    let loaded = KvStore::new(SnapshotRead::Loaded(Vec::new()), Vec::new()).unwrap();
    assert_eq!(loaded.startup_fault(), None);
}

#[test]
fn a_torn_last_line_refuses_the_store() {
    let mut disk = Disk::empty();
    let mut store = fresh();
    disk.set(&mut store, "a", "1").unwrap();
    let whole = encode(&put("b", "2"));
    disk.log.extend_from_slice(&whole[..whole.len() - 3]);
    assert!(disk.open().is_err());
}

#[test]
fn an_unterminated_whole_record_is_replayed() {
    let mut disk = Disk::empty();
    disk.log.extend_from_slice(&encode(&put("a", "1")));
    assert_eq!(get(&disk.open().unwrap(), "a"), Some("1".to_string()));
}

#[test]
fn writes_to_one_key_leave_the_last_value() {
    let mut disk = Disk::empty();
    let mut store = fresh();
    let values: Vec<String> = (0..10).map(|i| format!("value{}", i)).collect();
    for value in values.iter().rev() {
        disk.set(&mut store, "shared_key", value).unwrap();
    }
    let last = get(&store, "shared_key").unwrap();
    assert!(values.contains(&last));
    assert_eq!(last, "value0");
    assert_eq!(get(&disk.open().unwrap(), "shared_key"), Some("value0".to_string()));
}

#[test]
fn writes_to_distinct_keys_do_not_interfere() {
    let mut disk = Disk::empty();
    let mut store = fresh();
    for round in 0..3 {
        for i in 0..10 {
            disk.set(&mut store, &format!("key{}", i), &format!("value{}-{}", i, round)).unwrap();
            assert_eq!(get(&store, &format!("key{}", i)), Some(format!("value{}-{}", i, round)));
        }
    }
    disk.remove(&mut store, "key3").unwrap();
    for i in 0..10 {
        let expected = if i == 3 { None } else { Some(format!("value{}-2", i)) };
        assert_eq!(get(&store, &format!("key{}", i)), expected);
    }
}
