use bytes::Bytes;
use kv_db::cmd::Command;
use kv_db::cmd::Delete;
use kv_db::cmd::Get;
use kv_db::cmd::SetValue;
use kv_db::connection::Connection;
use kv_db::db::Db;
use kv_db::db::DbHolder;
use kv_db::index::Index;
use kv_db::index::ValueMetadata;
use kv_db::record::DbError;
use kv_db::record::FileRecord;

/// An engine together with the bytes of its data file, kept in memory.
struct Store {
    db: Db,
    file: Vec<u8>,
}

impl Store {
    fn open(file: Vec<u8>) -> Store {
        let db = Db::new("tests_store.dat".to_string(), &file).expect("the data file opens");
        Store { db, file }
    }

    fn append(&mut self, record: FileRecord) {
        let line = record.serialize_with_escaping().expect("the record is written");
        let offset = self.file.len() as u64;
        self.file.extend_from_slice(line.as_bytes());
        self.db.insert(record, offset, line.len() as u64);
    }

    fn set(&mut self, key: &str, value: &[u8]) {
        let record = Db::set(key.to_string(), Bytes::copy_from_slice(value));
        self.append(record);
    }

    fn read(&self, meta: &ValueMetadata) -> Result<Vec<u8>, DbError> {
        let start = meta.offset as usize;
        let end = start + meta.len as usize;
        if end > self.file.len() {
            return Err(DbError::Io);
        }
        Ok(self.file[start..end].to_vec())
    }

    fn get(&self, key: &str) -> Result<Option<FileRecord>, DbError> {
        match self.db.locate(key) {
            None => Ok(None),
            Some(meta) => {
                let buffer = self.read(&meta)?;
                self.db.get(key, &buffer)
            }
        }
    }

    fn delete(&mut self, key: &str) -> Option<()> {
        match self.db.delete(key.to_string()) {
            None => None,
            Some(tombstone) => {
                self.append(tombstone);
                Some(())
            }
        }
    }

    fn compact(&mut self) -> Result<(), DbError> {
        let plan = self.db.compaction_plan();
        let mut stored: Vec<Vec<u8>> = Vec::new();
        for meta in plan.iter() {
            stored.push(self.read(meta)?);
        }
        let made = self.db.run_compaction(&stored)?;
        self.file = made.as_bytes().to_vec();
        self.db.install(made);
        Ok(())
    }
}

fn value_of(store: &Store, key: &str) -> Option<String> {
    store.get(key).expect("the get works").and_then(|record| record.value)
}

/// Answers one request as a server does: the bytes of the request in, the
/// bytes of the response out.
fn serve(store: &mut Store, request: &[u8]) -> Vec<u8> {
    let mut connection = Connection::new();
    connection.buffer.extend_from_slice(request);
    let frame = connection.parse_frame().expect("a frame").expect("a whole frame");
    assert!(connection.buffer.is_empty());
    let response = match Command::from_frame(frame).expect("a command") {
        Command::Ping(cmd) => cmd.apply(),
        Command::Get(cmd) => {
            let found = store.get(&cmd.key);
            cmd.apply(found)
        }
        Command::SetValue(cmd) => {
            store.set(&cmd.key, &cmd.value);
            cmd.apply(Ok(()))
        }
        Command::Delete(cmd) => {
            let outcome = store.delete(&cmd.key);
            cmd.apply(Ok(outcome))
        }
    };
    Connection::write_frame(&response)
}

fn get(key: &str) -> Vec<u8> {
    Connection::write_frame(&Get::new(key).into_frame())
}

fn set(key: &str, value: &str) -> Vec<u8> {
    Connection::write_frame(&SetValue::new(key, Bytes::from(value.to_string())).into_frame())
}

fn delete(key: &str) -> Vec<u8> {
    Connection::write_frame(&Delete::new(key).into_frame())
}

#[test]
fn scenario_empty_store() {
    let mut store = Store::open(Vec::new());
    assert_eq!(serve(&mut store, &get("x")), b"-not found\r\n".to_vec());
    assert_eq!(serve(&mut store, &set("x", "1")), b"+OK\r\n".to_vec());
    assert_eq!(serve(&mut store, &get("x")), b"$1\r\n1\r\n".to_vec());
    assert_eq!(serve(&mut store, b"*1\r\n$4\r\nPING\r\n"), b"+PONG\r\n".to_vec());
}

#[test]
fn scenario_overwrite() {
    let mut store = Store::open(Vec::new());
    assert_eq!(serve(&mut store, &set("k", "a")), b"+OK\r\n".to_vec());
    assert_eq!(serve(&mut store, &set("k", "bb")), b"+OK\r\n".to_vec());
    assert_eq!(serve(&mut store, &get("k")), b"$2\r\nbb\r\n".to_vec());
    assert_eq!(store.file.iter().filter(|b| **b == b'\n').count(), 2);
    assert!(store.db.locate("k").unwrap().offset > 0);
}

#[test]
fn scenario_delete() {
    let mut store = Store::open(Vec::new());
    assert_eq!(serve(&mut store, &set("k", "a")), b"+OK\r\n".to_vec());
    assert_eq!(serve(&mut store, &delete("k")), b"+OK\r\n".to_vec());
    assert_eq!(serve(&mut store, &get("k")), b"-not found\r\n".to_vec());
    assert_eq!(serve(&mut store, &delete("k")), b"-not found\r\n".to_vec());
}

#[test]
fn index_points_at_live_records_of_its_keys() {
    let mut store = Store::open(Vec::new());
    for i in 0..30u32 {
        store.set(&format!("key{}", i % 5), format!("value{}", i).as_bytes());
        if i % 4 == 0 {
            store.delete(&format!("key{}", (i + 1) % 5));
        }
    }
    let check = |store: &Store| {
        for i in 0..5u32 {
            let key = format!("key{}", i);
            if let Some(meta) = store.db.locate(&key) {
                let buffer = store.read(&meta).unwrap();
                let record = Db::retrieve(&meta, &buffer).unwrap();
                assert_eq!(record.key, key);
                assert!(!record.is_tombstone);
            }
        }
    };
    check(&store);
    let reopened = Store::open(store.file.clone());
    check(&reopened);
    store.compact().unwrap();
    check(&store);
}

#[test]
fn records_read_back() {
    let samples = vec![
        FileRecord { key: "a".to_string(), value: Some("3".to_string()), timestamp: 0, is_tombstone: false },
        FileRecord { key: "".to_string(), value: None, timestamp: 18446744073709551615, is_tombstone: true },
        FileRecord {
            key: "new\nline \"quoted\" \\ back".to_string(),
            value: Some("tab\t nul\u{0} bell\u{7} \u{1F600} \u{2028} \r\n".to_string()),
            timestamp: 1700000000,
            is_tombstone: false,
        },
    ];
    for record in samples {
        assert!(record.reads_back(), "{:?}", record);
        assert!(record.same_as(&record));
    }
    let a = FileRecord { key: "a".to_string(), value: None, timestamp: 1, is_tombstone: false };
    let b = FileRecord { key: "a".to_string(), value: Some("".to_string()), timestamp: 1, is_tombstone: false };
    assert!(!a.same_as(&b));
}

#[test]
fn test_insertion() {
    let mut store = Store::open(Vec::new());

    let key = "test_key".to_string();
    store.set(&key, "test_value".to_string().as_bytes());

    let retrieved_record = store.get(&key).unwrap().unwrap();
    assert_eq!(retrieved_record.key, key);
    assert_eq!(retrieved_record.value, Some("test_value".to_string()));
}

#[test]
fn test_retrieval() {
    let mut store = Store::open(Vec::new());
    assert!(store.get("x").unwrap().is_none());
    store.set("x", b"1");
    let record = store.get("x").unwrap().unwrap();
    assert_eq!(record.key, "x");
    assert_eq!(record.value, Some("1".to_string()));
    assert!(!record.is_tombstone);
    assert_eq!(record.get_val_bytes(), Some(Bytes::from("1".to_string())));
    assert!(store.get("y").unwrap().is_none());
}

#[test]
fn test_deletion() {
    let mut store = Store::open(Vec::new());
    store.set("k", b"a");
    assert_eq!(store.delete("k"), Some(()));
    assert!(store.get("k").unwrap().is_none());
    let len_after_first = store.file.len();
    assert_eq!(store.delete("k"), None);
    assert_eq!(store.file.len(), len_after_first);
    assert!(store.db.locate("k").is_none());
}

#[test]
fn test_compaction() {
    let mut store = Store::open(Vec::new());
    store.set("a", b"1");
    store.set("b", b"2");
    store.set("a", b"3");
    store.delete("b");
    let kept = store.get("a").unwrap().unwrap();
    let line = kept.serialize_with_escaping().unwrap();

    store.compact().unwrap();

    assert_eq!(store.file, line.as_bytes().to_vec());
    assert_eq!(value_of(&store, "a"), Some("3".to_string()));
    assert_eq!(value_of(&store, "b"), None);
    assert_eq!(store.db.locate("a"), Some(ValueMetadata { offset: 0, len: line.len() as u64 }));
}

#[test]
fn overwrite_points_at_the_second_record() {
    let mut store = Store::open(Vec::new());
    store.set("k", b"a");
    let first_len = store.file.len() as u64;
    store.set("k", b"bb");
    assert_eq!(value_of(&store, "k"), Some("bb".to_string()));
    let lines = store.file.iter().filter(|b| **b == b'\n').count();
    assert_eq!(lines, 2);
    let meta = store.db.locate("k").unwrap();
    assert!(meta.offset > 0);
    assert_eq!(meta.offset, first_len);
    assert_eq!(meta.offset + meta.len, store.file.len() as u64);
}

#[test]
fn hydration_gives_the_latest_state() {
    let mut store = Store::open(Vec::new());
    store.set("a", b"1");
    store.set("b", b"2");
    store.set("a", b"3");
    store.delete("b");
    let at_shutdown = store.db.locate("a");

    let reopened = Store::open(store.file.clone());
    assert_eq!(value_of(&reopened, "a"), Some("3".to_string()));
    assert_eq!(value_of(&reopened, "b"), None);
    assert_eq!(reopened.db.locate("a"), at_shutdown);
    assert_eq!(reopened.db.locate("b"), None);
}

#[test]
fn hydration_computes_offsets_and_lengths() {
    let first = "{\"key\":\"a\",\"value\":\"1\",\"timestamp\":5,\"is_tombstone\":false}\n";
    let second = "{\"key\":\"b\",\"value\":null,\"timestamp\":6,\"is_tombstone\":false}\n";
    let mut file = first.as_bytes().to_vec();
    file.extend_from_slice(second.as_bytes());
    let db = Db::new("f".to_string(), &file).unwrap();
    assert_eq!(db.storage_filename(), "f");
    assert_eq!(db.locate("a"), Some(ValueMetadata { offset: 0, len: first.len() as u64 }));
    assert_eq!(
        db.locate("b"),
        Some(ValueMetadata { offset: first.len() as u64, len: second.len() as u64 })
    );
}

#[test]
fn hydration_fails_on_a_line_that_is_no_record() {
    let file = b"{\"key\":\"a\",\"value\":\"1\",\"timestamp\":5,\"is_tombstone\":false}\nnot json\n";
    assert!(matches!(Db::new("f".to_string(), &file[..]), Err(DbError::Corruption)));
    let file = b"{\"key\":\"a\"}\n";
    assert!(matches!(Db::new("f".to_string(), &file[..]), Err(DbError::Corruption)));
    let file = b"\n";
    assert!(matches!(Db::rehydrate_index_from_disk(&file[..]), Err(DbError::Corruption)));
}

#[test]
fn hydration_of_an_empty_file_gives_an_empty_index() {
    let db = Db::new("f".to_string(), b"").unwrap();
    assert_eq!(db.locate("a"), None);
    assert!(db.compaction_plan().is_empty());
}

#[test]
fn tombstone_in_the_file_removes_the_key() {
    let file = b"{\"key\":\"a\",\"value\":\"1\",\"timestamp\":5,\"is_tombstone\":false}\n{\"key\":\"a\",\"value\":null,\"timestamp\":6,\"is_tombstone\":true}\n";
    let db = Db::new("f".to_string(), &file[..]).unwrap();
    assert_eq!(db.locate("a"), None);
}

#[test]
fn last_line_without_newline_is_no_record() {
    let line = "{\"key\":\"a\",\"value\":\"1\",\"timestamp\":5,\"is_tombstone\":false}";
    assert!(matches!(Db::new("f".to_string(), line.as_bytes()), Err(DbError::Corruption)));
    let mut file = line.as_bytes().to_vec();
    file.push(b'\n');
    file.extend_from_slice(line.as_bytes());
    assert!(matches!(Db::new("f".to_string(), &file), Err(DbError::Corruption)));
    file.push(b'\n');
    let db = Db::new("f".to_string(), &file).unwrap();
    let meta = db.locate("a").unwrap();
    assert_eq!(meta.offset + meta.len, file.len() as u64);
}

#[test]
fn retrieve_detects_short_and_damaged_reads() {
    let line = b"{\"key\":\"a\",\"value\":\"1\",\"timestamp\":5,\"is_tombstone\":false}\n";
    let meta = ValueMetadata { offset: 0, len: line.len() as u64 };
    let record = Db::retrieve(&meta, &line[..]).unwrap();
    assert_eq!(record.key, "a");
    assert_eq!(record.timestamp, 5);
    assert!(matches!(Db::retrieve(&meta, &line[..10]), Err(DbError::Corruption)));
    let wrong = ValueMetadata { offset: 0, len: 10 };
    assert!(matches!(Db::retrieve(&wrong, &line[..10]), Err(DbError::Corruption)));
    assert!(matches!(Db::retrieve(&ValueMetadata { offset: 0, len: 0 }, b""), Err(DbError::Corruption)));
}

#[test]
fn get_of_a_tombstone_is_a_miss() {
    let mut db = Db::new("f".to_string(), b"").unwrap();
    let line = b"{\"key\":\"a\",\"value\":null,\"timestamp\":5,\"is_tombstone\":true}\n";
    let record = FileRecord { key: "a".to_string(), value: None, timestamp: 5, is_tombstone: false };
    db.insert(record, 0, line.len() as u64);
    assert!(db.get("a", &line[..]).unwrap().is_none());
    assert!(db.get("zzz", &line[..]).unwrap().is_none());
}

#[test]
fn insert_of_a_tombstone_leaves_the_index() {
    let mut db = Db::new("f".to_string(), b"").unwrap();
    let live = FileRecord { key: "a".to_string(), value: Some("1".to_string()), timestamp: 5, is_tombstone: false };
    db.insert(live, 3, 9);
    let tombstone = FileRecord { key: "a".to_string(), value: None, timestamp: 5, is_tombstone: true };
    db.insert(tombstone, 12, 9);
    assert_eq!(db.locate("a"), Some(ValueMetadata { offset: 3, len: 9 }));
}

#[test]
fn set_stores_invalid_utf8_as_no_value() {
    let record = Db::set("k".to_string(), Bytes::from(vec![0xff, 0xfe]));
    assert_eq!(record.key, "k");
    assert_eq!(record.value, None);
    assert!(!record.is_tombstone);
    let record = Db::set("k".to_string(), Bytes::from("häh".to_string()));
    assert_eq!(record.value, Some("häh".to_string()));
}

#[test]
fn round_trip_of_values_with_special_characters() {
    let mut store = Store::open(Vec::new());
    let value = "line one\nline \"two\"\t\\ end \u{1F600} \r\n";
    store.set("key with \"quotes\"\n", value.as_bytes());
    assert_eq!(value_of(&store, "key with \"quotes\"\n"), Some(value.to_string()));
    let lines = store.file.iter().filter(|b| **b == b'\n').count();
    assert_eq!(lines, 1);
    let reopened = Store::open(store.file.clone());
    assert_eq!(value_of(&reopened, "key with \"quotes\"\n"), Some(value.to_string()));
}

#[test]
fn delete_appends_one_tombstone() {
    let mut store = Store::open(Vec::new());
    store.set("k", b"a");
    let before = store.file.len();
    let tombstone = store.db.delete("k".to_string()).unwrap();
    assert_eq!(tombstone.key, "k");
    assert_eq!(tombstone.value, None);
    assert!(tombstone.is_tombstone);
    assert_eq!(store.file.len(), before);
    assert!(store.db.delete("k".to_string()).is_none());
}

#[test]
fn compaction_plan_lists_every_live_record_once() {
    let mut store = Store::open(Vec::new());
    store.set("a", b"1");
    store.set("b", b"2");
    store.set("c", b"3");
    store.set("a", b"4");
    store.delete("b");
    let plan = store.db.compaction_plan();
    assert_eq!(plan.len(), 2);
    assert!(plan.contains(&store.db.locate("a").unwrap()));
    assert!(plan.contains(&store.db.locate("c").unwrap()));
}

#[test]
fn compaction_fails_without_changes_on_bad_input() {
    let mut store = Store::open(Vec::new());
    store.set("a", b"1");
    let before = store.db.locate("a");
    assert!(matches!(store.db.run_compaction(&Vec::new()), Err(DbError::Internal)));
    assert!(matches!(store.db.run_compaction(&vec![b"junk\n".to_vec()]), Err(DbError::Corruption)));
    assert_eq!(store.db.locate("a"), before);
}

#[test]
fn compaction_leaves_the_engine_until_it_is_installed() {
    let mut store = Store::open(Vec::new());
    store.set("a", b"1");
    store.set("a", b"22");
    let before = store.db.locate("a").unwrap();
    let stored = vec![store.read(&before).unwrap()];
    let made = store.db.run_compaction(&stored).unwrap();
    assert_eq!(store.db.locate("a"), Some(before));
    assert_eq!(made.as_bytes(), &stored[0][..]);
    store.file = made.as_bytes().to_vec();
    store.db.install(made);
    assert_eq!(store.db.locate("a"), Some(ValueMetadata { offset: 0, len: before.len }));
    assert_eq!(value_of(&store, "a"), Some("22".to_string()));
}

#[test]
fn compaction_keeps_every_live_value() {
    let mut store = Store::open(Vec::new());
    for i in 0..20u32 {
        store.set(&format!("key{}", i % 7), format!("value{}", i).as_bytes());
    }
    store.delete("key3");
    store.compact().unwrap();
    let lines = store.file.iter().filter(|b| **b == b'\n').count();
    assert_eq!(lines, 6);
    assert_eq!(value_of(&store, "key0"), Some("value14".to_string()));
    assert_eq!(value_of(&store, "key6"), Some("value13".to_string()));
    assert_eq!(value_of(&store, "key5"), Some("value19".to_string()));
    assert_eq!(value_of(&store, "key3"), None);
    let reopened = Store::open(store.file.clone());
    for i in 0..7u32 {
        let key = format!("key{}", i);
        assert_eq!(reopened.db.locate(&key), store.db.locate(&key));
    }
}

#[test]
fn many_writers_one_after_the_other() {
    let mut store = Store::open(Vec::new());
    let mut submitted: Vec<String> = Vec::new();
    for id in 0..100u32 {
        let value = format!("conn{}", id);
        store.set("k", value.as_bytes());
        submitted.push(value);
        let seen = value_of(&store, "k").unwrap();
        assert!(submitted.contains(&seen));
    }
    assert_eq!(value_of(&store, "k"), Some("conn99".to_string()));
}

#[test]
fn holder_opens_the_default_file() {
    let holder = DbHolder::new(b"").unwrap();
    assert_eq!(holder.db().storage_filename(), "store.dat");
    assert_eq!(holder.db.locate("a"), None);
}

#[test]
fn index_walks_keys_in_insertion_order() {
    let mut index = Index::new();
    assert!(index.is_empty());
    index.insert("a".to_string(), ValueMetadata { offset: 0, len: 1 });
    index.insert("b".to_string(), ValueMetadata { offset: 1, len: 2 });
    index.insert("a".to_string(), ValueMetadata { offset: 3, len: 4 });
    assert!(!index.is_empty());
    assert_eq!(
        index.places(),
        vec![ValueMetadata { offset: 3, len: 4 }, ValueMetadata { offset: 1, len: 2 }]
    );
    let copy = index.duplicate();
    assert_eq!(copy.places(), index.places());
    assert_eq!(copy.get("a"), index.get("a"));
    assert!(index.remove("a"));
    assert_eq!(copy.get("a"), Some(ValueMetadata { offset: 3, len: 4 }));
    assert!(!index.remove("a"));
    assert_eq!(index.get("a"), None);
    assert_eq!(index.get("b"), Some(ValueMetadata { offset: 1, len: 2 }));
    assert_eq!(index.places(), vec![ValueMetadata { offset: 1, len: 2 }]);
}

#[test]
fn retrieve_all_reads_every_part_or_fails() {
    let first = b"{\"key\":\"a\",\"value\":\"1\",\"timestamp\":5,\"is_tombstone\":false}\n".to_vec();
    let second = b"{\"key\":\"b\",\"value\":null,\"timestamp\":6,\"is_tombstone\":true}\n".to_vec();
    let plan = vec![
        ValueMetadata { offset: 0, len: first.len() as u64 },
        ValueMetadata { offset: first.len() as u64, len: second.len() as u64 },
    ];
    let records = Db::retrieve_all(&plan, &vec![first.clone(), second.clone()]).unwrap();
    assert_eq!(records.len(), 2);
    assert_eq!(records[0].key, "a");
    assert_eq!(records[1].key, "b");
    assert!(records[1].is_tombstone);
    assert!(matches!(Db::retrieve_all(&plan, &vec![first.clone()]), Err(DbError::Internal)));
    assert!(matches!(
        Db::retrieve_all(&plan, &vec![first, b"junk\n".to_vec()]),
        Err(DbError::Corruption)
    ));
    assert!(Db::retrieve_all(&Vec::new(), &Vec::new()).unwrap().is_empty());
}

#[test]
fn rewrite_lays_the_lines_out_from_the_start() {
    let mut db = Db::new("f".to_string(), b"").unwrap();
    let stale = FileRecord { key: "old".to_string(), value: Some("x".to_string()), timestamp: 1, is_tombstone: false };
    db.insert(stale, 900, 9);
    let records = vec![
        FileRecord { key: "a".to_string(), value: Some("1".to_string()), timestamp: 1, is_tombstone: false },
        FileRecord { key: "b".to_string(), value: None, timestamp: 2, is_tombstone: true },
        FileRecord { key: "c".to_string(), value: Some("3".to_string()), timestamp: 3, is_tombstone: false },
    ];
    let lines = vec!["first\n".to_string(), "second line\n".to_string(), "3\n".to_string()];
    let made = db.rewrite(records, &lines);
    assert_eq!(made.as_bytes(), b"first\nsecond line\n3\n");
    assert_eq!(db.locate("a"), None);
    db.install(made);
    assert_eq!(db.locate("a"), Some(ValueMetadata { offset: 0, len: 6 }));
    assert_eq!(db.locate("b"), None);
    assert_eq!(db.locate("c"), Some(ValueMetadata { offset: 18, len: 2 }));
    assert_eq!(db.locate("old"), Some(ValueMetadata { offset: 900, len: 9 }));
}

#[test]
fn set_and_delete_at_a_time_record_that_time() {
    let record = Db::set_at("k".to_string(), Bytes::from("v".to_string()), 1700000123);
    assert_eq!(record.key, "k");
    assert_eq!(record.value, Some("v".to_string()));
    assert_eq!(record.timestamp, 1700000123);
    assert!(!record.is_tombstone);
    let mut db = Db::new("f".to_string(), b"").unwrap();
    assert!(db.delete_at("k".to_string(), 5).is_none());
    db.insert(record, 0, 10);
    let tombstone = db.delete_at("k".to_string(), 1700000124).unwrap();
    assert_eq!(tombstone.key, "k");
    assert_eq!(tombstone.value, None);
    assert_eq!(tombstone.timestamp, 1700000124);
    assert!(tombstone.is_tombstone);
    assert_eq!(db.locate("k"), None);
    let now = Db::set("k".to_string(), Bytes::from("v".to_string()));
    assert!(now.timestamp > 1_600_000_000);
}

#[test]
fn compaction_of_the_literal_scenario() {
    let line = |key: &str, value: &str, dead: bool| {
        format!(
            "{{\"key\":\"{}\",\"value\":{},\"timestamp\":0,\"is_tombstone\":{}}}\n",
            key, value, dead
        )
    };
    let mut file = Vec::new();
    file.extend_from_slice(line("a", "\"1\"", false).as_bytes());
    file.extend_from_slice(line("b", "\"2\"", false).as_bytes());
    file.extend_from_slice(line("a", "\"3\"", false).as_bytes());
    file.extend_from_slice(line("b", "null", true).as_bytes());
    let mut store = Store::open(file);
    store.compact().unwrap();
    assert_eq!(store.file, line("a", "\"3\"", false).as_bytes().to_vec());
    assert_eq!(
        store.db.locate("a"),
        Some(ValueMetadata { offset: 0, len: store.file.len() as u64 })
    );
    assert_eq!(store.db.locate("b"), None);
    assert_eq!(value_of(&store, "a"), Some("3".to_string()));
}
