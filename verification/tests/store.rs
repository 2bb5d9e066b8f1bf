use serde_json::Value;
use std::collections::HashMap;
use std::io::BufRead;
use wal_store::decimal::parse_version;
use wal_store::disk::DiskOp;
use wal_store::engine::DbOptions;
use wal_store::error::Error;

/// The files of one directory, held in memory.
#[derive(Default)]
struct Files {
    pointer: Option<Vec<u8>>,
    staged: Option<Vec<u8>>,
    snapshots: HashMap<u64, Vec<u8>>,
    logs: HashMap<u64, Vec<u8>>,
    open: Option<u64>,
}

impl Files {
    fn perform(&mut self, ops: Vec<DiskOp>) {
        for op in ops {
            match op {
                DiskOp::WriteSnapshot { version, text } => {
                    self.snapshots.insert(version, text);
                }
                DiskOp::FinishLog => {
                    self.open = None;
                }
                DiskOp::CreateLog { version } => {
                    self.logs.insert(version, Vec::new());
                    self.open = Some(version);
                }
                DiskOp::OpenLog { version } => {
                    self.logs.entry(version).or_default();
                    self.open = Some(version);
                }
                DiskOp::StagePointer { text } => {
                    self.staged = Some(text);
                }
                DiskOp::PublishPointer => {
                    self.pointer = Some(self.staged.take().unwrap());
                }
                DiskOp::Append { text } => {
                    let version = self.open.unwrap();
                    self.logs.get_mut(&version).unwrap().extend_from_slice(&text);
                }
            }
        }
    }

    fn open(&mut self) -> Result<DbOptions, Error> {
        let pointer = self.pointer.clone();
        let version = pointer.as_deref().and_then(parse_version);
        let snapshot = version.and_then(|version| self.snapshots.get(&version).cloned());
        let log = version.and_then(|version| self.logs.get(&version).cloned());
        let (db, ops) = DbOptions::init("/tmp/db".to_string(), true, pointer, snapshot, log)?;
        self.perform(ops);
        Ok(db)
    }

    fn open_without_steps(&self) -> Result<DbOptions, Error> {
        let pointer = self.pointer.clone();
        let version = pointer.as_deref().and_then(parse_version);
        let snapshot = version.and_then(|version| self.snapshots.get(&version).cloned());
        let log = version.and_then(|version| self.logs.get(&version).cloned());
        DbOptions::init("/tmp/db".to_string(), true, pointer, snapshot, log).map(|(db, _)| db)
    }

    fn upsert(&mut self, db: &mut DbOptions, key: &str, value: Value) {
        let ops = db.plan_upsert(key, &value).unwrap();
        self.perform(ops);
        db.upsert(key, value).unwrap();
    }

    fn close(&mut self, db: &mut DbOptions) {
        let ops = db.close();
        self.perform(ops);
    }
}

fn new_db() -> (Files, DbOptions) {
    let mut dir = Files::default();
    let db = dir.open().ok().unwrap();
    (dir, db)
}

fn text(value: &str) -> Value {
    Value::String(value.to_string())
}

#[test]
fn can_upsert_and_get_back() {
    let (mut dir, mut db) = new_db();
    let k = "Key";
    let v = text("Value");
    dir.upsert(&mut db, k, v.clone());
    let v_act = db.get(k);
    assert_eq!(v_act, Some(v));
}

#[test]
fn returns_none_when_not_inserted() {
    let (_dir, db) = new_db();
    let k = "Key";
    let v = db.get(k);
    assert_eq!(v, None);
}

#[test]
fn upsert_overwrites_when_repeated() {
    let (mut dir, mut db) = new_db();
    let k = "Key";
    let v = text("Value");
    let v2 = text("Other");
    dir.upsert(&mut db, k, v.clone());
    dir.upsert(&mut db, k, v2.clone());
    let v_act = db.get(k);
    assert_eq!(v_act, Some(v2));
}

#[test]
fn inits_from_file() {
    let mut dir = Files::default();
    let k = "Key";
    let v = text("Value");
    let k2 = "Other Key";
    let v2 = text("Other Value");

    {
        let mut db1 = dir.open().ok().unwrap();
        dir.upsert(&mut db1, k, v.clone());
        dir.upsert(&mut db1, k2, v2.clone());
    }

    let db2 = dir.open().ok().unwrap();
    let v_act = db2.get(k);
    let v2_act = db2.get(k2);
    assert_eq!(v_act, Some(v));
    assert_eq!(v2_act, Some(v2));
}

#[test]
fn version_in_memory_after_100_writes() {
    let (mut dir, mut db) = new_db();

    let v = text("Value");
    for k in 1..120 {
        dir.upsert(&mut db, format!("{}", k).as_ref(), v.clone());
    }
    let version = db.version();
    assert_eq!(version, 1);
}

#[test]
fn version_on_disk_after_100_writes() {
    let (mut dir, mut db) = new_db();

    let v = text("Value");
    for k in 1..120 {
        dir.upsert(&mut db, format!("{}", k).as_ref(), v.clone());
    }
    let version_on_disk = parse_version(dir.pointer.as_deref().unwrap());
    assert_eq!(version_on_disk, Some(1));
}

#[test]
fn log_file_length_after_120_writes() {
    let (mut dir, mut db) = new_db();

    let v = text("Value");
    for k in 1..120 {
        dir.upsert(&mut db, format!("{}", k).as_ref(), v.clone());
    }
    {
        dir.close(&mut db);
    }
    let version = db.version();
    let log_reader = &dir.logs[&version][..];
    assert_eq!(version, 1);
    assert_eq!(log_reader.lines().count(), 19);
    assert_eq!(db.log_length(), 19);
}

#[test]
fn recover_after_100_writes() {
    let mut dir = Files::default();
    let v = text("Value");
    {
        let mut db1 = dir.open().ok().unwrap();
        for k in 1..120 {
            dir.upsert(&mut db1, format!("{}", k).as_ref(), v.clone());
        }
    }
    let db2 = dir.open().ok().unwrap();
    let expected = Some(v.clone());
    for k in 1..120 {
        let actual = db2.get(format!("{}", k).as_ref());
        assert_eq!(actual, expected);
    }
    assert_eq!(db2.version(), 1);
    assert_eq!(db2.log_length(), 19);
}

fn opened_with(
    is_directory: bool,
    pointer: Option<&str>,
    snapshot: Option<&str>,
    log: Option<&str>,
) -> Result<(DbOptions, Vec<DiskOp>), Error> {
    DbOptions::init(
        "dir".to_string(),
        is_directory,
        pointer.map(|text| text.as_bytes().to_vec()),
        snapshot.map(|text| text.as_bytes().to_vec()),
        log.map(|text| text.as_bytes().to_vec()),
    )
}

fn failure(result: Result<(DbOptions, Vec<DiskOp>), Error>) -> Option<Error> {
    result.err()
}

#[test]
fn a_path_that_is_no_directory_is_invalid() {
    assert_eq!(failure(opened_with(false, None, None, None)), Some(Error::InvalidPath));
    assert_eq!(failure(opened_with(false, Some("0"), Some("{}"), Some(""))), Some(Error::InvalidPath));
}

#[test]
fn a_fresh_directory_is_set_up_in_order() {
    let (db, ops) = opened_with(true, None, None, None).ok().unwrap();
    assert_eq!(
        ops,
        vec![
            DiskOp::WriteSnapshot { version: 0, text: b"{}".to_vec() },
            DiskOp::StagePointer { text: b"0".to_vec() },
            DiskOp::PublishPointer,
            DiskOp::CreateLog { version: 0 },
        ]
    );
    assert_eq!(db.version(), 0);
    assert_eq!(db.log_length(), 0);
    assert_eq!(db.directory(), "dir");
    assert_eq!(db.get("Key"), None);
}

#[test]
fn stale_files_without_a_pointer_are_not_read() {
    let (db, _) = opened_with(true, None, Some("{\"a\":1}"), Some("garbage")).ok().unwrap();
    assert_eq!(db.get("a"), None);
    assert_eq!(db.version(), 0);
}

#[test]
fn recovery_fails_on_what_cannot_be_read() {
    let line = "{\"key\":\"a\",\"value\":1}\n";
    assert_eq!(failure(opened_with(true, Some("x"), Some("{}"), Some(line))), Some(Error::Recovery));
    assert_eq!(failure(opened_with(true, Some(""), Some("{}"), Some(line))), Some(Error::Recovery));
    assert_eq!(failure(opened_with(true, Some("3\n"), Some("{}"), Some(line))), Some(Error::Recovery));
    assert_eq!(failure(opened_with(true, Some("3"), None, Some(line))), Some(Error::Recovery));
    assert_eq!(failure(opened_with(true, Some("3"), Some("{}"), None)), Some(Error::Recovery));
    assert_eq!(failure(opened_with(true, Some("3"), Some("[]"), Some(line))), Some(Error::Recovery));
    assert_eq!(failure(opened_with(true, Some("3"), Some("{\"a\":"), Some(line))), Some(Error::Recovery));
    assert_eq!(failure(opened_with(true, Some("3"), Some(""), Some(line))), Some(Error::Recovery));
    assert_eq!(failure(opened_with(true, Some("3"), Some("{}"), Some("{\"key\":\"a\",\"val"))), Some(Error::Recovery));
    assert_eq!(failure(opened_with(true, Some("3"), Some("{}"), Some("{\"key\":1,\"value\":1}\n"))), Some(Error::Recovery));
    assert_eq!(failure(opened_with(true, Some("3"), Some("{}"), Some("{\"key\":\"a\"}\n"))), Some(Error::Recovery));
    assert_eq!(failure(opened_with(true, Some("3"), Some("{}"), Some("[\"a\",1]\n"))), Some(Error::Recovery));
    assert_eq!(failure(opened_with(true, Some("3"), Some("{}"), Some(&format!("{}\n{}", line, line)))), Some(Error::Recovery));
}

#[test]
fn recovery_writes_the_log_over_the_snapshot() {
    let snapshot = "{\"a\":1,\"b\":\"old\"}";
    let log = "{\"key\":\"b\",\"value\":\"new\"}\n{\"key\":\"c\",\"value\":[true,null]}\n{\"key\":\"b\",\"value\":\"newest\"}\n";
    let (db, ops) = opened_with(true, Some("7"), Some(snapshot), Some(log)).ok().unwrap();
    assert_eq!(ops, vec![DiskOp::OpenLog { version: 7 }]);
    assert_eq!(db.version(), 7);
    assert_eq!(db.log_length(), 3);
    assert_eq!(db.get("a"), Some(Value::from(1)));
    assert_eq!(db.get("b"), Some(text("newest")));
    assert_eq!(db.get("c"), Some(Value::Array(vec![Value::Bool(true), Value::Null])));
    assert_eq!(db.get("d"), None);
}

#[test]
fn recovery_counts_every_line_of_the_log() {
    let line = "{\"key\":\"a\",\"value\":1}";
    let (db, _) = opened_with(true, Some("0"), Some("{}"), Some("")).ok().unwrap();
    assert_eq!(db.log_length(), 0);
    let (db, _) = opened_with(true, Some("0"), Some("{}"), Some(line)).ok().unwrap();
    assert_eq!(db.log_length(), 1);
    let (db, _) = opened_with(true, Some("0"), Some("{}"), Some(&format!("{}\r\n{}\n", line, line))).ok().unwrap();
    assert_eq!(db.log_length(), 2);
}

#[test]
fn restore_writes_records_over_the_base() {
    let base = vec![("a".to_string(), Value::from(1)), ("b".to_string(), Value::from(2))];
    let records = vec![("b".to_string(), Value::from(3)), ("c".to_string(), Value::from(4)), ("b".to_string(), Value::from(5))];
    let db = DbOptions::restore("dir".to_string(), 9, base, records);
    assert_eq!(db.version(), 9);
    assert_eq!(db.log_length(), 3);
    assert_eq!(db.directory(), "dir");
    assert_eq!(db.get("a"), Some(Value::from(1)));
    assert_eq!(db.get("b"), Some(Value::from(5)));
    assert_eq!(db.get("c"), Some(Value::from(4)));
}

#[test]
fn a_write_appends_one_line() {
    let (_, mut db) = new_db();
    assert!(db.plan_upsert("Key", &text("Value")).is_ok());
    let ops = db.plan_upsert("Key", &text("Value")).unwrap();
    assert_eq!(ops, vec![DiskOp::Append { text: b"{\"key\":\"Key\",\"value\":\"Value\"}\n".to_vec() }]);
    assert_eq!(db.get("Key"), None);
    assert_eq!(db.log_length(), 0);
    assert_eq!(db.upsert("Key", text("Value")), Ok(()));
    assert_eq!(db.get("Key"), Some(text("Value")));
    assert_eq!(db.log_length(), 1);
    assert_eq!(db.version(), 0);
}

#[test]
fn a_full_log_is_rotated_in_order() {
    let log = "{\"key\":\"b\",\"value\":2}\n".repeat(100);
    let (mut db, _) = opened_with(true, Some("4"), Some("{\"a\":1}"), Some(&log)).ok().unwrap();
    assert_eq!(db.log_length(), 100);
    let ops = db.plan_upsert("c", &Value::from(3)).unwrap();
    assert_eq!(
        ops,
        vec![
            DiskOp::WriteSnapshot { version: 5, text: b"{\"a\":1,\"b\":2}".to_vec() },
            DiskOp::FinishLog,
            DiskOp::CreateLog { version: 5 },
            DiskOp::StagePointer { text: b"5".to_vec() },
            DiskOp::PublishPointer,
            DiskOp::Append { text: b"{\"key\":\"c\",\"value\":3}\n".to_vec() },
        ]
    );
    assert_eq!(db.upsert("c", Value::from(3)), Ok(()));
    assert_eq!(db.version(), 5);
    assert_eq!(db.log_length(), 1);
}

#[test]
fn the_log_is_rotated_at_the_threshold_and_not_before() {
    let (mut dir, mut db) = new_db();
    for k in 0..100 {
        dir.upsert(&mut db, &format!("{}", k), Value::from(k));
    }
    assert_eq!(db.version(), 0);
    assert_eq!(db.log_length(), 100);
    assert_eq!(parse_version(dir.pointer.as_deref().unwrap()), Some(0));
    dir.upsert(&mut db, "100", Value::from(100));
    assert_eq!(db.version(), 1);
    assert_eq!(db.log_length(), 1);
    assert_eq!(parse_version(dir.pointer.as_deref().unwrap()), Some(1));
    assert_eq!(dir.staged, None);
    assert_eq!(dir.logs[&0].lines().count(), 100);
    assert_eq!(dir.logs[&1].lines().count(), 1);
    assert_eq!(dir.open, Some(1));
}

#[test]
fn the_pointer_on_disk_is_the_version_in_memory_after_every_write() {
    let (mut dir, mut db) = new_db();
    for k in 0..450 {
        dir.upsert(&mut db, &format!("{}", k % 37), Value::from(k));
        assert_eq!(parse_version(dir.pointer.as_deref().unwrap()), Some(db.version()));
        assert_eq!(dir.logs[&db.version()].lines().count() as u64, db.log_length());
    }
    assert_eq!(db.version(), 4);
    assert_eq!(db.log_length(), 50);
}

#[test]
fn a_write_fails_when_no_version_is_left() {
    let log = "{\"key\":\"b\",\"value\":2}\n".repeat(100);
    let (mut db, _) = opened_with(true, Some("18446744073709551615"), Some("{}"), Some(&log)).ok().unwrap();
    assert_eq!(db.version(), u64::MAX);
    assert_eq!(db.plan_upsert("c", &Value::from(3)), Err(Error::Write));
    assert_eq!(db.upsert("c", Value::from(3)), Err(Error::Write));
    assert_eq!(db.get("c"), None);
    assert_eq!(db.version(), u64::MAX);
    assert_eq!(db.log_length(), 100);
}

#[test]
fn closing_finishes_the_log_and_keeps_the_store() {
    let (mut dir, mut db) = new_db();
    dir.upsert(&mut db, "Key", text("Value"));
    assert_eq!(db.close(), vec![DiskOp::FinishLog]);
    assert_eq!(db.get("Key"), Some(text("Value")));
    assert_eq!(db.log_length(), 1);
}

#[test]
fn a_reopened_log_is_continued() {
    let mut dir = Files::default();
    {
        let mut db = dir.open().ok().unwrap();
        for k in 0..60 {
            dir.upsert(&mut db, &format!("{}", k), Value::from(k));
        }
        dir.close(&mut db);
    }
    let mut db = dir.open().ok().unwrap();
    assert_eq!(db.log_length(), 60);
    for k in 60..110 {
        dir.upsert(&mut db, &format!("{}", k), Value::from(k));
    }
    assert_eq!(db.version(), 1);
    assert_eq!(db.log_length(), 10);
    let again = dir.open().ok().unwrap();
    for k in 0..110 {
        assert_eq!(again.get(&format!("{}", k)), Some(Value::from(k)));
    }
}

fn sample(seed: &mut u64) -> u64 {
    *seed = seed.wrapping_mul(6364136223846793005).wrapping_add(1442695040888963407);
    *seed >> 33
}

fn sample_value(seed: &mut u64, depth: u32) -> Value {
    match sample(seed) % if depth == 0 { 5 } else { 7 } {
        0 => Value::Null,
        1 => Value::Bool(sample(seed) % 2 == 0),
        2 => Value::from(sample(seed)),
        3 => Value::from(-(sample(seed) as i64)),
        4 => Value::from(format!("text \"{}\"\n\\ \u{e9}\u{1F600}", sample(seed))),
        5 => Value::Array((0..sample(seed) % 4).map(|_| sample_value(seed, depth - 1)).collect()),
        _ => Value::Object(
            (0..sample(seed) % 4)
                .map(|_| (format!("field {}", sample(seed) % 5), sample_value(seed, depth - 1)))
                .collect(),
        ),
    }
}

#[test]
fn a_fresh_recovery_gives_what_the_live_store_holds() {
    let mut seed: u64 = 0x2545F4914F6CDD1D;
    for round in 0..6 {
        let mut dir = Files::default();
        let mut db = dir.open().ok().unwrap();
        let writes = 40 + 90 * round;
        let mut keys = Vec::new();
        for _ in 0..writes {
            let key = format!("key \"{}\"\n", sample(&mut seed) % 50);
            let value = sample_value(&mut seed, 3);
            dir.upsert(&mut db, &key, value);
            keys.push(key);
            if sample(&mut seed) % 97 == 0 {
                let recovered = dir.open().ok().unwrap();
                assert_eq!(recovered.version(), db.version());
                assert_eq!(recovered.log_length(), db.log_length());
                for key in &keys {
                    assert_eq!(recovered.get(key), db.get(key));
                }
            }
        }
        let recovered = dir.open().ok().unwrap();
        assert_eq!(recovered.version(), db.version());
        assert_eq!(recovered.log_length(), db.log_length());
        for key in &keys {
            assert_eq!(recovered.get(key), db.get(key));
            assert!(db.get(key).is_some());
        }
        assert_eq!(recovered.get("never written"), None);
    }
}

#[test]
fn a_crash_between_steps_loses_at_most_the_write() {
    let mut dir = Files::default();
    let mut db = dir.open().ok().unwrap();
    for k in 0..100 {
        dir.upsert(&mut db, &format!("{}", k), Value::from(k));
    }
    let ops = db.plan_upsert("last", &text("write")).unwrap();
    assert_eq!(ops.len(), 6);
    let steps = ops.len();
    for (done, op) in ops.into_iter().enumerate() {
        let found = dir.open_without_steps().ok().unwrap();
        for k in 0..100 {
            assert_eq!(found.get(&format!("{}", k)), Some(Value::from(k)), "after {} steps", done);
        }
        assert_eq!(found.get("last"), None, "after {} of {} steps", done, steps);
        dir.perform(vec![op]);
    }
    let found = dir.open_without_steps().ok().unwrap();
    assert_eq!(found.get("last"), Some(text("write")));
    assert_eq!(found.version(), 1);
    assert_eq!(found.log_length(), 1);
}

#[test]
fn a_float_may_come_back_changed() {
    let written = Value::from(6.100029174392375e177_f64);
    let mut dir = Files::default();
    let mut db = dir.open().ok().unwrap();
    dir.upsert(&mut db, "x", written.clone());
    dir.upsert(&mut db, "y", Value::from(0.5_f64));
    assert_eq!(db.get("x"), Some(written.clone()));
    let recovered = dir.open().ok().unwrap();
    assert_eq!(recovered.get("y"), Some(Value::from(0.5_f64)));
    assert_eq!(recovered.get("x"), Some(Value::from(6.1000291743923745e177_f64)));
    assert_ne!(recovered.get("x"), Some(written));
}
