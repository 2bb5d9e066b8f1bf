//! The store: its state in memory, and for each operation the steps that it
//! asks of the disk.

use crate::codec::{
    decode_snapshot, entry_texts, frame_snapshot, json_text, key_text, pair_views,
    read_record, record_line, record_of, record_text, snapshot_of, snapshot_text,
};
use crate::decimal::{decimal, format_version, parse_version, parsed_version};
use crate::disk::{op_views, DiskOp, Op};
use crate::error::Error;
use crate::lines::{line_views, lines, single_line, split_lines, NEWLINE};
use crate::table::{written, Index, Table};
use vstd::prelude::*;

verus! {

/// The number of records at which a log is full: the write that finds this
/// many records in the log starts a new version.
pub const MAX_LOG_LENGTH: u64 = 100;

/// What a store holds in memory, each value taken by its text.
#[verifier::ext_equal]
pub struct State {
    /// Every key with the text of its value.
    pub table: Table,
    /// The current version.
    pub version: u64,
    /// The number of records in the log of the current version.
    pub log_length: u64,
}

impl State {
    /// The state of a store in a directory that held no version pointer.
    pub open spec fn fresh() -> State {
        State { table: Table::empty(), version: 0, log_length: 0 }
    }

    /// Whether the next write starts a new version.
    pub open spec fn rotates(self) -> bool {
        self.log_length >= MAX_LOG_LENGTH
    }

    /// Whether the next write would start a new version and no version is left.
    pub open spec fn exhausted(self) -> bool {
        self.rotates() && self.version == u64::MAX
    }

    /// The version in which the next write is logged.
    pub open spec fn next_version(self) -> u64 {
        if self.rotates() {
            (self.version + 1) as u64
        } else {
            self.version
        }
    }

    /// The state after a rotation alone: the next version, with an empty log.
    pub open spec fn rotated(self) -> State {
        State { version: (self.version + 1) as u64, log_length: 0, ..self }
    }

    /// The state after `key` has been written with a value of text `text`.
    pub open spec fn upsert(self, key: Seq<char>, text: Seq<u8>) -> State {
        if self.exhausted() {
            self
        } else {
            State {
                table: self.table.put(key, text),
                version: self.next_version(),
                log_length: if self.rotates() {
                    1
                } else {
                    (self.log_length + 1) as u64
                },
            }
        }
    }

    /// The steps that start the next version: the snapshot of the index has
    /// to be on the disk and the new log has to exist before the pointer
    /// moves, and the pointer moves by one rename.
    pub open spec fn rotation_plan(self) -> Seq<Op> {
        let version = (self.version + 1) as u64;
        seq![
            Op::WriteSnapshot { version, text: snapshot_text(self.table.encoded()) },
            Op::FinishLog,
            Op::CreateLog { version },
            Op::StagePointer { text: decimal(version as nat) },
            Op::PublishPointer,
        ]
    }

    /// The line that logs a write of `key` with a value of text `text`.
    pub open spec fn record(key: Seq<char>, text: Seq<u8>) -> Seq<u8> {
        record_text(key_text(key), text)
    }

    /// The steps that make a write of `key` durable: a rotation where the log
    /// is full, then the record, ended by a newline, at the end of the log.
    pub open spec fn upsert_plan(self, key: Seq<char>, text: Seq<u8>) -> Seq<Op> {
        let append = seq![Op::Append { text: Self::record(key, text).push(NEWLINE) }];
        if self.rotates() {
            self.rotation_plan() + append
        } else {
            append
        }
    }
}

/// The value that a store with the values `values` gives for `key`.
pub open spec fn lookup(values: Map<Seq<char>, serde_json::Value>, key: Seq<char>) -> Option<
    serde_json::Value,
> {
    if values.contains_key(key) {
        Some(values[key])
    } else {
        None
    }
}

/// The records that the lines of a log hold, or nothing where one of the
/// lines is no record.
pub open spec fn records_of(lines: Seq<Seq<u8>>) -> Option<Seq<(Seq<char>, Seq<u8>)>>
    decreases lines.len(),
{
    if lines.len() == 0 {
        Some(Seq::empty())
    } else {
        match (records_of(lines.drop_last()), record_of(lines.last())) {
            (Some(records), Some(record)) => Some(records.push(record)),
            _ => None,
        }
    }
}

/// The state that a version pointer, the snapshot and the log of the version
/// that it names stand for: the snapshot with every record of the log
/// written over it, in order. Nothing where the pointer names no version, a
/// file is missing, or the snapshot or a line of the log cannot be read.
pub open spec fn recovered(
    pointer: Seq<u8>,
    snapshot: Option<Seq<u8>>,
    log: Option<Seq<u8>>,
) -> Option<State> {
    match (parsed_version(pointer), snapshot, log) {
        (Some(version), Some(snapshot), Some(log)) => match (
            snapshot_of(snapshot),
            records_of(lines(log)),
        ) {
            (Some(base), Some(records)) => Some(
                State {
                    table: Table::empty().put_all(base).put_all(records),
                    version,
                    log_length: lines(log).len() as u64,
                },
            ),
            _ => None,
        },
        _ => None,
    }
}

/// The content of a file that may be missing.
pub open spec fn content(file: Option<Vec<u8>>) -> Option<Seq<u8>> {
    match file {
        Some(bytes) => Some(bytes@),
        None => None,
    }
}

/// What opening a directory gives: an error where the path is no directory,
/// the fresh state where it holds no version pointer, and else what its
/// files stand for.
pub open spec fn opened(
    is_directory: bool,
    pointer: Option<Seq<u8>>,
    snapshot: Option<Seq<u8>>,
    log: Option<Seq<u8>>,
) -> Result<State, Error> {
    if !is_directory {
        Err(Error::InvalidPath)
    } else {
        match pointer {
            None => Ok(State::fresh()),
            Some(pointer) => match recovered(pointer, snapshot, log) {
                Some(state) => Ok(state),
                None => Err(Error::Recovery),
            },
        }
    }
}

/// The steps that set up a directory without a version pointer: the empty
/// snapshot of version 0, the pointer to version 0, and the empty log.
pub open spec fn fresh_plan() -> Seq<Op> {
    seq![
        Op::WriteSnapshot { version: 0, text: snapshot_text(Seq::empty()) },
        Op::StagePointer { text: decimal(0) },
        Op::PublishPointer,
        Op::CreateLog { version: 0 },
    ]
}

/// The steps with which opening a directory ends: those that set up a fresh
/// one, or the reopening of the log of the version found.
pub open spec fn opening_plan(pointer: Option<Seq<u8>>, state: State) -> Seq<Op> {
    match pointer {
        None => fresh_plan(),
        Some(_) => seq![Op::OpenLog { version: state.version }],
    }
}

/// Reads the record of every line, or nothing where one of the lines is no
/// record.
fn read_records(lines: &Vec<Vec<u8>>) -> (records: Option<Vec<(String, serde_json::Value)>>)
    ensures
        match records {
            Some(found) => records_of(line_views(lines@)) == Some(entry_texts(found@)),
            None => records_of(line_views(lines@)) is None,
        },
{
    let ghost all = line_views(lines@);
    let mut found: Vec<(String, serde_json::Value)> = Vec::new();
    let mut i: usize = 0;
    assert(all.take(0) =~= Seq::<Seq<u8>>::empty());
    assert(entry_texts(found@) =~= Seq::<(Seq<char>, Seq<u8>)>::empty());
    while i < lines.len()
        invariant
            i <= lines.len(),
            all == line_views(lines@),
            records_of(all.take(i as int)) == Some(entry_texts(found@)),
        decreases lines.len() - i,
    {
        let ghost done = all.take(i as int);
        let ghost next = all.take(i + 1);
        assert(next.drop_last() =~= done);
        assert(next.last() == lines@[i as int]@);
        match read_record(lines[i].as_slice()) {
            Some(record) => {
                let ghost before = entry_texts(found@);
                found.push(record);
                assert(entry_texts(found@) =~= before.push((record.0@, json_text(record.1))));
            },
            None => {
                proof {
                    lemma_records_need_every_line(all, i as int);
                }
                return None;
            },
        }
        i += 1;
    }
    assert(all.take(i as int) =~= all);
    Some(found)
}

/// Where one line is no record, the lines hold no records.
proof fn lemma_records_need_every_line(lines: Seq<Seq<u8>>, i: int)
    requires
        0 <= i < lines.len(),
        record_of(lines[i]) is None,
    ensures
        records_of(lines) is None,
    decreases lines.len(),
{
    if i < lines.len() - 1 {
        lemma_records_need_every_line(lines.drop_last(), i);
    }
}

/// A store: the index in memory, the directory that holds its files, the
/// current version, and the number of records in the log of that version.
pub struct DbOptions {
    db: Index,
    directory: String,
    version: u64,
    log_length: u64,
}

impl View for DbOptions {
    type V = State;

    closed spec fn view(&self) -> State {
        State { table: self.db.table(), version: self.version, log_length: self.log_length }
    }
}

impl DbOptions {
    /// The value of each key.
    pub closed spec fn values(&self) -> Map<Seq<char>, serde_json::Value> {
        self.db.values()
    }

    /// The path of the directory that holds the files of the store.
    pub closed spec fn location(&self) -> Seq<char> {
        self.directory@
    }

    /// The table of a store holds the text of each of its values.
    pub proof fn lemma_table_of_values(&self)
        ensures
            self@.table.texts == self.values().map_values(|value: serde_json::Value| json_text(value)),
    {
    }

    /// Builds the store of `directory` at `version` from what its snapshot
    /// and its log hold: the entries of `base` with the entries of `records`
    /// written over them, in order.
    pub fn restore(
        directory: String,
        version: u64,
        base: Vec<(String, serde_json::Value)>,
        records: Vec<(String, serde_json::Value)>,
    ) -> (store: Self)
        ensures
            store.values() == written(written(Map::empty(), base@), records@),
            store@ == (State {
                table: Table::empty().put_all(entry_texts(base@)).put_all(entry_texts(records@)),
                version,
                log_length: records@.len() as u64,
            }),
            store.location() == directory@,
    {
        let log_length = records.len() as u64;
        let mut db = Index::new();
        db.insert_all(base);
        db.insert_all(records);
        DbOptions { db, directory, version, log_length }
    }

    /// Opens the store of `directory`, given what the caller found there:
    /// whether the path is a directory, the content of the version pointer if
    /// there is one, and the content of the snapshot and of the log of the
    /// version that the pointer names, as far as they could be read.
    ///
    /// Returns the store and the steps that make the directory ready for
    /// writes, or the reason why the directory cannot be opened.
    pub fn init(
        directory: String,
        is_directory: bool,
        pointer: Option<Vec<u8>>,
        snapshot: Option<Vec<u8>>,
        log: Option<Vec<u8>>,
    ) -> (result: Result<(DbOptions, Vec<DiskOp>), Error>)
        ensures
            match result {
                Ok((store, ops)) => {
                    &&& opened(is_directory, content(pointer), content(snapshot), content(log))
                        == Ok::<State, Error>(store@)
                    &&& op_views(ops@) == opening_plan(content(pointer), store@)
                    &&& store.location() == directory@
                    &&& pointer is None ==> store.values() == Map::<Seq<char>, serde_json::Value>::empty()
                },
                Err(error) => opened(is_directory, content(pointer), content(snapshot), content(log))
                    == Err::<State, Error>(error),
            },
    {
        if !is_directory {
            return Err(Error::InvalidPath);
        }
        let pointer = match pointer {
            Some(pointer) => pointer,
            None => {
                let entries: Vec<(Vec<u8>, Vec<u8>)> = Vec::new();
                let ops = vec![
                    DiskOp::WriteSnapshot { version: 0, text: frame_snapshot(&entries) },
                    DiskOp::StagePointer { text: format_version(0) },
                    DiskOp::PublishPointer,
                    DiskOp::CreateLog { version: 0 },
                ];
                let store = DbOptions { db: Index::new(), directory, version: 0, log_length: 0 };
                proof {
                    assert(pair_views(entries@) =~= Seq::<(Seq<u8>, Seq<u8>)>::empty());
                    assert(op_views(ops@) =~= fresh_plan());
                }
                return Ok((store, ops));
            },
        };
        let version = match parse_version(pointer.as_slice()) {
            Some(version) => version,
            None => { return Err(Error::Recovery); },
        };
        let snapshot = match snapshot {
            Some(snapshot) => snapshot,
            None => { return Err(Error::Recovery); },
        };
        let log = match log {
            Some(log) => log,
            None => { return Err(Error::Recovery); },
        };
        let base = match decode_snapshot(snapshot.as_slice()) {
            Some(base) => base,
            None => { return Err(Error::Recovery); },
        };
        let lines = split_lines(log.as_slice());
        let records = match read_records(&lines) {
            Some(records) => records,
            None => { return Err(Error::Recovery); },
        };
        assert(records@.len() == lines@.len()) by {
            assert(entry_texts(records@).len() == records@.len());
            lemma_records_count(line_views(lines@));
        }
        let store = DbOptions::restore(directory, version, base, records);
        let ops = vec![DiskOp::OpenLog { version }];
        proof {
            assert(op_views(ops@) =~= seq![Op::OpenLog { version }]);
        }
        Ok((store, ops))
    }

    /// A copy of the value of `key`, if the key has been written.
    pub fn get(&self, key: &str) -> (value: Option<serde_json::Value>)
        ensures
            value == lookup(self.values(), key@),
    {
        match self.db.get(key) {
            Some(found) => Some(found.clone()),
            None => None,
        }
    }

    /// The steps that make a write of `value` under `key` durable. Once they
    /// have been performed, `upsert` with the same key and value brings the
    /// store in line with the disk.
    ///
    /// Fails only where a rotation is due and no version is left for it.
    pub fn plan_upsert(&self, key: &str, value: &serde_json::Value) -> (result: Result<
        Vec<DiskOp>,
        Error,
    >)
        ensures
            match result {
                Ok(ops) => {
                    &&& !self@.exhausted()
                    &&& op_views(ops@) == self@.upsert_plan(key@, json_text(*value))
                    &&& single_line(State::record(key@, json_text(*value)))
                },
                Err(error) => self@.exhausted() && error == Error::Write,
            },
    {
        let mut ops: Vec<DiskOp> = Vec::new();
        if self.log_length >= MAX_LOG_LENGTH {
            if self.version == u64::MAX {
                return Err(Error::Write);
            }
            let version = self.version + 1;
            let entries = match self.db.encode() {
                Some(entries) => entries,
                None => { return Err(Error::Write); },
            };
            ops.push(DiskOp::WriteSnapshot { version, text: frame_snapshot(&entries) });
            ops.push(DiskOp::FinishLog);
            ops.push(DiskOp::CreateLog { version });
            ops.push(DiskOp::StagePointer { text: format_version(version) });
            ops.push(DiskOp::PublishPointer);
            assert(op_views(ops@) =~= self@.rotation_plan());
        }
        let ghost before = op_views(ops@);
        let mut text = match record_line(key, value) {
            Some(line) => line,
            None => { return Err(Error::Write); },
        };
        text.push(NEWLINE);
        ops.push(DiskOp::Append { text });
        assert(op_views(ops@) =~= before + seq![
            Op::Append { text: State::record(key@, json_text(*value)).push(NEWLINE) },
        ]);
        Ok(ops)
    }

    /// Brings the store in line with the disk once the steps of `plan_upsert`
    /// for the same key and value have been performed: a rotation that was
    /// due is counted, the record is counted, and `key` holds `value`.
    ///
    /// Fails, and changes nothing, where `plan_upsert` fails for want of a
    /// version.
    pub fn upsert(&mut self, key: &str, value: serde_json::Value) -> (result: Result<(), Error>)
        ensures
            result == if old(self)@.exhausted() {
                Err::<(), Error>(Error::Write)
            } else {
                Ok::<(), Error>(())
            },
            final(self)@ == old(self)@.upsert(key@, json_text(value)),
            final(self).values() == if old(self)@.exhausted() {
                old(self).values()
            } else {
                old(self).values().insert(key@, value)
            },
            final(self).location() == old(self).location(),
    {
        if self.log_length >= MAX_LOG_LENGTH {
            if self.version == u64::MAX {
                return Err(Error::Write);
            }
            self.version = self.version + 1;
            self.log_length = 0;
        }
        self.log_length = self.log_length + 1;
        self.db.insert(key.to_owned(), value);
        Ok(())
    }

    /// The step that ends the use of the store: the log is flushed and
    /// closed. The store itself keeps what it holds.
    pub fn close(&mut self) -> (ops: Vec<DiskOp>)
        ensures
            op_views(ops@) == seq![Op::FinishLog],
            final(self)@ == old(self)@,
            final(self).values() == old(self).values(),
            final(self).location() == old(self).location(),
    {
        let ops = vec![DiskOp::FinishLog];
        assert(op_views(ops@) =~= seq![Op::FinishLog]);
        ops
    }

    /// The current version.
    pub fn version(&self) -> (version: u64)
        ensures
            version == self@.version,
    {
        self.version
    }

    /// The number of records in the log of the current version.
    pub fn log_length(&self) -> (log_length: u64)
        ensures
            log_length == self@.log_length,
    {
        self.log_length
    }

    /// The path of the directory that holds the files of the store.
    pub fn directory(&self) -> (directory: &str)
        ensures
            directory@ == self.location(),
    {
        self.directory.as_str()
    }
}

/// There are as many records as lines.
pub proof fn lemma_records_count(lines: Seq<Seq<u8>>)
    ensures
        records_of(lines) matches Some(records) ==> records.len() == lines.len(),
    decreases lines.len(),
{
    if lines.len() > 0 {
        lemma_records_count(lines.drop_last());
    }
}

} // verus!
