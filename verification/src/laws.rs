//! What holds between a store and its directory.

use crate::codec::{record_reads_back, snapshot_of, snapshot_text};
use crate::decimal::{decimal, lemma_parse_of_decimal, parsed_version};
use crate::disk::{lemma_run_push, Disk, Op};
use crate::engine::{
    fresh_plan, lookup, opened, opening_plan, records_of, State, MAX_LOG_LENGTH,
};
use crate::error::Error;
use crate::lines::{lemma_lines_append, lines, single_line, terminated, NEWLINE};
use crate::table::{snapshot_reads_back, written, Table};
use vstd::prelude::*;

verus! {

impl Disk {
    /// The version that the pointer names.
    pub open spec fn version(self) -> Option<u64> {
        match self.pointer {
            Some(pointer) => parsed_version(pointer),
            None => None,
        }
    }

    /// The content of the snapshot of the version that the pointer names.
    pub open spec fn snapshot(self) -> Option<Seq<u8>> {
        match self.version() {
            Some(version) => if self.snapshots.contains_key(version) {
                Some(self.snapshots[version])
            } else {
                None
            },
            None => None,
        }
    }

    /// The content of the log of the version that the pointer names.
    pub open spec fn log(self) -> Option<Seq<u8>> {
        match self.version() {
            Some(version) => if self.logs.contains_key(version) {
                Some(self.logs[version])
            } else {
                None
            },
            None => None,
        }
    }

    /// What opening the directory gives.
    pub open spec fn reopened(self) -> Result<State, Error> {
        opened(true, self.pointer, self.snapshot(), self.log())
    }

    /// Whether opening the directory gives a store in which every key has the
    /// value text that `texts` gives it, and no other key has a value.
    pub open spec fn holds(self, texts: Map<Seq<char>, Seq<u8>>) -> bool {
        self.reopened() matches Ok(found) && found.table.texts == texts
    }
}

/// Round trip: once a key has been written, the store gives the value written.
pub proof fn lemma_round_trip(
    values: Map<Seq<char>, serde_json::Value>,
    key: Seq<char>,
    value: serde_json::Value,
)
    ensures
        lookup(values.insert(key, value), key) == Some(value),
{
}

/// Last write wins: once a key has been written twice, the store gives the
/// value written last.
pub proof fn lemma_last_write_wins(
    values: Map<Seq<char>, serde_json::Value>,
    key: Seq<char>,
    first: serde_json::Value,
    second: serde_json::Value,
)
    ensures
        lookup(values.insert(key, first).insert(key, second), key) == Some(second),
{
}

/// A write changes the value of no other key.
pub proof fn lemma_other_keys_keep_their_value(
    values: Map<Seq<char>, serde_json::Value>,
    key: Seq<char>,
    other: Seq<char>,
    value: serde_json::Value,
)
    requires
        other != key,
    ensures
        lookup(values.insert(other, value), key) == lookup(values, key),
{
}

/// Absence: a store that started empty gives nothing for a key that none of
/// its writes named.
pub proof fn lemma_absence(entries: Seq<(String, serde_json::Value)>, key: Seq<char>)
    requires
        forall|i: int| 0 <= i < entries.len() ==> (#[trigger] entries[i]).0@ != key,
    ensures
        lookup(written(Map::empty(), entries), key) is None,
    decreases entries.len(),
{
    if entries.len() > 0 {
        lemma_absence(entries.drop_last(), key);
        assert(entries.last() == entries[entries.len() - 1]);
    }
}

/// Whether the version pointer on the disk names the version that the store
/// has in memory.
pub open spec fn pointer_in_step(state: State, disk: Disk) -> bool {
    disk.version() == Some(state.version)
}

/// Whether the files on the disk stand for the store: the pointer names the
/// store's version, the log of that version ends a line and holds as many
/// records as the store counts, and the snapshot of that version with the
/// records of the log written over it gives every key the value text that it
/// has in the store.
pub open spec fn stored(state: State, disk: Disk) -> bool {
    &&& pointer_in_step(state, disk)
    &&& disk.snapshots.contains_key(state.version)
    &&& disk.logs.contains_key(state.version)
    &&& terminated(disk.logs[state.version])
    &&& lines(disk.logs[state.version]).len() == state.log_length
    &&& snapshot_of(disk.snapshots[state.version]) matches Some(base) && records_of(
        lines(disk.logs[state.version]),
    ) matches Some(records) && Table::empty().put_all(base).put_all(records).texts
        == state.table.texts
}

/// Whether the directory is in step with the store: its files stand for the
/// store, and the log of the store's version is open for writing.
pub open spec fn in_step(state: State, disk: Disk) -> bool {
    &&& stored(state, disk)
    &&& disk.open == Some(state.version)
}

/// Replay equivalence: where the files on the disk stand for the store,
/// opening the directory gives a store with the same version, the same number
/// of records in the log, and the same value text under every key.
pub proof fn lemma_reopening_gives_the_store(state: State, disk: Disk)
    requires
        stored(state, disk),
    ensures
        disk.reopened() matches Ok(found) && found.table.texts == state.table.texts
            && found.version == state.version && found.log_length == state.log_length,
        disk.holds(state.table.texts),
{
}

/// Restart: where the files on the disk stand for the store, the directory is
/// in step with the store that opening it gives, once the steps with which the
/// opening ends have been performed.
pub proof fn lemma_reopening_keeps_in_step(state: State, disk: Disk)
    requires
        stored(state, disk),
    ensures
        disk.reopened() matches Ok(found) && in_step(
            found,
            disk.run(opening_plan(disk.pointer, found)),
        ),
{
    let found = disk.reopened()->Ok_0;
    let op = Op::OpenLog { version: found.version };
    assert(opening_plan(disk.pointer, found) =~= Seq::<Op>::empty().push(op));
    lemma_run_push(disk, Seq::empty(), op);
}

/// Closing the store leaves on the disk the files that stand for it.
pub proof fn lemma_closing_keeps_stored(state: State, disk: Disk)
    requires
        in_step(state, disk),
    ensures
        stored(state, disk.run(seq![Op::FinishLog])),
{
    assert(seq![Op::FinishLog] =~= Seq::<Op>::empty().push(Op::FinishLog));
    lemma_run_push(disk, Seq::empty(), Op::FinishLog);
}

/// Performing the first `k + 1` steps is performing the first `k` and then
/// the step at `k`.
pub proof fn lemma_run_next(disk: Disk, ops: Seq<Op>, k: int)
    requires
        0 <= k < ops.len(),
    ensures
        disk.run(ops.take(k + 1)) == disk.run(ops.take(k)).apply(ops[k]),
{
    assert(ops.take(k + 1) =~= ops.take(k).push(ops[k]));
    lemma_run_push(disk, ops.take(k), ops[k]);
}

/// The disk after each step of a rotation.
proof fn lemma_rotation_steps(state: State, disk: Disk, ops: Seq<Op>)
    requires
        ops.len() >= 5,
        ops.take(5) == state.rotation_plan(),
    ensures
        disk.run(ops.take(0)) == disk,
        disk.run(ops.take(1)) == (Disk {
            snapshots: disk.snapshots.insert(
                (state.version + 1) as u64,
                snapshot_text(state.table.encoded()),
            ),
            ..disk
        }),
        disk.run(ops.take(2)) == (Disk { open: None, ..disk.run(ops.take(1)) }),
        disk.run(ops.take(3)) == (Disk {
            logs: disk.logs.insert((state.version + 1) as u64, Seq::empty()),
            open: Some((state.version + 1) as u64),
            ..disk.run(ops.take(2))
        }),
        disk.run(ops.take(4)) == (Disk {
            staged: Some(decimal((state.version + 1) as u64 as nat)),
            ..disk.run(ops.take(3))
        }),
        disk.run(ops.take(5)) == (Disk {
            pointer: Some(decimal((state.version + 1) as u64 as nat)),
            staged: None,
            ..disk.run(ops.take(4))
        }),
{
    let plan = state.rotation_plan();
    assert(ops.take(0) =~= Seq::<Op>::empty());
    assert forall|k: int| 0 <= k < 5 implies ops[k] == plan[k] by {
        assert(ops.take(5)[k] == ops[k]);
    }
    lemma_run_next(disk, ops, 0);
    lemma_run_next(disk, ops, 1);
    lemma_run_next(disk, ops, 2);
    lemma_run_next(disk, ops, 3);
    lemma_run_next(disk, ops, 4);
}

/// The disk after a fresh directory has been set up.
pub proof fn lemma_fresh_steps()
    ensures
        Disk::empty().run(fresh_plan()) == (Disk {
            pointer: Some(decimal(0)),
            staged: None,
            snapshots: Map::<u64, Seq<u8>>::empty().insert(0, snapshot_text(Seq::empty())),
            logs: Map::<u64, Seq<u8>>::empty().insert(0, Seq::empty()),
            open: Some(0),
        }),
{
    let plan = fresh_plan();
    let disk = Disk::empty();
    assert(plan.take(0) =~= Seq::<Op>::empty());
    lemma_run_next(disk, plan, 0);
    lemma_run_next(disk, plan, 1);
    lemma_run_next(disk, plan, 2);
    lemma_run_next(disk, plan, 3);
    assert(plan.take(4) =~= plan);
}

/// Writing one record over a table changes the text of its key and of no
/// other.
proof fn lemma_put_all_push(table: Table, records: Seq<(Seq<char>, Seq<u8>)>, key: Seq<char>, text: Seq<u8>)
    ensures
        table.put_all(records.push((key, text))).texts == table.put_all(records).texts.insert(
            key,
            text,
        ),
{
    assert(records.push((key, text)).drop_last() =~= records);
}

/// An empty log holds no line and no record.
proof fn lemma_empty_log()
    ensures
        lines(Seq::<u8>::empty()) == Seq::<Seq<u8>>::empty(),
        records_of(Seq::<Seq<u8>>::empty()) == Some(Seq::<(Seq<char>, Seq<u8>)>::empty()),
        forall|table: Table| #[trigger] table.put_all(Seq::empty()) == table,
{
    assert(lines(Seq::<u8>::empty()) =~= Seq::<Seq<u8>>::empty());
}

/// The lines of a log after one more record, and the records that they hold.
proof fn lemma_log_append(log: Seq<u8>, records: Seq<(Seq<char>, Seq<u8>)>, key: Seq<char>, text: Seq<u8>)
    requires
        terminated(log),
        records_of(lines(log)) == Some(records),
        single_line(State::record(key, text)),
        record_reads_back(key, text),
    ensures
        terminated(log + State::record(key, text).push(NEWLINE)),
        lines(log + State::record(key, text).push(NEWLINE)).len() == lines(log).len() + 1,
        records_of(lines(log + State::record(key, text).push(NEWLINE))) == Some(
            records.push((key, text)),
        ),
{
    let record = State::record(key, text);
    lemma_lines_append(log, record);
    assert(lines(log).push(record).drop_last() =~= lines(log));
}

/// The store that the files stand for after `k` steps of a write: the store
/// before the write, that store rotated once the pointer has moved, and the
/// store after the write once every step has been performed.
pub open spec fn state_after_steps(state: State, key: Seq<char>, text: Seq<u8>, k: int) -> State {
    if k == state.upsert_plan(key, text).len() {
        state.upsert(key, text)
    } else if state.rotates() && k == 5 {
        state.rotated()
    } else {
        state
    }
}

/// A write is atomic on the disk: where the directory is in step with the
/// store, a version is left, the record is a single line, and the record
/// and, for a rotation, the snapshot are read back as written, the files
/// stand after any number of the steps of the write for a store with the
/// value texts from before the write, and after all of them for the store
/// after the write.
pub proof fn lemma_write_is_atomic(state: State, disk: Disk, key: Seq<char>, text: Seq<u8>, k: int)
    requires
        in_step(state, disk),
        !state.exhausted(),
        single_line(State::record(key, text)),
        record_reads_back(key, text),
        state.rotates() ==> snapshot_reads_back(state.table),
        0 <= k <= state.upsert_plan(key, text).len(),
    ensures
        stored(
            state_after_steps(state, key, text, k),
            disk.run(state.upsert_plan(key, text).take(k)),
        ),
        k < state.upsert_plan(key, text).len() ==> state_after_steps(state, key, text, k).table
            == state.table,
        disk.run(state.upsert_plan(key, text).take(k)).holds(
            state_after_steps(state, key, text, k).table.texts,
        ),
        k == state.upsert_plan(key, text).len() ==> disk.run(
            state.upsert_plan(key, text).take(k),
        ).open == Some(state.upsert(key, text).version),
{
    let plan = state.upsert_plan(key, text);
    let added = State::record(key, text).push(NEWLINE);
    let after = disk.run(plan.take(k));
    lemma_empty_log();
    if state.rotates() {
        let version = (state.version + 1) as u64;
        assert(plan.take(5) =~= state.rotation_plan());
        lemma_rotation_steps(state, disk, plan);
        lemma_parse_of_decimal(version);
        let rotated = disk.run(plan.take(5));
        assert(rotated.logs[version] =~= Seq::<u8>::empty());
        let base = snapshot_of(snapshot_text(state.table.encoded()))->0;
        if k == 6 {
            lemma_run_next(disk, plan, 5);
            lemma_log_append(Seq::<u8>::empty(), Seq::empty(), key, text);
            assert(after.logs[version] =~= Seq::<u8>::empty() + added);
            lemma_put_all_push(Table::empty().put_all(base), Seq::empty(), key, text);
        }
    } else {
        assert(plan.take(0) =~= Seq::<Op>::empty());
        if k == 1 {
            lemma_run_next(disk, plan, 0);
            let log = disk.logs[state.version];
            let base = snapshot_of(disk.snapshots[state.version])->0;
            let records = records_of(lines(log))->0;
            lemma_log_append(log, records, key, text);
            lemma_put_all_push(Table::empty().put_all(base), records, key, text);
        }
    }
    lemma_reopening_gives_the_store(state_after_steps(state, key, text, k), after);
}

/// A write keeps the directory in step: under what `lemma_write_is_atomic`
/// asks, the directory is in step with the store again once the steps of the
/// write have been performed and the store has taken the write.
pub proof fn lemma_write_keeps_in_step(state: State, disk: Disk, key: Seq<char>, text: Seq<u8>)
    requires
        in_step(state, disk),
        !state.exhausted(),
        single_line(State::record(key, text)),
        record_reads_back(key, text),
        state.rotates() ==> snapshot_reads_back(state.table),
    ensures
        in_step(state.upsert(key, text), disk.run(state.upsert_plan(key, text))),
{
    let plan = state.upsert_plan(key, text);
    lemma_write_is_atomic(state, disk, key, text, plan.len() as int);
    assert(plan.take(plan.len() as int) =~= plan);
}

/// Setting up a fresh directory puts it in step with the fresh store, where
/// the empty snapshot is read back as written.
pub proof fn lemma_fresh_in_step()
    requires
        snapshot_reads_back(Table::empty()),
    ensures
        in_step(State::fresh(), Disk::empty().run(fresh_plan())),
{
    lemma_fresh_steps();
    lemma_empty_log();
    lemma_parse_of_decimal(0);
    let end = Disk::empty().run(fresh_plan());
    assert(Table::empty().encoded() =~= Seq::<(Seq<u8>, Seq<u8>)>::empty());
    assert(end.logs[0] =~= Seq::<u8>::empty());
}

/// The store and the directory after the writes of `writes`, each a key and
/// the text of its value, have been made to a fresh directory in order.
pub open spec fn history(writes: Seq<(Seq<char>, Seq<u8>)>) -> (State, Disk)
    decreases writes.len(),
{
    if writes.len() == 0 {
        (State::fresh(), Disk::empty().run(fresh_plan()))
    } else {
        let (state, disk) = history(writes.drop_last());
        let (key, text) = writes.last();
        (state.upsert(key, text), disk.run(state.upsert_plan(key, text)))
    }
}

/// Whether every write of `writes` to a fresh directory finds a version left,
/// logs a record of a single line, and has its record and, where it rotates,
/// the snapshot read back as written.
pub open spec fn faithful(writes: Seq<(Seq<char>, Seq<u8>)>) -> bool
    decreases writes.len(),
{
    if writes.len() == 0 {
        snapshot_reads_back(Table::empty())
    } else {
        let state = history(writes.drop_last()).0;
        let (key, text) = writes.last();
        &&& faithful(writes.drop_last())
        &&& !state.exhausted()
        &&& single_line(State::record(key, text))
        &&& record_reads_back(key, text)
        &&& state.rotates() ==> snapshot_reads_back(state.table)
    }
}

/// Durability across restart: after any faithful sequence of writes to a
/// fresh directory, the directory is in step with the store, so that opening
/// it gives every key the text of the value that was written to it last, and
/// nothing for a key that was never written.
pub proof fn lemma_durable(writes: Seq<(Seq<char>, Seq<u8>)>)
    requires
        faithful(writes),
    ensures
        in_step(history(writes).0, history(writes).1),
        history(writes).0.table == Table::empty().put_all(writes),
        history(writes).1.holds(Table::empty().put_all(writes).texts),
    decreases writes.len(),
{
    if writes.len() == 0 {
        lemma_fresh_in_step();
    } else {
        lemma_durable(writes.drop_last());
        let (state, disk) = history(writes.drop_last());
        let (key, text) = writes.last();
        lemma_write_keeps_in_step(state, disk, key, text);
    }
    lemma_reopening_gives_the_store(history(writes).0, history(writes).1);
}

/// Rotation trigger: after `n` writes to a fresh directory, with `n` at least
/// one, the version is the number of times that a write found a full log of
/// `MAX_LOG_LENGTH` records, and the log holds the records written since.
pub proof fn lemma_versions_and_lengths(writes: Seq<(Seq<char>, Seq<u8>)>)
    requires
        0 < writes.len() <= MAX_LOG_LENGTH * u64::MAX,
    ensures
        history(writes).0.version == (writes.len() - 1) / (MAX_LOG_LENGTH as int),
        history(writes).0.log_length == (writes.len() - 1) % (MAX_LOG_LENGTH as int) + 1,
    decreases writes.len(),
{
    let n = writes.len() as int;
    let before = history(writes.drop_last()).0;
    let (key, text) = writes.last();
    assert(history(writes).0 == before.upsert(key, text));
    if n > 1 {
        lemma_versions_and_lengths(writes.drop_last());
        assert(before.version == (n - 2) / 100);
        assert(before.log_length == (n - 2) % 100 + 1);
        assert(before.version < u64::MAX);
    } else {
        assert(before == State::fresh());
    }
}

/// A write keeps the pointer in step: where the pointer on the disk names
/// the version of the store, in whatever form, and a version is left, it
/// names the version of the store again once the steps of the write have
/// been performed and the store has taken the write.
pub proof fn lemma_write_keeps_pointer(state: State, disk: Disk, key: Seq<char>, text: Seq<u8>)
    requires
        pointer_in_step(state, disk),
        !state.exhausted(),
    ensures
        pointer_in_step(state.upsert(key, text), disk.run(state.upsert_plan(key, text))),
{
    let plan = state.upsert_plan(key, text);
    if state.rotates() {
        assert(plan.take(5) =~= state.rotation_plan());
        lemma_rotation_steps(state, disk, plan);
        lemma_run_next(disk, plan, 5);
        assert(plan.take(6) =~= plan);
        lemma_parse_of_decimal((state.version + 1) as u64);
    } else {
        assert(plan.take(0) =~= Seq::<Op>::empty());
        lemma_run_next(disk, plan, 0);
        assert(plan.take(1) =~= plan);
    }
}

/// Pointer consistency: after any number of writes to a fresh directory for
/// which the versions suffice, the version pointer on the disk names the
/// version that the store has in memory.
pub proof fn lemma_pointer_consistent(writes: Seq<(Seq<char>, Seq<u8>)>)
    requires
        writes.len() <= MAX_LOG_LENGTH * u64::MAX,
    ensures
        pointer_in_step(history(writes).0, history(writes).1),
    decreases writes.len(),
{
    if writes.len() == 0 {
        lemma_fresh_steps();
        lemma_parse_of_decimal(0);
    } else {
        lemma_pointer_consistent(writes.drop_last());
        let (state, disk) = history(writes.drop_last());
        let (key, text) = writes.last();
        if writes.len() > 1 {
            lemma_versions_and_lengths(writes.drop_last());
            assert(state.version == (writes.len() - 2) / 100);
        }
        assert(!state.exhausted());
        lemma_write_keeps_pointer(state, disk, key, text);
    }
}

} // verus!
