//! What a store asks of the disk, and what the disk then holds.

use vstd::prelude::*;

verus! {

/// One step that the caller performs on the directory of a store. The steps
/// of an operation are performed in the order in which it returns them, and
/// each has to be durable before the next one starts.
#[derive(Debug, PartialEq, Eq)]
pub enum DiskOp {
    /// Create the snapshot file of `version` with `text` as its content.
    WriteSnapshot { version: u64, text: Vec<u8> },
    /// Flush and close the open log.
    FinishLog,
    /// Create the log file of `version`, empty, and open it for writing.
    CreateLog { version: u64 },
    /// Open the log file of `version` so that writes are added at its end.
    OpenLog { version: u64 },
    /// Write `text` into the staging file of the version pointer.
    StagePointer { text: Vec<u8> },
    /// Rename the staging file over the version pointer.
    PublishPointer,
    /// Write `text` at the end of the open log and force it to the disk.
    Append { text: Vec<u8> },
}

/// A `DiskOp` with each text taken by its content.
pub enum Op {
    WriteSnapshot { version: u64, text: Seq<u8> },
    FinishLog,
    CreateLog { version: u64 },
    OpenLog { version: u64 },
    StagePointer { text: Seq<u8> },
    PublishPointer,
    Append { text: Seq<u8> },
}

impl View for DiskOp {
    type V = Op;

    open spec fn view(&self) -> Op {
        match *self {
            DiskOp::WriteSnapshot { version, text } => Op::WriteSnapshot { version, text: text@ },
            DiskOp::FinishLog => Op::FinishLog,
            DiskOp::CreateLog { version } => Op::CreateLog { version },
            DiskOp::OpenLog { version } => Op::OpenLog { version },
            DiskOp::StagePointer { text } => Op::StagePointer { text: text@ },
            DiskOp::PublishPointer => Op::PublishPointer,
            DiskOp::Append { text } => Op::Append { text: text@ },
        }
    }
}

/// The steps held in `ops`, each taken by its view.
pub open spec fn op_views(ops: Seq<DiskOp>) -> Seq<Op> {
    Seq::new(ops.len(), |i: int| ops[i]@)
}

/// The files of a store's directory: the version pointer and its staging
/// file, the snapshot and the log of each version, and the version of the log
/// that is open for writing.
#[verifier::ext_equal]
pub struct Disk {
    pub pointer: Option<Seq<u8>>,
    pub staged: Option<Seq<u8>>,
    pub snapshots: Map<u64, Seq<u8>>,
    pub logs: Map<u64, Seq<u8>>,
    pub open: Option<u64>,
}

impl Disk {
    /// A directory without any file.
    pub open spec fn empty() -> Disk {
        Disk { pointer: None, staged: None, snapshots: Map::empty(), logs: Map::empty(), open: None }
    }

    /// The disk after `op` has been performed on it.
    pub open spec fn apply(self, op: Op) -> Disk {
        match op {
            Op::WriteSnapshot { version, text } => Disk {
                snapshots: self.snapshots.insert(version, text),
                ..self
            },
            Op::FinishLog => Disk { open: None, ..self },
            Op::CreateLog { version } => Disk {
                logs: self.logs.insert(version, Seq::empty()),
                open: Some(version),
                ..self
            },
            Op::OpenLog { version } => Disk {
                logs: if self.logs.contains_key(version) {
                    self.logs
                } else {
                    self.logs.insert(version, Seq::empty())
                },
                open: Some(version),
                ..self
            },
            Op::StagePointer { text } => Disk { staged: Some(text), ..self },
            Op::PublishPointer => match self.staged {
                Some(text) => Disk { pointer: Some(text), staged: None, ..self },
                None => self,
            },
            Op::Append { text } => match self.open {
                Some(version) => if self.logs.contains_key(version) {
                    Disk { logs: self.logs.insert(version, self.logs[version] + text), ..self }
                } else {
                    self
                },
                None => self,
            },
        }
    }

    /// The disk after the steps of `ops` have been performed on it, in order.
    pub open spec fn run(self, ops: Seq<Op>) -> Disk
        decreases ops.len(),
    {
        if ops.len() == 0 {
            self
        } else {
            self.run(ops.drop_last()).apply(ops.last())
        }
    }
}

/// Performing `ops` and then `op` is performing `ops` with `op` at its end.
pub proof fn lemma_run_push(disk: Disk, ops: Seq<Op>, op: Op)
    ensures
        disk.run(ops.push(op)) == disk.run(ops).apply(op),
{
    assert(ops.push(op).drop_last() =~= ops);
}

} // verus!
