//! Frames of the write-ahead log: the records of one transaction.
//!
//! ```text
//!   BEGIN      opens the frame and holds a fence at its sequence number
//!   mutation …
//!   COMMIT     from here on the transaction has happened
//! ```
//!
//! A frame without its `COMMIT` never happened. While a frame is open, and
//! while a committed frame has not been applied, its fence keeps the
//! checkpoint below it, so that recovery gets to see it.

use vstd::prelude::*;

use crate::checkpoint::{begin_fence, release_fence, Fences};
use crate::wal::{Wal, WalOperation, WalRecordView, WalView};

verus! {

/// Why a frame refused a step.
#[derive(Clone, Copy, PartialEq, Eq, Debug, Structural)]
pub enum CommitError {
    /// `Begin`, `Commit` and `Abort` are not mutations.
    ControlRecord,
    AlreadyCommitted,
    NotCommitted,
    /// The log has no numbers left.
    Full,
}

/// An open frame for one transaction.
pub struct StagedCommit {
    transaction_id: u64,
    begin_sequence: u64,
    commit_sequence: Option<u64>,
}

/// The log got one record more: `operation` under `transaction_id`.
pub open spec fn appended(
    before: Seq<WalRecordView>,
    after: Seq<WalRecordView>,
    transaction_id: u64,
    operation: WalView,
) -> bool {
    &&& after.len() == before.len() + 1
    &&& after.drop_last() == before
    &&& after.last().transaction_id == transaction_id
    &&& after.last().operation == operation
}

impl StagedCommit {
    /// The id that every record of the frame has.
    pub closed spec fn transaction(&self) -> u64 {
        self.transaction_id
    }

    /// Sequence number of the frame's `BEGIN`, where its fence is.
    pub closed spec fn fence(&self) -> u64 {
        self.begin_sequence
    }

    /// Sequence number of the frame's `COMMIT`, once it is written.
    pub closed spec fn committed(&self) -> Option<u64> {
        self.commit_sequence
    }

    /// The frame belongs to this log.
    pub open spec fn of(&self, wal: &Wal) -> bool {
        self.transaction() <= wal.last_transaction()
    }

    /// Writes `BEGIN` under a new transaction id and holds a fence there.
    pub fn open(wal: &mut Wal, fences: &mut Fences) -> (r: Result<StagedCommit, CommitError>)
        requires
            old(wal).wf(),
        ensures
            final(wal).wf(),
            final(wal).last_operation() >= old(wal).last_operation(),
            match r {
                Ok(frame) => {
                    &&& frame.of(final(wal))
                    &&& frame.transaction() == old(wal).last_transaction() + 1
                    &&& final(wal).last_transaction() == frame.transaction()
                    &&& frame.committed() is None
                    &&& appended(old(wal)@, final(wal)@, frame.transaction(), WalView::Begin)
                    &&& final(wal)@.last().sequence == frame.fence()
                    &&& frame.fence() == old(wal).last() + 1
                    &&& final(wal).last() == frame.fence()
                    &&& final(wal).last_operation() == old(wal).last_operation() + 1
                    &&& final(fences)@ == old(fences)@.insert(frame.fence())
                },
                Err(e) => {
                    &&& e == CommitError::Full
                    &&& final(wal)@ == old(wal)@
                    &&& final(wal).last() == old(wal).last()
                    &&& final(wal).last_operation() == old(wal).last_operation()
                    &&& old(wal).last_transaction() <= final(wal).last_transaction() <= old(wal).last_transaction() + 1
                    &&& final(fences)@ == old(fences)@
                    &&& old(wal).last_transaction() == u64::MAX || !final(wal).open_for_more()
                },
            },
    {
        let transaction_id: u64 = match wal.next_transaction_id() {
            Ok(id) => id,
            Err(_) => { return Err(CommitError::Full) },
        };
        let begin_sequence: u64 = match wal.append(transaction_id, WalOperation::Begin) {
            Ok(sequence) => sequence,
            Err(_) => { return Err(CommitError::Full) },
        };
        begin_fence(fences, begin_sequence);
        Ok(StagedCommit { transaction_id, begin_sequence, commit_sequence: None })
    }

    /// Writes one mutation of the frame; says which sequence number it got.
    pub fn stage(&mut self, wal: &mut Wal, operation: WalOperation) -> (r: Result<u64, CommitError>)
        requires
            old(wal).wf(),
            old(self).of(old(wal)),
        ensures
            final(wal).wf(),
            *final(self) == *old(self),
            final(self).of(final(wal)),
            final(wal).last_transaction() == old(wal).last_transaction(),
            final(wal).last_operation() >= old(wal).last_operation(),
            match r {
                Ok(sequence) => {
                    &&& operation@ is Apply
                    &&& old(self).committed() is None
                    &&& appended(old(wal)@, final(wal)@, old(self).transaction(), operation@)
                    &&& sequence == old(wal).last() + 1
                    &&& final(wal)@.last().sequence == sequence
                    &&& final(wal).last() == sequence
                    &&& final(wal).last_operation() == old(wal).last_operation() + 1
                },
                Err(e) => {
                    &&& *final(wal) == *old(wal)
                    &&& e == (if !(operation@ is Apply) {
                        CommitError::ControlRecord
                    } else if old(self).committed() is Some {
                        CommitError::AlreadyCommitted
                    } else {
                        CommitError::Full
                    })
                    &&& e == CommitError::Full ==> !old(wal).open_for_more()
                },
            },
    {
        match &operation {
            WalOperation::Apply(_) => {},
            _ => {
                return Err(CommitError::ControlRecord);
            },
        }
        if self.commit_sequence.is_some() {
            return Err(CommitError::AlreadyCommitted);
        }
        match wal.append(self.transaction_id, operation) {
            Ok(sequence) => Ok(sequence),
            Err(_) => Err(CommitError::Full),
        }
    }

    /// Writes `COMMIT`: from here on the transaction has happened.
    pub fn commit(&mut self, wal: &mut Wal) -> (r: Result<u64, CommitError>)
        requires
            old(wal).wf(),
            old(self).of(old(wal)),
        ensures
            final(wal).wf(),
            final(self).of(final(wal)),
            final(self).transaction() == old(self).transaction(),
            final(self).fence() == old(self).fence(),
            final(wal).last_transaction() == old(wal).last_transaction(),
            final(wal).last_operation() >= old(wal).last_operation(),
            match r {
                Ok(sequence) => {
                    &&& old(self).committed() is None
                    &&& final(self).committed() == Some(sequence)
                    &&& appended(old(wal)@, final(wal)@, old(self).transaction(), WalView::Commit)
                    &&& sequence == old(wal).last() + 1
                    &&& final(wal)@.last().sequence == sequence
                    &&& final(wal).last() == sequence
                    &&& final(wal).last_operation() == old(wal).last_operation() + 1
                },
                Err(e) => {
                    &&& *final(wal) == *old(wal)
                    &&& *final(self) == *old(self)
                    &&& e == (if old(self).committed() is Some {
                        CommitError::AlreadyCommitted
                    } else {
                        CommitError::Full
                    })
                    &&& e == CommitError::Full ==> !old(wal).open_for_more()
                },
            },
    {
        if self.commit_sequence.is_some() {
            return Err(CommitError::AlreadyCommitted);
        }
        match wal.append(self.transaction_id, WalOperation::Commit) {
            Ok(sequence) => {
                self.commit_sequence = Some(sequence);
                Ok(sequence)
            },
            Err(_) => Err(CommitError::Full),
        }
    }

    /// Ends a frame that is committed and applied: releases its fence and
    /// says where its `COMMIT` is. The checkpoint does not move here. A frame
    /// that is not committed is given up instead.
    pub fn settle(self, wal: &mut Wal, fences: &mut Fences) -> (r: Result<u64, CommitError>)
        requires
            old(wal).wf(),
            self.of(old(wal)),
        ensures
            final(wal).wf(),
            final(wal).last_transaction() == old(wal).last_transaction(),
            final(wal).last_operation() >= old(wal).last_operation(),
            final(fences)@ == old(fences)@.remove(self.fence()),
            match r {
                Ok(sequence) => self.committed() == Some(sequence) && *final(wal) == *old(wal),
                Err(e) => {
                    &&& e == CommitError::NotCommitted
                    &&& self.committed() is None
                    &&& given_up(self, *old(wal), *final(wal))
                },
            },
    {
        match self.commit_sequence {
            Some(sequence) => {
                release_fence(fences, self.begin_sequence);
                Ok(sequence)
            },
            None => {
                self.abandon(wal, fences);
                Err(CommitError::NotCommitted)
            },
        }
    }

    /// Gives a frame up. One that is not committed releases its fence and
    /// writes `ABORT`, if the log takes it. One that is committed, and so not
    /// applied, keeps its fence: recovery has to see it.
    pub fn abandon(self, wal: &mut Wal, fences: &mut Fences)
        requires
            old(wal).wf(),
            self.of(old(wal)),
        ensures
            final(wal).wf(),
            final(wal).last_transaction() == old(wal).last_transaction(),
            final(wal).last_operation() >= old(wal).last_operation(),
            self.committed() is Some ==> *final(wal) == *old(wal) && *final(fences) == *old(fences),
            self.committed() is None ==> {
                &&& final(fences)@ == old(fences)@.remove(self.fence())
                &&& given_up(self, *old(wal), *final(wal))
            },
    {
        if self.commit_sequence.is_none() {
            release_fence(fences, self.begin_sequence);
            let _marker = wal.append(self.transaction_id, WalOperation::Abort);
        }
    }
}

/// `ABORT` was written for the frame, unless the log had no numbers left.
pub open spec fn given_up(frame: StagedCommit, before: Wal, after: Wal) -> bool {
    if before.open_for_more() {
        &&& appended(before@, after@, frame.transaction(), WalView::Abort)
        &&& after@.last().sequence == before.last() + 1
        &&& after.last() == before.last() + 1
        &&& after.last_operation() == before.last_operation() + 1
    } else {
        after == before
    }
}

} // verus!
