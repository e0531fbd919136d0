//! Opening a database: its tables, and what its log has beyond the last
//! checkpoint.

use vstd::prelude::*;

use crate::cache::RecordCache;
use crate::checkpoint::{checkpoint_of, Fences};
use crate::engine::batch::{
    acceptable, changes, counted, framed, given_up, goes_on, law_frame_is_committed, law_given_up_never_happened,
    lemma_declared_kept, lemma_filter_none, lemma_still_admissible,
};
use crate::engine::durable::{
    checkpoint_steps, checkpoints, drop_steps, flushed, lemma_boundary, lemma_flushed, past_checkpoint, retired_now,
    settles_at, steps_view, written_file, written_log, CheckpointFault, CheckpointStep, CheckpointStepView,
};
use crate::engine::pins::ready;
use crate::engine::{charted, stamped, Limits, StorageEngine};
use crate::decimal::digits_of;
use crate::heap::{sync_steps, StoreView};
use crate::tables::audit::parts_wf;
use crate::tables::check::{fault, lemma_fault, OpError};
use crate::tables::files::law_parts_hold_one_database;
use crate::tables::model::{applied, applied_all, replay_data, replay_text, DbView};
use crate::tables::open::{empty_db, parts_hold, Parts};
use crate::tables::replay::{law_replay_is_idempotent, lemma_applied_join, well_named};
use crate::tables::unique::{declares, declares_nothing};
use crate::tables::{index_ops, text_ops, TableError, Tables};
use crate::transaction::TransactionError;
use crate::wal::{
    ascending, classify_transactions, is_committed, lemma_filter_suffix, of_transaction, unsplit, CommittedTransactions,
    Operation, OperationView, Wal, WalOperation, WalRecordView, WalView, STANDALONE_TRANSACTION_ID,
};

verus! {

/// Why a log cannot be carried out.
#[derive(Clone, Copy, PartialEq, Eq, Debug, Structural)]
pub enum RecoverError {
    /// An earlier change went wrong half way.
    Failed,
    /// An operation in the log is not one that the tables take.
    Operation(OpError),
    /// The tables have no room.
    Table(TableError),
}

/// Recovery carries the record out: it is past the checkpoint, holds an
/// operation, and stands alone or in a committed transaction.
pub open spec fn due(log: Seq<WalRecordView>, record: WalRecordView, checkpoint: u64) -> bool {
    &&& record.sequence > checkpoint
    &&& record.operation is Apply
    &&& record.transaction_id == STANDALONE_TRANSACTION_ID || is_committed(log, record.transaction_id)
}

/// The operations that recovery carries out of the first `n` records.
pub open spec fn redone(log: Seq<WalRecordView>, n: nat, checkpoint: u64) -> Seq<OperationView>
    decreases n,
{
    if n == 0 || n > log.len() {
        Seq::empty()
    } else {
        let before = redone(log, (n - 1) as nat, checkpoint);
        let record = log[n - 1];
        if due(log, record, checkpoint) {
            before.push(record.operation->Apply_0)
        } else {
            before
        }
    }
}

/// What recovery carries out.
pub open spec fn recovered(log: Seq<WalRecordView>, checkpoint: u64) -> Seq<OperationView> {
    redone(log, log.len(), checkpoint)
}

/// Each operation is one that the tables take when its turn comes.
pub open spec fn in_order(db: DbView, ops: Seq<OperationView>) -> bool {
    forall|i: int| 0 <= i < ops.len() ==> fault(applied_all(db, ops.take(i)), #[trigger] ops[i]) is None
}

/// The tables take none of the operations past the first that is refused,
/// which is for this reason.
pub open spec fn refused(db: DbView, ops: Seq<OperationView>, e: OpError) -> bool {
    exists|i: int|
        0 <= i < ops.len() && fault(applied_all(db, ops.take(i)), #[trigger] ops[i]) == Some(e) && in_order(
            db,
            ops.take(i),
        )
}

impl StorageEngine {
    /// An engine over tables and a log, before recovery. Where both are in
    /// order, so is the engine.
    pub fn open(tables: Tables, wal: Wal, limits: Limits, cache_capacity: Option<usize>) -> (r: StorageEngine)
        ensures
            tables.inv() && wal.wf() && stamped(tables@.history, wal.last_operation()) ==> r.inv(),
            r@ == tables@,
            r.log() == wal@,
            r.last_transaction() == wal.last_transaction(),
            r.last_operation() == wal.last_operation(),
            r.last_sequence() == wal.last(),
            r.limits() == limits,
            r.catalog() == tables.heap().catalog,
            r.readers() == Seq::<u64>::empty(),
            r.retired() == Seq::<(u32, u64)>::empty(),
            r.fences() == Set::<u64>::empty(),
            r.epoch() == 1,
            r.reads() == 0,
            r.writes() == 0,
            r.applied() == 0,
            r.pending() == 0,
            r.has_room() == tables.has_room(),
            !r.failed(),
    {
        proof {
            if wal.wf() {
                wal.lemma_wf();
                reveal(charted);
            }
        }
        StorageEngine {
            tables,
            cache: RecordCache::new(cache_capacity),
            wal,
            fences: Fences::new(),
            limits,
            reads_total: 0,
            writes_total: 0,
            applied_sequence: 0,
            pending_mutations: 0,
            epoch: 1,
            readers: Vec::new(),
            retired: Vec::new(),
            failed: false,
        }
    }

    /// An engine over the parts read from the files, before recovery. None
    /// where there are not as many declared indexes as definitions, where the
    /// parts do not agree, or where a state is kept under a version that the
    /// log has not given out.
    pub fn load(parts: Parts, wal: Wal, limits: Limits, cache_capacity: Option<usize>) -> (r: Option<StorageEngine>)
        requires
            parts_wf(parts),
            wal.wf(),
        ensures
            match r {
                Some(engine) => {
                    &&& engine.inv()
                    &&& !engine.failed()
                    &&& parts_hold(parts, engine@)
                    &&& stamped(engine@.history, wal.last_operation())
                    &&& replay_data(index_ops(parts.index_log@)).len() == parts.data@.len()
                    &&& replay_text(text_ops(parts.text_log@)).len() == parts.text@.len()
                    &&& engine.catalog() == parts.store@.catalog
                    &&& engine.log() == wal@
                    &&& engine.last_transaction() == wal.last_transaction()
                    &&& engine.last_operation() == wal.last_operation()
                    &&& engine.last_sequence() == wal.last()
                    &&& engine.limits() == limits
                    &&& engine.applied() == 0
                    &&& engine.pending() == 0
                    &&& engine.reads() == 0
                    &&& engine.writes() == 0
                    &&& engine.fences() == Set::<u64>::empty()
                    &&& engine.readers() == Seq::<u64>::empty()
                    &&& engine.retired() == Seq::<(u32, u64)>::empty()
                    &&& engine.epoch() == 1
                },
                None => {
                    ||| replay_data(index_ops(parts.index_log@)).len() != parts.data@.len()
                    ||| replay_text(text_ops(parts.text_log@)).len() != parts.text@.len()
                    ||| forall|db: DbView| #[trigger]
                        parts_hold(parts, db) ==> !stamped(db.history, wal.last_operation())
                },
            },
    {
        let ghost p = parts;
        let (tables, top) = match Tables::open(parts) {
            Some(found) => found,
            None => { return None },
        };
        if top > wal.last_operation_id() {
            proof {
                assert forall|db: DbView| #[trigger] parts_hold(p, db) implies !stamped(
                    db.history,
                    wal.last_operation(),
                ) by {
                    law_parts_hold_one_database(p, db, tables@);
                }
            }
            return None;
        }
        Some(StorageEngine::open(tables, wal, limits, cache_capacity))
    }

    /// An engine over a database that holds nothing.
    pub fn create(limits: Limits, cache_capacity: Option<usize>) -> (r: StorageEngine)
        ensures
            r.inv(),
            !r.failed(),
            r@ == empty_db(),
            r.log() == Seq::<WalRecordView>::empty(),
            r.limits() == limits,
            r.has_room(),
            r.last_sequence() == 0,
            r.last_operation() == 0,
            r.last_transaction() == 0,
            r.applied() == 0,
            r.pending() == 0,
            r.reads() == 0,
            r.writes() == 0,
            r.fences() == Set::<u64>::empty(),
            r.readers() == Seq::<u64>::empty(),
            r.retired() == Seq::<(u32, u64)>::empty(),
            r.epoch() == 1,
            caught_up(r),
    {
        let tables = Tables::fresh();
        let wal = Wal::new();
        StorageEngine::open(tables, wal, limits, cache_capacity)
    }

    /// Whether a change went wrong half way: the database has to be opened
    /// again.
    pub fn has_failed(&self) -> (r: bool)
        ensures
            r == self.failed(),
    {
        self.failed
    }

    /// The log.
    pub fn wal(&self) -> (r: &Wal)
        requires
            self.inv(),
        ensures
            r.wf(),
            r@ == self.log(),
            r.last() == self.last_sequence(),
            r.last_transaction() == self.last_transaction(),
            r.last_operation() == self.last_operation(),
    {
        &self.wal
    }

    /// The tables; none in an engine that failed.
    pub fn tables(&self) -> (r: Option<&Tables>)
        requires
            self.inv(),
        ensures
            match r {
                Some(t) => !self.failed() && t.inv() && t@ == self@ && t.heap().catalog == self.catalog(),
                None => self.failed(),
            },
    {
        if self.failed {
            None
        } else {
            Some(&self.tables)
        }
    }

    /// Takes the engine apart; none if it failed.
    pub fn close(self) -> (r: Option<(Parts, Wal)>)
        requires
            self.inv(),
        ensures
            match r {
                Some((parts, wal)) => {
                    &&& !self.failed()
                    &&& parts_hold(parts, self@)
                    &&& parts.store@.catalog == self.catalog()
                    &&& stamped(self@.history, wal.last_operation())
                    &&& wal.wf()
                    &&& wal@ == self.log()
                    &&& wal.last() == self.last_sequence()
                    &&& wal.last_transaction() == self.last_transaction()
                    &&& wal.last_operation() == self.last_operation()
                },
                None => self.failed(),
            },
    {
        if self.failed {
            return None;
        }
        Some((self.tables.into_parts(), self.wal))
    }

    /// Carries out an operation that is in the log already.
    pub(crate) fn apply_committed(&mut self, operation: &Operation) -> (r: Result<(), RecoverError>)
        requires
            old(self).inv(),
            !old(self).failed(),
        ensures
            final(self).inv(),
            final(self).log() == old(self).log(),
            final(self).last_sequence() == old(self).last_sequence(),
            final(self).last_transaction() == old(self).last_transaction(),
            final(self).last_operation() >= old(self).last_operation(),
            final(self).limits() == old(self).limits(),
            final(self).readers() == old(self).readers(),
            final(self).retired() == old(self).retired(),
            final(self).epoch() == old(self).epoch(),
            final(self).applied() == old(self).applied(),
            final(self).pending() == old(self).pending(),
            match r {
                Ok(()) => {
                    &&& fault(old(self)@, operation@) is None
                    &&& !final(self).failed()
                    &&& final(self)@ == applied(old(self)@, operation@)
                    &&& final(self).reads() == old(self).reads()
                    &&& final(self).writes() == counted(old(self).writes(), seq![operation@])
                },
                Err(RecoverError::Operation(e)) => {
                    &&& fault(old(self)@, operation@) == Some(e)
                    &&& final(self).failed()
                },
                Err(RecoverError::Table(_)) => {
                    &&& fault(old(self)@, operation@) is None
                    &&& final(self).failed()
                    &&& !final(self).has_room()
                },
                Err(RecoverError::Failed) => false,
            },
    {
        match self.tables.validate(operation, &mut self.cache) {
            Ok(()) => {},
            Err(e) => {
                self.failed = true;
                return Err(RecoverError::Operation(e));
            },
        }
        proof {
            lemma_fault(old(self)@, operation@);
        }
        match operation {
            Operation::Archive(entry) => {
                self.reserve(entry.version);
            },
            _ => {},
        }
        match self.apply_one(operation) {
            Ok(()) => Ok(()),
            Err(e) => Err(RecoverError::Table(e)),
        }
    }

    /// Carries out again what the log has past the checkpoint: every
    /// operation that stands alone or in a committed transaction, in order.
    pub fn recover(&mut self, checkpoint: u64) -> (r: Result<(), RecoverError>)
        requires
            old(self).inv(),
        ensures
            final(self).inv(),
            final(self).log() == old(self).log(),
            final(self).last_sequence() == old(self).last_sequence(),
            final(self).last_transaction() == old(self).last_transaction(),
            final(self).last_operation() >= old(self).last_operation(),
            final(self).limits() == old(self).limits(),
            final(self).readers() == old(self).readers(),
            final(self).retired() == old(self).retired(),
            final(self).epoch() == old(self).epoch(),
            match r {
                Ok(()) => {
                    &&& !old(self).failed()
                    &&& !final(self).failed()
                    &&& in_order(old(self)@, recovered(old(self).log(), checkpoint))
                    &&& final(self)@ == applied_all(old(self)@, recovered(old(self).log(), checkpoint))
                    &&& final(self).applied() == far(old(self).applied(), old(self).log())
                    &&& final(self).pending() == old(self).pending()
                    &&& final(self).reads() == old(self).reads()
                    &&& final(self).writes() == counted(
                        old(self).writes(),
                        recovered(old(self).log(), checkpoint),
                    )
                    &&& caught_up(*final(self))
                },
                Err(RecoverError::Failed) => old(self).failed() && final(self).failed(),
                Err(RecoverError::Operation(e)) => {
                    &&& !old(self).failed()
                    &&& final(self).failed()
                    &&& refused(old(self)@, recovered(old(self).log(), checkpoint), e)
                },
                Err(RecoverError::Table(_)) => {
                    &&& !old(self).failed()
                    &&& final(self).failed()
                    &&& !final(self).has_room()
                },
            },
    {
        if self.failed {
            return Err(RecoverError::Failed);
        }
        let ghost start = *self;
        let ghost log = self.log();
        let committed = classify_transactions(self.wal.records());
        let n: usize = self.wal.records().len();
        let mut i: usize = 0;
        while i < n
            invariant
                i <= n,
                n == log.len(),
                log == start.log(),
                start == *old(self),
                start.inv(),
                !start.failed(),
                forall|id: u64| #[trigger] committed@.contains(id) == is_committed(log, id),
                self.recovering(&start, checkpoint, i as nat),
            decreases n - i,
        {
            match self.recover_record(i, &committed, checkpoint, Ghost(start)) {
                Ok(()) => {},
                Err(e) => { return Err(e) },
            }
            i = i + 1;
        }
        self.note_recovered();
        Ok(())
    }

    /// The first `n` records of the log are carried out.
    closed spec fn recovering(&self, start: &StorageEngine, checkpoint: u64, n: nat) -> bool {
        let log = start.wal@;
        let part = redone(log, n, checkpoint);
        &&& self.inv()
        &&& !self.failed
        &&& self.wal@ == log
        &&& self.wal.last() == start.wal.last()
        &&& self.wal.last_transaction() == start.wal.last_transaction()
        &&& self.wal.last_operation() >= start.wal.last_operation()
        &&& self.limits == start.limits
        &&& self.readers@ == start.readers@
        &&& self.retired@ == start.retired@
        &&& self.epoch == start.epoch
        &&& self.applied_sequence == start.applied_sequence
        &&& self.pending_mutations == start.pending_mutations
        &&& self.reads_total == start.reads_total
        &&& in_order(start.tables@, part)
        &&& self.tables@ == applied_all(start.tables@, part)
        &&& self.writes_total == counted(start.writes_total, part)
    }

    /// Carries the record at `i` out, if that is due.
    fn recover_record(
        &mut self,
        i: usize,
        committed: &CommittedTransactions,
        checkpoint: u64,
        Ghost(start): Ghost<StorageEngine>,
    ) -> (r: Result<(), RecoverError>)
        requires
            start.inv(),
            !start.failed(),
            i < start.log().len(),
            forall|id: u64| #[trigger] committed@.contains(id) == is_committed(start.log(), id),
            old(self).recovering(&start, checkpoint, i as nat),
        ensures
            match r {
                Ok(()) => final(self).recovering(&start, checkpoint, (i + 1) as nat),
                Err(e) => {
                    &&& final(self).inv()
                    &&& final(self).failed()
                    &&& final(self).log() == start.log()
                    &&& final(self).last_sequence() == start.last_sequence()
                    &&& final(self).last_transaction() == start.last_transaction()
                    &&& final(self).last_operation() >= start.last_operation()
                    &&& final(self).limits() == start.limits()
                    &&& final(self).readers() == start.readers()
                    &&& final(self).retired() == start.retired()
                    &&& final(self).epoch() == start.epoch()
                    &&& match e {
                        RecoverError::Operation(e) => refused(start@, recovered(start.log(), checkpoint), e),
                        RecoverError::Table(_) => !final(self).has_room(),
                        RecoverError::Failed => false,
                    }
                },
            },
    {
        let ghost log = start.log();
        let ghost part = redone(log, i as nat, checkpoint);
        let record = &self.wal.records()[i];
        proof {
            assert(log[i as int] == record@);
        }
        if record.sequence <= checkpoint {
            return Ok(());
        }
        if record.transaction_id != STANDALONE_TRANSACTION_ID && !committed.contains(record.transaction_id) {
            return Ok(());
        }
        let operation = match &record.operation {
            WalOperation::Apply(operation) => operation.copy(),
            _ => { return Ok(()) },
        };
        proof {
            assert(due(log, log[i as int], checkpoint));
            lemma_next_redone(log, i as nat, checkpoint);
        }
        match self.apply_committed(&operation) {
            Ok(()) => {
                proof {
                    lemma_in_order_push(start@, part, operation@);
                    assert(part.push(operation@).drop_last() =~= part);
                    lemma_counted_one(start.writes(), part, operation@);
                }
                Ok(())
            },
            Err(e) => {
                proof {
                    let ops = recovered(log, checkpoint);
                    let k = part.len() as int;
                    assert(ops.take(k) == part);
                    if let RecoverError::Operation(x) = e {
                        assert(fault(applied_all(start@, ops.take(k)), ops[k]) == Some(x));
                    }
                }
                Err(e)
            },
        }
    }

    /// Everything in the log has been carried out.
    fn note_recovered(&mut self)
        requires
            old(self).inv(),
        ensures
            final(self).inv(),
            caught_up(*final(self)),
            *final(self) == (StorageEngine {
                applied_sequence: far(old(self).applied_sequence, old(self).wal@),
                ..*old(self)
            }),
    {
        let n: usize = self.wal.records().len();
        if n > 0 {
            let sequence: u64 = self.wal.records()[n - 1].sequence;
            proof {
                assert(self.wal@.last().sequence == sequence);
            }
            if sequence > self.applied_sequence {
                self.applied_sequence = sequence;
            }
        }
        proof {
            old(self).lemma_log();
            lemma_redone_early(self.wal@, self.wal@.len(), self.applied_sequence);
            reveal(charted);
        }
    }
}

/// The log holds nothing that is not carried out.
pub open spec fn caught_up(e: StorageEngine) -> bool {
    recovered(e.log(), e.applied()) == Seq::<OperationView>::empty()
}

/// The last sequence number of the log, if it is past `applied`.
pub open spec fn far(applied: u64, log: Seq<WalRecordView>) -> u64 {
    if log.len() > 0 && log.last().sequence > applied {
        log.last().sequence
    } else {
        applied
    }
}

proof fn lemma_redone_prefix(log: Seq<WalRecordView>, a: nat, b: nat, checkpoint: u64)
    requires
        a <= b <= log.len(),
    ensures
        redone(log, a, checkpoint).len() <= redone(log, b, checkpoint).len(),
        redone(log, b, checkpoint).take(redone(log, a, checkpoint).len() as int) == redone(log, a, checkpoint),
    decreases b,
{
    let early = redone(log, a, checkpoint);
    if a < b {
        lemma_redone_prefix(log, a, (b - 1) as nat, checkpoint);
        let before = redone(log, (b - 1) as nat, checkpoint);
        let late = redone(log, b, checkpoint);
        assert(late.take(early.len() as int) =~= before.take(early.len() as int));
    } else {
        assert(early.take(early.len() as int) =~= early);
    }
}

/// A record that is due gives the next operation of the recovery.
proof fn lemma_next_redone(log: Seq<WalRecordView>, i: nat, checkpoint: u64)
    requires
        i < log.len(),
        due(log, log[i as int], checkpoint),
    ensures
        ({
            let part = redone(log, i, checkpoint);
            let ops = recovered(log, checkpoint);
            let op = log[i as int].operation->Apply_0;
            &&& redone(log, i + 1, checkpoint) == part.push(op)
            &&& part.len() < ops.len()
            &&& ops.take(part.len() as int) == part
            &&& ops[part.len() as int] == op
        }),
{
    let part = redone(log, i, checkpoint);
    let ops = recovered(log, checkpoint);
    let next = redone(log, i + 1, checkpoint);
    lemma_redone_prefix(log, i + 1, log.len(), checkpoint);
    assert forall|k: int| 0 <= k < next.len() implies ops[k] == next[k] by {
        assert(ops.take(next.len() as int)[k] == next[k]);
    }
    assert(ops.take(part.len() as int) =~= part);
}

proof fn lemma_counted_one(n: u64, ops: Seq<OperationView>, op: OperationView)
    ensures
        counted(n, ops.push(op)) == counted(counted(n, ops), seq![op]),
{
    let one = seq![op];
    let m = counted(n, ops);
    assert(ops.push(op).drop_last() =~= ops);
    assert(one.drop_last() =~= Seq::<OperationView>::empty());
    assert(one.last() == op);
    assert(counted(m, one.drop_last()) == m);
}

proof fn lemma_in_order_push(db: DbView, ops: Seq<OperationView>, op: OperationView)
    requires
        in_order(db, ops),
        fault(applied_all(db, ops), op) is None,
    ensures
        in_order(db, ops.push(op)),
{
    let all = ops.push(op);
    assert forall|i: int| 0 <= i < all.len() implies fault(applied_all(db, all.take(i)), #[trigger] all[i]) is None by {
        if i < ops.len() {
            assert(all.take(i) =~= ops.take(i));
            assert(fault(applied_all(db, ops.take(i)), ops[i]) is None);
        } else {
            assert(all.take(i) =~= ops);
        }
    }
}

// ---------------------------------------------------------------------
// Laws
// ---------------------------------------------------------------------

/// The log grew by records of one transaction that had none, or of none.
spec fn grew(before: Seq<WalRecordView>, after: Seq<WalRecordView>, id: u64) -> bool {
    &&& before.len() <= after.len()
    &&& after.take(before.len() as int) == before
    &&& forall|i: int| before.len() <= i < after.len() ==> (#[trigger] after[i]).transaction_id == id
    &&& id == STANDALONE_TRANSACTION_ID || forall|i: int|
        0 <= i < before.len() ==> (#[trigger] before[i]).transaction_id != id
}

proof fn lemma_others(before: Seq<WalRecordView>, after: Seq<WalRecordView>, id: u64, other: u64)
    requires
        grew(before, after, id),
        other != id,
    ensures
        of_transaction(after, other) == of_transaction(before, other),
{
    broadcast use Seq::filter_distributes_over_add;

    let keep = |r: WalRecordView| r.transaction_id == other;
    let rest = after.skip(before.len() as int);
    assert(after =~= before + rest);
    lemma_filter_none(rest, keep);
    let own = of_transaction(before, other);
    assert(own + Seq::<WalRecordView>::empty() =~= own);
}

/// Recovery does with the earlier records what it did before.
proof fn lemma_redone_same(before: Seq<WalRecordView>, after: Seq<WalRecordView>, id: u64, n: nat, checkpoint: u64)
    requires
        grew(before, after, id),
        n <= before.len(),
    ensures
        redone(after, n, checkpoint) == redone(before, n, checkpoint),
    decreases n,
{
    if n > 0 {
        lemma_redone_same(before, after, id, (n - 1) as nat, checkpoint);
        let record = before[n - 1];
        assert(after.take(before.len() as int)[n - 1] == after[n - 1]);
        if record.transaction_id != STANDALONE_TRANSACTION_ID {
            lemma_others(before, after, id, record.transaction_id);
        }
    }
}

/// Recovery carries out the operations of a frame.
proof fn lemma_redone_frame(
    before: Seq<WalRecordView>,
    after: Seq<WalRecordView>,
    id: u64,
    ops: Seq<OperationView>,
    k: nat,
    checkpoint: u64,
)
    requires
        framed(before, after, id, ops),
        grew(before, after, id),
        is_committed(after, id),
        forall|i: int| before.len() <= i < after.len() ==> (#[trigger] after[i]).sequence > checkpoint,
        k <= ops.len(),
    ensures
        redone(after, before.len() + 1 + k, checkpoint) == recovered(before, checkpoint) + ops.take(k as int),
    decreases k,
{
    let n = before.len();
    if k == 0 {
        lemma_redone_same(before, after, id, n, checkpoint);
        assert(!due(after, after[n as int], checkpoint));
        assert(recovered(before, checkpoint) + ops.take(0) =~= recovered(before, checkpoint));
    } else {
        lemma_redone_frame(before, after, id, ops, (k - 1) as nat, checkpoint);
        let record = after[(n + k) as int];
        assert(after[n + 1 + (k - 1)].operation == WalView::Apply(ops[k - 1]));
        assert(due(after, record, checkpoint));
        assert(ops.take(k as int) =~= ops.take(k - 1).push(ops[k - 1]));
        assert((recovered(before, checkpoint) + ops.take(k - 1)).push(ops[k - 1]) =~= recovered(before, checkpoint)
            + ops.take(k as int));
    }
}

proof fn lemma_redone_none(
    before: Seq<WalRecordView>,
    after: Seq<WalRecordView>,
    id: u64,
    n: nat,
    checkpoint: u64,
)
    requires
        grew(before, after, id),
        id != STANDALONE_TRANSACTION_ID,
        !is_committed(after, id),
        before.len() <= n <= after.len(),
    ensures
        redone(after, n, checkpoint) == recovered(before, checkpoint),
    decreases n,
{
    if n == before.len() {
        lemma_redone_same(before, after, id, n, checkpoint);
    } else {
        lemma_redone_none(before, after, id, (n - 1) as nat, checkpoint);
        assert(after[n - 1].transaction_id == id);
    }
}

/// What is carried out is recovered: after a change, recovery from any
/// checkpoint before it carries out what it would have, and the operations
/// of the change after that.
pub proof fn law_change_is_recovered(
    before: StorageEngine,
    after: StorageEngine,
    ops: Seq<OperationView>,
    alone: bool,
    checkpoint: u64,
)
    requires
        before.inv(),
        changes(Ok(()), before, after, ops, alone),
        checkpoint <= before.last_sequence(),
    ensures
        recovered(after.log(), checkpoint) == recovered(before.log(), checkpoint) + ops,
{
    let a = before.log();
    let b = after.log();
    let id = after.last_transaction();
    before.wal.lemma_wf();
    reveal(goes_on);
    if ops.len() == 0 {
        assert(recovered(a, checkpoint) + ops =~= recovered(a, checkpoint));
    } else if ops.len() == 1 && alone {
        assert(b.take(a.len() as int) =~= b.drop_last());
        assert(b[a.len() as int] == b.last());
        assert(grew(a, b, STANDALONE_TRANSACTION_ID));
        lemma_redone_same(a, b, STANDALONE_TRANSACTION_ID, a.len(), checkpoint);
        assert(due(b, b.last(), checkpoint));
        assert(recovered(a, checkpoint).push(ops[0]) =~= recovered(a, checkpoint) + ops);
    } else {
        assert(grew(a, b, id));
        law_frame_is_committed(a, b, id, ops);
        lemma_redone_frame(a, b, id, ops, ops.len(), checkpoint);
        assert(ops.take(ops.len() as int) =~= ops);
        assert(!due(b, b.last(), checkpoint));
    }
}

/// What the database holds is what recovery finds: if recovery of the log
/// over `start` gives what the engine holds, it does so after a change too.
pub proof fn law_recovery_restores(
    before: StorageEngine,
    after: StorageEngine,
    ops: Seq<OperationView>,
    alone: bool,
    checkpoint: u64,
    start: DbView,
)
    requires
        before.inv(),
        changes(Ok(()), before, after, ops, alone),
        before@ == applied_all(start, recovered(before.log(), checkpoint)),
        checkpoint <= before.last_sequence(),
    ensures
        after@ == applied_all(start, recovered(after.log(), checkpoint)),
{
    law_change_is_recovered(before, after, ops, alone, checkpoint);
    lemma_applied_join(start, recovered(before.log(), checkpoint), ops);
}

/// What is given up is not recovered.
pub proof fn law_given_up_is_not_recovered(
    before: Seq<WalRecordView>,
    after: Seq<WalRecordView>,
    id: u64,
    checkpoint: u64,
)
    requires
        given_up(before, after, id),
        id != STANDALONE_TRANSACTION_ID,
        forall|i: int| 0 <= i < before.len() ==> (#[trigger] before[i]).transaction_id != id,
    ensures
        recovered(after, checkpoint) == recovered(before, checkpoint),
{
    law_given_up_never_happened(before, after, id);
    assert(grew(before, after, id));
    lemma_redone_none(before, after, id, after.len(), checkpoint);
}

/// A frame whose end is torn off is not committed.
proof fn lemma_torn(before: Seq<WalRecordView>, after: Seq<WalRecordView>, id: u64, ops: Seq<OperationView>, k: int)
    requires
        framed(before, after, id, ops),
        before.len() <= k < after.len(),
    ensures
        given_up(before, after.take(k), id),
{
    let torn = after.take(k);
    let n = before.len();
    assert(torn.take(n as int) =~= after.take(n as int));
    assert forall|i: int| n <= i < torn.len() implies (#[trigger] torn[i]).transaction_id == id && !(
    torn[i].operation is Commit) by {
        assert(torn[i] == after[i]);
        if i > n {
            assert(after[n + 1 + (i - n - 1)].operation == WalView::Apply(ops[i - n - 1]));
        }
    }
}

/// A crash leaves all of a change or nothing: wherever in the change's
/// records the log ends, recovery finds what the database held before it, or,
/// with the last of them, what it holds after it.
pub proof fn law_crash_leaves_all_or_nothing(
    before: StorageEngine,
    after: StorageEngine,
    ops: Seq<OperationView>,
    alone: bool,
    checkpoint: u64,
    start: DbView,
    k: int,
)
    requires
        before.inv(),
        changes(Ok(()), before, after, ops, alone),
        before@ == applied_all(start, recovered(before.log(), checkpoint)),
        checkpoint <= before.last_sequence(),
        before.log().len() <= k <= after.log().len(),
    ensures
        applied_all(start, recovered(after.log().take(k), checkpoint)) == (if k == after.log().len() {
            after@
        } else {
            before@
        }),
{
    let a = before.log();
    let b = after.log();
    let id = after.last_transaction();
    before.wal.lemma_wf();
    reveal(goes_on);
    if k == b.len() {
        assert(b.take(k) =~= b);
        law_recovery_restores(before, after, ops, alone, checkpoint, start);
    } else if ops.len() == 1 && alone {
        assert(b.take(k) =~= a) by {
            assert(b.drop_last() =~= b.take(k));
        }
    } else if ops.len() > 0 {
        lemma_torn(a, b, id, ops, k);
        law_given_up_is_not_recovered(a, b.take(k), id, checkpoint);
    }
}

/// Past the checkpoint recovery does with the shorter log what it does with
/// the longer one.
proof fn lemma_redone_rest(log: Seq<WalRecordView>, n: nat, k: nat, checkpoint: u64)
    requires
        n <= k <= log.len(),
        unsplit(log, checkpoint),
        forall|i: int| 0 <= i < n ==> (#[trigger] log[i]).sequence <= checkpoint,
        forall|i: int| n <= i < log.len() ==> (#[trigger] log[i]).sequence > checkpoint,
    ensures
        redone(log, k, checkpoint) == redone(log.skip(n as int), (k - n) as nat, checkpoint),
    decreases k,
{
    broadcast use Seq::filter_distributes_over_add;

    let rest = log.skip(n as int);
    if k > n {
        lemma_redone_rest(log, n, (k - 1) as nat, checkpoint);
        let record = log[k - 1];
        let id = record.transaction_id;
        assert(rest[k - n - 1] == record);
        if id != STANDALONE_TRANSACTION_ID {
            let early = log.take(n as int);
            assert(log =~= early + rest);
            assert forall|i: int| 0 <= i < early.len() implies !(|r: WalRecordView| r.transaction_id == id)(
                #[trigger] early[i],
            ) by {
                assert(early[i] == log[i]);
                assert(log[i].sequence <= checkpoint);
                if log[i].transaction_id == id {
                    assert(log[k - 1].sequence <= checkpoint);
                }
            }
            lemma_filter_none(early, |r: WalRecordView| r.transaction_id == id);
            assert(Seq::<WalRecordView>::empty() + of_transaction(rest, id) =~= of_transaction(rest, id));
        }
    } else {
        lemma_redone_early(log, n, checkpoint);
    }
}

proof fn lemma_redone_early(log: Seq<WalRecordView>, n: nat, checkpoint: u64)
    requires
        n <= log.len(),
        forall|i: int| 0 <= i < n ==> (#[trigger] log[i]).sequence <= checkpoint,
    ensures
        redone(log, n, checkpoint) == Seq::<OperationView>::empty(),
    decreases n,
{
    if n > 0 {
        lemma_redone_early(log, (n - 1) as nat, checkpoint);
        assert(log[n - 1].sequence <= checkpoint);
    }
}

/// Writing the log anew past a checkpoint that splits no transaction changes
/// nothing of what recovery from that checkpoint carries out.
pub proof fn law_rotation_keeps_recovery(log: Seq<WalRecordView>, checkpoint: u64)
    requires
        ascending(log),
        unsplit(log, checkpoint),
    ensures
        recovered(past_checkpoint(log, checkpoint), checkpoint) == recovered(log, checkpoint),
{
    let keep = |r: WalRecordView| r.sequence > checkpoint;
    let n = lemma_boundary(log, checkpoint, log.len());
    lemma_filter_suffix(log, keep, n as int);
    lemma_redone_rest(log, n, log.len(), checkpoint);
}

/// A change keeps the log carried out, unless it went wrong half way.
pub proof fn law_changes_keep_up(
    r: Result<(), TransactionError>,
    before: StorageEngine,
    after: StorageEngine,
    ops: Seq<OperationView>,
    alone: bool,
)
    requires
        before.inv(),
        after.inv(),
        changes(r, before, after, ops, alone),
        !after.failed(),
        caught_up(before),
    ensures
        caught_up(after),
{
    before.lemma_log();
    after.lemma_log();
    lemma_applied_after(r, before, after, ops, alone);
    if r is Ok && ops.len() > 0 {
        lemma_redone_early(after.log(), after.log().len(), after.applied());
    } else if after.log() != before.log() {
        law_given_up_is_not_recovered(before.log(), after.log(), after.last_transaction(), before.applied());
    }
}

proof fn lemma_applied_after(
    r: Result<(), TransactionError>,
    before: StorageEngine,
    after: StorageEngine,
    ops: Seq<OperationView>,
    alone: bool,
)
    requires
        changes(r, before, after, ops, alone),
    ensures
        r is Ok && ops.len() > 0 ==> after.applied() == after.last_sequence(),
        !(r is Ok && ops.len() > 0) ==> after.applied() == before.applied(),
        before.last_sequence() <= after.last_sequence(),
        !after.failed() && !(r is Ok) && after.log() != before.log() ==> {
            &&& given_up(before.log(), after.log(), after.last_transaction())
            &&& after.last_transaction() == before.last_transaction() + 1
        },
        r is Ok && ops.len() == 0 ==> after.log() == before.log(),
{
    reveal(goes_on);
}

/// A checkpoint moves to the last record that is carried out, if its file is
/// not ahead of that: this is what its steps write, and where the log begins
/// that is written anew.
pub proof fn law_checkpoint_is_where_the_engine_is(
    r: Result<Vec<CheckpointStep>, CheckpointFault>,
    before: StorageEngine,
    after: StorageEngine,
    file: Option<Seq<u8>>,
    rotates: bool,
) -> (durable: u64)
    requires
        before.inv(),
        checkpoints(r, before, after, file, rotates),
        r is Ok,
        checkpoint_of(file)->Ok_0 <= before.applied(),
    ensures
        durable == before.applied(),
        exists|heap: StoreView| #[trigger]
            settles_at(
                steps_view(r->Ok_0@),
                before,
                after,
                checkpoint_of(file)->Ok_0,
                rotates,
                durable,
                heap,
            ),
{
    before.lemma_log();
    let current = checkpoint_of(file)->Ok_0;
    let (durable, heap) = choose|durable: u64, heap: StoreView| #[trigger]
        settles_at(
            steps_view(r->Ok_0@),
            before,
            after,
            current,
            rotates,
            durable,
            heap,
        );
    durable
}

/// A checkpoint keeps the log carried out, if its file is not ahead of what
/// is carried out.
pub proof fn law_checkpoint_keeps_up(
    r: Result<Vec<CheckpointStep>, CheckpointFault>,
    before: StorageEngine,
    after: StorageEngine,
    file: Option<Seq<u8>>,
    rotates: bool,
)
    requires
        before.inv(),
        checkpoints(r, before, after, file, rotates),
        !after.failed(),
        caught_up(before),
        checkpoint_of(file) is Ok ==> checkpoint_of(file)->Ok_0 <= before.applied(),
    ensures
        caught_up(after),
{
    before.lemma_log();
    if r is Ok && rotates {
        let durable = law_checkpoint_is_where_the_engine_is(r, before, after, file, rotates);
        law_rotation_keeps_recovery(before.log(), durable);
    }
}

/// Each engine comes of the one before it by a change, and none failed.
pub open spec fn is_run(
    run: Seq<StorageEngine>,
    results: Seq<Result<(), TransactionError>>,
    batches: Seq<(Seq<OperationView>, bool)>,
) -> bool {
    &&& run.len() == batches.len() + 1
    &&& results.len() == batches.len()
    &&& forall|k: int| 0 <= k < run.len() ==> (#[trigger] run[k]).inv() && !run[k].failed()
    &&& forall|k: int|
        0 <= k < batches.len() ==> changes(#[trigger] results[k], run[k], run[k + 1], batches[k].0, batches[k].1)
}

/// Operations that were taken together are taken one after the other.
proof fn lemma_in_turn(db: DbView, ops: Seq<OperationView>)
    requires
        acceptable(db, ops),
        ops.len() <= 1 || declares_nothing(ops),
    ensures
        in_order(db, ops),
{
    assert forall|i: int| 0 <= i < ops.len() implies fault(applied_all(db, ops.take(i)), #[trigger] ops[i]) is None by {
        assert(fault(db, ops[i]) is None);
        lemma_still_admissible(db, ops, i);
        lemma_fault(applied_all(db, ops.take(i)), ops[i]);
    }
}

proof fn lemma_in_order_join(db: DbView, a: Seq<OperationView>, b: Seq<OperationView>)
    requires
        in_order(db, a),
        in_order(applied_all(db, a), b),
    ensures
        in_order(db, a + b),
{
    let all = a + b;
    assert forall|i: int| 0 <= i < all.len() implies fault(applied_all(db, all.take(i)), #[trigger] all[i]) is None by {
        if i < a.len() {
            assert(all.take(i) =~= a.take(i));
            assert(fault(applied_all(db, a.take(i)), a[i]) is None);
        } else {
            let k = i - a.len();
            assert(all.take(i) =~= a + b.take(k));
            lemma_applied_join(db, a, b.take(k));
            assert(fault(applied_all(applied_all(db, a), b.take(k)), b[k]) is None);
        }
    }
}

/// Operations that declare nothing are taken again where they were taken.
proof fn lemma_in_order_again(db: DbView, ops: Seq<OperationView>)
    requires
        in_order(db, ops),
        declares_nothing(ops),
    ensures
        in_order(applied_all(db, ops), ops),
{
    let later = applied_all(db, ops);
    assert(ops.take(ops.len() as int) =~= ops);
    lemma_declared_kept(db, ops, ops.len() as int);
    assert forall|i: int| 0 <= i < ops.len() implies fault(applied_all(later, ops.take(i)), #[trigger] ops[i]) is None by {
        lemma_declared_kept(db, ops, i);
        lemma_declared_kept(later, ops, i);
        assert(fault(applied_all(db, ops.take(i)), ops[i]) is None);
        assert(!declares(ops[i]));
        lemma_fault(applied_all(db, ops.take(i)), ops[i]);
        lemma_fault(applied_all(later, ops.take(i)), ops[i]);
    }
}

/// What recovery from a checkpoint gives before a change it gives after it,
/// with what the change did.
proof fn lemma_run_step(
    r: Result<(), TransactionError>,
    before: StorageEngine,
    after: StorageEngine,
    ops: Seq<OperationView>,
    alone: bool,
    checkpoint: u64,
    start: DbView,
)
    requires
        before.inv(),
        !after.failed(),
        changes(r, before, after, ops, alone),
        checkpoint <= before.last_sequence(),
        in_order(start, recovered(before.log(), checkpoint)),
        before@ == applied_all(start, recovered(before.log(), checkpoint)),
    ensures
        checkpoint <= after.last_sequence(),
        in_order(start, recovered(after.log(), checkpoint)),
        after@ == applied_all(start, recovered(after.log(), checkpoint)),
{
    lemma_applied_after(r, before, after, ops, alone);
    match r {
        Ok(u) => {
            lemma_done(u, before, after, ops, alone, checkpoint, start);
        },
        Err(_) => {
            lemma_not_done(r, before, after, ops, alone, checkpoint);
        },
    }
}

proof fn lemma_done(
    u: (),
    before: StorageEngine,
    after: StorageEngine,
    ops: Seq<OperationView>,
    alone: bool,
    checkpoint: u64,
    start: DbView,
)
    requires
        before.inv(),
        changes(Ok(u), before, after, ops, alone),
        checkpoint <= before.last_sequence(),
        in_order(start, recovered(before.log(), checkpoint)),
        before@ == applied_all(start, recovered(before.log(), checkpoint)),
    ensures
        in_order(start, recovered(after.log(), checkpoint)),
        after@ == applied_all(start, recovered(after.log(), checkpoint)),
{
    assert(u == ());
    law_recovery_restores(before, after, ops, alone, checkpoint, start);
    law_change_is_recovered(before, after, ops, alone, checkpoint);
    lemma_in_turn(before@, ops);
    lemma_in_order_join(start, recovered(before.log(), checkpoint), ops);
}

/// A change that is not carried out leaves what the database holds, and what
/// recovery finds.
proof fn lemma_not_done(
    r: Result<(), TransactionError>,
    before: StorageEngine,
    after: StorageEngine,
    ops: Seq<OperationView>,
    alone: bool,
    checkpoint: u64,
)
    requires
        before.inv(),
        !after.failed(),
        !(r is Ok),
        changes(r, before, after, ops, alone),
    ensures
        after@ == before@,
        recovered(after.log(), checkpoint) == recovered(before.log(), checkpoint),
{
    lemma_applied_after(r, before, after, ops, alone);
    if after.log() != before.log() {
        before.lemma_log();
        law_given_up_is_not_recovered(before.log(), after.log(), after.last_transaction(), checkpoint);
    }
}

/// What the database holds after any run of changes is what recovery from a
/// place where the log was carried out finds over what it held there; and the
/// tables take every operation that recovery carries out.
pub proof fn law_run_is_recovered(
    run: Seq<StorageEngine>,
    results: Seq<Result<(), TransactionError>>,
    batches: Seq<(Seq<OperationView>, bool)>,
    k: int,
)
    requires
        is_run(run, results, batches),
        caught_up(run[0]),
        0 <= k < run.len(),
    ensures
        run[0].applied() <= run[k].last_sequence(),
        in_order(run[0]@, recovered(run[k].log(), run[0].applied())),
        run[k]@ == applied_all(run[0]@, recovered(run[k].log(), run[0].applied())),
    decreases k,
{
    run[0].lemma_log();
    if k > 0 {
        law_run_is_recovered(run, results, batches, k - 1);
        let (ops, alone) = batches[k - 1];
        assert(changes(results[k - 1], run[k - 1], run[k - 1 + 1], ops, alone));
        assert(run[k - 1].inv() && !run[k].failed());
        lemma_run_step(results[k - 1], run[k - 1], run[k], ops, alone, run[0].applied(), run[0]@);
    }
}

/// What the database holds after a checkpoint and any run of changes is what
/// recovery from that checkpoint finds, and none of it is refused.
pub proof fn law_checkpoint_and_log_hold_the_database(
    r: Result<Vec<CheckpointStep>, CheckpointFault>,
    before: StorageEngine,
    file: Option<Seq<u8>>,
    rotates: bool,
    run: Seq<StorageEngine>,
    results: Seq<Result<(), TransactionError>>,
    batches: Seq<(Seq<OperationView>, bool)>,
    k: int,
) -> (durable: u64)
    requires
        before.inv(),
        caught_up(before),
        r is Ok,
        is_run(run, results, batches),
        checkpoints(r, before, run[0], file, rotates),
        checkpoint_of(file)->Ok_0 <= before.applied(),
        0 <= k < run.len(),
    ensures
        durable == before.applied(),
        exists|heap: StoreView| #[trigger]
            settles_at(
                steps_view(r->Ok_0@),
                before,
                run[0],
                checkpoint_of(file)->Ok_0,
                rotates,
                durable,
                heap,
            ),
        in_order(before@, recovered(run[k].log(), durable)),
        run[k]@ == applied_all(before@, recovered(run[k].log(), durable)),
{
    let durable = law_checkpoint_is_where_the_engine_is(r, before, run[0], file, rotates);
    law_checkpoint_keeps_up(r, before, run[0], file, rotates);
    law_run_is_recovered(run, results, batches, k);
    durable
}

/// What the files hold when the first steps of a checkpoint are carried out
/// and the others are not: the tables as they were at the checkpoint before
/// or as they are, where the indexes are written and the records that they
/// lead to, the log as it is or written anew, and where the checkpoint
/// is.
pub struct Files {
    pub db: DbView,
    pub log: Seq<WalRecordView>,
    pub checkpoint: u64,
}

pub open spec fn files_after(
    done: Seq<CheckpointStepView>,
    start: DbView,
    before: StorageEngine,
    after: StorageEngine,
    current: u64,
) -> Files {
    Files {
        db: if done.contains(CheckpointStepView::Indexes) && flushed(done, after.heap()) {
            before@
        } else {
            start
        },
        log: if done.contains(CheckpointStepView::Log) {
            after.log()
        } else {
            before.log()
        },
        checkpoint: if done.contains(CheckpointStepView::Checkpoint(digits_of(before.applied() as nat))) {
            before.applied()
        } else {
            current
        },
    }
}

/// Where the steps of a checkpoint are.
proof fn lemma_step_places(
    steps: Seq<CheckpointStepView>,
    heap: StoreView,
    current: u64,
    durable: u64,
    rotates: bool,
    gone: Seq<(u32, u64)>,
    k: int,
)
    requires
        checkpoint_steps(steps, heap, current, durable, rotates, gone),
        0 <= k <= steps.len(),
    ensures
        ({
            let done = steps.take(k);
            let a = sync_steps(heap).len();
            let w = written_file(current, durable).len();
            &&& done.contains(CheckpointStepView::Indexes) <==> k > a
            &&& done.contains(CheckpointStepView::Checkpoint(digits_of(durable as nat))) <==> durable > current && k > a + 1
            &&& done.contains(CheckpointStepView::Log) <==> rotates && k > a + 1 + w
        }),
{
    let done = steps.take(k);
    let a = sync_steps(heap).len();
    let w = written_file(current, durable).len();
    let l = written_log(rotates).len();
    assert forall|i: int| 0 <= i < steps.len() implies {
        &&& i < a || i >= a + 1 + w + l ==> #[trigger] steps[i] is Heap
        &&& i == a ==> steps[i] is Indexes
        &&& a < i < a + 1 + w ==> steps[i] == CheckpointStepView::Checkpoint(digits_of(durable as nat))
        &&& a + 1 + w <= i < a + 1 + w + l ==> steps[i] is Log
    } by {
        if i >= a + 1 + w + l {
            lemma_drops_are_heap(gone, i - (a + 1 + w + l));
        }
    }
    if k > a {
        assert(done[a as int] == steps[a as int]);
    }
    if durable > current && k > a + 1 {
        let next = a + 1;
        assert(done[next as int] == steps[next as int]);
    }
    if rotates && k > a + 1 + w {
        assert(done[(a + 1 + w) as int] == steps[(a + 1 + w) as int]);
    }
    assert forall|i: int| 0 <= i < done.len() implies #[trigger] done[i] == steps[i] by {}
}

proof fn lemma_drops_are_heap(gone: Seq<(u32, u64)>, i: int)
    requires
        0 <= i < drop_steps(gone).len(),
    ensures
        drop_steps(gone)[i] is Heap,
    decreases gone.len(),
{
    if gone.len() > 0 {
        if i < drop_steps(gone.drop_last()).len() {
            lemma_drops_are_heap(gone.drop_last(), i);
        }
    }
}

/// A crash between any two steps of a checkpoint loses nothing: recovery of
/// what the files then hold finds what the database holds. Where the tables
/// took the operations in the log and none declares anything, they take what
/// recovery carries out.
pub proof fn law_crash_between_steps_loses_nothing(
    r: Result<Vec<CheckpointStep>, CheckpointFault>,
    before: StorageEngine,
    after: StorageEngine,
    file: Option<Seq<u8>>,
    rotates: bool,
    start: DbView,
    k: int,
)
    requires
        before.inv(),
        caught_up(before),
        checkpoints(r, before, after, file, rotates),
        r is Ok,
        checkpoint_of(file)->Ok_0 <= before.applied(),
        well_named(start),
        before@ == applied_all(start, recovered(before.log(), checkpoint_of(file)->Ok_0)),
        0 <= k <= r->Ok_0@.len(),
    ensures
        ({
            let left = files_after(
                steps_view(r->Ok_0@).take(k),
                start,
                before,
                after,
                checkpoint_of(file)->Ok_0,
            );
            let ops = recovered(before.log(), checkpoint_of(file)->Ok_0);
            &&& applied_all(left.db, recovered(left.log, left.checkpoint)) == before@
            &&& in_order(start, ops) && declares_nothing(ops) ==> in_order(
                left.db,
                recovered(left.log, left.checkpoint),
            )
        }),
{
    let steps = steps_view(r->Ok_0@);
    let current = checkpoint_of(file)->Ok_0;
    let durable = law_checkpoint_is_where_the_engine_is(r, before, after, file, rotates);
    let heap = choose|heap: StoreView| #[trigger]
        settles_at(steps, before, after, current, rotates, durable, heap);
    let gone = ready(before.readers(), retired_now(before));
    lemma_step_places(steps, heap, current, durable, rotates, gone, k);
    if k > sync_steps(heap).len() {
        lemma_flushed(steps, heap, current, durable, rotates, gone, k);
    }
    before.lemma_log();
    let ops = recovered(before.log(), current);
    assert(ops.take(ops.len() as int) =~= ops);
    law_replay_is_idempotent(start, ops, ops.len() as int);
    law_rotation_keeps_recovery(before.log(), durable);
    assert(applied_all(before@, Seq::<OperationView>::empty()) == before@);
    if in_order(start, ops) && declares_nothing(ops) {
        lemma_in_order_again(start, ops);
    }
}

} // verus!
