//! Carrying several operations out as one.

use vstd::prelude::*;

use crate::checkpoint::Fences;
use crate::commit::{appended, StagedCommit};
use crate::engine::{charted, stamped, StorageEngine};
use crate::tables::check::{fault, lemma_fault, OpError};
use crate::tables::model::{admissible, applied, applied_all, takes_room, DbView};
use crate::tables::refs::{dangle_report, references_ok};
use crate::tables::unique::{breaks, declares, declares_nothing, unique_ok};
use crate::tables::TableError;
use crate::transaction::{Invalidity, StorageFault, TransactionError};
use crate::wal::{
    grew_past, is_committed, lemma_unsplit_grown, of_transaction, operations_view, Operation, OperationView, Wal,
    WalOperation, WalRecordView, WalView,
};

verus! {

/// Nothing speaks against the operations.
pub open spec fn acceptable(db: DbView, ops: Seq<OperationView>) -> bool {
    &&& unique_ok(db, ops)
    &&& references_ok(db, ops)
    &&& forall|i: int| 0 <= i < ops.len() ==> fault(db, #[trigger] ops[i]) is None
}

/// What speaks against the operations: of a single one that stands alone,
/// that it does not fit; else first that a unique index would be broken, then
/// that a reference would dangle, then the first that does not fit.
pub open spec fn objects(db: DbView, ops: Seq<OperationView>, e: TransactionError, alone: bool) -> bool {
    let single = alone && ops.len() == 1;
    match e {
        TransactionError::Storage(StorageFault::Operation(x)) => if single {
            fault(db, ops[0]) == Some(x)
        } else {
            &&& unique_ok(db, ops)
            &&& references_ok(db, ops)
            &&& exists|i: int| #[trigger] first_fault(db, ops, i, x)
        },
        TransactionError::Invalid(Invalidity::Unique(u)) => {
            &&& single ==> fault(db, ops[0]) is None
            &&& breaks(db, ops, u)
        },
        TransactionError::Invalid(Invalidity::Reference(r)) => {
            &&& single ==> fault(db, ops[0]) is None
            &&& unique_ok(db, ops)
            &&& exists|i: int, k: int| #[trigger] dangle_report(db, ops, i, k, r)
        },
        _ => false,
    }
}

/// The operation at `i` is the first that does not fit, and this is why.
pub open spec fn first_fault(db: DbView, ops: Seq<OperationView>, i: int, x: OpError) -> bool {
    &&& 0 <= i < ops.len()
    &&& fault(db, ops[i]) == Some(x)
    &&& forall|k: int| 0 <= k < i ==> fault(db, #[trigger] ops[k]) is None
}

/// The log got the operations as one frame under `id`.
pub open spec fn framed(before: Seq<WalRecordView>, after: Seq<WalRecordView>, id: u64, ops: Seq<OperationView>) -> bool {
    let n = before.len();
    &&& after.len() == n + ops.len() + 2
    &&& after.take(n as int) == before
    &&& forall|i: int| n <= i < after.len() ==> (#[trigger] after[i]).transaction_id == id
    &&& after[n as int].operation == WalView::Begin
    &&& forall|i: int| 0 <= i < ops.len() ==> after[n + 1 + i].operation == WalView::Apply(#[trigger] ops[i])
    &&& after.last().operation == WalView::Commit
}

/// The log got the operations: none, one as a record of its own if it may
/// stand `alone`, several as a frame.
pub open spec fn logged(
    before: Seq<WalRecordView>,
    after: Seq<WalRecordView>,
    id: u64,
    ops: Seq<OperationView>,
    alone: bool,
) -> bool {
    if ops.len() == 0 {
        after == before
    } else if ops.len() == 1 && alone {
        appended(before, after, 0, WalView::Apply(ops[0]))
    } else {
        framed(before, after, id, ops)
    }
}

/// The log got at most records of a transaction that is not committed.
pub open spec fn given_up(before: Seq<WalRecordView>, after: Seq<WalRecordView>, id: u64) -> bool {
    &&& before.len() <= after.len()
    &&& after.take(before.len() as int) == before
    &&& forall|i: int|
        before.len() <= i < after.len() ==> (#[trigger] after[i]).transaction_id == id && !(after[i].operation is Commit)
}

/// The log has not got `n` numbers of every sort left.
pub open spec fn log_short(e: StorageEngine, n: nat) -> bool {
    ||| e.last_sequence() + n > u64::MAX
    ||| e.last_operation() + n > u64::MAX
    ||| e.last_transaction() == u64::MAX
}

/// A count that grows by one, up to the largest number.
pub open spec fn bumped(n: u64) -> u64 {
    if n == u64::MAX {
        u64::MAX
    } else {
        (n + 1) as u64
    }
}

/// A count of writes after the operations; it starts over when it is full.
pub open spec fn counted(n: u64, ops: Seq<OperationView>) -> u64
    decreases ops.len(),
{
    if ops.len() == 0 {
        n
    } else {
        let before = counted(n, ops.drop_last());
        if !writes(ops.last()) {
            before
        } else if before == u64::MAX {
            0
        } else {
            (before + 1) as u64
        }
    }
}

/// Some of the operations need room in the heap or in an index.
pub open spec fn some_take_room(ops: Seq<OperationView>) -> bool {
    exists|i: int| 0 <= i < ops.len() && takes_room(#[trigger] ops[i])
}

/// How far the log is, and what is counted.
pub struct Marks {
    pub log: Seq<WalRecordView>,
    pub sequence: u64,
    pub transaction: u64,
    pub applied: u64,
    pub pending: u64,
    pub writes: u64,
    pub reads: u64,
}

pub open spec fn marks(e: StorageEngine) -> Marks {
    Marks {
        log: e.log(),
        sequence: e.last_sequence(),
        transaction: e.last_transaction(),
        applied: e.applied(),
        pending: e.pending(),
        writes: e.writes(),
        reads: e.reads(),
    }
}

/// What the log had it has, and what came to it lies past `last`.
#[verifier::opaque]
pub open spec fn goes_on(before: Seq<WalRecordView>, after: Seq<WalRecordView>, last: u64) -> bool {
    grew_past(before, after, last)
}

/// The log grew past where it was, by no more numbers than the operations
/// take. Where they are carried out, that is noted and counted; where they are
/// not, nothing is. Reads are not counted.
pub open spec fn progress(done: bool, broken: bool, before: Marks, after: Marks, ops: Seq<OperationView>) -> bool {
    &&& goes_on(before.log, after.log, before.sequence)
    &&& before.sequence <= after.sequence <= before.sequence + ops.len() + 2
    &&& before.transaction <= after.transaction <= before.transaction + 1
    &&& if done && ops.len() > 0 {
        &&& after.applied == after.sequence
        &&& after.pending == bumped(before.pending)
    } else {
        &&& after.applied == before.applied
        &&& after.pending == before.pending
    }
    &&& !broken ==> after.writes == (if done {
        counted(before.writes, ops)
    } else {
        before.writes
    })
    &&& after.reads == before.reads
}

/// Where nothing is done there is no progress.
pub proof fn lemma_unmoved(e: StorageEngine, ops: Seq<OperationView>)
    ensures
        progress(false, e.failed(), marks(e), marks(e), ops),
        ops.len() == 0 ==> progress(true, e.failed(), marks(e), marks(e), ops),
{
    reveal(goes_on);
    assert(e.log().take(e.log().len() as int) =~= e.log());
}

/// What a change gives, and what becomes of the engine.
pub open spec fn changes(
    r: Result<(), TransactionError>,
    before: StorageEngine,
    after: StorageEngine,
    ops: Seq<OperationView>,
    alone: bool,
) -> bool {
    &&& after.limits() == before.limits()
    &&& after.readers() == before.readers()
    &&& after.epoch() == before.epoch()
    &&& after.retired() == before.retired()
    &&& before.last_operation() <= after.last_operation() <= before.last_operation() + 2 * ops.len() + 2
    &&& progress(r is Ok, after.failed(), marks(before), marks(after), ops)
    &&& match r {
        Ok(()) => {
            &&& !before.failed()
            &&& !after.failed()
            &&& acceptable(before@, ops)
            &&& ops.len() <= 1 || declares_nothing(ops)
            &&& after@ == applied_all(before@, ops)
            &&& logged(before.log(), after.log(), after.last_transaction(), ops, alone)
            &&& ops.len() >= 2 || (ops.len() == 1 && !alone) ==> after.last_transaction() == before.last_transaction() + 1
        },
        Err(TransactionError::Storage(StorageFault::Failed)) => {
            &&& before.failed()
            &&& after.failed()
            &&& after.log() == before.log()
        },
        Err(TransactionError::Storage(StorageFault::LogFull)) => {
            &&& !before.failed()
            &&& !after.failed()
            &&& acceptable(before@, ops)
            &&& after@ == before@
            &&& log_short(before, 2 * ops.len() + 2)
            &&& given_up(before.log(), after.log(), after.last_transaction())
            &&& after.log() == before.log() || after.last_transaction() == before.last_transaction() + 1
        },
        Err(TransactionError::Storage(StorageFault::Table(_))) => {
            &&& !before.failed()
            &&& after.failed()
            &&& !after.has_room()
            &&& some_take_room(ops)
            &&& acceptable(before@, ops)
            &&& logged(before.log(), after.log(), after.last_transaction(), ops, alone)
        },
        Err(e) => {
            &&& !before.failed()
            &&& !after.failed()
            &&& objects(before@, ops, e, alone)
            &&& after@ == before@
            &&& after.log() == before.log()
        },
    }
}

/// Operations that declare nothing leave what is declared.
pub(super) proof fn lemma_declared_kept(db: DbView, ops: Seq<OperationView>, i: int)
    requires
        0 <= i <= ops.len(),
        declares_nothing(ops),
    ensures
        applied_all(db, ops.take(i)).data == db.data,
        applied_all(db, ops.take(i)).text == db.text,
    decreases i,
{
    let now = ops.take(i);
    if i > 0 {
        lemma_declared_kept(db, ops, i - 1);
        assert(now.drop_last() =~= ops.take(i - 1));
        assert(now.last() == ops[i - 1]);
        assert(!declares(ops[i - 1]));
    }
}

/// An operation that nothing speaks against at first is admissible when its
/// turn comes.
pub(super) proof fn lemma_still_admissible(db: DbView, ops: Seq<OperationView>, i: int)
    requires
        0 <= i < ops.len(),
        ops.len() <= 1 || declares_nothing(ops),
        fault(db, ops[i]) is None,
    ensures
        admissible(applied_all(db, ops.take(i)), ops[i]),
{
    lemma_fault(db, ops[i]);
    if declares_nothing(ops) {
        lemma_declared_kept(db, ops, i);
        assert(!declares(ops[i]));
    } else {
        assert(ops.take(i) =~= Seq::<OperationView>::empty());
    }
}

/// The operations keep no state under a version past `top`.
pub open spec fn stamps_below(ops: Seq<OperationView>, top: u64) -> bool {
    forall|i: int| 0 <= i < ops.len() && #[trigger] ops[i] is Archive ==> ops[i]->Archive_0.version <= top
}

impl StorageEngine {
    /// What every step of a change keeps.
    pub(super) open spec fn under_way(&self, start: &StorageEngine) -> bool {
        &&& self.limits == start.limits
        &&& self.readers == start.readers
        &&& self.epoch == start.epoch
        &&& self.retired == start.retired
        &&& self.reads_total == start.reads_total
        &&& self.wal == start.wal
        &&& self.fences == start.fences
        &&& self.applied_sequence == start.applied_sequence
        &&& self.pending_mutations == start.pending_mutations
    }

    /// Has the tables carry one operation out.
    pub(super) fn apply_one(&mut self, operation: &Operation) -> (r: Result<(), TableError>)
        requires
            old(self).steady(),
            !old(self).failed(),
            admissible(old(self)@, operation@),
            operation@ is Archive ==> operation@->Archive_0.version <= old(self).last_operation(),
        ensures
            final(self).steady(),
            final(self).under_way(old(self)),
            match r {
                Ok(()) => {
                    &&& !final(self).failed()
                    &&& final(self)@ == applied(old(self)@, operation@)
                    &&& final(self).writes_total == counted(old(self).writes_total, seq![operation@])
                },
                Err(_) => {
                    &&& final(self).failed()
                    &&& !final(self).has_room()
                    &&& takes_room(operation@)
                },
            },
    {
        let ghost before = *self;
        proof {
            let one = seq![operation@];
            assert(one.drop_last() =~= Seq::<OperationView>::empty());
            assert(counted(self.writes_total, one.drop_last()) == self.writes_total);
        }
        match self.tables.apply_operation(operation, &mut self.cache) {
            Ok(()) => {},
            Err(e) => {
                self.failed = true;
                return Err(e);
            },
        }
        self.count_write(operation);
        proof {
            assert(self.tables@ == applied(before@, operation@));
            lemma_stamped(before@.history, operation@, self.wal.last_operation());
            assert forall|k: int| 0 <= k < self.retired@.len() implies self.tables.spare(
                (#[trigger] self.retired@[k]).0,
            ) by {
                assert(before.tables.spare(before.retired@[k].0));
                crate::tables::compact::lemma_spare_kept(before.tables, self.tables, self.retired@[k].0);
            }
        }
        Ok(())
    }

    /// Has the tables carry the operations out, which are in the log.
    fn apply_all(&mut self, ops: &Vec<Operation>) -> (r: Result<(), TableError>)
        requires
            old(self).steady(),
            !old(self).failed(),
            ops@.len() <= 1 || declares_nothing(operations_view(ops@)),
            acceptable(old(self)@, operations_view(ops@)),
            stamps_below(operations_view(ops@), old(self).last_operation()),
        ensures
            final(self).steady(),
            final(self).under_way(old(self)),
            match r {
                Ok(()) => {
                    &&& !final(self).failed()
                    &&& final(self)@ == applied_all(old(self)@, operations_view(ops@))
                    &&& final(self).writes_total == counted(old(self).writes_total, operations_view(ops@))
                },
                Err(_) => {
                    &&& final(self).failed()
                    &&& !final(self).has_room()
                    &&& some_take_room(operations_view(ops@))
                },
            },
    {
        let ghost view = operations_view(ops@);
        let ghost db = self@;
        let mut i: usize = 0;
        proof {
            assert(view.take(0) =~= Seq::<OperationView>::empty());
        }
        while i < ops.len()
            invariant
                i <= ops@.len(),
                view == operations_view(ops@),
                db == old(self)@,
                view.len() <= 1 || declares_nothing(view),
                acceptable(db, view),
                stamps_below(view, self.wal.last_operation()),
                self.steady(),
                !self.failed,
                self.under_way(old(self)),
                self@ == applied_all(db, view.take(i as int)),
                self.writes_total == counted(old(self).writes_total, view.take(i as int)),
            decreases ops.len() - i,
        {
            let operation = &ops[i];
            proof {
                assert(view[i as int] == operation@);
                assert(fault(db, view[i as int]) is None);
                lemma_still_admissible(db, view, i as int);
                let next = view.take(i + 1);
                assert(next.drop_last() =~= view.take(i as int));
                assert(next.last() == operation@);
                let one = seq![operation@];
                assert(one.drop_last() =~= Seq::<OperationView>::empty());
                assert(one.last() == operation@);
                assert(counted(self.writes_total, one.drop_last()) == self.writes_total);
            }
            match self.apply_one(operation) {
                Ok(()) => {},
                Err(e) => {
                    proof {
                        assert(takes_room(view[i as int]));
                    }
                    return Err(e);
                },
            }
            i = i + 1;
        }
        proof {
            assert(view.take(view.len() as int) =~= view);
        }
        Ok(())
    }

    /// Counts what an operation writes.
    pub(super) fn count_write(&mut self, operation: &Operation)
        ensures
            final(self).writes_total == (if writes(operation@) {
                if old(self).writes_total == u64::MAX {
                    0
                } else {
                    (old(self).writes_total + 1) as u64
                }
            } else {
                old(self).writes_total
            }),
            *final(self) == (StorageEngine { writes_total: final(self).writes_total, ..*old(self) }),
    {
        match operation {
            Operation::Insert(_) | Operation::Delete(_) | Operation::InsertEdge(_) | Operation::DeleteEdge(_) => {
                self.writes_total = self.writes_total.wrapping_add(1);
            },
            _ => {},
        }
    }
}

/// The operation is counted as a write.
pub open spec fn writes(op: OperationView) -> bool {
    op is Insert || op is Delete || op is InsertEdge || op is DeleteEdge
}

proof fn lemma_stamped(
    history: Map<(Seq<char>, u64), crate::types::HistoryView>,
    op: OperationView,
    top: u64,
)
    requires
        stamped(history, top),
        op matches OperationView::Archive(h) ==> h.version <= top,
    ensures
        op matches OperationView::Archive(h) ==> stamped(history.insert((h.address, h.version), h), top),
{
}

/// Begin and the first `k` operations are in the log.
spec fn frame_part(
    before: Seq<WalRecordView>,
    after: Seq<WalRecordView>,
    id: u64,
    ops: Seq<OperationView>,
    k: int,
) -> bool {
    let n = before.len();
    &&& after.len() == n + 1 + k
    &&& after.take(n as int) == before
    &&& forall|i: int| n <= i < after.len() ==> (#[trigger] after[i]).transaction_id == id
    &&& after[n as int].operation == WalView::Begin
    &&& forall|i: int| 0 <= i < k ==> after[n + 1 + i].operation == WalView::Apply(#[trigger] ops[i])
}

proof fn lemma_frame_step(
    before: Seq<WalRecordView>,
    now: Seq<WalRecordView>,
    next: Seq<WalRecordView>,
    id: u64,
    ops: Seq<OperationView>,
    k: int,
)
    requires
        frame_part(before, now, id, ops, k),
        0 <= k < ops.len(),
        appended(now, next, id, WalView::Apply(ops[k])),
    ensures
        frame_part(before, next, id, ops, k + 1),
{
    let n = before.len();
    assert(next.take(n as int) =~= before) by {
        assert forall|i: int| 0 <= i < n implies next[i] == before[i] by {
            assert(next.drop_last()[i] == now[i]);
            assert(now.take(n as int)[i] == now[i]);
        }
    }
    assert forall|i: int| n <= i < next.len() implies (#[trigger] next[i]).transaction_id == id by {
        if i < now.len() {
            assert(next.drop_last()[i] == now[i]);
        }
    }
    assert(next.drop_last()[n as int] == now[n as int]);
    assert forall|i: int| 0 <= i < k + 1 implies next[n + 1 + i].operation == WalView::Apply(#[trigger] ops[i]) by {
        if i < k {
            assert(next.drop_last()[n + 1 + i] == now[n + 1 + i]);
        }
    }
}

proof fn lemma_frame_end(
    before: Seq<WalRecordView>,
    now: Seq<WalRecordView>,
    next: Seq<WalRecordView>,
    id: u64,
    ops: Seq<OperationView>,
)
    requires
        frame_part(before, now, id, ops, ops.len() as int),
        appended(now, next, id, WalView::Commit),
    ensures
        framed(before, next, id, ops),
{
    let n = before.len();
    assert(next.take(n as int) =~= before) by {
        assert forall|i: int| 0 <= i < n implies next[i] == before[i] by {
            assert(next.drop_last()[i] == now[i]);
            assert(now.take(n as int)[i] == now[i]);
        }
    }
    assert forall|i: int| n <= i < next.len() implies (#[trigger] next[i]).transaction_id == id by {
        if i < now.len() {
            assert(next.drop_last()[i] == now[i]);
        }
    }
    assert(next.drop_last()[n as int] == now[n as int]);
    assert forall|i: int| 0 <= i < ops.len() implies next[n + 1 + i].operation == WalView::Apply(#[trigger] ops[i]) by {
        assert(next.drop_last()[n + 1 + i] == now[n + 1 + i]);
    }
}

proof fn lemma_frame_given_up(
    before: Seq<WalRecordView>,
    now: Seq<WalRecordView>,
    next: Seq<WalRecordView>,
    id: u64,
    ops: Seq<OperationView>,
    k: int,
)
    requires
        frame_part(before, now, id, ops, k),
        0 <= k <= ops.len(),
        next == now || appended(now, next, id, WalView::Abort),
    ensures
        given_up(before, next, id),
{
    let n = before.len();
    assert forall|i: int| n <= i < now.len() implies !((#[trigger] now[i]).operation is Commit) by {
        if i > n {
            assert(now[n + 1 + (i - n - 1)].operation == WalView::Apply(ops[i - n - 1]));
        }
    }
    if next != now {
        assert(next.take(n as int) =~= before) by {
            assert forall|i: int| 0 <= i < n implies next[i] == before[i] by {
                assert(next.drop_last()[i] == now[i]);
                assert(now.take(n as int)[i] == now[i]);
            }
        }
        assert forall|i: int| n <= i < next.len() implies (#[trigger] next[i]).transaction_id == id && !(
        next[i].operation is Commit) by {
            if i < now.len() {
                assert(next.drop_last()[i] == now[i]);
            }
        }
    }
}

proof fn lemma_grew_step(before: Seq<WalRecordView>, now: Seq<WalRecordView>, next: Seq<WalRecordView>, last: u64)
    requires
        grew_past(before, now, last),
        next.len() == now.len() + 1,
        next.drop_last() == now,
        next.last().sequence > last,
    ensures
        grew_past(before, next, last),
{
    let n = before.len() as int;
    assert(next.take(n) =~= before) by {
        assert forall|i: int| 0 <= i < n implies next[i] == before[i] by {
            assert(next.drop_last()[i] == now[i]);
            assert(now.take(n)[i] == now[i]);
        }
    }
    assert forall|i: int| n <= i < next.len() implies (#[trigger] next[i]).sequence > last by {
        if i < now.len() {
            assert(next.drop_last()[i] == now[i]);
        }
    }
}

/// Writes one operation to the log as a record of its own.
fn write_alone(wal: &mut Wal, op: &Operation) -> (r: Option<u64>)
    requires
        old(wal).wf(),
    ensures
        final(wal).wf(),
        final(wal).last_transaction() == old(wal).last_transaction(),
        grew_past(old(wal)@, final(wal)@, old(wal).last()),
        match r {
            Some(sequence) => {
                &&& sequence == final(wal).last()
                &&& final(wal).last() == old(wal).last() + 1
                &&& final(wal).last_operation() == old(wal).last_operation() + 1
                &&& appended(old(wal)@, final(wal)@, 0, WalView::Apply(op@))
                &&& forall|i: int|
                    old(wal)@.len() <= i < final(wal)@.len() ==> (#[trigger] final(wal)@[i]).transaction_id == 0
            },
            None => {
                &&& final(wal)@ == old(wal)@
                &&& final(wal).last() == old(wal).last()
                &&& final(wal).last_operation() == old(wal).last_operation()
                &&& old(wal).last() == u64::MAX || old(wal).last_operation() == u64::MAX
            },
        },
{
    let ghost before = wal@;
    proof {
        assert(before.take(before.len() as int) =~= before);
    }
    match wal.append(0, WalOperation::Apply(op.copy())) {
        Ok(sequence) => {
            proof {
                lemma_grew_step(before, before, wal@, old(wal).last());
                assert(wal@[before.len() as int] == wal@.last());
            }
            Some(sequence)
        },
        Err(_) => None,
    }
}

/// Writes the operations to the log as one frame, up to its `COMMIT`. Where
/// the log has no numbers left the frame is given up.
fn write_frame(wal: &mut Wal, fences: &mut Fences, ops: &Vec<Operation>) -> (r: Option<StagedCommit>)
    requires
        old(wal).wf(),
        old(fences)@ == Set::<u64>::empty(),
    ensures
        final(wal).wf(),
        final(wal).last_operation() >= old(wal).last_operation(),
        match r {
            Some(frame) => {
                &&& frame.of(final(wal))
                &&& frame.committed() == Some(final(wal).last())
                &&& grew_past(old(wal)@, final(wal)@, old(wal).last())
                &&& final(wal).last() == old(wal).last() + ops@.len() + 2
                &&& final(wal).last_operation() == old(wal).last_operation() + ops@.len() + 2
                &&& final(wal).last_transaction() == frame.transaction()
                &&& frame.transaction() == old(wal).last_transaction() + 1
                &&& framed(old(wal)@, final(wal)@, frame.transaction(), operations_view(ops@))
                &&& final(fences)@ == Set::<u64>::empty().insert(frame.fence())
            },
            None => {
                &&& given_up(old(wal)@, final(wal)@, final(wal).last_transaction())
                &&& grew_past(old(wal)@, final(wal)@, old(wal).last())
                &&& old(wal).last() <= final(wal).last() <= old(wal).last() + ops@.len() + 2
                &&& final(wal).last_operation() <= old(wal).last_operation() + ops@.len() + 2
                &&& old(wal).last_transaction() <= final(wal).last_transaction() <= old(wal).last_transaction() + 1
                &&& final(wal)@ == old(wal)@ || final(wal).last_transaction() == old(wal).last_transaction() + 1
                &&& final(fences)@ == Set::<u64>::empty()
                &&& old(wal).last_transaction() == u64::MAX || old(wal).last() + ops@.len() + 2 > u64::MAX || old(
                    wal,
                ).last_operation() + ops@.len() + 2 > u64::MAX
            },
        },
{
    let ghost view = operations_view(ops@);
    let ghost before = wal@;
    let mut frame = match StagedCommit::open(wal, fences) {
        Ok(frame) => frame,
        Err(_) => {
            proof {
                assert(before.take(before.len() as int) =~= before);
                assert(wal@ == before);
            }
            return None;
        },
    };
    let ghost id = frame.transaction();
    let ghost fence = frame.fence();
    proof {
        assert(wal@.take(before.len() as int) =~= before) by {
            assert(wal@.drop_last() =~= wal@.take(before.len() as int));
        }
        assert(frame_part(before, wal@, id, view, 0));
        assert(grew_past(before, wal@, old(wal).last()));
    }
    let mut i: usize = 0;
    while i < ops.len()
        invariant
            i <= ops@.len(),
            view == operations_view(ops@),
            before == old(wal)@,
            wal.wf(),
            wal.last_operation() == old(wal).last_operation() + 1 + i,
            wal.last() == old(wal).last() + 1 + i,
            frame.of(&*wal),
            frame.committed() is None,
            frame.transaction() == id,
            frame.fence() == fence,
            wal.last_transaction() == id,
            id == old(wal).last_transaction() + 1,
            fences@ == Set::<u64>::empty().insert(fence),
            grew_past(before, wal@, old(wal).last()),
            frame_part(before, wal@, id, view, i as int),
        decreases ops.len() - i,
    {
        let ghost now = wal@;
        match frame.stage(wal, WalOperation::Apply(ops[i].copy())) {
            Ok(_) => {
                proof {
                    assert(view[i as int] == ops@[i as int]@);
                    lemma_frame_step(before, now, wal@, id, view, i as int);
                    lemma_grew_step(before, now, wal@, old(wal).last());
                }
            },
            Err(_) => {
                frame.abandon(wal, fences);
                proof {
                    lemma_frame_given_up(before, now, wal@, id, view, i as int);
                    if wal@ != now {
                        lemma_grew_step(before, now, wal@, old(wal).last());
                    }
                    assert(fences@ =~= Set::<u64>::empty());
                }
                return None;
            },
        }
        i = i + 1;
    }
    let ghost now = wal@;
    match frame.commit(wal) {
        Ok(_) => {
            proof {
                lemma_frame_end(before, now, wal@, id, view);
                lemma_grew_step(before, now, wal@, old(wal).last());
            }
            Some(frame)
        },
        Err(_) => {
            frame.abandon(wal, fences);
            proof {
                lemma_frame_given_up(before, now, wal@, id, view, i as int);
                if wal@ != now {
                    lemma_grew_step(before, now, wal@, old(wal).last());
                }
                assert(fences@ =~= Set::<u64>::empty());
            }
            None
        },
    }
}

impl StorageEngine {
    /// Finds what speaks against operations; a single one that stands alone
    /// is looked at by itself first.
    fn find_objection(&mut self, ops: &Vec<Operation>, alone: bool) -> (r: Option<TransactionError>)
        requires
            old(self).inv(),
            !old(self).failed(),
        ensures
            final(self).inv(),
            old(self).same(final(self)),
            final(self).reads_total == old(self).reads_total,
            match r {
                None => acceptable(old(self)@, operations_view(ops@)),
                Some(e) => objects(old(self)@, operations_view(ops@), e, alone),
            },
    {
        let ghost view = operations_view(ops@);
        let ghost db = self@;
        if alone && ops.len() == 1 {
            proof {
                assert(view[0] == ops@[0]@);
            }
            match self.tables.validate(&ops[0], &mut self.cache) {
                Ok(()) => {},
                Err(e) => { return Some(TransactionError::Storage(StorageFault::Operation(e))) },
            }
        }
        match self.tables.check_unique(ops) {
            Ok(()) => {},
            Err(e) => { return Some(TransactionError::Invalid(Invalidity::Unique(e))) },
        }
        match self.tables.check_references(ops, &mut self.cache) {
            Ok(()) => {},
            Err(e) => { return Some(TransactionError::Invalid(Invalidity::Reference(e))) },
        }
        if alone && ops.len() == 1 {
            return None;
        }
        let mut i: usize = 0;
        while i < ops.len()
            invariant
                i <= ops@.len(),
                view == operations_view(ops@),
                db == old(self)@,
                !(alone && view.len() == 1),
                self.inv(),
                !self.failed,
                old(self).same(self),
                self.reads_total == old(self).reads_total,
                unique_ok(db, view),
                references_ok(db, view),
                forall|k: int| 0 <= k < i ==> fault(db, #[trigger] view[k]) is None,
            decreases ops.len() - i,
        {
            proof {
                assert(view[i as int] == ops@[i as int]@);
            }
            match self.tables.validate(&ops[i], &mut self.cache) {
                Ok(()) => {},
                Err(e) => {
                    proof {
                        assert(first_fault(db, view, i as int, e));
                    }
                    return Some(TransactionError::Storage(StorageFault::Operation(e)));
                },
            }
            i = i + 1;
        }
        None
    }

    /// Counts a change that was carried out, up to the log's `sequence`.
    fn note_applied(&mut self, sequence: u64)
        ensures
            *final(self) == (StorageEngine {
                applied_sequence: if sequence > old(self).applied_sequence {
                    sequence
                } else {
                    old(self).applied_sequence
                },
                pending_mutations: if old(self).pending_mutations == u64::MAX {
                    u64::MAX
                } else {
                    (old(self).pending_mutations + 1) as u64
                },
                ..*old(self)
            }),
    {
        if sequence > self.applied_sequence {
            self.applied_sequence = sequence;
        }
        if self.pending_mutations < u64::MAX {
            self.pending_mutations = self.pending_mutations + 1;
        }
    }

    /// What a change comes to that nothing speaks against.
    closed spec fn outcome(
        &self,
        r: Result<(), TransactionError>,
        start: &StorageEngine,
        ops: Seq<OperationView>,
        alone: bool,
    ) -> bool {
        &&& self.limits == start.limits
        &&& self.readers == start.readers
        &&& self.epoch == start.epoch
        &&& self.retired == start.retired
        &&& start.wal.last_operation() <= self.wal.last_operation() <= start.wal.last_operation() + ops.len() + 2
        &&& progress(r is Ok, self.failed, marks(*start), marks(*self), ops)
        &&& match r {
            Ok(()) => {
                &&& !self.failed
                &&& self.tables@ == applied_all(start.tables@, ops)
                &&& logged(start.wal@, self.wal@, self.wal.last_transaction(), ops, alone)
                &&& ops.len() >= 2 || (ops.len() == 1 && !alone) ==> self.wal.last_transaction()
                    == start.wal.last_transaction() + 1
            },
            Err(TransactionError::Storage(StorageFault::LogFull)) => {
                &&& !self.failed
                &&& self.tables@ == start.tables@
                &&& log_short(*start, ops.len() + 2)
                &&& given_up(start.wal@, self.wal@, self.wal.last_transaction())
                &&& self.wal@ == start.wal@ || self.wal.last_transaction() == start.wal.last_transaction() + 1
            },
            Err(TransactionError::Storage(StorageFault::Table(_))) => {
                &&& self.failed
                &&& !self.has_room()
                &&& some_take_room(ops)
                &&& logged(start.wal@, self.wal@, self.wal.last_transaction(), ops, alone)
            },
            Err(_) => false,
        }
    }

    /// Carries one operation out that stands alone.
    #[verifier::rlimit(40)]
    #[verifier::spinoff_prover]
    fn apply_alone(&mut self, ops: &Vec<Operation>) -> (r: Result<(), TransactionError>)
        requires
            old(self).inv(),
            !old(self).failed(),
            ops@.len() <= 1 || declares_nothing(operations_view(ops@)),
            stamps_below(operations_view(ops@), old(self).last_operation()),
            acceptable(old(self)@, operations_view(ops@)),
            ops@.len() == 1,
        ensures
            final(self).inv(),
            final(self).outcome(r, old(self), operations_view(ops@), true),
    {
        let ghost view = operations_view(ops@);
        let ghost start = *self;
        let written = write_alone(&mut self.wal, &ops[0]);
        proof {
            assert(view[0] == ops@[0]@);
            lemma_charted_grown(start, *self, 0);
            lemma_stamped_up(self.tables@.history, start.wal.last_operation(), self.wal.last_operation());
        }
        let sequence: u64 = match written {
            Some(sequence) => sequence,
            None => {
                proof {
                    lemma_progress(false, start, *self, view);
                    assert(start.wal@.take(start.wal@.len() as int) =~= start.wal@);
                }
                return Err(TransactionError::Storage(StorageFault::LogFull));
            },
        };
        match self.apply_all(ops) {
            Ok(()) => {},
            Err(e) => {
                proof {
                    lemma_progress(false, start, *self, view);
                }
                return Err(TransactionError::Storage(StorageFault::Table(e)));
            },
        }
        self.note_applied(sequence);
        proof {
            start.lemma_log();
            lemma_progress(true, start, *self, view);
            lemma_all_applied(*self);
        }
        Ok(())
    }

    /// Carries operations out as a frame.
    #[verifier::rlimit(40)]
    #[verifier::spinoff_prover]
    fn apply_frame(&mut self, ops: &Vec<Operation>, alone: bool) -> (r: Result<(), TransactionError>)
        requires
            old(self).inv(),
            !old(self).failed(),
            ops@.len() <= 1 || declares_nothing(operations_view(ops@)),
            stamps_below(operations_view(ops@), old(self).last_operation()),
            acceptable(old(self)@, operations_view(ops@)),
            ops@.len() > 0,
            !(alone && ops@.len() == 1),
        ensures
            final(self).inv(),
            final(self).outcome(r, old(self), operations_view(ops@), alone),
    {
        let ghost view = operations_view(ops@);
        let ghost start = *self;
        let written = write_frame(&mut self.wal, &mut self.fences, ops);
        proof {
            start.lemma_log();
            lemma_charted_grown(start, *self, self.wal.last_transaction());
            lemma_stamped_up(self.tables@.history, start.wal.last_operation(), self.wal.last_operation());
        }
        let frame = match written {
            Some(frame) => frame,
            None => {
                proof {
                    lemma_progress(false, start, *self, view);
                }
                return Err(TransactionError::Storage(StorageFault::LogFull));
            },
        };
        match self.apply_all(ops) {
            Ok(()) => {},
            Err(e) => {
                frame.abandon(&mut self.wal, &mut self.fences);
                proof {
                    lemma_progress(false, start, *self, view);
                }
                return Err(TransactionError::Storage(StorageFault::Table(e)));
            },
        }
        let settled = frame.settle(&mut self.wal, &mut self.fences);
        proof {
            assert(self.fences@ =~= Set::<u64>::empty());
        }
        match settled {
            Ok(sequence) => {
                self.note_applied(sequence);
            },
            Err(_) => {},
        }
        proof {
            lemma_progress(true, start, *self, view);
            lemma_all_applied(*self);
        }
        Ok(())
    }

    /// Carries operations out, all or none: into the log first, then into the
    /// tables. One operation is a record of its own if it may stand `alone`,
    /// several are a frame.
    pub(crate) fn apply_atomic(&mut self, ops: Vec<Operation>, alone: bool) -> (r: Result<(), TransactionError>)
        requires
            old(self).inv(),
            ops@.len() <= 1 || declares_nothing(operations_view(ops@)),
            stamps_below(operations_view(ops@), old(self).last_operation()),
        ensures
            final(self).inv(),
            changes(r, *old(self), *final(self), operations_view(ops@), alone),
            final(self).last_operation() <= old(self).last_operation() + ops@.len() + 2,
            r matches Err(TransactionError::Storage(StorageFault::LogFull)) ==> log_short(*old(self), ops@.len() + 2),
    {
        let ghost view = operations_view(ops@);
        let ghost start = *self;
        proof {
            lemma_unmoved(start, view);
        }
        if self.failed {
            return Err(TransactionError::Storage(StorageFault::Failed));
        }
        let objection = self.find_objection(&ops, alone);
        proof {
            start.lemma_same(self);
            assert(marks(*self) == marks(start));
        }
        if let Some(e) = objection {
            return Err(e);
        }
        if ops.len() == 0 {
            proof {
                assert(view =~= Seq::<OperationView>::empty());
            }
            return Ok(());
        }
        if alone && ops.len() == 1 {
            self.apply_alone(&ops)
        } else {
            self.apply_frame(&ops, alone)
        }
    }
}

proof fn lemma_progress(done: bool, before: StorageEngine, after: StorageEngine, ops: Seq<OperationView>)
    requires
        grew_past(before.log(), after.log(), before.last_sequence()),
        before.last_sequence() <= after.last_sequence() <= before.last_sequence() + ops.len() + 2,
        before.last_transaction() <= after.last_transaction() <= before.last_transaction() + 1,
        ops.len() > 0,
        after.applied() == (if done {
            after.last_sequence()
        } else {
            before.applied()
        }),
        after.pending() == (if done {
            bumped(before.pending())
        } else {
            before.pending()
        }),
        !after.failed() ==> after.writes() == (if done {
            counted(before.writes(), ops)
        } else {
            before.writes()
        }),
        after.reads() == before.reads(),
    ensures
        progress(done, after.failed(), marks(before), marks(after), ops),
{
    reveal(goes_on);
}

proof fn lemma_all_applied(e: StorageEngine)
    requires
        e.wal.wf(),
        e.applied_sequence == e.wal.last(),
    ensures
        charted(e.wal@, e.wal.last(), e.applied_sequence),
{
    e.wal.lemma_wf();
    reveal(charted);
}

proof fn lemma_charted_grown(before: StorageEngine, after: StorageEngine, id: u64)
    requires
        before.inv(),
        after.applied_sequence == before.applied_sequence,
        after.wal.last() >= before.wal.last(),
        grew_past(before.wal@, after.wal@, before.wal.last()),
        forall|i: int| before.wal@.len() <= i < after.wal@.len() ==> (#[trigger] after.wal@[i]).transaction_id == id,
        id == 0 || id > before.wal.last_transaction() || after.wal@ == before.wal@,
    ensures
        charted(after.wal@, after.wal.last(), after.applied_sequence),
{
    before.lemma_log();
    reveal(charted);
    if after.wal@ != before.wal@ {
        lemma_unsplit_grown(before.wal@, after.wal@, id, before.wal.last(), before.applied_sequence);
    }
}

proof fn lemma_stamped_up(history: Map<(Seq<char>, u64), crate::types::HistoryView>, a: u64, b: u64)
    requires
        stamped(history, a),
        a <= b,
    ensures
        stamped(history, b),
{
}

// ---------------------------------------------------------------------
// Laws
// ---------------------------------------------------------------------

proof fn lemma_filter_all<T>(s: Seq<T>, keep: spec_fn(T) -> bool)
    requires
        forall|i: int| 0 <= i < s.len() ==> keep(#[trigger] s[i]),
    ensures
        s.filter(keep) == s,
    decreases s.len(),
{
    reveal(Seq::filter);
    if s.len() > 0 {
        lemma_filter_all(s.drop_last(), keep);
        assert(keep(s[s.len() - 1]));
        assert(s.drop_last().push(s.last()) =~= s);
    } else {
        assert(s.filter(keep) =~= s);
    }
}

pub proof fn lemma_filter_none<T>(s: Seq<T>, keep: spec_fn(T) -> bool)
    requires
        forall|i: int| 0 <= i < s.len() ==> !keep(#[trigger] s[i]),
    ensures
        s.filter(keep) == Seq::<T>::empty(),
    decreases s.len(),
{
    reveal(Seq::filter);
    if s.len() > 0 {
        lemma_filter_none(s.drop_last(), keep);
        assert(!keep(s[s.len() - 1]));
    } else {
        assert(s.filter(keep) =~= s);
    }
}

/// The records of a transaction that all came after `before`.
proof fn lemma_own_records(before: Seq<WalRecordView>, after: Seq<WalRecordView>, id: u64)
    requires
        before.len() <= after.len(),
        after.take(before.len() as int) == before,
        forall|i: int| 0 <= i < before.len() ==> (#[trigger] before[i]).transaction_id != id,
        forall|i: int| before.len() <= i < after.len() ==> (#[trigger] after[i]).transaction_id == id,
    ensures
        of_transaction(after, id) == after.skip(before.len() as int),
{
    broadcast use Seq::filter_distributes_over_add;

    let keep = |r: WalRecordView| r.transaction_id == id;
    let rest = after.skip(before.len() as int);
    assert(after =~= before + rest);
    lemma_filter_none(before, keep);
    lemma_filter_all(rest, keep);
    assert(Seq::<WalRecordView>::empty() + rest =~= rest);
}

/// Several operations that are carried out are a committed transaction in
/// the log: recovery sees all of them.
pub proof fn law_frame_is_committed(
    before: Seq<WalRecordView>,
    after: Seq<WalRecordView>,
    id: u64,
    ops: Seq<OperationView>,
)
    requires
        framed(before, after, id, ops),
        forall|i: int| 0 <= i < before.len() ==> (#[trigger] before[i]).transaction_id != id,
    ensures
        is_committed(after, id),
        forall|i: int|
            0 <= i < ops.len() ==> of_transaction(after, id)[i + 1].operation == WalView::Apply(#[trigger] ops[i]),
{
    lemma_own_records(before, after, id);
    let own = of_transaction(after, id);
    let n = before.len() as int;
    assert forall|i: int| 1 <= i < own.len() - 1 implies (#[trigger] own[i]).operation is Apply by {
        assert(own[i] == after[n + i]);
        assert(after[n + 1 + (i - 1)].operation == WalView::Apply(ops[i - 1]));
    }
    assert(own[0] == after[n]);
    assert(own[own.len() - 1] == after.last());
    assert forall|i: int| 0 <= i < ops.len() implies own[i + 1].operation == WalView::Apply(#[trigger] ops[i]) by {
        assert(own[i + 1] == after[n + 1 + i]);
    }
}

/// A transaction that is given up is not committed in the log: recovery sees
/// none of it.
pub proof fn law_given_up_never_happened(before: Seq<WalRecordView>, after: Seq<WalRecordView>, id: u64)
    requires
        given_up(before, after, id),
        forall|i: int| 0 <= i < before.len() ==> (#[trigger] before[i]).transaction_id != id,
    ensures
        !is_committed(after, id),
{
    lemma_own_records(before, after, id);
    let own = of_transaction(after, id);
    if own.len() > 0 {
        assert(own[own.len() - 1] == after[after.len() - 1]);
    }
}

/// A change that is refused changes nothing, and leaves no record.
pub proof fn law_refused_changes_nothing(
    r: Result<(), TransactionError>,
    before: StorageEngine,
    after: StorageEngine,
    ops: Seq<OperationView>,
    alone: bool,
)
    requires
        changes(r, before, after, ops, alone),
        !acceptable(before@, ops),
        !before.failed(),
    ensures
        r matches Err(e) && objects(before@, ops, e, alone),
        !after.failed(),
        after@ == before@,
        after.log() == before.log(),
{
}

} // verus!
