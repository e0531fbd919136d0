//! The write-ahead log: what has been decided, in order.

use std::collections::HashMap;

use vstd::prelude::*;

use crate::defs::{IndexDef, IndexDefView, ReferenceDef, ReferenceDefView, TextIndexDef, TextIndexDefView};
use crate::types::{Edge, EdgeId, EdgeIdView, EdgeView, HistoryEntry, HistoryView, Node, NodeView, UserRecord, UserView};

verus! {

/// The transaction id of records that stand alone.
pub const STANDALONE_TRANSACTION_ID: u64 = 0;

/// One resolved mutation.
#[derive(Debug)]
pub enum Operation {
    Archive(HistoryEntry),
    Insert(Node),
    Delete(String),
    InsertEdge(Edge),
    DeleteEdge(EdgeId),
    InsertUser(UserRecord),
    RevokeUser(String),
    CreateIndex(IndexDef),
    DropIndex(String),
    CreateReference(ReferenceDef),
    DropReference(String),
    CreateTextIndex(TextIndexDef),
    DropTextIndex(String),
}

pub enum OperationView {
    Archive(HistoryView),
    Insert(NodeView),
    Delete(Seq<char>),
    InsertEdge(EdgeView),
    DeleteEdge(EdgeIdView),
    InsertUser(UserView),
    RevokeUser(Seq<char>),
    CreateIndex(IndexDefView),
    DropIndex(Seq<char>),
    CreateReference(ReferenceDefView),
    DropReference(Seq<char>),
    CreateTextIndex(TextIndexDefView),
    DropTextIndex(Seq<char>),
}

impl View for Operation {
    type V = OperationView;

    open spec fn view(&self) -> OperationView {
        match *self {
            Operation::Archive(h) => OperationView::Archive(h@),
            Operation::Insert(n) => OperationView::Insert(n@),
            Operation::Delete(a) => OperationView::Delete(a@),
            Operation::InsertEdge(e) => OperationView::InsertEdge(e@),
            Operation::DeleteEdge(id) => OperationView::DeleteEdge(id@),
            Operation::InsertUser(u) => OperationView::InsertUser(u@),
            Operation::RevokeUser(h) => OperationView::RevokeUser(h@),
            Operation::CreateIndex(d) => OperationView::CreateIndex(d@),
            Operation::DropIndex(n) => OperationView::DropIndex(n@),
            Operation::CreateReference(d) => OperationView::CreateReference(d@),
            Operation::DropReference(n) => OperationView::DropReference(n@),
            Operation::CreateTextIndex(d) => OperationView::CreateTextIndex(d@),
            Operation::DropTextIndex(n) => OperationView::DropTextIndex(n@),
        }
    }
}

/// The mutations in a list.
pub open spec fn operations_view(ops: Seq<Operation>) -> Seq<OperationView> {
    Seq::new(ops.len(), |i: int| ops[i]@)
}

impl Operation {
    pub fn copy(&self) -> (r: Operation)
        ensures
            r@ == self@,
    {
        match self {
            Operation::Archive(h) => Operation::Archive(h.copy()),
            Operation::Insert(n) => Operation::Insert(n.copy()),
            Operation::Delete(a) => Operation::Delete(a.clone()),
            Operation::InsertEdge(e) => Operation::InsertEdge(e.copy()),
            Operation::DeleteEdge(id) => Operation::DeleteEdge(id.copy()),
            Operation::InsertUser(u) => Operation::InsertUser(u.copy()),
            Operation::RevokeUser(h) => Operation::RevokeUser(h.clone()),
            Operation::CreateIndex(d) => Operation::CreateIndex(d.copy()),
            Operation::DropIndex(n) => Operation::DropIndex(n.clone()),
            Operation::CreateReference(d) => Operation::CreateReference(d.copy()),
            Operation::DropReference(n) => Operation::DropReference(n.clone()),
            Operation::CreateTextIndex(d) => Operation::CreateTextIndex(d.copy()),
            Operation::DropTextIndex(n) => Operation::DropTextIndex(n.clone()),
        }
    }
}

/// What one record of the log says: a mutation, or where a transaction
/// begins and how it ends.
#[derive(Debug)]
pub enum WalOperation {
    Begin,
    Commit,
    Abort,
    Apply(Operation),
}

pub enum WalView {
    Begin,
    Commit,
    Abort,
    Apply(OperationView),
}

impl View for WalOperation {
    type V = WalView;

    open spec fn view(&self) -> WalView {
        match *self {
            WalOperation::Begin => WalView::Begin,
            WalOperation::Commit => WalView::Commit,
            WalOperation::Abort => WalView::Abort,
            WalOperation::Apply(op) => WalView::Apply(op@),
        }
    }
}

/// One record of the log.
#[derive(Debug)]
pub struct WalRecord {
    pub sequence: u64,
    pub transaction_id: u64,
    pub operation_id: u64,
    pub operation: WalOperation,
}

#[verifier::ext_equal]
pub struct WalRecordView {
    pub sequence: u64,
    pub transaction_id: u64,
    pub operation_id: u64,
    pub operation: WalView,
}

impl View for WalRecord {
    type V = WalRecordView;

    open spec fn view(&self) -> WalRecordView {
        WalRecordView {
            sequence: self.sequence,
            transaction_id: self.transaction_id,
            operation_id: self.operation_id,
            operation: self.operation@,
        }
    }
}

/// The records in a list.
pub open spec fn records_view(records: Seq<WalRecord>) -> Seq<WalRecordView> {
    Seq::new(records.len(), |i: int| records[i]@)
}

impl WalRecord {
    pub fn new(sequence: u64, transaction_id: u64, operation_id: u64, operation: WalOperation) -> (r: WalRecord)
        ensures
            r@ == (WalRecordView { sequence, transaction_id, operation_id, operation: operation@ }),
    {
        WalRecord { sequence, transaction_id, operation_id, operation }
    }
}

/// The log has no numbers left for another record.
#[derive(Clone, Copy, PartialEq, Eq, Debug, Structural)]
pub struct WalFull;

/// The log, with the numbers its next records get.
pub struct Wal {
    records: Vec<WalRecord>,
    last_sequence: u64,
    last_operation_id: u64,
    last_transaction_id: u64,
}

impl View for Wal {
    type V = Seq<WalRecordView>;

    closed spec fn view(&self) -> Seq<WalRecordView> {
        records_view(self.records@)
    }
}

impl Wal {
    /// The highest sequence number given out.
    pub closed spec fn last(&self) -> u64 {
        self.last_sequence
    }

    /// The highest transaction id given out.
    pub closed spec fn last_transaction(&self) -> u64 {
        self.last_transaction_id
    }

    /// The highest operation id given out.
    pub closed spec fn last_operation(&self) -> u64 {
        self.last_operation_id
    }

    /// Records come in ascending order, by sequence number and by operation
    /// id, and none is past the counters.
    pub closed spec fn wf(&self) -> bool {
        &&& forall|i: int, j: int|
            0 <= i < j < self@.len() ==> {
                &&& (#[trigger] self@[i]).sequence < (#[trigger] self@[j]).sequence
                &&& self@[i].operation_id < self@[j].operation_id
            }
        &&& forall|i: int|
            0 <= i < self@.len() ==> {
                &&& 0 < (#[trigger] self@[i]).sequence <= self.last_sequence
                &&& self@[i].operation_id <= self.last_operation_id
                &&& self@[i].transaction_id <= self.last_transaction_id
            }
    }

    pub proof fn lemma_wf(&self)
        requires
            self.wf(),
        ensures
            ascending(self@),
            forall|i: int|
                0 <= i < self@.len() ==> {
                    &&& 0 < (#[trigger] self@[i]).sequence <= self.last()
                    &&& self@[i].transaction_id <= self.last_transaction()
                    &&& self@[i].operation_id <= self.last_operation()
                },
    {
    }

    pub fn new() -> (r: Wal)
        ensures
            r.wf(),
            r@ == Seq::<WalRecordView>::empty(),
            r.last() == 0,
            r.last_transaction() == 0,
            r.last_operation() == 0,
    {
        let r = Wal { records: Vec::new(), last_sequence: 0, last_operation_id: 0, last_transaction_id: 0 };
        proof {
            assert(r@ =~= Seq::<WalRecordView>::empty());
        }
        r
    }

    /// The log with the records read from its file, and with counters no
    /// lower than those kept beside it. None if the records are not numbered
    /// from one up in ascending order.
    pub fn open(records: Vec<WalRecord>, sequence: u64, transaction: u64, operation: u64) -> (r: Option<Wal>)
        ensures
            match r {
                Some(wal) => {
                    &&& numbered(records_view(records@))
                    &&& wal.wf()
                    &&& wal@ == records_view(records@)
                    &&& is_top(records_view(records@), |x: WalRecordView| x.sequence, sequence, wal.last())
                    &&& is_top(
                        records_view(records@),
                        |x: WalRecordView| x.transaction_id,
                        transaction,
                        wal.last_transaction(),
                    )
                    &&& is_top(
                        records_view(records@),
                        |x: WalRecordView| x.operation_id,
                        operation,
                        wal.last_operation(),
                    )
                },
                None => !numbered(records_view(records@)),
            },
    {
        let ghost view = records_view(records@);
        let mut last_sequence: u64 = sequence;
        let mut last_transaction_id: u64 = transaction;
        let mut last_operation_id: u64 = operation;
        let ghost part = view.take(0);
        let mut i: usize = 0;
        while i < records.len()
            invariant
                i <= records@.len(),
                view == records_view(records@),
                part == view.take(i as int),
                numbered(part),
                is_top(part, |x: WalRecordView| x.sequence, sequence, last_sequence),
                is_top(part, |x: WalRecordView| x.transaction_id, transaction, last_transaction_id),
                is_top(part, |x: WalRecordView| x.operation_id, operation, last_operation_id),
            decreases records.len() - i,
        {
            let record = &records[i];
            proof {
                assert(view[i as int] == record@);
            }
            if i > 0 {
                let previous = &records[i - 1];
                proof {
                    assert(view[i - 1] == previous@);
                }
                if previous.sequence >= record.sequence || previous.operation_id >= record.operation_id {
                    return None;
                }
            }
            if record.sequence == 0 {
                return None;
            }
            proof {
                let next = view.take(i + 1);
                assert forall|a: int, b: int| 0 <= a < b < next.len() implies {
                    &&& (#[trigger] next[a]).sequence < (#[trigger] next[b]).sequence
                    &&& next[a].operation_id < next[b].operation_id
                } by {
                    assert(part[a] == next[a]);
                    if b < i {
                        assert(part[b] == next[b]);
                    } else if a < i - 1 {
                        assert(part[i - 1] == view[i - 1]);
                    }
                }
                lemma_top(part, record@, |x: WalRecordView| x.sequence, sequence, last_sequence);
                lemma_top(part, record@, |x: WalRecordView| x.transaction_id, transaction, last_transaction_id);
                lemma_top(part, record@, |x: WalRecordView| x.operation_id, operation, last_operation_id);
                assert(next =~= part.push(record@));
                part = next;
            }
            if record.sequence > last_sequence {
                last_sequence = record.sequence;
            }
            if record.transaction_id > last_transaction_id {
                last_transaction_id = record.transaction_id;
            }
            if record.operation_id > last_operation_id {
                last_operation_id = record.operation_id;
            }
            i = i + 1;
        }
        proof {
            assert(part =~= view);
        }
        Some(Wal { records, last_sequence, last_operation_id, last_transaction_id })
    }

    /// The highest transaction id given out.
    pub fn last_transaction_id(&self) -> (r: u64)
        ensures
            r == self.last_transaction(),
    {
        self.last_transaction_id
    }

    pub fn records(&self) -> (r: &Vec<WalRecord>)
        ensures
            records_view(r@) == self@,
    {
        &self.records
    }

    pub fn last_sequence(&self) -> (r: u64)
        ensures
            r == self.last(),
    {
        self.last_sequence
    }

    pub fn last_operation_id(&self) -> (r: u64)
        ensures
            r == self.last_operation(),
    {
        self.last_operation_id
    }

    /// Makes sure that ids up to `id` are not given out again.
    pub fn reserve(&mut self, id: u64)
        requires
            old(self).wf(),
        ensures
            final(self).wf(),
            final(self)@ == old(self)@,
            final(self).last() == old(self).last(),
            final(self).last_transaction() == old(self).last_transaction(),
            final(self).last_operation() == (if id > old(self).last_operation() {
                id
            } else {
                old(self).last_operation()
            }),
    {
        if id > self.last_operation_id {
            self.last_operation_id = id;
            proof {
                assert(self@ =~= old(self)@);
            }
        }
    }

    /// A transaction id that no record has.
    pub fn next_transaction_id(&mut self) -> (r: Result<u64, WalFull>)
        requires
            old(self).wf(),
        ensures
            final(self).wf(),
            final(self)@ == old(self)@,
            final(self).last() == old(self).last(),
            final(self).last_operation() == old(self).last_operation(),
            match r {
                Ok(id) => {
                    &&& id == old(self).last_transaction() + 1
                    &&& final(self).last_transaction() == id
                },
                Err(_) => *final(self) == *old(self) && old(self).last_transaction() == u64::MAX,
            },
    {
        if self.last_transaction_id == u64::MAX {
            return Err(WalFull);
        }
        self.last_transaction_id = self.last_transaction_id + 1;
        proof {
            assert(self@ =~= old(self)@);
        }
        Ok(self.last_transaction_id)
    }

    /// Whether another record has numbers.
    pub open spec fn open_for_more(&self) -> bool {
        self.last() < u64::MAX && self.last_operation() < u64::MAX
    }

    /// Appends a record; says which sequence number it got.
    pub fn append(&mut self, transaction_id: u64, operation: WalOperation) -> (r: Result<u64, WalFull>)
        requires
            old(self).wf(),
            transaction_id <= old(self).last_transaction(),
        ensures
            final(self).wf(),
            final(self).last_transaction() == old(self).last_transaction(),
            match r {
                Ok(sequence) => {
                    &&& old(self).open_for_more()
                    &&& sequence == old(self).last() + 1
                    &&& final(self).last() == sequence
                    &&& final(self).last_operation() == old(self).last_operation() + 1
                    &&& final(self)@.len() == old(self)@.len() + 1
                    &&& final(self)@.drop_last() == old(self)@
                    &&& final(self)@.last().sequence == sequence
                    &&& final(self)@.last().transaction_id == transaction_id
                    &&& final(self)@.last().operation == operation@
                },
                Err(_) => !old(self).open_for_more() && *final(self) == *old(self),
            },
    {
        if self.last_sequence == u64::MAX || self.last_operation_id == u64::MAX {
            return Err(WalFull);
        }
        let sequence: u64 = self.last_sequence + 1;
        let operation_id: u64 = self.last_operation_id + 1;
        let ghost before = self@;
        self.records.push(WalRecord { sequence, transaction_id, operation_id, operation });
        self.last_sequence = sequence;
        self.last_operation_id = operation_id;
        proof {
            assert(self@.drop_last() =~= before);
            assert forall|i: int, j: int| 0 <= i < j < self@.len() implies {
                &&& (#[trigger] self@[i]).sequence < (#[trigger] self@[j]).sequence
                &&& self@[i].operation_id < self@[j].operation_id
            } by {
                assert(self@[i] == before[i]);
                if j < before.len() {
                    assert(self@[j] == before[j]);
                }
            }
            assert forall|i: int| 0 <= i < self@.len() implies {
                &&& 0 < (#[trigger] self@[i]).sequence <= self.last_sequence
                &&& self@[i].operation_id <= self.last_operation_id
                &&& self@[i].transaction_id <= self.last_transaction_id
            } by {
                if i < before.len() {
                    assert(self@[i] == before[i]);
                }
            }
        }
        Ok(sequence)
    }

    /// Drops the records that a recovery past `checkpoint` would skip.
    pub fn rotate(&mut self, checkpoint: u64)
        requires
            old(self).wf(),
        ensures
            final(self).wf(),
            final(self).last() == old(self).last(),
            final(self).last_transaction() == old(self).last_transaction(),
            final(self).last_operation() == old(self).last_operation(),
            final(self)@ == old(self)@.filter(|r: WalRecordView| r.sequence > checkpoint),
    {
        let ghost a = *self;
        let ghost keep = |r: WalRecordView| r.sequence > checkpoint;
        let mut dropped: usize = 0;
        while dropped < self.records.len() && self.records[dropped].sequence <= checkpoint
            invariant
                *self == a,
                a.wf(),
                dropped <= self.records.len(),
                forall|i: int| 0 <= i < dropped ==> (#[trigger] a@[i]).sequence <= checkpoint,
            decreases self.records.len() - dropped,
        {
            assert(a@[dropped as int].sequence == self.records@[dropped as int].sequence);
            dropped = dropped + 1;
        }
        let kept: Vec<WalRecord> = self.records.split_off(dropped);
        self.records = kept;
        proof {
            assert(self@ =~= a@.skip(dropped as int));
            assert forall|i: int| dropped <= i < a@.len() implies (#[trigger] a@[i]).sequence > checkpoint by {
                assert(a@[dropped as int].sequence > checkpoint);
                if i > dropped {
                    assert(a@[dropped as int].sequence < a@[i].sequence);
                }
            }
            lemma_filter_suffix(a@, keep, dropped as int);
            assert forall|i: int, j: int| 0 <= i < j < self@.len() implies {
                &&& (#[trigger] self@[i]).sequence < (#[trigger] self@[j]).sequence
                &&& self@[i].operation_id < self@[j].operation_id
            } by {
                assert(self@[i] == a@[dropped + i] && self@[j] == a@[dropped + j]);
            }
            assert forall|i: int| 0 <= i < self@.len() implies {
                &&& 0 < (#[trigger] self@[i]).sequence <= self.last_sequence
                &&& self@[i].operation_id <= self.last_operation_id
                &&& self@[i].transaction_id <= self.last_transaction_id
            } by {
                assert(self@[i] == a@[dropped + i]);
            }
        }
    }
}

/// `top` is the highest of `floor` and the records' numbers.
pub open spec fn is_top(records: Seq<WalRecordView>, number: spec_fn(WalRecordView) -> u64, floor: u64, top: u64) -> bool {
    &&& floor <= top
    &&& forall|i: int| 0 <= i < records.len() ==> number(#[trigger] records[i]) <= top
    &&& top == floor || exists|i: int| 0 <= i < records.len() && number(#[trigger] records[i]) == top
}

proof fn lemma_top(
    part: Seq<WalRecordView>,
    next: WalRecordView,
    number: spec_fn(WalRecordView) -> u64,
    floor: u64,
    top: u64,
)
    requires
        is_top(part, number, floor, top),
    ensures
        is_top(part.push(next), number, floor, if number(next) > top {
            number(next)
        } else {
            top
        }),
{
    let all = part.push(next);
    assert(all[part.len() as int] == next);
    assert forall|i: int| 0 <= i < part.len() implies number(#[trigger] all[i]) == number(part[i]) by {}
    if top != floor && number(next) <= top {
        let i = choose|i: int| 0 <= i < part.len() && number(#[trigger] part[i]) == top;
        assert(all[i] == part[i]);
    }
}

/// Records numbered from one up, in ascending order.
pub open spec fn numbered(records: Seq<WalRecordView>) -> bool {
    &&& ascending(records)
    &&& forall|i: int| 0 <= i < records.len() ==> (#[trigger] records[i]).sequence > 0
}

/// No transaction has records on both sides of the sequence number.
pub open spec fn unsplit(log: Seq<WalRecordView>, at: u64) -> bool {
    forall|i: int, j: int|
        0 <= i < j < log.len() && (#[trigger] log[i]).transaction_id == (#[trigger] log[j]).transaction_id
            && log[i].transaction_id != STANDALONE_TRANSACTION_ID ==> (log[i].sequence <= at <==> log[j].sequence <= at)
}

/// The log grew by records past `last`.
pub open spec fn grew_past(before: Seq<WalRecordView>, after: Seq<WalRecordView>, last: u64) -> bool {
    &&& before.len() <= after.len()
    &&& after.take(before.len() as int) == before
    &&& forall|i: int| before.len() <= i < after.len() ==> (#[trigger] after[i]).sequence > last
}

/// A log that grew by records of one transaction of its own, or of none,
/// stays unsplit.
pub proof fn lemma_unsplit_grown(before: Seq<WalRecordView>, after: Seq<WalRecordView>, id: u64, last: u64, at: u64)
    requires
        unsplit(before, at),
        grew_past(before, after, last),
        at <= last,
        forall|i: int| before.len() <= i < after.len() ==> (#[trigger] after[i]).transaction_id == id,
        id == STANDALONE_TRANSACTION_ID || forall|i: int|
            0 <= i < before.len() ==> (#[trigger] before[i]).transaction_id != id,
    ensures
        unsplit(after, at),
{
    assert forall|i: int, j: int|
        0 <= i < j < after.len() && (#[trigger] after[i]).transaction_id == (#[trigger] after[j]).transaction_id
            && after[i].transaction_id != STANDALONE_TRANSACTION_ID implies (after[i].sequence <= at
        <==> after[j].sequence <= at) by {
        if i < before.len() {
            assert(after.take(before.len() as int)[i] == before[i]);
        }
        if j < before.len() {
            assert(after.take(before.len() as int)[j] == before[j]);
        }
    }
}

/// Records in ascending order, by sequence number and by operation id.
pub open spec fn ascending(records: Seq<WalRecordView>) -> bool {
    forall|i: int, j: int|
        0 <= i < j < records.len() ==> {
            &&& (#[trigger] records[i]).sequence < (#[trigger] records[j]).sequence
            &&& records[i].operation_id < records[j].operation_id
        }
}

/// Filtering a list whose kept elements are a suffix gives that suffix.
pub proof fn lemma_filter_suffix<T>(s: Seq<T>, keep: spec_fn(T) -> bool, n: int)
    requires
        0 <= n <= s.len(),
        forall|i: int| 0 <= i < n ==> !keep(#[trigger] s[i]),
        forall|i: int| n <= i < s.len() ==> keep(#[trigger] s[i]),
    ensures
        s.filter(keep) == s.skip(n),
    decreases s.len(),
{
    reveal(Seq::filter);
    if s.len() == 0 {
        assert(s.skip(n) =~= s);
    } else if n == s.len() {
        let init = s.drop_last();
        lemma_filter_suffix(init, keep, n - 1);
        assert(!keep(s[s.len() - 1]));
        assert(s.skip(n) =~= init.skip(n - 1));
    } else {
        let init = s.drop_last();
        lemma_filter_suffix(init, keep, n);
        assert(keep(s[s.len() - 1]));
        assert(s.skip(n) =~= init.skip(n).push(s.last()));
    }
}

// ---------------------------------------------------------------------
// Transactions in the log
// ---------------------------------------------------------------------

/// The records of transaction `id`.
pub open spec fn of_transaction(records: Seq<WalRecordView>, id: u64) -> Seq<WalRecordView> {
    records.filter(|r: WalRecordView| r.transaction_id == id)
}

/// The transaction `id` is committed: its records are one `Begin`, then
/// mutations, then one `Commit`.
pub open spec fn is_committed(records: Seq<WalRecordView>, id: u64) -> bool {
    let own = of_transaction(records, id);
    &&& own.len() >= 2
    &&& own[0].operation is Begin
    &&& own[own.len() - 1].operation is Commit
    &&& forall|i: int| 1 <= i < own.len() - 1 ==> (#[trigger] own[i]).operation is Apply
}

/// How far the records of one transaction are read.
#[derive(Clone, Copy, PartialEq, Eq, Debug, Structural)]
enum Shape {
    Empty,
    Open,
    Closed,
    Broken,
}

spec fn shape_of(own: Seq<WalRecordView>) -> Shape
    decreases own.len(),
{
    if own.len() == 0 {
        Shape::Empty
    } else {
        shape_step(shape_of(own.drop_last()), own.last().operation)
    }
}

spec fn shape_step(shape: Shape, op: WalView) -> Shape {
    match shape {
        Shape::Empty => if op is Begin {
            Shape::Open
        } else {
            Shape::Broken
        },
        Shape::Open => if op is Apply {
            Shape::Open
        } else if op is Commit {
            Shape::Closed
        } else {
            Shape::Broken
        },
        _ => Shape::Broken,
    }
}

proof fn lemma_shape(own: Seq<WalRecordView>)
    ensures
        shape_of(own) == Shape::Empty <==> own.len() == 0,
        shape_of(own) == Shape::Open <==> own.len() >= 1 && own[0].operation is Begin && forall|i: int|
            1 <= i < own.len() ==> (#[trigger] own[i]).operation is Apply,
        shape_of(own) == Shape::Closed <==> own.len() >= 2 && own[0].operation is Begin && own[own.len()
            - 1].operation is Commit && forall|i: int|
            1 <= i < own.len() - 1 ==> (#[trigger] own[i]).operation is Apply,
    decreases own.len(),
{
    if own.len() > 0 {
        let init = own.drop_last();
        lemma_shape(init);
        let n = own.len() as int;
        assert forall|i: int| 0 <= i < n - 1 implies init[i] == own[i] by {
        }
        if shape_of(own) == Shape::Open {
            assert forall|i: int| 1 <= i < own.len() implies (#[trigger] own[i]).operation is Apply by {
                if i < n - 1 {
                    assert(init[i].operation is Apply);
                }
            }
        }
        if own.len() >= 1 && own[0].operation is Begin && (forall|i: int|
            1 <= i < own.len() ==> (#[trigger] own[i]).operation is Apply) {
            assert forall|i: int| 1 <= i < init.len() implies (#[trigger] init[i]).operation is Apply by {
                assert(own[i].operation is Apply);
            }
            if n > 1 {
                assert(own[n - 1].operation is Apply);
            }
        }
        if shape_of(own) == Shape::Closed {
            assert forall|i: int| 1 <= i < own.len() - 1 implies (#[trigger] own[i]).operation is Apply by {
                assert(init[i].operation is Apply);
            }
        }
        if own.len() >= 2 && own[0].operation is Begin && own[own.len() - 1].operation is Commit && (forall|i: int|
            1 <= i < own.len() - 1 ==> (#[trigger] own[i]).operation is Apply) {
            assert forall|i: int| 1 <= i < init.len() implies (#[trigger] init[i]).operation is Apply by {
                assert(own[i].operation is Apply);
            }
        }
    }
}

/// The transactions of a log that are committed.
pub struct CommittedTransactions {
    shapes: HashMap<u64, Shape>,
}

spec fn shape_in(shapes: Map<u64, Shape>, id: u64) -> Shape {
    if shapes.contains_key(id) {
        shapes[id]
    } else {
        Shape::Empty
    }
}

impl View for CommittedTransactions {
    type V = Set<u64>;

    closed spec fn view(&self) -> Set<u64> {
        Set::new(|id: u64| shape_in(self.shapes@, id) == Shape::Closed)
    }
}

impl CommittedTransactions {
    pub fn new() -> (r: CommittedTransactions)
        ensures
            r@ == Set::<u64>::empty(),
    {
        broadcast use vstd::std_specs::hash::group_hash_axioms;

        let r = CommittedTransactions { shapes: HashMap::new() };
        proof {
            assert(r@ =~= Set::<u64>::empty());
        }
        r
    }

    fn shape(&self, id: u64) -> (r: Shape)
        ensures
            r == shape_in(self.shapes@, id),
    {
        broadcast use vstd::std_specs::hash::group_hash_axioms;

        match self.shapes.get(&id) {
            Some(shape) => *shape,
            None => Shape::Empty,
        }
    }

    pub fn contains(&self, id: u64) -> (r: bool)
        ensures
            r == self@.contains(id),
    {
        match self.shape(id) {
            Shape::Closed => true,
            _ => false,
        }
    }
}

/// Finds the transactions of a log that are committed.
pub fn classify_transactions(records: &[WalRecord]) -> (r: CommittedTransactions)
    ensures
        forall|id: u64| #[trigger] r@.contains(id) == is_committed(records_view(records@), id),
{
    broadcast use vstd::std_specs::hash::group_hash_axioms;

    let ghost view = records_view(records@);
    let mut found = CommittedTransactions { shapes: HashMap::new() };
    let mut i: usize = 0;
    proof {
        reveal(Seq::filter);
        assert forall|id: u64| #[trigger] shape_in(found.shapes@, id) == shape_of(of_transaction(view.take(0), id)) by {
            assert(of_transaction(view.take(0), id) =~= Seq::<WalRecordView>::empty());
        }
    }
    while i < records.len()
        invariant
            view == records_view(records@),
            i <= records@.len(),
            forall|id: u64| #[trigger]
                shape_in(found.shapes@, id) == shape_of(of_transaction(view.take(i as int), id)),
        decreases records.len() - i,
    {
        broadcast use vstd::std_specs::hash::group_hash_axioms;

        let record = &records[i];
        let ghost before = found.shapes@;
        let own: u64 = record.transaction_id;
        let shape = match (found.shape(own), &record.operation) {
            (Shape::Empty, WalOperation::Begin) => Shape::Open,
            (Shape::Open, WalOperation::Apply(_)) => Shape::Open,
            (Shape::Open, WalOperation::Commit) => Shape::Closed,
            _ => Shape::Broken,
        };
        found.shapes.insert(own, shape);
        proof {
            assert forall|id: u64| #[trigger] shape_in(found.shapes@, id) == shape_of(
                of_transaction(view.take(i + 1), id),
            ) by {
                reveal(Seq::filter);
                let next = view.take(i + 1);
                assert(next.drop_last() =~= view.take(i as int));
                assert(next.last() == record@);
                assert(shape_in(before, id) == shape_of(of_transaction(view.take(i as int), id)));
                let mine = of_transaction(view.take(i as int), id);
                if own == id {
                    assert(of_transaction(next, id) =~= mine.push(record@));
                    assert(mine.push(record@).drop_last() =~= mine);
                } else {
                    assert(of_transaction(next, id) =~= mine);
                }
            }
        }
        i = i + 1;
    }
    proof {
        assert(view.take(view.len() as int) =~= view);
        assert forall|id: u64| #[trigger] found@.contains(id) == is_committed(view, id) by {
            assert(shape_in(found.shapes@, id) == shape_of(of_transaction(view, id)));
            lemma_shape(of_transaction(view, id));
        }
    }
    found
}

} // verus!
