//! Changing nodes and edges.

use vstd::prelude::*;

use crate::engine::batch::{bumped, changes, counted, lemma_unmoved, marks, stamps_below};
use crate::engine::StorageEngine;
use crate::filter::{evaluates, Filter};
use crate::tables::model::DbView;
use crate::tables::plan::{delete_closure, fresh_stage, versioned, within, worked_out, StageView};
use crate::tables::read::{node_in, node_view};
use crate::tables::unique::declares;
use crate::text::own;
use crate::transaction::{Invalidity, InvalidityView, StorageFault, TransactionError, TxErrorView, TxOperation};
use crate::types::{superseded, HistoryEntry, Node, NodeView};
use crate::wal::{operations_view, Operation, OperationView};

verus! {

/// The next version.
pub open spec fn next_version(e: StorageEngine) -> u64 {
    (e.last_operation() + 1) as u64
}

/// The operations that put a node in place of what is at its address.
pub open spec fn insertion(db: DbView, n: NodeView, version: u64) -> Seq<OperationView> {
    match node_in(db.nodes, n.address) {
        Some(p) => seq![OperationView::Archive(superseded(p, version)), OperationView::Insert(n)],
        None => seq![OperationView::Insert(n)],
    }
}

/// The change was refused before it came to the log, and nothing changed.
pub open spec fn refused(before: StorageEngine, after: StorageEngine) -> bool {
    &&& !before.failed()
    &&& before.unmoved(&after)
}

/// The outcome of putting a node in place.
pub open spec fn inserts(
    r: Result<(), TransactionError>,
    before: StorageEngine,
    after: StorageEngine,
    n: NodeView,
) -> bool {
    if !before.failed() && before.last_operation() == u64::MAX && node_in(before@.nodes, n.address) is Some {
        &&& r matches Err(TransactionError::Storage(StorageFault::LogFull))
        &&& refused(before, after)
    } else {
        changes(r, before, after, insertion(before@, n, next_version(before)), true)
    }
}

impl StorageEngine {
    /// The engine holds back versions up to `to`.
    pub(super) fn reserve(&mut self, to: u64)
        requires
            old(self).inv(),
        ensures
            final(self).inv(),
            final(self)@ == old(self)@,
            final(self).log() == old(self).log(),
            final(self).failed() == old(self).failed(),
            final(self).limits() == old(self).limits(),
            final(self).readers() == old(self).readers(),
            final(self).epoch() == old(self).epoch(),
            final(self).retired() == old(self).retired(),
            final(self).last_transaction() == old(self).last_transaction(),
            final(self).last_sequence() == old(self).last_sequence(),
            marks(*final(self)) == marks(*old(self)),
            final(self).last_operation() == (if to > old(self).last_operation() {
                to
            } else {
                old(self).last_operation()
            }),
    {
        self.wal.reserve(to);
    }

    /// The node at an address; none in an engine that failed.
    pub(super) fn lookup(&mut self, address: &str) -> (r: Option<Node>)
        requires
            old(self).inv(),
            !old(self).failed(),
        ensures
            final(self).inv(),
            old(self).same(final(self)),
            final(self).reads() == old(self).reads(),
            node_view(r) == node_in(old(self)@.nodes, address@),
    {
        self.tables.read_node(address, &mut self.cache)
    }

    /// Puts a node in place of what is at its address, whose state is kept.
    pub fn insert(&mut self, node: Node) -> (r: Result<(), TransactionError>)
        requires
            old(self).inv(),
        ensures
            final(self).inv(),
            inserts(r, *old(self), *final(self), node@),
    {
        let ghost start = *self;
        let ghost n = node@;
        if self.failed {
            proof {
                lemma_unmoved(start, insertion(start@, n, next_version(start)));
            }
            return Err(TransactionError::Storage(StorageFault::Failed));
        }
        let previous = self.lookup(&node.address);
        proof {
            start.lemma_same(self);
        }
        let mut ops: Vec<Operation> = Vec::new();
        match previous {
            Some(p) => {
                if self.wal.last_operation_id() == u64::MAX {
                    return Err(TransactionError::Storage(StorageFault::LogFull));
                }
                let version: u64 = self.wal.last_operation_id() + 1;
                self.reserve(version);
                ops.push(Operation::Archive(HistoryEntry::at(p, version)));
            },
            None => {},
        }
        ops.push(Operation::Insert(node));
        let ghost view = operations_view(ops@);
        proof {
            assert(view =~= insertion(start@, n, next_version(start)));
            assert forall|i: int| 0 <= i < view.len() implies !declares(#[trigger] view[i]) by {}
        }
        self.apply_atomic(ops, true)
    }
}

/// Why a node was not claimed.
#[derive(Debug)]
pub enum ClaimError {
    NotFound,
    AlreadyClaimed(String),
    StorageError(TransactionError),
}

/// The node as claimed by `worker`.
pub open spec fn claimed(n: NodeView, worker: Seq<char>) -> NodeView {
    NodeView { claimed_by: Some(worker), ..n }
}

/// The outcome of claiming a node.
pub open spec fn claims(
    r: Result<(), ClaimError>,
    before: StorageEngine,
    after: StorageEngine,
    address: Seq<char>,
    worker: Seq<char>,
) -> bool {
    let held = node_in(before@.nodes, address);
    match r {
        Ok(()) => {
            &&& held is Some
            &&& held->0.claimed_by is None
            &&& inserts(Ok(()), before, after, claimed(held->0, worker))
        },
        Err(ClaimError::NotFound) => held is None && refused(before, after),
        Err(ClaimError::AlreadyClaimed(by)) => {
            &&& held is Some
            &&& held->0.claimed_by == Some(by@)
            &&& refused(before, after)
        },
        Err(ClaimError::StorageError(e)) => if before.failed() {
            e matches TransactionError::Storage(StorageFault::Failed) && before.unmoved(&after)
        } else {
            &&& held is Some
            &&& held->0.claimed_by is None
            &&& inserts(Err(e), before, after, claimed(held->0, worker))
        },
    }
}

impl StorageEngine {
    /// Claims a node that nobody has claimed.
    pub fn claim(&mut self, address: &str, worker: &str) -> (r: Result<(), ClaimError>)
        requires
            old(self).inv(),
        ensures
            final(self).inv(),
            claims(r, *old(self), *final(self), address@, worker@),
    {
        let ghost start = *self;
        if self.failed {
            return Err(ClaimError::StorageError(TransactionError::Storage(StorageFault::Failed)));
        }
        let mut node = match self.lookup(address) {
            Some(node) => node,
            None => { return Err(ClaimError::NotFound) },
        };
        proof {
            start.lemma_same(self);
        }
        match &node.claimed_by {
            Some(by) => {
                return Err(ClaimError::AlreadyClaimed(by.clone()));
            },
            None => {},
        }
        node.claimed_by = Some(own(worker));
        proof {
            assert(node@ =~= claimed(start@.nodes[address@], worker@));
        }
        let ghost mid = *self;
        match self.insert(node) {
            Ok(()) => Ok(()),
            Err(e) => Err(ClaimError::StorageError(e)),
        }
    }
}

// ---------------------------------------------------------------------
// Deleting
// ---------------------------------------------------------------------

/// What worked out leads to is carried out.
pub open spec fn carries_out(
    r: Result<(), TransactionError>,
    before: StorageEngine,
    after: StorageEngine,
    plan: Result<StageView, TxErrorView>,
    alone: bool,
) -> bool {
    if before.failed() {
        r matches Err(TransactionError::Storage(StorageFault::Failed)) && before.unmoved(&after)
    } else if before.last_operation() == u64::MAX {
        r matches Err(TransactionError::Storage(StorageFault::LogFull)) && before.unmoved(&after)
    } else {
        match plan {
            Err(e) => r matches Err(x) && x@ == e && before.unmoved(&after),
            Ok(st) => changes(r, before, after, st.ops, alone),
        }
    }
}

/// The outcome of deleting a node.
pub open spec fn deletes(
    r: Result<(), TransactionError>,
    before: StorageEngine,
    after: StorageEngine,
    address: Seq<char>,
) -> bool {
    match node_in(before@.nodes, address) {
        None => changes(r, before, after, seq![OperationView::Delete(address)], true),
        Some(n) => carries_out(
            r,
            before,
            after,
            delete_closure(
                before@,
                fresh_stage(before@, next_version(before)),
                seq![n],
                before.limits().max_transaction_ops as nat,
            ),
            true,
        ),
    }
}

/// Versions held back cover the states that the operations keep.
proof fn lemma_versions(st: StageView, top: u64)
    requires
        versioned(st.ops, st.first, st.stamp),
        st.stamp - 1 <= top,
    ensures
        stamps_below(st.ops, top),
{
    assert forall|i: int| 0 <= i < st.ops.len() && #[trigger] st.ops[i] is Archive implies st.ops[i]->Archive_0.version
        <= top by {
        assert(within(st.ops[i], st.first, st.stamp));
    }
}

impl StorageEngine {
    /// Deletes a node, and what hangs on it; the states are kept.
    pub fn delete(&mut self, address: &str) -> (r: Result<(), TransactionError>)
        requires
            old(self).inv(),
        ensures
            final(self).inv(),
            deletes(r, *old(self), *final(self), address@),
    {
        let ghost start = *self;
        if self.failed {
            proof {
                lemma_unmoved(start, seq![OperationView::Delete(address@)]);
            }
            return Err(TransactionError::Storage(StorageFault::Failed));
        }
        let node = match self.lookup(address) {
            Some(node) => node,
            None => {
                proof {
                    start.lemma_same(self);
                }
                let mut ops: Vec<Operation> = Vec::new();
                ops.push(Operation::Delete(own(address)));
                proof {
                    assert(operations_view(ops@) =~= seq![OperationView::Delete(address@)]);
                }
                return self.apply_atomic(ops, true);
            },
        };
        proof {
            start.lemma_same(self);
        }
        if self.wal.last_operation_id() == u64::MAX {
            return Err(TransactionError::Storage(StorageFault::LogFull));
        }
        let version: u64 = self.wal.last_operation_id() + 1;
        let bound: usize = self.limits.max_transaction_ops;
        let ghost plan = delete_closure(self@, fresh_stage(self@, version), seq![node@], bound as nat);
        let (ops, next) = match self.tables.lower_delete(node, version, bound, &mut self.cache) {
            Ok(found) => found,
            Err(e) => { return Err(e) },
        };
        let ghost st = plan->Ok_0;
        self.reserve(next - 1);
        proof {
            lemma_versions(st, self.last_operation());
        }
        self.apply_atomic(ops, true)
    }

    /// Carries a transaction out, all of it or nothing.
    pub fn execute_transaction<F: Fn(&Filter, &Node) -> Result<bool, String>>(
        &mut self,
        ops: Vec<TxOperation>,
        eval: &F,
    ) -> (r: Result<(), TransactionError>)
        requires
            old(self).inv(),
            evaluates(*eval),
        ensures
            final(self).inv(),
            transacts(r, *old(self), *final(self), ops@, *eval),
    {
        let ghost start = *self;
        if self.failed {
            return Err(TransactionError::Storage(StorageFault::Failed));
        }
        if self.wal.last_operation_id() == u64::MAX {
            return Err(TransactionError::Storage(StorageFault::LogFull));
        }
        let version: u64 = self.wal.last_operation_id() + 1;
        let bound: usize = self.limits.max_transaction_ops;
        let ghost plan = worked_out(self@, fresh_stage(self@, version), ops@, *eval, bound as nat);
        let (list, next) = match self.tables.lower_transaction(&ops, version, eval, bound, &mut self.cache) {
            Ok(found) => found,
            Err(e) => { return Err(e) },
        };
        let ghost st = plan->Ok_0;
        if list.len() > bound {
            return Err(TransactionError::Invalid(Invalidity::TooMany { count: list.len() }));
        }
        self.reserve(next - 1);
        proof {
            lemma_versions(st, self.last_operation());
        }
        self.apply_atomic(list, false)
    }
}

/// A transaction that comes to more changes than it may hold is refused.
pub open spec fn bounded(plan: Result<StageView, TxErrorView>, bound: nat) -> Result<StageView, TxErrorView> {
    match plan {
        Ok(st) => if st.ops.len() > bound {
            Err(TxErrorView::Invalid(InvalidityView::TooMany { count: st.ops.len() }))
        } else {
            Ok(st)
        },
        Err(e) => Err(e),
    }
}

/// The outcome of a transaction.
pub open spec fn transacts<F: Fn(&Filter, &Node) -> Result<bool, String>>(
    r: Result<(), TransactionError>,
    before: StorageEngine,
    after: StorageEngine,
    ops: Seq<TxOperation>,
    eval: F,
) -> bool {
    let bound = before.limits().max_transaction_ops as nat;
    carries_out(
        r,
        before,
        after,
        bounded(worked_out(before@, fresh_stage(before@, next_version(before)), ops, eval, bound), bound),
        false,
    )
}

/// Putting a node in place counts as one write and no read, and is one change
/// more towards the next checkpoint, which may then cover it.
pub proof fn law_insert_is_counted(before: StorageEngine, after: StorageEngine, n: NodeView)
    requires
        inserts(Ok(()), before, after, n),
    ensures
        after.writes() == (if before.writes() == u64::MAX {
            0
        } else {
            (before.writes() + 1) as u64
        }),
        after.reads() == before.reads(),
        after.pending() == bumped(before.pending()),
        after.applied() == after.last_sequence(),
{
    let ops = insertion(before@, n, next_version(before));
    reveal_with_fuel(counted, 3);
    let last = OperationView::Insert(n);
    assert(ops.last() == last);
    match node_in(before@.nodes, n.address) {
        Some(p) => {
            let first = OperationView::Archive(superseded(p, next_version(before)));
            assert(ops.drop_last() =~= seq![first]);
            assert(seq![first].drop_last() =~= Seq::<OperationView>::empty());
            assert(seq![first].last() == first);
        },
        None => {
            assert(ops.drop_last() =~= Seq::<OperationView>::empty());
        },
    }
}

} // verus!
