//! Changing edges, and nodes with their edges.

use vstd::prelude::*;

use crate::engine::batch::changes;
use crate::engine::write::{insertion, next_version};
use crate::engine::StorageEngine;
use crate::tables::model::DbView;
use crate::tables::read::{edge_in, node_in};
use crate::tables::unique::declares;
use crate::text::str_eq;
use crate::transaction::{EdgeEnd, Invalidity, InvalidityView, StorageFault, TransactionError};
use crate::types::{Edge, EdgeId, EdgeIdView, EdgeView, HistoryEntry, Node, NodeView};
use crate::wal::{operations_view, Operation, OperationView};

verus! {

/// Why an edge cannot be put in.
pub open spec fn edge_refusal(db: DbView, e: EdgeView) -> Option<InvalidityView> {
    if !db.nodes.contains_key(e.from) {
        Some(InvalidityView::EndpointNotFound { end: EdgeEnd::From, address: e.from })
    } else if !db.nodes.contains_key(e.to) {
        Some(InvalidityView::EndpointNotFound { end: EdgeEnd::To, address: e.to })
    } else {
        match edge_in(db.edges, e.id()) {
            Some(held) => if held.owner != e.owner {
                Some(InvalidityView::EdgeOwned { id: e.id(), by: held.owner })
            } else {
                None
            },
            None => None,
        }
    }
}

/// The outcome of a change that may be refused beforehand.
pub open spec fn guarded(
    r: Result<(), TransactionError>,
    before: StorageEngine,
    after: StorageEngine,
    refusal: Option<InvalidityView>,
    ops: Seq<OperationView>,
) -> bool {
    if before.failed() {
        r matches Err(TransactionError::Storage(StorageFault::Failed)) && before.unmoved(&after)
    } else {
        match refusal {
            Some(why) => {
                &&& r matches Err(TransactionError::Invalid(e))
                &&& e@ == why
                &&& before.unmoved(&after)
            },
            None => changes(r, before, after, ops, true),
        }
    }
}

/// Why an edge cannot be taken out.
pub open spec fn edge_missing(db: DbView, id: EdgeIdView) -> Option<InvalidityView> {
    if db.edges.contains_key(id) {
        None
    } else {
        Some(InvalidityView::EdgeNotFound { id })
    }
}

/// The outcome of putting an edge in.
pub open spec fn puts_edge(
    r: Result<(), TransactionError>,
    before: StorageEngine,
    after: StorageEngine,
    e: EdgeView,
) -> bool {
    guarded(r, before, after, edge_refusal(before@, e), seq![OperationView::InsertEdge(e)])
}

/// The outcome of taking an edge out.
pub open spec fn takes_edge(
    r: Result<(), TransactionError>,
    before: StorageEngine,
    after: StorageEngine,
    id: EdgeIdView,
) -> bool {
    guarded(r, before, after, edge_missing(before@, id), seq![OperationView::DeleteEdge(id)])
}

impl StorageEngine {
    /// Puts an edge in between two nodes that are there. An edge of another
    /// owner stays.
    pub fn insert_edge(&mut self, edge: Edge) -> (r: Result<(), TransactionError>)
        requires
            old(self).inv(),
        ensures
            final(self).inv(),
            puts_edge(r, *old(self), *final(self), edge@),
    {
        if self.failed {
            return Err(TransactionError::Storage(StorageFault::Failed));
        }
        if !self.tables.contains_node(&edge.from) {
            return Err(
                TransactionError::Invalid(
                    Invalidity::EndpointNotFound { end: EdgeEnd::From, address: edge.from.clone() },
                ),
            );
        }
        if !self.tables.contains_node(&edge.to) {
            return Err(
                TransactionError::Invalid(Invalidity::EndpointNotFound { end: EdgeEnd::To, address: edge.to.clone() }),
            );
        }
        let id = edge.id();
        match self.tables.find_edge(&id) {
            Some(held) => {
                if !str_eq(&held.owner, &edge.owner) {
                    return Err(TransactionError::Invalid(Invalidity::EdgeOwned { id, by: held.owner }));
                }
            },
            None => {},
        }
        let ghost e = edge@;
        let mut ops: Vec<Operation> = Vec::new();
        ops.push(Operation::InsertEdge(edge));
        proof {
            assert(operations_view(ops@) =~= seq![OperationView::InsertEdge(e)]);
        }
        self.apply_atomic(ops, true)
    }

    /// Takes an edge out.
    pub fn delete_edge(&mut self, id: &EdgeId) -> (r: Result<(), TransactionError>)
        requires
            old(self).inv(),
        ensures
            final(self).inv(),
            takes_edge(r, *old(self), *final(self), id@),
    {
        if self.failed {
            return Err(TransactionError::Storage(StorageFault::Failed));
        }
        if self.tables.find_edge(id).is_none() {
            return Err(TransactionError::Invalid(Invalidity::EdgeNotFound { id: id.copy() }));
        }
        let mut ops: Vec<Operation> = Vec::new();
        ops.push(Operation::DeleteEdge(id.copy()));
        proof {
            assert(operations_view(ops@) =~= seq![OperationView::DeleteEdge(id@)]);
        }
        self.apply_atomic(ops, true)
    }
}

// ---------------------------------------------------------------------
// A node with its edges
// ---------------------------------------------------------------------

/// Where edges lead, and their kinds.
pub open spec fn targets_view(targets: Seq<(String, String)>) -> Seq<(Seq<char>, Seq<char>)> {
    Seq::new(targets.len(), |i: int| (targets[i].0@, targets[i].1@))
}

/// The edge from a node to a target.
pub open spec fn target_edge(n: NodeView, target: (Seq<char>, Seq<char>)) -> EdgeView {
    EdgeView { from: n.address, to: target.0, kind: target.1, owner: n.owner }
}

/// The edges from a node to its targets.
pub open spec fn target_edges(n: NodeView, targets: Seq<(Seq<char>, Seq<char>)>) -> Seq<EdgeView> {
    Seq::new(targets.len(), |i: int| target_edge(n, targets[i]))
}

/// The target is a node, be it the new one.
pub open spec fn is_target(db: DbView, n: NodeView, target: (Seq<char>, Seq<char>)) -> bool {
    target.0 == n.address || db.nodes.contains_key(target.0)
}

/// The first target, from position `i` on, that is no node.
pub open spec fn missing_target(db: DbView, n: NodeView, targets: Seq<(Seq<char>, Seq<char>)>, i: int) -> Option<Seq<char>>
    decreases targets.len() - i,
{
    if i < 0 || i >= targets.len() {
        None
    } else if is_target(db, n, targets[i]) {
        missing_target(db, n, targets, i + 1)
    } else {
        Some(targets[i].0)
    }
}

/// Why a node and its edges cannot be put in.
pub open spec fn star_refusal(
    db: DbView,
    n: NodeView,
    targets: Seq<(Seq<char>, Seq<char>)>,
    is_admin: bool,
) -> Option<InvalidityView> {
    match node_in(db.nodes, n.address) {
        Some(p) => if !(is_admin || p.writable_by(n.owner)) {
            Some(InvalidityView::NotAuthorized { address: n.address })
        } else {
            missing_refusal(db, n, targets)
        },
        None => missing_refusal(db, n, targets),
    }
}

pub open spec fn missing_refusal(
    db: DbView,
    n: NodeView,
    targets: Seq<(Seq<char>, Seq<char>)>,
) -> Option<InvalidityView> {
    match missing_target(db, n, targets, 0) {
        Some(address) => Some(InvalidityView::EndpointNotFound { end: EdgeEnd::To, address }),
        None => None,
    }
}

/// The operations that put the edges in.
pub open spec fn edge_operations(edges: Seq<EdgeView>) -> Seq<OperationView> {
    Seq::new(edges.len(), |i: int| OperationView::InsertEdge(edges[i]))
}

/// The outcome of putting a node in with its edges.
pub open spec fn inserts_star(
    r: Result<Vec<Edge>, TransactionError>,
    before: StorageEngine,
    after: StorageEngine,
    n: NodeView,
    targets: Seq<(Seq<char>, Seq<char>)>,
    is_admin: bool,
) -> bool {
    let edges = target_edges(n, targets);
    let full = before.last_operation() == u64::MAX && node_in(before@.nodes, n.address) is Some;
    let done = match r {
        Ok(list) => Ok::<(), TransactionError>(()),
        Err(e) => Err(e),
    };
    &&& r matches Ok(list) ==> crate::tables::listing::edges_view(list@) == edges
    &&& if !before.failed() && star_refusal(before@, n, targets, is_admin) is None && full {
        r matches Err(TransactionError::Storage(StorageFault::LogFull)) && before.unmoved(&after)
    } else {
        guarded(
            done,
            before,
            after,
            star_refusal(before@, n, targets, is_admin),
            insertion(before@, n, next_version(before)) + edge_operations(edges),
        )
    }
}

impl StorageEngine {
    /// The first target that is no node.
    fn find_missing(&self, address: &str, targets: &Vec<(String, String)>, Ghost(n): Ghost<NodeView>) -> (r: Option<
        String,
    >)
        requires
            self.inv(),
            !self.failed(),
            n.address == address@,
        ensures
            match r {
                Some(a) => missing_target(self@, n, targets_view(targets@), 0) == Some(a@),
                None => missing_target(self@, n, targets_view(targets@), 0) is None,
            },
    {
        let ghost view = targets_view(targets@);
        let mut i: usize = 0;
        while i < targets.len()
            invariant
                i <= targets@.len(),
                self.inv(),
                !self.failed,
                n.address == address@,
                view == targets_view(targets@),
                missing_target(self@, n, view, 0) == missing_target(self@, n, view, i as int),
            decreases targets.len() - i,
        {
            let to = &targets[i].0;
            proof {
                assert(view[i as int].0 == to@);
            }
            if !(str_eq(to, address) || self.tables.contains_node(to)) {
                return Some(to.clone());
            }
            i = i + 1;
        }
        None
    }

    /// Puts a node in place of what is at its address, and edges from it to
    /// nodes that are there, all at once.
    pub fn insert_with_edges(&mut self, node: Node, edge_targets: Vec<(String, String)>, is_admin: bool) -> (r: Result<
        Vec<Edge>,
        TransactionError,
    >)
        requires
            old(self).inv(),
        ensures
            final(self).inv(),
            inserts_star(r, *old(self), *final(self), node@, targets_view(edge_targets@), is_admin),
    {
        let ghost start = *self;
        let ghost n = node@;
        let ghost view = targets_view(edge_targets@);
        if self.failed {
            return Err(TransactionError::Storage(StorageFault::Failed));
        }
        let previous = self.lookup(&node.address);
        proof {
            start.lemma_same(self);
        }
        match &previous {
            Some(p) => {
                if !(is_admin || p.can_write(&node.owner)) {
                    return Err(
                        TransactionError::Invalid(Invalidity::NotAuthorized { address: node.address.clone() }),
                    );
                }
            },
            None => {},
        }
        match self.find_missing(&node.address, &edge_targets, Ghost(n)) {
            Some(address) => {
                return Err(TransactionError::Invalid(Invalidity::EndpointNotFound { end: EdgeEnd::To, address }));
            },
            None => {},
        }
        let mut ops: Vec<Operation> = Vec::new();
        match previous {
            Some(p) => {
                if self.wal.last_operation_id() == u64::MAX {
                    return Err(TransactionError::Storage(StorageFault::LogFull));
                }
                let version: u64 = self.wal.last_operation_id() + 1;
                self.reserve(version);
                ops.push(Operation::Archive(HistoryEntry::at(p, version)));
            },
            None => {},
        }
        let mut created: Vec<Edge> = Vec::new();
        let mut edge_ops: Vec<Operation> = Vec::new();
        let mut i: usize = 0;
        while i < edge_targets.len()
            invariant
                i <= edge_targets@.len(),
                n == node@,
                view == targets_view(edge_targets@),
                created@.len() == i,
                edge_ops@.len() == i,
                forall|k: int| 0 <= k < i ==> (#[trigger] created@[k])@ == target_edge(n, view[k]),
                forall|k: int|
                    0 <= k < i ==> (#[trigger] edge_ops@[k])@ == OperationView::InsertEdge(target_edge(n, view[k])),
            decreases edge_targets.len() - i,
        {
            let edge = Edge::new(
                node.address.clone(),
                edge_targets[i].0.clone(),
                edge_targets[i].1.clone(),
                node.owner.clone(),
            );
            proof {
                assert(edge@ == target_edge(n, view[i as int]));
            }
            edge_ops.push(Operation::InsertEdge(edge.copy()));
            created.push(edge);
            i = i + 1;
        }
        ops.push(Operation::Insert(node));
        let ghost head = operations_view(ops@);
        let ghost tail = edge_ops@;
        ops.append(&mut edge_ops);
        let ghost all = operations_view(ops@);
        proof {
            let edges = target_edges(n, view);
            assert(head =~= insertion(start@, n, next_version(start)));
            assert(all =~= head + edge_operations(edges)) by {
                assert forall|k: int| 0 <= k < tail.len() implies all[head.len() + k] == edge_operations(edges)[k] by {
                    assert(tail[k]@ == OperationView::InsertEdge(target_edge(n, view[k])));
                }
            }
            assert(crate::tables::listing::edges_view(created@) =~= edges) by {
                assert forall|k: int| 0 <= k < created@.len() implies created@[k]@ == edges[k] by {
                    assert(created@[k]@ == target_edge(n, view[k]));
                }
            }
            assert forall|k: int| 0 <= k < all.len() implies !declares(#[trigger] all[k]) by {
                if k >= head.len() {
                    assert(all[k] == edge_operations(edges)[k - head.len()]);
                }
            }
            assert forall|k: int| 0 <= k < all.len() && #[trigger] all[k] is Archive implies all[k]->Archive_0.version
                <= self.last_operation() by {
                if k >= head.len() {
                    assert(all[k] == edge_operations(edges)[k - head.len()]);
                }
            }
        }
        match self.apply_atomic(ops, true) {
            Ok(()) => Ok(created),
            Err(e) => Err(e),
        }
    }
}

} // verus!
