//! What a transaction comes to: the operations that carry it out, and what
//! its steps see of each other.

use vstd::prelude::*;

use crate::defs::{ReferenceDefView, ReferentialAction};
use crate::filter::{verdict, Filter};
use crate::json::{field_of, json_equal, JsonView};
use crate::order::order_code;
use crate::tables::lists::covers;
use crate::tables::model::{applied, applied_all, DbView, Nodes};
use crate::tables::read::{edge_in, node_in};
use crate::tables::refs::{referenced, referencing};
use crate::tables::rows::{is_listing, RankBy};
use crate::tables::unique::{declares, declares_nothing};
use crate::transaction::{
    cleared, set_if, set_view, EdgeEnd, InvalidityView, StorageFaultView, TxErrorView, TxOperation, UnmetView,
};
use crate::types::{superseded, EdgeIdView, EdgeView, Node, NodeView};
use crate::wal::OperationView;

verus! {

/// How far a transaction is worked out.
#[verifier::ext_equal]
pub struct StageView {
    /// The nodes as its next step sees them.
    pub nodes: Nodes,
    /// Addresses that its steps so far wrote to.
    pub written: Set<Seq<char>>,
    /// Addresses that its steps so far deleted.
    pub gone: Set<Seq<char>>,
    pub edges: Map<EdgeIdView, EdgeView>,
    pub gone_edges: Set<EdgeIdView>,
    /// The operations that carry its steps out.
    pub ops: Seq<OperationView>,
    /// The version that the first superseded state gets, or got.
    pub first: u64,
    /// The version that the next superseded state gets.
    pub stamp: u64,
}

pub type Staged = Result<StageView, TxErrorView>;

/// Before the first step.
pub open spec fn fresh_stage(db: DbView, stamp: u64) -> StageView {
    StageView {
        nodes: db.nodes,
        written: Set::empty(),
        gone: Set::empty(),
        edges: db.edges,
        gone_edges: Set::empty(),
        ops: Seq::empty(),
        first: stamp,
        stamp,
    }
}

/// A state is kept.
pub open spec fn archived(st: StageView, n: NodeView) -> Staged {
    if st.stamp == u64::MAX {
        Err(TxErrorView::Storage(StorageFaultView::LogFull))
    } else {
        Ok(
            StageView {
                ops: st.ops.push(OperationView::Archive(superseded(n, st.stamp))),
                stamp: (st.stamp + 1) as u64,
                ..st
            },
        )
    }
}

/// A node is put in place of what is at its address.
pub open spec fn put_node(st: StageView, n: NodeView) -> StageView {
    StageView {
        nodes: st.nodes.insert(n.address, n),
        written: st.written.insert(n.address),
        gone: st.gone.remove(n.address),
        ops: st.ops.push(OperationView::Insert(n)),
        ..st
    }
}

/// The node at an address is taken out.
pub open spec fn drop_node(st: StageView, a: Seq<char>) -> StageView {
    StageView {
        nodes: st.nodes.remove(a),
        written: st.written.remove(a),
        gone: st.gone.insert(a),
        ops: st.ops.push(OperationView::Delete(a)),
        ..st
    }
}

/// A state is kept and another put in its place.
pub open spec fn replaced(st: StageView, n: NodeView, next: NodeView) -> Staged {
    match archived(st, n) {
        Err(e) => Err(e),
        Ok(s) => Ok(put_node(s, next)),
    }
}

/// A state is kept and its node taken out.
pub open spec fn removed(st: StageView, n: NodeView) -> Staged {
    match archived(st, n) {
        Err(e) => Err(e),
        Ok(s) => Ok(drop_node(s, n.address)),
    }
}

// ---------------------------------------------------------------------
// Deleting, and what hangs on it
// ---------------------------------------------------------------------

/// The picked nodes in the order of their addresses.
pub open spec fn listing(nodes: Nodes, pick: spec_fn(NodeView) -> bool) -> Seq<NodeView> {
    choose|rows: Seq<NodeView>| is_listing(rows, nodes, pick, RankBy::Address, None, false)
}

/// The address is looked at for nodes that name `key`: the node that the
/// database holds there has an equal value, or the transaction wrote a node
/// of the kind there before the deletion began.
pub open spec fn suspect(db: DbView, origin: StageView, r: ReferenceDefView, key: JsonView, a: Seq<char>) -> bool {
    ||| db.nodes.contains_key(a) && db.nodes[a].kind == r.kind && order_code(field_of(db.nodes[a].data, r.field))
        == order_code(Some(key))
    ||| origin.written.contains(a) && origin.nodes[a].kind == r.kind
}

/// The nodes that name `key` through a reference and are not deleted yet.
pub open spec fn is_child(
    db: DbView,
    origin: StageView,
    r: ReferenceDefView,
    key: JsonView,
    dead: Set<Seq<char>>,
) -> spec_fn(NodeView) -> bool {
    |n: NodeView|
        suspect(db, origin, r, key, n.address) && n.kind == r.kind && referencing(n, r) is Some && json_equal(
            referencing(n, r)->0.text,
            key.text,
        ) && !dead.contains(n.address)
}

/// Nodes whose field is set to null, one after the other.
pub open spec fn nulled(st: StageView, kids: Seq<NodeView>, name: Seq<char>) -> Staged
    decreases kids.len(),
{
    if kids.len() == 0 {
        Ok(st)
    } else {
        match cleared(kids[0], name) {
            None => Err(TxErrorView::Invalid(InvalidityView::NotObject { address: kids[0].address })),
            Some(next) => match replaced(st, kids[0], next) {
                Err(e) => Err(e),
                Ok(s) => nulled(s, kids.drop_first(), name),
            },
        }
    }
}

/// What the references from position `i` on make of the nodes that name a
/// deleted one: they are deleted in turn, keep it from being deleted, or
/// lose the field.
pub open spec fn followed(
    db: DbView,
    origin: StageView,
    st: StageView,
    n: NodeView,
    dead: Set<Seq<char>>,
    queue: Seq<NodeView>,
    i: int,
) -> Result<(StageView, Seq<NodeView>), TxErrorView>
    decreases db.references.len() - i,
{
    if i < 0 || i >= db.references.len() {
        Ok((st, queue))
    } else {
        let r = db.references[i];
        if r.parent_kind != n.kind || referenced(n, r) is None {
            followed(db, origin, st, n, dead, queue, i + 1)
        } else if covers(db.data, r.kind, r.field) is None {
            Err(TxErrorView::Storage(StorageFaultView::IndexGone { reference: r.name }))
        } else {
            let kids = listing(st.nodes, is_child(db, origin, r, referenced(n, r)->0, dead));
            if kids.len() == 0 {
                followed(db, origin, st, n, dead, queue, i + 1)
            } else {
                match r.on_delete {
                    ReferentialAction::Cascade => followed(db, origin, st, n, dead, queue + kids, i + 1),
                    ReferentialAction::Restrict => Err(
                        TxErrorView::Precondition(
                            UnmetView::Restricted {
                                address: n.address,
                                child: kids[0].address,
                                reference: r.name,
                                count: kids.len(),
                            },
                        ),
                    ),
                    ReferentialAction::SetNull => match nulled(st, kids, r.field) {
                        Err(e) => Err(e),
                        Ok(s) => followed(db, origin, s, n, dead, queue, i + 1),
                    },
                }
            }
        }
    }
}

/// The nodes in the queue are deleted, and those that references lead to
/// after them, until the queue is empty or the operations are too many.
pub open spec fn cascaded(
    db: DbView,
    origin: StageView,
    st: StageView,
    queue: Seq<NodeView>,
    dead: Set<Seq<char>>,
    bound: nat,
) -> Staged
    decreases
            if bound + 1 >= st.ops.len() {
                bound + 1 - st.ops.len()
            } else {
                0
            },
            queue.len(),
{
    if queue.len() == 0 {
        Ok(st)
    } else {
        let n = queue[0];
        let rest = queue.drop_first();
        if dead.contains(n.address) {
            cascaded(db, origin, st, rest, dead, bound)
        } else {
            match removed(st, n) {
                Err(e) => Err(e),
                Ok(s) => match followed(db, origin, s, n, dead.insert(n.address), rest, 0) {
                    Err(e) => Err(e),
                    Ok((t, more)) => if t.ops.len() > bound {
                        Err(TxErrorView::Invalid(InvalidityView::CascadeTooLarge { address: n.address }))
                    } else if t.ops.len() <= st.ops.len() {
                        Ok(t)
                    } else {
                        cascaded(db, origin, t, more, dead.insert(n.address), bound)
                    },
                },
            }
        }
    }
}

/// Nodes are deleted one after the other.
pub open spec fn removed_all(st: StageView, seeds: Seq<NodeView>) -> Staged
    decreases seeds.len(),
{
    if seeds.len() == 0 {
        Ok(st)
    } else {
        match removed(st, seeds[0]) {
            Err(e) => Err(e),
            Ok(s) => removed_all(s, seeds.drop_first()),
        }
    }
}

/// Nodes are deleted, with what references lead to.
pub open spec fn delete_closure(db: DbView, st: StageView, seeds: Seq<NodeView>, bound: nat) -> Staged {
    if db.references.len() == 0 {
        removed_all(st, seeds)
    } else {
        cascaded(db, st, st, seeds, Set::empty(), bound)
    }
}

// ---------------------------------------------------------------------
// Steps
// ---------------------------------------------------------------------

/// The nodes of a kind that the requester may write.
pub open spec fn writable(kind: Seq<char>, owner: Seq<char>, is_admin: bool) -> spec_fn(NodeView) -> bool {
    |n: NodeView| n.kind == kind && (is_admin || n.writable_by(owner))
}

/// The condition, or the lack of one, says this of the node.
pub open spec fn condition<F: Fn(&Filter, &Node) -> Result<bool, String>>(
    eval: F,
    where_: Option<Filter>,
    n: NodeView,
) -> Result<bool, Seq<char>> {
    match where_ {
        Some(f) => verdict(eval, f, n),
        None => Ok(true),
    }
}

/// Those of the first `k` rows that the condition holds of, or what went
/// wrong first.
pub open spec fn chosen<F: Fn(&Filter, &Node) -> Result<bool, String>>(
    eval: F,
    where_: Option<Filter>,
    rows: Seq<NodeView>,
    k: int,
) -> Result<Seq<NodeView>, Seq<char>>
    decreases k,
{
    if k <= 0 {
        Ok(Seq::empty())
    } else {
        match chosen(eval, where_, rows, k - 1) {
            Err(e) => Err(e),
            Ok(got) => match condition(eval, where_, rows[k - 1]) {
                Err(e) => Err(e),
                Ok(b) => Ok(
                    if b {
                        got.push(rows[k - 1])
                    } else {
                        got
                    },
                ),
            },
        }
    }
}

/// The selected nodes are deleted.
pub open spec fn selection_deleted<F: Fn(&Filter, &Node) -> Result<bool, String>>(
    db: DbView,
    st: StageView,
    eval: F,
    kind: Seq<char>,
    where_: Option<Filter>,
    owner: Seq<char>,
    is_admin: bool,
    bound: nat,
) -> Staged {
    let rows = listing(st.nodes, writable(kind, owner, is_admin));
    match chosen(eval, where_, rows, rows.len() as int) {
        Err(message) => Err(TxErrorView::Invalid(InvalidityView::Condition { message })),
        Ok(seeds) => delete_closure(db, st, seeds, bound),
    }
}

/// What one step makes of it.
pub open spec fn stepped<F: Fn(&Filter, &Node) -> Result<bool, String>>(
    db: DbView,
    st: StageView,
    op: TxOperation,
    eval: F,
    bound: nat,
) -> Staged {
    match op {
        TxOperation::InsertNode(node) => match node_in(st.nodes, node@.address) {
            None => Ok(put_node(st, node@)),
            Some(e) => if e.owner != node@.owner {
                Err(TxErrorView::Invalid(InvalidityView::Owned { address: node@.address, by: e.owner }))
            } else {
                replaced(st, e, node@)
            },
        },
        TxOperation::DeleteNode(address) => if st.gone.contains(address@) {
            Ok(st)
        } else {
            match node_in(st.nodes, address@) {
                None => Err(TxErrorView::Invalid(InvalidityView::TargetNotFound { address: address@ })),
                Some(n) => delete_closure(db, st, seq![n], bound),
            }
        },
        TxOperation::ClearKind { kind, owner, is_admin } => selection_deleted(
            db,
            st,
            eval,
            kind@,
            None,
            owner@,
            is_admin,
            bound,
        ),
        TxOperation::DeleteWhere { kind, where_, owner, is_admin } => selection_deleted(
            db,
            st,
            eval,
            kind@,
            where_,
            owner@,
            is_admin,
            bound,
        ),
        TxOperation::SetIf { address, field, expect, set, owner, is_admin } => match node_in(st.nodes, address@) {
            None => Err(TxErrorView::Precondition(UnmetView::SetIfTarget { address: address@ })),
            Some(n) => if !(is_admin || n.writable_by(owner@)) {
                Err(TxErrorView::Invalid(InvalidityView::NotAuthorized { address: address@ }))
            } else {
                match set_if(n, field@, expect@, set_view(set@)) {
                    Err(e) => Err(e),
                    Ok(next) => replaced(st, n, next),
                }
            },
        },
        TxOperation::InsertEdge(edge) => if !st.nodes.contains_key(edge@.from) {
            Err(
                TxErrorView::Invalid(
                    InvalidityView::EndpointNotFound { end: EdgeEnd::From, address: edge@.from },
                ),
            )
        } else if !st.nodes.contains_key(edge@.to) {
            Err(TxErrorView::Invalid(InvalidityView::EndpointNotFound { end: EdgeEnd::To, address: edge@.to }))
        } else {
            Ok(
                StageView {
                    edges: st.edges.insert(edge@.id(), edge@),
                    gone_edges: st.gone_edges.remove(edge@.id()),
                    ops: st.ops.push(OperationView::InsertEdge(edge@)),
                    ..st
                },
            )
        },
        TxOperation::DeleteEdge { id, owner, is_admin } => if st.gone_edges.contains(id@) {
            Ok(st)
        } else {
            match edge_in(st.edges, id@) {
                None => Err(TxErrorView::Invalid(InvalidityView::EdgeNotFound { id: id@ })),
                Some(e) => if !(is_admin || e.owner == owner@) {
                    Err(TxErrorView::Invalid(InvalidityView::EdgeNotAuthorized { id: id@ }))
                } else {
                    Ok(
                        StageView {
                            edges: st.edges.remove(id@),
                            gone_edges: st.gone_edges.insert(id@),
                            ops: st.ops.push(OperationView::DeleteEdge(id@)),
                            ..st
                        },
                    )
                },
            }
        },
    }
}

/// What the steps make of it, one after the other.
pub open spec fn worked_out<F: Fn(&Filter, &Node) -> Result<bool, String>>(
    db: DbView,
    st: StageView,
    ops: Seq<TxOperation>,
    eval: F,
    bound: nat,
) -> Staged
    decreases ops.len(),
{
    if ops.len() == 0 {
        Ok(st)
    } else {
        match worked_out(db, st, ops.drop_last(), eval, bound) {
            Err(e) => Err(e),
            Ok(s) => stepped(db, s, ops.last(), eval, bound),
        }
    }
}

// ---------------------------------------------------------------------
// What holds of every transaction worked out
// ---------------------------------------------------------------------

/// The states kept have versions of their own, from `first` up to `end`,
/// later ones higher.
pub open spec fn versioned(ops: Seq<OperationView>, first: u64, end: u64) -> bool {
    &&& first <= end
    &&& forall|i: int| 0 <= i < ops.len() ==> within(#[trigger] ops[i], first, end)
    &&& forall|i: int, j: int|
        0 <= i < j < ops.len() && ops[i] is Archive && ops[j] is Archive ==> (#[trigger] ops[i])->Archive_0.version < (
        #[trigger] ops[j])->Archive_0.version
}

/// The version of a state that the operation keeps is in the range.
pub open spec fn within(op: OperationView, first: u64, end: u64) -> bool {
    op matches OperationView::Archive(h) ==> first <= h.version < end
}

/// The operations make of the database what the next step sees of it, and
/// every insert or delete over a node comes right after that the node's
/// state was kept.
pub open spec fn faithful(db: DbView, st: StageView) -> bool {
    &&& versioned(st.ops, st.first, st.stamp)
    &&& st.stamp <= st.first + st.ops.len()
    &&& applied_all(db, st.ops).nodes == st.nodes
    &&& applied_all(db, st.ops).edges == st.edges
    &&& declares_nothing(st.ops)
    &&& forall|i: int| 0 <= i < st.ops.len() ==> #[trigger] preserved(db, st.ops, i)
    &&& forall|a: Seq<char>| #[trigger] st.nodes.contains_key(a) ==> st.nodes[a].address == a
}

/// The operation at `i` keeps the state that it replaces or deletes.
pub open spec fn preserved(db: DbView, ops: Seq<OperationView>, i: int) -> bool {
    match ops[i] {
        OperationView::Insert(n) => applied_all(db, ops.take(i)).nodes.contains_key(n.address) ==> i > 0
            && archives(ops[i - 1], n.address),
        OperationView::Delete(a) => applied_all(db, ops.take(i)).nodes.contains_key(a) ==> i > 0 && archives(
            ops[i - 1],
            a,
        ),
        _ => true,
    }
}

/// The operation keeps a state of the node at the address.
pub open spec fn archives(op: OperationView, a: Seq<char>) -> bool {
    op matches OperationView::Archive(h) && h.address == a
}

pub(crate) proof fn lemma_push(db: DbView, st: StageView, next: StageView, op: OperationView)
    requires
        faithful(db, st),
        next.ops == st.ops.push(op),
        !declares(op),
        applied(applied_all(db, st.ops), op).nodes == next.nodes,
        applied(applied_all(db, st.ops), op).edges == next.edges,
        next.first == st.first,
        op matches OperationView::Archive(h) ==> h.version == st.stamp && next.stamp == st.stamp + 1,
        !(op is Archive) ==> next.stamp == st.stamp,
        op matches OperationView::Insert(n) ==> (st.nodes.contains_key(n.address) ==> st.ops.len() > 0 && archives(
            st.ops.last(),
            n.address,
        )),
        op matches OperationView::Delete(a) ==> (st.nodes.contains_key(a) ==> st.ops.len() > 0 && archives(
            st.ops.last(),
            a,
        )),
    ensures
        faithful(db, next),
{
    assert(next.ops.drop_last() =~= st.ops);
    assert(next.ops.last() == op);
    assert forall|i: int| 0 <= i < next.ops.len() implies within(#[trigger] next.ops[i], next.first, next.stamp) by {
        if i < st.ops.len() {
            assert(within(st.ops[i], st.first, st.stamp));
        }
    }
    assert forall|i: int, j: int|
        0 <= i < j < next.ops.len() && next.ops[i] is Archive && next.ops[j] is Archive implies (
    #[trigger] next.ops[i])->Archive_0.version < (#[trigger] next.ops[j])->Archive_0.version by {
        assert(next.ops[i] == st.ops[i]);
        assert(within(st.ops[i], st.first, st.stamp));
        if j < st.ops.len() {
            assert(next.ops[j] == st.ops[j]);
        }
    }
    assert forall|i: int| 0 <= i < next.ops.len() implies !declares(#[trigger] next.ops[i]) by {
        if i < st.ops.len() {
            assert(next.ops[i] == st.ops[i]);
        }
    }
    assert forall|i: int| 0 <= i < next.ops.len() implies #[trigger] preserved(db, next.ops, i) by {
        if i < st.ops.len() {
            assert(preserved(db, st.ops, i));
            assert(next.ops.take(i) =~= st.ops.take(i));
            assert(next.ops[i] == st.ops[i]);
            if i > 0 {
                assert(next.ops[i - 1] == st.ops[i - 1]);
            }
        } else {
            assert(next.ops.take(i) =~= st.ops);
            if i > 0 {
                assert(next.ops[i - 1] == st.ops.last());
            }
        }
    }
    assert forall|a: Seq<char>| #[trigger] next.nodes.contains_key(a) implies next.nodes[a].address == a by {
        match op {
            OperationView::Insert(n) => {
                if a != n.address {
                    assert(st.nodes.contains_key(a));
                }
            },
            _ => {
                assert(st.nodes.contains_key(a));
            },
        }
    }
}

pub(crate) proof fn lemma_archived(db: DbView, st: StageView, n: NodeView)
    requires
        faithful(db, st),
        archived(st, n) is Ok,
    ensures
        faithful(db, archived(st, n)->Ok_0),
        archived(st, n)->Ok_0.first == st.first,
        archived(st, n)->Ok_0.nodes == st.nodes,
        archives(archived(st, n)->Ok_0.ops.last(), n.address),
        archived(st, n)->Ok_0.ops.len() == st.ops.len() + 1,
{
    lemma_push(db, st, archived(st, n)->Ok_0, OperationView::Archive(superseded(n, st.stamp)));
}

proof fn lemma_replaced(db: DbView, st: StageView, n: NodeView, next: NodeView)
    requires
        faithful(db, st),
        next.address == n.address,
        replaced(st, n, next) is Ok,
    ensures
        faithful(db, replaced(st, n, next)->Ok_0),
        replaced(st, n, next)->Ok_0.first == st.first,
        replaced(st, n, next)->Ok_0.ops.len() == st.ops.len() + 2,
{
    lemma_archived(db, st, n);
    let s = archived(st, n)->Ok_0;
    lemma_push(db, s, put_node(s, next), OperationView::Insert(next));
}

proof fn lemma_removed(db: DbView, st: StageView, n: NodeView)
    requires
        faithful(db, st),
        removed(st, n) is Ok,
    ensures
        faithful(db, removed(st, n)->Ok_0),
        removed(st, n)->Ok_0.first == st.first,
        removed(st, n)->Ok_0.ops.len() == st.ops.len() + 2,
{
    lemma_archived(db, st, n);
    let s = archived(st, n)->Ok_0;
    lemma_push(db, s, drop_node(s, n.address), OperationView::Delete(n.address));
}

proof fn lemma_removed_all(db: DbView, st: StageView, seeds: Seq<NodeView>)
    requires
        faithful(db, st),
        removed_all(st, seeds) is Ok,
    ensures
        faithful(db, removed_all(st, seeds)->Ok_0),
        removed_all(st, seeds)->Ok_0.first == st.first,
    decreases seeds.len(),
{
    if seeds.len() > 0 {
        lemma_removed(db, st, seeds[0]);
        lemma_removed_all(db, removed(st, seeds[0])->Ok_0, seeds.drop_first());
    }
}

proof fn lemma_cleared_address(n: NodeView, name: Seq<char>)
    ensures
        cleared(n, name) matches Some(m) ==> m.address == n.address,
{
}

proof fn lemma_nulled(db: DbView, st: StageView, kids: Seq<NodeView>, name: Seq<char>)
    requires
        faithful(db, st),
        nulled(st, kids, name) is Ok,
    ensures
        faithful(db, nulled(st, kids, name)->Ok_0),
        nulled(st, kids, name)->Ok_0.first == st.first,
        nulled(st, kids, name)->Ok_0.ops.len() >= st.ops.len(),
    decreases kids.len(),
{
    if kids.len() > 0 {
        lemma_cleared_address(kids[0], name);
        let next = cleared(kids[0], name)->0;
        lemma_replaced(db, st, kids[0], next);
        lemma_nulled(db, replaced(st, kids[0], next)->Ok_0, kids.drop_first(), name);
    }
}

proof fn lemma_followed(
    db: DbView,
    origin: StageView,
    st: StageView,
    n: NodeView,
    dead: Set<Seq<char>>,
    queue: Seq<NodeView>,
    i: int,
)
    requires
        faithful(db, st),
        followed(db, origin, st, n, dead, queue, i) is Ok,
    ensures
        faithful(db, followed(db, origin, st, n, dead, queue, i)->Ok_0.0),
        followed(db, origin, st, n, dead, queue, i)->Ok_0.0.first == st.first,
        followed(db, origin, st, n, dead, queue, i)->Ok_0.0.ops.len() >= st.ops.len(),
    decreases db.references.len() - i,
{
    if 0 <= i < db.references.len() {
        let r = db.references[i];
        if r.parent_kind != n.kind || referenced(n, r) is None {
            lemma_followed(db, origin, st, n, dead, queue, i + 1);
        } else {
            let kids = listing(st.nodes, is_child(db, origin, r, referenced(n, r)->0, dead));
            if kids.len() == 0 {
                lemma_followed(db, origin, st, n, dead, queue, i + 1);
            } else {
                match r.on_delete {
                    ReferentialAction::Cascade => {
                        lemma_followed(db, origin, st, n, dead, queue + kids, i + 1);
                    },
                    ReferentialAction::Restrict => {},
                    ReferentialAction::SetNull => {
                        lemma_nulled(db, st, kids, r.field);
                        lemma_followed(db, origin, nulled(st, kids, r.field)->Ok_0, n, dead, queue, i + 1);
                    },
                }
            }
        }
    }
}

/// Following the references of a deleted node adds to the operations.
pub proof fn lemma_cascade_grows(
    db: DbView,
    origin: StageView,
    st: StageView,
    n: NodeView,
    dead: Set<Seq<char>>,
    queue: Seq<NodeView>,
)
    requires
        faithful(db, st),
        removed(st, n) is Ok,
        followed(db, origin, removed(st, n)->Ok_0, n, dead, queue, 0) is Ok,
    ensures
        followed(db, origin, removed(st, n)->Ok_0, n, dead, queue, 0)->Ok_0.0.ops.len() > st.ops.len(),
        faithful(db, followed(db, origin, removed(st, n)->Ok_0, n, dead, queue, 0)->Ok_0.0),
        followed(db, origin, removed(st, n)->Ok_0, n, dead, queue, 0)->Ok_0.0.first == st.first,
{
    lemma_removed(db, st, n);
    lemma_followed(db, origin, removed(st, n)->Ok_0, n, dead, queue, 0);
}

proof fn lemma_cascaded(
    db: DbView,
    origin: StageView,
    st: StageView,
    queue: Seq<NodeView>,
    dead: Set<Seq<char>>,
    bound: nat,
)
    requires
        faithful(db, st),
        cascaded(db, origin, st, queue, dead, bound) is Ok,
    ensures
        faithful(db, cascaded(db, origin, st, queue, dead, bound)->Ok_0),
        cascaded(db, origin, st, queue, dead, bound)->Ok_0.first == st.first,
    decreases
            if bound + 1 >= st.ops.len() {
                bound + 1 - st.ops.len()
            } else {
                0
            },
            queue.len(),
{
    if queue.len() > 0 {
        let n = queue[0];
        let rest = queue.drop_first();
        if dead.contains(n.address) {
            lemma_cascaded(db, origin, st, rest, dead, bound);
        } else {
            lemma_cascade_grows(db, origin, st, n, dead.insert(n.address), rest);
            let s = removed(st, n)->Ok_0;
            let (t, more) = followed(db, origin, s, n, dead.insert(n.address), rest, 0)->Ok_0;
            if t.ops.len() <= bound && t.ops.len() > st.ops.len() {
                lemma_cascaded(db, origin, t, more, dead.insert(n.address), bound);
            }
        }
    }
}

pub proof fn lemma_delete_closure(db: DbView, st: StageView, seeds: Seq<NodeView>, bound: nat)
    requires
        faithful(db, st),
        delete_closure(db, st, seeds, bound) is Ok,
    ensures
        faithful(db, delete_closure(db, st, seeds, bound)->Ok_0),
        delete_closure(db, st, seeds, bound)->Ok_0.first == st.first,
{
    if db.references.len() == 0 {
        lemma_removed_all(db, st, seeds);
    } else {
        lemma_cascaded(db, st, st, seeds, Set::empty(), bound);
    }
}

pub proof fn lemma_stepped<F: Fn(&Filter, &Node) -> Result<bool, String>>(
    db: DbView,
    st: StageView,
    op: TxOperation,
    eval: F,
    bound: nat,
)
    requires
        faithful(db, st),
        stepped(db, st, op, eval, bound) is Ok,
    ensures
        faithful(db, stepped(db, st, op, eval, bound)->Ok_0),
        stepped(db, st, op, eval, bound)->Ok_0.first == st.first,
{
    let next = stepped(db, st, op, eval, bound)->Ok_0;
    match op {
        TxOperation::InsertNode(node) => match node_in(st.nodes, node@.address) {
            None => {
                lemma_push(db, st, next, OperationView::Insert(node@));
            },
            Some(e) => {
                lemma_replaced(db, st, e, node@);
            },
        },
        TxOperation::DeleteNode(address) => {
            if !st.gone.contains(address@) {
                lemma_delete_closure(db, st, seq![st.nodes[address@]], bound);
            }
        },
        TxOperation::ClearKind { kind, owner, is_admin } => {
            let rows = listing(st.nodes, writable(kind@, owner@, is_admin));
            lemma_delete_closure(db, st, chosen(eval, None, rows, rows.len() as int)->Ok_0, bound);
        },
        TxOperation::DeleteWhere { kind, where_, owner, is_admin } => {
            let rows = listing(st.nodes, writable(kind@, owner@, is_admin));
            lemma_delete_closure(db, st, chosen(eval, where_, rows, rows.len() as int)->Ok_0, bound);
        },
        TxOperation::SetIf { address, field, expect, set, owner, is_admin } => {
            let n = st.nodes[address@];
            let m = set_if(n, field@, expect@, set_view(set@))->Ok_0;
            lemma_replaced(db, st, n, m);
        },
        TxOperation::InsertEdge(edge) => {
            lemma_push(db, st, next, OperationView::InsertEdge(edge@));
        },
        TxOperation::DeleteEdge { id, owner, is_admin } => {
            if !st.gone_edges.contains(id@) {
                lemma_push(db, st, next, OperationView::DeleteEdge(id@));
            }
        },
    }
}

pub proof fn lemma_fresh(db: DbView, stamp: u64)
    requires
        forall|a: Seq<char>| #[trigger] db.nodes.contains_key(a) ==> db.nodes[a].address == a,
    ensures
        faithful(db, fresh_stage(db, stamp)),
{
}

/// The operations that a transaction comes to make of the database just what
/// its steps, one after the other, make of it; they declare nothing; no node
/// is overwritten or deleted but right after its state was kept; and the
/// states kept have versions of their own, from the given one on.
pub proof fn law_lowering_is_faithful<F: Fn(&Filter, &Node) -> Result<bool, String>>(
    db: DbView,
    stamp: u64,
    ops: Seq<TxOperation>,
    eval: F,
    bound: nat,
)
    requires
        forall|a: Seq<char>| #[trigger] db.nodes.contains_key(a) ==> db.nodes[a].address == a,
        worked_out(db, fresh_stage(db, stamp), ops, eval, bound) is Ok,
    ensures
        faithful(db, worked_out(db, fresh_stage(db, stamp), ops, eval, bound)->Ok_0),
        worked_out(db, fresh_stage(db, stamp), ops, eval, bound)->Ok_0.first == stamp,
    decreases ops.len(),
{
    if ops.len() == 0 {
        lemma_fresh(db, stamp);
    } else {
        law_lowering_is_faithful(db, stamp, ops.drop_last(), eval, bound);
        let st = worked_out(db, fresh_stage(db, stamp), ops.drop_last(), eval, bound)->Ok_0;
        lemma_stepped(db, st, ops.last(), eval, bound);
    }
}

} // verus!
