//! What changing nodes, edges and users does.

use vstd::prelude::*;

use crate::engine::graph::{edge_operations, inserts_star, puts_edge, takes_edge, target_edges, targets_view};
use crate::engine::read::{finds_edge, gets};
use crate::engine::users::{finds_user, puts_user, revokes_user};
use crate::engine::write::{claims, inserts, insertion, next_version, ClaimError};
use crate::engine::StorageEngine;
use crate::tables::model::{applied, applied_all, DbView};
use crate::tables::read::node_in;
use crate::types::{superseded, Edge, EdgeId, EdgeIdView, EdgeView, Node, NodeView, UserRecord};
use crate::transaction::{Invalidity, TransactionError};
use crate::wal::OperationView;

verus! {

proof fn lemma_one(db: DbView, op: OperationView)
    ensures
        applied_all(db, seq![op]) == applied(db, op),
{
    assert(seq![op].drop_last() =~= Seq::<OperationView>::empty());
    reveal_with_fuel(applied_all, 2);
}

proof fn lemma_inserted(db: DbView, n: NodeView, version: u64)
    ensures
        applied_all(db, insertion(db, n, version)).nodes == db.nodes.insert(n.address, n),
        applied_all(db, insertion(db, n, version)).edges == db.edges,
        applied_all(db, insertion(db, n, version)).users == db.users,
        applied_all(db, insertion(db, n, version)).data == db.data,
        applied_all(db, insertion(db, n, version)).text == db.text,
        applied_all(db, insertion(db, n, version)).references == db.references,
        db.nodes.contains_key(n.address) ==> applied_all(db, insertion(db, n, version)).history == db.history.insert(
            (db.nodes[n.address].address, version),
            superseded(db.nodes[n.address], version),
        ),
        !db.nodes.contains_key(n.address) ==> applied_all(db, insertion(db, n, version)).history == db.history,
{
    let ops = insertion(db, n, version);
    reveal_with_fuel(applied_all, 3);
    match node_in(db.nodes, n.address) {
        Some(p) => {
            let first = OperationView::Archive(superseded(p, version));
            assert(ops.drop_last() =~= seq![first]);
            assert(seq![first].drop_last() =~= Seq::<OperationView>::empty());
        },
        None => {
            assert(ops.drop_last() =~= Seq::<OperationView>::empty());
        },
    }
}

/// A node that is put in place is at its address, field by field. What is at
/// other addresses stays, as do edges, users and all that is declared. The
/// state that was at the address before is kept, under a version that was not
/// in use, and every state that was kept stays.
pub proof fn law_insert_changes_one_node(before: StorageEngine, after: StorageEngine, node: Node)
    requires
        before.inv(),
        inserts(Ok(()), before, after, node@),
    ensures
        ({
            let a = node.address@;
            &&& after@.nodes.contains_key(a)
            &&& after@.nodes[a].coordinate == node.coordinate
            &&& after@.nodes[a].address == a
            &&& after@.nodes[a].kind == node.kind@
            &&& after@.nodes[a].owner == node.owner@
            &&& after@.nodes[a].data == node.data@
            &&& after@.nodes[a].visibility == node.visibility
            &&& match node.claimed_by {
                Some(who) => after@.nodes[a].claimed_by == Some(who@),
                None => after@.nodes[a].claimed_by is None,
            }
        }),
        forall|b: Seq<char>|
            b != node.address@ ==> (#[trigger] after@.nodes.contains_key(b) <==> before@.nodes.contains_key(b)) && (
            after@.nodes.contains_key(b) ==> after@.nodes[b] == before@.nodes[b]),
        after@.edges == before@.edges,
        after@.users == before@.users,
        after@.data == before@.data,
        after@.text == before@.text,
        after@.references == before@.references,
        forall|x: (Seq<char>, u64)| #[trigger]
            before@.history.contains_key(x) ==> after@.history.contains_key(x) && after@.history[x] == before@.history[x],
        before@.nodes.contains_key(node.address@) ==> exists|version: u64|
            !before@.history.contains_key((node.address@, version)) && #[trigger] after@.history.contains_key(
                (node.address@, version),
            ) && after@.history[(node.address@, version)].node == before@.nodes[node.address@],
        !before@.nodes.contains_key(node.address@) ==> after@.history == before@.history,
{
    let version = next_version(before);
    let a = node.address@;
    before.lemma_keyed();
    before.lemma_log();
    lemma_inserted(before@, node@, version);
    if before@.nodes.contains_key(a) {
        assert(!before@.history.contains_key((a, version)));
        assert(after@.history.contains_key((a, version)));
    }
}

/// A node that is put in place is read there, field by field.
pub proof fn law_inserted_node_is_read(
    before: StorageEngine,
    after: StorageEngine,
    node: Node,
    found: Option<Node>,
    address: Seq<char>,
)
    requires
        inserts(Ok(()), before, after, node@),
        gets(Ok(found), after, address),
        address == node.address@,
    ensures
        found is Some,
        found->0.coordinate == node.coordinate,
        found->0.address@ == node.address@,
        found->0.kind@ == node.kind@,
        found->0.owner@ == node.owner@,
        found->0.data@ == node.data@,
        found->0.visibility == node.visibility,
        found->0.claimed_by is Some <==> node.claimed_by is Some,
        node.claimed_by matches Some(who) ==> found->0.claimed_by->0@ == who@,
{
    lemma_inserted(before@, node@, next_version(before));
    let m = found->0;
    assert(m@ == node@);
    assert(m@.claimed_by == node@.claimed_by);
}

/// A claim that succeeds is of a node that nobody had claimed. The node then
/// has the worker as its claimant, and the place, kind, owner, data and
/// visibility that it had. What is at other addresses stays.
pub proof fn law_claim_changes_the_claimant_alone(
    before: StorageEngine,
    after: StorageEngine,
    address: Seq<char>,
    worker: Seq<char>,
)
    requires
        before.inv(),
        claims(Ok(()), before, after, address, worker),
    ensures
        before@.nodes.contains_key(address),
        before@.nodes[address].claimed_by is None,
        after@.nodes.contains_key(address),
        after@.nodes[address].claimed_by == Some(worker),
        after@.nodes[address].coordinate == before@.nodes[address].coordinate,
        after@.nodes[address].address == address,
        after@.nodes[address].kind == before@.nodes[address].kind,
        after@.nodes[address].owner == before@.nodes[address].owner,
        after@.nodes[address].data == before@.nodes[address].data,
        after@.nodes[address].visibility == before@.nodes[address].visibility,
        forall|b: Seq<char>|
            b != address ==> (#[trigger] after@.nodes.contains_key(b) <==> before@.nodes.contains_key(b)) && (
            after@.nodes.contains_key(b) ==> after@.nodes[b] == before@.nodes[b]),
        after@.edges == before@.edges,
        after@.users == before@.users,
        after@.data == before@.data,
        after@.text == before@.text,
        after@.references == before@.references,
{
    before.lemma_keyed();
    let n = crate::engine::write::claimed(before@.nodes[address], worker);
    lemma_inserted(before@, n, next_version(before));
}

/// Who claims a node after another has claimed it is told so, and changes
/// nothing.
pub proof fn law_node_is_claimed_once(
    before: StorageEngine,
    after: StorageEngine,
    again: StorageEngine,
    address: Seq<char>,
    first: Seq<char>,
    second: Seq<char>,
    r: Result<(), ClaimError>,
)
    requires
        before.inv(),
        claims(Ok(()), before, after, address, first),
        claims(r, after, again, address, second),
    ensures
        r matches Err(ClaimError::AlreadyClaimed(by)) && by@ == first,
        again@ == after@,
{
    law_claim_changes_the_claimant_alone(before, after, address, first);
    after.lemma_same(&again);
}

/// A node that is not there is not claimed, and nothing changes.
pub proof fn law_nothing_is_claimed_where_nothing_is(
    before: StorageEngine,
    after: StorageEngine,
    address: Seq<char>,
    worker: Seq<char>,
    r: Result<(), ClaimError>,
)
    requires
        !before.failed(),
        !before@.nodes.contains_key(address),
        claims(r, before, after, address, worker),
    ensures
        r matches Err(ClaimError::NotFound),
        after@ == before@,
{
    before.lemma_same(&after);
}

/// An edge that is put in leads from a node that is there to one that is
/// there, and is in, field by field. It takes the place of none of another
/// owner. Other edges stay, and all nodes.
pub proof fn law_edge_is_put_in(before: StorageEngine, after: StorageEngine, edge: Edge)
    requires
        puts_edge(Ok(()), before, after, edge@),
    ensures
        before@.nodes.contains_key(edge.from@),
        before@.nodes.contains_key(edge.to@),
        ({
            let id = EdgeIdView { from: edge.from@, to: edge.to@, kind: edge.kind@ };
            &&& before@.edges.contains_key(id) ==> before@.edges[id].owner == edge.owner@
            &&& after@.edges.contains_key(id)
            &&& after@.edges[id].from == edge.from@
            &&& after@.edges[id].to == edge.to@
            &&& after@.edges[id].kind == edge.kind@
            &&& after@.edges[id].owner == edge.owner@
            &&& forall|other: EdgeIdView|
                other != id ==> (#[trigger] after@.edges.contains_key(other) <==> before@.edges.contains_key(other)) && (
                after@.edges.contains_key(other) ==> after@.edges[other] == before@.edges[other])
        }),
        after@.nodes == before@.nodes,
        after@.history == before@.history,
        after@.users == before@.users,
        after@.data == before@.data,
        after@.text == before@.text,
        after@.references == before@.references,
{
    lemma_one(before@, OperationView::InsertEdge(edge@));
}

/// An edge that is taken out was in, and is in no more. Other edges stay, and
/// all nodes.
pub proof fn law_edge_is_taken_out(before: StorageEngine, after: StorageEngine, id: EdgeId)
    requires
        takes_edge(Ok(()), before, after, id@),
    ensures
        ({
            let gone = EdgeIdView { from: id.from@, to: id.to@, kind: id.kind@ };
            &&& before@.edges.contains_key(gone)
            &&& !after@.edges.contains_key(gone)
            &&& forall|other: EdgeIdView|
                other != gone ==> (#[trigger] after@.edges.contains_key(other) <==> before@.edges.contains_key(other))
                    && (after@.edges.contains_key(other) ==> after@.edges[other] == before@.edges[other])
        }),
        after@.nodes == before@.nodes,
        after@.history == before@.history,
        after@.users == before@.users,
        after@.data == before@.data,
        after@.text == before@.text,
        after@.references == before@.references,
{
    lemma_one(before@, OperationView::DeleteEdge(id@));
}

/// An edge that is put in is found, with its owner; one that is taken out is
/// not.
pub proof fn law_edges_are_found(
    before: StorageEngine,
    after: StorageEngine,
    edge: Edge,
    id: EdgeId,
    found: Option<Edge>,
)
    requires
        finds_edge(Ok(found), after, id@),
        id.from@ == edge.from@,
        id.to@ == edge.to@,
        id.kind@ == edge.kind@,
    ensures
        puts_edge(Ok(()), before, after, edge@) ==> found is Some && found->0.from@ == edge.from@ && found->0.to@
            == edge.to@ && found->0.kind@ == edge.kind@ && found->0.owner@ == edge.owner@,
        takes_edge(Ok(()), before, after, id@) ==> found is None,
{
    lemma_one(before@, OperationView::InsertEdge(edge@));
    lemma_one(before@, OperationView::DeleteEdge(id@));
    assert(edge@.id() =~= id@);
    if puts_edge(Ok(()), before, after, edge@) {
        assert(after@.edges[id@] == edge@);
        assert(found->0@ == edge@);
    }
}

proof fn lemma_edges_in(db: DbView, head: Seq<OperationView>, edges: Seq<EdgeView>, id: EdgeIdView, n: int)
    requires
        0 <= n <= edges.len(),
    ensures
        ({
            let before = applied_all(db, head);
            let after = applied_all(db, head + edge_operations(edges).take(n));
            &&& after.nodes == before.nodes
            &&& after.users == before.users
            &&& after.data == before.data
            &&& after.text == before.text
            &&& after.references == before.references
            &&& after.history == before.history
            &&& forall|i: int| 0 <= i < n ==> after.edges.contains_key((#[trigger] edges[i]).id())
            &&& (forall|i: int| 0 <= i < n ==> (#[trigger] edges[i]).id() != id) ==> (after.edges.contains_key(id)
                <==> before.edges.contains_key(id)) && (after.edges.contains_key(id) ==> after.edges[id]
                == before.edges[id])
            &&& after.edges.contains_key(id) && !(forall|i: int| 0 <= i < n ==> (#[trigger] edges[i]).id() != id)
                ==> exists|i: int| 0 <= i < n && #[trigger] edges[i] == after.edges[id]
        }),
    decreases n,
{
    let ops = edge_operations(edges);
    if n == 0 {
        assert(head + ops.take(0) =~= head);
    } else {
        lemma_edges_in(db, head, edges, id, n - 1);
        let all = head + ops.take(n);
        assert(all.drop_last() =~= head + ops.take(n - 1));
        assert(all.last() == OperationView::InsertEdge(edges[n - 1]));
        let mid = applied_all(db, head + ops.take(n - 1));
        let after = applied_all(db, all);
        assert(after == applied(mid, all.last()));
        assert(after.edges == mid.edges.insert(edges[n - 1].id(), edges[n - 1]));
        if edges[n - 1].id() == id {
            assert(after.edges[id] == edges[n - 1]);
        }
    }
}

/// A node that is put in with its edges is at its address, field by field;
/// from it an edge leads to each target, of the kind given and by the node's
/// owner. Each target is there. What was at the address was the owner's, or
/// an administrator asked. Other nodes and other edges stay.
pub proof fn law_star_is_put_in(
    before: StorageEngine,
    after: StorageEngine,
    node: Node,
    targets: Seq<(String, String)>,
    is_admin: bool,
    list: Vec<Edge>,
)
    requires
        before.inv(),
        inserts_star(Ok(list), before, after, node@, targets_view(targets), is_admin),
    ensures
        after@.nodes.contains_key(node.address@),
        after@.nodes[node.address@] == node@,
        before@.nodes.contains_key(node.address@) ==> is_admin || before@.nodes[node.address@].owner == node.owner@,
        forall|b: Seq<char>|
            b != node.address@ ==> (#[trigger] after@.nodes.contains_key(b) <==> before@.nodes.contains_key(b)) && (
            after@.nodes.contains_key(b) ==> after@.nodes[b] == before@.nodes[b]),
        list@.len() == targets.len(),
        forall|i: int|
            0 <= i < targets.len() ==> {
                let to = (#[trigger] targets[i]).0@;
                let kind = targets[i].1@;
                let id = EdgeIdView { from: node.address@, to, kind };
                &&& after@.nodes.contains_key(to)
                &&& after@.edges.contains_key(id)
                &&& after@.edges[id].owner == node.owner@
                &&& list@[i].from@ == node.address@
                &&& list@[i].to@ == to
                &&& list@[i].kind@ == kind
                &&& list@[i].owner@ == node.owner@
            },
        forall|id: EdgeIdView|
            id.from != node.address@ ==> (#[trigger] after@.edges.contains_key(id) <==> before@.edges.contains_key(id))
                && (after@.edges.contains_key(id) ==> after@.edges[id] == before@.edges[id]),
        after@.users == before@.users,
        after@.data == before@.data,
        after@.text == before@.text,
        after@.references == before@.references,
{
    let view = targets_view(targets);
    let edges = target_edges(node@, view);
    let head = insertion(before@, node@, next_version(before));
    let ops = head + edge_operations(edges);
    let n = edges.len() as int;
    lemma_inserted(before@, node@, next_version(before));
    assert(edge_operations(edges).take(n) =~= edge_operations(edges));
    let any = EdgeIdView { from: node.address@, to: node.address@, kind: node.address@ };
    lemma_edges_in(before@, head, edges, any, n);
    assert(after@ == applied_all(before@, ops));
    let listed = crate::tables::listing::edges_view(list@);
    assert(listed.len() == edges.len());
    assert forall|i: int| 0 <= i < targets.len() implies {
        let to = (#[trigger] targets[i]).0@;
        let kind = targets[i].1@;
        let id = EdgeIdView { from: node.address@, to, kind };
        &&& after@.nodes.contains_key(to)
        &&& after@.edges.contains_key(id)
        &&& after@.edges[id].owner == node.owner@
        &&& list@[i].from@ == node.address@
        &&& list@[i].to@ == to
        &&& list@[i].kind@ == kind
        &&& list@[i].owner@ == node.owner@
    } by {
        let to = targets[i].0@;
        let kind = targets[i].1@;
        let id = EdgeIdView { from: node.address@, to, kind };
        assert(view[i] == (to, kind));
        assert(edges[i].id() =~= id);
        lemma_edges_in(before@, head, edges, id, n);
        let k = choose|k: int| 0 <= k < n && #[trigger] edges[k] == after@.edges[id];
        assert(edges[k].owner == node@.owner);
        assert(listed[i] == edges[i]);
        assert(list@[i]@ == edges[i]);
        lemma_targets(before@, node@, view, 0, i);
    }
    assert forall|id: EdgeIdView|
        id.from != node.address@ implies (#[trigger] after@.edges.contains_key(id) <==> before@.edges.contains_key(id))
        && (after@.edges.contains_key(id) ==> after@.edges[id] == before@.edges[id]) by {
        lemma_edges_in(before@, head, edges, id, n);
        assert forall|i: int| 0 <= i < n implies (#[trigger] edges[i]).id() != id by {
            assert(edges[i].id().from == node@.address);
        }
    }
}

proof fn lemma_targets(db: DbView, n: NodeView, targets: Seq<(Seq<char>, Seq<char>)>, from: int, i: int)
    requires
        0 <= from <= i < targets.len(),
        crate::engine::graph::missing_target(db, n, targets, from) is None,
    ensures
        targets[i].0 == n.address || db.nodes.contains_key(targets[i].0),
    decreases i - from,
{
    if from < i {
        lemma_targets(db, n, targets, from + 1, i);
    }
}

/// A user that is kept is found by the token, with the same owner and the
/// same rights. Other users stay, and all nodes and edges.
pub proof fn law_user_is_kept(
    before: StorageEngine,
    after: StorageEngine,
    record: UserRecord,
    found: Option<UserRecord>,
    token_hash: Seq<char>,
)
    requires
        puts_user(Ok(()), before, after, record@),
        token_hash == record.token_hash@,
        finds_user(found, after, token_hash),
    ensures
        found is Some,
        found->0.token_hash@ == record.token_hash@,
        found->0.owner@ == record.owner@,
        found->0.is_admin == record.is_admin,
        forall|h: Seq<char>|
            h != token_hash ==> (#[trigger] after@.users.contains_key(h) <==> before@.users.contains_key(h)) && (
            after@.users.contains_key(h) ==> after@.users[h] == before@.users[h]),
        after@.nodes == before@.nodes,
        after@.edges == before@.edges,
{
    lemma_one(before@, OperationView::InsertUser(record@));
    assert(found->0@ == record@);
}

/// A user that is forgotten is found no more. Other users stay, and all nodes
/// and edges.
pub proof fn law_user_is_forgotten(
    before: StorageEngine,
    after: StorageEngine,
    token_hash: Seq<char>,
    found: Option<UserRecord>,
)
    requires
        revokes_user(Ok(()), before, after, token_hash),
        finds_user(found, after, token_hash),
    ensures
        found is None,
        forall|h: Seq<char>|
            h != token_hash ==> (#[trigger] after@.users.contains_key(h) <==> before@.users.contains_key(h)) && (
            after@.users.contains_key(h) ==> after@.users[h] == before@.users[h]),
        after@.nodes == before@.nodes,
        after@.edges == before@.edges,
{
    lemma_one(before@, OperationView::RevokeUser(token_hash));
}

/// A claim is refused as missing only where nothing is there, and as made
/// only where that worker has made it.
pub proof fn law_claim_is_refused_for_a_reason(
    e: ClaimError,
    before: StorageEngine,
    after: StorageEngine,
    address: Seq<char>,
    worker: Seq<char>,
)
    requires
        claims(Err(e), before, after, address, worker),
    ensures
        e is NotFound ==> !before@.nodes.contains_key(address) && after@ == before@,
        e matches ClaimError::AlreadyClaimed(by) ==> before@.nodes.contains_key(address)
            && before@.nodes[address].claimed_by == Some(by@) && after@ == before@,
{
    if !(e is StorageError) {
        before.lemma_same(&after);
    }
}

/// An edge is refused for an end of it only where no node is there, and as
/// another's only where it is in and has another owner; taking one out is
/// refused as missing only where it is not in.
pub proof fn law_edge_is_refused_for_a_reason(
    e: Invalidity,
    before: StorageEngine,
    after: StorageEngine,
    edge: Edge,
    id: EdgeId,
)
    requires
        !before.failed(),
    ensures
        puts_edge(Err(TransactionError::Invalid(e)), before, after, edge@) && e is EndpointNotFound ==> !(
        before@.nodes.contains_key(edge.from@) && before@.nodes.contains_key(edge.to@)),
        puts_edge(Err(TransactionError::Invalid(e)), before, after, edge@) && e is EdgeOwned ==> {
            let at = EdgeIdView { from: edge.from@, to: edge.to@, kind: edge.kind@ };
            before@.edges.contains_key(at) && before@.edges[at].owner != edge.owner@
        },
        takes_edge(Err(TransactionError::Invalid(e)), before, after, id@) && e is EdgeNotFound ==> !before@.edges.contains_key(
            EdgeIdView { from: id.from@, to: id.to@, kind: id.kind@ },
        ),
{
    assert(edge@.id() == EdgeIdView { from: edge.from@, to: edge.to@, kind: edge.kind@ });
    assert(id@ == EdgeIdView { from: id.from@, to: id.to@, kind: id.kind@ });
}

} // verus!
