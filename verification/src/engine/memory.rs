//! Nothing is forgotten: a state that is replaced or deleted is kept.

use vstd::prelude::*;

use crate::engine::write::{deletes, inserts, insertion, next_version, transacts};
use crate::engine::{stamped, StorageEngine};
use crate::filter::Filter;
use crate::tables::integrity::law_deleted_is_gone;
use crate::tables::memory::{
    history_kept, keeps_state, law_deleting_forgets_nothing, law_lowering_forgets_nothing, lemma_history_grows,
    recalled,
};
use crate::tables::listing::history_listing;
use crate::tables::model::{applied, applied_all, DbView};
use crate::tables::plan::{
    delete_closure, fresh_stage, law_lowering_is_faithful, lemma_delete_closure, lemma_fresh, versioned, within,
    worked_out, StageView,
};
use crate::tables::read::node_in;
use crate::tables::rows::live;
use crate::transaction::TxOperation;
use crate::types::{superseded, HistoryView, Node, NodeView};
use crate::wal::OperationView;

verus! {

/// The state that a node was in is kept, under a version that was not in
/// use.
pub open spec fn remembered(before: DbView, after: DbView, a: Seq<char>, version: u64) -> bool {
    &&& !before.history.contains_key((a, version))
    &&& after.history.contains_key((a, version))
    &&& after.history[(a, version)].node == before.nodes[a]
}

/// Every state kept stays so, and every node is as it was, or the state it
/// was in is kept.
pub open spec fn nothing_lost(before: DbView, after: DbView) -> bool {
    &&& history_kept(before.history, after.history)
    &&& forall|a: Seq<char>| #[trigger]
        before.nodes.contains_key(a) ==> live(after.nodes, before.nodes[a]) || exists|version: u64| #[trigger]
            remembered(before, after, a, version)
}

proof fn lemma_nothing_lost(db: DbView, st: StageView, top: u64)
    requires
        stamped(db.history, top),
        top < st.first,
        versioned(st.ops, st.first, st.stamp),
        applied_all(db, st.ops).nodes == st.nodes,
        forall|a: Seq<char>| #[trigger] recalled(db, st, a),
        forall|a: Seq<char>| #[trigger] db.nodes.contains_key(a) ==> db.nodes[a].address == a,
    ensures
        nothing_lost(db, applied_all(db, st.ops)),
{
    let after = applied_all(db, st.ops);
    lemma_history_grows(db, st.ops, st.first, st.stamp);
    assert forall|a: Seq<char>| #[trigger] db.nodes.contains_key(a) implies live(after.nodes, db.nodes[a]) || exists|
        version: u64,
    | #[trigger] remembered(db, after, a, version) by {
        assert(recalled(db, st, a));
        if !live(after.nodes, db.nodes[a]) {
            let i = choose|i: int| 0 <= i < st.ops.len() && keeps_state(#[trigger] st.ops[i], db.nodes[a]);
            let h = st.ops[i]->Archive_0;
            assert(within(st.ops[i], st.first, st.stamp));
            assert(remembered(db, after, a, h.version));
        }
    }
}

proof fn lemma_insertion(db: DbView, n: NodeView, version: u64)
    ensures
        applied_all(db, insertion(db, n, version)).nodes == db.nodes.insert(n.address, n),
        applied_all(db, insertion(db, n, version)).history == (match node_in(db.nodes, n.address) {
            Some(p) => db.history.insert((p.address, version), superseded(p, version)),
            None => db.history,
        }),
{
    let ops = insertion(db, n, version);
    reveal_with_fuel(applied_all, 3);
    match node_in(db.nodes, n.address) {
        Some(p) => {
            let first = OperationView::Archive(superseded(p, version));
            assert(ops.drop_last() =~= seq![first]);
            assert(seq![first].drop_last() =~= Seq::<OperationView>::empty());
        },
        None => {
            assert(ops.drop_last() =~= Seq::<OperationView>::empty());
        },
    }
}

/// A node that was put in place is what is found at its address; what is at
/// other addresses stays; and nothing is forgotten.
pub proof fn law_insert_forgets_nothing(before: StorageEngine, after: StorageEngine, n: NodeView)
    requires
        before.inv(),
        inserts(Ok(()), before, after, n),
    ensures
        nothing_lost(before@, after@),
        node_in(after@.nodes, n.address) == Some(n),
        forall|a: Seq<char>| a != n.address ==> #[trigger] node_in(after@.nodes, a) == node_in(before@.nodes, a),
{
    let db = before@;
    let version = next_version(before);
    before.tables.lemma_orderly();
    lemma_insertion(db, n, version);
    assert forall|a: Seq<char>| #[trigger] db.nodes.contains_key(a) implies live(after@.nodes, db.nodes[a]) || exists|
        v: u64,
    | #[trigger] remembered(db, after@, a, v) by {
        if a == n.address {
            assert(remembered(db, after@, a, version));
        }
    }
}

/// A node that was deleted is gone; and nothing is forgotten, of the node
/// or of what hung on it.
pub proof fn law_delete_forgets_nothing(before: StorageEngine, after: StorageEngine, address: Seq<char>)
    requires
        before.inv(),
        deletes(Ok(()), before, after, address),
    ensures
        nothing_lost(before@, after@),
        node_in(after@.nodes, address) is None,
{
    let db = before@;
    before.tables.lemma_orderly();
    match node_in(db.nodes, address) {
        None => {
            let op = OperationView::Delete(address);
            assert(seq![op].drop_last() =~= Seq::<OperationView>::empty());
            reveal_with_fuel(applied_all, 2);
            assert(after@.nodes =~= db.nodes);
            assert(after@.history == db.history);
        },
        Some(n) => {
            let version = next_version(before);
            let bound = before.limits().max_transaction_ops as nat;
            let st = delete_closure(db, fresh_stage(db, version), seq![n], bound)->Ok_0;
            lemma_fresh(db, version);
            lemma_delete_closure(db, fresh_stage(db, version), seq![n], bound);
            law_deleting_forgets_nothing(db, version, n, bound);
            law_deleted_is_gone(db, version, n, bound);
            lemma_nothing_lost(db, st, before.last_operation());
        },
    }
}

/// Deleting what is gone already changes nothing.
pub proof fn law_second_delete_changes_nothing(
    before: StorageEngine,
    after: StorageEngine,
    again: StorageEngine,
    address: Seq<char>,
)
    requires
        before.inv(),
        deletes(Ok(()), before, after, address),
        deletes(Ok(()), after, again, address),
    ensures
        again@ == after@,
{
    law_delete_forgets_nothing(before, after, address);
    let op = OperationView::Delete(address);
    assert(seq![op].drop_last() =~= Seq::<OperationView>::empty());
    assert(seq![op].last() == op);
    reveal_with_fuel(applied_all, 2);
    assert(after@.nodes.remove(address) =~= after@.nodes);
    assert(again@ == applied(after@, op));
    assert(again@ =~= after@);
}

/// The state that putting a node in place supersedes is the last that is
/// listed of the states kept of the address.
pub proof fn law_kept_state_is_the_last(
    before: StorageEngine,
    after: StorageEngine,
    n: NodeView,
    p: NodeView,
    rows: Seq<HistoryView>,
)
    requires
        before.inv(),
        inserts(Ok(()), before, after, n),
        node_in(before@.nodes, n.address) == Some(p),
        history_listing(rows, after@.history, n.address),
    ensures
        rows.len() > 0,
        rows.last() == superseded(p, next_version(before)),
{
    let db = before@;
    let version = next_version(before);
    let kept = superseded(p, version);
    before.lemma_log();
    before.tables.lemma_orderly();
    lemma_insertion(db, n, version);
    assert(db.nodes.contains_key(n.address));
    assert(p.address == n.address);
    assert(after@.history.contains_key((n.address, version)));
    assert(rows.contains(kept));
    let i = choose|i: int| 0 <= i < rows.len() && rows[i] == kept;
    if i < rows.len() - 1 {
        let last = rows[rows.len() - 1];
        assert(rows[i].version < last.version);
        assert(after@.history.contains_key((n.address, last.version)));
        assert(db.history.contains_key((n.address, last.version)));
    }
}

/// A transaction forgets nothing.
pub proof fn law_transaction_forgets_nothing<F: Fn(&Filter, &Node) -> Result<bool, String>>(
    before: StorageEngine,
    after: StorageEngine,
    ops: Seq<TxOperation>,
    eval: F,
)
    requires
        before.inv(),
        transacts(Ok(()), before, after, ops, eval),
    ensures
        nothing_lost(before@, after@),
{
    let db = before@;
    before.tables.lemma_orderly();
    let version = next_version(before);
    let bound = before.limits().max_transaction_ops as nat;
    let st = worked_out(db, fresh_stage(db, version), ops, eval, bound)->Ok_0;
    law_lowering_is_faithful(db, version, ops, eval, bound);
    law_lowering_forgets_nothing(db, version, ops, eval, bound);
    lemma_nothing_lost(db, st, before.last_operation());
}

} // verus!
