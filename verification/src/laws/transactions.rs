//! What the steps of a transaction do.
//!
//! A transaction is told step by step: what it does with one step more is
//! held against what it does without.

use vstd::prelude::*;

use crate::engine::search::targets_where;
use crate::engine::write::{deletes, next_version, transacts};
use crate::engine::StorageEngine;
use crate::filter::{evaluates, lemma_verdict, Filter};
use crate::json::{field_of, json_equal, json_members, json_object, json_value, member_text, Json, ShapeView};
use crate::laws::deleting::{gone_ok, in_queue, left_of, lemma_delete_leaves, lemma_kids};
use crate::laws::values::{law_one_member_is_set, size_of_double};
use crate::order::is_nan;
use crate::tables::memory::{lemma_listing_exists, orderly};
use crate::tables::model::{applied_all, DbView};
use crate::tables::plan::{
    chosen, condition, fresh_stage, law_lowering_is_faithful, listing, selection_deleted, stepped, worked_out, writable,
    StageView,
};
use crate::tables::rows::{belongs, is_listing, RankBy};
use crate::tables::unique::lemma_after;
use crate::text::trimmed_text;
use crate::transaction::{
    base_members, member_value, set_if, set_view, with_set, Expectation, Invalidity, InvalidityView, TransactionError,
    TxErrorView, TxOperation, Unmet, UnmetView,
};
use crate::types::{Edge, EdgeId, EdgeIdView, Node, NodeView};
use crate::wal::OperationView;

verus! {

/// What a transaction that is carried out comes to.
proof fn lemma_carried_out<F: Fn(&Filter, &Node) -> Result<bool, String>>(
    before: StorageEngine,
    after: StorageEngine,
    steps: Seq<TxOperation>,
    eval: F,
) -> (st: StageView)
    requires
        before.inv(),
        transacts(Ok(()), before, after, steps, eval),
    ensures
        worked_out(
            before@,
            fresh_stage(before@, next_version(before)),
            steps,
            eval,
            before.limits().max_transaction_ops as nat,
        ) == Ok::<StageView, crate::transaction::TxErrorView>(st),
        after@ == applied_all(before@, st.ops),
        after@.nodes == st.nodes,
        after@.edges == st.edges,
        after@.data == before@.data,
        after@.text == before@.text,
        after@.references == before@.references,
{
    let db = before@;
    before.lemma_orderly();
    let bound = before.limits().max_transaction_ops as nat;
    let stamp = next_version(before);
    let st = worked_out(db, fresh_stage(db, stamp), steps, eval, bound)->Ok_0;
    law_lowering_is_faithful(db, stamp, steps, eval, bound);
    lemma_after(db, st.ops, Seq::empty());
    st
}

/// The same for one step more.
proof fn lemma_one_step_more<F: Fn(&Filter, &Node) -> Result<bool, String>>(
    before: StorageEngine,
    mid: StorageEngine,
    after: StorageEngine,
    steps: Seq<TxOperation>,
    op: TxOperation,
    eval: F,
) -> (st: StageView)
    requires
        before.inv(),
        transacts(Ok(()), before, mid, steps, eval),
        transacts(Ok(()), before, after, steps.push(op), eval),
    ensures
        mid@.nodes == st.nodes,
        mid@.edges == st.edges,
        stepped(before@, st, op, eval, before.limits().max_transaction_ops as nat) is Ok,
        after@.nodes == stepped(before@, st, op, eval, before.limits().max_transaction_ops as nat)->Ok_0.nodes,
        after@.edges == stepped(before@, st, op, eval, before.limits().max_transaction_ops as nat)->Ok_0.edges,
        mid@.references == before@.references,
        worked_out(
            before@,
            fresh_stage(before@, next_version(before)),
            steps,
            eval,
            before.limits().max_transaction_ops as nat,
        ) == Ok::<StageView, crate::transaction::TxErrorView>(st),
{
    let st = lemma_carried_out(before, mid, steps, eval);
    let t = lemma_carried_out(before, after, steps.push(op), eval);
    assert(steps.push(op).drop_last() =~= steps);
    assert(steps.push(op).last() == op);
    st
}

/// A transaction without steps changes nothing.
pub proof fn law_no_steps_change_nothing<F: Fn(&Filter, &Node) -> Result<bool, String>>(
    before: StorageEngine,
    after: StorageEngine,
    eval: F,
)
    requires
        before.inv(),
        transacts(Ok(()), before, after, Seq::empty(), eval),
    ensures
        after@ == before@,
{
    let st = lemma_carried_out(before, after, Seq::empty(), eval);
}

/// A transaction declares nothing and drops nothing that is declared.
pub proof fn law_transaction_declares_nothing<F: Fn(&Filter, &Node) -> Result<bool, String>>(
    before: StorageEngine,
    after: StorageEngine,
    steps: Seq<TxOperation>,
    eval: F,
)
    requires
        before.inv(),
        transacts(Ok(()), before, after, steps, eval),
    ensures
        after@.data == before@.data,
        after@.text == before@.text,
        after@.references == before@.references,
{
    let st = lemma_carried_out(before, after, steps, eval);
}

/// A transaction that is refused changes nothing.
pub proof fn law_refused_transaction_changes_nothing<F: Fn(&Filter, &Node) -> Result<bool, String>>(
    e: TransactionError,
    before: StorageEngine,
    after: StorageEngine,
    steps: Seq<TxOperation>,
    eval: F,
)
    requires
        before.inv(),
        !before.failed(),
        transacts(Err(e), before, after, steps, eval),
        !after.failed(),
    ensures
        after@ == before@,
{
    if before.last_operation() == u64::MAX {
        before.lemma_same(&after);
    } else {
        let bound = before.limits().max_transaction_ops as nat;
        let plan = crate::engine::write::bounded(
            worked_out(before@, fresh_stage(before@, next_version(before)), steps, eval, bound),
            bound,
        );
        match plan {
            Err(x) => {
                before.lemma_same(&after);
            },
            Ok(st) => {},
        }
    }
}

/// A step that inserts a node puts it at its address, field by field, where
/// nothing was or a node of the same owner; nothing else changes.
pub proof fn law_step_inserts<F: Fn(&Filter, &Node) -> Result<bool, String>>(
    before: StorageEngine,
    mid: StorageEngine,
    after: StorageEngine,
    steps: Seq<TxOperation>,
    node: Node,
    eval: F,
)
    requires
        before.inv(),
        transacts(Ok(()), before, mid, steps, eval),
        transacts(Ok(()), before, after, steps.push(TxOperation::InsertNode(node)), eval),
    ensures
        mid@.nodes.contains_key(node.address@) ==> mid@.nodes[node.address@].owner == node.owner@,
        after@.nodes.contains_key(node.address@),
        after@.nodes[node.address@].coordinate == node.coordinate,
        after@.nodes[node.address@].address == node.address@,
        after@.nodes[node.address@].kind == node.kind@,
        after@.nodes[node.address@].owner == node.owner@,
        after@.nodes[node.address@].data == node.data@,
        after@.nodes[node.address@].visibility == node.visibility,
        match node.claimed_by {
            Some(who) => after@.nodes[node.address@].claimed_by == Some(who@),
            None => after@.nodes[node.address@].claimed_by is None,
        },
        forall|a: Seq<char>|
            a != node.address@ ==> (#[trigger] after@.nodes.contains_key(a) <==> mid@.nodes.contains_key(a)) && (
            after@.nodes.contains_key(a) ==> after@.nodes[a] == mid@.nodes[a]),
        after@.edges == mid@.edges,
{
    let st = lemma_one_step_more(before, mid, after, steps, TxOperation::InsertNode(node), eval);
}

/// The members that are set, one after the other: the last that is set of a
/// name holds, and the others stay.
proof fn lemma_all_set(m: Seq<(Seq<char>, Seq<char>)>, set: Seq<(Seq<char>, Seq<char>)>, name: Seq<char>)
    ensures
        forall|i: int|
            0 <= i < set.len() && set[i].0 == name && (forall|j: int| i < j < set.len() ==> (#[trigger] set[j]).0 != name)
                ==> member_text(with_set(m, set), name) == Some((#[trigger] set[i]).1),
        (forall|i: int| 0 <= i < set.len() ==> (#[trigger] set[i]).0 != name) ==> member_text(with_set(m, set), name)
            == member_text(m, name),
    decreases set.len(),
{
    if set.len() > 0 {
        let init = set.drop_last();
        let last = set.last();
        lemma_all_set(m, init, name);
        law_one_member_is_set(with_set(m, init), last.0, last.1, name);
        assert(set[set.len() - 1] == last);
        assert forall|i: int|
            0 <= i < set.len() && set[i].0 == name && (forall|j: int| i < j < set.len() ==> (#[trigger] set[j]).0 != name)
                implies member_text(with_set(m, set), name) == Some((#[trigger] set[i]).1) by {
            if i < init.len() {
                assert(set[set.len() - 1].0 != name);
                assert(init[i] == set[i]);
                assert forall|j: int| i < j < init.len() implies (#[trigger] init[j]).0 != name by {
                    assert(init[j] == set[j]);
                }
            }
        }
        if forall|i: int| 0 <= i < set.len() ==> (#[trigger] set[i]).0 != name {
            assert forall|i: int| 0 <= i < init.len() implies (#[trigger] init[i]).0 != name by {
                assert(init[i] == set[i]);
            }
        }
    }
}

/// A compare-and-set that succeeds is of a node that is there and is the
/// requester's, or an administrator asks; and the field is as expected: a
/// number that is at most the bound, a value equal to the one given, or
/// nothing or null. The node then has the place, address, kind, owner,
/// visibility and claimant that it had: its data alone differs. Nothing else
/// changes.
pub proof fn law_compare_and_set_changes_data_alone<F: Fn(&Filter, &Node) -> Result<bool, String>>(
    before: StorageEngine,
    mid: StorageEngine,
    after: StorageEngine,
    steps: Seq<TxOperation>,
    address: String,
    field: String,
    expect: Expectation,
    set: Vec<(String, Json)>,
    owner: String,
    is_admin: bool,
    eval: F,
)
    requires
        before.inv(),
        mid.inv(),
        transacts(Ok(()), before, mid, steps, eval),
        transacts(
            Ok(()),
            before,
            after,
            steps.push(TxOperation::SetIf { address, field, expect, set, owner, is_admin }),
            eval,
        ),
    ensures
        mid@.nodes.contains_key(address@),
        is_admin || mid@.nodes[address@].owner == owner@,
        match expect {
            Expectation::AtMost(bound) => {
                &&& field_of(mid@.nodes[address@].data, field@) is Some
                &&& field_of(mid@.nodes[address@].data, field@)->0.shape matches ShapeView::Number { unsigned, bits }
                    && size_of_double(bits) <= size_of_double(bound)
            },
            Expectation::Equals(v) => {
                &&& field_of(mid@.nodes[address@].data, field@) is Some
                &&& json_equal(field_of(mid@.nodes[address@].data, field@)->0.text, v.text@)
            },
            Expectation::Absent => {
                ||| trimmed_text(mid@.nodes[address@].data).len() == 0
                ||| json_value(mid@.nodes[address@].data) matches Some(j) && j.shape is Null
                ||| field_of(mid@.nodes[address@].data, field@) is None
                ||| field_of(mid@.nodes[address@].data, field@)->0.shape is Null
            },
        },
        after@.nodes.contains_key(address@),
        after@.nodes[address@].coordinate == mid@.nodes[address@].coordinate,
        after@.nodes[address@].address == address@,
        after@.nodes[address@].kind == mid@.nodes[address@].kind,
        after@.nodes[address@].owner == mid@.nodes[address@].owner,
        after@.nodes[address@].visibility == mid@.nodes[address@].visibility,
        after@.nodes[address@].claimed_by == mid@.nodes[address@].claimed_by,
        forall|a: Seq<char>|
            a != address@ ==> (#[trigger] after@.nodes.contains_key(a) <==> mid@.nodes.contains_key(a)) && (
            after@.nodes.contains_key(a) ==> after@.nodes[a] == mid@.nodes[a]),
        after@.edges == mid@.edges,
{
    mid.lemma_orderly();
    let op = TxOperation::SetIf { address, field, expect, set, owner, is_admin };
    let st = lemma_one_step_more(before, mid, after, steps, op, eval);
    let n = mid@.nodes[address@];
    assert(n.address == address@);
    assert(base_members(n) is Ok);
}

/// What a compare-and-set makes of the data: an object in which each member
/// that is set has the text given last for it, and the others have the texts
/// they had; an object without members where the data was blank or null.
pub proof fn law_compare_and_set_sets_members<F: Fn(&Filter, &Node) -> Result<bool, String>>(
    before: StorageEngine,
    mid: StorageEngine,
    after: StorageEngine,
    steps: Seq<TxOperation>,
    address: String,
    field: String,
    expect: Expectation,
    set: Vec<(String, Json)>,
    owner: String,
    is_admin: bool,
    eval: F,
)
    requires
        before.inv(),
        mid.inv(),
        transacts(Ok(()), before, mid, steps, eval),
        transacts(
            Ok(()),
            before,
            after,
            steps.push(TxOperation::SetIf { address, field, expect, set, owner, is_admin }),
            eval,
        ),
    ensures
        exists|was: Seq<(Seq<char>, Seq<char>)>, now: Seq<(Seq<char>, Seq<char>)>| {
            &&& #[trigger] json_object(now) == Some(after@.nodes[address@].data)
            &&& #[trigger] was.len() == 0 || json_members(mid@.nodes[address@].data) == Some(was)
            &&& trimmed_text(mid@.nodes[address@].data).len() > 0 && json_value(mid@.nodes[address@].data) is Some
                && json_value(mid@.nodes[address@].data)->0.shape is Object ==> json_members(mid@.nodes[address@].data)
                == Some(was)
            &&& forall|i: int|
                0 <= i < set@.len() && (forall|j: int| i < j < set@.len() ==> (#[trigger] set@[j]).0@ != set@[i].0@)
                    ==> member_text(now, (#[trigger] set@[i]).0@) == Some(set@[i].1.text@)
            &&& forall|name: Seq<char>|
                (forall|i: int| 0 <= i < set@.len() ==> (#[trigger] set@[i]).0@ != name) ==> #[trigger] member_text(
                    now,
                    name,
                ) == member_text(was, name)
        },
{
    mid.lemma_orderly();
    let op = TxOperation::SetIf { address, field, expect, set, owner, is_admin };
    let st = lemma_one_step_more(before, mid, after, steps, op, eval);
    let n = mid@.nodes[address@];
    let view = set_view(set@);
    let was = base_members(n)->Ok_0;
    let now = with_set(was, view);
    assert(json_object(now) == Some(after@.nodes[address@].data));
    assert forall|i: int|
        0 <= i < set@.len() && (forall|j: int| i < j < set@.len() ==> (#[trigger] set@[j]).0@ != set@[i].0@)
            implies member_text(now, (#[trigger] set@[i]).0@) == Some(set@[i].1.text@) by {
        lemma_all_set(was, view, set@[i].0@);
        assert forall|j: int| i < j < view.len() implies (#[trigger] view[j]).0 != set@[i].0@ by {
            assert(set@[j].0@ != set@[i].0@);
        }
        assert(view[i].0 == set@[i].0@);
        assert(view[i].1 == set@[i].1.text@);
    }
    assert forall|name: Seq<char>|
        (forall|i: int| 0 <= i < set@.len() ==> (#[trigger] set@[i]).0@ != name) implies #[trigger] member_text(now, name)
        == member_text(was, name) by {
        lemma_all_set(was, view, name);
        assert forall|i: int| 0 <= i < view.len() implies (#[trigger] view[i]).0 != name by {
            assert(set@[i].0@ != name);
        }
    }
    assert(was.len() == 0 || json_members(n.data) == Some(was));
}

/// A step that deletes a node leaves nothing at its address. What else is
/// left was there, with the same place, kind, owner, visibility and claimant,
/// and just as it was where no reference is declared. Edges stay.
pub proof fn law_step_deletes<F: Fn(&Filter, &Node) -> Result<bool, String>>(
    before: StorageEngine,
    mid: StorageEngine,
    after: StorageEngine,
    steps: Seq<TxOperation>,
    address: String,
    eval: F,
)
    requires
        before.inv(),
        mid.inv(),
        transacts(Ok(()), before, mid, steps, eval),
        transacts(Ok(()), before, after, steps.push(TxOperation::DeleteNode(address)), eval),
        mid@.nodes.contains_key(address@),
    ensures
        !after@.nodes.contains_key(address@),
        forall|a: Seq<char>| #[trigger]
            after@.nodes.contains_key(a) ==> {
                &&& mid@.nodes.contains_key(a)
                &&& after@.nodes[a].coordinate == mid@.nodes[a].coordinate
                &&& after@.nodes[a].address == mid@.nodes[a].address
                &&& after@.nodes[a].kind == mid@.nodes[a].kind
                &&& after@.nodes[a].owner == mid@.nodes[a].owner
                &&& after@.nodes[a].visibility == mid@.nodes[a].visibility
                &&& after@.nodes[a].claimed_by == mid@.nodes[a].claimed_by
            },
        before@.references.len() == 0 ==> forall|a: Seq<char>|
            a != address@ ==> (#[trigger] after@.nodes.contains_key(a) <==> mid@.nodes.contains_key(a)) && (
            after@.nodes.contains_key(a) ==> after@.nodes[a] == mid@.nodes[a]),
        after@.edges == mid@.edges,
{
    mid.lemma_orderly();
    let bound = before.limits().max_transaction_ops as nat;
    let st = lemma_one_step_more(before, mid, after, steps, TxOperation::DeleteNode(address), eval);
    before.lemma_orderly();
    lemma_stage_gone(before@, next_version(before), steps, eval, bound);
    let n = st.nodes[address@];
    lemma_delete_leaves(before@, st, seq![n], bound);
    assert(seq![n][0].address == address@);
    if before@.references.len() == 0 {
        assert forall|a: Seq<char>| a != address@ implies (#[trigger] after@.nodes.contains_key(a)
            <==> mid@.nodes.contains_key(a)) && (after@.nodes.contains_key(a) ==> after@.nodes[a] == mid@.nodes[a]) by {
            assert(!in_queue(seq![n], a));
        }
    }
}

proof fn lemma_applied_finite(db: DbView, ops: Seq<OperationView>)
    requires
        db.nodes.dom().finite(),
    ensures
        applied_all(db, ops).nodes.dom().finite(),
    decreases ops.len(),
{
    if ops.len() > 0 {
        lemma_applied_finite(db, ops.drop_last());
        let mid = applied_all(db, ops.drop_last());
        match ops.last() {
            OperationView::Insert(n) => {
                assert(mid.nodes.insert(n.address, n).dom() =~= mid.nodes.dom().insert(n.address));
            },
            OperationView::Delete(a) => {
                assert(mid.nodes.remove(a).dom() =~= mid.nodes.dom().remove(a));
            },
            _ => {},
        }
    }
}

/// What the steps deleted is not there.
proof fn lemma_stage_gone<F: Fn(&Filter, &Node) -> Result<bool, String>>(
    db: DbView,
    stamp: u64,
    steps: Seq<TxOperation>,
    eval: F,
    bound: nat,
)
    requires
        orderly(db.nodes),
        worked_out(db, fresh_stage(db, stamp), steps, eval, bound) is Ok,
    ensures
        gone_ok(worked_out(db, fresh_stage(db, stamp), steps, eval, bound)->Ok_0),
        orderly(worked_out(db, fresh_stage(db, stamp), steps, eval, bound)->Ok_0.nodes),
    decreases steps.len(),
{
    law_lowering_is_faithful(db, stamp, steps, eval, bound);
    let t = worked_out(db, fresh_stage(db, stamp), steps, eval, bound)->Ok_0;
    lemma_applied_finite(db, t.ops);
    if steps.len() > 0 {
        let init = steps.drop_last();
        lemma_stage_gone(db, stamp, init, eval, bound);
        let st = worked_out(db, fresh_stage(db, stamp), init, eval, bound)->Ok_0;
        match steps.last() {
            TxOperation::DeleteNode(address) => {
                if !st.gone.contains(address@) {
                    lemma_delete_leaves(db, st, seq![st.nodes[address@]], bound);
                }
            },
            TxOperation::ClearKind { kind, owner, is_admin } => {
                let rows = listing(st.nodes, writable(kind@, owner@, is_admin));
                lemma_delete_leaves(db, st, chosen(eval, None, rows, rows.len() as int)->Ok_0, bound);
            },
            TxOperation::DeleteWhere { kind, where_, owner, is_admin } => {
                let rows = listing(st.nodes, writable(kind@, owner@, is_admin));
                lemma_delete_leaves(db, st, chosen(eval, where_, rows, rows.len() as int)->Ok_0, bound);
            },
            _ => {},
        }
    }
}

/// Those of the rows that are chosen are those that the condition holds of.
proof fn lemma_chosen<F: Fn(&Filter, &Node) -> Result<bool, String>>(
    eval: F,
    where_: Option<Filter>,
    rows: Seq<NodeView>,
    k: int,
)
    requires
        0 <= k <= rows.len(),
        chosen(eval, where_, rows, k) is Ok,
    ensures
        forall|i: int|
            0 <= i < k && condition(eval, where_, #[trigger] rows[i]) == Ok::<bool, Seq<char>>(true)
                ==> chosen(eval, where_, rows, k)->Ok_0.contains(rows[i]),
        forall|j: int|
            0 <= j < chosen(eval, where_, rows, k)->Ok_0.len() ==> exists|i: int|
                0 <= i < k && (#[trigger] chosen(eval, where_, rows, k)->Ok_0[j]) == #[trigger] rows[i] && condition(
                    eval,
                    where_,
                    rows[i],
                ) == Ok::<bool, Seq<char>>(true),
    decreases k,
{
    if k > 0 {
        lemma_chosen(eval, where_, rows, k - 1);
        let got = chosen(eval, where_, rows, k - 1)->Ok_0;
        let now = chosen(eval, where_, rows, k)->Ok_0;
        assert forall|i: int|
            0 <= i < k && condition(eval, where_, #[trigger] rows[i]) == Ok::<bool, Seq<char>>(true) implies now.contains(
            rows[i],
        ) by {
            if i < k - 1 {
                assert(got.contains(rows[i]));
                let j = choose|j: int| 0 <= j < got.len() && got[j] == rows[i];
                assert(now[j] == rows[i]);
            } else {
                assert(now[now.len() - 1] == rows[i]);
            }
        }
        assert forall|j: int| 0 <= j < now.len() implies exists|i: int|
            0 <= i < k && (#[trigger] now[j]) == #[trigger] rows[i] && condition(eval, where_, rows[i]) == Ok::<
                bool,
                Seq<char>,
            >(true) by {
            if j < got.len() {
                assert(now[j] == got[j]);
                let i = choose|i: int|
                    0 <= i < k - 1 && got[j] == #[trigger] rows[i] && condition(eval, where_, rows[i]) == Ok::<
                        bool,
                        Seq<char>,
                    >(true);
                assert(now[j] == rows[i]);
            } else {
                assert(now[j] == rows[k - 1]);
            }
        }
    }
}

proof fn lemma_step_selects<F: Fn(&Filter, &Node) -> Result<bool, String>>(
    before: StorageEngine,
    mid: StorageEngine,
    after: StorageEngine,
    steps: Seq<TxOperation>,
    kind: String,
    where_: Option<Filter>,
    owner: String,
    is_admin: bool,
    clears: bool,
    eval: F,
) -> (st: StageView)
    requires
        before.inv(),
        mid.inv(),
        transacts(Ok(()), before, mid, steps, eval),
        transacts(
            Ok(()),
            before,
            after,
            steps.push(
                if clears {
                    TxOperation::ClearKind { kind, owner, is_admin }
                } else {
                    TxOperation::DeleteWhere { kind, where_, owner, is_admin }
                },
            ),
            eval,
        ),
        clears ==> where_ is None,
    ensures
        mid@.nodes == st.nodes,
        mid@.edges == st.edges,
        orderly(st.nodes),
        ({
            let bound = before.limits().max_transaction_ops as nat;
            let t = selection_deleted(before@, st, eval, kind@, where_, owner@, is_admin, bound);
            &&& t is Ok
            &&& after@.nodes == t->Ok_0.nodes
            &&& after@.edges == t->Ok_0.edges
        }),
{
    mid.lemma_orderly();
    let op = if clears {
        TxOperation::ClearKind { kind, owner, is_admin }
    } else {
        TxOperation::DeleteWhere { kind, where_, owner, is_admin }
    };
    lemma_one_step_more(before, mid, after, steps, op, eval)
}

/// A step that deletes the nodes of a kind, or those of them that a condition
/// holds of, deletes every one of that kind that is the requester's, or any
/// where an administrator asks, and that the condition holds of.
pub proof fn law_step_deletes_what_is_selected<F: Fn(&Filter, &Node) -> Result<bool, String>>(
    before: StorageEngine,
    mid: StorageEngine,
    after: StorageEngine,
    steps: Seq<TxOperation>,
    kind: String,
    where_: Option<Filter>,
    owner: String,
    is_admin: bool,
    clears: bool,
    eval: F,
    a: Seq<char>,
)
    requires
        before.inv(),
        mid.inv(),
        transacts(Ok(()), before, mid, steps, eval),
        transacts(
            Ok(()),
            before,
            after,
            steps.push(
                if clears {
                    TxOperation::ClearKind { kind, owner, is_admin }
                } else {
                    TxOperation::DeleteWhere { kind, where_, owner, is_admin }
                },
            ),
            eval,
        ),
        clears ==> where_ is None,
        evaluates(eval),
        mid@.nodes.contains_key(a),
        mid@.nodes[a].kind == kind@,
        is_admin || mid@.nodes[a].owner == owner@,
        where_ matches Some(f) ==> exists|node: Node|
            node@ == mid@.nodes[a] && #[trigger] eval.ensures((&f, &node), Ok::<bool, String>(true)),
    ensures
        !after@.nodes.contains_key(a),
{
    let st = lemma_step_selects(before, mid, after, steps, kind, where_, owner, is_admin, clears, eval);
    let bound = before.limits().max_transaction_ops as nat;
    lemma_selected_goes(before@, st, eval, kind@, where_, owner@, is_admin, bound, a);
}

/// What such a step leaves was there, with the same place, kind, owner,
/// visibility and claimant. Edges stay.
pub proof fn law_selection_leaves_what_was_there<F: Fn(&Filter, &Node) -> Result<bool, String>>(
    before: StorageEngine,
    mid: StorageEngine,
    after: StorageEngine,
    steps: Seq<TxOperation>,
    kind: String,
    where_: Option<Filter>,
    owner: String,
    is_admin: bool,
    clears: bool,
    eval: F,
    a: Seq<char>,
)
    requires
        before.inv(),
        mid.inv(),
        transacts(Ok(()), before, mid, steps, eval),
        transacts(
            Ok(()),
            before,
            after,
            steps.push(
                if clears {
                    TxOperation::ClearKind { kind, owner, is_admin }
                } else {
                    TxOperation::DeleteWhere { kind, where_, owner, is_admin }
                },
            ),
            eval,
        ),
        clears ==> where_ is None,
        after@.nodes.contains_key(a),
    ensures
        mid@.nodes.contains_key(a),
        after@.nodes[a].coordinate == mid@.nodes[a].coordinate,
        after@.nodes[a].address == mid@.nodes[a].address,
        after@.nodes[a].kind == mid@.nodes[a].kind,
        after@.nodes[a].owner == mid@.nodes[a].owner,
        after@.nodes[a].visibility == mid@.nodes[a].visibility,
        after@.nodes[a].claimed_by == mid@.nodes[a].claimed_by,
        after@.edges == mid@.edges,
{
    let st = lemma_step_selects(before, mid, after, steps, kind, where_, owner, is_admin, clears, eval);
    let bound = before.limits().max_transaction_ops as nat;
    lemma_selected_left(before@, st, eval, kind@, where_, owner@, is_admin, bound);
}

/// Where no reference is declared, such a step leaves the nodes of other
/// kinds, of other owners than the requester who is no administrator, and
/// those that the condition does not hold of, just as they were.
pub proof fn law_selection_spares_the_others<F: Fn(&Filter, &Node) -> Result<bool, String>>(
    before: StorageEngine,
    mid: StorageEngine,
    after: StorageEngine,
    steps: Seq<TxOperation>,
    kind: String,
    where_: Option<Filter>,
    owner: String,
    is_admin: bool,
    clears: bool,
    eval: F,
    a: Seq<char>,
)
    requires
        before.inv(),
        mid.inv(),
        transacts(Ok(()), before, mid, steps, eval),
        transacts(
            Ok(()),
            before,
            after,
            steps.push(
                if clears {
                    TxOperation::ClearKind { kind, owner, is_admin }
                } else {
                    TxOperation::DeleteWhere { kind, where_, owner, is_admin }
                },
            ),
            eval,
        ),
        clears ==> where_ is None,
        evaluates(eval),
        before@.references.len() == 0,
        mid@.nodes.contains_key(a),
        mid@.nodes[a].kind != kind@ || (!is_admin && mid@.nodes[a].owner != owner@) || (where_ matches Some(f)
            && exists|node: Node, out: Result<bool, String>|
            node@ == mid@.nodes[a] && #[trigger] eval.ensures((&f, &node), out) && out != Ok::<bool, String>(true)),
    ensures
        after@.nodes.contains_key(a),
        after@.nodes[a] == mid@.nodes[a],
{
    let st = lemma_step_selects(before, mid, after, steps, kind, where_, owner, is_admin, clears, eval);
    let bound = before.limits().max_transaction_ops as nat;
    lemma_others_stay(before@, st, eval, kind@, where_, owner@, is_admin, bound, a);
}

proof fn lemma_selected_left<F: Fn(&Filter, &Node) -> Result<bool, String>>(
    db: DbView,
    st: StageView,
    eval: F,
    kind: Seq<char>,
    where_: Option<Filter>,
    owner: Seq<char>,
    is_admin: bool,
    bound: nat,
)
    requires
        orderly(st.nodes),
        selection_deleted(db, st, eval, kind, where_, owner, is_admin, bound) is Ok,
    ensures
        left_of(st.nodes, selection_deleted(db, st, eval, kind, where_, owner, is_admin, bound)->Ok_0.nodes),
        selection_deleted(db, st, eval, kind, where_, owner, is_admin, bound)->Ok_0.edges == st.edges,
{
    let rows = listing(st.nodes, writable(kind, owner, is_admin));
    lemma_delete_leaves(db, st, chosen(eval, where_, rows, rows.len() as int)->Ok_0, bound);
}

proof fn lemma_selected_goes<F: Fn(&Filter, &Node) -> Result<bool, String>>(
    db: DbView,
    st: StageView,
    eval: F,
    kind: Seq<char>,
    where_: Option<Filter>,
    owner: Seq<char>,
    is_admin: bool,
    bound: nat,
    a: Seq<char>,
)
    requires
        orderly(st.nodes),
        evaluates(eval),
        selection_deleted(db, st, eval, kind, where_, owner, is_admin, bound) is Ok,
        st.nodes.contains_key(a),
        st.nodes[a].kind == kind,
        is_admin || st.nodes[a].owner == owner,
        where_ matches Some(f) ==> exists|node: Node|
            node@ == st.nodes[a] && #[trigger] eval.ensures((&f, &node), Ok::<bool, String>(true)),
    ensures
        !selection_deleted(db, st, eval, kind, where_, owner, is_admin, bound)->Ok_0.nodes.contains_key(a),
{
    let pick = writable(kind, owner, is_admin);
    let rows = listing(st.nodes, pick);
    let found = lemma_listing_exists(st.nodes, pick);
    assert(is_listing(rows, st.nodes, pick, RankBy::Address, None, false));
    let seeds = chosen(eval, where_, rows, rows.len() as int)->Ok_0;
    lemma_chosen(eval, where_, rows, rows.len() as int);
    lemma_delete_leaves(db, st, seeds, bound);
    let n = st.nodes[a];
    assert(belongs(st.nodes, pick, RankBy::Address, None, false, n));
    let i = choose|i: int| 0 <= i < rows.len() && rows[i] == n;
    if let Some(f) = where_ {
        let node = choose|node: Node| node@ == n && #[trigger] eval.ensures((&f, &node), Ok::<bool, String>(true));
        lemma_verdict(eval, &f, &node, Ok::<bool, String>(true));
    }
    assert(seeds.contains(rows[i]));
    let j = choose|j: int| 0 <= j < seeds.len() && seeds[j] == n;
    assert(seeds[j].address == a);
}

proof fn lemma_others_stay<F: Fn(&Filter, &Node) -> Result<bool, String>>(
    db: DbView,
    st: StageView,
    eval: F,
    kind: Seq<char>,
    where_: Option<Filter>,
    owner: Seq<char>,
    is_admin: bool,
    bound: nat,
    a: Seq<char>,
)
    requires
        orderly(st.nodes),
        evaluates(eval),
        selection_deleted(db, st, eval, kind, where_, owner, is_admin, bound) is Ok,
        db.references.len() == 0,
        st.nodes.contains_key(a),
        st.nodes[a].kind != kind || (!is_admin && st.nodes[a].owner != owner) || (where_ matches Some(f) && exists|
            node: Node,
            out: Result<bool, String>,
        |
            node@ == st.nodes[a] && #[trigger] eval.ensures((&f, &node), out) && out != Ok::<bool, String>(true)),
    ensures
        selection_deleted(db, st, eval, kind, where_, owner, is_admin, bound)->Ok_0.nodes.contains_key(a),
        selection_deleted(db, st, eval, kind, where_, owner, is_admin, bound)->Ok_0.nodes[a] == st.nodes[a],
{
    let pick = writable(kind, owner, is_admin);
    let rows = listing(st.nodes, pick);
    let found = lemma_listing_exists(st.nodes, pick);
    assert(is_listing(rows, st.nodes, pick, RankBy::Address, None, false));
    let seeds = chosen(eval, where_, rows, rows.len() as int)->Ok_0;
    lemma_chosen(eval, where_, rows, rows.len() as int);
    lemma_delete_leaves(db, st, seeds, bound);
    let n = st.nodes[a];
    assert forall|j: int| 0 <= j < seeds.len() implies (#[trigger] seeds[j]).address != a by {
        let i = choose|i: int|
            0 <= i < rows.len() && seeds[j] == #[trigger] rows[i] && condition(eval, where_, rows[i]) == Ok::<
                bool,
                Seq<char>,
            >(true);
        assert(belongs(st.nodes, pick, RankBy::Address, None, false, rows[i]));
        if rows[i].address == a {
            assert(rows[i] == n);
            if let Some(f) = where_ {
                let (node, out) = choose|node: Node, out: Result<bool, String>|
                    node@ == n && #[trigger] eval.ensures((&f, &node), out) && out != Ok::<bool, String>(true);
                lemma_verdict(eval, &f, &node, out);
            }
        }
    }
    assert(!in_queue(seeds, a));
}

/// A step that puts an edge in does so between nodes that are there; other
/// edges stay, and all nodes.
pub proof fn law_step_inserts_edge<F: Fn(&Filter, &Node) -> Result<bool, String>>(
    before: StorageEngine,
    mid: StorageEngine,
    after: StorageEngine,
    steps: Seq<TxOperation>,
    edge: Edge,
    eval: F,
)
    requires
        before.inv(),
        transacts(Ok(()), before, mid, steps, eval),
        transacts(Ok(()), before, after, steps.push(TxOperation::InsertEdge(edge)), eval),
    ensures
        mid@.nodes.contains_key(edge.from@),
        mid@.nodes.contains_key(edge.to@),
        ({
            let id = EdgeIdView { from: edge.from@, to: edge.to@, kind: edge.kind@ };
            &&& after@.edges.contains_key(id)
            &&& after@.edges[id].from == edge.from@
            &&& after@.edges[id].to == edge.to@
            &&& after@.edges[id].kind == edge.kind@
            &&& after@.edges[id].owner == edge.owner@
            &&& forall|other: EdgeIdView|
                other != id ==> (#[trigger] after@.edges.contains_key(other) <==> mid@.edges.contains_key(other)) && (
                after@.edges.contains_key(other) ==> after@.edges[other] == mid@.edges[other])
        }),
        after@.nodes == mid@.nodes,
{
    let st = lemma_one_step_more(before, mid, after, steps, TxOperation::InsertEdge(edge), eval);
}

/// A step that takes an edge out leaves no such edge; one that was in was the
/// requester's, or an administrator asks. Other edges stay, and all nodes.
pub proof fn law_step_deletes_edge<F: Fn(&Filter, &Node) -> Result<bool, String>>(
    before: StorageEngine,
    mid: StorageEngine,
    after: StorageEngine,
    steps: Seq<TxOperation>,
    id: EdgeId,
    owner: String,
    is_admin: bool,
    eval: F,
)
    requires
        before.inv(),
        transacts(Ok(()), before, mid, steps, eval),
        transacts(Ok(()), before, after, steps.push(TxOperation::DeleteEdge { id, owner, is_admin }), eval),
    ensures
        ({
            let gone = EdgeIdView { from: id.from@, to: id.to@, kind: id.kind@ };
            &&& mid@.edges.contains_key(gone) ==> is_admin || mid@.edges[gone].owner == owner@
            &&& !after@.edges.contains_key(gone)
            &&& forall|other: EdgeIdView|
                other != gone ==> (#[trigger] after@.edges.contains_key(other) <==> mid@.edges.contains_key(other)) && (
                after@.edges.contains_key(other) ==> after@.edges[other] == mid@.edges[other])
        }),
        after@.nodes == mid@.nodes,
{
    let st = lemma_one_step_more(before, mid, after, steps, TxOperation::DeleteEdge { id, owner, is_admin }, eval);
    before.lemma_orderly();
    lemma_stage_gone(before@, next_version(before), steps, eval, before.limits().max_transaction_ops as nat);
}

/// Deleting a node in a transaction of its own leaves the nodes and edges
/// that deleting it leaves.
pub proof fn law_deleting_is_one_step<F: Fn(&Filter, &Node) -> Result<bool, String>>(
    before: StorageEngine,
    after: StorageEngine,
    other: StorageEngine,
    address: String,
    eval: F,
)
    requires
        before.inv(),
        transacts(Ok(()), before, after, seq![TxOperation::DeleteNode(address)], eval),
        deletes(Ok(()), before, other, address@),
    ensures
        after@.nodes == other@.nodes,
        after@.edges == other@.edges,
{
    let db = before@;
    before.lemma_orderly();
    let op = TxOperation::DeleteNode(address);
    let bound = before.limits().max_transaction_ops as nat;
    let st = lemma_carried_out(before, after, seq![op], eval);
    assert(seq![op].drop_last() =~= Seq::<TxOperation>::empty());
    assert(seq![op].last() == op);
    let fresh = fresh_stage(db, next_version(before));
    assert(worked_out(db, fresh, Seq::<TxOperation>::empty(), eval, bound) == Ok::<
        StageView,
        crate::transaction::TxErrorView,
    >(fresh));
    assert(st == stepped(db, fresh, op, eval, bound)->Ok_0);
}

/// A refusal that speaks of what the last step found is that of the last
/// step.
proof fn lemma_refused_step<F: Fn(&Filter, &Node) -> Result<bool, String>>(
    e: TransactionError,
    before: StorageEngine,
    mid: StorageEngine,
    after: StorageEngine,
    steps: Seq<TxOperation>,
    op: TxOperation,
    eval: F,
) -> (st: StageView)
    requires
        before.inv(),
        transacts(Ok(()), before, mid, steps, eval),
        transacts(Err(e), before, after, steps.push(op), eval),
        e is Precondition || (e matches TransactionError::Invalid(x) && (x is Owned || x is TargetNotFound
            || x is NotAuthorized || x is EndpointNotFound || x is EdgeNotFound || x is EdgeNotAuthorized)),
    ensures
        mid@.nodes == st.nodes,
        mid@.edges == st.edges,
        gone_ok(st),
        stepped(before@, st, op, eval, before.limits().max_transaction_ops as nat) == Err::<StageView, TxErrorView>(e@),
{
    let st = lemma_carried_out(before, mid, steps, eval);
    before.lemma_orderly();
    lemma_stage_gone(before@, next_version(before), steps, eval, before.limits().max_transaction_ops as nat);
    assert(steps.push(op).drop_last() =~= steps);
    assert(steps.push(op).last() == op);
    st
}

/// A compare-and-set is refused for its expectation only where that is not
/// met: the field of an object is no number that is at most the bound, no
/// value equal to the one given, or is there and not null. It is refused as
/// unauthorised only where the node is another's, who is no administrator; and
/// as missing only where nothing is there.
pub proof fn law_compare_and_set_is_refused_for_a_reason<F: Fn(&Filter, &Node) -> Result<bool, String>>(
    e: TransactionError,
    before: StorageEngine,
    mid: StorageEngine,
    after: StorageEngine,
    steps: Seq<TxOperation>,
    address: String,
    field: String,
    expect: Expectation,
    set: Vec<(String, Json)>,
    owner: String,
    is_admin: bool,
    eval: F,
)
    requires
        before.inv(),
        transacts(Ok(()), before, mid, steps, eval),
        transacts(
            Err(e),
            before,
            after,
            steps.push(TxOperation::SetIf { address, field, expect, set, owner, is_admin }),
            eval,
        ),
    ensures
        e matches TransactionError::Precondition(Unmet::SetIfTarget { address: _ }) ==> !mid@.nodes.contains_key(address@),
        e matches TransactionError::Invalid(Invalidity::NotAuthorized { address: _ }) ==> mid@.nodes.contains_key(address@)
            && !is_admin && mid@.nodes[address@].owner != owner@,
        e matches TransactionError::Precondition(Unmet::SetIf { address: _, field: _ }) ==> {
            let data = mid@.nodes[address@].data;
            let current = if trimmed_text(data).len() > 0 && json_value(data) is Some && json_value(data)->0.shape is Object {
                field_of(data, field@)
            } else {
                None
            };
            &&& mid@.nodes.contains_key(address@)
            &&& match expect {
                Expectation::AtMost(bound) => current is None || (match current->0.shape {
                    ShapeView::Number { unsigned, bits } => size_of_double(bits) > size_of_double(bound) || is_nan(bits)
                        || is_nan(bound),
                    _ => true,
                }),
                Expectation::Equals(v) => current is None || !json_equal(current->0.text, v.text@),
                Expectation::Absent => current is Some && !(current->0.shape is Null),
            }
        },
{
    if e is Precondition || (e matches TransactionError::Invalid(x) && x is NotAuthorized) {
        let op = TxOperation::SetIf { address, field, expect, set, owner, is_admin };
        let st = lemma_refused_step(e, before, mid, after, steps, op, eval);
        let bound = before.limits().max_transaction_ops as nat;
        lemma_set_if_refusal(st, address, field, expect, set, owner, is_admin, eval, before@, bound, e@);
    }
}

/// Why a compare-and-set is refused.
proof fn lemma_set_if_refusal<F: Fn(&Filter, &Node) -> Result<bool, String>>(
    st: StageView,
    address: String,
    field: String,
    expect: Expectation,
    set: Vec<(String, Json)>,
    owner: String,
    is_admin: bool,
    eval: F,
    db: DbView,
    bound: nat,
    e: TxErrorView,
)
    requires
        stepped(db, st, TxOperation::SetIf { address, field, expect, set, owner, is_admin }, eval, bound) == Err::<
            StageView,
            TxErrorView,
        >(e),
    ensures
        e matches TxErrorView::Precondition(UnmetView::SetIfTarget { address: _ }) ==> !st.nodes.contains_key(address@),
        e matches TxErrorView::Invalid(InvalidityView::NotAuthorized { address: _ }) ==> st.nodes.contains_key(address@)
            && !is_admin && st.nodes[address@].owner != owner@,
        e matches TxErrorView::Precondition(UnmetView::SetIf { address: _, field: _ }) ==> {
            let data = st.nodes[address@].data;
            let current = if trimmed_text(data).len() > 0 && json_value(data) is Some && json_value(data)->0.shape is Object {
                field_of(data, field@)
            } else {
                None
            };
            &&& st.nodes.contains_key(address@)
            &&& match expect {
                Expectation::AtMost(bound) => current is None || (match current->0.shape {
                    ShapeView::Number { unsigned, bits } => size_of_double(bits) > size_of_double(bound) || is_nan(bits)
                        || is_nan(bound),
                    _ => true,
                }),
                Expectation::Equals(v) => current is None || !json_equal(current->0.text, v.text@),
                Expectation::Absent => current is Some && !(current->0.shape is Null),
            }
        },
{
    if st.nodes.contains_key(address@) {
        let n = st.nodes[address@];
        let r = set_if(n, field@, expect@, set_view(set@));
        if base_members(n) is Ok {
            let m = base_members(n)->Ok_0;
            let current = member_value(m, field@);
            assert(m.len() == 0 ==> crate::json::member_index(m, field@) == 0);
            assert(trimmed_text(n.data).len() > 0 && json_value(n.data) is Some && json_value(n.data)->0.shape is Object
                ==> current == field_of(n.data, field@));
            assert(!(trimmed_text(n.data).len() > 0 && json_value(n.data) is Some && json_value(n.data)->0.shape is Object)
                ==> current is None);
        }
    }
}

/// An insert is refused as another's only where a node of another owner is
/// at the address; an edge for an end of it only where no node is there, and
/// its removal only where there is no such edge, or it is another's and the
/// requester no administrator.
pub proof fn law_steps_are_refused_for_a_reason<F: Fn(&Filter, &Node) -> Result<bool, String>>(
    e: TransactionError,
    before: StorageEngine,
    mid: StorageEngine,
    after: StorageEngine,
    steps: Seq<TxOperation>,
    op: TxOperation,
    eval: F,
)
    requires
        before.inv(),
        transacts(Ok(()), before, mid, steps, eval),
        transacts(Err(e), before, after, steps.push(op), eval),
    ensures
        (op matches TxOperation::InsertNode(node) && (e matches TransactionError::Invalid(x) && x is Owned)) ==> {
            let node = op->InsertNode_0;
            mid@.nodes.contains_key(node.address@) && mid@.nodes[node.address@].owner != node.owner@
        },
        (op is InsertEdge && (e matches TransactionError::Invalid(x) && x is EndpointNotFound)) ==> !(
        mid@.nodes.contains_key(op->InsertEdge_0.from@) && mid@.nodes.contains_key(op->InsertEdge_0.to@)),
        (op is DeleteEdge && (e matches TransactionError::Invalid(x) && (x is EdgeNotFound || x is EdgeNotAuthorized))) ==> {
            let id = EdgeIdView {
                from: op->DeleteEdge_id.from@,
                to: op->DeleteEdge_id.to@,
                kind: op->DeleteEdge_id.kind@,
            };
            mid@.edges.contains_key(id) ==> !op->DeleteEdge_is_admin && mid@.edges[id].owner != op->DeleteEdge_owner@
        },
{
    if e matches TransactionError::Invalid(x) && (x is Owned || x is EndpointNotFound || x is EdgeNotFound
        || x is EdgeNotAuthorized) {
        let st = lemma_refused_step(e, before, mid, after, steps, op, eval);
    }
}

/// The addresses that a deletion by condition would be of are those of the
/// nodes of the kind that are the requester's, or all of them for an
/// administrator, and that the condition holds of.
pub proof fn law_targets_are_what_is_selected<F: Fn(&Filter, &Node) -> Result<bool, String>>(
    list: Vec<String>,
    e: StorageEngine,
    eval: F,
    kind: Seq<char>,
    where_: Option<Filter>,
    owner: Seq<char>,
    is_admin: bool,
    a: Seq<char>,
)
    requires
        e.inv(),
        !e.failed(),
        evaluates(eval),
        targets_where(Ok(list), e, eval, kind, where_, owner, is_admin),
    ensures
        (exists|i: int| 0 <= i < list@.len() && (#[trigger] list@[i])@ == a) ==> {
            &&& e@.nodes.contains_key(a)
            &&& e@.nodes[a].kind == kind
            &&& is_admin || e@.nodes[a].owner == owner
            &&& where_ matches Some(f) ==> forall|node: Node, out: Result<bool, String>|
                node@ == e@.nodes[a] && #[trigger] eval.ensures((&f, &node), out) ==> out == Ok::<bool, String>(true)
        },
        e@.nodes.contains_key(a) && e@.nodes[a].kind == kind && (is_admin || e@.nodes[a].owner == owner) && (
        where_ matches Some(f) ==> exists|node: Node|
            node@ == e@.nodes[a] && #[trigger] eval.ensures((&f, &node), Ok::<bool, String>(true))) ==> exists|i: int|
            0 <= i < list@.len() && (#[trigger] list@[i])@ == a,
{
    e.lemma_orderly();
    let nodes = e@.nodes;
    let pick = writable(kind, owner, is_admin);
    let rows = listing(nodes, pick);
    let found = lemma_listing_exists(nodes, pick);
    assert(is_listing(rows, nodes, pick, RankBy::Address, None, false));
    let seeds = chosen(eval, where_, rows, rows.len() as int)->Ok_0;
    lemma_chosen(eval, where_, rows, rows.len() as int);
    if exists|i: int| 0 <= i < list@.len() && (#[trigger] list@[i])@ == a {
        let i = choose|i: int| 0 <= i < list@.len() && (#[trigger] list@[i])@ == a;
        assert(seeds[i].address == a);
        let k = choose|k: int|
            0 <= k < rows.len() && seeds[i] == #[trigger] rows[k] && condition(eval, where_, rows[k]) == Ok::<
                bool,
                Seq<char>,
            >(true);
        assert(belongs(nodes, pick, RankBy::Address, None, false, rows[k]));
        if let Some(f) = where_ {
            assert forall|node: Node, out: Result<bool, String>|
                node@ == nodes[a] && #[trigger] eval.ensures((&f, &node), out) implies out == Ok::<bool, String>(true) by {
                lemma_verdict(eval, &f, &node, out);
            }
        }
    }
    if nodes.contains_key(a) && nodes[a].kind == kind && (is_admin || nodes[a].owner == owner) && (where_ matches Some(f)
        ==> exists|node: Node|
        node@ == nodes[a] && #[trigger] eval.ensures((&f, &node), Ok::<bool, String>(true))) {
        let n = nodes[a];
        assert(belongs(nodes, pick, RankBy::Address, None, false, n));
        let i = choose|i: int| 0 <= i < rows.len() && rows[i] == n;
        if let Some(f) = where_ {
            let node = choose|node: Node| node@ == n && #[trigger] eval.ensures((&f, &node), Ok::<bool, String>(true));
            lemma_verdict(eval, &f, &node, Ok::<bool, String>(true));
        }
        assert(seeds.contains(rows[i]));
        let j = choose|j: int| 0 <= j < seeds.len() && seeds[j] == n;
        assert(list@[j]@ == seeds[j].address);
    }
}

/// Where one node alone is selected, deleting the selection leaves the nodes
/// and edges that deleting that node leaves, with all that references lead to.
pub proof fn law_selection_of_one_is_its_deletion<F: Fn(&Filter, &Node) -> Result<bool, String>>(
    before: StorageEngine,
    after: StorageEngine,
    other: StorageEngine,
    kind: String,
    where_: Option<Filter>,
    owner: String,
    is_admin: bool,
    eval: F,
    a: Seq<char>,
    clears: bool,
)
    requires
        before.inv(),
        evaluates(eval),
        clears ==> where_ is None,
        transacts(
            Ok(()),
            before,
            after,
            seq![
                if clears {
                    TxOperation::ClearKind { kind, owner, is_admin }
                } else {
                    TxOperation::DeleteWhere { kind, where_, owner, is_admin }
                },
            ],
            eval,
        ),
        deletes(Ok(()), before, other, a),
        before@.nodes.contains_key(a),
        before@.nodes[a].kind == kind@,
        is_admin || before@.nodes[a].owner == owner@,
        where_ matches Some(f) ==> exists|node: Node|
            node@ == before@.nodes[a] && #[trigger] eval.ensures((&f, &node), Ok::<bool, String>(true)),
        forall|b: Seq<char>| #[trigger]
            before@.nodes.contains_key(b) && b != a ==> before@.nodes[b].kind != kind@ || (!is_admin
                && before@.nodes[b].owner != owner@),
    ensures
        after@.nodes == other@.nodes,
        after@.edges == other@.edges,
{
    let db = before@;
    before.lemma_orderly();
    let op = if clears {
        TxOperation::ClearKind { kind, owner, is_admin }
    } else {
        TxOperation::DeleteWhere { kind, where_, owner, is_admin }
    };
    let bound = before.limits().max_transaction_ops as nat;
    let st = lemma_carried_out(before, after, seq![op], eval);
    assert(seq![op].drop_last() =~= Seq::<TxOperation>::empty());
    assert(seq![op].last() == op);
    let fresh = fresh_stage(db, next_version(before));
    assert(worked_out(db, fresh, Seq::<TxOperation>::empty(), eval, bound) == Ok::<StageView, TxErrorView>(fresh));
    lemma_selects_one(fresh, eval, kind@, where_, owner@, is_admin, a);
    let n = db.nodes[a];
    crate::tables::plan::lemma_fresh(db, next_version(before));
    crate::tables::plan::lemma_delete_closure(db, fresh, seq![n], bound);
}

proof fn lemma_selects_one<F: Fn(&Filter, &Node) -> Result<bool, String>>(
    st: StageView,
    eval: F,
    kind: Seq<char>,
    where_: Option<Filter>,
    owner: Seq<char>,
    is_admin: bool,
    a: Seq<char>,
)
    requires
        orderly(st.nodes),
        evaluates(eval),
        st.nodes.contains_key(a),
        st.nodes[a].kind == kind,
        is_admin || st.nodes[a].owner == owner,
        where_ matches Some(f) ==> exists|node: Node|
            node@ == st.nodes[a] && #[trigger] eval.ensures((&f, &node), Ok::<bool, String>(true)),
        forall|b: Seq<char>| #[trigger]
            st.nodes.contains_key(b) && b != a ==> st.nodes[b].kind != kind || (!is_admin && st.nodes[b].owner != owner),
    ensures
        ({
            let rows = listing(st.nodes, writable(kind, owner, is_admin));
            chosen(eval, where_, rows, rows.len() as int) == Ok::<Seq<NodeView>, Seq<char>>(seq![st.nodes[a]])
        }),
{
    let pick = writable(kind, owner, is_admin);
    let rows = listing(st.nodes, pick);
    let n = st.nodes[a];
    lemma_kids(st.nodes, pick);
    assert(belongs(st.nodes, pick, RankBy::Address, None, false, n));
    let i = choose|i: int| 0 <= i < rows.len() && rows[i] == n;
    assert forall|j: int| 0 <= j < rows.len() implies #[trigger] rows[j] == n by {
        assert(belongs(st.nodes, pick, RankBy::Address, None, false, rows[j]));
        assert(st.nodes.contains_key(rows[j].address));
    }
    if rows.len() > 1 {
        assert(rows[0].address != rows[1].address);
    }
    if let Some(f) = where_ {
        let node = choose|node: Node| node@ == n && #[trigger] eval.ensures((&f, &node), Ok::<bool, String>(true));
        lemma_verdict(eval, &f, &node, Ok::<bool, String>(true));
    }
    reveal_with_fuel(chosen, 2);
    assert(chosen(eval, where_, rows, 1)->Ok_0 =~= seq![n]);
}

} // verus!
