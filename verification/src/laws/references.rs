//! What references between kinds of nodes promise.

use vstd::prelude::*;

use crate::defs::{ReferenceDefView, ReferentialAction};
use crate::engine::batch::{changes, logged};
use crate::engine::write::{deletes, next_version};
use crate::engine::StorageEngine;
use crate::json::{
    field_of, json_equal, json_members, json_object, json_quoted, member_text, with_member, JsonView, ShapeView,
};
use crate::laws::deleting::{
    begins_with, in_queue, lemma_cascaded_left, lemma_delete_leaves, lemma_followed_grows, lemma_followed_left,
    lemma_kids, lemma_nulled_left, same_but_data,
};
use crate::laws::values::law_one_member_is_set;
use crate::order::{order_code, TAG_NOTHING};
use crate::tables::integrity::{
    deletes_at, law_deleted_are_not_named, law_written_names_lead_somewhere, lemma_has_last, lemma_last, named_so,
    names,
};
use crate::tables::memory::orderly;
use crate::tables::model::{applied_all, DbView};
use crate::tables::plan::{
    cascaded, delete_closure, followed, fresh_stage, is_child, listing, nulled, removed, removed_all, replaced,
    StageView,
};
use crate::tables::refs::{referenced, referencing, stays};
use crate::tables::rows::{belongs, RankBy};
use crate::tables::unique::{declares_nothing, lemma_after, touched, touches};
use crate::transaction::{cleared, TransactionError};
use crate::types::NodeView;
use crate::wal::{OperationView, WalRecordView, WalView};

verus! {

// ---------------------------------------------------------------------
// Writing
// ---------------------------------------------------------------------

/// Where a change is carried out, every node that it wrote names only nodes
/// that are there: a field that a reference is over, if it is there and not
/// null, be it a number, a text or a truth value, is the address of a node of
/// the parent kind, or the value of that node's field.
pub proof fn law_written_fields_name_nodes(
    before: StorageEngine,
    after: StorageEngine,
    ops: Seq<OperationView>,
    alone: bool,
    a: Seq<char>,
    k: int,
    v: JsonView,
)
    requires
        before.inv(),
        changes(Ok(()), before, after, ops, alone),
        after@.nodes.contains_key(a),
        !(before@.nodes.contains_key(a) && before@.nodes[a] == after@.nodes[a]),
        0 <= k < before@.references.len(),
        after@.nodes[a].kind == before@.references[k].kind,
        field_of(after@.nodes[a].data, before@.references[k].field) == Some(v),
        !(v.shape is Null),
    ensures
        exists|b: Seq<char>| {
            &&& #[trigger] after@.nodes.contains_key(b)
            &&& after@.nodes[b].kind == before@.references[k].parent_kind
            &&& match before@.references[k].parent_field {
                None => v.shape == ShapeView::Text(b) || v.text == json_quoted(b),
                Some(f) => field_of(after@.nodes[b].data, f) matches Some(w) && (order_code(Some(w)) == order_code(Some(v))
                    || w.text == v.text),
            }
        },
{
    let db = before@;
    let r = db.references[k];
    before.lemma_orderly();
    if ops.len() == 1 && !declares_nothing(ops) {
        assert(ops.drop_last() =~= Seq::<OperationView>::empty());
        reveal_with_fuel(applied_all, 2);
        assert(after@.nodes == db.nodes);
        assert(false);
    }
    assert(declares_nothing(ops)) by {
        if ops.len() == 0 {
            assert(forall|i: int| 0 <= i < ops.len() ==> !crate::tables::unique::declares(#[trigger] ops[i]));
        }
    }
    lemma_after(db, ops, a);
    assert(touched(ops, a));
    let j = lemma_has_last(ops, a);
    lemma_last(db, ops, j, a);
    assert(ops[j] is Insert);
    let n = ops[j]->Insert_0;
    assert(n == after@.nodes[a]);
    assert(touches(ops[j], a));
    assert(stays(ops, j));
    law_written_names_lead_somewhere(db, ops, j, k);
    let key = referencing(n, r)->0;
    assert(key == v);
    let b = choose|b: Seq<char>| #[trigger]
        after@.nodes.contains_key(b) && after@.nodes[b].kind == r.parent_kind && named_so(after@.nodes[b], r, key);
    lemma_after_named(db, ops, b);
    let p = after@.nodes[b];
    assert(p.address == b);
    if let Some(f) = r.parent_field {
        if order_code(field_of(p.data, f)) == order_code(Some(v)) {
            assert(order_code(None)[0] == TAG_NOTHING);
            assert(order_code(Some(v))[0] != TAG_NOTHING);
            assert(field_of(p.data, f) is Some);
        }
    }
}

proof fn lemma_after_named(db: DbView, ops: Seq<OperationView>, b: Seq<char>)
    requires
        orderly(db.nodes),
        declares_nothing(ops),
        applied_all(db, ops).nodes.contains_key(b),
    ensures
        applied_all(db, ops).nodes[b].address == b,
{
    lemma_after(db, ops, b);
}

// ---------------------------------------------------------------------
// Deleting
// ---------------------------------------------------------------------

/// The node at `a` names the one at `address` through the reference: its
/// field is there, is not null, and is the address of the other or the value
/// of the other's field.
pub open spec fn names_the_other(db: DbView, r: ReferenceDefView, a: Seq<char>, address: Seq<char>, key: JsonView) -> bool {
    &&& a != address
    &&& db.nodes.contains_key(a)
    &&& db.nodes.contains_key(address)
    &&& db.nodes[a].kind == r.kind
    &&& db.nodes[address].kind == r.parent_kind
    &&& match r.parent_field {
        None => key.text == json_quoted(address) && key.shape == ShapeView::Text(address),
        Some(f) => field_of(db.nodes[address].data, f) == Some(key) && !(key.shape is Null),
    }
    &&& field_of(db.nodes[a].data, r.field) matches Some(v) && !(v.shape is Null) && json_equal(v.text, key.text)
        && order_code(Some(v)) == order_code(Some(key))
}

/// The first two operations of a deletion keep the node's state and take the
/// node out.
proof fn lemma_first_is_deleted(db: DbView, stamp: u64, n: NodeView, bound: nat)
    requires
        orderly(db.nodes),
        delete_closure(db, fresh_stage(db, stamp), seq![n], bound) is Ok,
    ensures
        deletes_at(delete_closure(db, fresh_stage(db, stamp), seq![n], bound)->Ok_0.ops, 1, n),
{
    let st = fresh_stage(db, stamp);
    let t = delete_closure(db, st, seq![n], bound)->Ok_0;
    let s = removed(st, n)->Ok_0;
    assert(seq![n][0] == n);
    let rest = seq![n].drop_first();
    assert(rest =~= Seq::<NodeView>::empty());
    assert(s.ops[1] == OperationView::Delete(n.address));
    assert(s.ops[0] == OperationView::Archive(crate::types::superseded(n, stamp)));
    if db.references.len() == 0 {
        assert(t == removed_all(s, rest)->Ok_0);
        assert(t == s);
    } else {
        let now = Set::<Seq<char>>::empty().insert(n.address);
        lemma_followed_grows(db, st, s, n, now, rest, 0);
        assert(s.nodes == st.nodes.remove(n.address));
        assert(s.nodes.dom() =~= st.nodes.dom().remove(n.address));
        assert(orderly(s.nodes));
        lemma_followed_left(db, st, s, n, now, rest, 0);
        let (u, more) = followed(db, st, s, n, now, rest, 0)->Ok_0;
        assert(u.ops.len() > st.ops.len());
        assert forall|a: Seq<char>| #[trigger] now.contains(a) implies !u.nodes.contains_key(a) by {
            assert(!s.nodes.contains_key(a));
        }
        lemma_cascaded_left(db, st, u, more, now, bound);
        assert(t == cascaded(db, st, u, more, now, bound)->Ok_0);
        assert(u.ops[0] == s.ops[0] && u.ops[1] == s.ops[1]);
        assert(t.ops[0] == u.ops[0] && t.ops[1] == u.ops[1]);
    }
}

/// What a deletion leads to is in the log.
proof fn lemma_in_log(
    before: Seq<WalRecordView>,
    after: Seq<WalRecordView>,
    id: u64,
    ops: Seq<OperationView>,
    i: int,
)
    requires
        logged(before, after, id, ops, true),
        ops.len() >= 2,
        0 <= i < ops.len(),
    ensures
        before.len() + 1 + i < after.len(),
        after[before.len() + 1 + i].operation == WalView::Apply(ops[i]),
{
    assert(after[before.len() + 1 + i].operation == WalView::Apply(ops[i]));
}

/// When a node is deleted it is gone, and whoever named it is deleted or
/// written anew: the log has a record of that, past what it had.
pub proof fn law_whoever_named_it_is_dealt_with(
    before: StorageEngine,
    after: StorageEngine,
    address: Seq<char>,
    k: int,
    a: Seq<char>,
    key: JsonView,
)
    requires
        before.inv(),
        deletes(Ok(()), before, after, address),
        0 <= k < before@.references.len(),
        names_the_other(before@, before@.references[k], a, address, key),
    ensures
        !after@.nodes.contains_key(address),
        exists|i: int| {
            &&& before.log().len() <= i < after.log().len()
            &&& match (#[trigger] after.log()[i]).operation {
                WalView::Apply(OperationView::Delete(b)) => b == a,
                WalView::Apply(OperationView::Insert(p)) => p.address == a,
                _ => false,
            }
        },
{
    let db = before@;
    let n = db.nodes[address];
    let version = next_version(before);
    let bound = before.limits().max_transaction_ops as nat;
    let st = delete_closure(db, fresh_stage(db, version), seq![n], bound)->Ok_0;
    before.lemma_orderly();
    lemma_first_is_deleted(db, version, n, bound);
    lemma_delete_leaves(db, fresh_stage(db, version), seq![n], bound);
    assert(seq![n][0].address == address);
    crate::tables::plan::lemma_fresh(db, version);
    crate::tables::plan::lemma_delete_closure(db, fresh_stage(db, version), seq![n], bound);
    law_deleted_are_not_named(db, version, n, bound, 1, n, k, a);
    let r = db.references[k];
    assert(referenced(n, r) == Some(key));
    assert(names(db.nodes[a], r, n));
    assert(touched(st.ops, a));
    let i = choose|i: int| 0 <= i < st.ops.len() && touches(#[trigger] st.ops[i], a);
    lemma_in_log(before.log(), after.log(), after.last_transaction(), st.ops, i);
    assert(after.log()[before.log().len() + 1 + i].operation == WalView::Apply(st.ops[i]));
}

/// The references before the one at `k` set nothing to null in nodes of the
/// kind.
pub open spec fn none_nulled_before(db: DbView, k: int, kind: Seq<char>) -> bool {
    forall|j: int|
        0 <= j < k && (#[trigger] db.references[j]).on_delete is SetNull ==> db.references[j].kind != kind
}

proof fn lemma_reached(
    db: DbView,
    origin: StageView,
    st: StageView,
    n: NodeView,
    dead: Set<Seq<char>>,
    queue: Seq<NodeView>,
    i: int,
    k: int,
    m: NodeView,
)
    requires
        0 <= i <= k < db.references.len(),
        orderly(st.nodes),
        none_nulled_before(db, k, m.kind),
        followed(db, origin, st, n, dead, queue, i) is Ok,
        st.nodes.contains_key(m.address),
        st.nodes[m.address] == m,
        db.references[k].parent_kind == n.kind,
        referenced(n, db.references[k]) is Some,
        is_child(db, origin, db.references[k], referenced(n, db.references[k])->0, dead)(m),
    ensures
        !(db.references[k].on_delete is Restrict),
        db.references[k].on_delete is Cascade ==> in_queue(
            followed(db, origin, st, n, dead, queue, i)->Ok_0.1,
            m.address,
        ),
    decreases k - i,
{
    let r = db.references[i];
    let pick = is_child(db, origin, r, referenced(n, r)->0, dead);
    let kids = listing(st.nodes, pick);
    if r.parent_kind == n.kind && referenced(n, r) is Some {
        lemma_kids(st.nodes, pick);
    }
    if i == k {
        assert(belongs(st.nodes, pick, RankBy::Address, None, false, m));
        let at = choose|at: int| 0 <= at < kids.len() && kids[at] == m;
        if r.on_delete is Cascade {
            let longer = queue + kids;
            lemma_followed_left(db, origin, st, n, dead, longer, i + 1);
            let more = followed(db, origin, st, n, dead, longer, i + 1)->Ok_0.1;
            assert(longer[queue.len() + at] == m);
            assert(more[queue.len() + at] == longer[queue.len() + at]);
        }
    } else if r.parent_kind != n.kind || referenced(n, r) is None {
        lemma_reached(db, origin, st, n, dead, queue, i + 1, k, m);
    } else if kids.len() == 0 {
        lemma_reached(db, origin, st, n, dead, queue, i + 1, k, m);
    } else {
        match r.on_delete {
            ReferentialAction::Cascade => {
                lemma_reached(db, origin, st, n, dead, queue + kids, i + 1, k, m);
            },
            ReferentialAction::Restrict => {},
            ReferentialAction::SetNull => {
                let s = nulled(st, kids, r.field)->Ok_0;
                lemma_nulled_left(st, kids, r.field);
                assert forall|x: int| 0 <= x < kids.len() implies (#[trigger] kids[x]).address != m.address by {
                    assert(belongs(st.nodes, pick, RankBy::Address, None, false, kids[x]));
                    assert(kids[x].kind == r.kind);
                }
                assert(!in_queue(kids, m.address));
                assert(s.nodes.contains_key(m.address) && s.nodes[m.address] == m);
                lemma_reached(db, origin, s, n, dead, queue, i + 1, k, m);
            },
        }
    }
}

/// A node that another names through a reference that restricts is not
/// deleted; where the reference cascades, the other goes with it. A reference
/// before it that sets fields of the same kind to null comes first.
pub proof fn law_reference_restricts_or_cascades(
    r: Result<(), TransactionError>,
    before: StorageEngine,
    after: StorageEngine,
    address: Seq<char>,
    k: int,
    a: Seq<char>,
    key: JsonView,
)
    requires
        before.inv(),
        !before.failed(),
        deletes(r, before, after, address),
        0 <= k < before@.references.len(),
        names_the_other(before@, before@.references[k], a, address, key),
        none_nulled_before(before@, k, before@.references[k].kind),
    ensures
        before@.references[k].on_delete is Restrict ==> r is Err,
        before@.references[k].on_delete is Cascade && r is Ok ==> !after@.nodes.contains_key(a),
{
    let db = before@;
    let n = db.nodes[address];
    let m = db.nodes[a];
    let version = next_version(before);
    let bound = before.limits().max_transaction_ops as nat;
    let st = fresh_stage(db, version);
    before.lemma_orderly();
    if r is Ok {
        let t = delete_closure(db, st, seq![n], bound)->Ok_0;
        let s = removed(st, n)->Ok_0;
        let rest = seq![n].drop_first();
        let now = Set::<Seq<char>>::empty().insert(n.address);
        assert(seq![n][0] == n);
        assert(rest =~= Seq::<NodeView>::empty());
        assert(s.nodes == st.nodes.remove(n.address));
        assert(s.nodes.dom() =~= st.nodes.dom().remove(n.address));
        assert(orderly(s.nodes));
        let (u, more) = followed(db, st, s, n, now, rest, 0)->Ok_0;
        let d = db.references[k];
        assert(referenced(n, d) == Some(key));
        assert(is_child(db, st, d, key, now)(m));
        lemma_reached(db, st, s, n, now, rest, 0, k, m);
        lemma_followed_left(db, st, s, n, now, rest, 0);
        lemma_followed_grows(db, st, s, n, now, rest, 0);
        assert forall|x: Seq<char>| #[trigger] now.contains(x) implies !u.nodes.contains_key(x) by {
            assert(!s.nodes.contains_key(x));
        }
        lemma_cascaded_left(db, st, u, more, now, bound);
        assert(t == cascaded(db, st, u, more, now, bound)->Ok_0);
        crate::tables::plan::lemma_fresh(db, version);
        crate::tables::plan::lemma_delete_closure(db, st, seq![n], bound);
        assert(after@.nodes == t.nodes);
    }
}

/// The operation at `i` puts a node in place of a state that the one before
/// it keeps: the same node, but that the field of a reference that sets null
/// is null in its data.
pub open spec fn nulls_at(db: DbView, ops: Seq<OperationView>, i: int) -> bool {
    &&& i > 0
    &&& ops[i] matches OperationView::Insert(p) && ops[i - 1] matches OperationView::Archive(h) && {
        &&& same_but_data(p, h.node)
        &&& exists|k: int| #[trigger] nulled_through(db, k, p, h.node)
    }
}

/// The data of `p` is that of `m`, in which the reference's field was there
/// and not null, with the field null.
pub open spec fn nulled_through(db: DbView, k: int, p: NodeView, m: NodeView) -> bool {
    &&& 0 <= k < db.references.len()
    &&& db.references[k].on_delete is SetNull
    &&& db.references[k].kind == m.kind
    &&& field_of(m.data, db.references[k].field) is Some
    &&& !(field_of(m.data, db.references[k].field)->0.shape is Null)
    &&& json_members(m.data) is Some
    &&& exists|now: Seq<(Seq<char>, Seq<char>)>| {
        &&& #[trigger] json_object(now) == Some(p.data)
        &&& member_text(now, db.references[k].field) == Some("null"@)
        &&& forall|name: Seq<char>|
            name != db.references[k].field ==> #[trigger] member_text(now, name) == member_text(
                json_members(m.data)->0,
                name,
            )
    }
}

/// Every node that the operations from `from` on put in place is one that
/// lost a field so.
spec fn nulls_from(db: DbView, ops: Seq<OperationView>, from: int) -> bool {
    forall|i: int| from <= i < ops.len() && #[trigger] ops[i] is Insert ==> nulls_at(db, ops, i) && i > from
}

proof fn lemma_nulls_more(db: DbView, ops: Seq<OperationView>, more: Seq<OperationView>, from: int)
    requires
        nulls_from(db, ops, from),
        begins_with(more, ops),
        0 <= from <= ops.len(),
        nulls_from(db, more, ops.len() as int),
    ensures
        nulls_from(db, more, from),
{
    assert forall|i: int| from <= i < more.len() && #[trigger] more[i] is Insert implies nulls_at(db, more, i) && i
        > from by {
        if i < ops.len() {
            assert(more[i] == ops[i]);
            assert(nulls_at(db, ops, i));
            assert(more[i - 1] == ops[i - 1]);
        }
    }
}

proof fn lemma_nulled_nulls(db: DbView, st: StageView, kids: Seq<NodeView>, k: int)
    requires
        0 <= k < db.references.len(),
        db.references[k].on_delete is SetNull,
        nulled(st, kids, db.references[k].field) is Ok,
        forall|i: int|
            0 <= i < kids.len() ==> (#[trigger] kids[i]).kind == db.references[k].kind && referencing(
                kids[i],
                db.references[k],
            ) is Some,
    ensures
        nulls_from(db, nulled(st, kids, db.references[k].field)->Ok_0.ops, st.ops.len() as int),
    decreases kids.len(),
{
    let name = db.references[k].field;
    if kids.len() > 0 {
        let m = kids[0];
        let p = cleared(m, name)->0;
        let s = replaced(st, m, p)->Ok_0;
        let rest = kids.drop_first();
        assert forall|i: int| 0 <= i < rest.len() implies (#[trigger] rest[i]).kind == db.references[k].kind
            && referencing(rest[i], db.references[k]) is Some by {
            assert(rest[i] == kids[i + 1]);
        }
        assert(m.kind == db.references[k].kind);
        lemma_nulled_nulls(db, s, rest, k);
        crate::laws::deleting::lemma_nulled_grows(s, rest, name);
        let was = json_members(m.data)->0;
        let now = with_member(was, name, "null"@);
        assert(json_object(now) == Some(p.data));
        law_one_member_is_set(was, name, "null"@, name);
        assert forall|other: Seq<char>| other != name implies #[trigger] member_text(now, other) == member_text(
            was,
            other,
        ) by {
            law_one_member_is_set(was, name, "null"@, other);
        }
        assert(nulled_through(db, k, p, m));
        let at = st.ops.len() as int;
        assert(s.ops[at + 1] == OperationView::Insert(p));
        assert(s.ops[at] == OperationView::Archive(crate::types::superseded(m, st.stamp)));
        assert(nulls_at(db, s.ops, at + 1));
        assert(nulls_from(db, s.ops, at)) by {
            assert forall|i: int| at <= i < s.ops.len() && #[trigger] s.ops[i] is Insert implies nulls_at(db, s.ops, i)
                && i > at by {
                assert(i == at || i == at + 1);
            }
        }
        lemma_nulls_more(db, s.ops, nulled(s, rest, name)->Ok_0.ops, at);
    }
}

proof fn lemma_followed_nulls(
    db: DbView,
    origin: StageView,
    st: StageView,
    n: NodeView,
    dead: Set<Seq<char>>,
    queue: Seq<NodeView>,
    i: int,
)
    requires
        orderly(st.nodes),
        followed(db, origin, st, n, dead, queue, i) is Ok,
    ensures
        nulls_from(db, followed(db, origin, st, n, dead, queue, i)->Ok_0.0.ops, st.ops.len() as int),
    decreases db.references.len() - i,
{
    if 0 <= i < db.references.len() {
        let r = db.references[i];
        if r.parent_kind != n.kind || referenced(n, r) is None {
            lemma_followed_nulls(db, origin, st, n, dead, queue, i + 1);
        } else {
            let pick = is_child(db, origin, r, referenced(n, r)->0, dead);
            let kids = listing(st.nodes, pick);
            lemma_kids(st.nodes, pick);
            if kids.len() == 0 {
                lemma_followed_nulls(db, origin, st, n, dead, queue, i + 1);
            } else {
                match r.on_delete {
                    ReferentialAction::Cascade => {
                        lemma_followed_nulls(db, origin, st, n, dead, queue + kids, i + 1);
                    },
                    ReferentialAction::Restrict => {},
                    ReferentialAction::SetNull => {
                        let s = nulled(st, kids, r.field)->Ok_0;
                        assert forall|x: int| 0 <= x < kids.len() implies (#[trigger] kids[x]).kind == r.kind
                            && referencing(kids[x], r) is Some by {
                            assert(belongs(st.nodes, pick, RankBy::Address, None, false, kids[x]));
                        }
                        lemma_nulled_nulls(db, st, kids, i);
                        lemma_nulled_left(st, kids, r.field);
                        crate::laws::deleting::lemma_nulled_grows(st, kids, r.field);
                        lemma_followed_nulls(db, origin, s, n, dead, queue, i + 1);
                        lemma_followed_grows(db, origin, s, n, dead, queue, i + 1);
                        let t = followed(db, origin, s, n, dead, queue, i + 1)->Ok_0.0;
                        lemma_nulls_more(db, s.ops, t.ops, st.ops.len() as int);
                    },
                }
            }
        }
    }
}

proof fn lemma_cascaded_nulls(
    db: DbView,
    origin: StageView,
    st: StageView,
    queue: Seq<NodeView>,
    dead: Set<Seq<char>>,
    bound: nat,
)
    requires
        orderly(st.nodes),
        forall|a: Seq<char>| #[trigger] dead.contains(a) ==> !st.nodes.contains_key(a),
        cascaded(db, origin, st, queue, dead, bound) is Ok,
    ensures
        nulls_from(db, cascaded(db, origin, st, queue, dead, bound)->Ok_0.ops, st.ops.len() as int),
    decreases
            if bound + 1 >= st.ops.len() {
                bound + 1 - st.ops.len()
            } else {
                0
            },
            queue.len(),
{
    if queue.len() > 0 {
        let n = queue[0];
        let rest = queue.drop_first();
        if dead.contains(n.address) {
            lemma_cascaded_nulls(db, origin, st, rest, dead, bound);
        } else {
            let at = st.ops.len() as int;
            let now = dead.insert(n.address);
            let s = removed(st, n)->Ok_0;
            assert(s.nodes == st.nodes.remove(n.address));
            assert(s.nodes.dom() =~= st.nodes.dom().remove(n.address));
            assert(orderly(s.nodes));
            assert(s.ops.len() == at + 2);
            assert(s.ops[at] is Archive && s.ops[at + 1] is Delete);
            assert(nulls_from(db, s.ops, at)) by {
                assert forall|i: int| at <= i < s.ops.len() && #[trigger] s.ops[i] is Insert implies nulls_at(
                    db,
                    s.ops,
                    i,
                ) && i > at by {
                    assert(i == at || i == at + 1);
                }
            }
            lemma_followed_nulls(db, origin, s, n, now, rest, 0);
            lemma_followed_grows(db, origin, s, n, now, rest, 0);
            lemma_followed_left(db, origin, s, n, now, rest, 0);
            let (u, more) = followed(db, origin, s, n, now, rest, 0)->Ok_0;
            lemma_nulls_more(db, s.ops, u.ops, at);
            assert forall|a: Seq<char>| #[trigger] now.contains(a) implies !u.nodes.contains_key(a) by {
                if a != n.address {
                    assert(dead.contains(a));
                }
                assert(!s.nodes.contains_key(a));
            }
            lemma_cascaded_nulls(db, origin, u, more, now, bound);
            lemma_cascaded_left(db, origin, u, more, now, bound);
            lemma_nulls_more(db, u.ops, cascaded(db, origin, u, more, now, bound)->Ok_0.ops, at);
        }
    }
}

/// Of the nodes that a deletion leaves, it writes only those that lose the
/// field of a reference that sets null: the record of it follows one that
/// keeps the state before, and the field is null in the data; its other
/// members, and what else there is to the node, stay.
pub proof fn law_deleting_only_sets_null(
    before: StorageEngine,
    after: StorageEngine,
    address: Seq<char>,
    i: int,
    p: NodeView,
)
    requires
        before.inv(),
        deletes(Ok(()), before, after, address),
        before.log().len() < i < after.log().len(),
        after.log()[i].operation == WalView::Apply(OperationView::Insert(p)),
    ensures
        after.log()[i - 1].operation matches WalView::Apply(OperationView::Archive(h)) && {
            &&& p.coordinate == h.node.coordinate
            &&& p.address == h.node.address
            &&& p.kind == h.node.kind
            &&& p.owner == h.node.owner
            &&& p.visibility == h.node.visibility
            &&& p.claimed_by == h.node.claimed_by
            &&& exists|k: int| #[trigger] nulled_through(before@, k, p, h.node)
        },
{
    let db = before@;
    before.lemma_orderly();
    if db.nodes.contains_key(address) {
        let n = db.nodes[address];
        let version = next_version(before);
        let bound = before.limits().max_transaction_ops as nat;
        let ops = delete_closure(db, fresh_stage(db, version), seq![n], bound)->Ok_0.ops;
        lemma_closure_nulls(db, version, n, bound);
        lemma_log_nulls(before.log(), after.log(), after.last_transaction(), db, ops, i, p);
    } else {
        assert(after.log().len() == before.log().len() + 1);
    }
}

proof fn lemma_closure_nulls(db: DbView, version: u64, n: NodeView, bound: nat)
    requires
        orderly(db.nodes),
        delete_closure(db, fresh_stage(db, version), seq![n], bound) is Ok,
    ensures
        nulls_from(db, delete_closure(db, fresh_stage(db, version), seq![n], bound)->Ok_0.ops, 0),
        delete_closure(db, fresh_stage(db, version), seq![n], bound)->Ok_0.ops.len() >= 2,
{
    let st = fresh_stage(db, version);
    lemma_first_is_deleted(db, version, n, bound);
    if db.references.len() == 0 {
        lemma_removed_writes_nothing(st, seq![n]);
    } else {
        lemma_cascaded_nulls(db, st, st, seq![n], Set::empty(), bound);
    }
}

proof fn lemma_log_nulls(
    before: Seq<WalRecordView>,
    after: Seq<WalRecordView>,
    id: u64,
    db: DbView,
    ops: Seq<OperationView>,
    i: int,
    p: NodeView,
)
    requires
        logged(before, after, id, ops, true),
        ops.len() >= 2,
        nulls_from(db, ops, 0),
        before.len() < i < after.len(),
        after[i].operation == WalView::Apply(OperationView::Insert(p)),
    ensures
        after[i - 1].operation matches WalView::Apply(OperationView::Archive(h)) && same_but_data(p, h.node) && exists|
            k: int,
        | #[trigger] nulled_through(db, k, p, h.node),
{
    let at = i - before.len() - 1;
    if at >= ops.len() {
        assert(after[i] == after.last());
    }
    lemma_in_log(before, after, id, ops, at);
    assert(ops[at] == OperationView::Insert(p));
    assert(nulls_at(db, ops, at));
    lemma_in_log(before, after, id, ops, at - 1);
}

proof fn lemma_removed_writes_nothing(st: StageView, seeds: Seq<NodeView>)
    requires
        removed_all(st, seeds) is Ok,
        forall|i: int| 0 <= i < st.ops.len() ==> !(#[trigger] st.ops[i] is Insert),
    ensures
        forall|i: int| 0 <= i < removed_all(st, seeds)->Ok_0.ops.len() ==> !(
        #[trigger] removed_all(st, seeds)->Ok_0.ops[i] is Insert),
    decreases seeds.len(),
{
    if seeds.len() > 0 {
        let s = removed(st, seeds[0])->Ok_0;
        assert forall|i: int| 0 <= i < s.ops.len() implies !(#[trigger] s.ops[i] is Insert) by {
            if i < st.ops.len() {
                assert(s.ops[i] == st.ops[i]);
            }
        }
        lemma_removed_writes_nothing(s, seeds.drop_first());
    }
}

/// What is left after a deletion was there before, with the same place,
/// kind, owner, visibility and claimant; where no reference is declared,
/// everything else is just as it was. Edges, users and all that is declared
/// stay.
pub proof fn law_delete_leaves_the_rest(before: StorageEngine, after: StorageEngine, address: Seq<char>)
    requires
        before.inv(),
        deletes(Ok(()), before, after, address),
    ensures
        !after@.nodes.contains_key(address),
        forall|a: Seq<char>| #[trigger]
            after@.nodes.contains_key(a) ==> {
                &&& before@.nodes.contains_key(a)
                &&& after@.nodes[a].coordinate == before@.nodes[a].coordinate
                &&& after@.nodes[a].address == a
                &&& after@.nodes[a].kind == before@.nodes[a].kind
                &&& after@.nodes[a].owner == before@.nodes[a].owner
                &&& after@.nodes[a].visibility == before@.nodes[a].visibility
                &&& after@.nodes[a].claimed_by == before@.nodes[a].claimed_by
            },
        before@.references.len() == 0 ==> forall|a: Seq<char>|
            a != address ==> (#[trigger] after@.nodes.contains_key(a) <==> before@.nodes.contains_key(a)) && (
            after@.nodes.contains_key(a) ==> after@.nodes[a] == before@.nodes[a]),
        after@.edges == before@.edges,
        after@.data == before@.data,
        after@.text == before@.text,
        after@.references == before@.references,
{
    let db = before@;
    before.lemma_orderly();
    if db.nodes.contains_key(address) {
        let n = db.nodes[address];
        let version = next_version(before);
        let bound = before.limits().max_transaction_ops as nat;
        let st = fresh_stage(db, version);
        lemma_delete_leaves(db, st, seq![n], bound);
        crate::tables::plan::lemma_fresh(db, version);
        crate::tables::plan::lemma_delete_closure(db, st, seq![n], bound);
        let t = delete_closure(db, st, seq![n], bound)->Ok_0;
        assert(seq![n][0].address == address);
        lemma_after(db, t.ops, address);
        assert forall|a: Seq<char>| a != address implies !#[trigger] in_queue(seq![n], a) by {}
        assert forall|a: Seq<char>| a != address && db.references.len() == 0 implies (
        #[trigger] after@.nodes.contains_key(a) <==> db.nodes.contains_key(a)) && (after@.nodes.contains_key(a)
            ==> after@.nodes[a] == db.nodes[a]) by {
            assert(!in_queue(seq![n], a));
        }
    } else {
        let op = OperationView::Delete(address);
        assert(seq![op].drop_last() =~= Seq::<OperationView>::empty());
        reveal_with_fuel(applied_all, 2);
    }
}

/// Every node is one that the database holds.
spec fn held_by(db: DbView, nodes: Seq<NodeView>) -> bool {
    forall|i: int|
        0 <= i < nodes.len() ==> db.nodes.contains_key((#[trigger] nodes[i]).address) && db.nodes[nodes[i].address]
            == nodes[i]
}

/// The node at the address names no other.
pub open spec fn names_none(db: DbView, a: Seq<char>) -> bool {
    forall|k: int, b: Seq<char>, key: JsonView|
        0 <= k < db.references.len() ==> !#[trigger] names_the_other(db, db.references[k], a, b, key)
}

proof fn lemma_followed_spares(
    db: DbView,
    origin: StageView,
    st: StageView,
    n: NodeView,
    dead: Set<Seq<char>>,
    queue: Seq<NodeView>,
    i: int,
    a: Seq<char>,
)
    requires
        orderly(st.nodes),
        0 <= i,
        origin.written == Set::<Seq<char>>::empty(),
        forall|x: Seq<char>| #[trigger] st.nodes.contains_key(x) ==> db.nodes.contains_key(x) && st.nodes[x] == db.nodes[x],
        held_by(db, queue),
        db.nodes.contains_key(n.address),
        db.nodes[n.address] == n,
        dead.contains(n.address),
        names_none(db, a),
        !in_queue(queue, a),
        forall|k: int| 0 <= k < db.references.len() ==> !((#[trigger] db.references[k]).on_delete is SetNull),
        followed(db, origin, st, n, dead, queue, i) is Ok,
    ensures
        followed(db, origin, st, n, dead, queue, i)->Ok_0.0 == st,
        held_by(db, followed(db, origin, st, n, dead, queue, i)->Ok_0.1),
        !in_queue(followed(db, origin, st, n, dead, queue, i)->Ok_0.1, a),
    decreases db.references.len() - i,
{
    if i < db.references.len() {
        let r = db.references[i];
        if r.parent_kind != n.kind || referenced(n, r) is None {
            lemma_followed_spares(db, origin, st, n, dead, queue, i + 1, a);
        } else {
            let key = referenced(n, r)->0;
            let pick = is_child(db, origin, r, key, dead);
            let kids = listing(st.nodes, pick);
            lemma_kids(st.nodes, pick);
            if kids.len() == 0 {
                lemma_followed_spares(db, origin, st, n, dead, queue, i + 1, a);
            } else {
                let longer = queue + kids;
                assert forall|x: int| 0 <= x < kids.len() implies db.nodes.contains_key((#[trigger] kids[x]).address)
                    && db.nodes[kids[x].address] == kids[x] && kids[x].address != a by {
                    assert(belongs(st.nodes, pick, RankBy::Address, None, false, kids[x]));
                    if kids[x].address == a {
                        assert(a != n.address);
                        assert(names_the_other(db, db.references[i], a, n.address, key));
                    }
                }
                assert forall|x: int| 0 <= x < longer.len() implies db.nodes.contains_key((#[trigger] longer[x]).address)
                    && db.nodes[longer[x].address] == longer[x] by {
                    if x < queue.len() {
                        assert(longer[x] == queue[x]);
                    } else {
                        assert(longer[x] == kids[x - queue.len()]);
                    }
                }
                if in_queue(longer, a) {
                    let x = choose|x: int| 0 <= x < longer.len() && (#[trigger] longer[x]).address == a;
                    if x < queue.len() {
                        assert(queue[x].address == a);
                    } else {
                        assert(kids[x - queue.len()].address == a);
                    }
                }
                assert(!(r.on_delete is SetNull));
                if r.on_delete is Cascade {
                    lemma_followed_spares(db, origin, st, n, dead, longer, i + 1, a);
                }
            }
        }
    }
}

proof fn lemma_cascaded_spares(
    db: DbView,
    origin: StageView,
    st: StageView,
    queue: Seq<NodeView>,
    dead: Set<Seq<char>>,
    bound: nat,
    a: Seq<char>,
)
    requires
        orderly(st.nodes),
        origin.written == Set::<Seq<char>>::empty(),
        forall|x: Seq<char>| #[trigger] st.nodes.contains_key(x) ==> db.nodes.contains_key(x) && st.nodes[x] == db.nodes[x],
        held_by(db, queue),
        names_none(db, a),
        !in_queue(queue, a),
        forall|k: int| 0 <= k < db.references.len() ==> !((#[trigger] db.references[k]).on_delete is SetNull),
        cascaded(db, origin, st, queue, dead, bound) is Ok,
        st.nodes.contains_key(a),
    ensures
        cascaded(db, origin, st, queue, dead, bound)->Ok_0.nodes.contains_key(a),
        cascaded(db, origin, st, queue, dead, bound)->Ok_0.nodes[a] == st.nodes[a],
    decreases
            if bound + 1 >= st.ops.len() {
                bound + 1 - st.ops.len()
            } else {
                0
            },
            queue.len(),
{
    if queue.len() > 0 {
        let n = queue[0];
        let rest = queue.drop_first();
        assert(n.address != a);
        assert(held_by(db, rest)) by {
            assert forall|x: int| 0 <= x < rest.len() implies db.nodes.contains_key((#[trigger] rest[x]).address)
                && db.nodes[rest[x].address] == rest[x] by {
                assert(rest[x] == queue[x + 1]);
            }
        }
        if in_queue(rest, a) {
            let x = choose|x: int| 0 <= x < rest.len() && (#[trigger] rest[x]).address == a;
            assert(queue[x + 1].address == a);
        }
        if dead.contains(n.address) {
            lemma_cascaded_spares(db, origin, st, rest, dead, bound, a);
        } else {
            let now = dead.insert(n.address);
            let s = removed(st, n)->Ok_0;
            assert(s.nodes == st.nodes.remove(n.address));
            assert(s.nodes.dom() =~= st.nodes.dom().remove(n.address));
            assert(orderly(s.nodes));
            lemma_followed_spares(db, origin, s, n, now, rest, 0, a);
            let (u, more) = followed(db, origin, s, n, now, rest, 0)->Ok_0;
            lemma_cascaded_spares(db, origin, u, more, now, bound, a);
        }
    }
}

/// A deletion spares what has nothing to do with it: where references cascade
/// or restrict, a node that names no other stays just as it was.
pub proof fn law_deletion_spares_strangers(
    before: StorageEngine,
    after: StorageEngine,
    address: Seq<char>,
    a: Seq<char>,
)
    requires
        before.inv(),
        deletes(Ok(()), before, after, address),
        forall|k: int|
            0 <= k < before@.references.len() ==> !((#[trigger] before@.references[k]).on_delete is SetNull),
        before@.nodes.contains_key(a),
        a != address,
        names_none(before@, a),
    ensures
        after@.nodes.contains_key(a),
        after@.nodes[a] == before@.nodes[a],
{
    before.lemma_orderly();
    if before@.nodes.contains_key(address) {
        let n = before@.nodes[address];
        let bound = before.limits().max_transaction_ops as nat;
        lemma_closure_spares(before@, next_version(before), n, bound, a);
        crate::tables::plan::lemma_fresh(before@, next_version(before));
        crate::tables::plan::lemma_delete_closure(
            before@,
            fresh_stage(before@, next_version(before)),
            seq![n],
            bound,
        );
    } else {
        let op = OperationView::Delete(address);
        assert(seq![op].drop_last() =~= Seq::<OperationView>::empty());
        reveal_with_fuel(applied_all, 2);
    }
}

proof fn lemma_closure_spares(db: DbView, version: u64, n: NodeView, bound: nat, a: Seq<char>)
    requires
        orderly(db.nodes),
        delete_closure(db, fresh_stage(db, version), seq![n], bound) is Ok,
        db.nodes.contains_key(n.address),
        db.nodes[n.address] == n,
        forall|k: int| 0 <= k < db.references.len() ==> !((#[trigger] db.references[k]).on_delete is SetNull),
        db.nodes.contains_key(a),
        a != n.address,
        names_none(db, a),
    ensures
        delete_closure(db, fresh_stage(db, version), seq![n], bound)->Ok_0.nodes.contains_key(a),
        delete_closure(db, fresh_stage(db, version), seq![n], bound)->Ok_0.nodes[a] == db.nodes[a],
{
    let st = fresh_stage(db, version);
    assert(held_by(db, seq![n]));
    assert(!in_queue(seq![n], a));
    if db.references.len() > 0 {
        lemma_cascaded_spares(db, st, st, seq![n], Set::empty(), bound, a);
    } else {
        lemma_delete_leaves(db, st, seq![n], bound);
    }
}

} // verus!
