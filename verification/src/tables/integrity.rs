//! What references promise.

use vstd::prelude::*;

use crate::defs::{ReferenceDefView, ReferentialAction};
use crate::json::{field_of, json_equal, JsonView, ShapeView};
use crate::order::order_code;
use crate::tables::memory::{keeps_state, lemma_listing_exists, orderly};
use crate::tables::model::{applied_all, DbView};
use crate::tables::plan::{
    archived, cascaded, delete_closure, followed, fresh_stage, is_child, listing, nulled, removed, removed_all,
    replaced, StageView,
};
use crate::tables::refs::{
    dangles, last_touch, mark, referenced, references_ok, referencing, resolves, satisfied, satisfies, stays,
};
use crate::tables::rows::{belongs, is_listing, RankBy};
use crate::tables::unique::{declares_nothing, lemma_after, touched, touches};
use crate::text::lemma_utf8_injective;
use crate::transaction::cleared;
use crate::types::{superseded, NodeView};
use crate::wal::OperationView;

verus! {

// ---------------------------------------------------------------------
// Deleting
// ---------------------------------------------------------------------

/// The node names the other through the reference.
pub open spec fn names(m: NodeView, r: ReferenceDefView, g: NodeView) -> bool {
    &&& r.parent_kind == g.kind
    &&& referenced(g, r) is Some
    &&& m.kind == r.kind
    &&& referencing(m, r) is Some
    &&& json_equal(referencing(m, r)->0.text, referenced(g, r)->0.text)
    &&& order_code(field_of(m.data, r.field)) == order_code(referenced(g, r))
}

/// The operation at `i` deletes the node, whose state the one before it
/// keeps.
pub open spec fn deletes_at(ops: Seq<OperationView>, i: int, g: NodeView) -> bool {
    &&& 0 < i < ops.len()
    &&& ops[i] == OperationView::Delete(g.address)
    &&& keeps_state(ops[i - 1], g)
}

/// A node that no operation touches names the deleted one.
pub open spec fn left_naming(db: DbView, ops: Seq<OperationView>, r: int, g: NodeView, a: Seq<char>) -> bool {
    &&& 0 <= r < db.references.len()
    &&& db.nodes.contains_key(a)
    &&& !touched(ops, a)
    &&& names(db.nodes[a], db.references[r], g)
}

spec fn queued(queue: Seq<NodeView>, a: Seq<char>) -> bool {
    exists|k: int| 0 <= k < queue.len() && (#[trigger] queue[k]).address == a
}

/// What is at the address is deleted, or about to be.
spec fn doomed(queue: Seq<NodeView>, dead: Set<Seq<char>>, a: Seq<char>) -> bool {
    queued(queue, a) || dead.contains(a)
}

/// Whoever names a deleted node, and is not touched yet, is in the queue.
spec fn pursued(db: DbView, ops: Seq<OperationView>, queue: Seq<NodeView>) -> bool {
    forall|i: int, g: NodeView, r: int, a: Seq<char>| #[trigger]
        deletes_at(ops, i, g) && #[trigger] left_naming(db, ops, r, g, a) ==> queued(queue, a)
}

/// What the node is pursued for, up to the reference at `upto`.
spec fn pursued_for(
    db: DbView,
    ops: Seq<OperationView>,
    queue: Seq<NodeView>,
    g: NodeView,
    upto: int,
) -> bool {
    forall|r: int, a: Seq<char>| r < upto && #[trigger] left_naming(db, ops, r, g, a) ==> queued(queue, a)
}

/// What every step keeps.
spec fn tidy(db: DbView, st: StageView, dead: Set<Seq<char>>) -> bool {
    &&& orderly(db.nodes)
    &&& orderly(st.nodes)
    &&& forall|a: Seq<char>| #[trigger] dead.contains(a) ==> touched(st.ops, a) && !st.nodes.contains_key(a)
    &&& forall|a: Seq<char>|
        #[trigger] db.nodes.contains_key(a) && !touched(st.ops, a) ==> st.nodes.contains_key(a) && st.nodes[a]
            == db.nodes[a]
}

/// The operations go on from the others.
spec fn extends(more: Seq<OperationView>, ops: Seq<OperationView>) -> bool {
    &&& ops.len() <= more.len()
    &&& more.take(ops.len() as int) == ops
}

/// The operations beyond the first `n` delete nothing.
spec fn spares(more: Seq<OperationView>, n: int) -> bool {
    forall|i: int| n <= i < more.len() ==> !(#[trigger] more[i] is Delete)
}

proof fn lemma_touched_more(ops: Seq<OperationView>, more: Seq<OperationView>, a: Seq<char>)
    requires
        extends(more, ops),
        touched(ops, a),
    ensures
        touched(more, a),
{
    let i = choose|i: int| 0 <= i < ops.len() && touches(#[trigger] ops[i], a);
    assert(more.take(ops.len() as int)[i] == more[i]);
}

proof fn lemma_extends_trans(a: Seq<OperationView>, b: Seq<OperationView>, c: Seq<OperationView>)
    requires
        extends(b, a),
        extends(c, b),
    ensures
        extends(c, a),
{
    assert(c.take(a.len() as int) =~= a) by {
        assert forall|i: int| 0 <= i < a.len() implies c[i] == a[i] by {
            assert(c.take(b.len() as int)[i] == b[i]);
            assert(b.take(a.len() as int)[i] == a[i]);
        }
    }
}

proof fn lemma_pursued_for_more(
    db: DbView,
    ops: Seq<OperationView>,
    more: Seq<OperationView>,
    queue: Seq<NodeView>,
    longer: Seq<NodeView>,
    g: NodeView,
    upto: int,
)
    requires
        pursued_for(db, ops, queue, g, upto),
        extends(more, ops),
        forall|a: Seq<char>| queued(queue, a) ==> #[trigger] queued(longer, a),
    ensures
        pursued_for(db, more, longer, g, upto),
{
    assert forall|r: int, a: Seq<char>| r < upto && #[trigger] left_naming(db, more, r, g, a) implies queued(
        longer,
        a,
    ) by {
        if touched(ops, a) {
            lemma_touched_more(ops, more, a);
        }
        assert(left_naming(db, ops, r, g, a));
    }
}

/// Two operations at the end: a state is kept and its node replaced or taken
/// out.
proof fn lemma_tidy_step(db: DbView, st: StageView, n: NodeView, next: StageView, op: OperationView, dead: Set<Seq<char>>)
    requires
        tidy(db, st, dead),
        archived(st, n) is Ok,
        next.ops == archived(st, n)->Ok_0.ops.push(op),
        touches(op, n.address),
        orderly(next.nodes),
        !dead.contains(n.address),
        forall|a: Seq<char>|
            a != n.address ==> (#[trigger] next.nodes.contains_key(a) <==> st.nodes.contains_key(a)) && (
            next.nodes.contains_key(a) ==> next.nodes[a] == st.nodes[a]),
    ensures
        tidy(db, next, dead),
        !next.nodes.contains_key(n.address) ==> tidy(db, next, dead.insert(n.address)),
        extends(next.ops, st.ops),
        touched(next.ops, n.address),
        next.ops.len() == st.ops.len() + 2,
        keeps_state(next.ops[st.ops.len() as int], n),
        next.ops[(st.ops.len() + 1) as int] == op,
{
    assert(next.ops.take(st.ops.len() as int) =~= st.ops);
    assert(next.ops[st.ops.len() as int] == OperationView::Archive(superseded(n, st.stamp)));
    assert(touches(next.ops[(st.ops.len() + 1) as int], n.address));
    assert forall|a: Seq<char>| #[trigger] dead.contains(a) implies touched(next.ops, a) && !next.nodes.contains_key(
        a,
    ) by {
        lemma_touched_more(st.ops, next.ops, a);
        assert(next.nodes.contains_key(a) <==> st.nodes.contains_key(a));
    }
    assert forall|a: Seq<char>|
        #[trigger] db.nodes.contains_key(a) && !touched(next.ops, a) implies next.nodes.contains_key(a)
        && next.nodes[a] == db.nodes[a] by {
        if touched(st.ops, a) {
            lemma_touched_more(st.ops, next.ops, a);
        }
        assert(a != n.address);
        assert(next.nodes.contains_key(a) <==> st.nodes.contains_key(a));
    }
}

proof fn lemma_nulled_tidy(db: DbView, st: StageView, kids: Seq<NodeView>, name: Seq<char>, dead: Set<Seq<char>>)
    requires
        tidy(db, st, dead),
        nulled(st, kids, name) is Ok,
        forall|k: int| 0 <= k < kids.len() ==> !dead.contains((#[trigger] kids[k]).address),
    ensures
        tidy(db, nulled(st, kids, name)->Ok_0, dead),
        extends(nulled(st, kids, name)->Ok_0.ops, st.ops),
        spares(nulled(st, kids, name)->Ok_0.ops, st.ops.len() as int),
        forall|k: int| 0 <= k < kids.len() ==> touched(nulled(st, kids, name)->Ok_0.ops, (#[trigger] kids[k]).address),
    decreases kids.len(),
{
    if kids.len() == 0 {
        assert(st.ops.take(st.ops.len() as int) =~= st.ops);
    } else {
        let n = kids[0];
        let m = cleared(n, name)->0;
        let s = replaced(st, n, m)->Ok_0;
        let rest = kids.drop_first();
        assert(s.nodes =~= st.nodes.insert(n.address, m));
        assert(orderly(s.nodes));
        lemma_tidy_step(db, st, n, s, OperationView::Insert(m), dead);
        assert forall|k: int| 0 <= k < rest.len() implies !dead.contains((#[trigger] rest[k]).address) by {
            assert(rest[k] == kids[k + 1]);
        }
        lemma_nulled_tidy(db, s, rest, name, dead);
        let t = nulled(s, rest, name)->Ok_0;
        lemma_extends_trans(st.ops, s.ops, t.ops);
        assert forall|i: int| st.ops.len() <= i < t.ops.len() implies !(#[trigger] t.ops[i] is Delete) by {
            if i < s.ops.len() {
                assert(t.ops.take(s.ops.len() as int)[i] == s.ops[i]);
            }
        }
        assert forall|k: int| 0 <= k < kids.len() implies touched(t.ops, (#[trigger] kids[k]).address) by {
            if k == 0 {
                lemma_touched_more(s.ops, t.ops, n.address);
            } else {
                assert(rest[k - 1] == kids[k]);
            }
        }
    }
}

proof fn lemma_followed_pursues(
    db: DbView,
    origin: StageView,
    st: StageView,
    n: NodeView,
    dead: Set<Seq<char>>,
    queue: Seq<NodeView>,
    i: int,
)
    requires
        0 <= i <= db.references.len(),
        tidy(db, st, dead),
        pursued_for(db, st.ops, queue, n, i),
        followed(db, origin, st, n, dead, queue, i) is Ok,
    ensures
        ({
            let (t, more) = followed(db, origin, st, n, dead, queue, i)->Ok_0;
            &&& tidy(db, t, dead)
            &&& extends(t.ops, st.ops)
            &&& spares(t.ops, st.ops.len() as int)
            &&& pursued_for(db, t.ops, more, n, db.references.len() as int)
            &&& forall|a: Seq<char>| queued(queue, a) ==> #[trigger] queued(more, a)
        }),
    decreases db.references.len() - i,
{
    if i == db.references.len() {
        assert(st.ops.take(st.ops.len() as int) =~= st.ops);
    } else {
        let r = db.references[i];
        if r.parent_kind != n.kind || referenced(n, r) is None {
            assert forall|x: int, a: Seq<char>| x < i + 1 && #[trigger] left_naming(db, st.ops, x, n, a) implies queued(
                queue,
                a,
            ) by {}
            lemma_followed_pursues(db, origin, st, n, dead, queue, i + 1);
        } else {
            let key = referenced(n, r)->0;
            let pick = is_child(db, origin, r, key, dead);
            let kids = listing(st.nodes, pick);
            let rows = lemma_listing_exists(st.nodes, pick);
            assert(is_listing(kids, st.nodes, pick, RankBy::Address, None, false));
            assert forall|a: Seq<char>| #[trigger] left_naming(db, st.ops, i, n, a) implies queued(kids, a) by {
                let m = db.nodes[a];
                assert(st.nodes.contains_key(a) && st.nodes[a] == m);
                assert(!dead.contains(a));
                assert(pick(m));
                assert(belongs(st.nodes, pick, RankBy::Address, None, false, m));
                let k = choose|k: int| 0 <= k < kids.len() && kids[k] == m;
                assert(kids[k].address == a);
            }
            if kids.len() == 0 {
                assert forall|x: int, a: Seq<char>| x < i + 1 && #[trigger] left_naming(db, st.ops, x, n, a) implies queued(
                    queue,
                    a,
                ) by {
                    if x == i {
                        assert(queued(kids, a));
                    }
                }
                lemma_followed_pursues(db, origin, st, n, dead, queue, i + 1);
            } else {
                match r.on_delete {
                    ReferentialAction::Cascade => {
                        let longer = queue + kids;
                        assert forall|a: Seq<char>| queued(queue, a) implies #[trigger] queued(longer, a) by {
                            let k = choose|k: int| 0 <= k < queue.len() && (#[trigger] queue[k]).address == a;
                            assert(longer[k] == queue[k]);
                        }
                        assert forall|a: Seq<char>| queued(kids, a) implies #[trigger] queued(longer, a) by {
                            let k = choose|k: int| 0 <= k < kids.len() && (#[trigger] kids[k]).address == a;
                            assert(longer[queue.len() + k] == kids[k]);
                        }
                        assert forall|x: int, a: Seq<char>|
                            x < i + 1 && #[trigger] left_naming(db, st.ops, x, n, a) implies queued(longer, a) by {
                            if x == i {
                                assert(queued(kids, a));
                            } else {
                                assert(queued(queue, a));
                            }
                        }
                        lemma_followed_pursues(db, origin, st, n, dead, longer, i + 1);
                    },
                    ReferentialAction::Restrict => {},
                    ReferentialAction::SetNull => {
                        let s = nulled(st, kids, r.field)->Ok_0;
                        assert forall|k: int| 0 <= k < kids.len() implies !dead.contains(
                            (#[trigger] kids[k]).address,
                        ) by {
                            assert(belongs(st.nodes, pick, RankBy::Address, None, false, kids[k]));
                        }
                        lemma_nulled_tidy(db, st, kids, r.field, dead);
                        lemma_pursued_for_more(db, st.ops, s.ops, queue, queue, n, i);
                        assert forall|x: int, a: Seq<char>|
                            x < i + 1 && #[trigger] left_naming(db, s.ops, x, n, a) implies queued(queue, a) by {
                            if x == i {
                                if touched(st.ops, a) {
                                    lemma_touched_more(st.ops, s.ops, a);
                                }
                                assert(left_naming(db, st.ops, i, n, a));
                                let k = choose|k: int| 0 <= k < kids.len() && (#[trigger] kids[k]).address == a;
                                assert(touched(s.ops, kids[k].address));
                            }
                        }
                        lemma_followed_pursues(db, origin, s, n, dead, queue, i + 1);
                        let t = followed(db, origin, s, n, dead, queue, i + 1)->Ok_0.0;
                        lemma_extends_trans(st.ops, s.ops, t.ops);
                        assert forall|k: int| st.ops.len() <= k < t.ops.len() implies !(#[trigger] t.ops[k] is Delete) by {
                            if k < s.ops.len() {
                                assert(t.ops.take(s.ops.len() as int)[k] == s.ops[k]);
                            }
                        }
                    },
                }
            }
        }
    }
}

proof fn lemma_cascaded_pursues(
    db: DbView,
    origin: StageView,
    st: StageView,
    queue: Seq<NodeView>,
    dead: Set<Seq<char>>,
    bound: nat,
)
    requires
        tidy(db, st, dead),
        pursued(db, st.ops, queue),
        cascaded(db, origin, st, queue, dead, bound) is Ok,
    ensures
        pursued(db, cascaded(db, origin, st, queue, dead, bound)->Ok_0.ops, Seq::empty()),
        forall|a: Seq<char>| #[trigger]
            doomed(queue, dead, a) ==> !cascaded(
                db,
                origin,
                st,
                queue,
                dead,
                bound,
            )->Ok_0.nodes.contains_key(a),
    decreases
            if bound + 1 >= st.ops.len() {
                bound + 1 - st.ops.len()
            } else {
                0
            },
            queue.len(),
{
    let end = cascaded(db, origin, st, queue, dead, bound)->Ok_0;
    if queue.len() == 0 {
        assert(queue =~= Seq::<NodeView>::empty());
        assert forall|a: Seq<char>| #[trigger] doomed(queue, dead, a) implies !end.nodes.contains_key(a) by {
            assert(dead.contains(a));
        }
    } else {
        let n = queue[0];
        let rest = queue.drop_first();
        assert forall|a: Seq<char>| a != n.address && queued(queue, a) implies #[trigger] queued(rest, a) by {
            let k = choose|k: int| 0 <= k < queue.len() && (#[trigger] queue[k]).address == a;
            assert(rest[k - 1] == queue[k]);
        }
        if dead.contains(n.address) {
            assert forall|i: int, g: NodeView, r: int, a: Seq<char>| #[trigger]
                deletes_at(st.ops, i, g) && #[trigger] left_naming(db, st.ops, r, g, a) implies queued(rest, a) by {
                assert(queued(queue, a));
                assert(a != n.address);
            }
            lemma_cascaded_pursues(db, origin, st, rest, dead, bound);
            assert forall|a: Seq<char>| #[trigger] doomed(queue, dead, a) implies !end.nodes.contains_key(a) by {
                assert(doomed(rest, dead, a));
            }
        } else {
            let s = removed(st, n)->Ok_0;
            let now = dead.insert(n.address);
            assert(s.nodes =~= st.nodes.remove(n.address));
            assert(orderly(s.nodes));
            lemma_tidy_step(db, st, n, s, OperationView::Delete(n.address), dead);
            assert(tidy(db, s, now));
            assert(pursued_for(db, s.ops, rest, n, 0));
            lemma_followed_pursues(db, origin, s, n, now, rest, 0);
            let (t, more) = followed(db, origin, s, n, now, rest, 0)->Ok_0;
            assert forall|i: int, g: NodeView, r: int, a: Seq<char>| #[trigger]
                deletes_at(t.ops, i, g) && #[trigger] left_naming(db, t.ops, r, g, a) implies queued(more, a) by {
                assert(i < s.ops.len());
                assert(t.ops.take(s.ops.len() as int)[i] == s.ops[i]);
                assert(t.ops.take(s.ops.len() as int)[i - 1] == s.ops[i - 1]);
                if touched(s.ops, a) {
                    lemma_touched_more(s.ops, t.ops, a);
                }
                if i == st.ops.len() + 1 {
                    assert(g == n);
                } else {
                    assert(s.ops.take(st.ops.len() as int)[i - 1] == st.ops[i - 1]);
                    if i < st.ops.len() {
                        assert(s.ops.take(st.ops.len() as int)[i] == st.ops[i]);
                    }
                    assert(deletes_at(st.ops, i, g));
                    if touched(st.ops, a) {
                        lemma_touched_more(st.ops, s.ops, a);
                    }
                    assert(left_naming(db, st.ops, r, g, a));
                    assert(queued(queue, a));
                    assert(a != n.address);
                    assert(queued(rest, a));
                }
            }
            assert(t.ops.len() > st.ops.len());
            lemma_cascaded_pursues(db, origin, t, more, now, bound);
            assert forall|a: Seq<char>| #[trigger] doomed(queue, dead, a) implies !end.nodes.contains_key(a) by {
                if a != n.address && queued(queue, a) {
                    assert(queued(rest, a));
                    assert(queued(more, a));
                }
                assert(doomed(more, now, a));
            }
        }
    }
}

/// When a node is deleted, with what references lead to, no node that is
/// left alone names one of those deleted.
pub proof fn law_deleted_are_not_named(db: DbView, stamp: u64, n: NodeView, bound: nat, i: int, g: NodeView, r: int, a: Seq<char>)
    requires
        orderly(db.nodes),
        delete_closure(db, fresh_stage(db, stamp), seq![n], bound) is Ok,
        deletes_at(delete_closure(db, fresh_stage(db, stamp), seq![n], bound)->Ok_0.ops, i, g),
    ensures
        !left_naming(db, delete_closure(db, fresh_stage(db, stamp), seq![n], bound)->Ok_0.ops, r, g, a),
{
    let st = fresh_stage(db, stamp);
    let end = delete_closure(db, st, seq![n], bound)->Ok_0;
    if db.references.len() > 0 {
        lemma_cascaded_pursues(db, st, st, seq![n], Set::empty(), bound);
        if left_naming(db, end.ops, r, g, a) {
            assert(queued(Seq::<NodeView>::empty(), a));
        }
    }
}

proof fn lemma_removed_all_gone(st: StageView, seeds: Seq<NodeView>, a: Seq<char>)
    requires
        removed_all(st, seeds) is Ok,
        queued(seeds, a) || !st.nodes.contains_key(a),
    ensures
        !removed_all(st, seeds)->Ok_0.nodes.contains_key(a),
    decreases seeds.len(),
{
    if seeds.len() > 0 {
        let rest = seeds.drop_first();
        let s = removed(st, seeds[0])->Ok_0;
        if a != seeds[0].address && queued(seeds, a) {
            let k = choose|k: int| 0 <= k < seeds.len() && (#[trigger] seeds[k]).address == a;
            assert(rest[k - 1] == seeds[k]);
        }
        lemma_removed_all_gone(s, rest, a);
    }
}

/// A node that is deleted is gone, whatever references lead to.
pub proof fn law_deleted_is_gone(db: DbView, stamp: u64, n: NodeView, bound: nat)
    requires
        orderly(db.nodes),
        delete_closure(db, fresh_stage(db, stamp), seq![n], bound) is Ok,
    ensures
        !delete_closure(db, fresh_stage(db, stamp), seq![n], bound)->Ok_0.nodes.contains_key(n.address),
{
    let st = fresh_stage(db, stamp);
    assert(seq![n][0].address == n.address);
    assert(queued(seq![n], n.address));
    if db.references.len() > 0 {
        lemma_cascaded_pursues(db, st, st, seq![n], Set::empty(), bound);
        assert(doomed(seq![n], Set::empty(), n.address));
    } else {
        lemma_removed_all_gone(st, seq![n], n.address);
    }
}

// ---------------------------------------------------------------------
// Writing
// ---------------------------------------------------------------------

/// The node is named so through the reference: by a text, by its address or
/// by the value of its field.
pub open spec fn named_so(n: NodeView, r: ReferenceDefView, key: JsonView) -> bool {
    ||| referenced(n, r) is Some && referenced(n, r)->0.text == key.text
    ||| r.parent_field is None && key.shape == ShapeView::Text(n.address)
    ||| r.parent_field matches Some(f) && order_code(field_of(n.data, f)) == order_code(Some(key))
}

/// There is a node that is named so.
pub open spec fn leads_to(db: DbView, r: ReferenceDefView, key: JsonView) -> bool {
    exists|a: Seq<char>| #[trigger]
        db.nodes.contains_key(a) && db.nodes[a].kind == r.parent_kind && named_so(db.nodes[a], r, key)
}

/// What the last operation that touches an address makes of it.
pub proof fn lemma_last(db: DbView, ops: Seq<OperationView>, j: int, a: Seq<char>)
    requires
        last_touch(ops, j, a),
    ensures
        ops[j] is Insert ==> applied_all(db, ops).nodes.contains_key(a) && applied_all(db, ops).nodes[a]
            == ops[j]->Insert_0,
        ops[j] is Delete ==> !applied_all(db, ops).nodes.contains_key(a),
    decreases ops.len(),
{
    let init = ops.drop_last();
    if j < ops.len() - 1 {
        assert(!touches(ops[ops.len() - 1], a));
        assert forall|k: int| j < k < init.len() implies !touches(#[trigger] init[k], a) by {
            assert(init[k] == ops[k]);
        }
        assert(last_touch(init, j, a));
        lemma_last(db, init, j, a);
    }
}

/// An address that is touched is touched for a last time.
pub proof fn lemma_has_last(ops: Seq<OperationView>, a: Seq<char>) -> (j: int)
    requires
        touched(ops, a),
    ensures
        last_touch(ops, j, a),
    decreases ops.len(),
{
    let init = ops.drop_last();
    if touches(ops[ops.len() - 1], a) {
        ops.len() - 1
    } else {
        let k = choose|k: int| 0 <= k < ops.len() && touches(#[trigger] ops[k], a);
        assert(touches(init[k], a));
        let j = lemma_has_last(init, a);
        assert forall|x: int| j < x < ops.len() implies !touches(#[trigger] ops[x], a) by {
            if x < init.len() {
                assert(init[x] == ops[x]);
            }
        }
        j
    }
}

/// A node that operations leave behind names only nodes that are there, if
/// the operations pass the check.
pub proof fn law_written_names_lead_somewhere(db: DbView, ops: Seq<OperationView>, i: int, r: int)
    requires
        references_ok(db, ops),
        declares_nothing(ops),
        orderly(db.nodes),
        stays(ops, i),
        0 <= r < db.references.len(),
        db.references[r].kind == ops[i]->Insert_0.kind,
        referencing(ops[i]->Insert_0, db.references[r]) is Some,
    ensures
        leads_to(applied_all(db, ops), db.references[r], referencing(ops[i]->Insert_0, db.references[r])->0),
{
    let def = db.references[r];
    let key = referencing(ops[i]->Insert_0, def)->0;
    let after = applied_all(db, ops);
    let gone = |a: Seq<char>| touched(ops, a);
    assert(!dangles(db, ops, i, r));
    if satisfied(ops, def, mark(def, key)) {
        let j = choose|j: int| #[trigger] satisfies(ops, j, def, mark(def, key));
        let m = ops[j]->Insert_0;
        lemma_last(db, ops, j, m.address);
        if def.parent_field is None {
            lemma_utf8_injective(referenced(m, def)->0.text, key.text);
        }
        assert(named_so(after.nodes[m.address], def, key));
        assert(after.nodes.contains_key(m.address));
    } else {
        assert(resolves(db, def, key, gone));
        let a = match def.parent_field {
            None => key.shape->Text_0,
            Some(f) => choose|a: Seq<char>|
                !gone(a) && #[trigger] db.nodes.contains_key(a) && db.nodes[a].kind == def.parent_kind && order_code(
                    field_of(db.nodes[a].data, f),
                ) == order_code(Some(key)),
        };
        assert(db.nodes.contains_key(a) && db.nodes[a].kind == def.parent_kind);
        assert(db.nodes[a].address == a);
        assert(!touched(ops, a));
        lemma_after(db, ops, a);
        assert(after.nodes.contains_key(a));
        assert(named_so(after.nodes[a], def, key));
    }
}

} // verus!
