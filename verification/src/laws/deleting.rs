//! What deleting leaves of the nodes.

use vstd::prelude::*;

use crate::defs::ReferentialAction;
use crate::tables::memory::{lemma_listing_exists, orderly};
use crate::tables::model::{DbView, Nodes};
use crate::tables::plan::{
    cascaded, delete_closure, followed, is_child, listing, nulled, removed, removed_all, replaced, StageView,
};
use crate::tables::refs::referenced;
use crate::tables::rows::{belongs, is_listing, live, rank, RankBy};
use crate::transaction::cleared;
use crate::types::{EdgeIdView, NodeView};
use crate::wal::OperationView;

verus! {

/// The nodes have the same place, address, kind, owner, visibility and
/// claimant.
pub open spec fn same_but_data(m: NodeView, n: NodeView) -> bool {
    &&& m.coordinate == n.coordinate
    &&& m.address == n.address
    &&& m.kind == n.kind
    &&& m.owner == n.owner
    &&& m.visibility == n.visibility
    &&& m.claimed_by == n.claimed_by
}

/// Every node that is left was there, and is the same but for its data.
pub open spec fn left_of(before: Nodes, after: Nodes) -> bool {
    forall|a: Seq<char>| #[trigger]
        after.contains_key(a) ==> before.contains_key(a) && same_but_data(after[a], before[a])
}

/// What the steps so far deleted is not there.
pub open spec fn gone_ok(st: StageView) -> bool {
    &&& forall|a: Seq<char>| #[trigger] st.gone.contains(a) ==> !st.nodes.contains_key(a)
    &&& forall|id: EdgeIdView| #[trigger] st.gone_edges.contains(id) ==> !st.edges.contains_key(id)
}

/// No two are at one address.
pub open spec fn apart(kids: Seq<NodeView>) -> bool {
    forall|i: int, j: int| 0 <= i < j < kids.len() ==> (#[trigger] kids[i]).address != (#[trigger] kids[j]).address
}

/// All are there.
pub open spec fn all_live(nodes: Nodes, kids: Seq<NodeView>) -> bool {
    forall|i: int| 0 <= i < kids.len() ==> live(nodes, #[trigger] kids[i])
}

pub proof fn lemma_left_trans(a: Nodes, b: Nodes, c: Nodes)
    requires
        left_of(a, b),
        left_of(b, c),
    ensures
        left_of(a, c),
{
    assert forall|x: Seq<char>| #[trigger] c.contains_key(x) implies a.contains_key(x) && same_but_data(c[x], a[x]) by {
        assert(b.contains_key(x));
    }
}

pub proof fn lemma_nulled_left(st: StageView, kids: Seq<NodeView>, name: Seq<char>)
    requires
        orderly(st.nodes),
        apart(kids),
        all_live(st.nodes, kids),
        nulled(st, kids, name) is Ok,
    ensures
        left_of(st.nodes, nulled(st, kids, name)->Ok_0.nodes),
        orderly(nulled(st, kids, name)->Ok_0.nodes),
        gone_ok(st) ==> gone_ok(nulled(st, kids, name)->Ok_0),
        nulled(st, kids, name)->Ok_0.edges == st.edges,
        nulled(st, kids, name)->Ok_0.gone_edges == st.gone_edges,
        forall|a: Seq<char>|
            !#[trigger] in_queue(kids, a) ==> (nulled(st, kids, name)->Ok_0.nodes.contains_key(a)
                <==> st.nodes.contains_key(a)) && (st.nodes.contains_key(a) ==> nulled(st, kids, name)->Ok_0.nodes[a] == st.nodes[a]),
    decreases kids.len(),
{
    if kids.len() > 0 {
        let n = kids[0];
        let m = cleared(n, name)->0;
        let s = replaced(st, n, m)->Ok_0;
        let rest = kids.drop_first();
        assert(live(st.nodes, n));
        assert(s.nodes == st.nodes.insert(m.address, m));
        assert(s.nodes.dom() =~= st.nodes.dom().insert(m.address));
        assert forall|i: int| 0 <= i < rest.len() implies live(s.nodes, #[trigger] rest[i]) by {
            assert(rest[i] == kids[i + 1]);
            assert(kids[0].address != kids[i + 1].address);
            assert(live(st.nodes, kids[i + 1]));
        }
        assert forall|i: int, j: int| 0 <= i < j < rest.len() implies (#[trigger] rest[i]).address != (
        #[trigger] rest[j]).address by {
            assert(rest[i] == kids[i + 1] && rest[j] == kids[j + 1]);
        }
        lemma_nulled_left(s, rest, name);
        let t = nulled(s, rest, name)->Ok_0;
        assert(left_of(st.nodes, s.nodes));
        lemma_left_trans(st.nodes, s.nodes, t.nodes);
        assert forall|a: Seq<char>| !#[trigger] in_queue(kids, a) implies (t.nodes.contains_key(a)
            <==> st.nodes.contains_key(a)) && (st.nodes.contains_key(a) ==> t.nodes[a] == st.nodes[a]) by {
            assert(kids[0].address != a);
            if in_queue(rest, a) {
                let i = choose|i: int| 0 <= i < rest.len() && (#[trigger] rest[i]).address == a;
                assert(kids[i + 1].address == a);
            }
        }
    }
}

/// The children of a node, as they are listed.
pub proof fn lemma_kids(nodes: Nodes, pick: spec_fn(NodeView) -> bool)
    requires
        orderly(nodes),
    ensures
        is_listing(listing(nodes, pick), nodes, pick, RankBy::Address, None, false),
        apart(listing(nodes, pick)),
        all_live(nodes, listing(nodes, pick)),
{
    let rows = lemma_listing_exists(nodes, pick);
    let kids = listing(nodes, pick);
    assert(is_listing(kids, nodes, pick, RankBy::Address, None, false));
    assert forall|i: int| 0 <= i < kids.len() implies live(nodes, #[trigger] kids[i]) by {
        assert(belongs(nodes, pick, RankBy::Address, None, false, kids[i]));
    }
    assert forall|i: int, j: int| 0 <= i < j < kids.len() implies (#[trigger] kids[i]).address != (
    #[trigger] kids[j]).address by {
        crate::bytes::lemma_lt_total(rank(RankBy::Address, kids[i]), rank(RankBy::Address, kids[j]));
    }
}

pub proof fn lemma_followed_left(
    db: DbView,
    origin: StageView,
    st: StageView,
    n: NodeView,
    dead: Set<Seq<char>>,
    queue: Seq<NodeView>,
    i: int,
)
    requires
        orderly(st.nodes),
        followed(db, origin, st, n, dead, queue, i) is Ok,
    ensures
        ({
            let (t, more) = followed(db, origin, st, n, dead, queue, i)->Ok_0;
            &&& left_of(st.nodes, t.nodes)
            &&& orderly(t.nodes)
            &&& gone_ok(st) ==> gone_ok(t)
            &&& t.edges == st.edges
            &&& t.gone_edges == st.gone_edges
            &&& queue.len() <= more.len()
            &&& forall|k: int| 0 <= k < queue.len() ==> #[trigger] more[k] == queue[k]
        }),
    decreases db.references.len() - i,
{
    if 0 <= i < db.references.len() {
        let r = db.references[i];
        if r.parent_kind != n.kind || referenced(n, r) is None {
            lemma_followed_left(db, origin, st, n, dead, queue, i + 1);
        } else {
            let pick = is_child(db, origin, r, referenced(n, r)->0, dead);
            let kids = listing(st.nodes, pick);
            lemma_kids(st.nodes, pick);
            if kids.len() == 0 {
                lemma_followed_left(db, origin, st, n, dead, queue, i + 1);
            } else {
                match r.on_delete {
                    ReferentialAction::Cascade => {
                        lemma_followed_left(db, origin, st, n, dead, queue + kids, i + 1);
                        let more = followed(db, origin, st, n, dead, queue + kids, i + 1)->Ok_0.1;
                        assert forall|k: int| 0 <= k < queue.len() implies #[trigger] more[k] == queue[k] by {
                            assert(more[k] == (queue + kids)[k]);
                        }
                    },
                    ReferentialAction::Restrict => {},
                    ReferentialAction::SetNull => {
                        lemma_nulled_left(st, kids, r.field);
                        let s = nulled(st, kids, r.field)->Ok_0;
                        lemma_followed_left(db, origin, s, n, dead, queue, i + 1);
                        let t = followed(db, origin, s, n, dead, queue, i + 1)->Ok_0.0;
                        lemma_left_trans(st.nodes, s.nodes, t.nodes);
                    },
                }
            }
        }
    }
}

/// A node at the address is in the queue.
pub open spec fn in_queue(queue: Seq<NodeView>, a: Seq<char>) -> bool {
    exists|k: int| 0 <= k < queue.len() && (#[trigger] queue[k]).address == a
}

pub proof fn lemma_cascaded_left(
    db: DbView,
    origin: StageView,
    st: StageView,
    queue: Seq<NodeView>,
    dead: Set<Seq<char>>,
    bound: nat,
)
    requires
        orderly(st.nodes),
        forall|a: Seq<char>| #[trigger] dead.contains(a) ==> !st.nodes.contains_key(a),
        cascaded(db, origin, st, queue, dead, bound) is Ok,
    ensures
        ({
            let t = cascaded(db, origin, st, queue, dead, bound)->Ok_0;
            &&& left_of(st.nodes, t.nodes)
            &&& orderly(t.nodes)
            &&& gone_ok(st) ==> gone_ok(t)
            &&& t.edges == st.edges
            &&& t.gone_edges == st.gone_edges
            &&& begins_with(t.ops, st.ops)
            &&& forall|a: Seq<char>| #[trigger] in_queue(queue, a) ==> !t.nodes.contains_key(a)
        }),
    decreases
            if bound + 1 >= st.ops.len() {
                bound + 1 - st.ops.len()
            } else {
                0
            },
            queue.len(),
{
    let t = cascaded(db, origin, st, queue, dead, bound)->Ok_0;
    if queue.len() > 0 {
        let n = queue[0];
        let rest = queue.drop_first();
        assert forall|a: Seq<char>| #[trigger] in_queue(queue, a) && a != n.address implies in_queue(rest, a) by {
            let k = choose|k: int| 0 <= k < queue.len() && (#[trigger] queue[k]).address == a;
            assert(rest[k - 1] == queue[k]);
        }
        if dead.contains(n.address) {
            lemma_cascaded_left(db, origin, st, rest, dead, bound);
            assert forall|a: Seq<char>| #[trigger] in_queue(queue, a) implies !t.nodes.contains_key(
                a,
            ) by {
                if a == n.address {
                    assert(!st.nodes.contains_key(a));
                } else {
                    assert(in_queue(rest, a));
                }
            }
        } else {
            let now = dead.insert(n.address);
            let s = removed(st, n)->Ok_0;
            assert(s.nodes == st.nodes.remove(n.address));
            assert(s.nodes.dom() =~= st.nodes.dom().remove(n.address));
            assert(orderly(s.nodes));
            assert(left_of(st.nodes, s.nodes));
            lemma_followed_left(db, origin, s, n, now, rest, 0);
            let (u, more) = followed(db, origin, s, n, now, rest, 0)->Ok_0;
            lemma_left_trans(st.nodes, s.nodes, u.nodes);
            lemma_followed_grows(db, origin, s, n, now, rest, 0);
            assert(u.ops.len() > st.ops.len());
            assert forall|a: Seq<char>| #[trigger] now.contains(a) implies !u.nodes.contains_key(a) by {
                if a != n.address {
                    assert(dead.contains(a));
                }
                assert(!s.nodes.contains_key(a));
            }
            lemma_cascaded_left(db, origin, u, more, now, bound);
            lemma_left_trans(st.nodes, u.nodes, t.nodes);
            assert(begins_with(s.ops, st.ops));
            lemma_begins_trans(st.ops, s.ops, u.ops);
            lemma_begins_trans(st.ops, u.ops, t.ops);
            assert forall|a: Seq<char>| #[trigger] in_queue(queue, a) implies !t.nodes.contains_key(
                a,
            ) by {
                if a == n.address {
                    assert(!u.nodes.contains_key(a));
                } else {
                    assert(in_queue(rest, a));
                    let k = choose|k: int| 0 <= k < rest.len() && (#[trigger] rest[k]).address == a;
                    assert(more[k] == rest[k]);
                    assert(in_queue(more, a));
                }
            }
        }
    }
}

/// The operations begin with the others, and those that follow change nodes
/// alone.
pub open spec fn begins_with(ops: Seq<OperationView>, first: Seq<OperationView>) -> bool {
    &&& first.len() <= ops.len()
    &&& forall|i: int| 0 <= i < first.len() ==> #[trigger] ops[i] == first[i]
    &&& forall|i: int|
        first.len() <= i < ops.len() ==> #[trigger] ops[i] is Archive || ops[i] is Insert || ops[i] is Delete
}

proof fn lemma_begins_trans(a: Seq<OperationView>, b: Seq<OperationView>, c: Seq<OperationView>)
    requires
        begins_with(b, a),
        begins_with(c, b),
    ensures
        begins_with(c, a),
{
    assert forall|i: int| 0 <= i < a.len() implies #[trigger] c[i] == a[i] by {
        assert(b[i] == a[i]);
    }
    assert forall|i: int| a.len() <= i < c.len() implies #[trigger] c[i] is Archive || c[i] is Insert || c[i] is Delete by {
        if i < b.len() {
            assert(c[i] == b[i]);
        }
    }
}

pub proof fn lemma_nulled_grows(st: StageView, kids: Seq<NodeView>, name: Seq<char>)
    requires
        nulled(st, kids, name) is Ok,
    ensures
        begins_with(nulled(st, kids, name)->Ok_0.ops, st.ops),
    decreases kids.len(),
{
    if kids.len() > 0 {
        let s = replaced(st, kids[0], cleared(kids[0], name)->0)->Ok_0;
        lemma_nulled_grows(s, kids.drop_first(), name);
        assert(begins_with(s.ops, st.ops));
        lemma_begins_trans(st.ops, s.ops, nulled(s, kids.drop_first(), name)->Ok_0.ops);
    }
}

pub proof fn lemma_followed_grows(
    db: DbView,
    origin: StageView,
    st: StageView,
    n: NodeView,
    dead: Set<Seq<char>>,
    queue: Seq<NodeView>,
    i: int,
)
    requires
        followed(db, origin, st, n, dead, queue, i) is Ok,
    ensures
        begins_with(followed(db, origin, st, n, dead, queue, i)->Ok_0.0.ops, st.ops),
    decreases db.references.len() - i,
{
    if 0 <= i < db.references.len() {
        let r = db.references[i];
        if r.parent_kind != n.kind || referenced(n, r) is None {
            lemma_followed_grows(db, origin, st, n, dead, queue, i + 1);
        } else {
            let kids = listing(st.nodes, is_child(db, origin, r, referenced(n, r)->0, dead));
            if kids.len() == 0 {
                lemma_followed_grows(db, origin, st, n, dead, queue, i + 1);
            } else {
                match r.on_delete {
                    ReferentialAction::Cascade => {
                        lemma_followed_grows(db, origin, st, n, dead, queue + kids, i + 1);
                    },
                    ReferentialAction::Restrict => {},
                    ReferentialAction::SetNull => {
                        lemma_nulled_grows(st, kids, r.field);
                        let s = nulled(st, kids, r.field)->Ok_0;
                        lemma_followed_grows(db, origin, s, n, dead, queue, i + 1);
                        lemma_begins_trans(
                            st.ops,
                            s.ops,
                            followed(db, origin, s, n, dead, queue, i + 1)->Ok_0.0.ops,
                        );
                    },
                }
            }
        }
    }
}

proof fn lemma_removed_all_left(st: StageView, seeds: Seq<NodeView>)
    requires
        orderly(st.nodes),
        removed_all(st, seeds) is Ok,
    ensures
        ({
            let t = removed_all(st, seeds)->Ok_0;
            &&& left_of(st.nodes, t.nodes)
            &&& orderly(t.nodes)
            &&& gone_ok(st) ==> gone_ok(t)
            &&& t.edges == st.edges
            &&& t.gone_edges == st.gone_edges
            &&& begins_with(t.ops, st.ops)
            &&& forall|a: Seq<char>|
                (#[trigger] t.nodes.contains_key(a) <==> st.nodes.contains_key(a) && !in_queue(seeds, a)) && (
                t.nodes.contains_key(a) ==> t.nodes[a] == st.nodes[a])
        }),
    decreases seeds.len(),
{
    if seeds.len() > 0 {
        let rest = seeds.drop_first();
        let s = removed(st, seeds[0])->Ok_0;
        assert(s.nodes == st.nodes.remove(seeds[0].address));
        assert(s.nodes.dom() =~= st.nodes.dom().remove(seeds[0].address));
        lemma_removed_all_left(s, rest);
        let t = removed_all(s, rest)->Ok_0;
        assert(left_of(st.nodes, s.nodes));
        lemma_left_trans(st.nodes, s.nodes, t.nodes);
        assert(begins_with(s.ops, st.ops));
        lemma_begins_trans(st.ops, s.ops, t.ops);
        assert forall|a: Seq<char>| #[trigger] in_queue(seeds, a) <==> a == seeds[0].address || in_queue(rest, a) by {
            if in_queue(seeds, a) && a != seeds[0].address {
                let k = choose|k: int| 0 <= k < seeds.len() && (#[trigger] seeds[k]).address == a;
                assert(rest[k - 1] == seeds[k]);
            }
            if in_queue(rest, a) {
                let k = choose|k: int| 0 <= k < rest.len() && (#[trigger] rest[k]).address == a;
                assert(seeds[k + 1] == rest[k]);
            }
        }
        assert forall|a: Seq<char>|
            (#[trigger] t.nodes.contains_key(a) <==> st.nodes.contains_key(a) && !in_queue(seeds, a)) && (
            t.nodes.contains_key(a) ==> t.nodes[a] == st.nodes[a]) by {
            assert(in_queue(seeds, a) <==> a == seeds[0].address || in_queue(rest, a));
        }
    } else {
        assert forall|a: Seq<char>| !#[trigger] in_queue(seeds, a) by {}
    }
}

/// What is left when nodes are deleted, with what references lead to: nothing
/// at their addresses; elsewhere nodes that were there, the same but for their
/// data; all of them, just as they were, where nothing is declared. Edges
/// stay.
pub proof fn lemma_delete_leaves(db: DbView, st: StageView, seeds: Seq<NodeView>, bound: nat)
    requires
        orderly(st.nodes),
        delete_closure(db, st, seeds, bound) is Ok,
    ensures
        ({
            let t = delete_closure(db, st, seeds, bound)->Ok_0;
            &&& left_of(st.nodes, t.nodes)
            &&& orderly(t.nodes)
            &&& gone_ok(st) ==> gone_ok(t)
            &&& t.edges == st.edges
            &&& t.gone_edges == st.gone_edges
            &&& begins_with(t.ops, st.ops)
            &&& forall|k: int| 0 <= k < seeds.len() ==> !t.nodes.contains_key((#[trigger] seeds[k]).address)
            &&& db.references.len() == 0 ==> forall|a: Seq<char>|
                !#[trigger] in_queue(seeds, a) ==> (t.nodes.contains_key(a) <==> st.nodes.contains_key(a)) && (
                t.nodes.contains_key(a) ==> t.nodes[a] == st.nodes[a])
        }),
{
    let t = delete_closure(db, st, seeds, bound)->Ok_0;
    if db.references.len() == 0 {
        lemma_removed_all_left(st, seeds);
    } else {
        lemma_cascaded_left(db, st, st, seeds, Set::empty(), bound);
    }
    assert forall|k: int| 0 <= k < seeds.len() implies !t.nodes.contains_key((#[trigger] seeds[k]).address) by {
        assert(in_queue(seeds, seeds[k].address));
    }
}

} // verus!
