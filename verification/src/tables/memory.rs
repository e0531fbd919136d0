//! What a transaction makes of the states that it replaces.

use vstd::prelude::*;

use crate::btree::walker::past;
use crate::defs::ReferentialAction;
use crate::filter::Filter;
use crate::tables::model::{applied_all, lemma_nodes_at, lemma_put_sorted, name_slot, names_sorted, DbView, Nodes};
use crate::tables::plan::{
    archived, cascaded, chosen, delete_closure, followed, fresh_stage, is_child, listing, nulled, removed, removed_all,
    replaced, selection_deleted, stepped, versioned, within, worked_out, writable, StageView,
};
use crate::tables::read::node_in;
use crate::tables::refs::referenced;
use crate::tables::rows::{belongs, is_listing, live, rank, scanned, RankBy};
use crate::tables::Tables;
use crate::transaction::{cleared, set_if, set_view, TxOperation};
use crate::types::{superseded, HistoryView, Node, NodeView};
use crate::wal::OperationView;

verus! {

// ---------------------------------------------------------------------
// Listings
// ---------------------------------------------------------------------

/// The rows' addresses.
pub open spec fn row_addresses(rows: Seq<NodeView>) -> Seq<Seq<char>> {
    Seq::new(rows.len(), |i: int| rows[i].address)
}

/// Finitely many nodes can be listed.
pub proof fn lemma_listing_exists(nodes: Nodes, pick: spec_fn(NodeView) -> bool) -> (rows: Seq<NodeView>)
    requires
        nodes.dom().finite(),
        forall|a: Seq<char>| #[trigger] nodes.contains_key(a) ==> nodes[a].address == a,
    ensures
        is_listing(rows, nodes, pick, RankBy::Address, None, false),
    decreases nodes.dom().len(),
{
    if nodes.dom().len() == 0 {
        assert(nodes.dom() =~= Set::<Seq<char>>::empty());
        assert forall|n: NodeView| !#[trigger] belongs(nodes, pick, RankBy::Address, None, false, n) by {
            assert(!nodes.dom().contains(n.address));
        }
        Seq::empty()
    } else {
        let a = nodes.dom().choose();
        let n = nodes[a];
        let rest = nodes.remove(a);
        let rows = lemma_listing_exists(rest, pick);
        assert forall|m: NodeView| #[trigger]
            belongs(nodes, pick, RankBy::Address, None, false, m) <==> belongs(
                rest,
                pick,
                RankBy::Address,
                None,
                false,
                m,
            ) || (m == n && pick(n)) by {}
        assert forall|i: int| 0 <= i < rows.len() implies belongs(
            nodes,
            pick,
            RankBy::Address,
            None,
            false,
            #[trigger] rows[i],
        ) && rows[i].address != a by {
            assert(belongs(rest, pick, RankBy::Address, None, false, rows[i]));
        }
        if pick(n) {
            let names = row_addresses(rows);
            assert(names_sorted(names)) by {
                assert forall|i: int, j: int| 0 <= i < j < names.len() implies crate::text::text_lt(
                    #[trigger] names[i],
                    #[trigger] names[j],
                ) by {
                    assert(rows[i].address == names[i]);
                    assert(rows[j].address == names[j]);
                }
            }
            lemma_put_sorted(names, a);
            let at = name_slot(names, a);
            if at < names.len() {
                assert(names[at] == rows[at].address);
            }
            let all = rows.insert(at, n);
            assert forall|i: int, j: int| 0 <= i < j < all.len() implies past(
                rank(RankBy::Address, #[trigger] all[i]),
                rank(RankBy::Address, #[trigger] all[j]),
                false,
            ) by {
                let p = names.insert(at, a);
                assert(p[i] == all[i].address);
                assert(p[j] == all[j].address);
                assert(crate::text::text_lt(p[i], p[j]));
            }
            assert forall|i: int| 0 <= i < all.len() implies belongs(
                nodes,
                pick,
                RankBy::Address,
                None,
                false,
                #[trigger] all[i],
            ) by {
                if i < at {
                    assert(all[i] == rows[i]);
                } else if i > at {
                    assert(all[i] == rows[i - 1]);
                }
            }
            assert forall|m: NodeView| #[trigger] belongs(nodes, pick, RankBy::Address, None, false, m) implies all.contains(
                m,
            ) by {
                if m == n {
                    assert(all[at] == n);
                } else {
                    assert(belongs(rest, pick, RankBy::Address, None, false, m));
                    let i = choose|i: int| 0 <= i < rows.len() && rows[i] == m;
                    if i < at {
                        assert(all[i] == m);
                    } else {
                        assert(all[i + 1] == m);
                    }
                }
            }
            all
        } else {
            assert forall|m: NodeView| #[trigger] belongs(nodes, pick, RankBy::Address, None, false, m) implies rows.contains(
                m,
            ) by {
                assert(belongs(rest, pick, RankBy::Address, None, false, m));
            }
            rows
        }
    }
}

/// The rows of a listing are nodes.
proof fn lemma_rows_live(nodes: Nodes, pick: spec_fn(NodeView) -> bool)
    requires
        orderly(nodes),
    ensures
        forall|i: int| 0 <= i < listing(nodes, pick).len() ==> live(nodes, #[trigger] listing(nodes, pick)[i]),
{
    let rows = lemma_listing_exists(nodes, pick);
    let all = listing(nodes, pick);
    assert(is_listing(all, nodes, pick, RankBy::Address, None, false));
    assert forall|i: int| 0 <= i < all.len() implies live(nodes, #[trigger] all[i]) by {
        assert(belongs(nodes, pick, RankBy::Address, None, false, all[i]));
    }
}

impl Tables {
    /// There are finitely many nodes, each at its address.
    pub proof fn lemma_orderly(&self)
        requires
            self.inv(),
        ensures
            orderly(self@.nodes),
    {
        let nodes = self@.nodes;
        let rows = self.lemma_all_rows();
        lemma_nodes_at(self.primary@, nodes, self.store@, Seq::empty());
        let names = row_addresses(rows);
        assert(nodes.dom().subset_of(names.to_set())) by {
            assert forall|a: Seq<char>| nodes.dom().contains(a) implies names.to_set().contains(a) by {
                let n = nodes[a];
                assert(belongs(nodes, scanned(None, None), RankBy::Address, None, false, n));
                let i = choose|i: int| 0 <= i < rows.len() && rows[i] == n;
                assert(names[i] == a);
            }
        }
        vstd::set_lib::lemma_len_subset(nodes.dom(), names.to_set());
    }
}

// ---------------------------------------------------------------------
// States kept
// ---------------------------------------------------------------------

/// Finitely many nodes, each at its address.
pub open spec fn orderly(nodes: Nodes) -> bool {
    &&& nodes.dom().finite()
    &&& forall|a: Seq<char>| #[trigger] nodes.contains_key(a) ==> nodes[a].address == a
}

/// An operation keeps the node's state.
pub open spec fn keeps_state(op: OperationView, n: NodeView) -> bool {
    op matches OperationView::Archive(h) && h.address == n.address && h.node == n
}

/// One of the operations keeps the node's state.
pub open spec fn recorded(ops: Seq<OperationView>, n: NodeView) -> bool {
    exists|i: int| 0 <= i < ops.len() && keeps_state(#[trigger] ops[i], n)
}

/// A node is as it was, or its state is kept.
pub open spec fn recalled(db: DbView, st: StageView, a: Seq<char>) -> bool {
    db.nodes.contains_key(a) ==> live(st.nodes, db.nodes[a]) || recorded(st.ops, db.nodes[a])
}

/// Every node is as it was, or its state is kept.
pub open spec fn recalls(db: DbView, st: StageView) -> bool {
    &&& orderly(db.nodes)
    &&& orderly(st.nodes)
    &&& forall|a: Seq<char>| #[trigger] recalled(db, st, a)
}

/// The node is what is there, or what was there before it is kept already.
spec fn sure(db: DbView, st: StageView, n: NodeView) -> bool {
    ||| live(st.nodes, n)
    ||| !db.nodes.contains_key(n.address)
    ||| recorded(st.ops, db.nodes[n.address])
}

spec fn all_sure(db: DbView, st: StageView, rows: Seq<NodeView>) -> bool {
    forall|i: int| 0 <= i < rows.len() ==> sure(db, st, #[trigger] rows[i])
}

proof fn lemma_recorded_push(ops: Seq<OperationView>, more: Seq<OperationView>, n: NodeView)
    requires
        ops.len() <= more.len(),
        more.take(ops.len() as int) == ops,
        recorded(ops, n),
    ensures
        recorded(more, n),
{
    let i = choose|i: int| 0 <= i < ops.len() && keeps_state(#[trigger] ops[i], n);
    assert(more.take(ops.len() as int)[i] == more[i]);
}

/// A state is kept, and its node then replaced or taken out.
proof fn lemma_step(db: DbView, st: StageView, n: NodeView, next: StageView, op: OperationView)
    requires
        recalls(db, st),
        sure(db, st, n),
        archived(st, n) is Ok,
        next.ops == archived(st, n)->Ok_0.ops.push(op),
        orderly(next.nodes),
        forall|a: Seq<char>|
            a != n.address ==> (#[trigger] next.nodes.contains_key(a) <==> st.nodes.contains_key(a)) && (
            next.nodes.contains_key(a) ==> next.nodes[a] == st.nodes[a]),
    ensures
        recalls(db, next),
        forall|m: NodeView| sure(db, st, m) ==> #[trigger] sure(db, next, m),
{
    let kept = OperationView::Archive(superseded(n, st.stamp));
    assert(next.ops.take(st.ops.len() as int) =~= st.ops);
    assert(next.ops[st.ops.len() as int] == kept);
    assert(keeps_state(kept, n));
    assert(recorded(next.ops, n));
    assert forall|m: NodeView| recorded(st.ops, m) implies #[trigger] recorded(next.ops, m) by {
        lemma_recorded_push(st.ops, next.ops, m);
    }
    assert(recalled(db, st, n.address));
    assert forall|a: Seq<char>| #[trigger] recalled(db, next, a) by {
        assert(recalled(db, st, a));
        if db.nodes.contains_key(a) && a != n.address {
            assert(next.nodes.contains_key(a) <==> st.nodes.contains_key(a));
        }
    }
    assert forall|m: NodeView| sure(db, st, m) implies #[trigger] sure(db, next, m) by {
        if m.address == n.address {
            assert(recalled(db, next, m.address));
        } else {
            assert(next.nodes.contains_key(m.address) <==> st.nodes.contains_key(m.address));
        }
    }
}

proof fn lemma_replaced_recalls(db: DbView, st: StageView, n: NodeView, next: NodeView)
    requires
        recalls(db, st),
        sure(db, st, n),
        next.address == n.address,
        replaced(st, n, next) is Ok,
    ensures
        recalls(db, replaced(st, n, next)->Ok_0),
        forall|m: NodeView| sure(db, st, m) ==> #[trigger] sure(db, replaced(st, n, next)->Ok_0, m),
{
    let s = replaced(st, n, next)->Ok_0;
    assert(s.nodes =~= st.nodes.insert(n.address, next));
    assert(orderly(s.nodes));
    lemma_step(db, st, n, s, OperationView::Insert(next));
}

proof fn lemma_removed_recalls(db: DbView, st: StageView, n: NodeView)
    requires
        recalls(db, st),
        sure(db, st, n),
        removed(st, n) is Ok,
    ensures
        recalls(db, removed(st, n)->Ok_0),
        forall|m: NodeView| sure(db, st, m) ==> #[trigger] sure(db, removed(st, n)->Ok_0, m),
{
    let s = removed(st, n)->Ok_0;
    assert(s.nodes =~= st.nodes.remove(n.address));
    assert(orderly(s.nodes));
    lemma_step(db, st, n, s, OperationView::Delete(n.address));
}

proof fn lemma_removed_all_recalls(db: DbView, st: StageView, seeds: Seq<NodeView>)
    requires
        recalls(db, st),
        all_sure(db, st, seeds),
        removed_all(st, seeds) is Ok,
    ensures
        recalls(db, removed_all(st, seeds)->Ok_0),
    decreases seeds.len(),
{
    if seeds.len() > 0 {
        let rest = seeds.drop_first();
        lemma_removed_recalls(db, st, seeds[0]);
        let s = removed(st, seeds[0])->Ok_0;
        assert forall|i: int| 0 <= i < rest.len() implies sure(db, s, #[trigger] rest[i]) by {
            assert(sure(db, st, seeds[i + 1]));
        }
        lemma_removed_all_recalls(db, s, rest);
    }
}

proof fn lemma_nulled_recalls(db: DbView, st: StageView, kids: Seq<NodeView>, name: Seq<char>, queue: Seq<NodeView>)
    requires
        recalls(db, st),
        all_sure(db, st, kids),
        all_sure(db, st, queue),
        nulled(st, kids, name) is Ok,
    ensures
        recalls(db, nulled(st, kids, name)->Ok_0),
        all_sure(db, nulled(st, kids, name)->Ok_0, queue),
    decreases kids.len(),
{
    if kids.len() > 0 {
        let next = cleared(kids[0], name)->0;
        let rest = kids.drop_first();
        lemma_replaced_recalls(db, st, kids[0], next);
        let s = replaced(st, kids[0], next)->Ok_0;
        assert forall|i: int| 0 <= i < rest.len() implies sure(db, s, #[trigger] rest[i]) by {
            assert(sure(db, st, kids[i + 1]));
        }
        assert forall|i: int| 0 <= i < queue.len() implies sure(db, s, #[trigger] queue[i]) by {
            assert(sure(db, st, queue[i]));
        }
        lemma_nulled_recalls(db, s, rest, name, queue);
    }
}

proof fn lemma_followed_recalls(
    db: DbView,
    origin: StageView,
    st: StageView,
    n: NodeView,
    dead: Set<Seq<char>>,
    queue: Seq<NodeView>,
    i: int,
)
    requires
        recalls(db, st),
        all_sure(db, st, queue),
        followed(db, origin, st, n, dead, queue, i) is Ok,
    ensures
        recalls(db, followed(db, origin, st, n, dead, queue, i)->Ok_0.0),
        all_sure(
            db,
            followed(db, origin, st, n, dead, queue, i)->Ok_0.0,
            followed(db, origin, st, n, dead, queue, i)->Ok_0.1,
        ),
    decreases db.references.len() - i,
{
    if 0 <= i < db.references.len() {
        let r = db.references[i];
        if r.parent_kind != n.kind || referenced(n, r) is None {
            lemma_followed_recalls(db, origin, st, n, dead, queue, i + 1);
        } else {
            let pick = is_child(db, origin, r, referenced(n, r)->0, dead);
            let kids = listing(st.nodes, pick);
            lemma_rows_live(st.nodes, pick);
            assert forall|k: int| 0 <= k < kids.len() implies sure(db, st, #[trigger] kids[k]) by {}
            if kids.len() == 0 {
                lemma_followed_recalls(db, origin, st, n, dead, queue, i + 1);
            } else {
                match r.on_delete {
                    ReferentialAction::Cascade => {
                        let more = queue + kids;
                        assert forall|k: int| 0 <= k < more.len() implies sure(db, st, #[trigger] more[k]) by {
                            if k < queue.len() {
                                assert(more[k] == queue[k]);
                            } else {
                                assert(more[k] == kids[k - queue.len()]);
                            }
                        }
                        lemma_followed_recalls(db, origin, st, n, dead, more, i + 1);
                    },
                    ReferentialAction::Restrict => {},
                    ReferentialAction::SetNull => {
                        lemma_nulled_recalls(db, st, kids, r.field, queue);
                        lemma_followed_recalls(db, origin, nulled(st, kids, r.field)->Ok_0, n, dead, queue, i + 1);
                    },
                }
            }
        }
    }
}

proof fn lemma_cascaded_recalls(
    db: DbView,
    origin: StageView,
    st: StageView,
    queue: Seq<NodeView>,
    dead: Set<Seq<char>>,
    bound: nat,
)
    requires
        recalls(db, st),
        all_sure(db, st, queue),
        cascaded(db, origin, st, queue, dead, bound) is Ok,
    ensures
        recalls(db, cascaded(db, origin, st, queue, dead, bound)->Ok_0),
    decreases
            if bound + 1 >= st.ops.len() {
                bound + 1 - st.ops.len()
            } else {
                0
            },
            queue.len(),
{
    if queue.len() > 0 {
        let n = queue[0];
        let rest = queue.drop_first();
        assert forall|k: int| 0 <= k < rest.len() implies sure(db, st, #[trigger] rest[k]) by {
            assert(sure(db, st, queue[k + 1]));
        }
        if dead.contains(n.address) {
            lemma_cascaded_recalls(db, origin, st, rest, dead, bound);
        } else {
            lemma_removed_recalls(db, st, n);
            let s = removed(st, n)->Ok_0;
            assert forall|k: int| 0 <= k < rest.len() implies sure(db, s, #[trigger] rest[k]) by {
                assert(sure(db, st, rest[k]));
            }
            lemma_followed_recalls(db, origin, s, n, dead.insert(n.address), rest, 0);
            let (t, more) = followed(db, origin, s, n, dead.insert(n.address), rest, 0)->Ok_0;
            if t.ops.len() <= bound && t.ops.len() > st.ops.len() {
                lemma_cascaded_recalls(db, origin, t, more, dead.insert(n.address), bound);
            }
        }
    }
}

proof fn lemma_delete_closure_recalls(db: DbView, st: StageView, seeds: Seq<NodeView>, bound: nat)
    requires
        recalls(db, st),
        forall|i: int| 0 <= i < seeds.len() ==> live(st.nodes, #[trigger] seeds[i]),
        delete_closure(db, st, seeds, bound) is Ok,
    ensures
        recalls(db, delete_closure(db, st, seeds, bound)->Ok_0),
{
    assert forall|i: int| 0 <= i < seeds.len() implies sure(db, st, #[trigger] seeds[i]) by {}
    if db.references.len() == 0 {
        lemma_removed_all_recalls(db, st, seeds);
    } else {
        lemma_cascaded_recalls(db, st, st, seeds, Set::empty(), bound);
    }
}

/// What a condition chooses is among the rows.
proof fn lemma_chosen_live<F: Fn(&Filter, &Node) -> Result<bool, String>>(
    eval: F,
    where_: Option<Filter>,
    nodes: Nodes,
    rows: Seq<NodeView>,
    k: int,
)
    requires
        0 <= k <= rows.len(),
        forall|i: int| 0 <= i < rows.len() ==> live(nodes, #[trigger] rows[i]),
        chosen(eval, where_, rows, k) is Ok,
    ensures
        forall|i: int|
            0 <= i < chosen(eval, where_, rows, k)->Ok_0.len() ==> live(
                nodes,
                #[trigger] chosen(eval, where_, rows, k)->Ok_0[i],
            ),
    decreases k,
{
    if k > 0 {
        lemma_chosen_live(eval, where_, nodes, rows, k - 1);
        let got = chosen(eval, where_, rows, k - 1)->Ok_0;
        let now = chosen(eval, where_, rows, k)->Ok_0;
        assert forall|i: int| 0 <= i < now.len() implies live(nodes, #[trigger] now[i]) by {
            if i < got.len() {
                assert(now[i] == got[i]);
            } else {
                assert(now[i] == rows[k - 1]);
            }
        }
    }
}

proof fn lemma_selection_recalls<F: Fn(&Filter, &Node) -> Result<bool, String>>(
    db: DbView,
    st: StageView,
    eval: F,
    kind: Seq<char>,
    where_: Option<Filter>,
    owner: Seq<char>,
    is_admin: bool,
    bound: nat,
)
    requires
        recalls(db, st),
        selection_deleted(db, st, eval, kind, where_, owner, is_admin, bound) is Ok,
    ensures
        recalls(db, selection_deleted(db, st, eval, kind, where_, owner, is_admin, bound)->Ok_0),
{
    let rows = listing(st.nodes, writable(kind, owner, is_admin));
    lemma_rows_live(st.nodes, writable(kind, owner, is_admin));
    lemma_chosen_live(eval, where_, st.nodes, rows, rows.len() as int);
    lemma_delete_closure_recalls(db, st, chosen(eval, where_, rows, rows.len() as int)->Ok_0, bound);
}

/// Operations that change no node.
proof fn lemma_other_op(db: DbView, st: StageView, next: StageView)
    requires
        recalls(db, st),
        next.nodes == st.nodes,
        st.ops.len() <= next.ops.len(),
        next.ops.take(st.ops.len() as int) == st.ops,
    ensures
        recalls(db, next),
{
    assert forall|a: Seq<char>| #[trigger] recalled(db, next, a) by {
        assert(recalled(db, st, a));
        if db.nodes.contains_key(a) && recorded(st.ops, db.nodes[a]) {
            lemma_recorded_push(st.ops, next.ops, db.nodes[a]);
        }
    }
}

proof fn lemma_stepped_recalls<F: Fn(&Filter, &Node) -> Result<bool, String>>(
    db: DbView,
    st: StageView,
    op: TxOperation,
    eval: F,
    bound: nat,
)
    requires
        recalls(db, st),
        stepped(db, st, op, eval, bound) is Ok,
    ensures
        recalls(db, stepped(db, st, op, eval, bound)->Ok_0),
{
    let next = stepped(db, st, op, eval, bound)->Ok_0;
    match op {
        TxOperation::InsertNode(node) => match node_in(st.nodes, node@.address) {
            None => {
                assert(next.ops.take(st.ops.len() as int) =~= st.ops);
                assert(orderly(next.nodes));
                assert forall|a: Seq<char>| #[trigger] recalled(db, next, a) by {
                    assert(recalled(db, st, a));
                    if db.nodes.contains_key(a) && recorded(st.ops, db.nodes[a]) {
                        lemma_recorded_push(st.ops, next.ops, db.nodes[a]);
                    }
                }
            },
            Some(e) => {
                assert(live(st.nodes, e));
                lemma_replaced_recalls(db, st, e, node@);
            },
        },
        TxOperation::DeleteNode(address) => {
            if !st.gone.contains(address@) {
                let n = st.nodes[address@];
                assert(st.nodes.contains_key(address@));
                assert(live(st.nodes, n));
                lemma_delete_closure_recalls(db, st, seq![n], bound);
            }
        },
        TxOperation::ClearKind { kind, owner, is_admin } => {
            lemma_selection_recalls(db, st, eval, kind@, None, owner@, is_admin, bound);
        },
        TxOperation::DeleteWhere { kind, where_, owner, is_admin } => {
            lemma_selection_recalls(db, st, eval, kind@, where_, owner@, is_admin, bound);
        },
        TxOperation::SetIf { address, field, expect, set, owner, is_admin } => {
            let n = st.nodes[address@];
            assert(st.nodes.contains_key(address@));
            assert(live(st.nodes, n));
            lemma_replaced_recalls(db, st, n, set_if(n, field@, expect@, set_view(set@))->Ok_0);
        },
        TxOperation::InsertEdge(edge) => {
            assert(next.ops.take(st.ops.len() as int) =~= st.ops);
            lemma_other_op(db, st, next);
        },
        TxOperation::DeleteEdge { id, owner, is_admin } => {
            assert(next.ops.take(st.ops.len() as int) =~= st.ops);
            lemma_other_op(db, st, next);
        },
    }
}

/// Whatever a transaction's steps are: a node is as it was, or one of the
/// operations keeps the state it was in.
pub proof fn law_lowering_forgets_nothing<F: Fn(&Filter, &Node) -> Result<bool, String>>(
    db: DbView,
    stamp: u64,
    ops: Seq<TxOperation>,
    eval: F,
    bound: nat,
)
    requires
        orderly(db.nodes),
        worked_out(db, fresh_stage(db, stamp), ops, eval, bound) is Ok,
    ensures
        recalls(db, worked_out(db, fresh_stage(db, stamp), ops, eval, bound)->Ok_0),
    decreases ops.len(),
{
    if ops.len() == 0 {
        let st = fresh_stage(db, stamp);
        assert forall|a: Seq<char>| #[trigger] recalled(db, st, a) by {}
    } else {
        law_lowering_forgets_nothing(db, stamp, ops.drop_last(), eval, bound);
        let st = worked_out(db, fresh_stage(db, stamp), ops.drop_last(), eval, bound)->Ok_0;
        lemma_stepped_recalls(db, st, ops.last(), eval, bound);
    }
}

/// Whatever references lead to: when a node is deleted, every node is as it
/// was, or one of the operations keeps the state it was in.
pub proof fn law_deleting_forgets_nothing(db: DbView, stamp: u64, n: NodeView, bound: nat)
    requires
        orderly(db.nodes),
        live(db.nodes, n),
        delete_closure(db, fresh_stage(db, stamp), seq![n], bound) is Ok,
    ensures
        recalls(db, delete_closure(db, fresh_stage(db, stamp), seq![n], bound)->Ok_0),
{
    let st = fresh_stage(db, stamp);
    assert forall|a: Seq<char>| #[trigger] recalled(db, st, a) by {}
    lemma_delete_closure_recalls(db, st, seq![n], bound);
}

// ---------------------------------------------------------------------
// History
// ---------------------------------------------------------------------

pub type History = Map<(Seq<char>, u64), HistoryView>;

/// Everything in the one is in the other.
pub open spec fn history_kept(before: History, after: History) -> bool {
    forall|x: (Seq<char>, u64)| #[trigger]
        before.contains_key(x) ==> after.contains_key(x) && after[x] == before[x]
}

/// States kept under versions of their own, past those in use, are all
/// there, and nothing that was there is lost.
pub proof fn lemma_history_grows(db: DbView, ops: Seq<OperationView>, first: u64, end: u64)
    requires
        versioned(ops, first, end),
        forall|x: (Seq<char>, u64)| #[trigger] db.history.contains_key(x) ==> x.1 < first,
    ensures
        history_kept(db.history, applied_all(db, ops).history),
        forall|i: int|
            0 <= i < ops.len() && #[trigger] ops[i] is Archive ==> {
                let h = ops[i]->Archive_0;
                &&& applied_all(db, ops).history.contains_key((h.address, h.version))
                &&& applied_all(db, ops).history[(h.address, h.version)] == h
            },
        forall|x: (Seq<char>, u64)| #[trigger]
            applied_all(db, ops).history.contains_key(x) ==> db.history.contains_key(x) || exists|i: int|
                0 <= i < ops.len() && #[trigger] ops[i] is Archive && ops[i]->Archive_0.version == x.1,
    decreases ops.len(),
{
    if ops.len() > 0 {
        let init = ops.drop_last();
        let last = ops.last();
        assert forall|i: int| 0 <= i < init.len() implies within(#[trigger] init[i], first, end) by {
            assert(within(ops[i], first, end));
        }
        assert(versioned(init, first, end));
        lemma_history_grows(db, init, first, end);
        let mid = applied_all(db, init).history;
        let after = applied_all(db, ops).history;
        if last is Archive {
            let h = last->Archive_0;
            let key = (h.address, h.version);
            assert(within(ops[ops.len() - 1], first, end));
            assert(after == mid.insert(key, h));
            assert(!mid.contains_key(key)) by {
                if mid.contains_key(key) && !db.history.contains_key(key) {
                    let i = choose|i: int|
                        0 <= i < init.len() && #[trigger] init[i] is Archive && init[i]->Archive_0.version == key.1;
                    assert(ops[i] == init[i]);
                    assert(ops[ops.len() - 1] == last);
                }
            }
            assert forall|i: int| 0 <= i < ops.len() && #[trigger] ops[i] is Archive implies {
                let g = ops[i]->Archive_0;
                &&& after.contains_key((g.address, g.version))
                &&& after[(g.address, g.version)] == g
            } by {
                if i < init.len() {
                    assert(init[i] == ops[i]);
                }
            }
            assert forall|x: (Seq<char>, u64)| #[trigger] after.contains_key(x) implies db.history.contains_key(x)
                || exists|i: int|
                0 <= i < ops.len() && #[trigger] ops[i] is Archive && ops[i]->Archive_0.version == x.1 by {
                if x == key {
                    assert(ops[ops.len() - 1] is Archive);
                } else if !db.history.contains_key(x) {
                    let i = choose|i: int|
                        0 <= i < init.len() && #[trigger] init[i] is Archive && init[i]->Archive_0.version == x.1;
                    assert(ops[i] == init[i]);
                }
            }
        } else {
            assert(after == mid);
            assert forall|i: int| 0 <= i < ops.len() && #[trigger] ops[i] is Archive implies {
                let g = ops[i]->Archive_0;
                &&& after.contains_key((g.address, g.version))
                &&& after[(g.address, g.version)] == g
            } by {
                assert(init[i] == ops[i]);
            }
            assert forall|x: (Seq<char>, u64)| #[trigger] after.contains_key(x) implies db.history.contains_key(x)
                || exists|i: int|
                0 <= i < ops.len() && #[trigger] ops[i] is Archive && ops[i]->Archive_0.version == x.1 by {
                if !db.history.contains_key(x) {
                    let i = choose|i: int|
                        0 <= i < init.len() && #[trigger] init[i] is Archive && init[i]->Archive_0.version == x.1;
                    assert(ops[i] == init[i]);
                }
            }
        }
    }
}

} // verus!
