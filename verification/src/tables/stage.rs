//! Working a transaction out.

use vstd::prelude::*;

use crate::cache::RecordCache;
use crate::sort::has_text;
use crate::tables::model::{lemma_nodes_at, DbView, Nodes};
use crate::tables::plan::{archived, drop_node, faithful, fresh_stage, put_node, removed, replaced, StageView};
use crate::tables::read::{edge_in, edge_view, node_in, node_view};
use crate::tables::{agrees, Tables};
use crate::textmap::TextMap;
use crate::transaction::{StorageFault, TransactionError, TxErrorView};
use crate::types::{Edge, EdgeId, EdgeIdView, EdgeView, HistoryEntry, Node, NodeView};
use crate::wal::{operations_view, Operation, OperationView};

verus! {

/// What the steps of a transaction so far come to.
pub struct Stage {
    staged: TextMap<Option<Node>>,
    edges: Vec<(EdgeId, Option<Edge>)>,
    ops: Vec<Operation>,
    stamp: u64,
    view: Ghost<StageView>,
}

spec fn staged_in(staged: Map<Seq<char>, Option<Node>>, nodes: Nodes, a: Seq<char>) -> Option<NodeView> {
    if staged.contains_key(a) {
        node_view(staged[a])
    } else {
        node_in(nodes, a)
    }
}

spec fn has_edge(edges: Seq<(EdgeId, Option<Edge>)>, id: EdgeIdView) -> bool {
    exists|i: int| 0 <= i < edges.len() && (#[trigger] edges[i]).0@ == id
}

spec fn edge_slot(edges: Seq<(EdgeId, Option<Edge>)>, id: EdgeIdView) -> int {
    choose|i: int| 0 <= i < edges.len() && (#[trigger] edges[i]).0@ == id
}

spec fn staged_edge_in(
    edges: Seq<(EdgeId, Option<Edge>)>,
    held: Map<EdgeIdView, EdgeView>,
    id: EdgeIdView,
) -> Option<EdgeView> {
    if has_edge(edges, id) {
        edge_view(edges[edge_slot(edges, id)].1)
    } else {
        edge_in(held, id)
    }
}

/// The edges with one of them set or taken out.
pub open spec fn with_edge(
    edges: Map<EdgeIdView, EdgeView>,
    id: EdgeIdView,
    e: Option<EdgeView>,
) -> Map<EdgeIdView, EdgeView> {
    match e {
        Some(e) => edges.insert(id, e),
        None => edges.remove(id),
    }
}

spec fn edges_distinct(edges: Seq<(EdgeId, Option<Edge>)>) -> bool {
    forall|i: int, j: int| 0 <= i < j < edges.len() ==> (#[trigger] edges[i]).0@ != (#[trigger] edges[j]).0@
}

proof fn lemma_edge_slot(edges: Seq<(EdgeId, Option<Edge>)>, i: int)
    requires
        edges_distinct(edges),
        0 <= i < edges.len(),
    ensures
        has_edge(edges, edges[i].0@),
        edge_slot(edges, edges[i].0@) == i,
{
    let k = edge_slot(edges, edges[i].0@);
    assert(edges[i].0@ == edges[i].0@);
    assert(edges[k].0@ == edges[i].0@);
}

/// The address is in the group of its kind.
pub open spec fn in_group(groups: Map<Seq<char>, Vec<String>>, kind: Seq<char>, a: Seq<char>) -> bool {
    groups.contains_key(kind) && has_text(groups[kind]@, a)
}

spec fn written_at(
    keys: Seq<Seq<char>>,
    staged: Map<Seq<char>, Option<Node>>,
    n: int,
    k: int,
    kind: Seq<char>,
    a: Seq<char>,
) -> bool {
    0 <= k < n && keys[k] == a && staged[a] is Some && staged[a]->0@.kind == kind
}

impl View for Stage {
    type V = StageView;

    closed spec fn view(&self) -> StageView {
        self.view@
    }
}

impl Stage {
    /// The overlay is that of the steps so far over the database.
    pub closed spec fn wf(&self, db: DbView) -> bool {
        let v = self.view@;
        &&& self.staged.wf()
        &&& v.ops == operations_view(self.ops@)
        &&& v.stamp == self.stamp
        &&& forall|a: Seq<char>| #[trigger] node_in(v.nodes, a) == staged_in(self.staged@, db.nodes, a)
        &&& forall|a: Seq<char>| #[trigger]
            v.written.contains(a) <==> self.staged@.contains_key(a) && self.staged@[a] is Some
        &&& forall|a: Seq<char>| #[trigger]
            v.gone.contains(a) <==> self.staged@.contains_key(a) && self.staged@[a] is None
        &&& edges_distinct(self.edges@)
        &&& forall|id: EdgeIdView| #[trigger] edge_in(v.edges, id) == staged_edge_in(self.edges@, db.edges, id)
        &&& forall|id: EdgeIdView| #[trigger]
            v.gone_edges.contains(id) <==> has_edge(self.edges@, id) && self.edges@[edge_slot(
                self.edges@,
                id,
            )].1 is None
        &&& faithful(db, v)
    }

    pub proof fn lemma_wf(&self, db: DbView)
        requires
            self.wf(db),
        ensures
            faithful(db, self@),
    {
    }

    /// Before the first step.
    pub(crate) fn new(tables: &Tables, stamp: u64) -> (r: Stage)
        requires
            tables.inv(),
        ensures
            r.wf(tables@),
            r@ == fresh_stage(tables@, stamp),
    {
        let r = Stage {
            staged: TextMap::new(),
            edges: Vec::new(),
            ops: Vec::new(),
            stamp,
            view: Ghost(fresh_stage(tables@, stamp)),
        };
        proof {
            assert(operations_view(r.ops@) =~= Seq::<OperationView>::empty());
            lemma_nodes_at(tables.primary@, tables@.nodes, tables.store@, Seq::empty());
            assert(faithful(tables@, r@));
        }
        r
    }

    /// The operations so far, and the next version.
    pub(crate) fn finish(self) -> (r: (Vec<Operation>, u64))
        ensures
            forall|db: DbView| #[trigger]
                self.wf(db) ==> operations_view(r.0@) == self@.ops && r.1 == self@.stamp,
    {
        (self.ops, self.stamp)
    }

    /// Number of operations so far.
    pub(super) fn len(&self) -> (r: usize)
        ensures
            forall|db: DbView| #[trigger] self.wf(db) ==> r == self@.ops.len(),
    {
        self.ops.len()
    }

    /// Keeps a state.
    pub(super) fn archive(&mut self, node: &Node, Ghost(db): Ghost<DbView>) -> (r: Result<(), TransactionError>)
        requires
            old(self).wf(db),
        ensures
            match r {
                Ok(()) => final(self).wf(db) && archived(old(self)@, node@) == Ok::<StageView, TxErrorView>(
                    final(self)@,
                ),
                Err(e) => archived(old(self)@, node@) == Err::<StageView, TxErrorView>(e@),
            },
    {
        if self.stamp == u64::MAX {
            return Err(TransactionError::Storage(StorageFault::LogFull));
        }
        let ghost before = self.ops@;
        let version: u64 = self.stamp;
        self.ops.push(Operation::Archive(HistoryEntry::at(node.copy(), version)));
        self.stamp = version + 1;
        proof {
            let next = archived(self.view@, node@)->Ok_0;
            assert(operations_view(self.ops@) =~= next.ops);
            crate::tables::plan::lemma_archived(db, self.view@, node@);
            self.view = Ghost(next);
        }
        Ok(())
    }

    /// Puts a node in place of what is at its address.
    pub(super) fn put(&mut self, node: Node, Ghost(db): Ghost<DbView>)
        requires
            old(self).wf(db),
            old(self)@.nodes.contains_key(node@.address) ==> old(self)@.ops.len() > 0
                && crate::tables::plan::archives(old(self)@.ops.last(), node@.address),
        ensures
            final(self).wf(db),
            final(self)@ == put_node(old(self)@, node@),
    {
        let ghost n = node@;
        let ghost m0 = self.staged@;
        self.staged.insert(node.address.clone(), Some(node.copy()));
        self.ops.push(Operation::Insert(node));
        proof {
            let before = self.view@;
            let next = put_node(before, n);
            assert(operations_view(self.ops@) =~= next.ops);
            assert forall|a: Seq<char>| #[trigger] node_in(next.nodes, a) == staged_in(self.staged@, db.nodes, a) by {
                assert(node_in(before.nodes, a) == staged_in(m0, db.nodes, a));
            }
            assert forall|a: Seq<char>| #[trigger] next.written.contains(a) <==> self.staged@.contains_key(a)
                && self.staged@[a] is Some by {
                assert(before.written.contains(a) <==> m0.contains_key(a) && m0[a] is Some);
            }
            assert forall|a: Seq<char>| #[trigger] next.gone.contains(a) <==> self.staged@.contains_key(a)
                && self.staged@[a] is None by {
                assert(before.gone.contains(a) <==> m0.contains_key(a) && m0[a] is None);
            }
            assert forall|id: EdgeIdView| #[trigger] edge_in(next.edges, id) == staged_edge_in(
                self.edges@,
                db.edges,
                id,
            ) by {
                assert(edge_in(before.edges, id) == staged_edge_in(self.edges@, db.edges, id));
            }
            crate::tables::plan::lemma_push(db, before, next, OperationView::Insert(n));
            self.view = Ghost(next);
        }
    }

    /// Takes the node at an address out.
    fn drop_address(&mut self, address: &str, Ghost(db): Ghost<DbView>)
        requires
            old(self).wf(db),
            old(self)@.nodes.contains_key(address@) ==> old(self)@.ops.len() > 0 && crate::tables::plan::archives(
                old(self)@.ops.last(),
                address@,
            ),
        ensures
            final(self).wf(db),
            final(self)@ == drop_node(old(self)@, address@),
    {
        let ghost m0 = self.staged@;
        self.staged.insert(crate::text::own(address), None);
        self.ops.push(Operation::Delete(crate::text::own(address)));
        proof {
            let before = self.view@;
            let next = drop_node(before, address@);
            assert(operations_view(self.ops@) =~= next.ops);
            assert forall|a: Seq<char>| #[trigger] node_in(next.nodes, a) == staged_in(self.staged@, db.nodes, a) by {
                assert(node_in(before.nodes, a) == staged_in(m0, db.nodes, a));
            }
            assert forall|a: Seq<char>| #[trigger] next.written.contains(a) <==> self.staged@.contains_key(a)
                && self.staged@[a] is Some by {
                assert(before.written.contains(a) <==> m0.contains_key(a) && m0[a] is Some);
            }
            assert forall|a: Seq<char>| #[trigger] next.gone.contains(a) <==> self.staged@.contains_key(a)
                && self.staged@[a] is None by {
                assert(before.gone.contains(a) <==> m0.contains_key(a) && m0[a] is None);
            }
            assert forall|id: EdgeIdView| #[trigger] edge_in(next.edges, id) == staged_edge_in(
                self.edges@,
                db.edges,
                id,
            ) by {
                assert(edge_in(before.edges, id) == staged_edge_in(self.edges@, db.edges, id));
            }
            crate::tables::plan::lemma_push(db, before, next, OperationView::Delete(address@));
            self.view = Ghost(next);
        }
    }

    /// Keeps a state and puts another in its place.
    pub(super) fn replace(&mut self, node: &Node, next: Node, Ghost(db): Ghost<DbView>) -> (r: Result<(), TransactionError>)
        requires
            old(self).wf(db),
            next@.address == node@.address,
        ensures
            match r {
                Ok(()) => final(self).wf(db) && replaced(old(self)@, node@, next@) == Ok::<
                    StageView,
                    TxErrorView,
                >(final(self)@),
                Err(e) => replaced(old(self)@, node@, next@) == Err::<StageView, TxErrorView>(e@),
            },
    {
        match self.archive(node, Ghost(db)) {
            Ok(()) => {},
            Err(e) => { return Err(e) },
        }
        proof {
            crate::tables::plan::lemma_archived(db, old(self)@, node@);
        }
        self.put(next, Ghost(db));
        Ok(())
    }

    /// Keeps a state and takes its node out.
    pub(super) fn remove(&mut self, node: &Node, Ghost(db): Ghost<DbView>) -> (r: Result<(), TransactionError>)
        requires
            old(self).wf(db),
        ensures
            match r {
                Ok(()) => final(self).wf(db) && removed(old(self)@, node@) == Ok::<StageView, TxErrorView>(
                    final(self)@,
                ),
                Err(e) => removed(old(self)@, node@) == Err::<StageView, TxErrorView>(e@),
            },
    {
        match self.archive(node, Ghost(db)) {
            Ok(()) => {},
            Err(e) => { return Err(e) },
        }
        proof {
            crate::tables::plan::lemma_archived(db, old(self)@, node@);
        }
        self.drop_address(&node.address, Ghost(db));
        Ok(())
    }

    /// The node at an address as the next step sees it.
    pub(super) fn staged_node(&self, tables: &Tables, address: &str, cache: &mut RecordCache) -> (r: Option<Node>)
        requires
            tables.inv(),
            self.wf(tables@),
            old(cache).wf(),
            agrees(old(cache)@, tables.heap()),
        ensures
            final(cache).wf(),
            agrees(final(cache)@, tables.heap()),
            node_view(r) == node_in(self@.nodes, address@),
    {
        proof {
            assert(node_in(self@.nodes, address@) == staged_in(self.staged@, tables@.nodes, address@));
        }
        match self.staged.get(address) {
            Some(slot) => match slot {
                Some(node) => Some(node.copy()),
                None => None,
            },
            None => tables.read_node(address, cache),
        }
    }

    /// Whether steps so far deleted the node at an address.
    pub(super) fn is_gone(&self, address: &str, Ghost(db): Ghost<DbView>) -> (r: bool)
        requires
            self.wf(db),
        ensures
            r == self@.gone.contains(address@),
    {
        match self.staged.get(address) {
            Some(slot) => slot.is_none(),
            None => false,
        }
    }

    /// Whether steps so far deleted an edge.
    pub(super) fn is_gone_edge(&self, id: &EdgeId, Ghost(db): Ghost<DbView>) -> (r: bool)
        requires
            self.wf(db),
        ensures
            r == self@.gone_edges.contains(id@),
    {
        match self.edge_position(id) {
            Some(i) => self.edges[i].1.is_none(),
            None => false,
        }
    }

    /// The addresses that steps so far wrote to or deleted.
    pub(super) fn touched_addresses(&self, Ghost(db): Ghost<DbView>) -> (r: Vec<String>)
        requires
            self.wf(db),
        ensures
            forall|a: Seq<char>| #[trigger]
                has_text(r@, a) <==> self@.written.contains(a) || self@.gone.contains(a),
            forall|a: Seq<char>|
                !has_text(r@, a) ==> #[trigger] node_in(self@.nodes, a) == node_in(db.nodes, a),
    {
        let mut out: Vec<String> = Vec::new();
        let mut i: usize = 0;
        while i < self.staged.len()
            invariant
                self.wf(db),
                i <= self.staged.keys().len(),
                out@.len() == i,
                forall|k: int| 0 <= k < i ==> (#[trigger] out@[k])@ == self.staged.keys()[k],
            decreases self.staged.keys().len() - i,
        {
            out.push(self.staged.key_at(i).clone());
            i = i + 1;
        }
        proof {
            self.staged.lemma_keys();
            assert forall|a: Seq<char>| #[trigger] has_text(out@, a) <==> self@.written.contains(a)
                || self@.gone.contains(a) by {
                if has_text(out@, a) {
                    let k = choose|k: int| 0 <= k < out@.len() && (#[trigger] out@[k])@ == a;
                    assert(self.staged.keys().contains(a));
                }
                if self@.written.contains(a) || self@.gone.contains(a) {
                    assert(self.staged@.contains_key(a));
                    assert(self.staged.keys().contains(a));
                    let k = choose|k: int| 0 <= k < self.staged.keys().len() && self.staged.keys()[k] == a;
                    assert(out@[k]@ == a);
                }
            }
            assert forall|a: Seq<char>| !has_text(out@, a) implies #[trigger] node_in(self@.nodes, a) == node_in(
                db.nodes,
                a,
            ) by {
                assert(node_in(self@.nodes, a) == staged_in(self.staged@, db.nodes, a));
                if self.staged@.contains_key(a) {
                    if self.staged@[a] is Some {
                        assert(self@.written.contains(a));
                    } else {
                        assert(self@.gone.contains(a));
                    }
                }
            }
        }
        out
    }

    /// The addresses that steps so far wrote to, by the kind of the node
    /// there.
    pub(super) fn written_kinds(&self, Ghost(db): Ghost<DbView>) -> (r: TextMap<Vec<String>>)
        requires
            self.wf(db),
        ensures
            r.wf(),
            forall|kind: Seq<char>, a: Seq<char>| #[trigger]
                in_group(r@, kind, a) <==> self@.written.contains(a) && self@.nodes[a].kind == kind,
    {
        let mut out: TextMap<Vec<String>> = TextMap::new();
        let mut i: usize = 0;
        while i < self.staged.len()
            invariant
                self.wf(db),
                i <= self.staged.keys().len(),
                out.wf(),
                forall|kind: Seq<char>, a: Seq<char>| #[trigger]
                    in_group(out@, kind, a) <==> exists|k: int| #[trigger]
                        written_at(self.staged.keys(), self.staged@, i as int, k, kind, a),
            decreases self.staged.keys().len() - i,
        {
            let address = self.staged.key_at(i);
            let ghost before = out@;
            match self.staged.value_at(i) {
                Some(node) => {
                    let mut group: Vec<String> = match out.remove(&node.kind) {
                        Some(group) => group,
                        None => Vec::new(),
                    };
                    let ghost g0 = group@;
                    group.push(address.clone());
                    let ghost g1 = group@;
                    out.insert(node.kind.clone(), group);
                    proof {
                        let keys = self.staged.keys();
                        assert forall|kind: Seq<char>, a: Seq<char>| #[trigger] in_group(out@, kind, a) <==> exists|k: int|
                            #[trigger] written_at(keys, self.staged@, i + 1, k, kind, a) by {
                            assert(in_group(before, kind, a) <==> exists|k: int| #[trigger]
                                written_at(keys, self.staged@, i as int, k, kind, a));
                            if kind == node@.kind {
                                assert(in_group(before, kind, a) <==> has_text(g0, a)) by {
                                    if !before.contains_key(kind) {
                                        assert(g0.len() == 0);
                                    }
                                }
                                assert(out@[kind]@ == g1);
                                if has_text(g0, a) {
                                    let w = choose|w: int| 0 <= w < g0.len() && (#[trigger] g0[w])@ == a;
                                    assert(g1[w]@ == a);
                                }
                                if has_text(g1, a) {
                                    let w = choose|w: int| 0 <= w < g1.len() && (#[trigger] g1[w])@ == a;
                                    if w < g0.len() {
                                        assert(g0[w]@ == a);
                                    } else {
                                        assert(written_at(keys, self.staged@, i + 1, i as int, kind, a));
                                    }
                                }
                                if a == keys[i as int] {
                                    assert(g1[g0.len() as int]@ == a);
                                }
                            } else {
                                assert(in_group(out@, kind, a) <==> in_group(before, kind, a));
                            }
                            if exists|k: int| #[trigger] written_at(keys, self.staged@, i as int, k, kind, a) {
                                let k = choose|k: int| #[trigger]
                                    written_at(keys, self.staged@, i as int, k, kind, a);
                                assert(written_at(keys, self.staged@, i + 1, k, kind, a));
                            }
                            if exists|k: int| #[trigger] written_at(keys, self.staged@, i + 1, k, kind, a) {
                                let k = choose|k: int| #[trigger] written_at(keys, self.staged@, i + 1, k, kind, a);
                                if k < i {
                                    assert(written_at(keys, self.staged@, i as int, k, kind, a));
                                }
                            }
                        }
                    }
                },
                None => {
                    proof {
                        let keys = self.staged.keys();
                        assert forall|kind: Seq<char>, a: Seq<char>| #[trigger] in_group(out@, kind, a) <==> exists|k: int|
                            #[trigger] written_at(keys, self.staged@, i + 1, k, kind, a) by {
                            if exists|k: int| #[trigger] written_at(keys, self.staged@, i as int, k, kind, a) {
                                let k = choose|k: int| #[trigger]
                                    written_at(keys, self.staged@, i as int, k, kind, a);
                                assert(written_at(keys, self.staged@, i + 1, k, kind, a));
                            }
                            if exists|k: int| #[trigger] written_at(keys, self.staged@, i + 1, k, kind, a) {
                                let k = choose|k: int| #[trigger] written_at(keys, self.staged@, i + 1, k, kind, a);
                                assert(written_at(keys, self.staged@, i as int, k, kind, a));
                            }
                        }
                    }
                },
            }
            i = i + 1;
        }
        proof {
            self.staged.lemma_keys();
            let keys = self.staged.keys();
            assert forall|kind: Seq<char>, a: Seq<char>| #[trigger] in_group(out@, kind, a) <==> self@.written.contains(a)
                && self@.nodes[a].kind == kind by {
                assert(node_in(self@.nodes, a) == staged_in(self.staged@, db.nodes, a));
                if exists|k: int| #[trigger] written_at(keys, self.staged@, i as int, k, kind, a) {
                    let k = choose|k: int| #[trigger] written_at(keys, self.staged@, i as int, k, kind, a);
                    assert(keys.contains(a));
                }
                if self@.written.contains(a) && self@.nodes[a].kind == kind {
                    assert(keys.contains(a));
                    let k = choose|k: int| 0 <= k < keys.len() && keys[k] == a;
                    assert(written_at(keys, self.staged@, i as int, k, kind, a));
                }
            }
        }
        out
    }

    fn edge_position(&self, id: &EdgeId) -> (r: Option<usize>)
        requires
            edges_distinct(self.edges@),
        ensures
            match r {
                Some(i) => i < self.edges@.len() && self.edges@[i as int].0@ == id@ && has_edge(self.edges@, id@) && i
                    == edge_slot(self.edges@, id@),
                None => !has_edge(self.edges@, id@),
            },
    {
        let mut i: usize = 0;
        while i < self.edges.len()
            invariant
                edges_distinct(self.edges@),
                i <= self.edges@.len(),
                forall|j: int| 0 <= j < i ==> (#[trigger] self.edges@[j]).0@ != id@,
            decreases self.edges.len() - i,
        {
            if self.edges[i].0.same(id) {
                proof {
                    lemma_edge_slot(self.edges@, i as int);
                }
                return Some(i);
            }
            i = i + 1;
        }
        None
    }

    /// The edge with an id as the next step sees it.
    pub(super) fn staged_edge(&self, tables: &Tables, id: &EdgeId) -> (r: Option<Edge>)
        requires
            tables.inv(),
            self.wf(tables@),
        ensures
            edge_view(r) == edge_in(self@.edges, id@),
    {
        proof {
            assert(edge_in(self@.edges, id@) == staged_edge_in(self.edges@, tables@.edges, id@));
        }
        match self.edge_position(id) {
            Some(i) => match &self.edges[i].1 {
                Some(edge) => Some(edge.copy()),
                None => None,
            },
            None => tables.find_edge(id),
        }
    }

    /// Notes what becomes of an edge, and the operation for it.
    pub(super) fn set_edge(&mut self, id: EdgeId, edge: Option<Edge>, operation: Operation, Ghost(db): Ghost<DbView>)
        requires
            old(self).wf(db),
            edge is Some ==> operation@ == OperationView::InsertEdge(edge->0@) && edge->0@.id() == id@,
            edge is None ==> operation@ == OperationView::DeleteEdge(id@),
        ensures
            final(self).wf(db),
            final(self)@ == (StageView {
                edges: with_edge(old(self)@.edges, id@, edge_view(edge)),
                gone_edges: if edge is Some {
                    old(self)@.gone_edges.remove(id@)
                } else {
                    old(self)@.gone_edges.insert(id@)
                },
                ops: old(self)@.ops.push(operation@),
                ..old(self)@
            }),
    {
        let ghost e0 = self.edges@;
        let ghost slot = (id, edge);
        let ghost op = operation@;
        let ghost before = self.view@;
        let ghost next = StageView {
            edges: with_edge(before.edges, id@, edge_view(edge)),
            gone_edges: if edge is Some {
                before.gone_edges.remove(id@)
            } else {
                before.gone_edges.insert(id@)
            },
            ops: before.ops.push(op),
            ..before
        };
        let at = self.edge_position(&id);
        match at {
            Some(i) => {
                self.edges[i] = (id, edge);
            },
            None => {
                self.edges.push((id, edge));
            },
        }
        self.ops.push(operation);
        proof {
            let e1 = self.edges@;
            let k = match at {
                Some(i) => i as int,
                None => e0.len() as int,
            };
            assert(operations_view(self.ops@) =~= next.ops);
            assert(e1[k] == slot);
            assert forall|i: int, j: int| 0 <= i < j < e1.len() implies (#[trigger] e1[i]).0@ != (#[trigger] e1[j]).0@ by {
                if i != k {
                    assert(e1[i] == e0[i]);
                }
                if j != k {
                    assert(e1[j] == e0[j]);
                }
                if at is None {
                    if j == k {
                        assert(e0[i].0@ != slot.0@);
                    }
                } else {
                    assert(e0[k].0@ == slot.0@);
                }
            }
            lemma_edge_slot(e1, k);
            assert forall|x: EdgeIdView| x != slot.0@ implies #[trigger] has_edge(e1, x) == has_edge(e0, x) && (has_edge(
                e0,
                x,
            ) ==> e1[edge_slot(e1, x)] == e0[edge_slot(e0, x)]) by {
                if has_edge(e0, x) {
                    let i = edge_slot(e0, x);
                    assert(e0[i].0@ == x);
                    assert(i != k);
                    assert(e1[i] == e0[i]);
                    lemma_edge_slot(e1, i);
                }
                if has_edge(e1, x) {
                    let i = edge_slot(e1, x);
                    assert(e1[i].0@ == x);
                    assert(i != k);
                    assert(e0[i] == e1[i]);
                }
            }
            assert forall|x: EdgeIdView| #[trigger] edge_in(next.edges, x) == staged_edge_in(e1, db.edges, x) by {
                assert(edge_in(before.edges, x) == staged_edge_in(e0, db.edges, x));
                if x != slot.0@ {
                    assert(has_edge(e1, x) == has_edge(e0, x));
                }
            }
            assert forall|x: EdgeIdView| #[trigger] next.gone_edges.contains(x) <==> has_edge(e1, x) && e1[edge_slot(
                e1,
                x,
            )].1 is None by {
                assert(before.gone_edges.contains(x) <==> has_edge(e0, x) && e0[edge_slot(e0, x)].1 is None);
                if x != slot.0@ {
                    assert(has_edge(e1, x) == has_edge(e0, x));
                }
            }
            crate::tables::plan::lemma_push(db, before, next, op);
            self.view = Ghost(next);
        }
    }
}

} // verus!
