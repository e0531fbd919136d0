//! Listings without a condition: edges, superseded states, an owner's nodes.

use vstd::prelude::*;

use crate::btree::walk::walk_keys;
use crate::btree::walker::{lemma_walk_facts, Walk};
use crate::btree::BTree;
use crate::bytes::{bytes_lt, has_prefix, lemma_be_order, lemma_lt_common_prefix, lemma_lt_total, lemma_radix_values};
use crate::cache::RecordCache;
use crate::filter::{evaluates, judge, verdict_view, Filter};
use crate::heap::{holds, HeapView, StoreView};
use crate::keys::{
    edge_in_prefix, edge_out_prefix, history_prefix, in_key, lemma_component_len, lemma_component_prefix,
    lemma_edge_keys, lemma_split, out_key, part_key, part_prefix, split_component, version_key,
};
use crate::sort::{has_text, sorted_distinct, texts_sorted};
use crate::tables::lower::nodes_view;
use crate::tables::model::{
    edges_ok, history_ok, lemma_index_has, lemma_nodes_at, listed, points, Entries, NodeIndex, Nodes,
};
use crate::tables::plan::{chosen, condition, listing, writable};
use crate::tables::query::{
    capped, eligible, lemma_filter_listing, lemma_filter_split, lemma_filter_step, window, Query, QueryView,
};
use crate::tables::rows::{law_listing_is_unique, scanned, RankBy};
use crate::tables::{agrees, Tables};
use crate::text::{lemma_utf8_injective, str_eq, str_view, text_of_bytes, utf8};
use crate::types::{Edge, EdgeIdView, EdgeView, HistoryEntry, HistoryView, Node, NodeView, RecordLocation};

verus! {

// ---------------------------------------------------------------------
// Edges
// ---------------------------------------------------------------------

pub open spec fn edges_view(list: Seq<Edge>) -> Seq<EdgeView> {
    Seq::new(list.len(), |i: int| list[i]@)
}

/// The key that lists an edge by where it starts, or by where it leads.
pub open spec fn edge_key(out: bool, id: EdgeIdView) -> Seq<u8> {
    if out {
        out_key(id)
    } else {
        in_key(id)
    }
}

/// The edge starts at the address, or leads to it.
pub open spec fn is_at(out: bool, address: Seq<char>, id: EdgeIdView) -> bool {
    if out {
        id.from == address
    } else {
        id.to == address
    }
}

/// The edges that start at an address, or lead to it, in the order of their
/// keys.
pub open spec fn edge_listing(
    rows: Seq<EdgeView>,
    edges: Map<EdgeIdView, EdgeView>,
    out: bool,
    address: Seq<char>,
) -> bool {
    &&& forall|i: int, j: int|
        0 <= i < j < rows.len() ==> bytes_lt(
            edge_key(out, (#[trigger] rows[i]).id()),
            edge_key(out, (#[trigger] rows[j]).id()),
        )
    &&& forall|i: int|
        0 <= i < rows.len() ==> {
            &&& edges.contains_key((#[trigger] rows[i]).id())
            &&& edges[rows[i].id()] == rows[i]
            &&& is_at(out, address, rows[i].id())
        }
    &&& forall|id: EdgeIdView| #[trigger] edges.contains_key(id) && is_at(out, address, id) ==> rows.contains(edges[id])
}

spec fn key_edge(edges: Map<EdgeIdView, EdgeView>, out: bool, k: Seq<u8>) -> EdgeView {
    edges[choose|id: EdgeIdView| #[trigger] edges.contains_key(id) && k == edge_key(out, id)]
}

spec fn key_edges(edges: Map<EdgeIdView, EdgeView>, out: bool, keys: Seq<Seq<u8>>) -> Seq<EdgeView> {
    Seq::new(keys.len(), |i: int| key_edge(edges, out, keys[i]))
}

proof fn lemma_edge_at(id: EdgeIdView, out: bool, address: Seq<char>)
    requires
        out_key(id).len() <= u32::MAX,
    ensures
        has_prefix(edge_key(out, id), part_prefix(address)) <==> is_at(out, address, id),
        in_key(id).len() == out_key(id).len(),
{
    lemma_edge_keys(id, id);
    lemma_component_len(utf8(id.from));
    lemma_component_len(utf8(id.to));
    lemma_component_len(utf8(id.kind));
    let near = if out {
        id.from
    } else {
        id.to
    };
    let far = if out {
        id.to
    } else {
        id.from
    };
    lemma_utf8_injective(near, address);
    lemma_component_prefix(utf8(near), crate::keys::component(utf8(id.kind)) + utf8(far), utf8(address));
}

proof fn lemma_edge_rows(
    outs: Entries,
    ins: Entries,
    tree: Entries,
    edges: Map<EdgeIdView, EdgeView>,
    store: StoreView,
    out: bool,
    address: Seq<char>,
)
    requires
        edges_ok(outs, ins, edges, store),
        tree == (if out {
            outs
        } else {
            ins
        }),
        tree.dom().finite(),
    ensures
        ({
            let keys = walk_keys(tree, part_prefix(address), None, false);
            let rows = key_edges(edges, out, keys);
            &&& edge_listing(rows, edges, out, address)
            &&& forall|i: int|
                0 <= i < keys.len() ==> tree.contains_key(keys[i]) && points(
                    store,
                    tree[#[trigger] keys[i]],
                    HeapView::Edge(rows[i]),
                )
        }),
{
    reveal(edges_ok);
    let prefix = part_prefix(address);
    let keys = walk_keys(tree, prefix, None, false);
    let rows = key_edges(edges, out, keys);
    lemma_walk_facts(tree, prefix, None, false);
    assert forall|i: int| 0 <= i < keys.len() implies tree.contains_key(keys[i]) && points(
        store,
        tree[#[trigger] keys[i]],
        HeapView::Edge(rows[i]),
    ) && edges.contains_key(rows[i].id()) && edges[rows[i].id()] == rows[i] && keys[i] == edge_key(out, rows[i].id())
        && is_at(out, address, rows[i].id()) by {
        let id = choose|id: EdgeIdView| #[trigger] edges.contains_key(id) && keys[i] == edge_key(out, id);
        assert(edges.contains_key(id) && keys[i] == edge_key(out, id));
        lemma_edge_at(id, out, address);
    }
    assert forall|i: int| 0 <= i < rows.len() implies {
        &&& edges.contains_key((#[trigger] rows[i]).id())
        &&& edges[rows[i].id()] == rows[i]
        &&& is_at(out, address, rows[i].id())
    } by {
        assert(tree.contains_key(keys[i]));
    }
    assert forall|i: int, j: int| 0 <= i < j < rows.len() implies bytes_lt(
        edge_key(out, (#[trigger] rows[i]).id()),
        edge_key(out, (#[trigger] rows[j]).id()),
    ) by {
        assert(tree.contains_key(keys[i]) && tree.contains_key(keys[j]));
    }
    assert forall|id: EdgeIdView| #[trigger] edges.contains_key(id) && is_at(out, address, id) implies rows.contains(
        edges[id],
    ) by {
        lemma_edge_at(id, out, address);
        let k = edge_key(out, id);
        assert(tree.contains_key(k) && has_prefix(k, prefix));
        assert(keys.contains(k));
        let i = choose|i: int| 0 <= i < keys.len() && keys[i] == k;
        assert(tree.contains_key(keys[i]));
        let other = rows[i].id();
        assert(edge_key(out, other) == edge_key(out, id));
        lemma_edge_keys(other, id);
        assert(rows[i] == edges[id]);
    }
}

impl Tables {
    /// The edges that start at an address, or lead to it; none if there are
    /// more than `cap`.
    pub(crate) fn edges_in_range(&self, out: bool, address: &str, cap: usize) -> (r: Option<Vec<Edge>>)
        requires
            self.inv(),
        ensures
            match r {
                Some(list) => edge_listing(edges_view(list@), self@.edges, out, address@) && list@.len() <= cap,
                None => exists|rows: Seq<EdgeView>|
                    #[trigger] edge_listing(rows, self@.edges, out, address@) && rows.len() > cap,
            },
    {
        let tree: &BTree = if out {
            &self.edge_out
        } else {
            &self.edge_in
        };
        let prefix = if out {
            edge_out_prefix(address)
        } else {
            edge_in_prefix(address)
        };
        let ghost edges = self@.edges;
        let ghost keys = walk_keys(tree@, part_prefix(address@), None, false);
        let ghost rows = key_edges(edges, out, keys);
        proof {
            self.edge_out.lemma_wf();
            self.edge_in.lemma_wf();
            lemma_edge_rows(self.edge_out@, self.edge_in@, tree@, edges, self.store@, out, address@);
        }
        let mut walk = Walk::new(tree, prefix, None, false);
        let mut list: Vec<Edge> = Vec::new();
        proof {
            assert(edges_view(list@) =~= rows.take(0));
        }
        loop
            invariant
                self.inv(),
                walk.wf(),
                walk.keys() == keys,
                walk.entries() == tree@,
                walk.behind() == list@.len(),
                list@.len() <= cap,
                list@.len() <= keys.len(),
                rows.len() == keys.len(),
                forall|i: int|
                    0 <= i < keys.len() ==> tree@.contains_key(keys[i]) && points(
                        self.store@,
                        tree@[#[trigger] keys[i]],
                        HeapView::Edge(rows[i]),
                    ),
                edges_view(list@) == rows.take(list@.len() as int),
                edge_listing(rows, self@.edges, out, address@),
            ensures
                list@.len() == keys.len(),
            decreases keys.len() - list@.len(),
        {
            let ghost at = list@.len() as int;
            match walk.next() {
                Some((key, value)) => {
                    if list.len() >= cap {
                        proof {
                            assert(edge_listing(rows, self@.edges, out, address@) && rows.len() > cap);
                        }
                        return None;
                    }
                    proof {
                        assert(tree@.contains_key(keys[at]));
                    }
                    if let Some(location) = RecordLocation::decode(&value) {
                        proof {
                            assert(holds(self.store@, location, HeapView::Edge(rows[at])));
                        }
                        if let Some(edge) = self.edge_at(location) {
                            let ghost before = list@;
                            list.push(edge);
                            proof {
                                assert(rows.take(at + 1) =~= rows.take(at).push(rows[at]));
                                assert(edges_view(list@) =~= edges_view(before).push(rows[at]));
                            }
                        }
                    }
                },
                None => {
                    break;
                },
            }
        }
        proof {
            assert(rows.take(rows.len() as int) =~= rows);
        }
        Some(list)
    }
}

// ---------------------------------------------------------------------
// Superseded states
// ---------------------------------------------------------------------

pub open spec fn history_view(list: Seq<HistoryEntry>) -> Seq<HistoryView> {
    Seq::new(list.len(), |i: int| list[i]@)
}

/// The superseded states of an address, oldest first.
pub open spec fn history_listing(
    rows: Seq<HistoryView>,
    history: Map<(Seq<char>, u64), HistoryView>,
    address: Seq<char>,
) -> bool {
    &&& forall|i: int, j: int| 0 <= i < j < rows.len() ==> (#[trigger] rows[i]).version < (#[trigger] rows[j]).version
    &&& forall|i: int|
        0 <= i < rows.len() ==> history.contains_key((address, (#[trigger] rows[i]).version)) && history[(
            address,
            rows[i].version,
        )] == rows[i]
    &&& forall|v: u64| #[trigger] history.contains_key((address, v)) ==> rows.contains(history[(address, v)])
}

spec fn key_version(history: Map<(Seq<char>, u64), HistoryView>, k: Seq<u8>) -> HistoryView {
    history[choose|x: (Seq<char>, u64)| #[trigger] history.contains_key(x) && k == version_key(x.0, x.1)]
}

spec fn key_versions(history: Map<(Seq<char>, u64), HistoryView>, keys: Seq<Seq<u8>>) -> Seq<HistoryView> {
    Seq::new(keys.len(), |i: int| key_version(history, keys[i]))
}

proof fn lemma_history_rows(
    tree: Entries,
    history: Map<(Seq<char>, u64), HistoryView>,
    store: StoreView,
    address: Seq<char>,
)
    requires
        history_ok(tree, history, store),
        tree.dom().finite(),
    ensures
        ({
            let keys = walk_keys(tree, part_prefix(address), None, false);
            let rows = key_versions(history, keys);
            &&& history_listing(rows, history, address)
            &&& forall|i: int|
                0 <= i < keys.len() ==> tree.contains_key(keys[i]) && points(
                    store,
                    tree[#[trigger] keys[i]],
                    HeapView::History(rows[i]),
                )
        }),
{
    reveal(history_ok);
    let prefix = part_prefix(address);
    let keys = walk_keys(tree, prefix, None, false);
    let rows = key_versions(history, keys);
    lemma_walk_facts(tree, prefix, None, false);
    assert forall|i: int| 0 <= i < keys.len() implies tree.contains_key(keys[i]) && points(
        store,
        tree[#[trigger] keys[i]],
        HeapView::History(rows[i]),
    ) && history.contains_key((address, rows[i].version)) && history[(address, rows[i].version)] == rows[i] && keys[i]
        == version_key(address, rows[i].version) by {
        let x = choose|x: (Seq<char>, u64)| #[trigger] history.contains_key(x) && keys[i] == version_key(x.0, x.1);
        assert(history.contains_key(x) && keys[i] == version_key(x.0, x.1));
        lemma_component_len(utf8(x.0));
        lemma_utf8_injective(x.0, address);
        lemma_component_prefix(utf8(x.0), crate::bytes::be_bytes(x.1 as nat, 8), utf8(address));
        assert(x == (address, rows[i].version));
    }
    assert forall|i: int| 0 <= i < rows.len() implies history.contains_key((address, (#[trigger] rows[i]).version))
        && history[(address, rows[i].version)] == rows[i] by {
        assert(tree.contains_key(keys[i]));
    }
    assert forall|i: int, j: int| 0 <= i < j < rows.len() implies (#[trigger] rows[i]).version < (
    #[trigger] rows[j]).version by {
        assert(tree.contains_key(keys[i]) && tree.contains_key(keys[j]));
        let (v, w) = (rows[i].version, rows[j].version);
        assert(bytes_lt(version_key(address, v), version_key(address, w)));
        lemma_lt_common_prefix(prefix, crate::bytes::be_bytes(v as nat, 8), crate::bytes::be_bytes(w as nat, 8));
        lemma_radix_values();
        lemma_lt_total(version_key(address, v), version_key(address, w));
        if w < v {
            lemma_be_order(w as nat, v as nat, 8);
            lemma_lt_common_prefix(prefix, crate::bytes::be_bytes(w as nat, 8), crate::bytes::be_bytes(v as nat, 8));
        }
    }
    assert forall|v: u64| #[trigger] history.contains_key((address, v)) implies rows.contains(history[(address, v)]) by {
        let k = version_key(address, v);
        assert(tree.contains_key(k));
        lemma_component_len(utf8(address));
        lemma_component_prefix(utf8(address), crate::bytes::be_bytes(v as nat, 8), utf8(address));
        assert(keys.contains(k));
        let i = choose|i: int| 0 <= i < keys.len() && keys[i] == k;
        assert(tree.contains_key(keys[i]));
        crate::keys::lemma_version_key(address, v, address, rows[i].version);
        assert(rows[i] == history[(address, v)]);
    }
}

impl Tables {
    /// The superseded states of an address, oldest first; none if there are
    /// more than `cap`.
    pub(crate) fn history_for(&self, address: &str, cap: usize) -> (r: Option<Vec<HistoryEntry>>)
        requires
            self.inv(),
        ensures
            match r {
                Some(list) => history_listing(history_view(list@), self@.history, address@) && list@.len() <= cap,
                None => exists|rows: Seq<HistoryView>|
                    #[trigger] history_listing(rows, self@.history, address@) && rows.len() > cap,
            },
    {
        let ghost history = self@.history;
        let ghost tree = self.history@;
        let ghost keys = walk_keys(tree, part_prefix(address@), None, false);
        let ghost rows = key_versions(history, keys);
        proof {
            self.history.lemma_wf();
            lemma_history_rows(tree, history, self.store@, address@);
        }
        let mut walk = Walk::new(&self.history, history_prefix(address), None, false);
        let mut list: Vec<HistoryEntry> = Vec::new();
        proof {
            assert(history_view(list@) =~= rows.take(0));
        }
        loop
            invariant
                self.inv(),
                walk.wf(),
                walk.keys() == keys,
                walk.entries() == tree,
                walk.behind() == list@.len(),
                list@.len() <= cap,
                list@.len() <= keys.len(),
                rows.len() == keys.len(),
                forall|i: int|
                    0 <= i < keys.len() ==> tree.contains_key(keys[i]) && points(
                        self.store@,
                        tree[#[trigger] keys[i]],
                        HeapView::History(rows[i]),
                    ),
                history_view(list@) == rows.take(list@.len() as int),
                history_listing(rows, self@.history, address@),
            ensures
                list@.len() == keys.len(),
            decreases keys.len() - list@.len(),
        {
            let ghost at = list@.len() as int;
            match walk.next() {
                Some((key, value)) => {
                    if list.len() >= cap {
                        proof {
                            assert(history_listing(rows, self@.history, address@) && rows.len() > cap);
                        }
                        return None;
                    }
                    proof {
                        assert(tree.contains_key(keys[at]));
                    }
                    if let Some(location) = RecordLocation::decode(&value) {
                        proof {
                            assert(holds(self.store@, location, HeapView::History(rows[at])));
                        }
                        if let Some(entry) = self.history_at(location) {
                            let ghost before = list@;
                            list.push(entry);
                            proof {
                                assert(rows.take(at + 1) =~= rows.take(at).push(rows[at]));
                                assert(history_view(list@) =~= history_view(before).push(rows[at]));
                            }
                        }
                    }
                },
                None => {
                    break;
                },
            }
        }
        proof {
            assert(rows.take(rows.len() as int) =~= rows);
        }
        Some(list)
    }
}

// ---------------------------------------------------------------------
// Nodes
// ---------------------------------------------------------------------

/// The nodes that a query without a condition asks for.
pub open spec fn eligible_nodes(q: QueryView) -> spec_fn(NodeView) -> bool {
    |n: NodeView| eligible(q, n)
}

/// The nodes that a requester may read; none asking is an administrator.
pub open spec fn readable(requester: Option<Seq<char>>) -> spec_fn(NodeView) -> bool {
    |n: NodeView| requester matches Some(r) ==> n.readable_by(r)
}

fn is_eligible<'q>(q: &Query<'q>, node: &Node) -> (r: bool)
    ensures
        r == eligible(q@, node@),
{
    (match q.kind {
        Some(k) => str_eq(&node.kind, k),
        None => true,
    }) && (match q.owner {
        Some(o) => str_eq(&node.owner, o),
        None => true,
    }) && (match q.requester {
        Some(r) => node.can_read(r),
        None => true,
    })
}

impl Tables {
    /// The nodes of a kind and an owner that a requester may read, in the
    /// order of their addresses: up to `limit` after the first `offset`.
    pub(crate) fn query<'q>(&self, q: &Query<'q>, limit: usize, offset: usize, cache: &mut RecordCache) -> (r: Vec<Node>)
        requires
            self.inv(),
            old(cache).wf(),
            agrees(old(cache)@, self.heap()),
        ensures
            final(cache).wf(),
            agrees(final(cache)@, self.heap()),
            nodes_view(r@) == window(listing(self@.nodes, eligible_nodes(q@)), offset as nat, limit as nat),
    {
        let ghost nodes = self@.nodes;
        let ghost want = eligible_nodes(q@);
        let mut out: Vec<Node> = Vec::new();
        let mut skipped: usize = 0;
        let mut rows = self.scan_candidates(q.kind, q.owner, None, false);
        let ghost all = rows.all();
        let ghost good = all.filter(want);
        proof {
            lemma_filter_listing(all, nodes, scanned(q@.kind, q@.owner), want, RankBy::Address, None, false);
            law_listing_is_unique(good, listing(nodes, want), nodes, want, RankBy::Address, None, false);
            reveal(Seq::filter);
            assert(all.take(0).filter(want) =~= Seq::<NodeView>::empty());
            assert(nodes_view(out@) =~= window(Seq::<NodeView>::empty(), offset as nat, limit as nat));
        }
        while out.len() < limit
            invariant
                self.inv(),
                cache.wf(),
                agrees(cache@, self.heap()),
                rows.wf(self),
                rows.all() == all,
                rows.taken() <= all.len(),
                want == eligible_nodes(q@),
                skipped <= offset,
                skipped == (if all.take(rows.taken() as int).filter(want).len() < offset {
                    all.take(rows.taken() as int).filter(want).len()
                } else {
                    offset as nat
                }),
                out@.len() <= limit,
                nodes_view(out@) == window(all.take(rows.taken() as int).filter(want), offset as nat, limit as nat),
            ensures
                out@.len() == limit || rows.taken() == all.len(),
            decreases all.len() - rows.taken(),
        {
            let ghost at = rows.taken() as int;
            let ghost g = all.take(at).filter(want);
            match rows.next(self, cache) {
                Some(node) => {
                    proof {
                        lemma_filter_step(all, want, at);
                    }
                    let ghost h = all.take(at + 1).filter(want);
                    if is_eligible(q, &node) {
                        proof {
                            assert(want(all[at]));
                        }
                        if skipped < offset {
                            skipped = skipped + 1;
                            proof {
                                assert(window(h, offset as nat, limit as nat) =~= window(g, offset as nat, limit as nat));
                            }
                        } else {
                            let ghost before = out@;
                            out.push(node);
                            proof {
                                assert(nodes_view(out@) =~= nodes_view(before).push(all[at]));
                                assert(window(h, offset as nat, limit as nat) =~= window(
                                    g,
                                    offset as nat,
                                    limit as nat,
                                ).push(all[at]));
                            }
                        }
                    } else {
                        proof {
                            assert(!want(all[at]));
                        }
                    }
                },
                None => {
                    break;
                },
            }
        }
        proof {
            let at = rows.taken() as int;
            lemma_filter_split(all, want, at);
            if at == all.len() {
                assert(all.take(at) =~= all);
            }
            assert(nodes_view(out@) =~= window(good, offset as nat, limit as nat));
        }
        out
    }

    /// An owner's nodes that a requester may read, in the order of their
    /// addresses; none if there are more than `cap` before the last of the
    /// owner's nodes.
    pub(crate) fn nodes_by_owner(
        &self,
        owner: &str,
        requester: Option<&str>,
        cap: usize,
        cache: &mut RecordCache,
    ) -> (r: Option<Vec<Node>>)
        requires
            self.inv(),
            old(cache).wf(),
            agrees(old(cache)@, self.heap()),
        ensures
            final(cache).wf(),
            agrees(final(cache)@, self.heap()),
            ({
                let owned = listing(self@.nodes, scanned(None, Some(owner@)));
                let may = readable(str_view(requester));
                match r {
                    Some(list) => {
                        &&& nodes_view(list@) == owned.filter(may)
                        &&& list@.len() <= cap
                        &&& owned.len() == 0 || owned.drop_last().filter(may).len() < cap
                    },
                    None => owned.len() > 0 && owned.drop_last().filter(may).len() >= cap,
                }
            }),
    {
        let ghost may = readable(str_view(requester));
        let ghost owned = listing(self@.nodes, scanned(None, Some(owner@)));
        let mut rows = self.scan_candidates(None, Some(owner), None, false);
        let ghost all = rows.all();
        let mut out: Vec<Node> = Vec::new();
        proof {
            law_listing_is_unique(all, owned, self@.nodes, scanned(None, Some(owner@)), RankBy::Address, None, false);
            reveal(Seq::filter);
            assert(all.take(0).filter(may) =~= Seq::<NodeView>::empty());
            assert(nodes_view(out@) =~= Seq::<NodeView>::empty());
        }
        loop
            invariant
                self.inv(),
                cache.wf(),
                agrees(cache@, self.heap()),
                rows.wf(self),
                rows.all() == all,
                rows.taken() <= all.len(),
                all == owned,
                owned == listing(self@.nodes, scanned(None, Some(owner@))),
                may == readable(str_view(requester)),
                out@.len() <= cap,
                nodes_view(out@) == all.take(rows.taken() as int).filter(may),
                rows.taken() > 0 ==> all.take(rows.taken() - 1).filter(may).len() < cap,
            ensures
                rows.taken() == all.len(),
            decreases all.len() - rows.taken(),
        {
            let ghost at = rows.taken() as int;
            match rows.next(self, cache) {
                Some(node) => {
                    if out.len() >= cap {
                        proof {
                            let init = all.drop_last();
                            assert(init.take(at) =~= all.take(at));
                            lemma_filter_split(init, may, at);
                        }
                        return None;
                    }
                    proof {
                        assert(all.take(at).filter(may).len() == out@.len());
                        lemma_filter_step(all, may, at);
                    }
                    let shown: bool = match requester {
                        Some(r) => node.can_read(r),
                        None => true,
                    };
                    if shown {
                        let ghost before = out@;
                        out.push(node);
                        proof {
                            assert(may(all[at]));
                            assert(nodes_view(out@) =~= nodes_view(before).push(all[at]));
                        }
                    } else {
                        proof {
                            assert(!may(all[at]));
                        }
                    }
                },
                None => {
                    break;
                },
            }
        }
        proof {
            assert(all.take(all.len() as int) =~= all);
            if all.len() > 0 {
                assert(all.take(all.len() - 1) =~= all.drop_last());
            }
        }
        Some(out)
    }
}

/// Why the nodes to delete could not be told.
#[derive(Debug)]
pub enum TargetError {
    Condition { message: String },
    ScanLimit { max: usize },
}

/// The condition cannot be evaluated on a row, and no more than `cap` of those
/// before it are chosen.
pub open spec fn untold<F: Fn(&Filter, &Node) -> Result<bool, String>>(
    eval: F,
    where_: Option<Filter>,
    rows: Seq<NodeView>,
    cap: nat,
    message: Seq<char>,
) -> bool {
    &&& chosen(eval, where_, rows, rows.len() as int) == Err::<Seq<NodeView>, Seq<char>>(message)
    &&& exists|k: int| {
        &&& 0 <= k < rows.len()
        &&& (#[trigger] chosen(eval, where_, rows, k)) is Ok
        &&& chosen(eval, where_, rows, k)->Ok_0.len() <= cap
        &&& condition(eval, where_, rows[k]) == Err::<bool, Seq<char>>(message)
    }
}

/// The texts are the addresses of the nodes.
pub open spec fn addresses_of(list: Seq<String>, rows: Seq<NodeView>) -> bool {
    list.len() == rows.len() && forall|i: int| 0 <= i < list.len() ==> (#[trigger] list[i])@ == rows[i].address
}

impl Tables {
    /// The addresses of the nodes of a kind that a requester may write and
    /// that a condition holds of, in order.
    pub(crate) fn delete_where_targets<F: Fn(&Filter, &Node) -> Result<bool, String>>(
        &self,
        kind: &str,
        where_: &Option<Filter>,
        owner: &str,
        is_admin: bool,
        cap: usize,
        eval: &F,
        cache: &mut RecordCache,
    ) -> (r: Result<Vec<String>, TargetError>)
        requires
            self.inv(),
            old(cache).wf(),
            agrees(old(cache)@, self.heap()),
            evaluates(*eval),
        ensures
            final(cache).wf(),
            agrees(final(cache)@, self.heap()),
            ({
                let rows = listing(self@.nodes, writable(kind@, owner@, is_admin));
                match r {
                    Ok(list) => {
                        &&& chosen(*eval, *where_, rows, rows.len() as int) is Ok
                        &&& addresses_of(list@, chosen(*eval, *where_, rows, rows.len() as int)->Ok_0)
                        &&& list@.len() <= cap
                    },
                    Err(TargetError::Condition { message }) => untold(*eval, *where_, rows, cap as nat, message@),
                    Err(TargetError::ScanLimit { max }) => max == cap && exists|k: int|
                        0 <= k <= rows.len() && (#[trigger] chosen(*eval, *where_, rows, k)) is Ok && chosen(
                            *eval,
                            *where_,
                            rows,
                            k,
                        )->Ok_0.len() > cap,
                }
            }),
    {
        let ghost nodes = self@.nodes;
        let ghost pick = writable(kind@, owner@, is_admin);
        let ghost good = listing(nodes, pick);
        let mut rows = self.scan_candidates(Some(kind), None, None, false);
        let ghost all = rows.all();
        let mut out: Vec<String> = Vec::new();
        proof {
            lemma_filter_listing(all, nodes, scanned(Some(kind@), None), pick, RankBy::Address, None, false);
            law_listing_is_unique(all.filter(pick), good, nodes, pick, RankBy::Address, None, false);
            reveal(Seq::filter);
            assert(all.take(0).filter(pick) =~= Seq::<NodeView>::empty());
        }
        loop
            invariant
                self.inv(),
                cache.wf(),
                agrees(cache@, self.heap()),
                evaluates(*eval),
                rows.wf(self),
                rows.all() == all,
                rows.taken() <= all.len(),
                nodes == self@.nodes,
                pick == writable(kind@, owner@, is_admin),
                good == listing(nodes, pick),
                all.filter(pick) == good,
                out@.len() <= cap,
                chosen(*eval, *where_, good, all.take(rows.taken() as int).filter(pick).len() as int) is Ok,
                addresses_of(
                    out@,
                    chosen(*eval, *where_, good, all.take(rows.taken() as int).filter(pick).len() as int)->Ok_0,
                ),
            ensures
                rows.taken() == all.len(),
            decreases all.len() - rows.taken(),
        {
            let ghost at = rows.taken() as int;
            let ghost k = all.take(at).filter(pick).len() as int;
            match rows.next(self, cache) {
                Some(node) => {
                    proof {
                        lemma_filter_step(all, pick, at);
                        lemma_filter_split(all, pick, at + 1);
                    }
                    if !(str_eq(&node.kind, kind) && (is_admin || node.can_write(owner))) {
                        proof {
                            assert(!pick(all[at]));
                        }
                        continue;
                    }
                    proof {
                        assert(pick(all[at]));
                        assert(good[k] == all[at]);
                    }
                    let held: Result<bool, String> = match where_ {
                        Some(f) => judge(eval, f, &node),
                        None => Ok(true),
                    };
                    proof {
                        assert(verdict_view(held) == condition(*eval, *where_, node@));
                    }
                    match held {
                        Ok(true) => {
                            if out.len() >= cap {
                                proof {
                                    let c = chosen(*eval, *where_, good, k + 1);
                                    assert(c is Ok && c->Ok_0.len() > cap);
                                }
                                return Err(TargetError::ScanLimit { max: cap });
                            }
                            out.push(node.address);
                        },
                        Ok(false) => {},
                        Err(message) => {
                            proof {
                                assert(chosen(*eval, *where_, good, k)->Ok_0.len() <= cap);
                                crate::tables::lower::lemma_chosen_err(
                                    *eval,
                                    *where_,
                                    good,
                                    k + 1,
                                    good.len() as int,
                                );
                            }
                            return Err(TargetError::Condition { message });
                        },
                    }
                },
                None => {
                    break;
                },
            }
        }
        proof {
            assert(all.take(all.len() as int) =~= all);
        }
        Ok(out)
    }
}

// ---------------------------------------------------------------------
// Counts
// ---------------------------------------------------------------------

/// Nodes of one kind.
#[derive(Debug)]
pub struct KindCount {
    pub kind: String,
    pub count: u64,
}

/// The kinds, each once and in order, and how many nodes there are of each.
pub open spec fn kind_counts(list: Seq<KindCount>, nodes: Nodes) -> bool {
    &&& forall|i: int, j: int|
        0 <= i < j < list.len() ==> crate::text::text_lt((#[trigger] list[i]).kind@, (#[trigger] list[j]).kind@)
    &&& forall|i: int|
        0 <= i < list.len() ==> (#[trigger] list[i]).count == capped(
            listing(nodes, scanned(Some(list[i].kind@), None)).len(),
        ) && has_kind(nodes, list[i].kind@)
    &&& forall|a: Seq<char>| #[trigger] nodes.contains_key(a) ==> counted(list, nodes[a].kind)
}

pub open spec fn has_kind(nodes: Nodes, kind: Seq<char>) -> bool {
    exists|a: Seq<char>| #[trigger] nodes.contains_key(a) && nodes[a].kind == kind
}

pub open spec fn counted(list: Seq<KindCount>, kind: Seq<char>) -> bool {
    exists|i: int| 0 <= i < list.len() && (#[trigger] list[i]).kind@ == kind
}

impl Tables {
    /// The kinds that nodes have, in order.
    fn kinds(&self) -> (r: Vec<String>)
        requires
            self.inv(),
        ensures
            texts_sorted(r@),
            forall|k: Seq<char>| #[trigger] has_text(r@, k) <==> has_kind(self@.nodes, k),
    {
        let ghost nodes = self@.nodes;
        let ghost tree = self.kind@;
        let empty: Vec<u8> = Vec::new();
        let mut walk = Walk::new(&self.kind, empty, None, false);
        let ghost keys = walk.keys();
        let mut found: Vec<String> = Vec::new();
        proof {
            self.kind.lemma_wf();
            lemma_walk_facts(tree, Seq::empty(), None, false);
            assert(empty@ =~= Seq::<u8>::empty());
        }
        loop
            invariant
                self.inv(),
                nodes == self@.nodes,
                tree == self.kind@,
                walk.wf(),
                walk.keys() == keys,
                walk.entries() == tree,
                walk.behind() <= keys.len(),
                forall|k: Seq<u8>| #[trigger] tree.contains_key(k) ==> 1 <= k.len() <= crate::btree::model::MAX_KEY_LEN,
                forall|k: Seq<char>| #[trigger] has_text(found@, k) ==> has_kind(nodes, k),
                forall|i: int| 0 <= i < walk.behind() ==> key_kind_found(found@, #[trigger] keys[i]),
            ensures
                walk.behind() == keys.len(),
            decreases keys.len() - walk.behind(),
        {
            let ghost at = walk.behind() as int;
            match walk.next() {
                Some((key, _)) => {
                    let ghost before = found@;
                    let ghost a = lemma_kind_key(tree, nodes, key@);
                    let ghost kind = nodes[a].kind;
                    if let Some((part, _)) = split_component(&key) {
                        let text = text_of_bytes(&part);
                        proof {
                            assert(text@ == kind);
                        }
                        let known: bool = found.len() > 0 && str_eq(&found[found.len() - 1], &text);
                        if !known {
                            found.push(text);
                        }
                        proof {
                            assert(found@[found@.len() - 1]@ == kind);
                            assert(has_text(found@, kind));
                            assert forall|k: Seq<char>| #[trigger] has_text(found@, k) implies has_kind(nodes, k) by {
                                let i = choose|i: int| 0 <= i < found@.len() && (#[trigger] found@[i])@ == k;
                                if i < before.len() {
                                    assert(before[i]@ == k);
                                    assert(has_text(before, k));
                                } else {
                                    assert(nodes.contains_key(a) && nodes[a].kind == k);
                                }
                            }
                            assert forall|i: int| 0 <= i < walk.behind() implies key_kind_found(
                                found@,
                                #[trigger] keys[i],
                            ) by {
                                if i < at {
                                    let k = choose|k: Seq<char>|
                                        #[trigger] has_text(before, k) && has_prefix(keys[i], part_prefix(k));
                                    let j = choose|j: int| 0 <= j < before.len() && (#[trigger] before[j])@ == k;
                                    assert(found@[j]@ == k);
                                    assert(has_text(found@, k));
                                } else {
                                    assert(has_prefix(keys[i], part_prefix(kind)));
                                }
                            }
                        }
                    }
                },
                None => {
                    break;
                },
            }
        }
        proof {
            assert forall|k: Seq<char>| has_kind(nodes, k) implies #[trigger] has_text(found@, k) by {
                let a = choose|a: Seq<char>| #[trigger] nodes.contains_key(a) && nodes[a].kind == k;
                lemma_nodes_at(self.primary@, nodes, self.store@, a);
                let key = part_key(k, a);
                assert(listed(NodeIndex::Kind, nodes, a, key));
                lemma_index_has(NodeIndex::Kind, tree, nodes, key);
                assert(tree.contains_key(key));
                assert(key.take(0) =~= Seq::<u8>::empty());
                assert(keys.contains(key));
                let i = choose|i: int| 0 <= i < keys.len() && keys[i] == key;
                assert(key_kind_found(found@, keys[i]));
                let other = choose|o: Seq<char>| #[trigger] has_text(found@, o) && has_prefix(keys[i], part_prefix(o));
                crate::keys::lemma_part_prefix(k, a, other);
            }
        }
        sorted_distinct(&found)
    }

    /// How many nodes there are of each kind.
    pub(crate) fn count_kinds(&self) -> (r: Vec<KindCount>)
        requires
            self.inv(),
        ensures
            kind_counts(r@, self@.nodes),
    {
        let kinds = self.kinds();
        let ghost nodes = self@.nodes;
        let mut out: Vec<KindCount> = Vec::new();
        let mut i: usize = 0;
        while i < kinds.len()
            invariant
                self.inv(),
                nodes == self@.nodes,
                i <= kinds@.len(),
                out@.len() == i,
                forall|j: int|
                    0 <= j < i ==> (#[trigger] out@[j]).kind@ == kinds@[j]@ && out@[j].count == capped(
                        listing(nodes, scanned(Some(kinds@[j]@), None)).len(),
                    ),
            decreases kinds.len() - i,
        {
            let kind = kinds[i].clone();
            let rows = self.scan_candidates(Some(kind.as_str()), None, None, false);
            proof {
                let pick = scanned(Some(kind@), None);
                law_listing_is_unique(rows.all(), listing(nodes, pick), nodes, pick, RankBy::Address, None, false);
            }
            let count = self.count_rows(rows);
            out.push(KindCount { kind, count });
            i = i + 1;
        }
        proof {
            assert forall|j: int| 0 <= j < out@.len() implies has_kind(nodes, (#[trigger] out@[j]).kind@) by {
                assert(has_text(kinds@, kinds@[j]@));
            }
            assert forall|a: Seq<char>| #[trigger] nodes.contains_key(a) implies counted(out@, nodes[a].kind) by {
                assert(has_kind(nodes, nodes[a].kind));
                assert(has_text(kinds@, nodes[a].kind));
                let j = choose|j: int| 0 <= j < kinds@.len() && (#[trigger] kinds@[j])@ == nodes[a].kind;
                assert(out@[j].kind@ == nodes[a].kind);
            }
        }
        out
    }
}

/// Some text found is the part that the key begins with.
spec fn key_kind_found(found: Seq<String>, key: Seq<u8>) -> bool {
    exists|k: Seq<char>| #[trigger] has_text(found, k) && has_prefix(key, part_prefix(k))
}

proof fn lemma_kind_key(tree: Entries, nodes: Nodes, key: Seq<u8>) -> (a: Seq<char>)
    requires
        crate::tables::model::index_ok(NodeIndex::Kind, tree, nodes),
        tree.contains_key(key),
        key.len() <= crate::btree::model::MAX_KEY_LEN,
    ensures
        nodes.contains_key(a),
        key == part_key(nodes[a].kind, nodes[a].address),
        crate::keys::split_of(key) == Some((utf8(nodes[a].kind), 4 + utf8(nodes[a].kind).len() as int)),
        has_prefix(key, part_prefix(nodes[a].kind)),
{
    lemma_index_has(NodeIndex::Kind, tree, nodes, key);
    let a = choose|a: Seq<char>| #[trigger] listed(NodeIndex::Kind, nodes, a, key);
    let kind = nodes[a].kind;
    lemma_component_len(utf8(kind));
    lemma_split(utf8(kind), utf8(nodes[a].address));
    crate::keys::lemma_part_prefix(kind, nodes[a].address, kind);
    a
}

} // verus!
