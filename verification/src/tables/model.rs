//! What the tables hold, and how the indexes stand to it.

use vstd::prelude::*;

use crate::btree::model::MAX_KEY_LEN;
use crate::defs::{IndexDefView, IndexOpView, ReferenceDefView, ReferenceOpView, TextIndexDefView, TextIndexOpView};
use crate::heap::{holds, keeps, HeapView, StoreView};
use crate::json::field_of;
use crate::keys::{
    gram_key, has_gram, in_key, indexed_text_of, lemma_edge_keys, lemma_part_key, lemma_value_key, lemma_version_key,
    out_key, part_key, value_key, version_key, GRAM_LEN, MAX_INDEX_VALUE_LEN,
};
use crate::location::location_of;
use crate::order::order_code;
use crate::record::{heap_fields, packed};
use crate::text::{lemma_utf8_injective, text_lt, utf8};
use crate::types::{EdgeIdView, EdgeView, HistoryView, NodeView, UserView};
use crate::wal::OperationView;

verus! {

/// The contents of a database.
#[verifier::ext_equal]
pub struct DbView {
    pub nodes: Map<Seq<char>, NodeView>,
    pub edges: Map<EdgeIdView, EdgeView>,
    /// Superseded states, by address and version.
    pub history: Map<(Seq<char>, u64), HistoryView>,
    pub users: Map<Seq<char>, UserView>,
    /// Data indexes, by name.
    pub data: Seq<IndexDefView>,
    /// Text indexes, by name.
    pub text: Seq<TextIndexDefView>,
    /// References, by name.
    pub references: Seq<ReferenceDefView>,
}

pub type Entries = Map<Seq<u8>, Seq<u8>>;

pub type Nodes = Map<Seq<char>, NodeView>;

// ---------------------------------------------------------------------
// What fits
// ---------------------------------------------------------------------

/// The record is short enough for a frame.
pub open spec fn record_fits(r: HeapView) -> bool {
    packed(heap_fields(r)).len() <= crate::binary::MAX_RECORD_PAYLOAD_LEN
}

/// The keys of a node are keys.
pub open spec fn node_fits(n: NodeView) -> bool {
    &&& 1 <= utf8(n.address).len() <= MAX_KEY_LEN
    &&& part_key(n.kind, n.address).len() <= MAX_KEY_LEN
    &&& part_key(n.owner, n.address).len() <= MAX_KEY_LEN
}

/// A node's key in a data index is a key, and its value not too long.
pub open spec fn data_fits(d: IndexDefView, n: NodeView) -> bool {
    n.kind == d.kind ==> {
        let code = order_code(field_of(n.data, d.field));
        code.len() <= MAX_INDEX_VALUE_LEN && code.len() + utf8(n.address).len() <= MAX_KEY_LEN
    }
}

/// A node's keys in a text index are keys.
pub open spec fn text_fits(d: TextIndexDefView, n: NodeView) -> bool {
    n.kind == d.kind && indexed_text_of(n.data, d.field) is Some ==> GRAM_LEN + utf8(n.address).len()
        <= MAX_KEY_LEN
}

pub open spec fn edge_fits(e: EdgeView) -> bool {
    out_key(e.id()).len() <= MAX_KEY_LEN
}

pub open spec fn history_fits(h: HistoryView) -> bool {
    version_key(h.address, h.version).len() <= MAX_KEY_LEN
}

// ---------------------------------------------------------------------
// Indexes over nodes
// ---------------------------------------------------------------------

/// An index over nodes.
pub enum NodeIndex {
    Kind,
    Owner,
    Data(IndexDefView),
    Text(TextIndexDefView),
}

/// The index has the key `k` for the node.
pub open spec fn entry(ix: NodeIndex, n: NodeView, k: Seq<u8>) -> bool {
    match ix {
        NodeIndex::Kind => k == part_key(n.kind, n.address),
        NodeIndex::Owner => k == part_key(n.owner, n.address),
        NodeIndex::Data(d) => n.kind == d.kind && k == value_key(field_of(n.data, d.field), n.address),
        NodeIndex::Text(d) => {
            &&& n.kind == d.kind
            &&& indexed_text_of(n.data, d.field) is Some
            &&& k.len() >= GRAM_LEN
            &&& has_gram(utf8(indexed_text_of(n.data, d.field)->0), k.take(GRAM_LEN as int))
            &&& k == gram_key(k.take(GRAM_LEN as int), n.address)
        },
    }
}

/// The node at `a` has the key `k`.
pub open spec fn listed(ix: NodeIndex, nodes: Nodes, a: Seq<char>, k: Seq<u8>) -> bool {
    nodes.contains_key(a) && entry(ix, nodes[a], k)
}

/// The index has just the keys of the nodes.
#[verifier::opaque]
pub open spec fn index_ok(ix: NodeIndex, tree: Entries, nodes: Nodes) -> bool {
    forall|k: Seq<u8>| #[trigger] tree.contains_key(k) <==> exists|a: Seq<char>| #[trigger] listed(ix, nodes, a, k)
}

/// Every node is found under its own address, and its keys are keys.
pub open spec fn addressed(nodes: Nodes) -> bool {
    forall|a: Seq<char>| #[trigger] nodes.contains_key(a) ==> nodes[a].address == a && node_fits(nodes[a])
}

/// A key leads to one address.
pub proof fn lemma_entry_address(ix: NodeIndex, m: NodeView, n: NodeView, k: Seq<u8>)
    requires
        entry(ix, m, k),
        entry(ix, n, k),
        node_fits(m),
        node_fits(n),
    ensures
        m.address == n.address,
{
    match ix {
        NodeIndex::Kind => {
            lemma_part_key(m.kind, m.address, n.kind, n.address);
        },
        NodeIndex::Owner => {
            lemma_part_key(m.owner, m.address, n.owner, n.address);
        },
        NodeIndex::Data(d) => {
            lemma_value_key(field_of(m.data, d.field), m.address, field_of(n.data, d.field), n.address);
        },
        NodeIndex::Text(d) => {
            let g = k.take(GRAM_LEN as int);
            crate::keys::lemma_gram_key(g, m.address, g, n.address);
        },
    }
}

pub proof fn lemma_index_has(ix: NodeIndex, tree: Entries, nodes: Nodes, k: Seq<u8>)
    requires
        index_ok(ix, tree, nodes),
    ensures
        tree.contains_key(k) <==> exists|a: Seq<char>| #[trigger] listed(ix, nodes, a, k),
{
    reveal(index_ok);
}

/// The node is there or not: where it is, it is `prev`.
pub open spec fn holds_prev(nodes: Nodes, a: Seq<char>, prev: Option<NodeView>) -> bool {
    match prev {
        Some(p) => nodes.contains_key(a) && nodes[a] == p,
        None => !nodes.contains_key(a),
    }
}

/// The key is that of the state before.
pub open spec fn prev_entry(ix: NodeIndex, prev: Option<NodeView>, k: Seq<u8>) -> bool {
    prev matches Some(p) && entry(ix, p, k)
}

/// An index follows an insert by losing the keys of the state before and
/// getting those of the new one.
pub proof fn lemma_index_insert(
    ix: NodeIndex,
    before: Entries,
    after: Entries,
    nodes: Nodes,
    n: NodeView,
    prev: Option<NodeView>,
)
    requires
        index_ok(ix, before, nodes),
        addressed(nodes),
        node_fits(n),
        holds_prev(nodes, n.address, prev),
        forall|k: Seq<u8>| #[trigger]
            after.contains_key(k) <==> entry(ix, n, k) || (before.contains_key(k) && !prev_entry(ix, prev, k)),
    ensures
        index_ok(ix, after, nodes.insert(n.address, n)),
{
    reveal(index_ok);
    let next = nodes.insert(n.address, n);
    assert forall|k: Seq<u8>| #[trigger] after.contains_key(k) <==> exists|a: Seq<char>| #[trigger]
        listed(ix, next, a, k) by {
        if entry(ix, n, k) {
            assert(listed(ix, next, n.address, k));
        }
        if before.contains_key(k) && !prev_entry(ix, prev, k) {
            let a = choose|a: Seq<char>| #[trigger] listed(ix, nodes, a, k);
            assert(a != n.address);
            assert(listed(ix, next, a, k));
        }
        if exists|a: Seq<char>| #[trigger] listed(ix, next, a, k) {
            let a = choose|a: Seq<char>| #[trigger] listed(ix, next, a, k);
            if a != n.address {
                assert(listed(ix, nodes, a, k));
                assert(before.contains_key(k));
                if prev_entry(ix, prev, k) {
                    lemma_entry_address(ix, nodes[a], prev->0, k);
                    assert(nodes[a].address == a);
                    assert(nodes[n.address].address == n.address);
                }
            }
        }
    }
}

/// An index follows a delete by losing the keys of the state before.
pub proof fn lemma_index_remove(ix: NodeIndex, before: Entries, after: Entries, nodes: Nodes, prev: NodeView)
    requires
        index_ok(ix, before, nodes),
        addressed(nodes),
        holds_prev(nodes, prev.address, Some(prev)),
        forall|k: Seq<u8>| #[trigger] after.contains_key(k) <==> before.contains_key(k) && !entry(ix, prev, k),
    ensures
        index_ok(ix, after, nodes.remove(prev.address)),
{
    reveal(index_ok);
    let next = nodes.remove(prev.address);
    assert forall|k: Seq<u8>| #[trigger] after.contains_key(k) <==> exists|a: Seq<char>| #[trigger]
        listed(ix, next, a, k) by {
        if before.contains_key(k) && !entry(ix, prev, k) {
            let a = choose|a: Seq<char>| #[trigger] listed(ix, nodes, a, k);
            assert(a != prev.address);
            assert(listed(ix, next, a, k));
        }
        if exists|a: Seq<char>| #[trigger] listed(ix, next, a, k) {
            let a = choose|a: Seq<char>| #[trigger] listed(ix, next, a, k);
            assert(listed(ix, nodes, a, k));
            assert(before.contains_key(k));
            if entry(ix, prev, k) {
                lemma_entry_address(ix, nodes[a], prev, k);
                assert(nodes[a].address == a);
            }
        }
    }
}

// ---------------------------------------------------------------------
// Records behind keys
// ---------------------------------------------------------------------

/// The bytes are a location, and the record is there.
pub open spec fn points(store: StoreView, bytes: Seq<u8>, r: HeapView) -> bool {
    location_of(bytes) matches Some(l) && holds(store, l, r)
}

pub proof fn lemma_points_kept(u: StoreView, v: StoreView, bytes: Seq<u8>, r: HeapView)
    requires
        keeps(u, v),
        points(u, bytes, r),
    ensures
        points(v, bytes, r),
{
    let l = location_of(bytes)->0;
    assert(holds(u, l, r));
}

/// The address index leads from each node's address to its record.
#[verifier::opaque]
pub open spec fn nodes_ok(tree: Entries, nodes: Nodes, store: StoreView) -> bool {
    &&& addressed(nodes)
    &&& forall|a: Seq<char>| #[trigger]
        nodes.contains_key(a) ==> tree.contains_key(utf8(a)) && points(store, tree[utf8(a)], HeapView::Node(nodes[a]))
    &&& forall|k: Seq<u8>| #[trigger]
        tree.contains_key(k) ==> exists|a: Seq<char>| #[trigger] nodes.contains_key(a) && k == utf8(a)
}

pub proof fn lemma_nodes_at(tree: Entries, nodes: Nodes, store: StoreView, a: Seq<char>)
    requires
        nodes_ok(tree, nodes, store),
    ensures
        addressed(nodes),
        nodes.contains_key(a) <==> tree.contains_key(utf8(a)),
        nodes.contains_key(a) ==> points(store, tree[utf8(a)], HeapView::Node(nodes[a])),
{
    reveal(nodes_ok);
    if tree.contains_key(utf8(a)) {
        let b = choose|b: Seq<char>| #[trigger] nodes.contains_key(b) && utf8(a) == utf8(b);
        lemma_utf8_injective(a, b);
    }
}

/// A key of the address index is the address of a node.
pub proof fn lemma_nodes_key(tree: Entries, nodes: Nodes, store: StoreView, k: Seq<u8>) -> (a: Seq<char>)
    requires
        nodes_ok(tree, nodes, store),
        tree.contains_key(k),
    ensures
        nodes.contains_key(a),
        k == utf8(a),
        points(store, tree[k], HeapView::Node(nodes[a])),
{
    reveal(nodes_ok);
    choose|a: Seq<char>| #[trigger] nodes.contains_key(a) && k == utf8(a)
}

pub proof fn lemma_nodes_kept(tree: Entries, nodes: Nodes, u: StoreView, v: StoreView)
    requires
        nodes_ok(tree, nodes, u),
        keeps(u, v),
    ensures
        nodes_ok(tree, nodes, v),
{
    reveal(nodes_ok);
    assert forall|a: Seq<char>| #[trigger] nodes.contains_key(a) implies tree.contains_key(utf8(a)) && points(
        v,
        tree[utf8(a)],
        HeapView::Node(nodes[a]),
    ) by {
        lemma_points_kept(u, v, tree[utf8(a)], HeapView::Node(nodes[a]));
    }
}

pub proof fn lemma_nodes_insert(tree: Entries, nodes: Nodes, store: StoreView, n: NodeView, bytes: Seq<u8>)
    requires
        nodes_ok(tree, nodes, store),
        node_fits(n),
        points(store, bytes, HeapView::Node(n)),
    ensures
        nodes_ok(tree.insert(utf8(n.address), bytes), nodes.insert(n.address, n), store),
{
    reveal(nodes_ok);
    let t = tree.insert(utf8(n.address), bytes);
    let m = nodes.insert(n.address, n);
    assert forall|a: Seq<char>| #[trigger] m.contains_key(a) implies t.contains_key(utf8(a)) && points(
        store,
        t[utf8(a)],
        HeapView::Node(m[a]),
    ) by {
        lemma_utf8_injective(a, n.address);
        if a != n.address {
            assert(nodes.contains_key(a));
        }
    }
    assert forall|k: Seq<u8>| #[trigger] t.contains_key(k) implies exists|a: Seq<char>| #[trigger]
        m.contains_key(a) && k == utf8(a) by {
        if k == utf8(n.address) {
            assert(m.contains_key(n.address));
        } else {
            let a = choose|a: Seq<char>| #[trigger] nodes.contains_key(a) && k == utf8(a);
            assert(m.contains_key(a));
        }
    }
    assert forall|a: Seq<char>| #[trigger] m.contains_key(a) implies m[a].address == a && node_fits(m[a]) by {
        if a != n.address {
            assert(nodes.contains_key(a));
        }
    }
}

pub proof fn lemma_nodes_remove(tree: Entries, nodes: Nodes, store: StoreView, address: Seq<char>)
    requires
        nodes_ok(tree, nodes, store),
    ensures
        nodes_ok(tree.remove(utf8(address)), nodes.remove(address), store),
{
    reveal(nodes_ok);
    let t = tree.remove(utf8(address));
    let m = nodes.remove(address);
    assert forall|a: Seq<char>| #[trigger] m.contains_key(a) implies t.contains_key(utf8(a)) && points(
        store,
        t[utf8(a)],
        HeapView::Node(m[a]),
    ) by {
        lemma_utf8_injective(a, address);
        assert(nodes.contains_key(a));
    }
    assert forall|k: Seq<u8>| #[trigger] t.contains_key(k) implies exists|a: Seq<char>| #[trigger]
        m.contains_key(a) && k == utf8(a) by {
        assert(tree.contains_key(k));
        let a = choose|a: Seq<char>| #[trigger] nodes.contains_key(a) && k == utf8(a);
        assert(m.contains_key(a));
    }
    assert forall|a: Seq<char>| #[trigger] m.contains_key(a) implies m[a].address == a && node_fits(m[a]) by {
        assert(nodes.contains_key(a));
    }
}

/// The two edge indexes lead from each edge's keys to its record.
#[verifier::opaque]
pub open spec fn edges_ok(
    outs: Entries,
    ins: Entries,
    edges: Map<EdgeIdView, EdgeView>,
    store: StoreView,
) -> bool {
    &&& forall|id: EdgeIdView| #[trigger]
        edges.contains_key(id) ==> {
            &&& edges[id].id() == id
            &&& edge_fits(edges[id])
            &&& outs.contains_key(out_key(id))
            &&& ins.contains_key(in_key(id))
            &&& points(store, outs[out_key(id)], HeapView::Edge(edges[id]))
            &&& ins[in_key(id)] == outs[out_key(id)]
        }
    &&& forall|k: Seq<u8>| #[trigger]
        outs.contains_key(k) ==> exists|id: EdgeIdView| #[trigger] edges.contains_key(id) && k == out_key(id)
    &&& forall|k: Seq<u8>| #[trigger]
        ins.contains_key(k) ==> exists|id: EdgeIdView| #[trigger] edges.contains_key(id) && k == in_key(id)
}

/// Two edges that could be in the tables have keys of their own; a key too
/// long for the tables is none of theirs.
proof fn lemma_edge_key_apart(edges: Map<EdgeIdView, EdgeView>, held: EdgeIdView, id: EdgeIdView)
    requires
        edges.contains_key(held),
        edges[held].id() == held,
        edge_fits(edges[held]),
    ensures
        out_key(held) == out_key(id) <==> held == id,
        in_key(held) == in_key(id) <==> held == id,
{
    crate::keys::lemma_component_len(utf8(id.from));
    crate::keys::lemma_component_len(utf8(id.to));
    crate::keys::lemma_component_len(utf8(id.kind));
    crate::keys::lemma_component_len(utf8(held.from));
    crate::keys::lemma_component_len(utf8(held.to));
    crate::keys::lemma_component_len(utf8(held.kind));
    if out_key(id).len() <= u32::MAX {
        lemma_edge_keys(held, id);
    } else {
        assert(out_key(id).len() == in_key(id).len());
        assert(out_key(held).len() == in_key(held).len());
    }
}

pub proof fn lemma_edges_at(
    outs: Entries,
    ins: Entries,
    edges: Map<EdgeIdView, EdgeView>,
    store: StoreView,
    id: EdgeIdView,
)
    requires
        edges_ok(outs, ins, edges, store),
    ensures
        edges.contains_key(id) <==> outs.contains_key(out_key(id)),
        edges.contains_key(id) <==> ins.contains_key(in_key(id)),
        edges.contains_key(id) ==> {
            &&& points(store, outs[out_key(id)], HeapView::Edge(edges[id]))
            &&& ins[in_key(id)] == outs[out_key(id)]
            &&& edges[id].id() == id
        },
{
    reveal(edges_ok);
    if outs.contains_key(out_key(id)) {
        let held = choose|held: EdgeIdView| #[trigger] edges.contains_key(held) && out_key(id) == out_key(held);
        lemma_edge_key_apart(edges, held, id);
    }
    if ins.contains_key(in_key(id)) {
        let held = choose|held: EdgeIdView| #[trigger] edges.contains_key(held) && in_key(id) == in_key(held);
        lemma_edge_key_apart(edges, held, id);
    }
}

pub proof fn lemma_edges_kept(
    outs: Entries,
    ins: Entries,
    edges: Map<EdgeIdView, EdgeView>,
    u: StoreView,
    v: StoreView,
)
    requires
        edges_ok(outs, ins, edges, u),
        keeps(u, v),
    ensures
        edges_ok(outs, ins, edges, v),
{
    reveal(edges_ok);
    assert forall|id: EdgeIdView| #[trigger] edges.contains_key(id) implies {
        &&& edges[id].id() == id
        &&& edge_fits(edges[id])
        &&& outs.contains_key(out_key(id))
        &&& ins.contains_key(in_key(id))
        &&& points(v, outs[out_key(id)], HeapView::Edge(edges[id]))
        &&& points(v, ins[in_key(id)], HeapView::Edge(edges[id]))
    } by {
        lemma_points_kept(u, v, outs[out_key(id)], HeapView::Edge(edges[id]));
        lemma_points_kept(u, v, ins[in_key(id)], HeapView::Edge(edges[id]));
    }
}

pub proof fn lemma_edges_insert(
    outs: Entries,
    ins: Entries,
    edges: Map<EdgeIdView, EdgeView>,
    store: StoreView,
    e: EdgeView,
    bytes: Seq<u8>,
)
    requires
        edges_ok(outs, ins, edges, store),
        edge_fits(e),
        points(store, bytes, HeapView::Edge(e)),
    ensures
        edges_ok(
            outs.insert(out_key(e.id()), bytes),
            ins.insert(in_key(e.id()), bytes),
            edges.insert(e.id(), e),
            store,
        ),
{
    reveal(edges_ok);
    let o = outs.insert(out_key(e.id()), bytes);
    let i = ins.insert(in_key(e.id()), bytes);
    let m = edges.insert(e.id(), e);
    assert forall|id: EdgeIdView| #[trigger] m.contains_key(id) implies {
        &&& m[id].id() == id
        &&& edge_fits(m[id])
        &&& o.contains_key(out_key(id))
        &&& i.contains_key(in_key(id))
        &&& points(store, o[out_key(id)], HeapView::Edge(m[id]))
        &&& points(store, i[in_key(id)], HeapView::Edge(m[id]))
    } by {
        if id != e.id() {
            assert(edges.contains_key(id));
            lemma_edge_key_apart(edges, id, e.id());
        }
    }
    assert forall|k: Seq<u8>| #[trigger] o.contains_key(k) implies exists|id: EdgeIdView| #[trigger]
        m.contains_key(id) && k == out_key(id) by {
        if k == out_key(e.id()) {
            assert(m.contains_key(e.id()));
        } else {
            assert(outs.contains_key(k));
            let id = choose|id: EdgeIdView| #[trigger] edges.contains_key(id) && k == out_key(id);
            assert(m.contains_key(id));
        }
    }
    assert forall|k: Seq<u8>| #[trigger] i.contains_key(k) implies exists|id: EdgeIdView| #[trigger]
        m.contains_key(id) && k == in_key(id) by {
        if k == in_key(e.id()) {
            assert(m.contains_key(e.id()));
        } else {
            assert(ins.contains_key(k));
            let id = choose|id: EdgeIdView| #[trigger] edges.contains_key(id) && k == in_key(id);
            assert(m.contains_key(id));
        }
    }
}

pub proof fn lemma_edges_remove(
    outs: Entries,
    ins: Entries,
    edges: Map<EdgeIdView, EdgeView>,
    store: StoreView,
    id: EdgeIdView,
)
    requires
        edges_ok(outs, ins, edges, store),
    ensures
        edges_ok(outs.remove(out_key(id)), ins.remove(in_key(id)), edges.remove(id), store),
{
    reveal(edges_ok);
    let o = outs.remove(out_key(id));
    let i = ins.remove(in_key(id));
    let m = edges.remove(id);
    assert forall|x: EdgeIdView| #[trigger] m.contains_key(x) implies {
        &&& m[x].id() == x
        &&& edge_fits(m[x])
        &&& o.contains_key(out_key(x))
        &&& i.contains_key(in_key(x))
        &&& points(store, o[out_key(x)], HeapView::Edge(m[x]))
        &&& points(store, i[in_key(x)], HeapView::Edge(m[x]))
    } by {
        assert(edges.contains_key(x));
        lemma_edge_key_apart(edges, x, id);
    }
    assert forall|k: Seq<u8>| #[trigger] o.contains_key(k) implies exists|x: EdgeIdView| #[trigger]
        m.contains_key(x) && k == out_key(x) by {
        assert(outs.contains_key(k));
        let x = choose|x: EdgeIdView| #[trigger] edges.contains_key(x) && k == out_key(x);
        assert(m.contains_key(x));
    }
    assert forall|k: Seq<u8>| #[trigger] i.contains_key(k) implies exists|x: EdgeIdView| #[trigger]
        m.contains_key(x) && k == in_key(x) by {
        assert(ins.contains_key(k));
        let x = choose|x: EdgeIdView| #[trigger] edges.contains_key(x) && k == in_key(x);
        assert(m.contains_key(x));
    }
}

/// The history index leads from each state's key to its record.
#[verifier::opaque]
pub open spec fn history_ok(
    tree: Entries,
    history: Map<(Seq<char>, u64), HistoryView>,
    store: StoreView,
) -> bool {
    &&& forall|x: (Seq<char>, u64)| #[trigger]
        history.contains_key(x) ==> {
            &&& history[x].address == x.0
            &&& history[x].version == x.1
            &&& history_fits(history[x])
            &&& tree.contains_key(version_key(x.0, x.1))
            &&& points(store, tree[version_key(x.0, x.1)], HeapView::History(history[x]))
        }
    &&& forall|k: Seq<u8>| #[trigger]
        tree.contains_key(k) ==> exists|x: (Seq<char>, u64)| #[trigger]
            history.contains_key(x) && k == version_key(x.0, x.1)
}

pub proof fn lemma_history_at(
    tree: Entries,
    history: Map<(Seq<char>, u64), HistoryView>,
    store: StoreView,
    x: (Seq<char>, u64),
)
    requires
        history_ok(tree, history, store),
        version_key(x.0, x.1).len() <= MAX_KEY_LEN,
    ensures
        history.contains_key(x) <==> tree.contains_key(version_key(x.0, x.1)),
        history.contains_key(x) ==> points(store, tree[version_key(x.0, x.1)], HeapView::History(history[x])),
{
    reveal(history_ok);
    if tree.contains_key(version_key(x.0, x.1)) {
        let y = choose|y: (Seq<char>, u64)| #[trigger]
            history.contains_key(y) && version_key(x.0, x.1) == version_key(y.0, y.1);
        lemma_version_key(x.0, x.1, y.0, y.1);
        assert(x == y);
    }
}

pub proof fn lemma_history_kept(
    tree: Entries,
    history: Map<(Seq<char>, u64), HistoryView>,
    u: StoreView,
    v: StoreView,
)
    requires
        history_ok(tree, history, u),
        keeps(u, v),
    ensures
        history_ok(tree, history, v),
{
    reveal(history_ok);
    assert forall|x: (Seq<char>, u64)| #[trigger] history.contains_key(x) implies {
        &&& history[x].address == x.0
        &&& history[x].version == x.1
        &&& history_fits(history[x])
        &&& tree.contains_key(version_key(x.0, x.1))
        &&& points(v, tree[version_key(x.0, x.1)], HeapView::History(history[x]))
    } by {
        lemma_points_kept(u, v, tree[version_key(x.0, x.1)], HeapView::History(history[x]));
    }
}

pub proof fn lemma_history_insert(
    tree: Entries,
    history: Map<(Seq<char>, u64), HistoryView>,
    store: StoreView,
    h: HistoryView,
    bytes: Seq<u8>,
)
    requires
        history_ok(tree, history, store),
        history_fits(h),
        points(store, bytes, HeapView::History(h)),
    ensures
        history_ok(
            tree.insert(version_key(h.address, h.version), bytes),
            history.insert((h.address, h.version), h),
            store,
        ),
{
    reveal(history_ok);
    let t = tree.insert(version_key(h.address, h.version), bytes);
    let m = history.insert((h.address, h.version), h);
    assert forall|x: (Seq<char>, u64)| #[trigger] m.contains_key(x) implies {
        &&& m[x].address == x.0
        &&& m[x].version == x.1
        &&& history_fits(m[x])
        &&& t.contains_key(version_key(x.0, x.1))
        &&& points(store, t[version_key(x.0, x.1)], HeapView::History(m[x]))
    } by {
        if x != (h.address, h.version) {
            assert(history.contains_key(x));
            lemma_version_key(x.0, x.1, h.address, h.version);
        }
    }
    assert forall|k: Seq<u8>| #[trigger] t.contains_key(k) implies exists|x: (Seq<char>, u64)| #[trigger]
        m.contains_key(x) && k == version_key(x.0, x.1) by {
        if k == version_key(h.address, h.version) {
            assert(m.contains_key((h.address, h.version)));
        } else {
            assert(tree.contains_key(k));
            let x = choose|x: (Seq<char>, u64)| #[trigger] history.contains_key(x) && k == version_key(x.0, x.1);
            assert(m.contains_key(x));
        }
    }
}

// ---------------------------------------------------------------------
// Definitions by name
// ---------------------------------------------------------------------

/// Where `name` stands, or would stand, in a list that is sorted by name.
pub open spec fn name_slot(names: Seq<Seq<char>>, name: Seq<char>) -> int
    decreases names.len(),
{
    if names.len() == 0 || !text_lt(names[0], name) {
        0
    } else {
        1 + name_slot(names.drop_first(), name)
    }
}

/// Names in order, none twice.
pub open spec fn names_sorted(names: Seq<Seq<char>>) -> bool {
    forall|i: int, j: int| 0 <= i < j < names.len() ==> text_lt(#[trigger] names[i], #[trigger] names[j])
}

pub open spec fn data_names(defs: Seq<IndexDefView>) -> Seq<Seq<char>> {
    Seq::new(defs.len(), |i: int| defs[i].name)
}

pub open spec fn text_names(defs: Seq<TextIndexDefView>) -> Seq<Seq<char>> {
    Seq::new(defs.len(), |i: int| defs[i].name)
}

pub open spec fn reference_names(defs: Seq<ReferenceDefView>) -> Seq<Seq<char>> {
    Seq::new(defs.len(), |i: int| defs[i].name)
}

/// The list with `item` in place of the one of its name, or put where that
/// belongs.
pub open spec fn put_named<T>(list: Seq<T>, names: Seq<Seq<char>>, item: T, name: Seq<char>) -> Seq<T> {
    let at = name_slot(names, name);
    if 0 <= at < names.len() && names[at] == name {
        list.update(at, item)
    } else {
        list.insert(at, item)
    }
}

/// The list without the one of this name.
pub open spec fn drop_named<T>(list: Seq<T>, names: Seq<Seq<char>>, name: Seq<char>) -> Seq<T> {
    let at = name_slot(names, name);
    if 0 <= at < names.len() && names[at] == name {
        list.remove(at)
    } else {
        list
    }
}

pub proof fn lemma_name_slot(names: Seq<Seq<char>>, name: Seq<char>, at: int)
    requires
        0 <= at <= names.len(),
        forall|i: int| 0 <= i < at ==> text_lt(#[trigger] names[i], name),
        at < names.len() ==> !text_lt(names[at], name),
    ensures
        name_slot(names, name) == at,
    decreases names.len(),
{
    if at > 0 {
        assert(text_lt(names[0], name));
        let rest = names.drop_first();
        assert forall|i: int| 0 <= i < at - 1 implies text_lt(#[trigger] rest[i], name) by {
            assert(rest[i] == names[i + 1]);
        }
        lemma_name_slot(rest, name, at - 1);
    }
}

// ---------------------------------------------------------------------
// Effects
// ---------------------------------------------------------------------

/// The contents after one operation.
pub open spec fn applied(db: DbView, op: OperationView) -> DbView {
    match op {
        OperationView::Archive(h) => DbView { history: db.history.insert((h.address, h.version), h), ..db },
        OperationView::Insert(n) => DbView { nodes: db.nodes.insert(n.address, n), ..db },
        OperationView::Delete(a) => DbView { nodes: db.nodes.remove(a), ..db },
        OperationView::InsertEdge(e) => DbView { edges: db.edges.insert(e.id(), e), ..db },
        OperationView::DeleteEdge(id) => DbView { edges: db.edges.remove(id), ..db },
        OperationView::InsertUser(u) => DbView { users: db.users.insert(u.token_hash, u), ..db },
        OperationView::RevokeUser(h) => DbView { users: db.users.remove(h), ..db },
        OperationView::CreateIndex(d) => DbView { data: put_named(db.data, data_names(db.data), d, d.name), ..db },
        OperationView::DropIndex(name) => DbView { data: drop_named(db.data, data_names(db.data), name), ..db },
        OperationView::CreateReference(d) => DbView {
            references: put_named(db.references, reference_names(db.references), d, d.name),
            ..db
        },
        OperationView::DropReference(name) => DbView {
            references: drop_named(db.references, reference_names(db.references), name),
            ..db
        },
        OperationView::CreateTextIndex(d) => DbView { text: put_named(db.text, text_names(db.text), d, d.name), ..db },
        OperationView::DropTextIndex(name) => DbView { text: drop_named(db.text, text_names(db.text), name), ..db },
    }
}

/// The operation needs room in the heap or in an index.
pub open spec fn takes_room(op: OperationView) -> bool {
    match op {
        OperationView::Archive(_) => true,
        OperationView::Insert(_) => true,
        OperationView::Delete(_) => true,
        OperationView::InsertEdge(_) => true,
        OperationView::DeleteEdge(_) => true,
        OperationView::CreateIndex(_) => true,
        OperationView::CreateTextIndex(_) => true,
        _ => false,
    }
}

/// The contents after a list of operations.
pub open spec fn applied_all(db: DbView, ops: Seq<OperationView>) -> DbView
    decreases ops.len(),
{
    if ops.len() == 0 {
        db
    } else {
        applied(applied_all(db, ops.drop_last()), ops.last())
    }
}

/// Every data index of the node's kind takes it.
pub open spec fn data_takes(defs: Seq<IndexDefView>, n: NodeView) -> bool {
    forall|i: int| 0 <= i < defs.len() ==> data_fits(#[trigger] defs[i], n)
}

/// Every text index of the node's kind takes it.
pub open spec fn text_takes(defs: Seq<TextIndexDefView>, n: NodeView) -> bool {
    forall|i: int| 0 <= i < defs.len() ==> text_fits(#[trigger] defs[i], n)
}

/// The operation's keys and records fit.
pub open spec fn admissible(db: DbView, op: OperationView) -> bool {
    match op {
        OperationView::Archive(h) => history_fits(h) && record_fits(HeapView::History(h)),
        OperationView::Insert(n) => {
            &&& node_fits(n)
            &&& data_takes(db.data, n)
            &&& text_takes(db.text, n)
            &&& record_fits(HeapView::Node(n))
        },
        OperationView::InsertEdge(e) => edge_fits(e) && record_fits(HeapView::Edge(e)),
        OperationView::CreateIndex(d) => forall|a: Seq<char>| #[trigger]
            db.nodes.contains_key(a) ==> data_fits(d, db.nodes[a]),
        OperationView::CreateTextIndex(d) => forall|a: Seq<char>| #[trigger]
            db.nodes.contains_key(a) ==> text_fits(d, db.nodes[a]),
        _ => true,
    }
}

// ---------------------------------------------------------------------
// Replay of definitions
// ---------------------------------------------------------------------

/// The data indexes left after replaying a log.
pub open spec fn replay_data(log: Seq<IndexOpView>) -> Seq<IndexDefView>
    decreases log.len(),
{
    if log.len() == 0 {
        Seq::empty()
    } else {
        let before = replay_data(log.drop_last());
        match log.last() {
            IndexOpView::Put(d) => put_named(before, data_names(before), d, d.name),
            IndexOpView::Drop(name) => drop_named(before, data_names(before), name),
        }
    }
}

/// The text indexes left after replaying a log.
pub open spec fn replay_text(log: Seq<TextIndexOpView>) -> Seq<TextIndexDefView>
    decreases log.len(),
{
    if log.len() == 0 {
        Seq::empty()
    } else {
        let before = replay_text(log.drop_last());
        match log.last() {
            TextIndexOpView::Put(d) => put_named(before, text_names(before), d, d.name),
            TextIndexOpView::Drop(name) => drop_named(before, text_names(before), name),
        }
    }
}

/// The references left after replaying a log.
pub open spec fn replay_references(log: Seq<ReferenceOpView>) -> Seq<ReferenceDefView>
    decreases log.len(),
{
    if log.len() == 0 {
        Seq::empty()
    } else {
        let before = replay_references(log.drop_last());
        match log.last() {
            ReferenceOpView::Put(d) => put_named(before, reference_names(before), d, d.name),
            ReferenceOpView::Drop(name) => drop_named(before, reference_names(before), name),
        }
    }
}

/// A list stays sorted by name when one is put or dropped.
pub proof fn lemma_put_sorted(names: Seq<Seq<char>>, name: Seq<char>)
    requires
        names_sorted(names),
    ensures
        names_sorted(put_named(names, names, name, name)),
        names_sorted(drop_named(names, names, name)),
        0 <= name_slot(names, name) <= names.len(),
        forall|i: int| 0 <= i < name_slot(names, name) ==> text_lt(#[trigger] names[i], name),
        forall|i: int|
            name_slot(names, name) <= i < names.len() ==> #[trigger] names[i] == name || text_lt(name, names[i]),
{
    lemma_slot_found(names, name);
    let at = name_slot(names, name);
    let p = put_named(names, names, name, name);
    assert forall|i: int| at <= i < names.len() implies #[trigger] names[i] == name || text_lt(name, names[i]) by {
        crate::bytes::lemma_lt_total(utf8(names[at]), utf8(name));
        lemma_utf8_injective(names[at], name);
        if i > at {
            assert(text_lt(names[at], names[i]));
            if names[at] != name {
                crate::bytes::lemma_lt_transitive(utf8(name), utf8(names[at]), utf8(names[i]));
            }
        }
    }
    assert forall|i: int, j: int| 0 <= i < j < p.len() implies text_lt(#[trigger] p[i], #[trigger] p[j]) by {
        if at < names.len() && names[at] == name {
            assert(p =~= names);
        } else {
            let a = if i < at {
                names[i]
            } else if i == at {
                name
            } else {
                names[i - 1]
            };
            let b = if j < at {
                names[j]
            } else if j == at {
                name
            } else {
                names[j - 1]
            };
            assert(p[i] == a && p[j] == b);
            if i == at && j > at {
                if names[j - 1] == name {
                    if j - 1 > at {
                        assert(text_lt(names[at], names[j - 1]));
                        crate::bytes::lemma_lt_total(utf8(names[at]), utf8(name));
                        assert(names[at] == name || text_lt(name, names[at]));
                    }
                }
            }
        }
    }
    let d = drop_named(names, names, name);
    if at < names.len() && names[at] == name {
        assert forall|i: int, j: int| 0 <= i < j < d.len() implies text_lt(#[trigger] d[i], #[trigger] d[j]) by {
            assert(d[i] == names[if i < at {
                i
            } else {
                i + 1
            }]);
            assert(d[j] == names[if j < at {
                j
            } else {
                j + 1
            }]);
        }
    }
}

proof fn lemma_slot_found(names: Seq<Seq<char>>, name: Seq<char>)
    ensures
        0 <= name_slot(names, name) <= names.len(),
        forall|i: int| 0 <= i < name_slot(names, name) ==> text_lt(#[trigger] names[i], name),
        name_slot(names, name) < names.len() ==> !text_lt(names[name_slot(names, name)], name),
    decreases names.len(),
{
    if names.len() > 0 && text_lt(names[0], name) {
        let rest = names.drop_first();
        lemma_slot_found(rest, name);
        assert forall|i: int| 0 <= i < name_slot(names, name) implies text_lt(#[trigger] names[i], name) by {
            if i > 0 {
                assert(names[i] == rest[i - 1]);
            }
        }
    }
}

/// A name that is put in its slot stands there.
pub proof fn lemma_put_slot(names: Seq<Seq<char>>, name: Seq<char>)
    ensures
        0 <= name_slot(names, name) <= names.len(),
        name_slot(names.insert(name_slot(names, name), name), name) == name_slot(names, name),
{
    lemma_slot_found(names, name);
    let at = name_slot(names, name);
    let more = names.insert(at, name);
    assert forall|i: int| 0 <= i < at implies text_lt(#[trigger] more[i], name) by {
        assert(more[i] == names[i]);
    }
    assert(!text_lt(more[at], name)) by {
        crate::bytes::lemma_lt_total(utf8(name), utf8(name));
    }
    lemma_name_slot(more, name, at);
}

} // verus!
