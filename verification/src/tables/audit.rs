//! Looking parts over before they are put together: whether the indexes and
//! the heap agree, and on what.

use vstd::prelude::*;
use vstd::set_lib::lemma_subset_equality;

use crate::binary::replay_users;
use crate::btree::walker::{lemma_walk_facts, Walk};
use crate::btree::BTree;
use crate::bytes::{bytes_eq, bytes_lt, copy_bytes, put_bytes};
use crate::defs::{IndexDef, TextIndexDef};
use crate::heap::{HeapRecord, HeapView, RecordStore, StoreView};
use crate::json::field;
use crate::keys::{
    add_grams, data_key, edge_in_key, edge_out_key, gram_key, has_gram, history_key, holds_bytes, in_key, indexed_text,
    kind_key, lemma_edge_keys, lemma_gram_key, out_key, owner_key, version_key, GRAM_LEN,
};
use crate::tables::declared::{index_defs_view, text_index_defs_view};
use crate::tables::lower::nodes_view;
use crate::tables::model::{
    edge_fits, edges_ok, entry, history_fits, history_ok, index_ok, lemma_entry_address, listed, node_fits, nodes_ok,
    points, replay_data, replay_references, replay_text, DbView, Entries, NodeIndex, Nodes,
};
use crate::tables::open::{index_definitions, parts_hold, text_index_definitions, Parts};
use crate::tables::{index_ops, reference_ops, text_ops, user_ops};
use crate::btree::model::MAX_KEY_LEN;
use crate::text::{lemma_utf8_injective, str_eq, utf8};
use crate::types::{Edge, EdgeIdView, EdgeView, HistoryEntry, HistoryView, Node, NodeView, RecordLocation};

verus! {

// ---------------------------------------------------------------------
// Lists of keys
// ---------------------------------------------------------------------

pub open spec fn keys_view(keys: Seq<Vec<u8>>) -> Seq<Seq<u8>> {
    keys.map_values(|k: Vec<u8>| k@)
}

/// Whether a tree has just the keys of a list.
fn same_keys(tree: &BTree, keys: &Vec<Vec<u8>>) -> (r: bool)
    requires
        tree.wf(),
        keys_view(keys@).no_duplicates(),
    ensures
        r == (forall|k: Seq<u8>| #[trigger] tree@.contains_key(k) <==> keys_view(keys@).contains(k)),
{
    let ghost view = keys_view(keys@);
    let ghost all = view.to_set();
    let ghost dom = tree@.dom();
    proof {
        tree.lemma_wf();
        view.unique_seq_to_set();
        vstd::seq_lib::seq_to_set_is_finite(view);
        if forall|k: Seq<u8>| #[trigger] tree@.contains_key(k) <==> view.contains(k) {
            assert(dom =~= all);
        }
    }
    if tree.len() != keys.len() as u64 {
        return false;
    }
    let mut i: usize = 0;
    while i < keys.len()
        invariant
            tree.wf(),
            i <= keys@.len(),
            view == keys_view(keys@),
            forall|k: int| 0 <= k < i ==> tree@.contains_key(#[trigger] view[k]),
        decreases keys.len() - i,
    {
        proof {
            assert(view[i as int] == keys@[i as int]@);
            assert(view.contains(view[i as int]));
        }
        if tree.get(&keys[i]).is_none() {
            return false;
        }
        i = i + 1;
    }
    proof {
        assert(all.subset_of(dom)) by {
            assert forall|k: Seq<u8>| all.contains(k) implies dom.contains(k) by {
                let j = choose|j: int| 0 <= j < view.len() && view[j] == k;
                assert(tree@.contains_key(view[j]));
            }
        }
        lemma_subset_equality(all, dom);
        assert forall|k: Seq<u8>| #[trigger] tree@.contains_key(k) <==> view.contains(k) by {
            assert(dom.contains(k) <==> all.contains(k));
        }
    }
    true
}

// ---------------------------------------------------------------------
// Nodes
// ---------------------------------------------------------------------

spec fn stands_at(list: Seq<NodeView>, i: int, a: Seq<char>) -> bool {
    0 <= i < list.len() && list[i].address == a
}

/// The nodes of a list by their addresses.
spec fn nodes_in(list: Seq<NodeView>) -> Nodes {
    Map::new(
        |a: Seq<char>| exists|i: int| stands_at(list, i, a),
        |a: Seq<char>| list[choose|i: int| stands_at(list, i, a)],
    )
}

/// No two nodes of the list are at one address, and their keys are keys.
spec fn all_apart(list: Seq<NodeView>) -> bool {
    &&& forall|i: int, j: int| 0 <= i < j < list.len() ==> (#[trigger] list[i]).address != (#[trigger] list[j]).address
    &&& forall|i: int| 0 <= i < list.len() ==> node_fits(#[trigger] list[i])
}

proof fn lemma_nodes_in(list: Seq<NodeView>, i: int)
    requires
        all_apart(list),
        0 <= i < list.len(),
    ensures
        nodes_in(list).contains_key(list[i].address),
        nodes_in(list)[list[i].address] == list[i],
{
    let a = list[i].address;
    assert(stands_at(list, i, a));
    let j = choose|j: int| stands_at(list, j, a);
    assert(stands_at(list, j, a));
}

fn fits_node(node: &Node) -> (r: bool)
    ensures
        r == node_fits(node@),
{
    let n: usize = node.address.as_str().as_bytes().len();
    n >= 1 && n <= MAX_KEY_LEN && kind_key(&node.kind, &node.address).len() <= MAX_KEY_LEN && owner_key(
        &node.owner,
        &node.address,
    ).len() <= MAX_KEY_LEN
}

/// The record that an entry leads to.
fn record_of(store: &RecordStore, bytes: &[u8]) -> (r: Option<HeapRecord>)
    requires
        store.wf(),
    ensures
        match r {
            Some(record) => points(store@, bytes@, record@),
            None => forall|v: HeapView| !#[trigger] points(store@, bytes@, v),
        },
{
    match RecordLocation::decode(bytes) {
        Some(location) => store.read_whole(location),
        None => None,
    }
}

/// The nodes that the address index leads to, if it is in order.
fn audit_nodes(tree: &BTree, store: &RecordStore) -> (r: Option<Vec<Node>>)
    requires
        tree.wf(),
        store.wf(),
    ensures
        match r {
            Some(list) => {
                &&& all_apart(nodes_view(list@))
                &&& nodes_ok(tree@, nodes_in(nodes_view(list@)), store@)
            },
            None => forall|nodes: Nodes| !#[trigger] nodes_ok(tree@, nodes, store@),
        },
{
    let prefix: Vec<u8> = Vec::new();
    let ghost empty = prefix@;
    let mut walk = Walk::new(tree, prefix, None, false);
    let ghost keys = walk.keys();
    let ghost m = tree@;
    proof {
        tree.lemma_wf();
        lemma_walk_facts(m, empty, None, false);
    }
    let mut list: Vec<Node> = Vec::new();
    loop
        invariant
            walk.wf(),
            walk.keys() == keys,
            walk.entries() == m,
            m == tree@,
            store.wf(),
            walk.behind() == list@.len(),
            list@.len() <= keys.len(),
            forall|i: int| 0 <= i < keys.len() ==> m.contains_key(#[trigger] keys[i]),
            forall|i: int|
                0 <= i < list@.len() ==> {
                    &&& keys[i] == utf8((#[trigger] list@[i])@.address)
                    &&& node_fits(list@[i]@)
                    &&& points(store@, m[keys[i]], HeapView::Node(list@[i]@))
                },
        ensures
            list@.len() == keys.len(),
        decreases keys.len() - list@.len(),
    {
        let (key, value) = match walk.next() {
            Some(found) => found,
            None => {
                break;
            },
        };
        proof {
            assert forall|nodes: Nodes| #[trigger] nodes_ok(m, nodes, store@) implies exists|n: NodeView| #[trigger]
                points(store@, value@, HeapView::Node(n)) && utf8(n.address) == key@ && node_fits(n) by {
                reveal(nodes_ok);
                assert(m.contains_key(key@));
                let a = choose|a: Seq<char>| #[trigger] nodes.contains_key(a) && key@ == utf8(a);
                assert(points(store@, value@, HeapView::Node(nodes[a])));
            }
        }
        let node = match record_of(store, &value) {
            Some(HeapRecord::Node(node)) => node,
            _ => { return None },
        };
        if !bytes_eq(node.address.as_str().as_bytes(), &key) || !fits_node(&node) {
            return None;
        }
        list.push(node);
    }
    proof {
        let view = nodes_view(list@);
        let nodes = nodes_in(view);
        assert forall|i: int, j: int| 0 <= i < j < view.len() implies (#[trigger] view[i]).address != (
        #[trigger] view[j]).address by {
            assert(bytes_lt(keys[i], keys[j]));
            crate::bytes::lemma_lt_irreflexive(keys[i]);
            assert(keys[i] == utf8(list@[i]@.address) && keys[j] == utf8(list@[j]@.address));
        }
        assert forall|i: int| 0 <= i < view.len() implies node_fits(#[trigger] view[i]) by {
            assert(node_fits(list@[i]@));
        }
        reveal(nodes_ok);
        assert forall|a: Seq<char>| #[trigger] nodes.contains_key(a) implies nodes[a].address == a && node_fits(nodes[a])
            && m.contains_key(utf8(a)) && points(store@, m[utf8(a)], HeapView::Node(nodes[a])) by {
            let i = choose|i: int| stands_at(view, i, a);
            lemma_nodes_in(view, i);
            assert(keys[i] == utf8(list@[i]@.address));
            assert(m.contains_key(keys[i]));
        }
        assert forall|k: Seq<u8>| #[trigger] m.contains_key(k) implies exists|a: Seq<char>| #[trigger]
            nodes.contains_key(a) && k == utf8(a) by {
            assert(k.take(0) =~= empty);
            assert(keys.contains(k));
            let i = choose|i: int| 0 <= i < keys.len() && keys[i] == k;
            lemma_nodes_in(view, i);
            assert(keys[i] == utf8(list@[i]@.address));
        }
    }
    Some(list)
}

// ---------------------------------------------------------------------
// Indexes over nodes
// ---------------------------------------------------------------------

/// An index over nodes.
enum Sort<'a> {
    Kind,
    Owner,
    Data(&'a IndexDef),
    Text(&'a TextIndexDef),
}

impl<'a> Sort<'a> {
    spec fn index(self) -> NodeIndex {
        match self {
            Sort::Kind => NodeIndex::Kind,
            Sort::Owner => NodeIndex::Owner,
            Sort::Data(d) => NodeIndex::Data(d@),
            Sort::Text(d) => NodeIndex::Text(d@),
        }
    }
}

/// The keys are those of the nodes in the index, none twice.
spec fn lists_keys(ix: NodeIndex, list: Seq<NodeView>, keys: Seq<Seq<u8>>) -> bool {
    &&& keys.no_duplicates()
    &&& forall|k: Seq<u8>| #[trigger] keys.contains(k) <==> exists|i: int| has_key(ix, list, i, k)
}

spec fn has_key(ix: NodeIndex, list: Seq<NodeView>, i: int, k: Seq<u8>) -> bool {
    0 <= i < list.len() && entry(ix, list[i], k)
}

fn text_keys(text: &str, address: &str) -> (r: Vec<Vec<u8>>)
    ensures
        keys_view(r@).no_duplicates(),
        forall|k: Seq<u8>| #[trigger]
            keys_view(r@).contains(k) <==> k.len() >= GRAM_LEN && has_gram(utf8(text@), k.take(GRAM_LEN as int)) && k
                == gram_key(k.take(GRAM_LEN as int), address@),
{
    let mut grams: Vec<Vec<u8>> = Vec::new();
    add_grams(&mut grams, text);
    let mut out: Vec<Vec<u8>> = Vec::new();
    let mut i: usize = 0;
    while i < grams.len()
        invariant
            i <= grams@.len(),
            out@.len() == i,
            forall|k: int| 0 <= k < i ==> (#[trigger] out@[k])@ == gram_key(grams@[k]@, address@),
        decreases grams.len() - i,
    {
        let mut key = copy_bytes(&grams[i]);
        put_bytes(&mut key, address.as_bytes());
        out.push(key);
        i = i + 1;
    }
    proof {
        let view = keys_view(out@);
        assert forall|a: int, b: int| 0 <= a < view.len() && 0 <= b < view.len() && a != b implies view[a] != view[b] by {
            lemma_gram_key(grams@[a]@, address@, grams@[b]@, address@);
            crate::bytes::lemma_lt_irreflexive(grams@[a]@);
            if a < b {
                assert(bytes_lt(grams@[a]@, grams@[b]@));
            } else {
                assert(bytes_lt(grams@[b]@, grams@[a]@));
            }
            assert(view[a] == out@[a]@ && view[b] == out@[b]@);
        }
        assert forall|k: Seq<u8>| #[trigger] view.contains(k) <==> k.len() >= GRAM_LEN && has_gram(
            utf8(text@),
            k.take(GRAM_LEN as int),
        ) && k == gram_key(k.take(GRAM_LEN as int), address@) by {
            if view.contains(k) {
                let j = choose|j: int| 0 <= j < view.len() && view[j] == k;
                assert(k == out@[j]@);
                assert(k.take(GRAM_LEN as int) =~= grams@[j]@);
                assert(holds_bytes(grams@, grams@[j]@));
            }
            if k.len() >= GRAM_LEN && has_gram(utf8(text@), k.take(GRAM_LEN as int)) && k == gram_key(
                k.take(GRAM_LEN as int),
                address@,
            ) {
                let g = k.take(GRAM_LEN as int);
                assert(holds_bytes(grams@, g));
                let j = choose|j: int| 0 <= j < grams@.len() && (#[trigger] grams@[j])@ == g;
                assert(view[j] == out@[j]@);
            }
        }
    }
    out
}

fn one_key(key: Vec<u8>) -> (r: Vec<Vec<u8>>)
    ensures
        keys_view(r@) == seq![key@],
{
    let ghost k = key@;
    let mut out: Vec<Vec<u8>> = Vec::new();
    out.push(key);
    proof {
        assert(keys_view(out@) =~= seq![k]);
    }
    out
}

/// The keys of a node in an index.
fn node_keys(sort: &Sort, node: &Node) -> (r: Vec<Vec<u8>>)
    ensures
        keys_view(r@).no_duplicates(),
        forall|k: Seq<u8>| #[trigger] keys_view(r@).contains(k) <==> entry(sort.index(), node@, k),
{
    let none: Vec<Vec<u8>> = Vec::new();
    proof {
        assert(keys_view(none@) =~= Seq::<Seq<u8>>::empty());
    }
    let r = match sort {
        Sort::Kind => one_key(kind_key(&node.kind, &node.address)),
        Sort::Owner => one_key(owner_key(&node.owner, &node.address)),
        Sort::Data(d) => if str_eq(&node.kind, &d.kind) {
            let value = field(&node.data, &d.field);
            one_key(data_key(value.as_ref(), &node.address))
        } else {
            none
        },
        Sort::Text(d) => if str_eq(&node.kind, &d.kind) {
            match indexed_text(&node.data, &d.field) {
                Some(text) => text_keys(&text, &node.address),
                None => none,
            }
        } else {
            none
        },
    };
    proof {
        let view = keys_view(r@);
        if !(sort.index() is Text) {
            assert forall|k: Seq<u8>| #[trigger] view.contains(k) <==> entry(sort.index(), node@, k) by {
                if view.len() > 0 {
                    assert(view[0] == seq![view[0]][0]);
                }
                if entry(sort.index(), node@, k) {
                    assert(view[0] == k);
                }
            }
        }
    }
    r
}

proof fn lemma_keys_push(ix: NodeIndex, list: Seq<NodeView>, n: NodeView, keys: Seq<Seq<u8>>, more: Seq<Seq<u8>>)
    requires
        lists_keys(ix, list, keys),
        more.no_duplicates(),
        forall|k: Seq<u8>| #[trigger] more.contains(k) <==> entry(ix, n, k),
        all_apart(list.push(n)),
    ensures
        lists_keys(ix, list.push(n), keys + more),
{
    let all = keys + more;
    let next = list.push(n);
    assert(next[list.len() as int] == n);
    assert forall|a: int, b: int| 0 <= a < all.len() && 0 <= b < all.len() && a != b implies all[a] != all[b] by {
        if a < keys.len() && b >= keys.len() {
            lemma_keys_differ(ix, list, n, keys, more, a, b - keys.len());
        } else if b < keys.len() && a >= keys.len() {
            lemma_keys_differ(ix, list, n, keys, more, b, a - keys.len());
        } else if a >= keys.len() {
            assert(more[a - keys.len()] != more[b - keys.len()]);
        } else {
            assert(keys[a] != keys[b]);
        }
    }
    assert forall|k: Seq<u8>| #[trigger] all.contains(k) <==> exists|i: int| has_key(ix, next, i, k) by {
        if all.contains(k) {
            let j = choose|j: int| 0 <= j < all.len() && all[j] == k;
            if j < keys.len() {
                assert(keys[j] == k);
                assert(keys.contains(k));
                let i = choose|i: int| has_key(ix, list, i, k);
                assert(next[i] == list[i]);
                assert(has_key(ix, next, i, k));
            } else {
                assert(more[j - keys.len()] == k);
                assert(more.contains(k));
                assert(has_key(ix, next, list.len() as int, k));
            }
        }
        if exists|i: int| has_key(ix, next, i, k) {
            let i = choose|i: int| has_key(ix, next, i, k);
            if i < list.len() {
                assert(next[i] == list[i]);
                assert(has_key(ix, list, i, k));
                assert(keys.contains(k));
                let j = choose|j: int| 0 <= j < keys.len() && keys[j] == k;
                assert(all[j] == k);
            } else {
                assert(more.contains(k));
                let j = choose|j: int| 0 <= j < more.len() && more[j] == k;
                assert(all[keys.len() + j] == k);
            }
        }
    }
}

proof fn lemma_keys_differ(
    ix: NodeIndex,
    list: Seq<NodeView>,
    n: NodeView,
    keys: Seq<Seq<u8>>,
    more: Seq<Seq<u8>>,
    a: int,
    b: int,
)
    requires
        lists_keys(ix, list, keys),
        forall|k: Seq<u8>| #[trigger] more.contains(k) <==> entry(ix, n, k),
        all_apart(list.push(n)),
        0 <= a < keys.len(),
        0 <= b < more.len(),
    ensures
        keys[a] != more[b],
{
    if keys[a] == more[b] {
        let k = keys[a];
        let next = list.push(n);
        assert(keys.contains(k));
        assert(more.contains(k));
        let i = choose|i: int| has_key(ix, list, i, k);
        assert(next[i] == list[i] && next[list.len() as int] == n);
        lemma_entry_address(ix, list[i], n, k);
    }
}

/// Whether an index over nodes has just the keys of the nodes.
fn audit_index(sort: &Sort, tree: &BTree, list: &Vec<Node>) -> (r: bool)
    requires
        tree.wf(),
        all_apart(nodes_view(list@)),
    ensures
        r == index_ok(sort.index(), tree@, nodes_in(nodes_view(list@))),
{
    let ghost ix = sort.index();
    let ghost view = nodes_view(list@);
    let mut keys: Vec<Vec<u8>> = Vec::new();
    let mut i: usize = 0;
    proof {
        assert(keys_view(keys@) =~= Seq::<Seq<u8>>::empty());
    }
    while i < list.len()
        invariant
            i <= list@.len(),
            ix == sort.index(),
            view == nodes_view(list@),
            all_apart(view),
            lists_keys(ix, view.take(i as int), keys_view(keys@)),
        decreases list.len() - i,
    {
        let ghost before = keys_view(keys@);
        let mut more = node_keys(sort, &list[i]);
        let ghost added = keys_view(more@);
        keys.append(&mut more);
        proof {
            assert(keys_view(keys@) =~= before + added);
            let next = view.take(i + 1);
            assert(next =~= view.take(i as int).push(view[i as int]));
            assert(view[i as int] == list@[i as int]@);
            assert(all_apart(next)) by {
                assert forall|a: int, b: int| 0 <= a < b < next.len() implies (#[trigger] next[a]).address != (
                #[trigger] next[b]).address by {
                    assert(view[a].address != view[b].address);
                }
                assert forall|a: int| 0 <= a < next.len() implies node_fits(#[trigger] next[a]) by {
                    assert(node_fits(view[a]));
                }
            }
            lemma_keys_push(ix, view.take(i as int), view[i as int], before, added);
        }
        i = i + 1;
    }
    proof {
        assert(view.take(view.len() as int) =~= view);
        let nodes = nodes_in(view);
        assert forall|k: Seq<u8>| #[trigger] keys_view(keys@).contains(k) <==> exists|a: Seq<char>| #[trigger]
            listed(ix, nodes, a, k) by {
            if keys_view(keys@).contains(k) {
                let j = choose|j: int| has_key(ix, view, j, k);
                lemma_nodes_in(view, j);
                assert(listed(ix, nodes, view[j].address, k));
            }
            if exists|a: Seq<char>| #[trigger] listed(ix, nodes, a, k) {
                let a = choose|a: Seq<char>| #[trigger] listed(ix, nodes, a, k);
                let j = choose|j: int| stands_at(view, j, a);
                assert(stands_at(view, j, a));
                lemma_nodes_in(view, j);
                assert(has_key(ix, view, j, k));
            }
        }
        reveal(index_ok);
    }
    let r = same_keys(tree, &keys);
    proof {
        let nodes = nodes_in(view);
        if r {
            assert forall|k: Seq<u8>| #[trigger] tree@.contains_key(k) <==> exists|a: Seq<char>| #[trigger]
                listed(ix, nodes, a, k) by {
                assert(keys_view(keys@).contains(k) <==> exists|a: Seq<char>| #[trigger] listed(ix, nodes, a, k));
            }
        }
        if index_ok(ix, tree@, nodes) {
            assert forall|k: Seq<u8>| #[trigger] tree@.contains_key(k) <==> keys_view(keys@).contains(k) by {
                assert(keys_view(keys@).contains(k) <==> exists|a: Seq<char>| #[trigger] listed(ix, nodes, a, k));
            }
        }
    }
    r
}

// ---------------------------------------------------------------------
// Edges
// ---------------------------------------------------------------------

spec fn edges_in(list: Seq<EdgeView>) -> Map<EdgeIdView, EdgeView> {
    Map::new(
        |id: EdgeIdView| exists|i: int| leads_from(list, i, id),
        |id: EdgeIdView| list[choose|i: int| leads_from(list, i, id)],
    )
}

spec fn leads_from(list: Seq<EdgeView>, i: int, id: EdgeIdView) -> bool {
    0 <= i < list.len() && list[i].id() == id
}

proof fn lemma_edges_in(list: Seq<EdgeView>, i: int)
    requires
        0 <= i < list.len(),
        forall|a: int, b: int| 0 <= a < b < list.len() ==> (#[trigger] list[a]).id() != (#[trigger] list[b]).id(),
    ensures
        edges_in(list).contains_key(list[i].id()),
        edges_in(list)[list[i].id()] == list[i],
{
    let id = list[i].id();
    assert(leads_from(list, i, id));
    let j = choose|j: int| leads_from(list, j, id);
    assert(leads_from(list, j, id));
}

/// Whether the two edge indexes are in order, and what edges they lead to.
fn audit_edges(outs: &BTree, ins: &BTree, store: &RecordStore) -> (r: Option<Ghost<Map<EdgeIdView, EdgeView>>>)
    requires
        outs.wf(),
        ins.wf(),
        store.wf(),
    ensures
        match r {
            Some(edges) => edges_ok(outs@, ins@, edges@, store@),
            None => forall|edges: Map<EdgeIdView, EdgeView>| !#[trigger] edges_ok(outs@, ins@, edges, store@),
        },
{
    let prefix: Vec<u8> = Vec::new();
    let ghost empty = prefix@;
    let mut walk = Walk::new(outs, prefix, None, false);
    let ghost keys = walk.keys();
    let ghost m = outs@;
    let ghost w = ins@;
    proof {
        outs.lemma_wf();
        lemma_walk_facts(m, empty, None, false);
    }
    let ghost mut list: Seq<EdgeView> = Seq::empty();
    let mut in_keys: Vec<Vec<u8>> = Vec::new();
    loop
        invariant
            walk.wf(),
            walk.keys() == keys,
            walk.entries() == m,
            m == outs@,
            w == ins@,
            ins.wf(),
            store.wf(),
            walk.behind() == list.len(),
            in_keys@.len() == list.len(),
            list.len() <= keys.len(),
            forall|i: int| 0 <= i < keys.len() ==> m.contains_key(#[trigger] keys[i]),
            forall|i: int|
                0 <= i < list.len() ==> {
                    &&& keys[i] == out_key((#[trigger] list[i]).id())
                    &&& edge_fits(list[i])
                    &&& points(store@, m[keys[i]], HeapView::Edge(list[i]))
                    &&& in_keys@[i]@ == in_key(list[i].id())
                    &&& w.contains_key(in_key(list[i].id()))
                    &&& w[in_key(list[i].id())] == m[keys[i]]
                },
        ensures
            list.len() == keys.len(),
        decreases keys.len() - list.len(),
    {
        let (key, value) = match walk.next() {
            Some(found) => found,
            None => {
                break;
            },
        };
        proof {
            assert forall|edges: Map<EdgeIdView, EdgeView>| #[trigger] edges_ok(m, w, edges, store@) implies exists|
                e: EdgeView,
            | #[trigger]
                points(store@, value@, HeapView::Edge(e)) && out_key(e.id()) == key@ && edge_fits(e) && w.contains_key(
                    in_key(e.id()),
                ) && w[in_key(e.id())] == value@ by {
                reveal(edges_ok);
                assert(m.contains_key(key@));
                let id = choose|id: EdgeIdView| #[trigger] edges.contains_key(id) && key@ == out_key(id);
                assert(points(store@, value@, HeapView::Edge(edges[id])));
            }
        }
        let edge: Edge = match record_of(store, &value) {
            Some(HeapRecord::Edge(edge)) => edge,
            _ => { return None },
        };
        let own = edge_out_key(&edge.from, &edge.kind, &edge.to);
        if !bytes_eq(&own, &key) || own.len() > MAX_KEY_LEN {
            return None;
        }
        let back = edge_in_key(&edge.to, &edge.kind, &edge.from);
        proof {
            assert(own@ == out_key(edge@.id()));
            assert(back@ == in_key(edge@.id()));
        }
        match ins.get(&back) {
            Some(other) => if !bytes_eq(&other, &value) {
                return None;
            },
            None => { return None },
        }
        in_keys.push(back);
        proof {
            list = list.push(edge@);
        }
    }
    proof {
        assert forall|a: int, b: int| 0 <= a < b < list.len() implies (#[trigger] list[a]).id() != (
        #[trigger] list[b]).id() by {
            assert(bytes_lt(keys[a], keys[b]));
            crate::bytes::lemma_lt_irreflexive(keys[a]);
            assert(keys[a] == out_key(list[a].id()) && keys[b] == out_key(list[b].id()));
        }
        let view = keys_view(in_keys@);
        assert forall|a: int, b: int| 0 <= a < view.len() && 0 <= b < view.len() && a != b implies view[a] != view[b] by {
            assert(view[a] == in_keys@[a]@ && view[b] == in_keys@[b]@);
            assert(edge_fits(list[a]) && edge_fits(list[b]));
            lemma_edge_keys(list[a].id(), list[b].id());
            if a < b {
                assert(list[a].id() != list[b].id());
            } else {
                assert(list[b].id() != list[a].id());
            }
        }
    }
    let whole: bool = same_keys(ins, &in_keys);
    let ghost edges = edges_in(list);
    proof {
        let view = keys_view(in_keys@);
        assert forall|id: EdgeIdView| #[trigger] edges.contains_key(id) implies {
            &&& edges[id].id() == id
            &&& edge_fits(edges[id])
            &&& m.contains_key(out_key(id))
            &&& w.contains_key(in_key(id))
            &&& points(store@, m[out_key(id)], HeapView::Edge(edges[id]))
            &&& w[in_key(id)] == m[out_key(id)]
        } by {
            let i = choose|i: int| leads_from(list, i, id);
            lemma_edges_in(list, i);
            assert(keys[i] == out_key(list[i].id()));
            assert(m.contains_key(keys[i]));
        }
        assert forall|k: Seq<u8>| #[trigger] m.contains_key(k) implies exists|id: EdgeIdView| #[trigger]
            edges.contains_key(id) && k == out_key(id) by {
            assert(k.take(0) =~= empty);
            assert(keys.contains(k));
            let i = choose|i: int| 0 <= i < keys.len() && keys[i] == k;
            lemma_edges_in(list, i);
            assert(keys[i] == out_key(list[i].id()));
        }
        if whole {
            assert forall|k: Seq<u8>| #[trigger] w.contains_key(k) implies exists|id: EdgeIdView| #[trigger]
                edges.contains_key(id) && k == in_key(id) by {
                assert(view.contains(k));
                let i = choose|i: int| 0 <= i < view.len() && view[i] == k;
                assert(view[i] == in_keys@[i]@);
                assert(in_keys@[i]@ == in_key(list[i].id()));
                lemma_edges_in(list, i);
            }
            reveal(edges_ok);
        } else {
            assert forall|other: Map<EdgeIdView, EdgeView>| !#[trigger] edges_ok(m, w, other, store@) by {
                if edges_ok(m, w, other, store@) {
                    reveal(edges_ok);
                    assert forall|k: Seq<u8>| #[trigger] w.contains_key(k) <==> view.contains(k) by {
                        if w.contains_key(k) {
                            let id = choose|id: EdgeIdView| #[trigger] other.contains_key(id) && k == in_key(id);
                            assert(m.contains_key(out_key(id)));
                            assert(out_key(id).take(0) =~= empty);
                            assert(keys.contains(out_key(id)));
                            let i = choose|i: int| 0 <= i < keys.len() && keys[i] == out_key(id);
                            assert(keys[i] == out_key(list[i].id()));
                            assert(edge_fits(other[id]) && edge_fits(list[i]));
                            lemma_edge_keys(id, list[i].id());
                            assert(view[i] == in_keys@[i]@);
                            assert(view[i] == k);
                        }
                        if view.contains(k) {
                            let i = choose|i: int| 0 <= i < view.len() && view[i] == k;
                            assert(view[i] == in_keys@[i]@);
                            assert(in_keys@[i]@ == in_key(list[i].id()));
                        }
                    }
                }
            }
        }
    }
    if whole {
        Some(Ghost(edges))
    } else {
        None
    }
}

// ---------------------------------------------------------------------
// States kept
// ---------------------------------------------------------------------

spec fn history_in(list: Seq<HistoryView>) -> Map<(Seq<char>, u64), HistoryView> {
    Map::new(
        |x: (Seq<char>, u64)| exists|i: int| kept_as(list, i, x),
        |x: (Seq<char>, u64)| list[choose|i: int| kept_as(list, i, x)],
    )
}

spec fn kept_as(list: Seq<HistoryView>, i: int, x: (Seq<char>, u64)) -> bool {
    0 <= i < list.len() && list[i].address == x.0 && list[i].version == x.1
}

/// Whether the index over states kept is in order; what it leads to, and the
/// highest version there is.
fn audit_history(tree: &BTree, store: &RecordStore) -> (r: Option<
    (Ghost<Map<(Seq<char>, u64), HistoryView>>, u64),
>)
    requires
        tree.wf(),
        store.wf(),
    ensures
        match r {
            Some((history, top)) => {
                &&& history_ok(tree@, history@, store@)
                &&& forall|x: (Seq<char>, u64)| #[trigger] history@.contains_key(x) ==> x.1 <= top
                &&& top > 0 ==> exists|x: (Seq<char>, u64)| #[trigger] history@.contains_key(x) && x.1 == top
            },
            None => forall|history: Map<(Seq<char>, u64), HistoryView>| !#[trigger]
                history_ok(tree@, history, store@),
        },
{
    let prefix: Vec<u8> = Vec::new();
    let ghost empty = prefix@;
    let mut walk = Walk::new(tree, prefix, None, false);
    let ghost keys = walk.keys();
    let ghost m = tree@;
    proof {
        tree.lemma_wf();
        lemma_walk_facts(m, empty, None, false);
    }
    let ghost mut list: Seq<HistoryView> = Seq::empty();
    let ghost mut best: int = 0;
    let mut top: u64 = 0;
    loop
        invariant
            walk.wf(),
            walk.keys() == keys,
            walk.entries() == m,
            m == tree@,
            store.wf(),
            walk.behind() == list.len(),
            list.len() <= keys.len(),
            forall|i: int| 0 <= i < keys.len() ==> m.contains_key(#[trigger] keys[i]),
            forall|i: int|
                0 <= i < list.len() ==> {
                    &&& keys[i] == version_key((#[trigger] list[i]).address, list[i].version)
                    &&& history_fits(list[i])
                    &&& points(store@, m[keys[i]], HeapView::History(list[i]))
                    &&& list[i].version <= top
                },
            top > 0 ==> 0 <= best < list.len() && list[best].version == top,
        ensures
            list.len() == keys.len(),
        decreases keys.len() - list.len(),
    {
        let (key, value) = match walk.next() {
            Some(found) => found,
            None => {
                break;
            },
        };
        proof {
            assert forall|history: Map<(Seq<char>, u64), HistoryView>| #[trigger]
                history_ok(m, history, store@) implies exists|h: HistoryView| #[trigger]
                points(store@, value@, HeapView::History(h)) && version_key(h.address, h.version) == key@
                    && history_fits(h) by {
                reveal(history_ok);
                assert(m.contains_key(key@));
                let x = choose|x: (Seq<char>, u64)| #[trigger] history.contains_key(x) && key@ == version_key(x.0, x.1);
                assert(points(store@, value@, HeapView::History(history[x])));
            }
        }
        let found: HistoryEntry = match record_of(store, &value) {
            Some(HeapRecord::History(found)) => found,
            _ => { return None },
        };
        let own = history_key(&found.address, found.version);
        if !bytes_eq(&own, &key) || own.len() > MAX_KEY_LEN {
            return None;
        }
        proof {
            if found.version > top {
                best = list.len() as int;
            }
            list = list.push(found@);
        }
        if found.version > top {
            top = found.version;
        }
    }
    let ghost history = history_in(list);
    proof {
        assert forall|i: int| 0 <= i < list.len() implies history.contains_key(
            ((#[trigger] list[i]).address, list[i].version),
        ) && history[(list[i].address, list[i].version)] == list[i] by {
            let x = (list[i].address, list[i].version);
            assert(kept_as(list, i, x));
            let j = choose|j: int| kept_as(list, j, x);
            assert(kept_as(list, j, x));
            assert(keys[i] == version_key(list[i].address, list[i].version));
            assert(keys[j] == version_key(list[j].address, list[j].version));
            crate::bytes::lemma_lt_irreflexive(keys[i]);
            if i < j {
                assert(bytes_lt(keys[i], keys[j]));
            } else if j < i {
                assert(bytes_lt(keys[j], keys[i]));
            }
        }
        reveal(history_ok);
        assert forall|x: (Seq<char>, u64)| #[trigger] history.contains_key(x) implies {
            &&& history[x].address == x.0
            &&& history[x].version == x.1
            &&& history_fits(history[x])
            &&& m.contains_key(version_key(x.0, x.1))
            &&& points(store@, m[version_key(x.0, x.1)], HeapView::History(history[x]))
            &&& x.1 <= top
        } by {
            let i = choose|i: int| kept_as(list, i, x);
            assert(kept_as(list, i, x));
            assert(x == (list[i].address, list[i].version));
            assert(history[(list[i].address, list[i].version)] == list[i]);
            assert(keys[i] == version_key(list[i].address, list[i].version));
            assert(m.contains_key(keys[i]));
        }
        assert forall|k: Seq<u8>| #[trigger] m.contains_key(k) implies exists|x: (Seq<char>, u64)| #[trigger]
            history.contains_key(x) && k == version_key(x.0, x.1) by {
            assert(k.take(0) =~= empty);
            assert(keys.contains(k));
            let i = choose|i: int| 0 <= i < keys.len() && keys[i] == k;
            assert(keys[i] == version_key(list[i].address, list[i].version));
            assert(history.contains_key((list[i].address, list[i].version)));
        }
        if top > 0 {
            assert(history.contains_key((list[best].address, list[best].version)));
        }
    }
    Some((Ghost(history), top))
}

// ---------------------------------------------------------------------
// Everything
// ---------------------------------------------------------------------

/// The trees of the parts and their heap are each in order.
pub open spec fn parts_wf(p: Parts) -> bool {
    &&& p.store.wf()
    &&& p.primary.wf()
    &&& p.kind.wf()
    &&& p.owner.wf()
    &&& p.history.wf()
    &&& p.edge_out.wf()
    &&& p.edge_in.wf()
    &&& forall|i: int| 0 <= i < p.data@.len() ==> (#[trigger] p.data@[i]).wf()
    &&& forall|i: int| 0 <= i < p.text@.len() ==> (#[trigger] p.text@[i]).wf()
}

/// What the parts hold, if they agree; and the highest version of a state
/// kept.
pub(crate) fn audit_parts(parts: &Parts) -> (r: Option<(Ghost<DbView>, u64)>)
    requires
        parts_wf(*parts),
        replay_data(index_ops(parts.index_log@)).len() == parts.data@.len(),
        replay_text(text_ops(parts.text_log@)).len() == parts.text@.len(),
    ensures
        match r {
            Some((db, top)) => {
                &&& parts_hold(*parts, db@)
                &&& forall|x: (Seq<char>, u64)| #[trigger] db@.history.contains_key(x) ==> x.1 <= top
                &&& top > 0 ==> exists|x: (Seq<char>, u64)| #[trigger] db@.history.contains_key(x) && x.1 == top
            },
            None => forall|db: DbView| !#[trigger] parts_hold(*parts, db),
        },
{
    let list = match audit_nodes(&parts.primary, &parts.store) {
        Some(list) => list,
        None => { return None },
    };
    let ghost nodes = nodes_in(nodes_view(list@));
    proof {
        assert forall|db: DbView| #[trigger] parts_hold(*parts, db) implies db.nodes == nodes by {
            lemma_same_nodes(parts.primary@, db.nodes, nodes, parts.store@);
        }
    }
    if !audit_index(&Sort::Kind, &parts.kind, &list) || !audit_index(&Sort::Owner, &parts.owner, &list) {
        return None;
    }
    let (Ghost(history), top) = match audit_history(&parts.history, &parts.store) {
        Some(found) => found,
        None => { return None },
    };
    let Ghost(edges) = match audit_edges(&parts.edge_out, &parts.edge_in, &parts.store) {
        Some(edges) => edges,
        None => { return None },
    };
    let defs = index_definitions(&parts.index_log);
    let texts = text_index_definitions(&parts.text_log);
    let ghost data = replay_data(index_ops(parts.index_log@));
    let ghost text = replay_text(text_ops(parts.text_log@));
    proof {
        assert(index_defs_view(defs@).len() == defs@.len());
        assert(text_index_defs_view(texts@).len() == texts@.len());
    }
    let mut i: usize = 0;
    while i < defs.len()
        invariant
            parts_wf(*parts),
            i <= defs@.len(),
            defs@.len() == parts.data@.len(),
            index_defs_view(defs@) == data,
            data == replay_data(index_ops(parts.index_log@)),
            all_apart(nodes_view(list@)),
            nodes == nodes_in(nodes_view(list@)),
            forall|db: DbView| #[trigger] parts_hold(*parts, db) ==> db.nodes == nodes,
            forall|k: int| 0 <= k < i ==> index_ok(NodeIndex::Data(data[k]), (#[trigger] parts.data@[k])@, nodes),
        decreases defs.len() - i,
    {
        proof {
            assert(index_defs_view(defs@)[i as int] == defs@[i as int]@);
        }
        if !audit_index(&Sort::Data(&defs[i]), &parts.data[i], &list) {
            proof {
                assert forall|db: DbView| !#[trigger] parts_hold(*parts, db) by {
                    if parts_hold(*parts, db) {
                        assert(index_ok(NodeIndex::Data(db.data[i as int]), parts.data@[i as int]@, db.nodes));
                    }
                }
            }
            return None;
        }
        i = i + 1;
    }
    let mut j: usize = 0;
    while j < texts.len()
        invariant
            parts_wf(*parts),
            j <= texts@.len(),
            texts@.len() == parts.text@.len(),
            text_index_defs_view(texts@) == text,
            text == replay_text(text_ops(parts.text_log@)),
            all_apart(nodes_view(list@)),
            nodes == nodes_in(nodes_view(list@)),
            forall|db: DbView| #[trigger] parts_hold(*parts, db) ==> db.nodes == nodes,
            forall|k: int| 0 <= k < j ==> index_ok(NodeIndex::Text(text[k]), (#[trigger] parts.text@[k])@, nodes),
        decreases texts.len() - j,
    {
        proof {
            assert(text_index_defs_view(texts@)[j as int] == texts@[j as int]@);
        }
        if !audit_index(&Sort::Text(&texts[j]), &parts.text[j], &list) {
            proof {
                assert forall|db: DbView| !#[trigger] parts_hold(*parts, db) by {
                    if parts_hold(*parts, db) {
                        assert(index_ok(NodeIndex::Text(db.text[j as int]), parts.text@[j as int]@, db.nodes));
                    }
                }
            }
            return None;
        }
        j = j + 1;
    }
    let ghost db = DbView {
        nodes,
        edges,
        history,
        users: replay_users(user_ops(parts.user_log@)),
        data,
        text,
        references: replay_references(reference_ops(parts.reference_log@)),
    };
    proof {
        assert(parts_hold(*parts, db));
    }
    Some((Ghost(db), top))
}

proof fn lemma_same_nodes(tree: Entries, a: Nodes, b: Nodes, store: StoreView)
    requires
        nodes_ok(tree, a, store),
        nodes_ok(tree, b, store),
    ensures
        a == b,
{
    reveal(nodes_ok);
    assert forall|x: Seq<char>| #[trigger] a.contains_key(x) <==> b.contains_key(x) by {
        if a.contains_key(x) {
            let y = choose|y: Seq<char>| #[trigger] b.contains_key(y) && utf8(x) == utf8(y);
            lemma_utf8_injective(x, y);
        }
        if b.contains_key(x) {
            let y = choose|y: Seq<char>| #[trigger] a.contains_key(y) && utf8(x) == utf8(y);
            lemma_utf8_injective(x, y);
        }
    }
    assert forall|x: Seq<char>| #[trigger] a.contains_key(x) implies a[x] == b[x] by {
        assert(b.contains_key(x));
    }
    assert(a =~= b);
}

} // verus!
