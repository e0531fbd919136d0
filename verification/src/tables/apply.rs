//! Carrying out operations.

use vstd::prelude::*;

use crate::btree::TreeError;
use crate::cache::{CacheView, RecordCache};
use crate::heap::{
    holds, inactive, keeps, lemma_wears_early, lemma_wears_late, lemma_wears_same, record_at, wears, HeapRecord,
    HeapView, StoreError, StoreView,
};
use crate::keys::{edge_in_key, edge_out_key, history_key, in_key, kind_key, out_key, owner_key};
use crate::location::{law_location_round_trip, location_of};
use crate::tables::lists::{
    assert_data_keys, assert_text_keys, data_defs, data_gained, data_lost, data_tree_gained, data_tree_lost, data_wf,
    retract_data_keys, retract_text_keys, text_defs, text_gained, text_lost, text_tree_gained, text_tree_lost, text_wf,
    DataIndex, TextIndex,
};
use crate::tables::model::{
    addressed, admissible, applied, data_fits, entry, holds_prev, index_ok, lemma_edges_insert, lemma_edges_kept,
    lemma_edges_remove, lemma_history_at, lemma_history_insert, lemma_history_kept, lemma_index_insert,
    lemma_index_remove, lemma_nodes_at, lemma_nodes_insert, lemma_nodes_kept, lemma_nodes_remove, node_fits, takes_room,
    text_fits, Entries, NodeIndex, Nodes,
};
use crate::tables::read::{has_node, lemma_agrees_refreshed, lemma_agrees_stored, node_in, node_view};
use crate::tables::{agrees, data_ok, text_ok, vacates, TableError, Tables};
use crate::text::{str_eq, utf8};
use crate::types::{Edge, EdgeId, HistoryEntry, Node, NodeView, RecordLocation};
use crate::wal::{Operation, OperationView};

verus! {

pub proof fn lemma_agrees_kept(cache: CacheView, u: StoreView, v: StoreView)
    requires
        agrees(cache, u),
        keeps(u, v),
    ensures
        agrees(cache, v),
{
    assert forall|i: int| 0 <= i < cache.len() implies record_at(v, (#[trigger] cache[i]).0) == Ok::<
        HeapView,
        StoreError,
    >(HeapView::Node(cache[i].1)) by {
        assert(record_at(u, cache[i].0) is Ok);
        assert(record_at(v, cache[i].0) == record_at(u, cache[i].0));
    }
}

pub proof fn lemma_keeps_trans(u: StoreView, v: StoreView, w: StoreView)
    requires
        keeps(u, v),
        keeps(v, w),
    ensures
        keeps(u, w),
{
    assert forall|l: RecordLocation, r: HeapView| #[trigger] holds(u, l, r) implies holds(w, l, r) by {
        assert(holds(v, l, r));
    }
    assert forall|l: RecordLocation| record_at(u, l) is Ok implies #[trigger] record_at(w, l) == record_at(u, l) by {
        assert(record_at(v, l) == record_at(u, l));
    }
}

proof fn lemma_data_insert(
    a: Seq<DataIndex>,
    m: Seq<DataIndex>,
    b: Seq<DataIndex>,
    nodes: Nodes,
    n: NodeView,
    prev: Option<NodeView>,
)
    requires
        data_ok(a, nodes),
        addressed(nodes),
        node_fits(n),
        holds_prev(nodes, n.address, prev),
        prev is Some ==> data_lost(a, m, prev->0),
        prev is None ==> m == a,
        data_gained(m, b, n),
    ensures
        data_ok(b, nodes.insert(n.address, n)),
{
    let next = nodes.insert(n.address, n);
    assert forall|i: int| 0 <= i < b.len() implies index_ok(
        NodeIndex::Data((#[trigger] b[i]).def@),
        b[i].tree@,
        next,
    ) by {
        let ix = NodeIndex::Data(a[i].def@);
        assert(m[i].def@ == a[i].def@);
        assert(data_tree_gained(m[i], b[i], n));
        if prev is Some {
            assert(data_tree_lost(a[i], m[i], prev->0));
        }
        lemma_index_insert(ix, a[i].tree@, b[i].tree@, nodes, n, prev);
    }
}

proof fn lemma_text_insert(
    a: Seq<TextIndex>,
    m: Seq<TextIndex>,
    b: Seq<TextIndex>,
    nodes: Nodes,
    n: NodeView,
    prev: Option<NodeView>,
)
    requires
        text_ok(a, nodes),
        addressed(nodes),
        node_fits(n),
        holds_prev(nodes, n.address, prev),
        prev is Some ==> text_lost(a, m, prev->0),
        prev is None ==> m == a,
        text_gained(m, b, n),
    ensures
        text_ok(b, nodes.insert(n.address, n)),
{
    let next = nodes.insert(n.address, n);
    assert forall|i: int| 0 <= i < b.len() implies index_ok(
        NodeIndex::Text((#[trigger] b[i]).def@),
        b[i].tree@,
        next,
    ) by {
        let ix = NodeIndex::Text(a[i].def@);
        assert(m[i].def@ == a[i].def@);
        assert(text_tree_gained(m[i], b[i], n));
        if prev is Some {
            assert(text_tree_lost(a[i], m[i], prev->0));
        }
        lemma_index_insert(ix, a[i].tree@, b[i].tree@, nodes, n, prev);
    }
}

proof fn lemma_data_remove(a: Seq<DataIndex>, b: Seq<DataIndex>, nodes: Nodes, prev: NodeView)
    requires
        data_ok(a, nodes),
        addressed(nodes),
        holds_prev(nodes, prev.address, Some(prev)),
        data_lost(a, b, prev),
    ensures
        data_ok(b, nodes.remove(prev.address)),
{
    let next = nodes.remove(prev.address);
    assert forall|i: int| 0 <= i < b.len() implies index_ok(
        NodeIndex::Data((#[trigger] b[i]).def@),
        b[i].tree@,
        next,
    ) by {
        let ix = NodeIndex::Data(a[i].def@);
        assert(data_tree_lost(a[i], b[i], prev));
        lemma_index_remove(ix, a[i].tree@, b[i].tree@, nodes, prev);
    }
}

proof fn lemma_text_remove(a: Seq<TextIndex>, b: Seq<TextIndex>, nodes: Nodes, prev: NodeView)
    requires
        text_ok(a, nodes),
        addressed(nodes),
        holds_prev(nodes, prev.address, Some(prev)),
        text_lost(a, b, prev),
    ensures
        text_ok(b, nodes.remove(prev.address)),
{
    let next = nodes.remove(prev.address);
    assert forall|i: int| 0 <= i < b.len() implies index_ok(
        NodeIndex::Text((#[trigger] b[i]).def@),
        b[i].tree@,
        next,
    ) by {
        let ix = NodeIndex::Text(a[i].def@);
        assert(text_tree_lost(a[i], b[i], prev));
        lemma_index_remove(ix, a[i].tree@, b[i].tree@, nodes, prev);
    }
}

pub proof fn lemma_vacates_insert(tree: Entries, key: Seq<u8>, bytes: Seq<u8>, segment: u32)
    requires
        vacates(tree, segment),
        location_of(bytes) is Some ==> location_of(bytes)->0.segment != segment,
    ensures
        vacates(tree.insert(key, bytes), segment),
{
    let next = tree.insert(key, bytes);
    assert forall|k: Seq<u8>| next.contains_key(k) && location_of(#[trigger] next[k]) is Some implies location_of(
        next[k],
    )->0.segment != segment by {
        if k != key {
            assert(next[k] == tree[k]);
        }
    }
}

proof fn lemma_spare_primary(a: Tables, b: Tables, key: Seq<u8>, bytes: Seq<u8>)
    requires
        b.primary@ == a.primary@.insert(key, bytes),
        b.history@ == a.history@,
        b.edge_out@ == a.edge_out@,
        b.edge_in@ == a.edge_in@,
        location_of(bytes) is Some,
        forall|s: u32| #[trigger] inactive(a.store@, s) ==> inactive(b.store@, s) && location_of(bytes)->0.segment != s,
    ensures
        a.keeps_spare(&b),
{
    reveal(Tables::keeps_spare);
    assert forall|s: u32| #[trigger] a.spare(s) implies b.spare(s) by {
        assert(inactive(a.store@, s));
        lemma_vacates_insert(a.primary@, key, bytes, s);
    }
}

impl Tables {
    /// Keeps a superseded state.
    fn apply_archive(&mut self, entry: &HistoryEntry, cache: &RecordCache) -> (r: Result<(), TableError>)
        requires
            old(self).inv(),
            agrees(cache@, old(self).heap()),
            admissible(old(self)@, OperationView::Archive(entry@)),
        ensures
            agrees(cache@, final(self).heap()),
            keeps(old(self).heap(), final(self).heap()),
            r is Ok ==> old(self).keeps_spare(final(self)),
            r is Ok ==> wears(old(self).heap(), final(self).heap(), old(self).replaced(OperationView::Archive(entry@))),
            match r {
                Ok(()) => final(self).inv() && final(self)@ == applied(
                    old(self)@,
                    OperationView::Archive(entry@),
                ),
                Err(e) => !final(self).has_room(),
            },
    {
        let ghost db = self@;
        let ghost s0 = self.store@;
        let location = match self.store.append(&HeapRecord::History(entry.copy())) {
            Ok(location) => location,
            Err(e) => {
                proof {
                    lemma_agrees_kept(cache@, s0, self.store@);
                }
                return Err(TableError::Heap(e));
            },
        };
        let ghost s1 = self.store@;
        proof {
            lemma_agrees_kept(cache@, s0, s1);
            lemma_nodes_kept(self.primary@, db.nodes, s0, s1);
            lemma_edges_kept(self.edge_out@, self.edge_in@, db.edges, s0, s1);
            lemma_history_kept(self.history@, db.history, s0, s1);
            law_location_round_trip(location);
        }
        let key = history_key(&entry.address, entry.version);
        proof {
            crate::keys::lemma_component_len(utf8(entry@.address));
        }
        match self.history.get(&key) {
            Some(previous) => match RecordLocation::decode(&previous) {
                Some(old_location) => {
                    proof {
                        lemma_history_at(self.history@, db.history, s0, (entry@.address, entry@.version));
                    }
                    self.store.mark_obsolete(old_location);
                    proof {
                        lemma_wears_late(s0, s1, self.store@, old_location);
                    }
                },
                None => {},
            },
            None => {},
        }
        let ghost s2 = self.store@;
        proof {
            assert(wears(s0, s2, old(self).replaced(OperationView::Archive(entry@))));
            assert(keeps(s1, s2));
            lemma_agrees_kept(cache@, s1, s2);
            lemma_keeps_trans(s0, s1, s2);
            lemma_nodes_kept(self.primary@, db.nodes, s1, s2);
            lemma_edges_kept(self.edge_out@, self.edge_in@, db.edges, s1, s2);
            lemma_history_kept(self.history@, db.history, s1, s2);
            assert(holds(s2, location, HeapView::History(entry@)));
            crate::keys::lemma_component_len(utf8(entry@.address));
        }
        let encoded = location.encode();
        let ghost t = self.history@;
        match self.history.put(&key, &encoded) {
            Ok(()) => {},
            Err(e) => { return Err(TableError::Tree(e)) },
        }
        proof {
            lemma_history_insert(t, db.history, s2, entry@, encoded@);
            reveal(Tables::keeps_spare);
            assert forall|s: u32| #[trigger] old(self).spare(s) implies self.spare(s) by {
                assert(inactive(s0, s));
                lemma_vacates_insert(t, key@, encoded@, s);
            }
            self.db = Ghost(applied(db, OperationView::Archive(entry@)));
        }
        Ok(())
    }

    /// Puts a node's keys in place of those of the node before it.
    fn place_keys(&mut self, node: &Node, previous_node: &Option<Node>) -> (r: Result<(), TreeError>)
        requires
            old(self).kind.wf(),
            old(self).owner.wf(),
            data_wf(old(self).data@),
            text_wf(old(self).text@),
            index_ok(NodeIndex::Kind, old(self).kind@, old(self).db@.nodes),
            index_ok(NodeIndex::Owner, old(self).owner@, old(self).db@.nodes),
            data_ok(old(self).data@, old(self).db@.nodes),
            text_ok(old(self).text@, old(self).db@.nodes),
            data_defs(old(self).data@) == old(self).db@.data,
            text_defs(old(self).text@) == old(self).db@.text,
            addressed(old(self).db@.nodes),
            holds_prev(old(self).db@.nodes, node@.address, node_view(*previous_node)),
            admissible(old(self).db@, OperationView::Insert(node@)),
        ensures
            final(self).store == old(self).store,
            final(self).primary == old(self).primary,
            final(self).history == old(self).history,
            final(self).edge_out == old(self).edge_out,
            final(self).edge_in == old(self).edge_in,
            final(self).references == old(self).references,
            final(self).users == old(self).users,
            final(self).user_log == old(self).user_log,
            final(self).index_log == old(self).index_log,
            final(self).text_log == old(self).text_log,
            final(self).reference_log == old(self).reference_log,
            final(self).db == old(self).db,
            match r {
                Ok(()) => {
                    let next = old(self).db@.nodes.insert(node@.address, node@);
                    &&& final(self).kind.wf()
                    &&& final(self).owner.wf()
                    &&& data_wf(final(self).data@)
                    &&& text_wf(final(self).text@)
                    &&& index_ok(NodeIndex::Kind, final(self).kind@, next)
                    &&& index_ok(NodeIndex::Owner, final(self).owner@, next)
                    &&& data_ok(final(self).data@, next)
                    &&& text_ok(final(self).text@, next)
                    &&& data_defs(final(self).data@) == old(self).db@.data
                    &&& text_defs(final(self).text@) == old(self).db@.text
                },
                Err(e) => !final(self).has_room(),
            },
    {
        let ghost db = self.db@;
        let ghost nodes = db.nodes;
        let ghost n = node@;
        let ghost prev = node_view(*previous_node);
        let ghost kind0 = self.kind@;
        let ghost owner0 = self.owner@;
        match previous_node {
            Some(p) => {
                if !str_eq(&p.kind, &node.kind) {
                    match self.kind.remove(&kind_key(&p.kind, &node.address)) {
                        Ok(_) => {},
                        Err(e) => { return Err(e) },
                    }
                }
                if !str_eq(&p.owner, &node.owner) {
                    match self.owner.remove(&owner_key(&p.owner, &node.address)) {
                        Ok(_) => {},
                        Err(e) => { return Err(e) },
                    }
                }
            },
            None => {},
        }
        let empty: Vec<u8> = Vec::new();
        proof {
            crate::keys::lemma_component_len(utf8(n.kind));
            crate::keys::lemma_component_len(utf8(n.owner));
        }
        match self.kind.put(&kind_key(&node.kind, &node.address), &empty) {
            Ok(()) => {},
            Err(e) => { return Err(e) },
        }
        match self.owner.put(&owner_key(&node.owner, &node.address), &empty) {
            Ok(()) => {},
            Err(e) => { return Err(e) },
        }
        proof {
            lemma_index_insert(NodeIndex::Kind, kind0, self.kind@, nodes, n, prev);
            lemma_index_insert(NodeIndex::Owner, owner0, self.owner@, nodes, n, prev);
        }
        let ghost data0 = self.data@;
        let ghost text0 = self.text@;
        match previous_node {
            Some(p) => {
                match retract_data_keys(&mut self.data, p) {
                    Ok(()) => {},
                    Err(e) => { return Err(e) },
                }
                match retract_text_keys(&mut self.text, p) {
                    Ok(()) => {},
                    Err(e) => { return Err(e) },
                }
            },
            None => {},
        }
        let ghost data1 = self.data@;
        let ghost text1 = self.text@;
        proof {
            assert forall|i: int| 0 <= i < data1.len() implies data_fits((#[trigger] data1[i]).def@, n) by {
                assert(data_defs(data1)[i] == db.data[i]);
            }
            assert forall|i: int| 0 <= i < text1.len() implies text_fits((#[trigger] text1[i]).def@, n) by {
                assert(text_defs(text1)[i] == db.text[i]);
            }
        }
        match assert_data_keys(&mut self.data, node) {
            Ok(()) => {},
            Err(e) => { return Err(e) },
        }
        match assert_text_keys(&mut self.text, node) {
            Ok(()) => {},
            Err(e) => { return Err(e) },
        }
        proof {
            lemma_data_insert(data0, data1, self.data@, nodes, n, prev);
            lemma_text_insert(text0, text1, self.text@, nodes, n, prev);
        }
        Ok(())
    }

    /// Puts a node in place of what is at its address.
    fn apply_insert(&mut self, node: &Node, cache: &mut RecordCache) -> (r: Result<(), TableError>)
        requires
            old(self).inv(),
            old(cache).wf(),
            agrees(old(cache)@, old(self).heap()),
            admissible(old(self)@, OperationView::Insert(node@)),
        ensures
            final(cache).wf(),
            agrees(final(cache)@, final(self).heap()),
            keeps(old(self).heap(), final(self).heap()),
            r is Ok ==> old(self).keeps_spare(final(self)),
            r is Ok ==> wears(old(self).heap(), final(self).heap(), old(self).replaced(OperationView::Insert(node@))),
            match r {
                Ok(()) => final(self).inv() && final(self)@ == applied(old(self)@, OperationView::Insert(node@)),
                Err(e) => !final(self).has_room(),
            },
    {
        let ghost db = self@;
        let ghost nodes = db.nodes;
        let ghost s0 = self.store@;
        let ghost n = node@;
        let ghost prev = node_in(nodes, n.address);
        let previous = self.node_location(&node.address);
        let previous_node: Option<Node> = match previous {
            Some(location) => {
                let found = self.node_at(location, cache);
                proof {
                    assert(has_node(self.store@, location, nodes[n.address]));
                }
                found
            },
            None => None,
        };
        proof {
            assert(node_view(previous_node) == prev);
            lemma_nodes_at(self.primary@, nodes, s0, n.address);
        }
        let location = match self.store.append(&HeapRecord::Node(node.copy())) {
            Ok(location) => location,
            Err(e) => {
                proof {
                    lemma_agrees_kept(cache@, s0, self.store@);
                }
                return Err(TableError::Heap(e));
            },
        };
        let ghost s1 = self.store@;
        proof {
            lemma_agrees_kept(cache@, s0, s1);
            lemma_nodes_kept(self.primary@, nodes, s0, s1);
            lemma_edges_kept(self.edge_out@, self.edge_in@, db.edges, s0, s1);
            lemma_history_kept(self.history@, db.history, s0, s1);
            law_location_round_trip(location);
        }
        let encoded = location.encode();
        let ghost t = self.primary@;
        match self.primary.put(node.address.as_str().as_bytes(), &encoded) {
            Ok(()) => {},
            Err(e) => { return Err(TableError::Tree(e)) },
        }
        proof {
            lemma_nodes_insert(t, nodes, s1, n, encoded@);
        }
        match self.place_keys(node, &previous_node) {
            Ok(()) => {},
            Err(e) => { return Err(TableError::Tree(e)) },
        }
        match previous {
            Some(old_location) => {
                self.store.mark_obsolete(old_location);
                proof {
                    lemma_wears_late(s0, s1, self.store@, old_location);
                }
            },
            None => {
                proof {
                    lemma_keeps_refl(s1);
                }
            },
        }
        let ghost s2 = self.store@;
        proof {
            assert(keeps(s1, s2));
            lemma_agrees_kept(cache@, s1, s2);
            lemma_keeps_trans(s0, s1, s2);
            lemma_nodes_kept(self.primary@, nodes.insert(n.address, n), s1, s2);
            lemma_edges_kept(self.edge_out@, self.edge_in@, db.edges, s1, s2);
            lemma_history_kept(self.history@, db.history, s1, s2);
            assert(holds(s2, location, HeapView::Node(n)));
            lemma_agrees_stored(cache@, s2, location, n, cache.limit());
            self.db = Ghost(applied(db, OperationView::Insert(n)));
            lemma_spare_primary(*old(self), *self, utf8(n.address), encoded@);
        }
        cache.put(location, node.copy());
        Ok(())
    }

    /// Takes the node at an address out.
    fn apply_delete(&mut self, address: &str, cache: &mut RecordCache) -> (r: Result<(), TableError>)
        requires
            old(self).inv(),
            old(cache).wf(),
            agrees(old(cache)@, old(self).heap()),
        ensures
            final(cache).wf(),
            agrees(final(cache)@, final(self).heap()),
            keeps(old(self).heap(), final(self).heap()),
            r is Ok ==> old(self).keeps_spare(final(self)),
            r is Ok ==> wears(old(self).heap(), final(self).heap(), old(self).replaced(OperationView::Delete(address@))),
            match r {
                Ok(()) => final(self).inv() && final(self)@ == applied(
                    old(self)@,
                    OperationView::Delete(address@),
                ),
                Err(e) => !final(self).has_room(),
            },
    {
        let ghost db = self@;
        let ghost nodes = db.nodes;
        let ghost s0 = self.store@;
        proof {
            lemma_keeps_refl(s0);
            lemma_nodes_at(self.primary@, nodes, s0, address@);
        }
        let location = match self.node_location(address) {
            Some(location) => location,
            None => {
                proof {
                    assert(nodes.remove(address@) =~= nodes);
                    assert(applied(db, OperationView::Delete(address@)) =~= db);
                    lemma_wears_same(s0);
                    reveal(Tables::keeps_spare);
                }
                return Ok(());
            },
        };
        let node = match self.node_at(location, cache) {
            Some(node) => node,
            None => {
                proof {
                    assert(has_node(self.store@, location, nodes[address@]));
                    assert(false);
                }
                return Ok(());
            },
        };
        let ghost p = nodes[address@];
        proof {
            assert(has_node(self.store@, location, p));
            assert(node@ == p);
            assert(p.address == address@);
        }
        let ghost t = self.primary@;
        match self.primary.remove(address.as_bytes()) {
            Ok(_) => {},
            Err(e) => { return Err(TableError::Tree(e)) },
        }
        let ghost kind0 = self.kind@;
        match self.kind.remove(&kind_key(&node.kind, address)) {
            Ok(_) => {},
            Err(e) => { return Err(TableError::Tree(e)) },
        }
        let ghost owner0 = self.owner@;
        match self.owner.remove(&owner_key(&node.owner, address)) {
            Ok(_) => {},
            Err(e) => { return Err(TableError::Tree(e)) },
        }
        let ghost data0 = self.data@;
        let ghost text0 = self.text@;
        match retract_data_keys(&mut self.data, &node) {
            Ok(()) => {},
            Err(e) => { return Err(TableError::Tree(e)) },
        }
        match retract_text_keys(&mut self.text, &node) {
            Ok(()) => {},
            Err(e) => { return Err(TableError::Tree(e)) },
        }
        proof {
            lemma_nodes_remove(t, nodes, s0, address@);
            lemma_index_remove(NodeIndex::Kind, kind0, self.kind@, nodes, p);
            lemma_index_remove(NodeIndex::Owner, owner0, self.owner@, nodes, p);
            lemma_data_remove(data0, self.data@, nodes, p);
            lemma_text_remove(text0, self.text@, nodes, p);
        }
        self.store.mark_obsolete(location);
        let ghost s1 = self.store@;
        proof {
            lemma_agrees_kept(cache@, s0, s1);
            lemma_nodes_kept(self.primary@, nodes.remove(address@), s0, s1);
            lemma_edges_kept(self.edge_out@, self.edge_in@, db.edges, s0, s1);
            lemma_history_kept(self.history@, db.history, s0, s1);
            lemma_agrees_refreshed(cache@, s1, location);
            reveal(Tables::keeps_spare);
            self.db = Ghost(applied(db, OperationView::Delete(address@)));
        }
        cache.invalidate(location);
        Ok(())
    }

    /// Puts an edge in place of the one with its id.
    fn apply_insert_edge(&mut self, edge: &Edge, cache: &RecordCache) -> (r: Result<(), TableError>)
        requires
            old(self).inv(),
            agrees(cache@, old(self).heap()),
            admissible(old(self)@, OperationView::InsertEdge(edge@)),
        ensures
            agrees(cache@, final(self).heap()),
            keeps(old(self).heap(), final(self).heap()),
            r is Ok ==> old(self).keeps_spare(final(self)),
            r is Ok ==> wears(old(self).heap(), final(self).heap(), old(self).replaced(OperationView::InsertEdge(edge@))),
            match r {
                Ok(()) => final(self).inv() && final(self)@ == applied(
                    old(self)@,
                    OperationView::InsertEdge(edge@),
                ),
                Err(e) => !final(self).has_room(),
            },
    {
        let ghost db = self@;
        let ghost s0 = self.store@;
        let ghost id = edge@.id();
        let out = edge_out_key(&edge.from, &edge.kind, &edge.to);
        let into = edge_in_key(&edge.to, &edge.kind, &edge.from);
        proof {
            lemma_keeps_refl(s0);
            crate::keys::lemma_edge_keys(id, id);
            crate::keys::lemma_component_len(utf8(id.from));
            crate::keys::lemma_component_len(utf8(id.to));
            assert(out@ == out_key(id));
            assert(into@ == in_key(id));
        }
        proof {
            lemma_wears_same(s0);
        }
        match self.edge_out.get(&out) {
            Some(previous) => match RecordLocation::decode(&previous) {
                Some(old_location) => {
                    self.store.mark_obsolete(old_location);
                },
                None => {},
            },
            None => {},
        }
        let ghost s1 = self.store@;
        proof {
            assert(keeps(s0, s1));
            lemma_agrees_kept(cache@, s0, s1);
        }
        let location = match self.store.append(&HeapRecord::Edge(edge.copy())) {
            Ok(location) => location,
            Err(e) => {
                proof {
                    lemma_agrees_kept(cache@, s1, self.store@);
                    lemma_keeps_trans(s0, s1, self.store@);
                }
                return Err(TableError::Heap(e));
            },
        };
        let ghost s2 = self.store@;
        proof {
            lemma_wears_early(s0, s1, s2, old(self).replaced(OperationView::InsertEdge(edge@)));
            lemma_agrees_kept(cache@, s1, s2);
            lemma_keeps_trans(s0, s1, s2);
            lemma_nodes_kept(self.primary@, db.nodes, s0, s2);
            lemma_edges_kept(self.edge_out@, self.edge_in@, db.edges, s0, s2);
            lemma_history_kept(self.history@, db.history, s0, s2);
            law_location_round_trip(location);
        }
        let encoded = location.encode();
        let ghost o = self.edge_out@;
        let ghost i = self.edge_in@;
        match self.edge_out.put(&out, &encoded) {
            Ok(()) => {},
            Err(e) => { return Err(TableError::Tree(e)) },
        }
        match self.edge_in.put(&into, &encoded) {
            Ok(()) => {},
            Err(e) => { return Err(TableError::Tree(e)) },
        }
        proof {
            lemma_edges_insert(o, i, db.edges, s2, edge@, encoded@);
            reveal(Tables::keeps_spare);
            assert forall|s: u32| #[trigger] old(self).spare(s) implies self.spare(s) by {
                assert(inactive(s1, s));
                lemma_vacates_insert(o, out@, encoded@, s);
                lemma_vacates_insert(i, into@, encoded@, s);
            }
            self.db = Ghost(applied(db, OperationView::InsertEdge(edge@)));
        }
        Ok(())
    }

    /// Takes an edge out.
    fn apply_delete_edge(&mut self, id: &EdgeId, cache: &RecordCache) -> (r: Result<(), TableError>)
        requires
            old(self).inv(),
            agrees(cache@, old(self).heap()),
        ensures
            agrees(cache@, final(self).heap()),
            keeps(old(self).heap(), final(self).heap()),
            r is Ok ==> old(self).keeps_spare(final(self)),
            r is Ok ==> wears(old(self).heap(), final(self).heap(), old(self).replaced(OperationView::DeleteEdge(id@))),
            match r {
                Ok(()) => final(self).inv() && final(self)@ == applied(
                    old(self)@,
                    OperationView::DeleteEdge(id@),
                ),
                Err(e) => !final(self).has_room(),
            },
    {
        let ghost db = self@;
        let ghost s0 = self.store@;
        let out = edge_out_key(&id.from, &id.kind, &id.to);
        let into = edge_in_key(&id.to, &id.kind, &id.from);
        proof {
            lemma_keeps_refl(s0);
            assert(out@ == out_key(id@));
            assert(into@ == in_key(id@));
        }
        proof {
            lemma_wears_same(s0);
        }
        match self.edge_out.get(&out) {
            Some(previous) => match RecordLocation::decode(&previous) {
                Some(old_location) => {
                    self.store.mark_obsolete(old_location);
                },
                None => {},
            },
            None => {},
        }
        let ghost s1 = self.store@;
        proof {
            assert(keeps(s0, s1));
            lemma_agrees_kept(cache@, s0, s1);
            lemma_nodes_kept(self.primary@, db.nodes, s0, s1);
            lemma_edges_kept(self.edge_out@, self.edge_in@, db.edges, s0, s1);
            lemma_history_kept(self.history@, db.history, s0, s1);
        }
        let ghost o = self.edge_out@;
        let ghost i = self.edge_in@;
        match self.edge_out.remove(&out) {
            Ok(_) => {},
            Err(e) => { return Err(TableError::Tree(e)) },
        }
        match self.edge_in.remove(&into) {
            Ok(_) => {},
            Err(e) => { return Err(TableError::Tree(e)) },
        }
        proof {
            lemma_edges_remove(o, i, db.edges, s1, id@);
            reveal(Tables::keeps_spare);
            self.db = Ghost(applied(db, OperationView::DeleteEdge(id@)));
        }
        Ok(())
    }
}

impl Tables {
    /// Carries out one operation.
    pub(crate) fn apply_operation(&mut self, operation: &Operation, cache: &mut RecordCache) -> (r: Result<
        (),
        TableError,
    >)
        requires
            old(self).inv(),
            old(cache).wf(),
            agrees(old(cache)@, old(self).heap()),
            admissible(old(self)@, operation@),
        ensures
            final(cache).wf(),
            agrees(final(cache)@, final(self).heap()),
            keeps(old(self).heap(), final(self).heap()),
            r is Ok ==> old(self).keeps_spare(final(self)),
            match r {
                Ok(()) => {
                    &&& final(self).inv()
                    &&& final(self)@ == applied(old(self)@, operation@)
                    &&& wears(old(self).heap(), final(self).heap(), old(self).replaced(operation@))
                },
                Err(e) => !final(self).has_room() && takes_room(operation@),
            },
    {
        proof {
            lemma_keeps_refl(self.store@);
            lemma_wears_same(self.store@);
        }
        match operation {
            Operation::Archive(entry) => self.apply_archive(entry, cache),
            Operation::Insert(node) => self.apply_insert(node, cache),
            Operation::Delete(address) => self.apply_delete(address, cache),
            Operation::InsertEdge(edge) => self.apply_insert_edge(edge, cache),
            Operation::DeleteEdge(id) => self.apply_delete_edge(id, cache),
            Operation::InsertUser(record) => {
                self.apply_insert_user(record);
                Ok(())
            },
            Operation::RevokeUser(token_hash) => {
                self.apply_revoke_user(token_hash);
                Ok(())
            },
            Operation::CreateIndex(def) => self.apply_create_index(def, cache),
            Operation::DropIndex(name) => {
                self.apply_drop_index(name);
                Ok(())
            },
            Operation::CreateReference(def) => {
                self.apply_create_reference(def);
                Ok(())
            },
            Operation::DropReference(name) => {
                self.apply_drop_reference(name);
                Ok(())
            },
            Operation::CreateTextIndex(def) => self.apply_create_text_index(def, cache),
            Operation::DropTextIndex(name) => {
                self.apply_drop_text_index(name);
                Ok(())
            },
        }
    }
}

pub proof fn lemma_keeps_refl(u: StoreView)
    ensures
        keeps(u, u),
{
}

} // verus!
