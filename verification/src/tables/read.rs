//! Reading records through the indexes.

use vstd::prelude::*;

use crate::cache::{cached, entry_index, refreshed, stored, without, CacheView, RecordCache};
use crate::heap::{holds, record_at, HeapRecord, HeapView, StoreError, StoreView};
use crate::keys::{edge_out_key, out_key};
use crate::tables::model::{lemma_edges_at, lemma_nodes_at, Nodes};
use crate::tables::{agrees, place_in, Tables};
use crate::text::utf8;
use crate::types::{Edge, EdgeId, EdgeIdView, EdgeView, HistoryEntry, HistoryView, Node, NodeView, RecordLocation};

verus! {

/// The node at an address, if there is one.
pub open spec fn node_in(nodes: Nodes, a: Seq<char>) -> Option<NodeView> {
    if nodes.contains_key(a) {
        Some(nodes[a])
    } else {
        None
    }
}

pub open spec fn edge_in(edges: Map<EdgeIdView, EdgeView>, id: EdgeIdView) -> Option<EdgeView> {
    if edges.contains_key(id) {
        Some(edges[id])
    } else {
        None
    }
}

pub open spec fn node_view(n: Option<Node>) -> Option<NodeView> {
    match n {
        Some(n) => Some(n@),
        None => None,
    }
}

pub open spec fn edge_view(e: Option<Edge>) -> Option<EdgeView> {
    match e {
        Some(e) => Some(e@),
        None => None,
    }
}

/// The record at the location is this node.
pub open spec fn has_node(store: StoreView, l: RecordLocation, n: NodeView) -> bool {
    record_at(store, l) == Ok::<HeapView, StoreError>(HeapView::Node(n))
}

pub proof fn lemma_agrees_refreshed(cache: CacheView, store: StoreView, l: RecordLocation)
    requires
        agrees(cache, store),
    ensures
        agrees(refreshed(cache, l), store),
        agrees(without(cache, l), store),
        cached(cache, l) matches Some(n) ==> has_node(store, l, n),
{
    let k = entry_index(cache, l);
    if cached(cache, l) is Some {
        assert(0 <= k < cache.len() && cache[k].0 == l);
        assert(has_node(store, cache[k].0, cache[k].1));
    }
    let w = without(cache, l);
    assert forall|i: int| 0 <= i < w.len() implies has_node(store, (#[trigger] w[i]).0, w[i].1) by {
        if cached(cache, l) is Some {
            assert(w[i] == cache[if i < k {
                i
            } else {
                i + 1
            }]);
        }
    }
    let r = refreshed(cache, l);
    assert forall|i: int| 0 <= i < r.len() implies has_node(store, (#[trigger] r[i]).0, r[i].1) by {
        if cached(cache, l) is Some && i < w.len() {
            assert(r[i] == w[i]);
        }
    }
}

pub proof fn lemma_agrees_stored(cache: CacheView, store: StoreView, l: RecordLocation, n: NodeView, capacity: nat)
    requires
        agrees(cache, store),
        has_node(store, l, n),
    ensures
        agrees(stored(cache, l, n, capacity), store),
{
    lemma_agrees_refreshed(cache, store, l);
    let w = without(cache, l);
    let full = w.push((l, n));
    let s = stored(cache, l, n, capacity);
    assert forall|i: int| 0 <= i < s.len() implies has_node(store, (#[trigger] s[i]).0, s[i].1) by {
        let k = if full.len() > capacity {
            i + 1
        } else {
            i
        };
        assert(s[i] == full[k]);
        if k < w.len() {
            assert(full[k] == w[k]);
        }
    }
}

impl Tables {
    /// The node record at a location, from the cache or the heap; none if
    /// there is another record or none.
    pub(crate) fn node_at(&self, location: RecordLocation, cache: &mut RecordCache) -> (r: Option<Node>)
        requires
            self.store.wf(),
            old(cache).wf(),
            agrees(old(cache)@, self.store@),
        ensures
            final(cache).wf(),
            agrees(final(cache)@, self.store@),
            match r {
                Some(n) => has_node(self.store@, location, n@),
                None => forall|n: NodeView| !#[trigger] has_node(self.store@, location, n),
            },
    {
        proof {
            lemma_agrees_refreshed(cache@, self.store@, location);
        }
        match cache.get(location) {
            Some(node) => {
                return Some(node);
            },
            None => {},
        }
        match self.store.read(location) {
            Ok(HeapRecord::Node(node)) => {
                proof {
                    lemma_agrees_stored(cache@, self.store@, location, node@, cache.limit());
                }
                cache.put(location, node.copy());
                Some(node)
            },
            _ => None,
        }
    }

    /// The edge record at a location; none if there is another record or
    /// none.
    pub(crate) fn edge_at(&self, location: RecordLocation) -> (r: Option<Edge>)
        requires
            self.store.wf(),
        ensures
            forall|e: EdgeView| #[trigger]
                holds(self.store@, location, HeapView::Edge(e)) ==> edge_view(r) == Some(e),
    {
        match self.store.read(location) {
            Ok(HeapRecord::Edge(edge)) => Some(edge),
            _ => None,
        }
    }

    /// The state at a location; none if there is another record or none.
    pub(crate) fn history_at(&self, location: RecordLocation) -> (r: Option<HistoryEntry>)
        requires
            self.store.wf(),
        ensures
            forall|h: HistoryView| #[trigger]
                holds(self.store@, location, HeapView::History(h)) ==> r is Some && r->0@ == h,
    {
        match self.store.read(location) {
            Ok(HeapRecord::History(entry)) => Some(entry),
            _ => None,
        }
    }

    /// Where a node's record is.
    pub(crate) fn node_location(&self, address: &str) -> (r: Option<RecordLocation>)
        requires
            self.inv(),
        ensures
            match r {
                Some(l) => self@.nodes.contains_key(address@) && holds(
                    self.store@,
                    l,
                    HeapView::Node(self@.nodes[address@]),
                ),
                None => !self@.nodes.contains_key(address@),
            },
            r == place_in(self.primary@, utf8(address@)),
    {
        proof {
            lemma_nodes_at(self.primary@, self@.nodes, self.store@, address@);
        }
        match self.primary.get(address.as_bytes()) {
            Some(raw) => RecordLocation::decode(&raw),
            None => None,
        }
    }

    /// The node at an address.
    pub(crate) fn read_node(&self, address: &str, cache: &mut RecordCache) -> (r: Option<Node>)
        requires
            self.inv(),
            old(cache).wf(),
            agrees(old(cache)@, self.heap()),
        ensures
            final(cache).wf(),
            agrees(final(cache)@, self.heap()),
            node_view(r) == node_in(self@.nodes, address@),
    {
        match self.node_location(address) {
            Some(location) => {
                let r = self.node_at(location, cache);
                proof {
                    assert(has_node(self.store@, location, self@.nodes[address@]));
                }
                r
            },
            None => None,
        }
    }

    /// Whether there is a node at an address.
    pub(crate) fn contains_node(&self, address: &str) -> (r: bool)
        requires
            self.inv(),
        ensures
            r == self@.nodes.contains_key(address@),
    {
        proof {
            lemma_nodes_at(self.primary@, self@.nodes, self.store@, address@);
        }
        self.primary.get(address.as_bytes()).is_some()
    }

    /// The edge with this id.
    pub(crate) fn find_edge(&self, id: &EdgeId) -> (r: Option<Edge>)
        requires
            self.inv(),
        ensures
            edge_view(r) == edge_in(self@.edges, id@),
    {
        proof {
            lemma_edges_at(self.edge_out@, self.edge_in@, self@.edges, self.store@, id@);
        }
        let key = edge_out_key(&id.from, &id.kind, &id.to);
        proof {
            assert(key@ == out_key(id@));
        }
        match self.edge_out.get(&key) {
            Some(raw) => match RecordLocation::decode(&raw) {
                Some(location) => {
                    proof {
                        assert(holds(self.store@, location, HeapView::Edge(self@.edges[id@])));
                    }
                    self.edge_at(location)
                },
                None => None,
            },
            None => None,
        }
    }
}

} // verus!
