//! How much the tables hold.

use vstd::prelude::*;
use vstd::set_lib::lemma_map_size;

use crate::catalog::{CatalogView, SegmentMeta};
use crate::keys::{lemma_edge_keys, lemma_version_key, out_key, version_key};
use crate::tables::model::{edges_ok, history_ok, lemma_nodes_at, lemma_nodes_key};
use crate::tables::query::capped;
use crate::tables::Tables;
use crate::text::{lemma_utf8_injective, utf8};
use crate::types::EdgeIdView;

verus! {

/// How much of the heap is in use.
#[derive(Clone, Copy, PartialEq, Eq, Debug, Structural)]
pub struct StorageStats {
    pub page_size: u32,
    pub segments: u64,
    pub pages: u64,
    pub obsolete_bytes: u64,
}

/// Pages of the first `n` segments.
pub open spec fn pages_in(segments: Seq<SegmentMeta>, n: int) -> nat
    decreases n,
{
    if n <= 0 {
        0
    } else {
        pages_in(segments, n - 1) + segments[n - 1].pages as nat
    }
}

/// Obsolete bytes in the first `n` segments.
pub open spec fn obsolete_in(segments: Seq<SegmentMeta>, n: int) -> nat
    decreases n,
{
    if n <= 0 {
        0
    } else {
        obsolete_in(segments, n - 1) + segments[n - 1].obsolete_bytes as nat
    }
}

/// The numbers are those of the catalog.
pub open spec fn storage_stats_of(s: StorageStats, c: CatalogView) -> bool {
    &&& s.page_size == c.page_size
    &&& s.segments == c.segments.len()
    &&& s.pages == capped(pages_in(c.segments, c.segments.len() as int))
    &&& s.obsolete_bytes == capped(obsolete_in(c.segments, c.segments.len() as int))
}

/// The sum, or the largest number where it is larger.
fn plus(a: u64, b: u64) -> (r: u64)
    ensures
        r == capped((a + b) as nat),
{
    if a > u64::MAX - b {
        u64::MAX
    } else {
        a + b
    }
}

impl Tables {
    /// How much of the heap is in use.
    pub(crate) fn storage_stats(&self) -> (r: StorageStats)
        requires
            self.inv(),
        ensures
            storage_stats_of(r, self.heap().catalog),
    {
        let catalog = self.store.catalog();
        let n: usize = catalog.segment_count();
        let mut pages: u64 = 0;
        let mut obsolete_bytes: u64 = 0;
        let mut i: usize = 0;
        while i < n
            invariant
                i <= n,
                n == catalog@.segments.len(),
                pages == capped(pages_in(catalog@.segments, i as int)),
                obsolete_bytes == capped(obsolete_in(catalog@.segments, i as int)),
            decreases n - i,
        {
            let meta = catalog.segment(i);
            pages = plus(pages, meta.pages as u64);
            obsolete_bytes = plus(obsolete_bytes, meta.obsolete_bytes);
            i = i + 1;
        }
        StorageStats { page_size: catalog.page_size(), segments: n as u64, pages, obsolete_bytes }
    }

    /// How many nodes, edges and superseded states there are.
    pub(crate) fn counts(&self) -> (r: (u64, u64, u64))
        requires
            self.inv(),
        ensures
            r.0 == self@.nodes.len(),
            r.1 == self@.edges.len(),
            r.2 == self@.history.len(),
    {
        proof {
            self.lemma_node_count();
            self.lemma_edge_count();
            self.lemma_history_count();
        }
        (self.primary.len(), self.edge_out.len(), self.history.len())
    }

    proof fn lemma_node_count(&self)
        requires
            self.inv(),
        ensures
            self@.nodes.len() == self.primary@.len(),
    {
        let nodes = self@.nodes;
        let tree = self.primary@;
        self.primary.lemma_wf();
        let back = |k: Seq<u8>| choose|a: Seq<char>| #[trigger] nodes.contains_key(a) && k == utf8(a);
        assert forall|k: Seq<u8>| #[trigger] tree.contains_key(k) implies nodes.contains_key(back(k)) && k == utf8(back(k)) by {
            let a = lemma_nodes_key(tree, nodes, self.store@, k);
            assert(nodes.contains_key(a) && k == utf8(a));
        }
        assert(vstd::relations::injective_on(back, tree.dom())) by {
            assert forall|x: Seq<u8>, y: Seq<u8>|
                tree.dom().contains(x) && tree.dom().contains(y) && #[trigger] back(x) == #[trigger] back(y) implies x
                == y by {
                assert(tree.contains_key(x) && tree.contains_key(y));
            }
        }
        assert(tree.dom().map(back) =~= nodes.dom()) by {
            assert forall|a: Seq<char>| nodes.dom().contains(a) implies #[trigger] tree.dom().map(back).contains(a) by {
                lemma_nodes_at(tree, nodes, self.store@, a);
                let k = utf8(a);
                assert(tree.contains_key(k));
                lemma_utf8_injective(a, back(k));
                assert(tree.dom().contains(k) && back(k) == a);
            }
            assert forall|a: Seq<char>| #[trigger] tree.dom().map(back).contains(a) implies nodes.dom().contains(a) by {
                let k = choose|k: Seq<u8>| tree.dom().contains(k) && a == back(k);
                assert(tree.contains_key(k));
            }
        }
        lemma_map_size(tree.dom(), nodes.dom(), back);
    }

    proof fn lemma_edge_count(&self)
        requires
            self.inv(),
        ensures
            self@.edges.len() == self.edge_out@.len(),
    {
        reveal(edges_ok);
        let edges = self@.edges;
        let tree = self.edge_out@;
        self.edge_out.lemma_wf();
        let back = |k: Seq<u8>| choose|id: EdgeIdView| #[trigger] edges.contains_key(id) && k == out_key(id);
        assert forall|k: Seq<u8>| #[trigger] tree.contains_key(k) implies edges.contains_key(back(k)) && k == out_key(
            back(k),
        ) by {}
        assert(vstd::relations::injective_on(back, tree.dom())) by {
            assert forall|x: Seq<u8>, y: Seq<u8>|
                tree.dom().contains(x) && tree.dom().contains(y) && #[trigger] back(x) == #[trigger] back(y) implies x
                == y by {
                assert(tree.contains_key(x) && tree.contains_key(y));
            }
        }
        assert(tree.dom().map(back) =~= edges.dom()) by {
            assert forall|id: EdgeIdView| edges.dom().contains(id) implies #[trigger] tree.dom().map(back).contains(id) by {
                let k = out_key(id);
                assert(edges.contains_key(id));
                assert(tree.contains_key(k));
                let other = back(k);
                assert(edges.contains_key(other));
                lemma_edge_keys(id, other);
                assert(tree.dom().contains(k) && back(k) == id);
            }
            assert forall|id: EdgeIdView| #[trigger] tree.dom().map(back).contains(id) implies edges.dom().contains(id) by {
                let k = choose|k: Seq<u8>| tree.dom().contains(k) && id == back(k);
                assert(tree.contains_key(k));
            }
        }
        lemma_map_size(tree.dom(), edges.dom(), back);
    }

    proof fn lemma_history_count(&self)
        requires
            self.inv(),
        ensures
            self@.history.len() == self.history@.len(),
    {
        reveal(history_ok);
        let history = self@.history;
        let tree = self.history@;
        self.history.lemma_wf();
        let back = |k: Seq<u8>|
            choose|x: (Seq<char>, u64)| #[trigger] history.contains_key(x) && k == version_key(x.0, x.1);
        assert forall|k: Seq<u8>| #[trigger] tree.contains_key(k) implies history.contains_key(back(k)) && k
            == version_key(back(k).0, back(k).1) by {}
        assert(vstd::relations::injective_on(back, tree.dom())) by {
            assert forall|x: Seq<u8>, y: Seq<u8>|
                tree.dom().contains(x) && tree.dom().contains(y) && #[trigger] back(x) == #[trigger] back(y) implies x
                == y by {
                assert(tree.contains_key(x) && tree.contains_key(y));
            }
        }
        assert(tree.dom().map(back) =~= history.dom()) by {
            assert forall|x: (Seq<char>, u64)| history.dom().contains(x) implies #[trigger] tree.dom().map(back).contains(
                x,
            ) by {
                let k = version_key(x.0, x.1);
                assert(history.contains_key(x));
                assert(tree.contains_key(k));
                let other = back(k);
                assert(history.contains_key(other));
                lemma_version_key(x.0, x.1, other.0, other.1);
                assert(tree.dom().contains(k) && back(k) == x);
            }
            assert forall|x: (Seq<char>, u64)| #[trigger] tree.dom().map(back).contains(x) implies history.dom().contains(
                x,
            ) by {
                let k = choose|k: Seq<u8>| tree.dom().contains(k) && x == back(k);
                assert(tree.contains_key(k));
            }
        }
        lemma_map_size(tree.dom(), history.dom(), back);
    }
}

} // verus!
