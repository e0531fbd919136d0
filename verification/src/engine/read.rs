//! Reading.

use vstd::prelude::*;

use crate::engine::StorageEngine;
use crate::tables::listing::{edge_listing, edges_view, eligible_nodes, history_listing, history_view, readable};
use crate::tables::lower::nodes_view;
use crate::tables::model::Nodes;
use crate::tables::plan::listing;
use crate::tables::query::{window, Query, QueryView};
use crate::tables::read::{edge_in, edge_view, node_in, node_view};
use crate::tables::rows::scanned;
use crate::text::str_view;
use crate::types::{Edge, EdgeId, EdgeIdView, EdgeView, HistoryEntry, HistoryView, Node, NodeView};

verus! {

/// Most addresses that are read at once.
pub const MAX_MULTI_GET: usize = 1000;

/// Why nothing was read.
#[derive(Clone, Copy, PartialEq, Eq, Debug, Structural)]
pub enum ReadError {
    /// The answer would hold more rows in memory than allowed.
    ScanLimit { max: usize },
    /// So many rows are not skipped.
    Offset { offset: usize, max: usize },
    /// So many addresses are not read at once.
    TooMany { len: usize, max: usize },
    /// An earlier change went wrong half way; the database has to be opened
    /// again.
    Failed,
}

/// Nothing changed but that one read more is counted.
pub open spec fn read_once(before: StorageEngine, after: StorageEngine) -> bool {
    &&& before.same(&after)
    &&& after.reads() == (if before.reads() == u64::MAX {
        0
    } else {
        (before.reads() + 1) as u64
    })
}

/// The node at an address that is read, if there is one that the requester
/// may read.
pub open spec fn found_at(nodes: Nodes, address: Seq<char>, requester: Option<Seq<char>>) -> Seq<NodeView> {
    match node_in(nodes, address) {
        Some(n) => if readable(requester)(n) {
            seq![n]
        } else {
            Seq::empty()
        },
        None => Seq::empty(),
    }
}

/// The nodes at the first `n` addresses, as far as there are any that the
/// requester may read.
pub open spec fn found_among(nodes: Nodes, addresses: Seq<String>, requester: Option<Seq<char>>, n: int) -> Seq<NodeView>
    decreases n,
{
    if n <= 0 {
        Seq::empty()
    } else {
        found_among(nodes, addresses, requester, n - 1) + found_at(nodes, addresses[n - 1]@, requester)
    }
}

impl StorageEngine {
    pub(super) fn count_read(&mut self)
        ensures
            read_once(*old(self), *final(self)),
            final(self).cache == old(self).cache,
            old(self).inv() ==> final(self).inv(),
    {
        self.reads_total = self.reads_total.wrapping_add(1);
    }

    /// The node at an address.
    pub fn get(&mut self, address: &str) -> (r: Result<Option<Node>, ReadError>)
        requires
            old(self).inv(),
        ensures
            final(self).inv(),
            read_once(*old(self), *final(self)),
            gets(r, *old(self), address@),
    {
        self.count_read();
        if self.failed {
            return Err(ReadError::Failed);
        }
        Ok(self.tables.read_node(address, &mut self.cache))
    }

    /// The nodes at several addresses, in the order of these, as far as there
    /// are any that the requester may read.
    pub fn multi_get(&mut self, addresses: &Vec<String>, requester: Option<&str>) -> (r: Result<Vec<Node>, ReadError>)
        requires
            old(self).inv(),
        ensures
            final(self).inv(),
            gets_several(r, *old(self), *final(self), addresses@, str_view(requester)),
    {
        if addresses.len() > MAX_MULTI_GET {
            return Err(ReadError::TooMany { len: addresses.len(), max: MAX_MULTI_GET });
        }
        self.count_read();
        if self.failed {
            return Err(ReadError::Failed);
        }
        let ghost nodes = self@.nodes;
        let ghost who = str_view(requester);
        let mut found: Vec<Node> = Vec::new();
        let mut i: usize = 0;
        proof {
            assert(nodes_view(found@) =~= Seq::<NodeView>::empty());
        }
        while i < addresses.len()
            invariant
                i <= addresses@.len(),
                self.inv(),
                !self.failed,
                nodes == old(self)@.nodes,
                nodes == self@.nodes,
                who == str_view(requester),
                read_once(*old(self), *self),
                nodes_view(found@) == found_among(nodes, addresses@, who, i as int),
            decreases addresses.len() - i,
        {
            let ghost before = found@;
            let ghost a = addresses@[i as int]@;
            match self.tables.read_node(&addresses[i], &mut self.cache) {
                Some(node) => {
                    let visible: bool = match requester {
                        Some(r) => node.can_read(r),
                        None => true,
                    };
                    if visible {
                        found.push(node);
                        proof {
                            assert(nodes_view(found@) =~= nodes_view(before) + found_at(nodes, a, who));
                        }
                    } else {
                        proof {
                            assert(nodes_view(found@) =~= nodes_view(before) + found_at(nodes, a, who));
                        }
                    }
                },
                None => {
                    proof {
                        assert(nodes_view(found@) =~= nodes_view(before) + found_at(nodes, a, who));
                    }
                },
            }
            i = i + 1;
        }
        Ok(found)
    }

    /// The superseded states of an address, oldest first.
    pub fn history_for(&self, address: &str) -> (r: Result<Vec<HistoryEntry>, ReadError>)
        requires
            self.inv(),
        ensures
            lists_history(r, *self, address@),
    {
        if self.failed {
            return Err(ReadError::Failed);
        }
        let max: usize = self.limits.max_scan_rows;
        match self.tables.history_for(address, max) {
            Some(list) => Ok(list),
            None => {
                proof {
                    let rows = choose|rows: Seq<HistoryView>|
                        #[trigger] history_listing(rows, self.tables@.history, address@) && rows.len() > max;
                    assert(history_listing(rows, self@.history, address@));
                }
                Err(ReadError::ScanLimit { max })
            },
        }
    }

    /// The edge with this id.
    pub fn find_edge(&self, id: &EdgeId) -> (r: Result<Option<Edge>, ReadError>)
        requires
            self.inv(),
        ensures
            finds_edge(r, *self, id@),
    {
        if self.failed {
            return Err(ReadError::Failed);
        }
        Ok(self.tables.find_edge(id))
    }

    fn edges_at(&self, out: bool, address: &str) -> (r: Result<Vec<Edge>, ReadError>)
        requires
            self.inv(),
        ensures
            lists_edges(r, *self, out, address@),
    {
        if self.failed {
            return Err(ReadError::Failed);
        }
        let max: usize = self.limits.max_scan_rows;
        match self.tables.edges_in_range(out, address, max) {
            Some(list) => Ok(list),
            None => {
                proof {
                    let rows = choose|rows: Seq<EdgeView>|
                        #[trigger] edge_listing(rows, self.tables@.edges, out, address@) && rows.len() > max;
                    assert(edge_listing(rows, self@.edges, out, address@));
                }
                Err(ReadError::ScanLimit { max })
            },
        }
    }

    /// The edges that start at an address, by kind and where they lead.
    pub fn edges_from(&self, address: &str) -> (r: Result<Vec<Edge>, ReadError>)
        requires
            self.inv(),
        ensures
            lists_edges(r, *self, true, address@),
    {
        self.edges_at(true, address)
    }

    /// The edges that lead to an address, by kind and where they start.
    pub fn edges_to(&self, address: &str) -> (r: Result<Vec<Edge>, ReadError>)
        requires
            self.inv(),
        ensures
            lists_edges(r, *self, false, address@),
    {
        self.edges_at(false, address)
    }

    /// An owner's nodes that a requester may read, in the order of their
    /// addresses.
    pub fn nodes_by_owner(&mut self, owner: &str, requester: Option<&str>) -> (r: Result<Vec<Node>, ReadError>)
        requires
            old(self).inv(),
        ensures
            final(self).inv(),
            old(self).same(final(self)),
            lists_owned(r, *old(self), owner@, str_view(requester)),
    {
        if self.failed {
            return Err(ReadError::Failed);
        }
        match self.tables.nodes_by_owner(owner, requester, self.limits.max_scan_rows, &mut self.cache) {
            Some(list) => Ok(list),
            None => Err(ReadError::ScanLimit { max: self.limits.max_scan_rows }),
        }
    }

    /// The nodes of a kind and an owner that a requester may read, in the
    /// order of their addresses: up to `limit` after the first `offset`.
    pub fn query(
        &mut self,
        kind: Option<&str>,
        owner: Option<&str>,
        requester: Option<&str>,
        limit: usize,
        offset: usize,
    ) -> (r: Result<Vec<Node>, ReadError>)
        requires
            old(self).inv(),
        ensures
            final(self).inv(),
            read_once(*old(self), *final(self)),
            lists_nodes(r, *old(self), kind, owner, requester, limit, offset),
    {
        self.count_read();
        if limit == 0 {
            return Ok(Vec::new());
        }
        if offset > self.limits.max_query_offset {
            return Err(ReadError::Offset { offset, max: self.limits.max_query_offset });
        }
        if self.failed {
            return Err(ReadError::Failed);
        }
        let q = Query { kind, owner, requester, filter: None };
        Ok(self.tables.query(&q, limit, offset, &mut self.cache))
    }
}

/// What reading a node gives.
pub open spec fn gets(r: Result<Option<Node>, ReadError>, e: StorageEngine, address: Seq<char>) -> bool {
    match r {
        Ok(node) => !e.failed() && node_view(node) == node_in(e@.nodes, address),
        Err(x) => e.failed() && x == ReadError::Failed,
    }
}

/// What reading several nodes gives.
pub open spec fn gets_several(
    r: Result<Vec<Node>, ReadError>,
    before: StorageEngine,
    after: StorageEngine,
    addresses: Seq<String>,
    requester: Option<Seq<char>>,
) -> bool {
    match r {
        Ok(list) => {
            &&& !before.failed()
            &&& addresses.len() <= MAX_MULTI_GET
            &&& read_once(before, after)
            &&& nodes_view(list@) == found_among(before@.nodes, addresses, requester, addresses.len() as int)
        },
        Err(ReadError::TooMany { len, max }) => {
            &&& len == addresses.len()
            &&& max == MAX_MULTI_GET
            &&& len > max
            &&& before.same(&after)
        },
        Err(e) => {
            &&& e == ReadError::Failed
            &&& before.failed()
            &&& addresses.len() <= MAX_MULTI_GET
            &&& read_once(before, after)
        },
    }
}

/// What listing the superseded states of an address gives.
pub open spec fn lists_history(r: Result<Vec<HistoryEntry>, ReadError>, e: StorageEngine, address: Seq<char>) -> bool {
    match r {
        Ok(list) => {
            &&& !e.failed()
            &&& history_listing(history_view(list@), e@.history, address)
            &&& list@.len() <= e.limits().max_scan_rows
        },
        Err(ReadError::ScanLimit { max }) => {
            &&& !e.failed()
            &&& max == e.limits().max_scan_rows
            &&& exists|rows: Seq<HistoryView>|
                #[trigger] history_listing(rows, e@.history, address) && rows.len() > max
        },
        Err(x) => x == ReadError::Failed && e.failed(),
    }
}

/// What looking for an edge gives.
pub open spec fn finds_edge(r: Result<Option<Edge>, ReadError>, e: StorageEngine, id: EdgeIdView) -> bool {
    match r {
        Ok(edge) => !e.failed() && edge_view(edge) == edge_in(e@.edges, id),
        Err(x) => x == ReadError::Failed && e.failed(),
    }
}

/// What listing an owner's nodes gives.
pub open spec fn lists_owned(
    r: Result<Vec<Node>, ReadError>,
    e: StorageEngine,
    owner: Seq<char>,
    requester: Option<Seq<char>>,
) -> bool {
    let owned = listing(e@.nodes, scanned(None, Some(owner)));
    let may = readable(requester);
    let cap = e.limits().max_scan_rows;
    match r {
        Ok(list) => {
            &&& !e.failed()
            &&& nodes_view(list@) == owned.filter(may)
            &&& list@.len() <= cap
            &&& owned.len() == 0 || owned.drop_last().filter(may).len() < cap
        },
        Err(ReadError::ScanLimit { max }) => {
            &&& !e.failed()
            &&& max == cap
            &&& owned.len() > 0
            &&& owned.drop_last().filter(may).len() >= cap
        },
        Err(x) => x == ReadError::Failed && e.failed(),
    }
}

/// What a query without a condition gives.
pub open spec fn lists_nodes(
    r: Result<Vec<Node>, ReadError>,
    e: StorageEngine,
    kind: Option<&str>,
    owner: Option<&str>,
    requester: Option<&str>,
    limit: usize,
    offset: usize,
) -> bool {
    let q = QueryView { kind: str_view(kind), owner: str_view(owner), requester: str_view(requester), filter: None };
    let max_offset = e.limits().max_query_offset;
    match r {
        Ok(list) => {
            &&& limit == 0 ==> list@.len() == 0
            &&& limit > 0 ==> {
                &&& !e.failed()
                &&& offset <= max_offset
                &&& nodes_view(list@) == window(listing(e@.nodes, eligible_nodes(q)), offset as nat, limit as nat)
            }
        },
        Err(ReadError::Offset { offset: n, max }) => {
            &&& limit > 0
            &&& n == offset
            &&& max == max_offset
            &&& n > max
        },
        Err(x) => x == ReadError::Failed && e.failed() && limit > 0 && offset <= max_offset,
    }
}

/// What listing the edges at an address gives.
pub open spec fn lists_edges(
    r: Result<Vec<Edge>, ReadError>,
    e: StorageEngine,
    out: bool,
    address: Seq<char>,
) -> bool {
    match r {
        Ok(list) => {
            &&& !e.failed()
            &&& edge_listing(edges_view(list@), e@.edges, out, address)
            &&& list@.len() <= e.limits().max_scan_rows
        },
        Err(ReadError::ScanLimit { max }) => {
            &&& !e.failed()
            &&& max == e.limits().max_scan_rows
            &&& exists|rows: Seq<EdgeView>| #[trigger] edge_listing(rows, e@.edges, out, address) && rows.len() > max
        },
        Err(x) => x == ReadError::Failed && e.failed(),
    }
}

} // verus!
