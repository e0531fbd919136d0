//! What reading gives.

use vstd::prelude::*;

use crate::bytes::bytes_lt;
use crate::engine::read::{found_among, gets_several, lists_edges, lists_history, lists_nodes, lists_owned};
use crate::engine::StorageEngine;
use crate::tables::listing::{edges_view, eligible_nodes, history_view, readable};
use crate::tables::lower::nodes_view;
use crate::tables::memory::lemma_listing_exists;
use crate::tables::model::Nodes;
use crate::tables::plan::listing;
use crate::tables::query::{lemma_filter_has, window, QueryView};
use crate::tables::rows::{belongs, is_listing, rank, scanned, RankBy};
use crate::text::{str_view, utf8};
use crate::types::{Edge, EdgeIdView, HistoryEntry, Node, NodeView, Visibility};

verus! {

proof fn lemma_listed(e: StorageEngine, pick: spec_fn(NodeView) -> bool)
    requires
        e.inv(),
        !e.failed(),
    ensures
        is_listing(listing(e@.nodes, pick), e@.nodes, pick, RankBy::Address, None, false),
{
    e.lemma_orderly();
    let rows = lemma_listing_exists(e@.nodes, pick);
}

/// A query without a condition gives nodes of the kind and the owner asked
/// for that are public or theirs who ask, as they are in the database, in the
/// order of their addresses and none twice; no more than asked for. Where
/// fewer come, from the first on, none is missing.
pub proof fn law_query_lists_what_is_asked_for(
    list: Vec<Node>,
    e: StorageEngine,
    kind: Option<&str>,
    owner: Option<&str>,
    requester: Option<&str>,
    limit: usize,
    offset: usize,
    n: NodeView,
)
    requires
        e.inv(),
        lists_nodes(Ok(list), e, kind, owner, requester, limit, offset),
    ensures
        list@.len() <= limit,
        forall|i: int|
            0 <= i < list@.len() ==> {
                let m = #[trigger] list@[i];
                &&& e@.nodes.contains_key(m.address@)
                &&& e@.nodes[m.address@] == m@
                &&& kind matches Some(k) ==> m.kind@ == k@
                &&& owner matches Some(o) ==> m.owner@ == o@
                &&& requester matches Some(r) ==> m.visibility == Visibility::Public || m.owner@ == r@
            },
        forall|i: int, j: int|
            0 <= i < j < list@.len() ==> bytes_lt(utf8((#[trigger] list@[i]).address@), utf8((#[trigger] list@[j]).address@)),
        offset == 0 && list@.len() < limit && e@.nodes.contains_key(n.address) && e@.nodes[n.address] == n && (
        kind matches Some(k) ==> n.kind == k@) && (owner matches Some(o) ==> n.owner == o@) && (requester matches Some(r)
            ==> n.visibility == Visibility::Public || n.owner == r@) ==> exists|i: int|
            0 <= i < list@.len() && (#[trigger] list@[i])@ == n,
{
    if limit > 0 {
        let q = QueryView {
            kind: str_view(kind),
            owner: str_view(owner),
            requester: str_view(requester),
            filter: None,
        };
        let pick = eligible_nodes(q);
        lemma_listed(e, pick);
        let rows = listing(e@.nodes, pick);
        let got = window(rows, offset as nat, limit as nat);
        assert(nodes_view(list@).len() == list@.len());
        assert forall|i: int| 0 <= i < list@.len() implies {
            let m = #[trigger] list@[i];
            &&& e@.nodes.contains_key(m.address@)
            &&& e@.nodes[m.address@] == m@
            &&& kind matches Some(k) ==> m.kind@ == k@
            &&& owner matches Some(o) ==> m.owner@ == o@
            &&& requester matches Some(r) ==> m.visibility == Visibility::Public || m.owner@ == r@
        } by {
            assert(nodes_view(list@)[i] == list@[i]@);
            assert(got[i] == rows[offset + i]);
            assert(belongs(e@.nodes, pick, RankBy::Address, None, false, rows[offset + i]));
        }
        assert forall|i: int, j: int| 0 <= i < j < list@.len() implies bytes_lt(
            utf8((#[trigger] list@[i]).address@),
            utf8((#[trigger] list@[j]).address@),
        ) by {
            assert(nodes_view(list@)[i] == list@[i]@ && nodes_view(list@)[j] == list@[j]@);
            assert(got[i] == rows[offset + i] && got[j] == rows[offset + j]);
            assert(crate::btree::walker::past(
                rank(RankBy::Address, rows[offset + i]),
                rank(RankBy::Address, rows[offset + j]),
                false,
            ));
        }
        if offset == 0 && list@.len() < limit && e@.nodes.contains_key(n.address) && e@.nodes[n.address] == n && (
        kind matches Some(k) ==> n.kind == k@) && (owner matches Some(o) ==> n.owner == o@) && (requester matches Some(r)
            ==> n.visibility == Visibility::Public || n.owner == r@) {
            assert(belongs(e@.nodes, pick, RankBy::Address, None, false, n));
            let i = choose|i: int| 0 <= i < rows.len() && rows[i] == n;
            assert(got[i] == rows[0 + i]);
            assert(nodes_view(list@)[i] == list@[i]@);
        }
    }
}

/// Going on after the rows of one query gives the rows that one query for
/// all of them gives.
pub proof fn law_queries_join(
    first: Vec<Node>,
    second: Vec<Node>,
    both: Vec<Node>,
    e: StorageEngine,
    kind: Option<&str>,
    owner: Option<&str>,
    requester: Option<&str>,
    a: usize,
    b: usize,
    offset: usize,
    on: usize,
    ab: usize,
)
    requires
        a > 0,
        b > 0,
        on == offset + a,
        ab == a + b,
        lists_nodes(Ok(first), e, kind, owner, requester, a, offset),
        lists_nodes(Ok(second), e, kind, owner, requester, b, on),
        lists_nodes(Ok(both), e, kind, owner, requester, ab, offset),
    ensures
        nodes_view(both@) == nodes_view(first@) + nodes_view(second@),
{
    let q = QueryView { kind: str_view(kind), owner: str_view(owner), requester: str_view(requester), filter: None };
    let rows = listing(e@.nodes, eligible_nodes(q));
    assert(window(rows, offset as nat, ab as nat) =~= window(rows, offset as nat, a as nat) + window(
        rows,
        on as nat,
        b as nat,
    ));
}

/// An owner's nodes are those with that owner that are public or theirs who
/// ask, and all of these.
pub proof fn law_owned_nodes_are_listed(
    list: Vec<Node>,
    e: StorageEngine,
    owner: Seq<char>,
    requester: Option<&str>,
    n: NodeView,
)
    requires
        e.inv(),
        lists_owned(Ok(list), e, owner, str_view(requester)),
    ensures
        (exists|i: int| 0 <= i < list@.len() && (#[trigger] list@[i])@ == n) <==> {
            &&& e@.nodes.contains_key(n.address)
            &&& e@.nodes[n.address] == n
            &&& n.owner == owner
            &&& requester matches Some(r) ==> n.visibility == Visibility::Public || n.owner == r@
        },
{
    let pick = scanned(None, Some(owner));
    let may = readable(str_view(requester));
    lemma_listed(e, pick);
    let rows = listing(e@.nodes, pick);
    lemma_filter_has(rows, may, n);
    let view = nodes_view(list@);
    if exists|i: int| 0 <= i < list@.len() && (#[trigger] list@[i])@ == n {
        let i = choose|i: int| 0 <= i < list@.len() && (#[trigger] list@[i])@ == n;
        assert(view[i] == n);
        assert(rows.filter(may).contains(n));
        let j = choose|j: int| 0 <= j < rows.len() && rows[j] == n;
        assert(belongs(e@.nodes, pick, RankBy::Address, None, false, rows[j]));
    }
    if e@.nodes.contains_key(n.address) && e@.nodes[n.address] == n && n.owner == owner && (requester matches Some(r)
        ==> n.visibility == Visibility::Public || n.owner == r@) {
        assert(belongs(e@.nodes, pick, RankBy::Address, None, false, n));
        assert(rows.contains(n));
        assert(may(n));
        assert(rows.filter(may).contains(n));
        let i = choose|i: int| 0 <= i < view.len() && view[i] == n;
        assert(list@[i]@ == n);
    }
}

proof fn lemma_found(nodes: Nodes, addresses: Seq<String>, requester: Option<&str>, k: int, n: NodeView)
    requires
        0 <= k <= addresses.len(),
    ensures
        found_among(nodes, addresses, str_view(requester), k).contains(n) <==> exists|j: int| {
            &&& 0 <= j < k
            &&& nodes.contains_key((#[trigger] addresses[j])@)
            &&& nodes[addresses[j]@] == n
            &&& requester matches Some(r) ==> n.visibility == Visibility::Public || n.owner == r@
        },
        (forall|j: int|
            0 <= j < k ==> {
                &&& nodes.contains_key((#[trigger] addresses[j])@)
                &&& requester matches Some(r) ==> nodes[addresses[j]@].visibility == Visibility::Public
                    || nodes[addresses[j]@].owner == r@
            }) ==> found_among(nodes, addresses, str_view(requester), k) =~= Seq::new(
            k as nat,
            |j: int| nodes[addresses[j]@],
        ),
    decreases k,
{
    if k > 0 {
        lemma_found(nodes, addresses, requester, k - 1, n);
        let who = str_view(requester);
        let before = found_among(nodes, addresses, who, k - 1);
        let one = crate::engine::read::found_at(nodes, addresses[k - 1]@, who);
        let now = found_among(nodes, addresses, who, k);
        assert(now =~= before + one);
        if now.contains(n) {
            let i = choose|i: int| 0 <= i < now.len() && now[i] == n;
            if i < before.len() {
                assert(before[i] == n);
                assert(before.contains(n));
            } else {
                assert(one[i - before.len()] == n);
                assert(nodes.contains_key(addresses[k - 1]@));
            }
        }
        if exists|j: int| {
            &&& 0 <= j < k
            &&& nodes.contains_key((#[trigger] addresses[j])@)
            &&& nodes[addresses[j]@] == n
            &&& requester matches Some(r) ==> n.visibility == Visibility::Public || n.owner == r@
        } {
            let j = choose|j: int| {
                &&& 0 <= j < k
                &&& nodes.contains_key((#[trigger] addresses[j])@)
                &&& nodes[addresses[j]@] == n
                &&& requester matches Some(r) ==> n.visibility == Visibility::Public || n.owner == r@
            };
            if j < k - 1 {
                assert(before.contains(n));
                let i = choose|i: int| 0 <= i < before.len() && before[i] == n;
                assert(now[i] == n);
            } else {
                assert(one[0] == n);
                assert(now[before.len() as int] == n);
            }
        }
    }
}

/// Reading several addresses gives the nodes at them that are public or
/// theirs who ask, and all of these; in the order of the addresses where all
/// are so.
pub proof fn law_several_are_read(
    list: Vec<Node>,
    before: StorageEngine,
    after: StorageEngine,
    addresses: Seq<String>,
    requester: Option<&str>,
    n: NodeView,
)
    requires
        gets_several(Ok(list), before, after, addresses, str_view(requester)),
    ensures
        (exists|i: int| 0 <= i < list@.len() && (#[trigger] list@[i])@ == n) <==> exists|j: int| {
            &&& 0 <= j < addresses.len()
            &&& before@.nodes.contains_key((#[trigger] addresses[j])@)
            &&& before@.nodes[addresses[j]@] == n
            &&& requester matches Some(r) ==> n.visibility == Visibility::Public || n.owner == r@
        },
        (forall|j: int|
            0 <= j < addresses.len() ==> {
                &&& before@.nodes.contains_key((#[trigger] addresses[j])@)
                &&& requester matches Some(r) ==> before@.nodes[addresses[j]@].visibility == Visibility::Public
                    || before@.nodes[addresses[j]@].owner == r@
            }) ==> list@.len() == addresses.len() && forall|j: int|
            0 <= j < addresses.len() ==> (#[trigger] list@[j])@ == before@.nodes[addresses[j]@],
{
    lemma_found(before@.nodes, addresses, requester, addresses.len() as int, n);
    let view = nodes_view(list@);
    assert(view.len() == list@.len());
    if exists|i: int| 0 <= i < list@.len() && (#[trigger] list@[i])@ == n {
        let i = choose|i: int| 0 <= i < list@.len() && (#[trigger] list@[i])@ == n;
        assert(view[i] == n);
        assert(view.contains(n));
    }
    if view.contains(n) {
        let i = choose|i: int| 0 <= i < view.len() && view[i] == n;
        assert(list@[i]@ == n);
    }
    if forall|j: int|
        0 <= j < addresses.len() ==> {
            &&& before@.nodes.contains_key((#[trigger] addresses[j])@)
            &&& requester matches Some(r) ==> before@.nodes[addresses[j]@].visibility == Visibility::Public
                || before@.nodes[addresses[j]@].owner == r@
        } {
        assert forall|j: int| 0 <= j < addresses.len() implies (#[trigger] list@[j])@ == before@.nodes[addresses[j]@] by {
            assert(view[j] == list@[j]@);
        }
    }
}

/// The edges listed at an address are those that start there, or that lead
/// there, and all of these, none twice.
pub proof fn law_edges_are_listed(list: Vec<Edge>, e: StorageEngine, out: bool, address: Seq<char>, id: EdgeIdView)
    requires
        e.inv(),
        lists_edges(Ok(list), e, out, address),
    ensures
        (exists|i: int|
            0 <= i < list@.len() && (#[trigger] list@[i]).from@ == id.from && list@[i].to@ == id.to && list@[i].kind@
                == id.kind && list@[i].owner@ == e@.edges[id].owner) <==> e@.edges.contains_key(id) && (if out {
            id.from == address
        } else {
            id.to == address
        }),
        forall|i: int, j: int|
            0 <= i < j < list@.len() ==> (#[trigger] list@[i]).from@ != (#[trigger] list@[j]).from@ || list@[i].to@
                != list@[j].to@ || list@[i].kind@ != list@[j].kind@,
{
    e.lemma_keyed();
    let view = edges_view(list@);
    assert(view.len() == list@.len());
    if exists|i: int|
        0 <= i < list@.len() && (#[trigger] list@[i]).from@ == id.from && list@[i].to@ == id.to && list@[i].kind@
            == id.kind && list@[i].owner@ == e@.edges[id].owner {
        let i = choose|i: int|
            0 <= i < list@.len() && (#[trigger] list@[i]).from@ == id.from && list@[i].to@ == id.to && list@[i].kind@
                == id.kind && list@[i].owner@ == e@.edges[id].owner;
        assert(view[i] == list@[i]@);
        assert(view[i].id() =~= id);
    }
    if e@.edges.contains_key(id) && (if out {
        id.from == address
    } else {
        id.to == address
    }) {
        assert(view.contains(e@.edges[id]));
        let i = choose|i: int| 0 <= i < view.len() && view[i] == e@.edges[id];
        assert(view[i] == list@[i]@);
    }
    assert forall|i: int, j: int| 0 <= i < j < list@.len() implies (#[trigger] list@[i]).from@ != (
    #[trigger] list@[j]).from@ || list@[i].to@ != list@[j].to@ || list@[i].kind@ != list@[j].kind@ by {
        assert(view[i] == list@[i]@ && view[j] == list@[j]@);
        if list@[i].from@ == list@[j].from@ && list@[i].to@ == list@[j].to@ && list@[i].kind@ == list@[j].kind@ {
            assert(view[i].id() =~= view[j].id());
            crate::bytes::lemma_lt_total(
                crate::tables::listing::edge_key(out, view[i].id()),
                crate::tables::listing::edge_key(out, view[j].id()),
            );
        }
    }
}

/// The states listed of an address are those that were kept of it, from the
/// first to the last, and all of these.
pub proof fn law_history_is_listed(
    list: Vec<HistoryEntry>,
    e: StorageEngine,
    address: Seq<char>,
    version: u64,
)
    requires
        e.inv(),
        lists_history(Ok(list), e, address),
    ensures
        (exists|i: int|
            0 <= i < list@.len() && (#[trigger] list@[i]).version == version && list@[i].address@ == address
                && list@[i].node@ == e@.history[(address, version)].node) <==> e@.history.contains_key(
            (address, version),
        ),
        forall|i: int, j: int| 0 <= i < j < list@.len() ==> (#[trigger] list@[i]).version < (#[trigger] list@[j]).version,
        forall|i: int| 0 <= i < list@.len() ==> (#[trigger] list@[i]).address@ == address,
{
    e.lemma_keyed();
    let view = history_view(list@);
    assert(view.len() == list@.len());
    assert forall|i: int| 0 <= i < list@.len() implies (#[trigger] list@[i]).address@ == address by {
        assert(view[i] == list@[i]@);
        assert(e@.history.contains_key((address, view[i].version)));
    }
    assert forall|i: int, j: int| 0 <= i < j < list@.len() implies (#[trigger] list@[i]).version < (
    #[trigger] list@[j]).version by {
        assert(view[i] == list@[i]@ && view[j] == list@[j]@);
    }
    if exists|i: int|
        0 <= i < list@.len() && (#[trigger] list@[i]).version == version && list@[i].address@ == address
            && list@[i].node@ == e@.history[(address, version)].node {
        let i = choose|i: int|
            0 <= i < list@.len() && (#[trigger] list@[i]).version == version && list@[i].address@ == address
                && list@[i].node@ == e@.history[(address, version)].node;
        assert(view[i] == list@[i]@);
    }
    if e@.history.contains_key((address, version)) {
        let h = e@.history[(address, version)];
        assert(view.contains(h));
        let i = choose|i: int| 0 <= i < view.len() && view[i] == h;
        assert(view[i] == list@[i]@);
        assert(list@[i].version == version);
    }
}

} // verus!
