//! What queries, counts and groups answer.

use vstd::prelude::*;

use crate::bytes::{bytes_lt, lemma_lt_common_prefix, lemma_lt_total};
use crate::engine::search::{
    aggregates_by, counts_by, counts_of, counts_where, folds_where, no_state, results_of, GroupAggregate, GroupCount,
};
use crate::engine::StorageEngine;
use crate::filter::{evaluates, lemma_verdict, Filter};
use crate::json::{field_of, json_view, Json, JsonView};
use crate::keys::{down_key, value_key};
use crate::order::{law_codes_in_value_order, order_code, TAG_NOTHING};
use crate::tables::answer::{answered, given_cursor, is_query_walk, law_walk_lists_each_row_once, order_field, rows_of};
use crate::tables::fold::{folded_value, folds_to, goes_through, no_fold, steps_to};
use crate::tables::group::{
    both, carried, code_of, grouped, groups_answer, has_group, is_group, joined, known, leads, lemma_members_listing,
    named, of_code, values_view, Group,
};
use crate::tables::lower::nodes_view;
use crate::tables::model::{DbView, Nodes};
use crate::tables::query::{page_of, rank_by, start_of, to_skip, wanted, window, Query, QueryPage, QueryView};
use crate::tables::rows::{belongs, is_listing, rank, RankBy};
use crate::tables::sorted::wanted_rows;
use crate::text::utf8;
use crate::types::{Node, NodeView, Visibility};

verus! {

/// A node that a query wants has the kind and the owner asked for, may be read
/// by who asks, and the condition says nothing else of it than that it holds.
proof fn lemma_wanted<'q, F: Fn(&Filter, &Node) -> Result<bool, String>>(eval: F, q: Query<'q>, n: NodeView)
    requires
        wanted(eval, q@)(n),
        evaluates(eval),
    ensures
        q.kind matches Some(k) ==> n.kind == k@,
        q.owner matches Some(o) ==> n.owner == o@,
        q.requester matches Some(r) ==> n.visibility == Visibility::Public || n.owner == r@,
        q.filter matches Some(f) ==> forall|node: Node, out: Result<bool, String>|
            node@ == n && #[trigger] eval.ensures((f, &node), out) ==> out == Ok::<bool, String>(true),
{
    if let Some(f) = q.filter {
        assert forall|node: Node, out: Result<bool, String>|
            node@ == n && #[trigger] eval.ensures((f, &node), out) implies out == Ok::<bool, String>(true) by {
            lemma_verdict(eval, f, &node, out);
        }
    }
}

/// A node is wanted that has the kind and the owner asked for, may be read by
/// who asks, and of which the condition says that it holds.
proof fn lemma_wants<'q, F: Fn(&Filter, &Node) -> Result<bool, String>>(eval: F, q: Query<'q>, n: NodeView)
    requires
        evaluates(eval),
        q.kind matches Some(k) ==> n.kind == k@,
        q.owner matches Some(o) ==> n.owner == o@,
        q.requester matches Some(r) ==> n.visibility == Visibility::Public || n.owner == r@,
        q.filter matches Some(f) ==> exists|node: Node|
            node@ == n && #[trigger] eval.ensures((f, &node), Ok::<bool, String>(true)),
    ensures
        wanted(eval, q@)(n),
{
    if let Some(f) = q.filter {
        let node = choose|node: Node| node@ == n && #[trigger] eval.ensures((f, &node), Ok::<bool, String>(true));
        lemma_verdict(eval, f, &node, Ok::<bool, String>(true));
    }
}

/// Every node of a page is in the database, as it is there. It has the kind
/// and the owner that are asked for, is public or theirs who ask, and the
/// condition holds of it. No more come than asked for.
pub proof fn law_page_has_only_what_is_asked_for<'q, F: Fn(&Filter, &Node) -> Result<bool, String>>(
    page: QueryPage,
    db: DbView,
    eval: F,
    q: Query<'q>,
    order: Option<Seq<char>>,
    desc: bool,
    after: Option<Seq<char>>,
    limit: nat,
    offset: nat,
    max_offset: nat,
    cap: nat,
)
    requires
        answered(Ok(page), db, eval, q@, order, desc, after, limit, offset, max_offset, cap),
        evaluates(eval),
    ensures
        page.nodes@.len() <= limit,
        forall|i: int|
            0 <= i < page.nodes@.len() ==> {
                let n = #[trigger] page.nodes@[i];
                &&& db.nodes.contains_key(n.address@)
                &&& db.nodes[n.address@] == n@
                &&& q.kind matches Some(k) ==> n.kind@ == k@
                &&& q.owner matches Some(o) ==> n.owner@ == o@
                &&& q.requester matches Some(r) ==> n.visibility == Visibility::Public || n.owner@ == r@
                &&& q.filter matches Some(f) ==> forall|out: Result<bool, String>| #[trigger]
                    eval.ensures((f, &n), out) ==> out == Ok::<bool, String>(true)
            },
{
    let want = wanted(eval, q@);
    let by = rank_by(order_field(order), desc);
    let from = start_of(by, given_cursor(after)->Ok_0);
    let skip = to_skip(given_cursor(after)->Ok_0, offset);
    let rows = choose|rows: Seq<NodeView>|
        #[trigger] is_listing(rows, db.nodes, want, by, from, desc) && page_of(page, rows, skip, limit, by);
    assert(nodes_view(page.nodes@).len() == window(rows, skip, limit).len());
    assert forall|i: int| 0 <= i < page.nodes@.len() implies {
        let n = #[trigger] page.nodes@[i];
        &&& db.nodes.contains_key(n.address@)
        &&& db.nodes[n.address@] == n@
        &&& q.kind matches Some(k) ==> n.kind@ == k@
        &&& q.owner matches Some(o) ==> n.owner@ == o@
        &&& q.requester matches Some(r) ==> n.visibility == Visibility::Public || n.owner@ == r@
        &&& q.filter matches Some(f) ==> forall|out: Result<bool, String>| #[trigger]
            eval.ensures((f, &n), out) ==> out == Ok::<bool, String>(true)
    } by {
        let n = page.nodes@[i];
        assert(nodes_view(page.nodes@)[i] == n@);
        assert(window(rows, skip, limit)[i] == rows[skip + i]);
        assert(belongs(db.nodes, want, by, from, desc, rows[skip + i]));
        lemma_wanted(eval, q, n@);
    }
}

/// A page that begins at the start and says of no place to go on holds every
/// node of the kind and the owner asked for that is public or theirs who ask
/// and that the condition holds of.
pub proof fn law_last_page_leaves_nothing_out<'q, F: Fn(&Filter, &Node) -> Result<bool, String>>(
    page: QueryPage,
    db: DbView,
    eval: F,
    q: Query<'q>,
    order: Option<Seq<char>>,
    desc: bool,
    limit: nat,
    max_offset: nat,
    cap: nat,
    n: NodeView,
)
    requires
        answered(Ok(page), db, eval, q@, order, desc, None, limit, 0, max_offset, cap),
        evaluates(eval),
        limit > 0,
        page.next@.len() == 0,
        db.nodes.contains_key(n.address),
        db.nodes[n.address] == n,
        q.kind matches Some(k) ==> n.kind == k@,
        q.owner matches Some(o) ==> n.owner == o@,
        q.requester matches Some(r) ==> n.visibility == Visibility::Public || n.owner == r@,
        q.filter matches Some(f) ==> exists|node: Node|
            node@ == n && #[trigger] eval.ensures((f, &node), Ok::<bool, String>(true)),
    ensures
        exists|i: int| 0 <= i < page.nodes@.len() && (#[trigger] page.nodes@[i])@ == n,
{
    let want = wanted(eval, q@);
    let by = rank_by(order_field(order), desc);
    lemma_wants(eval, q, n);
    let rows = choose|rows: Seq<NodeView>|
        #[trigger] is_listing(rows, db.nodes, want, by, None, desc) && page_of(page, rows, 0, limit, by);
    assert(belongs(db.nodes, want, by, None, desc, n));
    let k = choose|k: int| 0 <= k < rows.len() && rows[k] == n;
    assert(window(rows, 0, limit)[k] == rows[0 + k]);
    assert(nodes_view(page.nodes@)[k] == page.nodes@[k]@);
}

/// A walk from the start to the end lists every node of the kind and the
/// owner asked for that is public or theirs who ask and that the condition
/// holds of, each at one place, and no other.
pub proof fn law_walk_lists_what_is_asked_for<'q, F: Fn(&Filter, &Node) -> Result<bool, String>>(
    pages: Seq<QueryPage>,
    limits: Seq<nat>,
    dbs: Seq<DbView>,
    nodes: Nodes,
    eval: F,
    q: Query<'q>,
    order: Option<Seq<char>>,
    desc: bool,
    max_offset: nat,
    cap: nat,
)
    requires
        is_query_walk(pages, limits, dbs, nodes, eval, q@, order, desc, None, max_offset, cap),
        evaluates(eval),
    ensures
        forall|i: int|
            0 <= i < rows_of(pages).len() ==> {
                let n = #[trigger] rows_of(pages)[i];
                &&& nodes.contains_key(n.address)
                &&& nodes[n.address] == n
                &&& q.kind matches Some(k) ==> n.kind == k@
                &&& q.owner matches Some(o) ==> n.owner == o@
                &&& q.requester matches Some(r) ==> n.visibility == Visibility::Public || n.owner == r@
                &&& q.filter matches Some(f) ==> forall|node: Node, out: Result<bool, String>|
                    node@ == n && #[trigger] eval.ensures((f, &node), out) ==> out == Ok::<bool, String>(true)
            },
        forall|i: int, j: int|
            0 <= i < j < rows_of(pages).len() ==> (#[trigger] rows_of(pages)[i]).address != (
            #[trigger] rows_of(pages)[j]).address,
        forall|n: NodeView|
            nodes.contains_key(n.address) && nodes[n.address] == n && (q.kind matches Some(k) ==> n.kind == k@) && (
            q.owner matches Some(o) ==> n.owner == o@) && (q.requester matches Some(r) ==> n.visibility
                == Visibility::Public || n.owner == r@) && (q.filter matches Some(f) ==> exists|node: Node|
                node@ == n && #[trigger] eval.ensures((f, &node), Ok::<bool, String>(true)))
                ==> #[trigger] rows_of(pages).contains(n),
{
    let want = wanted(eval, q@);
    let by = rank_by(order_field(order), desc);
    law_walk_lists_each_row_once(pages, limits, dbs, nodes, eval, q@, order, desc, None, max_offset, cap);
    let rows = rows_of(pages);
    assert forall|i: int| 0 <= i < rows.len() implies {
        let n = #[trigger] rows[i];
        &&& nodes.contains_key(n.address)
        &&& nodes[n.address] == n
        &&& q.kind matches Some(k) ==> n.kind == k@
        &&& q.owner matches Some(o) ==> n.owner == o@
        &&& q.requester matches Some(r) ==> n.visibility == Visibility::Public || n.owner == r@
        &&& q.filter matches Some(f) ==> forall|node: Node, out: Result<bool, String>|
            node@ == n && #[trigger] eval.ensures((f, &node), out) ==> out == Ok::<bool, String>(true)
    } by {
        assert(belongs(nodes, want, by, None, desc, rows[i]));
        lemma_wanted(eval, q, rows[i]);
    }
    assert forall|i: int, j: int| 0 <= i < j < rows.len() implies (#[trigger] rows[i]).address != (
    #[trigger] rows[j]).address by {
        assert(belongs(nodes, want, by, None, desc, rows[i]));
        assert(belongs(nodes, want, by, None, desc, rows[j]));
        crate::bytes::lemma_lt_total(rank(by, rows[i]), rank(by, rows[j]));
    }
    assert forall|n: NodeView|
        nodes.contains_key(n.address) && nodes[n.address] == n && (q.kind matches Some(k) ==> n.kind == k@) && (
        q.owner matches Some(o) ==> n.owner == o@) && (q.requester matches Some(r) ==> n.visibility
            == Visibility::Public || n.owner == r@) && (q.filter matches Some(f) ==> exists|node: Node|
            node@ == n && #[trigger] eval.ensures((f, &node), Ok::<bool, String>(true)))
            implies #[trigger] rows.contains(n) by {
        lemma_wants(eval, q, n);
        assert(belongs(nodes, want, by, None, desc, n));
    }
}

/// Where each row is found by its address, a listing has as many rows as
/// addresses are wanted.
pub proof fn lemma_listing_size(
    rows: Seq<NodeView>,
    nodes: Nodes,
    want: spec_fn(NodeView) -> bool,
    addresses: Set<Seq<char>>,
)
    requires
        wanted_rows(rows, nodes, want),
        forall|a: Seq<char>| #[trigger] nodes.contains_key(a) ==> nodes[a].address == a,
        forall|a: Seq<char>| #[trigger] addresses.contains(a) <==> nodes.contains_key(a) && want(nodes[a]),
    ensures
        addresses.finite(),
        addresses.len() == rows.len(),
{
    let list = Seq::new(rows.len(), |i: int| rows[i].address);
    assert forall|i: int, j: int| 0 <= i < j < list.len() implies list[i] != list[j] by {
        assert(belongs(nodes, want, RankBy::Address, None, false, rows[i]));
        assert(belongs(nodes, want, RankBy::Address, None, false, rows[j]));
        crate::bytes::lemma_lt_total(rank(RankBy::Address, rows[i]), rank(RankBy::Address, rows[j]));
    }
    assert(list.no_duplicates());
    list.unique_seq_to_set();
    vstd::seq_lib::seq_to_set_is_finite(list);
    assert forall|a: Seq<char>| addresses.contains(a) <==> list.to_set().contains(a) by {
        if addresses.contains(a) {
            assert(belongs(nodes, want, RankBy::Address, None, false, nodes[a]));
            let i = choose|i: int| 0 <= i < rows.len() && rows[i] == nodes[a];
            assert(list[i] == a);
        }
        if list.contains(a) {
            let i = choose|i: int| 0 <= i < list.len() && list[i] == a;
            assert(belongs(nodes, want, RankBy::Address, None, false, rows[i]));
        }
    }
    assert(addresses =~= list.to_set());
}

/// A count is the number of addresses with a node of the kind and the owner
/// asked for that is public or theirs who ask and that the condition holds
/// of.
pub proof fn law_count_is_the_number_of_nodes<'q, F: Fn(&Filter, &Node) -> Result<bool, String>>(
    count: u64,
    e: StorageEngine,
    eval: F,
    q: Query<'q>,
    holds: spec_fn(NodeView) -> bool,
    addresses: Set<Seq<char>>,
)
    requires
        e.inv(),
        counts_where(Ok(count), e, eval, q@),
        evaluates(eval),
        q.filter matches Some(f) ==> forall|a: Seq<char>| #[trigger]
            e@.nodes.contains_key(a) ==> exists|node: Node|
                node@ == e@.nodes[a] && #[trigger] eval.ensures((f, &node), Ok::<bool, String>(holds(e@.nodes[a]))),
        forall|a: Seq<char>| #[trigger]
            addresses.contains(a) <==> {
                &&& e@.nodes.contains_key(a)
                &&& q.kind matches Some(k) ==> e@.nodes[a].kind == k@
                &&& q.owner matches Some(o) ==> e@.nodes[a].owner == o@
                &&& q.requester matches Some(r) ==> e@.nodes[a].visibility == Visibility::Public || e@.nodes[a].owner
                    == r@
                &&& q.filter is Some ==> holds(e@.nodes[a])
            },
    ensures
        addresses.finite(),
        addresses.len() < u64::MAX ==> count == addresses.len(),
        addresses.len() >= u64::MAX ==> count == u64::MAX,
{
    let nodes = e@.nodes;
    let want = wanted(eval, q@);
    e.lemma_keyed();
    assert forall|a: Seq<char>| #[trigger] addresses.contains(a) <==> nodes.contains_key(a) && want(nodes[a]) by {
        if nodes.contains_key(a) {
            if let Some(f) = q.filter {
                let node = choose|node: Node|
                    node@ == nodes[a] && #[trigger] eval.ensures((f, &node), Ok::<bool, String>(holds(nodes[a])));
                lemma_verdict(eval, f, &node, Ok::<bool, String>(holds(nodes[a])));
            }
        }
    }
    let rows = choose|rows: Seq<NodeView>|
        #[trigger] wanted_rows(rows, nodes, want) && count == crate::tables::query::capped(rows.len());
    lemma_listing_size(rows, nodes, want, addresses);
}

/// The rows of a page are in the order asked for. By address, or by the order
/// of its name `id`, the addresses ascend, or descend. By a field, nodes
/// without it come last either way; the values of the others ascend, or
/// descend, and the addresses where the values are equal, and where there are
/// none.
pub proof fn law_page_is_in_order<F: Fn(&Filter, &Node) -> Result<bool, String>>(
    page: QueryPage,
    db: DbView,
    eval: F,
    q: QueryView,
    order: Option<Seq<char>>,
    desc: bool,
    after: Option<Seq<char>>,
    limit: nat,
    offset: nat,
    max_offset: nat,
    cap: nat,
    i: int,
    j: int,
)
    requires
        answered(Ok(page), db, eval, q, order, desc, after, limit, offset, max_offset, cap),
        0 <= i < j < page.nodes@.len(),
    ensures
        ({
            let a = page.nodes@[i];
            let b = page.nodes@[j];
            let rises = if desc {
                bytes_lt(utf8(b.address@), utf8(a.address@))
            } else {
                bytes_lt(utf8(a.address@), utf8(b.address@))
            };
            &&& order is None || order == Some("id"@) ==> rises
            &&& order is Some && order != Some("id"@) ==> {
                let v = field_of(a.data@, order->0);
                let w = field_of(b.data@, order->0);
                &&& v is None ==> w is None && rises
                &&& v is Some && w is Some && order_code(v) == order_code(w) ==> rises
                &&& v is Some && w is Some && order_code(v) != order_code(w) ==> if desc {
                    bytes_lt(order_code(w), order_code(v))
                } else {
                    bytes_lt(order_code(v), order_code(w))
                }
            }
        }),
{
    let want = wanted(eval, q);
    let by = rank_by(order_field(order), desc);
    let from = start_of(by, given_cursor(after)->Ok_0);
    let skip = to_skip(given_cursor(after)->Ok_0, offset);
    let rows = choose|rows: Seq<NodeView>|
        #[trigger] is_listing(rows, db.nodes, want, by, from, desc) && page_of(page, rows, skip, limit, by);
    let a = page.nodes@[i];
    let b = page.nodes@[j];
    assert(nodes_view(page.nodes@)[i] == a@ && nodes_view(page.nodes@)[j] == b@);
    assert(window(rows, skip, limit)[i] == rows[skip + i] && window(rows, skip, limit)[j] == rows[skip + j]);
    assert(crate::btree::walker::past(rank(by, rows[skip + i]), rank(by, rows[skip + j]), desc));
    if let Some(f) = order {
        if f != "id"@ {
            lemma_ranks(field_of(a.data@, f), a.address@, field_of(b.data@, f), b.address@, desc);
        }
    }
}

/// What the order of two keys says of values and addresses.
proof fn lemma_ranks(v: Option<JsonView>, a: Seq<char>, w: Option<JsonView>, b: Seq<char>, desc: bool)
    ensures
        !desc && bytes_lt(value_key(v, a), value_key(w, b)) ==> {
            &&& v is None ==> w is None
            &&& order_code(v) == order_code(w) ==> bytes_lt(utf8(a), utf8(b))
            &&& order_code(v) != order_code(w) ==> bytes_lt(order_code(v), order_code(w))
        },
        desc && bytes_lt(down_key(w, b), down_key(v, a)) ==> {
            &&& v is None ==> w is None && bytes_lt(utf8(b), utf8(a))
            &&& v is Some && w is Some && order_code(v) == order_code(w) ==> bytes_lt(utf8(b), utf8(a))
            &&& v is Some && w is Some && order_code(v) != order_code(w) ==> bytes_lt(order_code(w), order_code(v))
        },
{
    law_codes_in_value_order(v, w, utf8(a), utf8(b));
    law_codes_in_value_order(w, v, utf8(b), utf8(a));
    lemma_lt_total(value_key(v, a), value_key(w, b));
    lemma_lt_total(order_code(v), order_code(w));
    lemma_lt_total(utf8(a), utf8(b));
    if order_code(v) == order_code(w) {
        lemma_lt_common_prefix(order_code(v), utf8(a), utf8(b));
        lemma_lt_common_prefix(order_code(v), utf8(b), utf8(a));
    }
    assert(order_code(None)[0] == TAG_NOTHING);
    assert(v is Some ==> order_code(v)[0] != TAG_NOTHING && order_code(v)[0] > 0);
    assert(w is Some ==> order_code(w)[0] != TAG_NOTHING && order_code(w)[0] > 0);
    if v is None && w is None {
        lemma_lt_common_prefix(seq![0u8], utf8(b), utf8(a));
        lemma_lt_common_prefix(seq![0u8], utf8(a), utf8(b));
    }
    if v is None && w is Some {
        let x = down_key(v, a);
        let y = down_key(w, b);
        assert(x[0] == 0 && y[0] == order_code(w)[0]);
        assert(!bytes_lt(y, x));
    }
}

/// A group counts the nodes of the query that have its value: those whose
/// field is missing or null where it has none, else those whose field's value
/// is not told apart from it.
pub proof fn law_group_counts_its_nodes<'q, F: Fn(&Filter, &Node) -> Result<bool, String>>(
    list: Vec<GroupCount>,
    e: StorageEngine,
    eval: F,
    q: Query<'q>,
    by: Seq<char>,
    values: Option<&Vec<Json>>,
    holds: spec_fn(NodeView) -> bool,
    g: int,
    addresses: Set<Seq<char>>,
)
    requires
        e.inv(),
        counts_by(Ok(list), e, eval, q@, by, values_view(values)),
        evaluates(eval),
        q.filter matches Some(f) ==> forall|a: Seq<char>| #[trigger]
            e@.nodes.contains_key(a) ==> exists|node: Node|
                node@ == e@.nodes[a] && #[trigger] eval.ensures((f, &node), Ok::<bool, String>(holds(e@.nodes[a]))),
        0 <= g < list@.len(),
        forall|a: Seq<char>| #[trigger]
            addresses.contains(a) <==> {
                let v = field_of(e@.nodes[a].data, by);
                &&& e@.nodes.contains_key(a)
                &&& q.kind matches Some(k) ==> e@.nodes[a].kind == k@
                &&& q.owner matches Some(o) ==> e@.nodes[a].owner == o@
                &&& q.requester matches Some(r) ==> e@.nodes[a].visibility == Visibility::Public || e@.nodes[a].owner
                    == r@
                &&& q.filter is Some ==> holds(e@.nodes[a])
                &&& match list@[g].value {
                    None => v is None || v->0.shape is Null,
                    Some(j) => v is Some && !(v->0.shape is Null) && order_code(v) == order_code(Some(j@)),
                }
            },
    ensures
        addresses.finite(),
        addresses.len() < u64::MAX ==> list@[g].count == addresses.len(),
        addresses.len() >= u64::MAX ==> list@[g].count == u64::MAX,
        list@[g].value matches Some(j) ==> !(j@.shape is Null),
{
    let nodes = e@.nodes;
    let want = wanted(eval, q@);
    e.lemma_keyed();
    let cap = e.limits().max_scan_rows as nat;
    let view = values_view(values);
    let groups = choose|groups: Vec<Group<()>>| {
        &&& #[trigger] groups_answer(Ok(groups), nodes, eval, q@, by, view, None, no_state, no_fold, cap)
        &&& counts_of(list@, groups@)
    };
    let rows = choose|rows: Seq<NodeView>| {
        &&& #[trigger] wanted_rows(rows, nodes, want)
        &&& grouped(groups@, rows, by, None, view, no_state, no_fold)
        &&& forall|codes: Seq<Seq<u8>>|
            #[trigger] crate::tables::group::row_codes(codes, rows, by, view) ==> codes.len() <= cap
    };
    let v = json_view(list@[g].value);
    assert(v == json_view(groups@[g].value));
    assert(is_group(v, groups@[g].rows, groups@[g].state, rows, rows, by, None, view, no_state, no_fold));
    lemma_group_value(v, rows, by, view);
    let code = order_code(v);
    lemma_members_listing(rows, nodes, want, RankBy::Address, by, code);
    let members = both(want, by, code);
    assert forall|a: Seq<char>| #[trigger] addresses.contains(a) <==> nodes.contains_key(a) && members(nodes[a]) by {
        if nodes.contains_key(a) {
            if let Some(f) = q.filter {
                let node = choose|node: Node|
                    node@ == nodes[a] && #[trigger] eval.ensures((f, &node), Ok::<bool, String>(holds(nodes[a])));
                lemma_verdict(eval, f, &node, Ok::<bool, String>(holds(nodes[a])));
            }
            lemma_same_code(field_of(nodes[a].data, by), v);
        }
    }
    lemma_listing_size(rows.filter(of_code(by, code)), nodes, members, addresses);
}

proof fn lemma_group_value(
    v: Option<JsonView>,
    rows: Seq<NodeView>,
    by: Seq<char>,
    values: Option<Seq<JsonView>>,
)
    requires
        known(v, rows, by, values),
    ensures
        joined(v) == v,
{
    if leads(v, rows, by) {
        let members = rows.filter(of_code(by, order_code(v)));
        assert(joined(field_of(members[0].data, by)) == v);
    }
}

proof fn lemma_same_code(w: Option<JsonView>, v: Option<JsonView>)
    requires
        joined(v) == v,
    ensures
        order_code(joined(w)) == order_code(v) <==> match v {
            None => w is None || w->0.shape is Null,
            Some(j) => w is Some && !(w->0.shape is Null) && order_code(w) == order_code(v),
        },
{
    assert(order_code(None)[0] == TAG_NOTHING);
    assert(v is Some ==> order_code(v)[0] != TAG_NOTHING);
    assert(joined(w) is Some ==> order_code(joined(w))[0] != TAG_NOTHING);
}

/// Every node of a query has a group with its value.
pub proof fn law_every_node_has_its_group<'q, F: Fn(&Filter, &Node) -> Result<bool, String>>(
    list: Vec<GroupCount>,
    e: StorageEngine,
    eval: F,
    q: Query<'q>,
    by: Seq<char>,
    n: NodeView,
)
    requires
        counts_by(Ok(list), e, eval, q@, by, None),
        evaluates(eval),
        e@.nodes.contains_key(n.address),
        e@.nodes[n.address] == n,
        q.kind matches Some(k) ==> n.kind == k@,
        q.owner matches Some(o) ==> n.owner == o@,
        q.requester matches Some(r) ==> n.visibility == Visibility::Public || n.owner == r@,
        q.filter matches Some(f) ==> exists|node: Node|
            node@ == n && #[trigger] eval.ensures((f, &node), Ok::<bool, String>(true)),
    ensures
        exists|g: int| {
            &&& 0 <= g < list@.len()
            &&& match (#[trigger] list@[g]).value {
                None => field_of(n.data, by) is None || field_of(n.data, by)->0.shape is Null,
                Some(j) => field_of(n.data, by) is Some && !(field_of(n.data, by)->0.shape is Null) && order_code(
                    field_of(n.data, by),
                ) == order_code(Some(j@)),
            }
        },
{
    let nodes = e@.nodes;
    let want = wanted(eval, q@);
    let cap = e.limits().max_scan_rows as nat;
    lemma_wants(eval, q, n);
    let groups = choose|groups: Vec<Group<()>>| {
        &&& #[trigger] groups_answer(Ok(groups), nodes, eval, q@, by, None, None, no_state, no_fold, cap)
        &&& counts_of(list@, groups@)
    };
    let rows = choose|rows: Seq<NodeView>| {
        &&& #[trigger] wanted_rows(rows, nodes, want)
        &&& grouped(groups@, rows, by, None, None, no_state, no_fold)
        &&& forall|codes: Seq<Seq<u8>>|
            #[trigger] crate::tables::group::row_codes(codes, rows, by, None) ==> codes.len() <= cap
    };
    assert(belongs(nodes, want, RankBy::Address, None, false, n));
    let k = choose|k: int| 0 <= k < rows.len() && rows[k] == n;
    let code = code_of(by, n);
    assert(code_of(by, rows[k]) == code);
    assert(carried(rows, by, code));
    assert(!named(None, code));
    assert(has_group(groups@, code));
    let g = choose|g: int| 0 <= g < groups@.len() && order_code(json_view((#[trigger] groups@[g]).value)) == code;
    let v = json_view(list@[g].value);
    assert(v == json_view(groups@[g].value));
    assert(is_group(v, groups@[g].rows, groups@[g].state, rows, rows, by, None, None, no_state, no_fold));
    lemma_group_value(v, rows, by, None);
    lemma_same_code(field_of(n.data, by), v);
}

/// Every value that groups are asked for has a group, and every group is of
/// such a value.
pub proof fn law_groups_are_those_asked_for<'q, F: Fn(&Filter, &Node) -> Result<bool, String>>(
    list: Vec<GroupCount>,
    e: StorageEngine,
    eval: F,
    q: Query<'q>,
    by: Seq<char>,
    values: Vec<Json>,
    k: int,
    g: int,
)
    requires
        counts_by(Ok(list), e, eval, q@, by, values_view(Some(&values))),
    ensures
        0 <= k < values@.len() ==> exists|x: int| {
            &&& 0 <= x < list@.len()
            &&& match (#[trigger] list@[x]).value {
                None => values@[k]@.shape is Null,
                Some(j) => !(values@[k]@.shape is Null) && order_code(Some(j@)) == order_code(Some(values@[k]@)),
            }
        },
        0 <= g < list@.len() ==> exists|y: int| {
            &&& 0 <= y < values@.len()
            &&& match list@[g].value {
                None => (#[trigger] values@[y])@.shape is Null,
                Some(j) => order_code(Some(j@)) == order_code(Some(values@[y]@)),
            }
        },
{
    let nodes = e@.nodes;
    let want = wanted(eval, q@);
    let cap = e.limits().max_scan_rows as nat;
    let view = values_view(Some(&values));
    let groups = choose|groups: Vec<Group<()>>| {
        &&& #[trigger] groups_answer(Ok(groups), nodes, eval, q@, by, view, None, no_state, no_fold, cap)
        &&& counts_of(list@, groups@)
    };
    let rows = choose|rows: Seq<NodeView>| {
        &&& #[trigger] wanted_rows(rows, nodes, want)
        &&& grouped(groups@, rows, by, None, view, no_state, no_fold)
        &&& forall|codes: Seq<Seq<u8>>|
            #[trigger] crate::tables::group::row_codes(codes, rows, by, view) ==> codes.len() <= cap
    };
    if 0 <= k < values@.len() {
        assert(view->0[k] == values@[k]@);
        let code = order_code(joined(Some(view->0[k])));
        assert(named(view, code));
        assert(has_group(groups@, code));
        let x = choose|x: int| 0 <= x < groups@.len() && order_code(json_view((#[trigger] groups@[x]).value)) == code;
        let v = json_view(list@[x].value);
        assert(v == json_view(groups@[x].value));
        assert(is_group(v, groups@[x].rows, groups@[x].state, rows, rows, by, None, view, no_state, no_fold));
        lemma_group_value(v, rows, by, view);
        lemma_same_code(Some(values@[k]@), v);
    }
    if 0 <= g < list@.len() {
        let v = json_view(list@[g].value);
        assert(v == json_view(groups@[g].value));
        assert(is_group(v, groups@[g].rows, groups@[g].state, rows, rows, by, None, view, no_state, no_fold));
        lemma_group_value(v, rows, by, view);
        let y = choose|y: int| 0 <= y < view->0.len() && order_code(joined(Some(#[trigger] view->0[y]))) == order_code(v);
        assert(view->0[y] == values@[y]@);
        lemma_same_code(Some(values@[y]@), v);
    }
}

/// The step makes the next state of a state and the value of the node's
/// field.
pub open spec fn hands_on<A, S: Fn(A, Option<Json>) -> Result<A, String>>(
    step: S,
    a: A,
    n: NodeView,
    name: Seq<char>,
    b: A,
) -> bool {
    exists|j: Option<Json>|
        json_view(j) == field_of(n.data, name) && #[trigger] call_ensures(step, (a, j), Ok::<A, String>(b))
}

/// Folding a field goes through the nodes of the query, each once, in the
/// order of their addresses, and hands each value of the field to the step.
pub proof fn law_aggregate_folds_the_nodes<
    'q,
    F: Fn(&Filter, &Node) -> Result<bool, String>,
    A,
    S: Fn(A, Option<Json>) -> Result<A, String>,
>(state: A, e: StorageEngine, eval: F, q: Query<'q>, name: Seq<char>, init: A, step: S) -> (r: (
    Seq<NodeView>,
    Seq<A>,
))
    requires
        folds_where(Ok(state), e, eval, q@, name, init, step),
        evaluates(eval),
    ensures
        ({
            let (rows, states) = r;
            &&& states.len() == rows.len() + 1
            &&& states[0] == init
            &&& states[rows.len() as int] == state
            &&& forall|i: int|
                0 <= i < rows.len() ==> hands_on(step, states[i], #[trigger] rows[i], name, states[i + 1])
            &&& forall|i: int, j: int|
                0 <= i < j < rows.len() ==> bytes_lt(utf8((#[trigger] rows[i]).address), utf8((#[trigger] rows[j]).address))
            &&& forall|i: int|
                0 <= i < rows.len() ==> {
                    let n = #[trigger] rows[i];
                    &&& e@.nodes.contains_key(n.address)
                    &&& e@.nodes[n.address] == n
                    &&& q.kind matches Some(k) ==> n.kind == k@
                    &&& q.owner matches Some(o) ==> n.owner == o@
                    &&& q.requester matches Some(r) ==> n.visibility == Visibility::Public || n.owner == r@
                    &&& q.filter matches Some(f) ==> forall|node: Node, out: Result<bool, String>|
                        node@ == n && #[trigger] eval.ensures((f, &node), out) ==> out == Ok::<bool, String>(true)
                }
            &&& forall|n: NodeView|
                e@.nodes.contains_key(n.address) && e@.nodes[n.address] == n && (q.kind matches Some(k) ==> n.kind == k@)
                    && (q.owner matches Some(o) ==> n.owner == o@) && (q.requester matches Some(r) ==> n.visibility
                    == Visibility::Public || n.owner == r@) && (q.filter matches Some(f) ==> exists|node: Node|
                    node@ == n && #[trigger] eval.ensures((f, &node), Ok::<bool, String>(true)))
                    ==> #[trigger] rows.contains(n)
        }),
{
    let nodes = e@.nodes;
    let want = wanted(eval, q@);
    let rows = choose|rows: Seq<NodeView>| #[trigger]
        wanted_rows(rows, nodes, want) && folds_to(step, init, Some(name), rows, state);
    let states = choose|states: Seq<A>|
        #[trigger] goes_through(step, init, name, rows, states) && states.last() == state;
    assert(states.last() == states[rows.len() as int]);
    assert forall|i: int| 0 <= i < rows.len() implies hands_on(
        step,
        states[i],
        #[trigger] rows[i],
        name,
        states[i + 1],
    ) by {
        assert(steps_to(step, states[i], folded_value(name, rows[i]), states[i + 1]));
    }
    assert forall|i: int| 0 <= i < rows.len() implies {
        let n = #[trigger] rows[i];
        &&& nodes.contains_key(n.address)
        &&& nodes[n.address] == n
        &&& q.kind matches Some(k) ==> n.kind == k@
        &&& q.owner matches Some(o) ==> n.owner == o@
        &&& q.requester matches Some(r) ==> n.visibility == Visibility::Public || n.owner == r@
        &&& q.filter matches Some(f) ==> forall|node: Node, out: Result<bool, String>|
            node@ == n && #[trigger] eval.ensures((f, &node), out) ==> out == Ok::<bool, String>(true)
    } by {
        assert(belongs(nodes, want, RankBy::Address, None, false, rows[i]));
        lemma_wanted(eval, q, rows[i]);
    }
    assert forall|i: int, j: int| 0 <= i < j < rows.len() implies bytes_lt(
        utf8((#[trigger] rows[i]).address),
        utf8((#[trigger] rows[j]).address),
    ) by {
        assert(crate::btree::walker::past(rank(RankBy::Address, rows[i]), rank(RankBy::Address, rows[j]), false));
    }
    assert forall|n: NodeView|
        nodes.contains_key(n.address) && nodes[n.address] == n && (q.kind matches Some(k) ==> n.kind == k@) && (
        q.owner matches Some(o) ==> n.owner == o@) && (q.requester matches Some(r) ==> n.visibility
            == Visibility::Public || n.owner == r@) && (q.filter matches Some(f) ==> exists|node: Node|
            node@ == n && #[trigger] eval.ensures((f, &node), Ok::<bool, String>(true)))
            implies #[trigger] rows.contains(n) by {
        lemma_wants(eval, q, n);
        assert(belongs(nodes, want, RankBy::Address, None, false, n));
    }
    (rows, states)
}

/// Folding in groups goes, for each group, through the nodes of the query
/// that have its value, each once, in the order of their addresses, from what
/// a group starts with, and hands each value of the folded field to the step.
pub proof fn law_group_folds_its_nodes<
    'q,
    F: Fn(&Filter, &Node) -> Result<bool, String>,
    A,
    S: Fn(A, Option<Json>) -> Result<A, String>,
    I: Fn() -> A,
>(
    list: Vec<GroupAggregate<A>>,
    e: StorageEngine,
    eval: F,
    q: Query<'q>,
    by: Seq<char>,
    values: Option<&Vec<Json>>,
    name: Seq<char>,
    start: I,
    step: S,
    g: int,
) -> (r: (Seq<NodeView>, Seq<A>))
    requires
        aggregates_by(Ok(list), e, eval, q@, by, values_view(values), name, start, step),
        evaluates(eval),
        0 <= g < list@.len(),
    ensures
        ({
            let (rows, states) = r;
            &&& states.len() == rows.len() + 1
            &&& call_ensures(start, (), states[0])
            &&& states[rows.len() as int] == list@[g].result
            &&& forall|i: int|
                0 <= i < rows.len() ==> hands_on(step, states[i], #[trigger] rows[i], name, states[i + 1])
            &&& forall|i: int, j: int|
                0 <= i < j < rows.len() ==> bytes_lt(utf8((#[trigger] rows[i]).address), utf8((#[trigger] rows[j]).address))
            &&& forall|i: int|
                0 <= i < rows.len() ==> {
                    let n = #[trigger] rows[i];
                    let v = field_of(n.data, by);
                    &&& e@.nodes.contains_key(n.address)
                    &&& e@.nodes[n.address] == n
                    &&& q.kind matches Some(k) ==> n.kind == k@
                    &&& q.owner matches Some(o) ==> n.owner == o@
                    &&& q.requester matches Some(who) ==> n.visibility == Visibility::Public || n.owner == who@
                    &&& match list@[g].value {
                        None => v is None || v->0.shape is Null,
                        Some(j) => v is Some && !(v->0.shape is Null) && order_code(v) == order_code(Some(j@)),
                    }
                }
            &&& forall|n: NodeView|
                e@.nodes.contains_key(n.address) && e@.nodes[n.address] == n && (q.kind matches Some(k) ==> n.kind == k@)
                    && (q.owner matches Some(o) ==> n.owner == o@) && (q.requester matches Some(who) ==> n.visibility
                    == Visibility::Public || n.owner == who@) && (q.filter matches Some(f) ==> exists|node: Node|
                    node@ == n && #[trigger] eval.ensures((f, &node), Ok::<bool, String>(true))) && (
                match list@[g].value {
                    None => field_of(n.data, by) is None || field_of(n.data, by)->0.shape is Null,
                    Some(j) => field_of(n.data, by) is Some && !(field_of(n.data, by)->0.shape is Null) && order_code(
                        field_of(n.data, by),
                    ) == order_code(Some(j@)),
                }) ==> #[trigger] rows.contains(n)
        }),
{
    let nodes = e@.nodes;
    let want = wanted(eval, q@);
    let cap = e.limits().max_scan_rows as nat;
    let view = values_view(values);
    let groups = choose|groups: Vec<Group<A>>| {
        &&& #[trigger] groups_answer(Ok(groups), nodes, eval, q@, by, view, Some(name), start, step, cap)
        &&& results_of(list@, groups@)
    };
    let all = choose|rows: Seq<NodeView>| {
        &&& #[trigger] wanted_rows(rows, nodes, want)
        &&& grouped(groups@, rows, by, Some(name), view, start, step)
        &&& forall|codes: Seq<Seq<u8>>|
            #[trigger] crate::tables::group::row_codes(codes, rows, by, view) ==> codes.len() <= cap
    };
    let v = json_view(groups@[g].value);
    assert(list@[g].value == groups@[g].value && list@[g].result == groups@[g].state);
    assert(is_group(v, groups@[g].rows, groups@[g].state, all, all, by, Some(name), view, start, step));
    lemma_group_value(v, all, by, view);
    let code = order_code(v);
    let rows = all.filter(of_code(by, code));
    let members = both(want, by, code);
    lemma_members_listing(all, nodes, want, RankBy::Address, by, code);
    let init = choose|init: A|
        call_ensures(start, (), init) && #[trigger] folds_to(step, init, Some(name), rows, groups@[g].state);
    let states = choose|states: Seq<A>|
        #[trigger] goes_through(step, init, name, rows, states) && states.last() == groups@[g].state;
    assert(states.last() == states[rows.len() as int]);
    assert forall|i: int| 0 <= i < rows.len() implies hands_on(
        step,
        states[i],
        #[trigger] rows[i],
        name,
        states[i + 1],
    ) by {
        assert(steps_to(step, states[i], folded_value(name, rows[i]), states[i + 1]));
    }
    assert forall|i: int, j: int| 0 <= i < j < rows.len() implies bytes_lt(
        utf8((#[trigger] rows[i]).address),
        utf8((#[trigger] rows[j]).address),
    ) by {
        assert(crate::btree::walker::past(rank(RankBy::Address, rows[i]), rank(RankBy::Address, rows[j]), false));
    }
    assert forall|i: int| 0 <= i < rows.len() implies {
        let n = #[trigger] rows[i];
        let w = field_of(n.data, by);
        &&& nodes.contains_key(n.address)
        &&& nodes[n.address] == n
        &&& q.kind matches Some(k) ==> n.kind == k@
        &&& q.owner matches Some(o) ==> n.owner == o@
        &&& q.requester matches Some(who) ==> n.visibility == Visibility::Public || n.owner == who@
        &&& match list@[g].value {
            None => w is None || w->0.shape is Null,
            Some(j) => w is Some && !(w->0.shape is Null) && order_code(w) == order_code(Some(j@)),
        }
    } by {
        assert(belongs(nodes, members, RankBy::Address, None, false, rows[i]));
        lemma_wanted(eval, q, rows[i]);
        lemma_same_code(field_of(rows[i].data, by), v);
    }
    assert forall|n: NodeView|
        nodes.contains_key(n.address) && nodes[n.address] == n && (q.kind matches Some(k) ==> n.kind == k@) && (
        q.owner matches Some(o) ==> n.owner == o@) && (q.requester matches Some(who) ==> n.visibility
            == Visibility::Public || n.owner == who@) && (q.filter matches Some(f) ==> exists|node: Node|
            node@ == n && #[trigger] eval.ensures((f, &node), Ok::<bool, String>(true))) && (match list@[g].value {
            None => field_of(n.data, by) is None || field_of(n.data, by)->0.shape is Null,
            Some(j) => field_of(n.data, by) is Some && !(field_of(n.data, by)->0.shape is Null) && order_code(
                field_of(n.data, by),
            ) == order_code(Some(j@)),
        }) implies #[trigger] rows.contains(n) by {
        lemma_wants(eval, q, n);
        lemma_same_code(field_of(n.data, by), v);
        assert(belongs(nodes, members, RankBy::Address, None, false, n));
    }
    (rows, states)
}

} // verus!
