//! Finding nodes, a page at a time.

use vstd::prelude::*;

use crate::btree::walker::past;
use crate::bytes::{lemma_lt_total, lemma_lt_transitive, Order};
use crate::cache::RecordCache;
use crate::cursor::{is_sound, points_at, Cursor, CursorError, CursorView};
use crate::filter::{evaluates, judge, pins_hold, pins_sound, verdict, verdict_view, Filter};
use crate::json::{field, field_of, Json};
use crate::keys::{down_key, value_key};
use crate::sort::{has_text, texts_sorted};
use crate::tables::candidates::filter_view;
use crate::tables::lower::nodes_view;
use crate::tables::model::{lemma_nodes_at, Nodes};
use crate::tables::rows::{belongs, in_listing, is_listing, listed_nodes, live, rank, scanned, text_bytes, RankBy, Rows};
use crate::tables::{agrees, Tables};
use crate::text::{lemma_utf8_injective, str_eq, str_order, str_view, text_lt, utf8};
use crate::types::{Node, NodeView};

verus! {

/// What a query asks for.
#[derive(Clone, Copy)]
pub struct Query<'q> {
    pub kind: Option<&'q str>,
    pub owner: Option<&'q str>,
    /// Who asks; none for an administrator.
    pub requester: Option<&'q str>,
    pub filter: Option<&'q Filter>,
}

pub struct QueryView {
    pub kind: Option<Seq<char>>,
    pub owner: Option<Seq<char>>,
    pub requester: Option<Seq<char>>,
    pub filter: Option<Filter>,
}

impl<'q> View for Query<'q> {
    type V = QueryView;

    open spec fn view(&self) -> QueryView {
        QueryView {
            kind: str_view(self.kind),
            owner: str_view(self.owner),
            requester: str_view(self.requester),
            filter: filter_view(self.filter),
        }
    }
}

/// The node has the kind and owner asked for, and who asks may read it.
pub open spec fn eligible(q: QueryView, n: NodeView) -> bool {
    &&& q.kind matches Some(k) ==> n.kind == k
    &&& q.owner matches Some(o) ==> n.owner == o
    &&& q.requester matches Some(r) ==> n.readable_by(r)
}

/// What the query says of a node.
pub open spec fn accepted<F: Fn(&Filter, &Node) -> Result<bool, String>>(
    eval: F,
    q: QueryView,
    n: NodeView,
) -> Result<bool, Seq<char>> {
    if !eligible(q, n) {
        Ok(false)
    } else {
        match q.filter {
            Some(f) => verdict(eval, f, n),
            None => Ok(true),
        }
    }
}

/// The nodes that a query asks for.
pub open spec fn wanted<F: Fn(&Filter, &Node) -> Result<bool, String>>(
    eval: F,
    q: QueryView,
) -> spec_fn(NodeView) -> bool {
    |n: NodeView| accepted(eval, q, n) == Ok::<bool, Seq<char>>(true)
}

/// The nodes that a query can judge.
pub open spec fn judgeable<F: Fn(&Filter, &Node) -> Result<bool, String>>(
    eval: F,
    q: QueryView,
) -> spec_fn(NodeView) -> bool {
    |n: NodeView| accepted(eval, q, n) is Ok
}

/// The query may ask for the node: it has the kind and the owner, who asks may
/// read it, and what the condition pins down is true of it.
pub open spec fn possible(q: QueryView, n: NodeView) -> bool {
    &&& eligible(q, n)
    &&& q.filter matches Some(f) ==> pins_hold(f, n)
}

/// Every node that the query may ask for was judged.
pub open spec fn all_judged(nodes: Nodes, q: QueryView, sure: spec_fn(NodeView) -> bool) -> bool {
    forall|n: NodeView| live(nodes, n) && #[trigger] possible(q, n) ==> sure(n)
}

/// What a query needs of the evaluation: what its condition pins down is
/// true of every node that the condition holds of.
pub open spec fn askable<F: Fn(&Filter, &Node) -> Result<bool, String>>(eval: F, q: QueryView) -> bool {
    &&& evaluates(eval)
    &&& q.filter matches Some(f) ==> pins_sound(eval, f)
}

pub(crate) fn judged<'q, F: Fn(&Filter, &Node) -> Result<bool, String>>(eval: &F, q: &Query<'q>, node: &Node) -> (r: Result<
    bool,
    String,
>)
    requires
        evaluates(*eval),
    ensures
        verdict_view(r) == accepted(*eval, q@, node@),
{
    match q.kind {
        Some(k) => if !str_eq(&node.kind, k) {
            return Ok(false);
        },
        None => {},
    }
    match q.owner {
        Some(o) => if !str_eq(&node.owner, o) {
            return Ok(false);
        },
        None => {},
    }
    match q.requester {
        Some(r) => if !node.can_read(r) {
            return Ok(false);
        },
        None => {},
    }
    match q.filter {
        Some(f) => judge(eval, f, node),
        None => Ok(true),
    }
}

// ---------------------------------------------------------------------
// Windows
// ---------------------------------------------------------------------

/// Up to `limit` rows after the first `skip`.
pub open spec fn window(rows: Seq<NodeView>, skip: nat, limit: nat) -> Seq<NodeView> {
    let left = if rows.len() > skip {
        (rows.len() - skip) as nat
    } else {
        0
    };
    Seq::new(
        if left < limit {
            left
        } else {
            limit
        },
        |i: int| rows[skip + i],
    )
}

/// A number as large as the type takes.
pub open spec fn capped(n: nat) -> u64 {
    if n > u64::MAX {
        u64::MAX
    } else {
        n as u64
    }
}

/// How many rows are looked at to fill a page and see whether there is more.
pub open spec fn looked_at(
    rows: Seq<NodeView>,
    want: spec_fn(NodeView) -> bool,
    enough: nat,
    n: nat,
) -> bool {
    &&& n <= rows.len()
    &&& if rows.filter(want).len() > enough {
        n > 0 && want(rows[n - 1]) && rows.take(n as int).filter(want).len() == enough + 1
    } else {
        n == rows.len()
    }
}

/// What a page takes from a source of rows.
pub struct Taken {
    pub nodes: Vec<Node>,
    pub more: bool,
    pub examined: u64,
}

/// The page takes the rows wanted, after the first `skip`, up to `limit`.
pub open spec fn taken_from(
    t: Taken,
    rows: Seq<NodeView>,
    want: spec_fn(NodeView) -> bool,
    sure: spec_fn(NodeView) -> bool,
    skip: nat,
    limit: nat,
) -> bool {
    let good = rows.filter(want);
    &&& nodes_view(t.nodes@) == window(good, skip, limit)
    &&& t.more == (good.len() > skip + limit)
    &&& exists|n: nat| #[trigger]
        looked_at(rows, want, skip + limit, n) && t.examined == capped(n) && judged_upto(rows, sure, n)
}

/// The first `n` rows were judged.
pub open spec fn judged_upto(rows: Seq<NodeView>, sure: spec_fn(NodeView) -> bool, n: nat) -> bool {
    forall|i: int| 0 <= i < n ==> sure(#[trigger] rows[i])
}

pub proof fn lemma_filter_step(rows: Seq<NodeView>, want: spec_fn(NodeView) -> bool, i: int)
    requires
        0 <= i < rows.len(),
    ensures
        rows.take(i + 1).filter(want) == (if want(rows[i]) {
            rows.take(i).filter(want).push(rows[i])
        } else {
            rows.take(i).filter(want)
        }),
{
    reveal(Seq::filter);
    let next = rows.take(i + 1);
    assert(next.drop_last() =~= rows.take(i));
    assert(next.last() == rows[i]);
}

pub proof fn lemma_filter_split(rows: Seq<NodeView>, want: spec_fn(NodeView) -> bool, i: int)
    requires
        0 <= i <= rows.len(),
    ensures
        rows.filter(want) == rows.take(i).filter(want) + rows.skip(i).filter(want),
{
    broadcast use Seq::filter_distributes_over_add;

    assert(rows =~= rows.take(i) + rows.skip(i));
}

impl Tables {
    /// Takes a page from a source of rows.
    fn take_page<'a, 'q, F: Fn(&Filter, &Node) -> Result<bool, String>>(
        &'a self,
        rows: Rows<'a>,
        q: &Query<'q>,
        eval: &F,
        skip: usize,
        limit: usize,
        cache: &mut RecordCache,
    ) -> (r: Result<Taken, String>)
        requires
            self.inv(),
            rows.wf(self),
            rows.taken() == 0,
            old(cache).wf(),
            agrees(old(cache)@, self.heap()),
            evaluates(*eval),
        ensures
            final(cache).wf(),
            agrees(final(cache)@, self.heap()),
            match r {
                Ok(t) => taken_from(
                    t,
                    rows.all(),
                    wanted(*eval, q@),
                    judgeable(*eval, q@),
                    skip as nat,
                    limit as nat,
                ),
                Err(e) => stops_at(rows.all(), *eval, q@, (skip + limit) as nat, e@),
            },
    {
        let ghost all = rows.all();
        let ghost want = wanted(*eval, q@);
        let mut source = rows;
        let mut nodes: Vec<Node> = Vec::new();
        let mut skipped: usize = 0;
        let mut more: bool = false;
        let mut examined: u64 = 0;
        proof {
            reveal(Seq::filter);
            assert(all.take(0).filter(want) =~= Seq::<NodeView>::empty());
            assert(nodes_view(nodes@) =~= window(Seq::<NodeView>::empty(), skip as nat, limit as nat));
        }
        loop
            invariant_except_break
                !more,
                all.take(source.taken() as int).filter(want).len() <= skip + limit,
            invariant
                self.inv(),
                cache.wf(),
                agrees(cache@, self.heap()),
                evaluates(*eval),
                source.wf(self),
                source.all() == all,
                rows.all() == all,
                want == wanted(*eval, q@),
                source.taken() <= all.len(),
                judged_upto(all, judgeable(*eval, q@), source.taken()),
                examined == capped(source.taken()),
                skipped <= skip,
                skipped == (if all.take(source.taken() as int).filter(want).len() < skip {
                    all.take(source.taken() as int).filter(want).len()
                } else {
                    skip as nat
                }),
                nodes_view(nodes@) == window(
                    all.take(source.taken() as int).filter(want),
                    skip as nat,
                    limit as nat,
                ),
            ensures
                !more ==> source.taken() == all.len() && all.take(source.taken() as int).filter(want).len() <= skip + limit,
                more ==> source.taken() > 0 && want(all[source.taken() - 1]) && all.take(source.taken() as int).filter(
                    want,
                ).len() == skip + limit + 1,
            decreases all.len() - source.taken(),
        {
            let ghost at = source.taken() as int;
            let ghost g = all.take(at).filter(want);
            let node = match source.next(self, cache) {
                Some(node) => node,
                None => {
                    break;
                },
            };
            if examined < u64::MAX {
                examined = examined + 1;
            }
            proof {
                lemma_filter_step(all, want, at);
            }
            let ghost h = all.take(at + 1).filter(want);
            match judged(eval, q, &node) {
                Ok(true) => {
                    proof {
                        assert(want(all[at]));
                    }
                    if skipped < skip {
                        skipped = skipped + 1;
                        proof {
                            assert(window(h, skip as nat, limit as nat) =~= window(g, skip as nat, limit as nat));
                        }
                    } else if nodes.len() == limit {
                        more = true;
                        proof {
                            assert(window(h, skip as nat, limit as nat) =~= window(g, skip as nat, limit as nat));
                        }
                        break;
                    } else {
                        let ghost before = nodes@;
                        nodes.push(node);
                        proof {
                            assert(nodes_view(nodes@) =~= nodes_view(before).push(all[at]));
                            assert(window(h, skip as nat, limit as nat) =~= window(
                                g,
                                skip as nat,
                                limit as nat,
                            ).push(all[at]));
                        }
                    }
                },
                Ok(false) => {
                    proof {
                        assert(!want(all[at]));
                    }
                },
                Err(e) => {
                    proof {
                        assert(accepted(*eval, q@, all[at]) == Err::<bool, Seq<char>>(e@));
                        assert(stops_before(all, *eval, q@, (skip + limit) as nat, e@, at as nat));
                    }
                    return Err(e);
                },
            }
        }
        let t = Taken { nodes, more, examined };
        proof {
            let m = source.taken();
            let g = all.take(m as int).filter(want);
            lemma_filter_split(all, want, m as int);
            let rest = all.skip(m as int).filter(want);
            if m == all.len() {
                assert(all.take(m as int) =~= all);
            }
            assert(window(all.filter(want), skip as nat, limit as nat) =~= window(g, skip as nat, limit as nat));
            assert(looked_at(all, want, (skip + limit) as nat, m));
        }
        Ok(t)
    }
}

// ---------------------------------------------------------------------
// Listings and their wanted rows
// ---------------------------------------------------------------------

pub proof fn lemma_filter_has(rows: Seq<NodeView>, want: spec_fn(NodeView) -> bool, n: NodeView)
    ensures
        rows.filter(want).contains(n) <==> rows.contains(n) && want(n),
    decreases rows.len(),
{
    reveal(Seq::filter);
    if rows.len() > 0 {
        let init = rows.drop_last();
        lemma_filter_has(init, want, n);
        let f = rows.filter(want);
        let g = init.filter(want);
        if f.contains(n) {
            let i = choose|i: int| 0 <= i < f.len() && f[i] == n;
            if want(rows.last()) && i == g.len() {
                assert(rows[rows.len() - 1] == n);
            } else {
                assert(g[i] == n);
                assert(g.contains(n));
                let k = choose|k: int| 0 <= k < init.len() && init[k] == n;
                assert(rows[k] == n);
            }
        }
        if rows.contains(n) && want(n) {
            let k = choose|k: int| 0 <= k < rows.len() && rows[k] == n;
            if k < init.len() {
                assert(init[k] == n);
                assert(g.contains(n));
                let i = choose|i: int| 0 <= i < g.len() && g[i] == n;
                assert(f[i] == n);
            } else {
                assert(f[g.len() as int] == n);
            }
        }
    }
}

/// The wanted rows of a listing, in the listing's order.
pub proof fn lemma_filter_in_listing(
    rows: Seq<NodeView>,
    nodes: Nodes,
    pick: spec_fn(NodeView) -> bool,
    want: spec_fn(NodeView) -> bool,
    by: RankBy,
    after: Option<Seq<u8>>,
    desc: bool,
)
    requires
        in_listing(rows, nodes, pick, by, after, desc),
    ensures
        in_listing(rows.filter(want), nodes, want, by, after, desc),
    decreases rows.len(),
{
    reveal(Seq::filter);
    if rows.len() > 0 {
        let init = rows.drop_last();
        assert(in_listing(init, nodes, pick, by, after, desc)) by {
            assert forall|i: int, j: int| 0 <= i < j < init.len() implies past(
                rank(by, #[trigger] init[i]),
                rank(by, #[trigger] init[j]),
                desc,
            ) by {
                assert(init[i] == rows[i] && init[j] == rows[j]);
            }
            assert forall|i: int| 0 <= i < init.len() implies belongs(
                nodes,
                pick,
                by,
                after,
                desc,
                #[trigger] init[i],
            ) by {
                assert(init[i] == rows[i]);
            }
        }
        lemma_filter_in_listing(init, nodes, pick, want, by, after, desc);
        let f = rows.filter(want);
        let g = init.filter(want);
        if want(rows.last()) {
            assert(f =~= g.push(rows.last()));
            let last = rows.len() - 1;
            assert(belongs(nodes, pick, by, after, desc, rows[last]));
            assert forall|i: int, j: int| 0 <= i < j < f.len() implies past(
                rank(by, #[trigger] f[i]),
                rank(by, #[trigger] f[j]),
                desc,
            ) by {
                assert(f[i] == g[i]);
                if j < g.len() {
                    assert(f[j] == g[j]);
                } else {
                    assert(g.contains(g[i]));
                    lemma_filter_has(init, want, g[i]);
                    let k = choose|k: int| 0 <= k < init.len() && init[k] == g[i];
                    assert(rows[k] == g[i]);
                    assert(past(rank(by, rows[k]), rank(by, rows[last]), desc));
                }
            }
            assert forall|i: int| 0 <= i < f.len() implies belongs(nodes, want, by, after, desc, #[trigger] f[i]) by {
                if i < g.len() {
                    assert(f[i] == g[i]);
                }
            }
        } else {
            assert(f =~= g);
        }
    }
}

/// Where a listing has every node that is wanted, its wanted rows are the
/// listing of those.
pub proof fn lemma_filter_listing(
    rows: Seq<NodeView>,
    nodes: Nodes,
    pick: spec_fn(NodeView) -> bool,
    want: spec_fn(NodeView) -> bool,
    by: RankBy,
    after: Option<Seq<u8>>,
    desc: bool,
)
    requires
        is_listing(rows, nodes, pick, by, after, desc),
        forall|n: NodeView| live(nodes, n) && #[trigger] want(n) ==> pick(n),
    ensures
        is_listing(rows.filter(want), nodes, want, by, after, desc),
{
    lemma_filter_in_listing(rows, nodes, pick, want, by, after, desc);
    assert forall|n: NodeView| #[trigger] belongs(nodes, want, by, after, desc, n) implies rows.filter(want).contains(n) by {
        assert(want(n));
        assert(belongs(nodes, pick, by, after, desc, n));
        lemma_filter_has(rows, want, n);
    }
}

// ---------------------------------------------------------------------
// Pages
// ---------------------------------------------------------------------

/// A page of nodes.
#[derive(Debug)]
pub struct QueryPage {
    pub nodes: Vec<Node>,
    /// Where to go on; empty where nothing is left.
    pub next: String,
    /// Nodes that were looked at.
    pub examined: u64,
}

/// Why a query was refused.
#[derive(Debug)]
pub enum QueryError {
    /// So many rows are not skipped.
    Offset { offset: usize, max: usize },
    Cursor(CursorError),
    /// The condition could not be evaluated.
    Condition { message: String },
    /// The answer would hold more rows in memory than allowed.
    ScanLimit { max: usize },
    /// An earlier change went wrong half way; the database has to be opened
    /// again.
    Failed,
}

/// Where the node is in the order of a query, as a cursor.
pub open spec fn cursor_at(by: RankBy, n: NodeView) -> CursorView {
    CursorView {
        o: match by {
            RankBy::Field(f) => field_of(n.data, f),
            RankBy::Last(f) => field_of(n.data, f),
            RankBy::Address => None,
        },
        a: n.address,
    }
}

/// Where a cursor stands in an order.
pub open spec fn start_of(by: RankBy, cursor: Option<CursorView>) -> Option<Seq<u8>> {
    match cursor {
        None => None,
        Some(c) => Some(
            match by {
                RankBy::Address => utf8(c.a),
                RankBy::Field(f) => value_key(c.o, c.a),
                RankBy::Last(f) => down_key(c.o, c.a),
            },
        ),
    }
}

/// The page holds up to `limit` rows after the first `skip`, and says where
/// to go on if there are more.
pub open spec fn page_of(page: QueryPage, rows: Seq<NodeView>, skip: nat, limit: nat, by: RankBy) -> bool {
    &&& nodes_view(page.nodes@) == window(rows, skip, limit)
    &&& if rows.len() > skip + limit && limit > 0 {
        points_at(page.next@, cursor_at(by, nodes_view(page.nodes@).last()))
    } else {
        page.next@ == Seq::<char>::empty()
    }
}

/// The page answers the query: its rows are the next ones of the listing past
/// the cursor.
pub open spec fn answers(
    page: QueryPage,
    nodes: Nodes,
    want: spec_fn(NodeView) -> bool,
    by: RankBy,
    cursor: Option<CursorView>,
    desc: bool,
    skip: nat,
    limit: nat,
) -> bool {
    let after = start_of(by, cursor);
    &&& page.examined >= page.nodes@.len()
    &&& exists|rows: Seq<NodeView>| {
        &&& #[trigger] is_listing(rows, nodes, want, by, after, desc)
        &&& page_of(page, rows, skip, limit, by)
    }
}

/// The page looked at rows of the source until it had enough, or there were
/// no more, and judged every one of them.
pub open spec fn read_from(
    page: QueryPage,
    rows: Seq<NodeView>,
    want: spec_fn(NodeView) -> bool,
    sure: spec_fn(NodeView) -> bool,
    enough: nat,
) -> bool {
    exists|n: nat| #[trigger]
        looked_at(rows, want, enough, n) && page.examined == capped(n) && judged_upto(rows, sure, n)
}

/// Before there is enough, a row is met that cannot be judged; those before
/// it can.
pub open spec fn stops_at<F: Fn(&Filter, &Node) -> Result<bool, String>>(
    rows: Seq<NodeView>,
    eval: F,
    q: QueryView,
    enough: nat,
    message: Seq<char>,
) -> bool {
    exists|k: nat| #[trigger] stops_before(rows, eval, q, enough, message, k)
}

pub open spec fn stops_before<F: Fn(&Filter, &Node) -> Result<bool, String>>(
    rows: Seq<NodeView>,
    eval: F,
    q: QueryView,
    enough: nat,
    message: Seq<char>,
    k: nat,
) -> bool {
    &&& k < rows.len()
    &&& accepted(eval, q, rows[k as int]) == Err::<bool, Seq<char>>(message)
    &&& judged_upto(rows, judgeable(eval, q), k)
    &&& rows.take(k as int).filter(wanted(eval, q)).len() <= enough
}

/// A page from the picked nodes past the cursor stops at a row that cannot be
/// judged.
pub open spec fn stops_in<F: Fn(&Filter, &Node) -> Result<bool, String>>(
    nodes: Nodes,
    eval: F,
    q: QueryView,
    pick: spec_fn(NodeView) -> bool,
    by: RankBy,
    cursor: Option<CursorView>,
    desc: bool,
    enough: nat,
    message: Seq<char>,
) -> bool {
    exists|rows: Seq<NodeView>| {
        &&& is_listing(rows, nodes, pick, by, start_of(by, cursor), desc)
        &&& #[trigger] stops_at(rows, eval, q, enough, message)
    }
}

/// The page looked through the picked nodes past the cursor.
pub open spec fn looks_through(
    page: QueryPage,
    nodes: Nodes,
    pick: spec_fn(NodeView) -> bool,
    by: RankBy,
    cursor: Option<CursorView>,
    desc: bool,
    want: spec_fn(NodeView) -> bool,
    sure: spec_fn(NodeView) -> bool,
    enough: nat,
) -> bool {
    exists|rows: Seq<NodeView>| {
        &&& is_listing(rows, nodes, pick, by, start_of(by, cursor), desc)
        &&& #[trigger] read_from(page, rows, want, sure, enough)
    }
}

/// Some node cannot be judged.
pub open spec fn unjudged<F: Fn(&Filter, &Node) -> Result<bool, String>>(
    eval: F,
    q: QueryView,
    nodes: Nodes,
    message: Seq<char>,
) -> bool {
    exists|n: NodeView| live(nodes, n) && #[trigger] accepted(eval, q, n) == Err::<bool, Seq<char>>(message)
}

pub open spec fn cursor_option(c: Option<Cursor>) -> Option<CursorView> {
    match c {
        Some(c) => Some(c@),
        None => None,
    }
}

/// Rows to skip: none where a cursor says where to go on.
pub open spec fn to_skip(cursor: Option<CursorView>, offset: nat) -> nat {
    if cursor is Some {
        0
    } else {
        offset
    }
}

impl Cursor {
    /// Where a node is in the order of a query.
    pub(crate) fn from_node(node: &Node, order_field: Option<&str>) -> (r: Cursor)
        ensures
            forall|desc: bool| r@ == cursor_at(#[trigger] rank_by(str_view(order_field), desc), node@),
            is_sound(r@),
    {
        let o: Option<Json> = match order_field {
            Some(f) => field(&node.data, f),
            None => None,
        };
        Cursor { o, a: node.address.clone() }
    }
}

/// The order by a field, or by address. Either way round, nodes without the
/// field come last.
pub open spec fn rank_by(order_field: Option<Seq<char>>, desc: bool) -> RankBy {
    match order_field {
        Some(f) => if desc {
            RankBy::Last(f)
        } else {
            RankBy::Field(f)
        },
        None => RankBy::Address,
    }
}

pub(crate) fn finish_page(taken: Taken, order_field: Option<&str>) -> (page: QueryPage)
    ensures
        page.nodes@ == taken.nodes@,
        page.examined == taken.examined,
        if taken.more && taken.nodes@.len() > 0 {
            forall|desc: bool|
                points_at(page.next@, cursor_at(#[trigger] rank_by(str_view(order_field), desc), taken.nodes@.last()@))
        } else {
            page.next@ == Seq::<char>::empty()
        },
{
    let next: String = if taken.more && taken.nodes.len() > 0 {
        Cursor::from_node(&taken.nodes[taken.nodes.len() - 1], order_field).encode()
    } else {
        String::new()
    };
    proof {
        if !(taken.more && taken.nodes@.len() > 0) {
            assert(next@ =~= Seq::<char>::empty());
        }
    }
    QueryPage { nodes: taken.nodes, next, examined: taken.examined }
}

pub proof fn lemma_finished<F: Fn(&Filter, &Node) -> Result<bool, String>>(
    eval: F,
    q: QueryView,
    nodes: Nodes,
    all: Seq<NodeView>,
    pick: spec_fn(NodeView) -> bool,
    by: RankBy,
    cursor: Option<CursorView>,
    desc: bool,
    skip: nat,
    limit: nat,
    taken: Taken,
    page: QueryPage,
)
    requires
        is_listing(all, nodes, pick, by, start_of(by, cursor), desc),
        forall|n: NodeView| live(nodes, n) && #[trigger] wanted(eval, q)(n) ==> pick(n),
        taken_from(taken, all, wanted(eval, q), judgeable(eval, q), skip, limit),
        page.nodes@ == taken.nodes@,
        page.examined == taken.examined,
        if taken.more && taken.nodes@.len() > 0 {
            points_at(page.next@, cursor_at(by, taken.nodes@.last()@))
        } else {
            page.next@ == Seq::<char>::empty()
        },
    ensures
        answers(page, nodes, wanted(eval, q), by, cursor, desc, skip, limit),
        looks_through(page, nodes, pick, by, cursor, desc, wanted(eval, q), judgeable(eval, q), skip + limit),
{
    let want = wanted(eval, q);
    assert(read_from(page, all, want, judgeable(eval, q), skip + limit));
    let after = start_of(by, cursor);
    let good = all.filter(want);
    if page.nodes@.len() > 0 {
        assert(nodes_view(page.nodes@).last() == page.nodes@.last()@);
    }
    let n = choose|n: nat| #[trigger] looked_at(all, want, skip + limit, n) && taken.examined == capped(n);
    assert(page.nodes@.len() <= n) by {
        assert(page.nodes@.len() == window(good, skip, limit).len());
        lemma_filter_len(all, want);
        if good.len() > skip + limit {
            lemma_filter_len(all.take(n as int), want);
        }
    }
    assert(page.nodes@.len() <= u64::MAX) by {
        assert(page.nodes@.len() == page.nodes.len());
    }
    lemma_filter_listing(all, nodes, pick, want, by, after, desc);
    assert(is_listing(good, nodes, want, by, after, desc));
    assert(page_of(page, good, skip, limit, by));
}

pub proof fn lemma_filter_len(rows: Seq<NodeView>, want: spec_fn(NodeView) -> bool)
    ensures
        rows.filter(want).len() <= rows.len(),
    decreases rows.len(),
{
    reveal(Seq::filter);
    if rows.len() > 0 {
        lemma_filter_len(rows.drop_last(), want);
    }
}

impl Tables {
    /// A page from a source of rows.
    pub(crate) fn page_from<'a, 'q, F: Fn(&Filter, &Node) -> Result<bool, String>>(
        &'a self,
        rows: Rows<'a>,
        q: &Query<'q>,
        cursor: &Option<Cursor>,
        order: Option<&str>,
        desc: bool,
        limit: usize,
        offset: usize,
        eval: &F,
        cache: &mut RecordCache,
        Ghost(pick): Ghost<spec_fn(NodeView) -> bool>,
    ) -> (r: Result<QueryPage, String>)
        requires
            self.inv(),
            rows.wf(self),
            rows.taken() == 0,
            old(cache).wf(),
            agrees(old(cache)@, self.heap()),
            evaluates(*eval),
            is_listing(
                rows.all(),
                self@.nodes,
                pick,
                rank_by(str_view(order), desc),
                start_of(rank_by(str_view(order), desc), cursor_option(*cursor)),
                desc,
            ),
            forall|n: NodeView| live(self@.nodes, n) && #[trigger] wanted(*eval, q@)(n) ==> pick(n),
        ensures
            final(cache).wf(),
            agrees(final(cache)@, self.heap()),
            paged(
                r,
                self@.nodes,
                *eval,
                q@,
                pick,
                rank_by(str_view(order), desc),
                cursor_option(*cursor),
                desc,
                offset as nat,
                limit as nat,
            ),
    {
        let skip: usize = if cursor.is_some() {
            0
        } else {
            offset
        };
        let ghost all = rows.all();
        let ghost by = rank_by(str_view(order), desc);
        match self.take_page(rows, q, eval, skip, limit, cache) {
            Ok(taken) => {
                let ghost t = taken;
                let page = finish_page(taken, order);
                proof {
                    lemma_finished(
                        *eval,
                        q@,
                        self@.nodes,
                        all,
                        pick,
                        by,
                        cursor_option(*cursor),
                        desc,
                        skip as nat,
                        limit as nat,
                        t,
                        page,
                    );
                }
                Ok(page)
            },
            Err(e) => {
                proof {
                    let k = choose|k: nat|
                        #[trigger] stops_before(all, *eval, q@, (skip + limit) as nat, e@, k);
                    assert(belongs(
                        self@.nodes,
                        pick,
                        by,
                        start_of(by, cursor_option(*cursor)),
                        desc,
                        all[k as int],
                    ));
                }
                Err(e)
            },
        }
    }

    /// A page in the order of addresses.
    pub(crate) fn query_by_address<'q, F: Fn(&Filter, &Node) -> Result<bool, String>>(
        &self,
        q: &Query<'q>,
        cursor: &Option<Cursor>,
        desc: bool,
        limit: usize,
        offset: usize,
        eval: &F,
        cache: &mut RecordCache,
    ) -> (r: Result<QueryPage, String>)
        requires
            self.inv(),
            old(cache).wf(),
            agrees(old(cache)@, self.heap()),
            askable(*eval, q@),
        ensures
            final(cache).wf(),
            agrees(final(cache)@, self.heap()),
            paged(
                r,
                self@.nodes,
                *eval,
                q@,
                scanned(q@.kind, q@.owner),
                RankBy::Address,
                cursor_option(*cursor),
                desc,
                offset as nat,
                limit as nat,
            ),
    {
        let start: Option<&str> = match cursor {
            Some(c) => Some(c.a.as_str()),
            None => None,
        };
        let rows = self.scan_candidates(q.kind, q.owner, start, desc);
        self.page_from(
            rows,
            q,
            cursor,
            None,
            desc,
            limit,
            offset,
            eval,
            cache,
            Ghost(scanned(q@.kind, q@.owner)),
        )
    }
}

/// What a page from the picked nodes is.
pub open spec fn paged<F: Fn(&Filter, &Node) -> Result<bool, String>>(
    r: Result<QueryPage, String>,
    nodes: Nodes,
    eval: F,
    q: QueryView,
    pick: spec_fn(NodeView) -> bool,
    by: RankBy,
    cursor: Option<CursorView>,
    desc: bool,
    offset: nat,
    limit: nat,
) -> bool {
    match r {
        Ok(page) => {
            &&& answers(page, nodes, wanted(eval, q), by, cursor, desc, to_skip(cursor, offset), limit)
            &&& looks_through(
                page,
                nodes,
                pick,
                by,
                cursor,
                desc,
                wanted(eval, q),
                judgeable(eval, q),
                to_skip(cursor, offset) + limit,
            )
        },
        Err(e) => unjudged(eval, q, nodes, e@) && stops_in(
            nodes,
            eval,
            q,
            pick,
            by,
            cursor,
            desc,
            to_skip(cursor, offset) + limit,
            e@,
        ),
    }
}

// ---------------------------------------------------------------------
// From a list of addresses
// ---------------------------------------------------------------------

/// The nodes at the addresses of a list.
pub open spec fn at_listed(list: Seq<String>) -> spec_fn(NodeView) -> bool {
    |n: NodeView| has_text(list, n.address)
}

/// How many texts of a sorted list come before `t`, or up to it.
fn split_point(list: &Vec<String>, t: &str, with_equal: bool) -> (r: usize)
    requires
        texts_sorted(list@),
    ensures
        r <= list@.len(),
        forall|i: int|
            0 <= i < r ==> text_lt((#[trigger] list@[i])@, t@) || (with_equal && list@[i]@ == t@),
        forall|i: int|
            r <= i < list@.len() ==> text_lt(t@, (#[trigger] list@[i])@) || (!with_equal && list@[i]@ == t@),
{
    let mut lo: usize = 0;
    let mut hi: usize = list.len();
    while lo < hi
        invariant
            texts_sorted(list@),
            lo <= hi <= list@.len(),
            forall|i: int|
                0 <= i < lo ==> text_lt((#[trigger] list@[i])@, t@) || (with_equal && list@[i]@ == t@),
            forall|i: int|
                hi <= i < list@.len() ==> text_lt(t@, (#[trigger] list@[i])@) || (!with_equal && list@[i]@ == t@),
        decreases hi - lo,
    {
        let mid: usize = lo + (hi - lo) / 2;
        let before: bool = match str_order(&list[mid], t) {
            Order::Less => true,
            Order::Equal => with_equal,
            Order::Greater => false,
        };
        proof {
            let m = list@[mid as int]@;
            if before {
                assert forall|i: int| 0 <= i < mid + 1 implies text_lt((#[trigger] list@[i])@, t@) || (with_equal
                    && list@[i]@ == t@) by {
                    if i < mid {
                        assert(text_lt(list@[i]@, m));
                        if m != t@ {
                            lemma_lt_transitive(utf8(list@[i]@), utf8(m), utf8(t@));
                        }
                    }
                }
            } else {
                assert forall|i: int| mid <= i < list@.len() implies text_lt(t@, (#[trigger] list@[i])@) || (
                !with_equal && list@[i]@ == t@) by {
                    if i > mid {
                        assert(text_lt(m, list@[i]@));
                        if m != t@ {
                            lemma_lt_transitive(utf8(t@), utf8(m), utf8(list@[i]@));
                        }
                    }
                }
            }
        }
        if before {
            lo = mid + 1;
        } else {
            hi = mid;
        }
    }
    lo
}

pub proof fn lemma_list_listing(
    nodes: Nodes,
    list: Seq<String>,
    from: int,
    to: int,
    after: Option<Seq<char>>,
    desc: bool,
)
    requires
        texts_sorted(list),
        0 <= from <= to <= list.len(),
        forall|i: int| 0 <= i < list.len() ==> nodes.contains_key((#[trigger] list[i])@),
        forall|a: Seq<char>| #[trigger] nodes.contains_key(a) ==> nodes[a].address == a,
        forall|i: int|
            0 <= i < list.len() ==> (from <= i < to <==> (after matches Some(a) ==> past(
                utf8(a),
                utf8((#[trigger] list[i])@),
                desc,
            ))),
    ensures
        is_listing(
            listed_nodes(nodes, list, from, to, desc),
            nodes,
            at_listed(list),
            RankBy::Address,
            text_bytes(after),
            desc,
        ),
{
    let rows = listed_nodes(nodes, list, from, to, desc);
    let pick = at_listed(list);
    let limit = text_bytes(after);
    let slot = |i: int|
        if desc {
            to - 1 - i
        } else {
            from + i
        };
    assert forall|i: int| 0 <= i < rows.len() implies belongs(
        nodes,
        pick,
        RankBy::Address,
        limit,
        desc,
        #[trigger] rows[i],
    ) && rows[i].address == list[slot(i)]@ by {
        let k = slot(i);
        assert(from <= k < to);
        assert(nodes.contains_key(list[k]@));
        assert(has_text(list, rows[i].address));
    }
    assert forall|i: int, j: int| 0 <= i < j < rows.len() implies past(
        rank(RankBy::Address, #[trigger] rows[i]),
        rank(RankBy::Address, #[trigger] rows[j]),
        desc,
    ) by {
        assert(belongs(nodes, pick, RankBy::Address, limit, desc, rows[i]));
        assert(belongs(nodes, pick, RankBy::Address, limit, desc, rows[j]));
        if desc {
            assert(text_lt(list[slot(j)]@, list[slot(i)]@));
        } else {
            assert(text_lt(list[slot(i)]@, list[slot(j)]@));
        }
    }
    assert forall|n: NodeView| #[trigger] belongs(nodes, pick, RankBy::Address, limit, desc, n) implies rows.contains(
        n,
    ) by {
        let k = choose|k: int| 0 <= k < list.len() && (#[trigger] list[k])@ == n.address;
        assert(from <= k < to);
        let i = if desc {
            to - 1 - k
        } else {
            k - from
        };
        assert(rows[i] == n);
    }
}

impl Tables {
    /// A page from the nodes at a list of addresses, in the order of these.
    pub(crate) fn query_by_text<'q, F: Fn(&Filter, &Node) -> Result<bool, String>>(
        &self,
        list: Vec<String>,
        q: &Query<'q>,
        cursor: &Option<Cursor>,
        desc: bool,
        limit: usize,
        offset: usize,
        eval: &F,
        cache: &mut RecordCache,
    ) -> (r: Result<QueryPage, String>)
        requires
            self.inv(),
            old(cache).wf(),
            agrees(old(cache)@, self.heap()),
            askable(*eval, q@),
            texts_sorted(list@),
            forall|i: int| 0 <= i < list@.len() ==> self@.nodes.contains_key((#[trigger] list@[i])@),
            forall|n: NodeView|
                live(self@.nodes, n) && #[trigger] wanted(*eval, q@)(n) ==> has_text(list@, n.address),
        ensures
            final(cache).wf(),
            agrees(final(cache)@, self.heap()),
            paged(
                r,
                self@.nodes,
                *eval,
                q@,
                at_listed(list@),
                RankBy::Address,
                cursor_option(*cursor),
                desc,
                offset as nat,
                limit as nat,
            ),
    {
        let ghost nodes = self@.nodes;
        let (from, to): (usize, usize) = match cursor {
            Some(c) => if desc {
                (0, split_point(&list, &c.a, false))
            } else {
                (split_point(&list, &c.a, true), list.len())
            },
            None => (0, list.len()),
        };
        let ghost after = match cursor_option(*cursor) {
            Some(c) => Some(c.a),
            None => None,
        };
        let ghost pick = at_listed(list@);
        proof {
            lemma_nodes_at(self.primary@, nodes, self.store@, Seq::empty());
            assert forall|i: int| 0 <= i < list@.len() implies (from <= i < to <==> (after matches Some(a) ==> past(
                utf8(a),
                utf8((#[trigger] list@[i])@),
                desc,
            ))) by {
                if after is Some {
                    lemma_lt_total(utf8(after->0), utf8(list@[i]@));
                    lemma_utf8_injective(after->0, list@[i]@);
                }
            }
            lemma_list_listing(nodes, list@, from as int, to as int, after, desc);
        }
        let rows = self.scan_list(list, from, to, desc);
        self.page_from(rows, q, cursor, None, desc, limit, offset, eval, cache, Ghost(pick))
    }
}

} // verus!
