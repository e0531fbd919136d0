//! Pages in an order that no index keeps: gathering what is wanted, and
//! sorting it.

use vstd::prelude::*;

use crate::btree::walker::past;
use crate::bytes::{bytes_lt, compare, lemma_lt_common_prefix, lemma_lt_total, lemma_lt_transitive, Order};
use crate::cache::RecordCache;
use crate::cursor::Cursor;
use crate::filter::{evaluates, has_value, pins_hold, verdict, Filter};
use crate::json::{field, field_of};
use crate::keys::{lemma_value_key, ordering_key};
use crate::order::{encode_order_value, lemma_code_prefix, order_code};
use crate::sort::{is_range, ordered, sort_positions};
use crate::tables::candidates::{selection_of, text_helps, text_narrowed};
use crate::tables::lower::nodes_view;
use crate::tables::model::{lemma_nodes_at, DbView, Nodes};
use crate::tables::query::{
    accepted, all_judged, answers, askable, at_listed, capped, cursor_option, finish_page, lemma_filter_len,
    lemma_filter_listing, lemma_filter_split, lemma_filter_step, lemma_list_listing, judgeable, judged, judged_upto,
    page_of, possible, rank_by, start_of, stops_at, stops_before, to_skip, unjudged, wanted, window, Query, QueryPage,
    QueryView, Taken,
};
use crate::tables::rows::{belongs, is_listing, live, rank, scanned, under_prefix, RankBy, Rows};
use crate::tables::{agrees, Tables};
use crate::text::{lemma_utf8_injective, utf8};
use crate::types::{Node, NodeView};

verus! {

// ---------------------------------------------------------------------
// Where to look
// ---------------------------------------------------------------------

/// The rows are nodes in the order of their addresses, and every node wanted
/// is among them.
pub open spec fn is_source(rows: Seq<NodeView>, nodes: Nodes, want: spec_fn(NodeView) -> bool) -> bool {
    exists|pick: spec_fn(NodeView) -> bool| #[trigger] source_by(rows, nodes, pick, want)
}

pub open spec fn source_by(
    rows: Seq<NodeView>,
    nodes: Nodes,
    pick: spec_fn(NodeView) -> bool,
    want: spec_fn(NodeView) -> bool,
) -> bool {
    &&& is_listing(rows, nodes, pick, RankBy::Address, None, false)
    &&& forall|n: NodeView| live(nodes, n) && #[trigger] want(n) ==> pick(n)
}

/// The nodes with the value that the condition pins down, at place `p` of
/// what it pins, in the index at `x`.
pub open spec fn of_value(db: DbView, q: QueryView, x: int, p: int) -> spec_fn(NodeView) -> bool {
    under_prefix(db.data[x].kind, db.data[x].field, order_code(Some(q.filter->0.equals@[p].1@)))
}

/// The rows are the source for a query that keeps no order of its own.
pub open spec fn is_narrowed(
    rows: Seq<NodeView>,
    db: DbView,
    q: QueryView,
    want: spec_fn(NodeView) -> bool,
    cap: nat,
) -> bool {
    match selection_of(db, q.kind, q.filter) {
        Some((x, p)) => source_by(rows, db.nodes, of_value(db, q, x, p), want),
        None => {
            ||| !text_helps(db, q.kind, q.filter, cap) && source_by(rows, db.nodes, scanned(q.kind, q.owner), want)
            ||| q.kind is Some && q.filter is Some && exists|list: Seq<String>| {
                &&& list.len() <= cap
                &&& text_narrowed(db, q.kind->0, q.filter->0, list)
                &&& #[trigger] source_by(rows, db.nodes, at_listed(list), want)
            }
        },
    }
}

/// The wanted rows of a source are the listing of them.
pub proof fn lemma_source(rows: Seq<NodeView>, nodes: Nodes, want: spec_fn(NodeView) -> bool)
    requires
        is_source(rows, nodes, want),
    ensures
        is_listing(rows.filter(want), nodes, want, RankBy::Address, None, false),
        forall|i: int| 0 <= i < rows.len() ==> live(nodes, #[trigger] rows[i]),
{
    let pick = choose|pick: spec_fn(NodeView) -> bool| #[trigger] source_by(rows, nodes, pick, want);
    lemma_filter_listing(rows, nodes, pick, want, RankBy::Address, None, false);
    assert forall|i: int| 0 <= i < rows.len() implies live(nodes, #[trigger] rows[i]) by {
        assert(belongs(nodes, pick, RankBy::Address, None, false, rows[i]));
    }
}

/// Nodes with one value in a field are in the order of their addresses.
pub proof fn lemma_one_value(
    rows: Seq<NodeView>,
    nodes: Nodes,
    pick: spec_fn(NodeView) -> bool,
    name: Seq<char>,
    code: Seq<u8>,
    desc: bool,
)
    requires
        is_listing(rows, nodes, pick, RankBy::Field(name), None, desc),
        forall|n: NodeView| #[trigger] pick(n) ==> order_code(field_of(n.data, name)) == code,
    ensures
        is_listing(rows, nodes, pick, RankBy::Address, None, desc),
{
    let by = RankBy::Field(name);
    assert forall|i: int| 0 <= i < rows.len() implies belongs(
        nodes,
        pick,
        RankBy::Address,
        None,
        desc,
        #[trigger] rows[i],
    ) by {
        assert(belongs(nodes, pick, by, None, desc, rows[i]));
    }
    assert forall|i: int, j: int| 0 <= i < j < rows.len() implies past(
        rank(RankBy::Address, #[trigger] rows[i]),
        rank(RankBy::Address, #[trigger] rows[j]),
        desc,
    ) by {
        assert(belongs(nodes, pick, by, None, desc, rows[i]));
        assert(belongs(nodes, pick, by, None, desc, rows[j]));
        assert(past(rank(by, rows[i]), rank(by, rows[j]), desc));
        let (a, b) = (rows[i], rows[j]);
        lemma_lt_common_prefix(code, utf8(a.address), utf8(b.address));
        lemma_lt_common_prefix(code, utf8(b.address), utf8(a.address));
    }
    assert forall|n: NodeView| #[trigger] belongs(nodes, pick, RankBy::Address, None, desc, n) implies rows.contains(
        n,
    ) by {
        assert(belongs(nodes, pick, by, None, desc, n));
    }
}

impl Tables {
    /// A source for a query that keeps no order of its own: the entries of a
    /// value that the condition pins down, or the candidates of a text
    /// index, or else a scan.
    pub(crate) fn narrowed<'a, 'q, F: Fn(&Filter, &Node) -> Result<bool, String>>(
        &'a self,
        q: &Query<'q>,
        cap: usize,
        eval: &F,
    ) -> (r: Rows<'a>)
        requires
            self.inv(),
            askable(*eval, q@),
        ensures
            r.wf(self),
            r.taken() == 0,
            is_source(r.all(), self@.nodes, wanted(*eval, q@)),
            is_narrowed(r.all(), self@, q@, wanted(*eval, q@), cap as nat),
            forall|n: NodeView| live(self@.nodes, n) && #[trigger] possible(q@, n) ==> r.all().contains(n),
    {
        let ghost nodes = self@.nodes;
        let ghost want = wanted(*eval, q@);
        if let Some((x, p)) = self.equality_selection(q.kind, q.filter) {
            if let Some(f) = q.filter {
                let value = &f.equals[p].1;
                let prefix = encode_order_value(Some(value));
                let ghost d = self@.data[x as int];
                let ghost prefix_bytes = prefix@;
                let ghost pick = under_prefix(d.kind, d.field, prefix@);
                let rows = self.scan_data(x, prefix, None, false);
                proof {
                    assert forall|n: NodeView| #[trigger] pick(n) implies order_code(field_of(n.data, d.field))
                        == prefix_bytes by {
                        lemma_code_prefix(field_of(n.data, d.field), utf8(n.address), Some(value@));
                    }
                    lemma_one_value(rows.all(), nodes, pick, d.field, prefix_bytes, false);
                    assert forall|n: NodeView| live(nodes, n) && #[trigger] want(n) implies pick(n) by {
                        assert(verdict(*eval, *f, n) == Ok::<bool, Seq<char>>(true));
                        assert(pins_hold(*f, n));
                        assert(has_value(n, f.equals@[p as int].0@, f.equals@[p as int].1@));
                        lemma_code_prefix(field_of(n.data, d.field), utf8(n.address), Some(value@));
                    }
                    assert(source_by(rows.all(), nodes, pick, want));
                    assert forall|n: NodeView| live(nodes, n) && #[trigger] possible(q@, n) implies rows.all().contains(n) by {
                        assert(pins_hold(*f, n));
                        assert(has_value(n, f.equals@[p as int].0@, f.equals@[p as int].1@));
                        lemma_code_prefix(field_of(n.data, d.field), utf8(n.address), Some(value@));
                        assert(belongs(nodes, pick, RankBy::Address, None, false, n));
                    }
                }
                return rows;
            }
        }
        if let Some(list) = self.text_candidate_plan(q.kind, q.filter, cap) {
            let n: usize = list.len();
            proof {
                lemma_nodes_at(self.primary@, nodes, self.store@, Seq::empty());
                lemma_list_listing(nodes, list@, 0, n as int, None, false);
                let pick = at_listed(list@);
                let f = q@.filter->0;
                assert forall|n: NodeView| live(nodes, n) && #[trigger] want(n) implies pick(n) by {
                    assert(verdict(*eval, f, n) == Ok::<bool, Seq<char>>(true));
                    assert(pins_hold(f, n));
                }
                let rows = crate::tables::rows::listed_nodes(nodes, list@, 0, n as int, false);
                assert(source_by(rows, nodes, pick, want));
                assert forall|n: NodeView| live(nodes, n) && #[trigger] possible(q@, n) implies rows.contains(n) by {
                    assert(pins_hold(f, n));
                    assert(belongs(nodes, pick, RankBy::Address, None, false, n));
                }
            }
            return self.scan_list(list, 0, n, false);
        }
        let rows = self.scan_candidates(q.kind, q.owner, None, false);
        proof {
            let pick = scanned(q@.kind, q@.owner);
            assert(source_by(rows.all(), nodes, pick, want));
            assert forall|n: NodeView| live(nodes, n) && #[trigger] possible(q@, n) implies rows.all().contains(n) by {
                assert(belongs(nodes, pick, RankBy::Address, None, false, n));
            }
        }
        rows
    }
}

// ---------------------------------------------------------------------
// Gathering and sorting
// ---------------------------------------------------------------------

/// Why rows could not be gathered.
#[derive(Debug)]
pub enum GatherError {
    Condition { message: String },
    /// There are more than allowed.
    TooMany,
}

impl Tables {
    /// The wanted rows of a source, up to `cap` of them; and how many rows
    /// were looked at.
    pub(crate) fn gather<'a, 'q, F: Fn(&Filter, &Node) -> Result<bool, String>>(
        &'a self,
        rows: Rows<'a>,
        q: &Query<'q>,
        eval: &F,
        cap: usize,
        cache: &mut RecordCache,
    ) -> (r: Result<(Vec<Node>, u64), GatherError>)
        requires
            self.inv(),
            rows.wf(self),
            rows.taken() == 0,
            old(cache).wf(),
            agrees(old(cache)@, self.heap()),
            evaluates(*eval),
        ensures
            final(cache).wf(),
            agrees(final(cache)@, self.heap()),
            match r {
                Ok((nodes, examined)) => {
                    &&& nodes_view(nodes@) == rows.all().filter(wanted(*eval, q@))
                    &&& judged_upto(rows.all(), judgeable(*eval, q@), rows.all().len())
                    &&& nodes@.len() <= cap
                    &&& examined == capped(rows.all().len())
                },
                Err(GatherError::Condition { message }) => stops_at(rows.all(), *eval, q@, cap as nat, message@),
                Err(GatherError::TooMany) => rows.all().filter(wanted(*eval, q@)).len() > cap,
            },
    {
        let ghost all = rows.all();
        let ghost want = wanted(*eval, q@);
        let mut source = rows;
        let mut out: Vec<Node> = Vec::new();
        let mut examined: u64 = 0;
        proof {
            reveal(Seq::filter);
            assert(all.take(0).filter(want) =~= Seq::<NodeView>::empty());
            assert(nodes_view(out@) =~= Seq::<NodeView>::empty());
        }
        loop
            invariant
                self.inv(),
                cache.wf(),
                agrees(cache@, self.heap()),
                evaluates(*eval),
                source.wf(self),
                source.all() == all,
                rows.all() == all,
                want == wanted(*eval, q@),
                source.taken() <= all.len(),
                judged_upto(all, judgeable(*eval, q@), source.taken()),
                examined == capped(source.taken()),
                out@.len() <= cap,
                nodes_view(out@) == all.take(source.taken() as int).filter(want),
            ensures
                source.taken() == all.len(),
            decreases all.len() - source.taken(),
        {
            let ghost at = source.taken() as int;
            let node = match source.next(self, cache) {
                Some(node) => node,
                None => {
                    break;
                },
            };
            if examined < u64::MAX {
                examined = examined + 1;
            }
            proof {
                lemma_filter_step(all, want, at);
            }
            match judged(eval, q, &node) {
                Ok(true) => {
                    proof {
                        assert(want(all[at]));
                    }
                    if out.len() >= cap {
                        proof {
                            lemma_filter_split(all, want, at + 1);
                        }
                        return Err(GatherError::TooMany);
                    }
                    let ghost before = out@;
                    out.push(node);
                    proof {
                        assert(nodes_view(out@) =~= nodes_view(before).push(all[at]));
                    }
                },
                Ok(false) => {
                    proof {
                        assert(!want(all[at]));
                    }
                },
                Err(message) => {
                    proof {
                        assert(accepted(*eval, q@, all[at]) == Err::<bool, Seq<char>>(message@));
                        assert(stops_before(all, *eval, q@, cap as nat, message@, at as nat));
                    }
                    return Err(GatherError::Condition { message });
                },
            }
        }
        proof {
            assert(all.take(all.len() as int) =~= all);
        }
        Ok((out, examined))
    }
}

/// Nodes at different addresses stand at different places.
proof fn lemma_ranks_differ(by: RankBy, n: NodeView, m: NodeView)
    requires
        n.address != m.address,
    ensures
        rank(by, n) != rank(by, m),
{
    lemma_utf8_injective(n.address, m.address);
    match by {
        RankBy::Address => {},
        RankBy::Field(f) => {
            lemma_value_key(field_of(n.data, f), n.address, field_of(m.data, f), m.address);
        },
        RankBy::Last(f) => {
            let (v, w) = (field_of(n.data, f), field_of(m.data, f));
            lemma_value_key(v, n.address, w, m.address);
            let (x, y) = (rank(by, n), rank(by, m));
            if x == y {
                assert(x[0] == y[0]);
                assert(v is Some ==> order_code(v)[0] != 0);
                assert(w is Some ==> order_code(w)[0] != 0);
                if v is None && w is None {
                    assert(x.skip(1) =~= utf8(n.address));
                    assert(y.skip(1) =~= utf8(m.address));
                }
            }
        },
    }
}

/// Where all rows of a source are judged that has every node that may be
/// asked for, all of these are.
pub proof fn lemma_all_judged(rows: Seq<NodeView>, nodes: Nodes, q: QueryView, sure: spec_fn(NodeView) -> bool)
    requires
        judged_upto(rows, sure, rows.len()),
        forall|n: NodeView| live(nodes, n) && #[trigger] possible(q, n) ==> rows.contains(n),
    ensures
        all_judged(nodes, q, sure),
{
    assert forall|n: NodeView| live(nodes, n) && #[trigger] possible(q, n) implies sure(n) by {
        let i = choose|i: int| 0 <= i < rows.len() && rows[i] == n;
        assert(sure(rows[i]));
    }
}

/// The nodes of one listing in the order of another.
proof fn lemma_resorted(
    rows: Seq<NodeView>,
    order: Seq<usize>,
    keys: Seq<Vec<u8>>,
    nodes: Nodes,
    want: spec_fn(NodeView) -> bool,
    by0: RankBy,
    by: RankBy,
    desc: bool,
)
    requires
        is_listing(rows, nodes, want, by0, None, false),
        rows.len() <= usize::MAX,
        is_range(order, 0, rows.len() as int),
        keys.len() == rows.len(),
        forall|i: int| 0 <= i < rows.len() ==> (#[trigger] keys[i])@ == rank(by, rows[i]),
        ordered(keys, order),
    ensures
        is_listing(resorted(rows, order, desc), nodes, want, by, None, desc),
{
    let out = resorted(rows, order, desc);
    let slot = |i: int|
        if desc {
            order.len() - 1 - i
        } else {
            i
        };
    assert forall|i: int| 0 <= i < out.len() implies 0 <= order[slot(i)] < rows.len() && #[trigger] out[i] == rows[order[slot(
        i,
    )] as int] by {
        assert(order.contains(order[slot(i)]));
    }
    assert forall|i: int| 0 <= i < out.len() implies belongs(nodes, want, by, None, desc, #[trigger] out[i]) by {
        let k = order[slot(i)] as int;
        assert(out[i] == rows[k]);
        assert(belongs(nodes, want, by0, None, false, rows[k]));
    }
    assert forall|i: int, j: int| 0 <= i < j < out.len() implies past(
        rank(by, #[trigger] out[i]),
        rank(by, #[trigger] out[j]),
        desc,
    ) by {
        let (si, sj) = (slot(i), slot(j));
        let (a, b) = (order[si] as int, order[sj] as int);
        assert(out[i] == rows[a] && out[j] == rows[b]);
        assert(a != b);
        assert(rows[a] != rows[b]) by {
            if a < b {
                assert(past(rank(by0, rows[a]), rank(by0, rows[b]), false));
                lemma_lt_total(rank(by0, rows[a]), rank(by0, rows[b]));
            } else {
                assert(past(rank(by0, rows[b]), rank(by0, rows[a]), false));
                lemma_lt_total(rank(by0, rows[a]), rank(by0, rows[b]));
            }
        }
        assert(belongs(nodes, want, by0, None, false, rows[a]));
        assert(belongs(nodes, want, by0, None, false, rows[b]));
        assert(rows[a].address != rows[b].address);
        lemma_ranks_differ(by, rows[a], rows[b]);
        assert(keys[a]@ != keys[b]@);
        lemma_lt_total(keys[a]@, keys[b]@);
        if desc {
            assert(!bytes_lt(keys[order[si] as int]@, keys[order[sj] as int]@));
        } else {
            assert(!bytes_lt(keys[order[sj] as int]@, keys[order[si] as int]@));
        }
    }
    assert forall|n: NodeView| #[trigger] belongs(nodes, want, by, None, desc, n) implies out.contains(n) by {
        assert(belongs(nodes, want, by0, None, false, n));
        assert(rows.contains(n));
        let k = choose|k: int| 0 <= k < rows.len() && rows[k] == n;
        assert(order.contains(k as usize));
        let w = choose|w: int| 0 <= w < order.len() && order[w] == k as usize;
        let i = if desc {
            order.len() - 1 - w
        } else {
            w
        };
        assert(out[i] == n);
    }
}

/// Rows by their positions in order, or the other way round.
pub open spec fn resorted(rows: Seq<NodeView>, order: Seq<usize>, desc: bool) -> Seq<NodeView> {
    Seq::new(
        order.len(),
        |i: int|
            rows[order[if desc {
                order.len() - 1 - i
            } else {
                i
            }] as int],
    )
}

/// What follows a place in a listing is the listing from there on.
pub proof fn lemma_listing_after(
    rows: Seq<NodeView>,
    nodes: Nodes,
    want: spec_fn(NodeView) -> bool,
    by: RankBy,
    from: Option<Seq<u8>>,
    after: Seq<u8>,
    desc: bool,
    start: int,
)
    requires
        is_listing(rows, nodes, want, by, from, desc),
        from matches Some(s) ==> past(s, after, desc),
        0 <= start <= rows.len(),
        forall|i: int| 0 <= i < start ==> !past(after, rank(by, #[trigger] rows[i]), desc),
        start < rows.len() ==> past(after, rank(by, rows[start]), desc),
    ensures
        is_listing(rows.skip(start), nodes, want, by, Some(after), desc),
{
    let out = rows.skip(start);
    assert forall|i: int| 0 <= i < out.len() implies belongs(nodes, want, by, Some(after), desc, #[trigger] out[i]) by {
        assert(out[i] == rows[start + i]);
        assert(belongs(nodes, want, by, from, desc, rows[start + i]));
        if i > 0 {
            assert(past(rank(by, rows[start]), rank(by, rows[start + i]), desc));
            lemma_past_transitive(after, rank(by, rows[start]), rank(by, rows[start + i]), desc);
        }
    }
    assert forall|i: int, j: int| 0 <= i < j < out.len() implies past(
        rank(by, #[trigger] out[i]),
        rank(by, #[trigger] out[j]),
        desc,
    ) by {
        assert(out[i] == rows[start + i] && out[j] == rows[start + j]);
    }
    assert forall|n: NodeView| #[trigger] belongs(nodes, want, by, Some(after), desc, n) implies out.contains(n) by {
        if from is Some {
            lemma_past_transitive(from->0, after, rank(by, n), desc);
        }
        assert(belongs(nodes, want, by, from, desc, n));
        assert(rows.contains(n));
        let k = choose|k: int| 0 <= k < rows.len() && rows[k] == n;
        assert(k >= start);
        assert(out[k - start] == n);
    }
}

proof fn lemma_past_transitive(a: Seq<u8>, b: Seq<u8>, c: Seq<u8>, desc: bool)
    requires
        past(a, b, desc),
        past(b, c, desc),
    ensures
        past(a, c, desc),
{
    if desc {
        lemma_lt_transitive(c, b, a);
    } else {
        lemma_lt_transitive(a, b, c);
    }
}

impl Tables {
    /// A page in the order of a field that no index keeps.
    #[verifier::rlimit(50)]
    #[verifier::spinoff_prover]
    pub(crate) fn query_sorted<'q, F: Fn(&Filter, &Node) -> Result<bool, String>>(
        &self,
        name: &str,
        q: &Query<'q>,
        cursor: &Option<Cursor>,
        desc: bool,
        limit: usize,
        offset: usize,
        eval: &F,
        cap: usize,
        cache: &mut RecordCache,
    ) -> (r: Result<QueryPage, GatherError>)
        requires
            self.inv(),
            old(cache).wf(),
            agrees(old(cache)@, self.heap()),
            askable(*eval, q@),
        ensures
            final(cache).wf(),
            agrees(final(cache)@, self.heap()),
            match r {
                Ok(page) => answers(
                    page,
                    self@.nodes,
                    wanted(*eval, q@),
                    rank_by(Some(name@), desc),
                    cursor_option(*cursor),
                    desc,
                    to_skip(cursor_option(*cursor), offset as nat),
                    limit as nat,
                ) && all_judged(self@.nodes, q@, judgeable(*eval, q@)) && !too_many(
                    self@.nodes,
                    wanted(*eval, q@),
                    cap as nat,
                ) && exists|rows: Seq<NodeView>|
                    #[trigger] is_narrowed(rows, self@, q@, wanted(*eval, q@), cap as nat) && page.examined == capped(
                        rows.len(),
                    ),
                Err(GatherError::Condition { message }) => unjudged(*eval, q@, self@.nodes, message@) && exists|
                    rows: Seq<NodeView>,
                |
                    #[trigger] is_narrowed(rows, self@, q@, wanted(*eval, q@), cap as nat) && stops_at(
                        rows,
                        *eval,
                        q@,
                        cap as nat,
                        message@,
                    ),
                Err(GatherError::TooMany) => too_many(self@.nodes, wanted(*eval, q@), cap as nat),
            },
    {
        let ghost nodes = self@.nodes;
        let ghost want = wanted(*eval, q@);
        let ghost by = rank_by(Some(name@), desc);
        let rows = self.narrowed(q, cap, eval);
        let ghost all = rows.all();
        proof {
            lemma_source(all, nodes, want);
        }
        let ghost good = all.filter(want);
        let (found, examined) = match self.gather(rows, q, eval, cap, cache) {
            Ok(x) => x,
            Err(GatherError::Condition { message }) => {
                proof {
                    let k = choose|k: nat| #[trigger] stops_before(all, *eval, q@, cap as nat, message@, k);
                    assert(live(nodes, all[k as int]));
                    assert(is_narrowed(all, self@, q@, want, cap as nat));
                }
                return Err(GatherError::Condition { message });
            },
            Err(GatherError::TooMany) => {
                proof {
                    assert(wanted_rows(good, nodes, want));
                }
                return Err(GatherError::TooMany);
            },
        };
        proof {
            lemma_all_judged(all, nodes, q@, judgeable(*eval, q@));
            assert forall|rows: Seq<NodeView>| #[trigger] wanted_rows(rows, nodes, want) implies rows.len() <= cap by {
                crate::tables::rows::law_listing_is_unique(rows, good, nodes, want, RankBy::Address, None, false);
            }
        }
        let mut keys: Vec<Vec<u8>> = Vec::new();
        let mut i: usize = 0;
        while i < found.len()
            invariant
                i <= found@.len(),
                keys@.len() == i,
                nodes_view(found@) == good,
                forall|j: int| 0 <= j < i ==> (#[trigger] keys@[j])@ == rank(by, good[j]),
                by == rank_by(Some(name@), desc),
            decreases found.len() - i,
        {
            let node = &found[i];
            let value = field(&node.data, name);
            proof {
                assert(good[i as int] == found@[i as int]@);
            }
            keys.push(ordering_key(value.as_ref(), &node.address, desc));
            i = i + 1;
        }
        let order = sort_positions(&keys);
        let total: usize = order.len();
        let ghost sorted = resorted(good, order@, desc);
        proof {
            assert(good.len() == found@.len());
            lemma_resorted(good, order@, keys@, nodes, want, RankBy::Address, by, desc);
            assert forall|i: int| 0 <= i < order@.len() implies (#[trigger] order@[i]) < found@.len() by {
                assert(order@.contains(order@[i]));
            }
        }
        let start: usize = match cursor {
            Some(c) => {
                let at = ordering_key(c.o.as_ref(), &c.a, desc);
                let s: usize = first_past(&keys, &order, &at, desc);
                proof {
                    assert forall|i: int| 0 <= i < s implies !past(at@, rank(by, #[trigger] sorted[i]), desc) by {
                        assert(rank(by, sorted[i]) == keys@[slot_of(order@, desc, i) as int]@);
                    }
                    if s < sorted.len() {
                        assert(rank(by, sorted[s as int]) == keys@[slot_of(order@, desc, s as int) as int]@);
                    }
                    lemma_listing_after(sorted, nodes, want, by, None, at@, desc, s as int);
                }
                s
            },
            None => if offset < total {
                offset
            } else {
                total
            },
        };
        let ghost skip = to_skip(cursor_option(*cursor), offset as nat);
        let ghost listing = if cursor is Some {
            sorted.skip(start as int)
        } else {
            sorted
        };
        let mut out: Vec<Node> = Vec::new();
        let mut at: usize = start;
        while at < total && out.len() < limit
            invariant
                start <= at <= total,
                total == order@.len(),
                at == start + out@.len(),
                out@.len() <= limit,
                nodes_view(found@) == good,
                good.len() == found@.len(),
                sorted == resorted(good, order@, desc),
                forall|i: int| 0 <= i < order@.len() ==> (#[trigger] order@[i]) < found@.len(),
                nodes_view(out@) == sorted.subrange(start as int, at as int),
            decreases total - at,
        {
            let k: usize = if desc {
                order[total - 1 - at]
            } else {
                order[at]
            };
            let ghost before = out@;
            out.push(found[k].copy());
            proof {
                assert(sorted[at as int] == good[k as int]);
                assert(good[k as int] == found@[k as int]@);
                assert(nodes_view(out@) =~= nodes_view(before).push(sorted[at as int]));
                assert(sorted.subrange(start as int, at + 1) =~= sorted.subrange(start as int, at as int).push(
                    sorted[at as int],
                ));
            }
            at = at + 1;
        }
        let more: bool = at < total;
        proof {
            assert(is_listing(listing, nodes, want, by, start_of(by, cursor_option(*cursor)), desc));
            assert(nodes_view(out@) =~= window(listing, skip, limit as nat));
            assert(more ==> listing.len() > skip + limit);
            assert(listing.len() > skip + limit ==> more);
        }
        let taken = Taken { nodes: out, more, examined };
        let ghost t = taken;
        let page = finish_page(taken, Some(name));
        proof {
            lemma_filter_len(all, want);
            if page.nodes@.len() > 0 {
                assert(nodes_view(page.nodes@).last() == page.nodes@.last()@);
            }
            assert(page.nodes@.len() == page.nodes.len());
            assert(page_of(page, listing, skip, limit as nat, by));
        }
        Ok(page)
    }
}

/// The rows are the nodes wanted, in the order of their addresses.
pub open spec fn wanted_rows(rows: Seq<NodeView>, nodes: Nodes, want: spec_fn(NodeView) -> bool) -> bool {
    is_listing(rows, nodes, want, RankBy::Address, None, false)
}

/// The number is that of the nodes wanted.
pub open spec fn is_count(n: u64, nodes: Nodes, want: spec_fn(NodeView) -> bool) -> bool {
    exists|rows: Seq<NodeView>| #[trigger] wanted_rows(rows, nodes, want) && n == capped(rows.len())
}

/// More than `cap` nodes are wanted.
pub open spec fn too_many(nodes: Nodes, want: spec_fn(NodeView) -> bool, cap: nat) -> bool {
    exists|rows: Seq<NodeView>| #[trigger] wanted_rows(rows, nodes, want) && rows.len() > cap
}

/// The position that comes at place `i` of an order.
spec fn slot_of(order: Seq<usize>, desc: bool, i: int) -> usize {
    order[if desc {
        order.len() - 1 - i
    } else {
        i
    }]
}

/// The first place of an order whose key is past `at`.
fn first_past(keys: &Vec<Vec<u8>>, order: &Vec<usize>, at: &Vec<u8>, desc: bool) -> (r: usize)
    requires
        forall|i: int| 0 <= i < order@.len() ==> (#[trigger] order@[i]) < keys@.len(),
    ensures
        r <= order@.len(),
        forall|i: int|
            0 <= i < r ==> !past(at@, keys@[#[trigger] slot_of(order@, desc, i) as int]@, desc),
        r < order@.len() ==> past(at@, keys@[slot_of(order@, desc, r as int) as int]@, desc),
{
    let n: usize = order.len();
    let mut i: usize = 0;
    while i < n
        invariant
            i <= n,
            n == order@.len(),
            forall|i: int| 0 <= i < order@.len() ==> (#[trigger] order@[i]) < keys@.len(),
            forall|j: int|
                0 <= j < i ==> !past(at@, keys@[#[trigger] slot_of(order@, desc, j) as int]@, desc),
        decreases n - i,
    {
        let k: usize = if desc {
            order[n - 1 - i]
        } else {
            order[i]
        };
        assert(k == slot_of(order@, desc, i as int));
        match compare(&keys[k], at) {
            Order::Less => if desc {
                return i;
            },
            Order::Equal => {},
            Order::Greater => if !desc {
                return i;
            },
        }
        proof {
            lemma_lt_total(keys@[k as int]@, at@);
        }
        i = i + 1;
    }
    n
}

} // verus!
