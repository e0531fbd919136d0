//! Counting and folding what a query asks for.

use vstd::prelude::*;

use crate::cache::RecordCache;
use crate::filter::{evaluates, Filter};
use crate::json::{field, field_of, json_view, Json, JsonView};
use crate::tables::model::DbView;
use crate::tables::query::{
    accepted, all_judged, askable, capped, judgeable, judged, judged_upto, lemma_filter_len, lemma_filter_split,
    lemma_filter_step, possible, stops_at, stops_before, unjudged, wanted, Query, QueryView,
};
use crate::tables::rows::{belongs, live, scanned, RankBy, Rows};
use crate::tables::sorted::{is_narrowed, lemma_all_judged, lemma_source, source_by, wanted_rows};
use crate::tables::{agrees, Tables};
use crate::text::str_view;
use crate::types::{Node, NodeView};

verus! {

// ---------------------------------------------------------------------
// One fold
// ---------------------------------------------------------------------

/// Why a fold was refused.
#[derive(Debug)]
pub enum FoldError {
    /// The condition could not be evaluated.
    Condition { message: String },
    /// A value cannot be folded.
    Value { message: String },
    /// More groups than allowed.
    ScanLimit { max: usize },
    /// More values were asked for than allowed.
    Values { len: usize, max: usize },
    /// An earlier change went wrong half way; the database has to be opened
    /// again.
    Failed,
}

/// The value of a field, or nothing where no field is folded.
pub open spec fn folded_value(name: Seq<char>, n: NodeView) -> Option<JsonView> {
    field_of(n.data, name)
}

/// Folding a value takes one state to the other.
pub open spec fn steps_to<A, S: Fn(A, Option<Json>) -> Result<A, String>>(
    step: S,
    a: A,
    v: Option<JsonView>,
    b: A,
) -> bool {
    exists|j: Option<Json>| json_view(j) == v && #[trigger] call_ensures(step, (a, j), Ok::<A, String>(b))
}

/// Folding a value is refused.
pub open spec fn step_refused<A, S: Fn(A, Option<Json>) -> Result<A, String>>(
    step: S,
    a: A,
    v: Option<JsonView>,
    message: Seq<char>,
) -> bool {
    exists|j: Option<Json>, e: String|
        json_view(j) == v && e@ == message && #[trigger] call_ensures(step, (a, j), Err::<A, String>(e))
}

/// Every value can be folded into every state.
pub open spec fn steps<A, S: Fn(A, Option<Json>) -> Result<A, String>>(step: S) -> bool {
    forall|a: A, j: Option<Json>| #[trigger] call_requires(step, (a, j))
}

/// The states that folding a field of the rows goes through.
pub open spec fn goes_through<A, S: Fn(A, Option<Json>) -> Result<A, String>>(
    step: S,
    init: A,
    name: Seq<char>,
    rows: Seq<NodeView>,
    states: Seq<A>,
) -> bool {
    &&& states.len() == rows.len() + 1
    &&& states[0] == init
    &&& forall|i: int|
        0 <= i < rows.len() ==> steps_to(step, #[trigger] states[i], folded_value(name, rows[i]), states[i + 1])
}

/// Folding a field of the rows, one after the other, ends in `state`; where
/// no field is given, nothing is folded.
pub open spec fn folds_to<A, S: Fn(A, Option<Json>) -> Result<A, String>>(
    step: S,
    init: A,
    name: Option<Seq<char>>,
    rows: Seq<NodeView>,
    state: A,
) -> bool {
    match name {
        None => state == init,
        Some(name) => exists|states: Seq<A>|
            #[trigger] goes_through(step, init, name, rows, states) && states.last() == state,
    }
}

pub proof fn lemma_fold_none<A, S: Fn(A, Option<Json>) -> Result<A, String>>(step: S, init: A, name: Option<Seq<char>>)
    ensures
        folds_to(step, init, name, Seq::empty(), init),
{
    if name is Some {
        assert(goes_through(step, init, name->0, Seq::empty(), seq![init]));
    }
}

pub proof fn lemma_fold_push<A, S: Fn(A, Option<Json>) -> Result<A, String>>(
    step: S,
    init: A,
    name: Seq<char>,
    rows: Seq<NodeView>,
    a: A,
    n: NodeView,
    b: A,
)
    requires
        folds_to(step, init, Some(name), rows, a),
        steps_to(step, a, folded_value(name, n), b),
    ensures
        folds_to(step, init, Some(name), rows.push(n), b),
{
    let states = choose|states: Seq<A>|
        #[trigger] goes_through(step, init, name, rows, states) && states.last() == a;
    let more = states.push(b);
    let all = rows.push(n);
    assert forall|i: int| 0 <= i < all.len() implies steps_to(
        step,
        #[trigger] more[i],
        folded_value(name, all[i]),
        more[i + 1],
    ) by {
        if i < rows.len() {
            assert(more[i] == states[i] && more[i + 1] == states[i + 1] && all[i] == rows[i]);
        } else {
            assert(more[i] == states.last());
        }
    }
    assert(goes_through(step, init, name, all, more));
    assert(more.last() == b);
}

/// Folding the rows before it goes well, and the value of some row is then
/// refused.
pub open spec fn fold_refused<A, S: Fn(A, Option<Json>) -> Result<A, String>>(
    step: S,
    init: A,
    name: Option<Seq<char>>,
    rows: Seq<NodeView>,
    message: Seq<char>,
) -> bool {
    exists|a: A, i: int| {
        &&& 0 <= i < rows.len()
        &&& name is Some
        &&& folds_to(step, init, name, rows.take(i), a)
        &&& #[trigger] step_refused(step, a, folded_value(name->0, rows[i]), message)
    }
}

/// All rows of the source that a query without an order goes through can be
/// judged.
pub open spec fn source_judged<F: Fn(&Filter, &Node) -> Result<bool, String>>(
    db: DbView,
    eval: F,
    q: QueryView,
    cap: nat,
) -> bool {
    exists|rows: Seq<NodeView>| #[trigger]
        is_narrowed(rows, db, q, wanted(eval, q), cap) && judged_upto(rows, judgeable(eval, q), rows.len())
}

/// Some row of that source cannot be judged; those before it can.
pub open spec fn source_unjudged<F: Fn(&Filter, &Node) -> Result<bool, String>>(
    db: DbView,
    eval: F,
    q: QueryView,
    cap: nat,
    message: Seq<char>,
) -> bool {
    exists|rows: Seq<NodeView>| #[trigger]
        is_narrowed(rows, db, q, wanted(eval, q), cap) && stops_at(rows, eval, q, rows.len(), message)
}

/// What a fold gives: how many nodes are wanted, and where folding a field of
/// them, in the order of their addresses, ends.
pub open spec fn folded<F: Fn(&Filter, &Node) -> Result<bool, String>, A, S: Fn(A, Option<Json>) -> Result<A, String>>(
    r: Result<(u64, A), FoldError>,
    db: DbView,
    eval: F,
    q: QueryView,
    name: Option<Seq<char>>,
    init: A,
    step: S,
    cap: nat,
) -> bool {
    let nodes = db.nodes;
    let want = wanted(eval, q);
    match r {
        Ok((n, state)) => exists|rows: Seq<NodeView>| {
            &&& #[trigger] wanted_rows(rows, nodes, want)
            &&& n == capped(rows.len())
            &&& folds_to(step, init, name, rows, state)
        } && all_judged(nodes, q, judgeable(eval, q)) && source_judged(db, eval, q, cap),
        Err(FoldError::Condition { message }) => unjudged(eval, q, nodes, message@) && source_unjudged(
            db,
            eval,
            q,
            cap,
            message@,
        ),
        Err(FoldError::Value { message }) => exists|rows: Seq<NodeView>|
            #[trigger] wanted_rows(rows, nodes, want) && fold_refused(step, init, name, rows, message@),
        Err(_) => false,
    }
}

/// Nothing but the index is needed to tell what a query counts.
fn index_counts<'q>(q: &Query<'q>, name: Option<&str>) -> (r: bool)
    ensures
        r ==> q.filter is None && q.requester is None && name is None && (q.kind is None || q.owner is None),
{
    q.filter.is_none() && q.requester.is_none() && name.is_none() && (q.kind.is_some() != q.owner.is_some())
}

impl Tables {
    /// How many rows a source has.
    pub(crate) fn count_rows<'a>(&'a self, rows: Rows<'a>) -> (n: u64)
        requires
            rows.wf(self),
            rows.taken() == 0,
        ensures
            n == capped(rows.all().len()),
    {
        let ghost all = rows.all();
        let mut source = rows;
        let mut n: u64 = 0;
        loop
            invariant
                source.wf(self),
                source.all() == all,
                source.taken() <= all.len(),
                n == capped(source.taken()),
            ensures
                source.taken() == all.len(),
            decreases all.len() - source.taken(),
        {
            match source.next_address(self) {
                Some(_) => {
                    if n < u64::MAX {
                        n = n + 1;
                    }
                },
                None => {
                    break;
                },
            }
        }
        n
    }

    /// Counts what a query asks for, and folds a field of it, in the order of
    /// the addresses.
    pub fn fold_where<'q, F: Fn(&Filter, &Node) -> Result<bool, String>, A, S: Fn(A, Option<Json>) -> Result<A, String>>(
        &self,
        q: &Query<'q>,
        name: Option<&str>,
        init: A,
        step: &S,
        cap: usize,
        eval: &F,
        cache: &mut RecordCache,
    ) -> (r: Result<(u64, A), FoldError>)
        requires
            self.inv(),
            old(cache).wf(),
            agrees(old(cache)@, self.heap()),
            askable(*eval, q@),
            steps(*step),
        ensures
            final(cache).wf(),
            agrees(final(cache)@, self.heap()),
            folded(r, self@, *eval, q@, str_view(name), init, *step, cap as nat),
    {
        let ghost nodes = self@.nodes;
        let ghost want = wanted(*eval, q@);
        if index_counts(q, name) {
            let rows = self.scan_candidates(q.kind, q.owner, None, false);
            let ghost all = rows.all();
            let n = self.count_rows(rows);
            proof {
                let pick = scanned(q@.kind, q@.owner);
                assert forall|m: NodeView| #[trigger] belongs(nodes, want, RankBy::Address, None, false, m) implies all.contains(
                    m,
                ) by {
                    assert(belongs(nodes, pick, RankBy::Address, None, false, m));
                }
                assert forall|i: int| 0 <= i < all.len() implies belongs(
                    nodes,
                    want,
                    RankBy::Address,
                    None,
                    false,
                    #[trigger] all[i],
                ) by {
                    assert(belongs(nodes, pick, RankBy::Address, None, false, all[i]));
                }
                assert(wanted_rows(all, nodes, want));
                assert(source_by(all, nodes, pick, want));
                assert(is_narrowed(all, self@, q@, want, cap as nat));
            }
            return Ok((n, init));
        }
        let rows = self.narrowed(q, cap, eval);
        let ghost all = rows.all();
        let ghost good = all.filter(want);
        let ghost view = str_view(name);
        proof {
            lemma_source(all, nodes, want);
            assert(wanted_rows(good, nodes, want));
            reveal(Seq::filter);
            assert(all.take(0).filter(want) =~= Seq::<NodeView>::empty());
            lemma_fold_none(*step, init, view);
        }
        let ghost first = init;
        let mut source = rows;
        let mut n: u64 = 0;
        let mut state: A = init;
        loop
            invariant
                self.inv(),
                cache.wf(),
                agrees(cache@, self.heap()),
                evaluates(*eval),
                steps(*step),
                source.wf(self),
                source.all() == all,
                is_narrowed(all, self@, q@, want, cap as nat),
                nodes == self@.nodes,
                want == wanted(*eval, q@),
                good == all.filter(want),
                view == str_view(name),
                first == init,
                wanted_rows(good, nodes, want),
                forall|i: int| 0 <= i < all.len() ==> live(nodes, #[trigger] all[i]),
                source.taken() <= all.len(),
                judged_upto(all, judgeable(*eval, q@), source.taken()),
                forall|n: NodeView| live(nodes, n) && #[trigger] possible(q@, n) ==> all.contains(n),
                n == capped(all.take(source.taken() as int).filter(want).len()),
                folds_to(*step, first, view, all.take(source.taken() as int).filter(want), state),
            ensures
                source.taken() == all.len(),
            decreases all.len() - source.taken(),
        {
            let ghost at = source.taken() as int;
            let node = match source.next(self, cache) {
                Some(node) => node,
                None => {
                    break;
                },
            };
            proof {
                lemma_filter_step(all, want, at);
            }
            match judged(eval, q, &node) {
                Ok(true) => {
                    proof {
                        assert(want(all[at]));
                    }
                    if n < u64::MAX {
                        n = n + 1;
                    }
                    match name {
                        Some(f) => {
                            let value = field(&node.data, f);
                            let ghost before = state;
                            let ghost v = value;
                            match step(state, value) {
                                Ok(next) => {
                                    proof {
                                        assert(steps_to(*step, before, folded_value(f@, all[at]), next)) by {
                                            assert(call_ensures(*step, (before, v), Ok::<A, String>(next)));
                                        }
                                        lemma_fold_push(
                                            *step,
                                            first,
                                            f@,
                                            all.take(at).filter(want),
                                            before,
                                            all[at],
                                            next,
                                        );
                                    }
                                    state = next;
                                },
                                Err(message) => {
                                    proof {
                                        lemma_filter_split(all, want, at + 1);
                                        let k = all.take(at).filter(want).len() as int;
                                        assert(good[k] == all[at]);
                                        assert(call_ensures(*step, (before, v), Err::<A, String>(message)));
                                        assert(step_refused(*step, before, folded_value(view->0, good[k]), message@));
                                        assert(good.take(k) =~= all.take(at).filter(want));
                                        assert(fold_refused(*step, first, view, good, message@));
                                    }
                                    return Err(FoldError::Value { message });
                                },
                            }
                        },
                        None => {},
                    }
                },
                Ok(false) => {
                    proof {
                        assert(!want(all[at]));
                    }
                },
                Err(message) => {
                    proof {
                        assert(accepted(*eval, q@, all[at]) == Err::<bool, Seq<char>>(message@));
                        lemma_filter_len(all.take(at), want);
                        assert(stops_before(all, *eval, q@, all.len(), message@, at as nat));
                    }
                    return Err(FoldError::Condition { message });
                },
            }
        }
        proof {
            assert(all.take(all.len() as int) =~= all);
            lemma_all_judged(all, nodes, q@, judgeable(*eval, q@));
        }
        Ok((n, state))
    }
}

/// A fold that takes no values.
pub fn no_fold(state: (), value: Option<Json>) -> (r: Result<(), String>)
    ensures
        r is Ok,
{
    Ok(())
}

} // verus!
