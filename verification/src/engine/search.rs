//! Finding nodes by a condition, and counting and folding what is found.

use vstd::prelude::*;

use crate::bytes::bytes_lt;
use crate::engine::read::read_once;
use crate::engine::StorageEngine;
use crate::filter::{evaluates, Filter};
use crate::json::{json_view, Json, JsonView};
use crate::order::order_code;
use crate::tables::answer::{all_judgeable, answered, is_query_walk, rows_of};
use crate::tables::fold::{folded, folds_to, no_fold, source_judged, source_unjudged, steps, FoldError};
use crate::tables::group::{
    code_of, groups_answer, lemma_count_of_walk, lemma_group_counts, lemma_groups_sum, lemma_one_count,
    lemma_one_grouping, rows_in, values_view, Group,
};
use crate::tables::listing::{addresses_of, untold, TargetError};
use crate::tables::plan::{chosen, listing, writable};
use crate::tables::model::DbView;
use crate::tables::query::{
    accepted, all_judged, askable, capped, judgeable, possible, unjudged, wanted, Query, QueryError, QueryPage,
    QueryView,
};
use crate::tables::rows::live;
use crate::tables::sorted::{is_count, wanted_rows};
use crate::text::str_view;
use crate::types::{Node, NodeView};

verus! {

/// One value of a field, and how many nodes have it.
#[derive(Debug)]
pub struct GroupCount {
    pub value: Option<Json>,
    pub count: u64,
}

/// One value of a field, and what folding another field of the nodes that
/// have it gives.
#[derive(Debug)]
pub struct GroupAggregate<A> {
    pub value: Option<Json>,
    pub result: A,
}

impl StorageEngine {
    /// A page of the nodes that a query asks for: in the order of a field, or
    /// of the addresses (also asked for as `id`); from where a cursor says,
    /// or after the first `offset` rows.
    pub fn query_where<'q, F: Fn(&Filter, &Node) -> Result<bool, String>>(
        &mut self,
        q: &Query<'q>,
        order: Option<&str>,
        desc: bool,
        after: Option<&str>,
        limit: usize,
        offset: usize,
        eval: &F,
    ) -> (r: Result<QueryPage, QueryError>)
        requires
            old(self).inv(),
            askable(*eval, q@),
        ensures
            final(self).inv(),
            read_once(*old(self), *final(self)),
            if old(self).failed() {
                r == Err::<QueryPage, QueryError>(QueryError::Failed)
            } else {
                answered(
                    r,
                    old(self)@,
                    *eval,
                    q@,
                    str_view(order),
                    desc,
                    str_view(after),
                    limit as nat,
                    offset as nat,
                    old(self).limits().max_query_offset as nat,
                    old(self).limits().max_scan_rows as nat,
                )
            },
    {
        self.count_read();
        if self.failed {
            return Err(QueryError::Failed);
        }
        self.tables.query_where(
            q,
            order,
            desc,
            after,
            limit,
            offset,
            self.limits.max_query_offset,
            self.limits.max_scan_rows,
            eval,
            &mut self.cache,
        )
    }

    /// Folds a field of what a query asks for, in the order of the
    /// addresses; and counts it.
    fn fold_where<'q, F: Fn(&Filter, &Node) -> Result<bool, String>, A, S: Fn(A, Option<Json>) -> Result<A, String>>(
        &mut self,
        q: &Query<'q>,
        name: Option<&str>,
        init: A,
        step: &S,
        eval: &F,
    ) -> (r: Result<(u64, A), FoldError>)
        requires
            old(self).inv(),
            askable(*eval, q@),
            steps(*step),
        ensures
            final(self).inv(),
            read_once(*old(self), *final(self)),
            if old(self).failed() {
                r == Err::<(u64, A), FoldError>(FoldError::Failed)
            } else {
                folded(
                    r,
                    old(self)@,
                    *eval,
                    q@,
                    str_view(name),
                    init,
                    *step,
                    old(self).limits().max_scan_rows as nat,
                )
            },
    {
        self.count_read();
        if self.failed {
            return Err(FoldError::Failed);
        }
        self.tables.fold_where(q, name, init, step, self.limits.max_scan_rows, eval, &mut self.cache)
    }

    /// How many nodes a query asks for.
    pub fn count_where<'q, F: Fn(&Filter, &Node) -> Result<bool, String>>(&mut self, q: &Query<'q>, eval: &F) -> (r:
        Result<u64, FoldError>)
        requires
            old(self).inv(),
            askable(*eval, q@),
        ensures
            final(self).inv(),
            read_once(*old(self), *final(self)),
            counts_where(r, *old(self), *eval, q@),
    {
        let ghost nodes = self@.nodes;
        match self.fold_where(q, None, (), &no_fold, eval) {
            Ok((n, _)) => {
                proof {
                    let rows = choose|rows: Seq<NodeView>|
                        #[trigger] wanted_rows(rows, nodes, wanted(*eval, q@)) && n == capped(rows.len());
                    assert(wanted_rows(rows, old(self)@.nodes, wanted(*eval, q@)));
                }
                Ok(n)
            },
            Err(e) => Err(e),
        }
    }

    /// What folding a field of the nodes that a query asks for gives, in the
    /// order of their addresses.
    pub fn aggregate_where<
        'q,
        F: Fn(&Filter, &Node) -> Result<bool, String>,
        A,
        S: Fn(A, Option<Json>) -> Result<A, String>,
    >(&mut self, q: &Query<'q>, name: &str, init: A, step: &S, eval: &F) -> (r: Result<A, FoldError>)
        requires
            old(self).inv(),
            askable(*eval, q@),
            steps(*step),
        ensures
            final(self).inv(),
            read_once(*old(self), *final(self)),
            folds_where(r, *old(self), *eval, q@, name@, init, *step),
    {
        let ghost nodes = self@.nodes;
        match self.fold_where(q, Some(name), init, step, eval) {
            Ok((n, state)) => {
                proof {
                    let rows = choose|rows: Seq<NodeView>| {
                        &&& #[trigger] wanted_rows(rows, nodes, wanted(*eval, q@))
                        &&& n == capped(rows.len())
                        &&& folds_to(*step, init, Some(name@), rows, state)
                    };
                    assert(wanted_rows(rows, old(self)@.nodes, wanted(*eval, q@)));
                }
                Ok(state)
            },
            Err(e) => Err(e),
        }
    }

    /// Folds what a query asks for in groups.
    fn fold_by<
        'q,
        F: Fn(&Filter, &Node) -> Result<bool, String>,
        A,
        S: Fn(A, Option<Json>) -> Result<A, String>,
        I: Fn() -> A,
    >(
        &mut self,
        q: &Query<'q>,
        by: &str,
        values: Option<&Vec<Json>>,
        name: Option<&str>,
        start: &I,
        step: &S,
        eval: &F,
    ) -> (r: Result<Vec<Group<A>>, FoldError>)
        requires
            old(self).inv(),
            evaluates(*eval),
            steps(*step),
            call_requires(*start, ()),
        ensures
            final(self).inv(),
            read_once(*old(self), *final(self)),
            if old(self).failed() {
                r == Err::<Vec<Group<A>>, FoldError>(FoldError::Failed)
            } else {
                groups_answer(
                    r,
                    old(self)@.nodes,
                    *eval,
                    q@,
                    by@,
                    values_view(values),
                    str_view(name),
                    *start,
                    *step,
                    old(self).limits().max_scan_rows as nat,
                )
            },
    {
        self.count_read();
        if self.failed {
            return Err(FoldError::Failed);
        }
        self.tables.fold_by(q, by, values, name, start, step, self.limits.max_scan_rows, eval, &mut self.cache)
    }
}

/// The state of a fold that takes no values.
pub fn no_state() {
}

/// The counts are those of the groups.
pub open spec fn counts_of(list: Seq<GroupCount>, groups: Seq<Group<()>>) -> bool {
    &&& list.len() == groups.len()
    &&& forall|i: int|
        0 <= i < list.len() ==> json_view((#[trigger] list[i]).value) == json_view(groups[i].value) && list[i].count
            == groups[i].rows
}

/// The results are those of the groups.
pub open spec fn results_of<A>(list: Seq<GroupAggregate<A>>, groups: Seq<Group<A>>) -> bool {
    &&& list.len() == groups.len()
    &&& forall|i: int|
        0 <= i < list.len() ==> (#[trigger] list[i]).value == groups[i].value && list[i].result == groups[i].state
}

/// What counting gives: the number of the nodes wanted, where every node that
/// may be wanted could be judged.
pub open spec fn counts_where<F: Fn(&Filter, &Node) -> Result<bool, String>>(
    r: Result<u64, FoldError>,
    e: StorageEngine,
    eval: F,
    q: QueryView,
) -> bool {
    let cap = e.limits().max_scan_rows as nat;
    match r {
        Ok(n) => {
            &&& !e.failed()
            &&& all_judged(e@.nodes, q, judgeable(eval, q))
            &&& source_judged(e@, eval, q, cap)
            &&& is_count(n, e@.nodes, wanted(eval, q))
        },
        Err(FoldError::Condition { message }) => {
            &&& !e.failed()
            &&& unjudged(eval, q, e@.nodes, message@)
            &&& source_unjudged(e@, eval, q, cap, message@)
        },
        Err(x) => x is Failed && e.failed(),
    }
}

/// What folding a field gives.
pub open spec fn folds_where<
    F: Fn(&Filter, &Node) -> Result<bool, String>,
    A,
    S: Fn(A, Option<Json>) -> Result<A, String>,
>(r: Result<A, FoldError>, e: StorageEngine, eval: F, q: QueryView, name: Seq<char>, init: A, step: S) -> bool {
    let cap = e.limits().max_scan_rows as nat;
    match r {
        Ok(state) => {
            &&& !e.failed()
            &&& all_judged(e@.nodes, q, judgeable(eval, q))
            &&& source_judged(e@, eval, q, cap)
            &&& exists|rows: Seq<NodeView>| #[trigger]
                wanted_rows(rows, e@.nodes, wanted(eval, q)) && folds_to(step, init, Some(name), rows, state)
        },
        Err(x) => if e.failed() {
            x is Failed
        } else {
            folded(Err::<(u64, A), FoldError>(x), e@, eval, q, Some(name), init, step, cap)
        },
    }
}

/// Which nodes a deletion by condition would be of.
pub open spec fn targets_where<F: Fn(&Filter, &Node) -> Result<bool, String>>(
    r: Result<Vec<String>, TargetError>,
    e: StorageEngine,
    eval: F,
    kind: Seq<char>,
    where_: Option<Filter>,
    owner: Seq<char>,
    is_admin: bool,
) -> bool {
    let rows = listing(e@.nodes, writable(kind, owner, is_admin));
    let cap = e.limits().max_scan_rows;
    match r {
        Ok(list) => {
            &&& chosen(eval, where_, rows, rows.len() as int) is Ok
            &&& addresses_of(list@, chosen(eval, where_, rows, rows.len() as int)->Ok_0)
            &&& list@.len() <= cap
        },
        Err(TargetError::Condition { message }) => untold(eval, where_, rows, cap as nat, message@),
        Err(TargetError::ScanLimit { max }) => max == cap && exists|k: int|
            0 <= k <= rows.len() && (#[trigger] chosen(eval, where_, rows, k)) is Ok && chosen(
                eval,
                where_,
                rows,
                k,
            )->Ok_0.len() > cap,
    }
}

/// What counting in groups gives.
pub open spec fn counts_by<F: Fn(&Filter, &Node) -> Result<bool, String>>(
    r: Result<Vec<GroupCount>, FoldError>,
    e: StorageEngine,
    eval: F,
    q: QueryView,
    by: Seq<char>,
    values: Option<Seq<JsonView>>,
) -> bool {
    let cap = e.limits().max_scan_rows as nat;
    if e.failed() {
        r matches Err(x) && x is Failed
    } else {
        match r {
            Ok(list) => exists|groups: Vec<Group<()>>| {
                &&& #[trigger] groups_answer(
                    Ok(groups),
                    e@.nodes,
                    eval,
                    q,
                    by,
                    values,
                    None,
                    no_state,
                    no_fold,
                    cap,
                )
                &&& counts_of(list@, groups@)
            },
            Err(x) => groups_answer(
                Err::<Vec<Group<()>>, FoldError>(x),
                e@.nodes,
                eval,
                q,
                by,
                values,
                None,
                no_state,
                no_fold,
                cap,
            ),
        }
    }
}

impl StorageEngine {
    /// How many nodes there are of each value of a field, among those that a
    /// query asks for.
    pub fn count_by<'q, F: Fn(&Filter, &Node) -> Result<bool, String>>(
        &mut self,
        q: &Query<'q>,
        by: &str,
        values: Option<&Vec<Json>>,
        eval: &F,
    ) -> (r: Result<Vec<GroupCount>, FoldError>)
        requires
            old(self).inv(),
            evaluates(*eval),
        ensures
            final(self).inv(),
            read_once(*old(self), *final(self)),
            counts_by(r, *old(self), *eval, q@, by@, values_view(values)),
    {
        let groups = match self.fold_by(q, by, values, None, &no_state, &no_fold, eval) {
            Ok(groups) => groups,
            Err(e) => { return Err(e) },
        };
        let mut out: Vec<GroupCount> = Vec::new();
        let mut i: usize = 0;
        while i < groups.len()
            invariant
                i <= groups@.len(),
                out@.len() == i,
                forall|k: int|
                    0 <= k < i ==> json_view((#[trigger] out@[k]).value) == json_view(groups@[k].value) && out@[k].count
                        == groups@[k].rows,
            decreases groups.len() - i,
        {
            out.push(GroupCount { value: crate::json::copy_json(&groups[i].value), count: groups[i].rows });
            i = i + 1;
        }
        proof {
            assert(counts_of(out@, groups@));
        }
        Ok(out)
    }
}

impl StorageEngine {
    /// What folding a field gives for each value of another, among the nodes
    /// that a query asks for.
    pub fn aggregate_by<
        'q,
        F: Fn(&Filter, &Node) -> Result<bool, String>,
        A,
        S: Fn(A, Option<Json>) -> Result<A, String>,
        I: Fn() -> A,
    >(
        &mut self,
        q: &Query<'q>,
        by: &str,
        values: Option<&Vec<Json>>,
        name: &str,
        start: &I,
        step: &S,
        eval: &F,
    ) -> (r: Result<Vec<GroupAggregate<A>>, FoldError>)
        requires
            old(self).inv(),
            evaluates(*eval),
            steps(*step),
            call_requires(*start, ()),
        ensures
            final(self).inv(),
            read_once(*old(self), *final(self)),
            aggregates_by(r, *old(self), *eval, q@, by@, values_view(values), name@, *start, *step),
    {
        let groups = match self.fold_by(q, by, values, Some(name), start, step, eval) {
            Ok(groups) => groups,
            Err(e) => { return Err(e) },
        };
        let ghost all = groups;
        let ghost full = groups@;
        let mut rest = groups;
        let mut back: Vec<GroupAggregate<A>> = Vec::new();
        while rest.len() > 0
            invariant
                rest@.len() + back@.len() == full.len(),
                rest@ == full.take(rest@.len() as int),
                forall|i: int|
                    0 <= i < back@.len() ==> (#[trigger] back@[i]).value == full[full.len() - 1 - i].value
                        && back@[i].result == full[full.len() - 1 - i].state,
            decreases rest.len(),
        {
            let ghost at = rest@.len() - 1;
            if let Some(group) = rest.pop() {
                proof {
                    assert(group == full[at]);
                    assert(rest@ =~= full.take(at));
                }
                back.push(GroupAggregate { value: group.value, result: group.state });
            }
        }
        let ghost backs = back@;
        let mut out: Vec<GroupAggregate<A>> = Vec::new();
        while back.len() > 0
            invariant
                back@.len() + out@.len() == full.len(),
                backs.len() == full.len(),
                back@ == backs.take(back@.len() as int),
                forall|i: int|
                    0 <= i < backs.len() ==> (#[trigger] backs[i]).value == full[full.len() - 1 - i].value
                        && backs[i].result == full[full.len() - 1 - i].state,
                forall|i: int|
                    0 <= i < out@.len() ==> (#[trigger] out@[i]).value == full[i].value && out@[i].result
                        == full[i].state,
            decreases back.len(),
        {
            let ghost at = back@.len() - 1;
            if let Some(group) = back.pop() {
                proof {
                    assert(group == backs[at]);
                    assert(back@ =~= backs.take(at));
                }
                out.push(group);
            }
        }
        proof {
            assert(results_of(out@, all@));
        }
        Ok(out)
    }

    /// The addresses of the nodes of a kind that a requester may write and
    /// that a condition holds of, in order.
    pub fn delete_where_targets<F: Fn(&Filter, &Node) -> Result<bool, String>>(
        &mut self,
        kind: &str,
        where_: &Option<Filter>,
        owner: &str,
        is_admin: bool,
        eval: &F,
    ) -> (r: Result<Vec<String>, TargetError>)
        requires
            old(self).inv(),
            !old(self).failed(),
            evaluates(*eval),
        ensures
            final(self).inv(),
            old(self).same(final(self)),
            targets_where(r, *old(self), *eval, kind@, *where_, owner@, is_admin),
    {
        self.tables.delete_where_targets(
            kind,
            where_,
            owner,
            is_admin,
            self.limits.max_scan_rows,
            eval,
            &mut self.cache,
        )
    }
}

/// What folding in groups gives.
pub open spec fn aggregates_by<
    F: Fn(&Filter, &Node) -> Result<bool, String>,
    A,
    S: Fn(A, Option<Json>) -> Result<A, String>,
    I: Fn() -> A,
>(
    r: Result<Vec<GroupAggregate<A>>, FoldError>,
    e: StorageEngine,
    eval: F,
    q: QueryView,
    by: Seq<char>,
    values: Option<Seq<JsonView>>,
    name: Seq<char>,
    start: I,
    step: S,
) -> bool {
    let cap = e.limits().max_scan_rows as nat;
    if e.failed() {
        r matches Err(x) && x is Failed
    } else {
        match r {
            Ok(list) => exists|groups: Vec<Group<A>>| {
                &&& #[trigger] groups_answer(
                    Ok(groups),
                    e@.nodes,
                    eval,
                    q,
                    by,
                    values,
                    Some(name),
                    start,
                    step,
                    cap,
                )
                &&& results_of(list@, groups@)
            },
            Err(x) => groups_answer(
                Err::<Vec<Group<A>>, FoldError>(x),
                e@.nodes,
                eval,
                q,
                by,
                values,
                Some(name),
                start,
                step,
                cap,
            ),
        }
    }
}

// ---------------------------------------------------------------------
// Laws
// ---------------------------------------------------------------------

/// A count is the number of rows that a walk through the pages of the query
/// gives, in whatever order and with whatever limits.
pub proof fn law_count_is_the_rows_of_the_walk<F: Fn(&Filter, &Node) -> Result<bool, String>>(
    n: u64,
    pages: Seq<QueryPage>,
    limits: Seq<nat>,
    dbs: Seq<DbView>,
    e: StorageEngine,
    eval: F,
    q: QueryView,
    order: Option<Seq<char>>,
    desc: bool,
    max_offset: nat,
    cap: nat,
)
    requires
        counts_where(Ok(n), e, eval, q),
        is_query_walk(pages, limits, dbs, e@.nodes, eval, q, order, desc, None, max_offset, cap),
    ensures
        n == capped(rows_of(pages).len()),
{
    lemma_count_of_walk(n, pages, limits, dbs, e@.nodes, eval, q, order, desc, max_offset, cap);
}

/// A node that the query may ask for and that cannot be judged makes counting
/// fail.
pub proof fn law_count_judges_every_node<F: Fn(&Filter, &Node) -> Result<bool, String>>(
    r: Result<u64, FoldError>,
    e: StorageEngine,
    eval: F,
    q: QueryView,
    n: NodeView,
)
    requires
        counts_where(r, e, eval, q),
        live(e@.nodes, n),
        possible(q, n),
        accepted(eval, q, n) is Err,
    ensures
        r is Err,
{
    assert(!judgeable(eval, q)(n));
}

/// Indexes do not change a count: with the same nodes, whatever is declared,
/// the counts are the same; and where every node can be judged, there is one.
pub proof fn law_indexes_keep_the_count<F: Fn(&Filter, &Node) -> Result<bool, String>>(
    one: Result<u64, FoldError>,
    other: Result<u64, FoldError>,
    x: StorageEngine,
    y: StorageEngine,
    eval: F,
    q: QueryView,
)
    requires
        counts_where(one, x, eval, q),
        counts_where(other, y, eval, q),
        x@.nodes == y@.nodes,
        !x.failed(),
        !y.failed(),
    ensures
        one is Ok && other is Ok ==> one->Ok_0 == other->Ok_0,
        all_judgeable(x@.nodes, eval, q) ==> one is Ok && other is Ok,
{
    if one is Ok && other is Ok {
        lemma_one_count(one->Ok_0, other->Ok_0, x@.nodes, wanted(eval, q));
    }
}

/// The nodes in all groups.
pub open spec fn counted(list: Seq<GroupCount>) -> int
    decreases list.len(),
{
    if list.len() == 0 {
        0
    } else {
        counted(list.drop_last()) + list.last().count
    }
}

proof fn lemma_counted(list: Seq<GroupCount>, groups: Seq<Group<()>>)
    requires
        counts_of(list, groups),
    ensures
        counted(list) == rows_in(groups),
    decreases list.len(),
{
    if list.len() > 0 {
        assert(list.last().count == groups.last().rows) by {
            assert(list[list.len() - 1].count == groups[list.len() - 1].rows);
        }
        assert forall|i: int| 0 <= i < list.len() - 1 implies json_view((#[trigger] list.drop_last()[i]).value)
            == json_view(groups.drop_last()[i].value) && list.drop_last()[i].count == groups.drop_last()[i].rows by {
            assert(list.drop_last()[i] == list[i]);
        }
        lemma_counted(list.drop_last(), groups.drop_last());
    }
}

/// The groups have different values, in order.
pub proof fn law_groups_ascend<F: Fn(&Filter, &Node) -> Result<bool, String>>(
    list: Vec<GroupCount>,
    e: StorageEngine,
    eval: F,
    q: QueryView,
    by: Seq<char>,
    values: Option<Seq<JsonView>>,
)
    requires
        counts_by(Ok(list), e, eval, q, by, values),
    ensures
        forall|i: int, j: int|
            0 <= i < j < list@.len() ==> bytes_lt(
                order_code(json_view((#[trigger] list@[i]).value)),
                order_code(json_view((#[trigger] list@[j]).value)),
            ),
{
    let groups = groups_behind(list, e, eval, q, by, values);
    assert forall|i: int, j: int| 0 <= i < j < list@.len() implies bytes_lt(
        order_code(json_view((#[trigger] list@[i]).value)),
        order_code(json_view((#[trigger] list@[j]).value)),
    ) by {
        assert(bytes_lt(order_code(json_view(groups@[i].value)), order_code(json_view(groups@[j].value))));
    }
}

/// The groups that counts are those of.
spec fn groups_behind<F: Fn(&Filter, &Node) -> Result<bool, String>>(
    list: Vec<GroupCount>,
    e: StorageEngine,
    eval: F,
    q: QueryView,
    by: Seq<char>,
    values: Option<Seq<JsonView>>,
) -> Vec<Group<()>> {
    choose|groups: Vec<Group<()>>| {
        &&& #[trigger] groups_answer(
            Ok(groups),
            e@.nodes,
            eval,
            q,
            by,
            values,
            None,
            no_state,
            no_fold,
            e.limits().max_scan_rows as nat,
        )
        &&& counts_of(list@, groups@)
    }
}

/// The groups of all values hold as many nodes as a count of the same query
/// gives.
pub proof fn law_groups_sum_to_the_count<F: Fn(&Filter, &Node) -> Result<bool, String>>(
    list: Vec<GroupCount>,
    n: u64,
    x: StorageEngine,
    y: StorageEngine,
    eval: F,
    q: QueryView,
    by: Seq<char>,
)
    requires
        counts_by(Ok(list), x, eval, q, by, None),
        counts_where(Ok(n), y, eval, q),
        x@.nodes == y@.nodes,
        n < u64::MAX,
    ensures
        counted(list@) == n,
{
    let groups = groups_behind(list, x, eval, q, by, None);
    lemma_counted(list@, groups@);
    lemma_groups_sum(
        groups,
        n,
        x@.nodes,
        eval,
        q,
        by,
        None,
        no_state,
        no_fold,
        x.limits().max_scan_rows as nat,
    );
}

/// Each group counts what a count gives of a query that asks for the same
/// nodes with the group's value alone.
pub proof fn law_group_is_the_count_of_its_value<F: Fn(&Filter, &Node) -> Result<bool, String>>(
    list: Vec<GroupCount>,
    k: int,
    n: u64,
    x: StorageEngine,
    y: StorageEngine,
    eval: F,
    q: QueryView,
    pinned: QueryView,
    by: Seq<char>,
    values: Option<Seq<JsonView>>,
)
    requires
        counts_by(Ok(list), x, eval, q, by, values),
        0 <= k < list@.len(),
        x@.nodes == y@.nodes,
        forall|n: NodeView| #[trigger]
            live(x@.nodes, n) ==> (wanted(eval, pinned)(n) <==> wanted(eval, q)(n) && code_of(by, n) == order_code(
                json_view(list@[k].value),
            )),
        counts_where(Ok(n), y, eval, pinned),
    ensures
        list@[k].count == n,
{
    let groups = groups_behind(list, x, eval, q, by, values);
    assert(json_view(list@[k].value) == json_view(groups@[k].value));
    lemma_group_counts(
        groups,
        k,
        n,
        x@.nodes,
        eval,
        q,
        pinned,
        by,
        values,
        None,
        no_state,
        no_fold,
        x.limits().max_scan_rows as nat,
    );
}

/// Indexes do not change the groups: with the same nodes and limits, whatever
/// is declared, where one count in groups succeeds so does the other, with
/// groups of the same values that count the same.
pub proof fn law_indexes_keep_the_groups<F: Fn(&Filter, &Node) -> Result<bool, String>>(
    one: Vec<GroupCount>,
    other: Result<Vec<GroupCount>, FoldError>,
    x: StorageEngine,
    y: StorageEngine,
    eval: F,
    q: QueryView,
    by: Seq<char>,
    values: Option<Seq<JsonView>>,
)
    requires
        counts_by(Ok(one), x, eval, q, by, values),
        counts_by(other, y, eval, q, by, values),
        x@.nodes == y@.nodes,
        x.limits() == y.limits(),
        !y.failed(),
    ensures
        other is Ok,
        one@.len() == other->Ok_0@.len(),
        forall|i: int|
            0 <= i < one@.len() ==> order_code(json_view((#[trigger] one@[i]).value)) == order_code(
                json_view(other->Ok_0@[i].value),
            ) && one@[i].count == other->Ok_0@[i].count,
{
    let cap = x.limits().max_scan_rows as nat;
    let groups = groups_behind(one, x, eval, q, by, values);
    let again = match other {
        Ok(list) => Ok::<Vec<Group<()>>, FoldError>(groups_behind(list, y, eval, q, by, values)),
        Err(e) => Err::<Vec<Group<()>>, FoldError>(e),
    };
    lemma_one_grouping(groups, again, x@.nodes, eval, q, by, values, no_state, no_fold, cap);
    let list = other->Ok_0;
    let b = again->Ok_0;
    assert forall|i: int| 0 <= i < one@.len() implies order_code(json_view((#[trigger] one@[i]).value)) == order_code(
        json_view(list@[i].value),
    ) && one@[i].count == list@[i].count by {
        assert(json_view(list@[i].value) == json_view(b@[i].value));
        assert(order_code(json_view(groups@[i].value)) == order_code(json_view(b@[i].value)));
    }
}

} // verus!
