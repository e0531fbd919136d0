//! Folding what a query asks for, group by group.

use vstd::prelude::*;
use vstd::seq_lib::seq_to_set_is_finite;
use vstd::set_lib::lemma_len_subset;

use crate::btree::walker::past;
use crate::bytes::{bytes_lt, compare, copy_bytes, lemma_lt_total, lemma_lt_transitive, Order};
use crate::cache::RecordCache;
use crate::filter::{evaluates, Filter};
use crate::json::{field, field_of, json_view, Json, JsonView, Shape};
use crate::keys::value_key;
use crate::order::{encode_order_value, lemma_code_prefix, order_code, ref_view, TAG_NOTHING, TAG_NULL};
use crate::tables::fold::{
    folded_value, folds_to, lemma_fold_none, lemma_fold_push, step_refused, steps, steps_to, FoldError,
};
use crate::tables::lists::{data_defs, data_find, lemma_covers};
use crate::tables::answer::{all_judgeable, is_query_walk, law_walk_lists_each_row_once, order_field, rows_of};
use crate::tables::model::{DbView, Nodes};
use crate::tables::query::{
    accepted, capped, eligible, judgeable, judged, judged_upto, lemma_filter_has, lemma_filter_listing,
    lemma_filter_split, lemma_filter_step, rank_by, unjudged, wanted, Query, QueryPage, QueryView,
};
use crate::tables::rows::{belongs, is_listing, law_listing_is_unique, live, rank, scanned, under_prefix, RankBy};
use crate::tables::sorted::{is_count, lemma_one_value, wanted_rows};
use crate::tables::{agrees, Tables};
use crate::text::{str_view, utf8};
use crate::types::{Node, NodeView};

verus! {

/// Most values that groups may be asked for.
pub const MAX_GROUP_VALUES: usize = 1000;

/// The nodes with one value in a field, and what folding another gives.
#[derive(Debug)]
pub struct Group<A> {
    pub value: Option<Json>,
    pub rows: u64,
    pub state: A,
}

/// A value as groups have it: null is no value.
pub open spec fn joined(v: Option<JsonView>) -> Option<JsonView> {
    match v {
        Some(j) => if j.shape is Null {
            None
        } else {
            Some(j)
        },
        None => None,
    }
}

/// The code of a node's value.
pub open spec fn code_of(by: Seq<char>, n: NodeView) -> Seq<u8> {
    order_code(joined(field_of(n.data, by)))
}

/// The nodes whose value has a code.
pub open spec fn of_code(by: Seq<char>, code: Seq<u8>) -> spec_fn(NodeView) -> bool {
    |n: NodeView| code_of(by, n) == code
}

pub open spec fn values_view(values: Option<&Vec<Json>>) -> Option<Seq<JsonView>> {
    match values {
        Some(list) => Some(list@.map_values(|j: Json| j@)),
        None => None,
    }
}

/// A value with the code is asked for by name.
pub open spec fn named(values: Option<Seq<JsonView>>, code: Seq<u8>) -> bool {
    values is Some && exists|i: int| 0 <= i < values->0.len() && order_code(joined(Some(#[trigger] values->0[i]))) == code
}

/// The value asked for at `i` is this, and none before it has its code.
pub open spec fn names_first(values: Option<Seq<JsonView>>, i: int, value: Option<JsonView>) -> bool {
    &&& values is Some
    &&& 0 <= i < values->0.len()
    &&& joined(Some(values->0[i])) == value
    &&& forall|j: int| 0 <= j < i ==> order_code(joined(Some(#[trigger] values->0[j]))) != order_code(value)
}

/// Groups of the code are asked for.
pub open spec fn asked_for(values: Option<Seq<JsonView>>, code: Seq<u8>) -> bool {
    values is None || named(values, code)
}

/// Some row's value has the code.
pub open spec fn carried(rows: Seq<NodeView>, by: Seq<char>, code: Seq<u8>) -> bool {
    exists|i: int| 0 <= i < rows.len() && code_of(by, #[trigger] rows[i]) == code
}

/// The first of the rows with the value's code has this very value.
pub open spec fn leads(value: Option<JsonView>, rows: Seq<NodeView>, by: Seq<char>) -> bool {
    let members = rows.filter(of_code(by, order_code(value)));
    members.len() > 0 && joined(field_of(members[0].data, by)) == value
}

/// The value is that of the first row with its code, or the first asked for
/// that has it.
pub open spec fn known(value: Option<JsonView>, rows: Seq<NodeView>, by: Seq<char>, values: Option<Seq<JsonView>>) -> bool {
    ||| leads(value, rows, by)
    ||| exists|i: int| #[trigger] names_first(values, i, value)
}

/// Folding the rows starts from what `start` gives, and ends in `state`.
pub open spec fn accumulates<A, S: Fn(A, Option<Json>) -> Result<A, String>, I: Fn() -> A>(
    start: I,
    step: S,
    name: Option<Seq<char>>,
    rows: Seq<NodeView>,
    state: A,
) -> bool {
    exists|init: A| call_ensures(start, (), init) && #[trigger] folds_to(step, init, name, rows, state)
}

/// What makes a group, of the rows `seen` among all of them.
pub open spec fn is_group<A, S: Fn(A, Option<Json>) -> Result<A, String>, I: Fn() -> A>(
    value: Option<JsonView>,
    count: u64,
    state: A,
    seen: Seq<NodeView>,
    all: Seq<NodeView>,
    by: Seq<char>,
    name: Option<Seq<char>>,
    values: Option<Seq<JsonView>>,
    start: I,
    step: S,
) -> bool {
    let members = seen.filter(of_code(by, order_code(value)));
    &&& count == capped(members.len())
    &&& accumulates(start, step, name, members, state)
    &&& known(value, all, by, values)
    &&& asked_for(values, order_code(value))
}

/// The groups are those of the rows, one for each value, in the order of the
/// values; and one for each value asked for.
pub open spec fn grouped<A, S: Fn(A, Option<Json>) -> Result<A, String>, I: Fn() -> A>(
    groups: Seq<Group<A>>,
    rows: Seq<NodeView>,
    by: Seq<char>,
    name: Option<Seq<char>>,
    values: Option<Seq<JsonView>>,
    start: I,
    step: S,
) -> bool {
    &&& forall|i: int, j: int|
        0 <= i < j < groups.len() ==> bytes_lt(
            order_code(json_view((#[trigger] groups[i]).value)),
            order_code(json_view((#[trigger] groups[j]).value)),
        )
    &&& forall|i: int|
        0 <= i < groups.len() ==> is_group(
            json_view((#[trigger] groups[i]).value),
            groups[i].rows,
            groups[i].state,
            rows,
            rows,
            by,
            name,
            values,
            start,
            step,
        )
    &&& forall|code: Seq<u8>|
        #[trigger] named(values, code) || (carried(rows, by, code) && asked_for(values, code)) ==> has_group(groups, code)
}

pub open spec fn has_group<A>(groups: Seq<Group<A>>, code: Seq<u8>) -> bool {
    exists|i: int| 0 <= i < groups.len() && order_code(json_view((#[trigger] groups[i]).value)) == code
}

/// Different codes, each of a group of rows.
pub open spec fn row_codes(
    codes: Seq<Seq<u8>>,
    rows: Seq<NodeView>,
    by: Seq<char>,
    values: Option<Seq<JsonView>>,
) -> bool {
    &&& codes.no_duplicates()
    &&& forall|i: int|
        0 <= i < codes.len() ==> carried(rows, by, #[trigger] codes[i]) && asked_for(values, codes[i])
}

/// Folding the rows before it into its group goes well, and the value of some
/// row is then refused.
pub open spec fn group_refused<A, S: Fn(A, Option<Json>) -> Result<A, String>, I: Fn() -> A>(
    start: I,
    step: S,
    name: Option<Seq<char>>,
    by: Seq<char>,
    rows: Seq<NodeView>,
    message: Seq<char>,
) -> bool {
    exists|i: int|
        0 <= i < rows.len() && #[trigger] row_refused(
            start,
            step,
            name,
            rows.take(i).filter(of_code(by, code_of(by, rows[i]))),
            rows[i],
            message,
        )
}

/// The row's value is refused after the members of its group.
pub open spec fn row_refused<A, S: Fn(A, Option<Json>) -> Result<A, String>, I: Fn() -> A>(
    start: I,
    step: S,
    name: Option<Seq<char>>,
    members: Seq<NodeView>,
    n: NodeView,
    message: Seq<char>,
) -> bool {
    name is Some && exists|a: A|
        accumulates(start, step, name, members, a) && #[trigger] step_refused(
            step,
            a,
            folded_value(name->0, n),
            message,
        )
}

/// What grouping gives.
pub open spec fn groups_answer<
    F: Fn(&Filter, &Node) -> Result<bool, String>,
    A,
    S: Fn(A, Option<Json>) -> Result<A, String>,
    I: Fn() -> A,
>(
    r: Result<Vec<Group<A>>, FoldError>,
    nodes: Nodes,
    eval: F,
    q: QueryView,
    by: Seq<char>,
    values: Option<Seq<JsonView>>,
    name: Option<Seq<char>>,
    start: I,
    step: S,
    cap: nat,
) -> bool {
    let want = wanted(eval, q);
    let crowd = values matches Some(list) && list.len() > MAX_GROUP_VALUES;
    match r {
        Ok(groups) => !crowd && all_judgeable(nodes, eval, q) && exists|rows: Seq<NodeView>| {
            &&& #[trigger] wanted_rows(rows, nodes, want)
            &&& grouped(groups@, rows, by, name, values, start, step)
            &&& forall|codes: Seq<Seq<u8>>| #[trigger] row_codes(codes, rows, by, values) ==> codes.len() <= cap
        },
        Err(FoldError::Values { len, max }) => crowd && len == values->0.len() && max == MAX_GROUP_VALUES,
        Err(FoldError::Condition { message }) => !crowd && unjudged(eval, q, nodes, message@),
        Err(FoldError::Value { message }) => !crowd && exists|rows: Seq<NodeView>|
            #[trigger] wanted_rows(rows, nodes, want) && group_refused(start, step, name, by, rows, message@),
        Err(FoldError::ScanLimit { max }) => !crowd && max == cap && exists|rows: Seq<NodeView>, codes: Seq<Seq<u8>>|
            #[trigger] wanted_rows(rows, nodes, want) && #[trigger] row_codes(codes, rows, by, values) && codes.len()
                > cap,
        Err(FoldError::Failed) => false,
    }
}

// ---------------------------------------------------------------------
// Slots
// ---------------------------------------------------------------------

/// A group being folded.
struct Slot<A> {
    code: Vec<u8>,
    value: Option<Json>,
    rows: u64,
    state: Option<A>,
}

/// What grouping is asked for; the same throughout.
#[verifier::reject_recursive_types(A)]
struct Task<A, S: Fn(A, Option<Json>) -> Result<A, String>, I: Fn() -> A> {
    all: Seq<NodeView>,
    by: Seq<char>,
    name: Option<Seq<char>>,
    values: Option<Seq<JsonView>>,
    start: I,
    step: S,
    states: core::marker::PhantomData<A>,
}

spec fn slot_codes<A>(slots: Seq<Slot<A>>) -> Seq<Seq<u8>> {
    slots.map_values(|g: Slot<A>| g.code@)
}

spec fn sorted_slots<A>(slots: Seq<Slot<A>>) -> bool {
    forall|i: int, j: int| 0 <= i < j < slots.len() ==> bytes_lt((#[trigger] slots[i]).code@, (#[trigger] slots[j]).code@)
}

spec fn has_slot<A>(slots: Seq<Slot<A>>, code: Seq<u8>) -> bool {
    exists|i: int| 0 <= i < slots.len() && (#[trigger] slots[i]).code@ == code
}

spec fn slot_ok<A, S: Fn(A, Option<Json>) -> Result<A, String>, I: Fn() -> A>(
    g: Slot<A>,
    seen: Seq<NodeView>,
    t: Task<A, S, I>,
) -> bool {
    &&& g.code@ == order_code(json_view(g.value))
    &&& g.state is Some
    &&& is_group(json_view(g.value), g.rows, g.state->0, seen, t.all, t.by, t.name, t.values, t.start, t.step)
}

/// The slots hold what the rows seen so far give.
spec fn tallied<A, S: Fn(A, Option<Json>) -> Result<A, String>, I: Fn() -> A>(
    slots: Seq<Slot<A>>,
    seen: Seq<NodeView>,
    t: Task<A, S, I>,
) -> bool {
    &&& sorted_slots(slots)
    &&& forall|i: int| 0 <= i < slots.len() ==> slot_ok(#[trigger] slots[i], seen, t)
    &&& forall|code: Seq<u8>| #[trigger] carried(seen, t.by, code) && asked_for(t.values, code) ==> has_slot(slots, code)
}

/// Every slot is that of some row.
spec fn all_carried<A, S: Fn(A, Option<Json>) -> Result<A, String>, I: Fn() -> A>(
    slots: Seq<Slot<A>>,
    t: Task<A, S, I>,
) -> bool {
    forall|i: int| 0 <= i < slots.len() ==> carried(t.all, t.by, (#[trigger] slots[i]).code@)
}

proof fn lemma_same_codes<A, S: Fn(A, Option<Json>) -> Result<A, String>, I: Fn() -> A>(
    before: Seq<Slot<A>>,
    now: Seq<Slot<A>>,
    t: Task<A, S, I>,
)
    requires
        all_carried(before, t),
        slot_codes(now) == slot_codes(before),
    ensures
        all_carried(now, t),
{
    assert(slot_codes(now).len() == now.len() && slot_codes(before).len() == before.len());
    assert forall|i: int| 0 <= i < now.len() implies carried(t.all, t.by, (#[trigger] now[i]).code@) by {
        assert(slot_codes(now)[i] == slot_codes(before)[i]);
        assert(now[i].code@ == before[i].code@);
        assert(carried(t.all, t.by, before[i].code@));
    }
}

proof fn lemma_not_carried(seen: Seq<NodeView>, by: Seq<char>, code: Seq<u8>)
    requires
        !carried(seen, by, code),
    ensures
        seen.filter(of_code(by, code)) == Seq::<NodeView>::empty(),
{
    let f = seen.filter(of_code(by, code));
    if f.len() > 0 {
        assert(f.contains(f[0]));
        lemma_filter_has(seen, of_code(by, code), f[0]);
        let i = choose|i: int| 0 <= i < seen.len() && seen[i] == f[0];
        assert(code_of(by, seen[i]) == code);
    }
    assert(f =~= Seq::<NodeView>::empty());
}

/// Where a code is among sorted slots, or belongs.
fn find_slot<A>(slots: &Vec<Slot<A>>, code: &Vec<u8>) -> (r: (usize, bool))
    requires
        sorted_slots(slots@),
    ensures
        r.0 <= slots@.len(),
        r.1 ==> r.0 < slots@.len() && slots@[r.0 as int].code@ == code@,
        !r.1 ==> !has_slot(slots@, code@),
        !r.1 ==> forall|i: int| 0 <= i < r.0 ==> bytes_lt((#[trigger] slots@[i]).code@, code@),
        !r.1 ==> forall|i: int| r.0 <= i < slots@.len() ==> bytes_lt(code@, (#[trigger] slots@[i]).code@),
{
    let mut lo: usize = 0;
    let mut hi: usize = slots.len();
    while lo < hi
        invariant
            sorted_slots(slots@),
            lo <= hi <= slots@.len(),
            forall|i: int| 0 <= i < lo ==> bytes_lt((#[trigger] slots@[i]).code@, code@),
            forall|i: int| hi <= i < slots@.len() ==> bytes_lt(code@, (#[trigger] slots@[i]).code@),
        decreases hi - lo,
    {
        let mid: usize = lo + (hi - lo) / 2;
        match compare(&slots[mid].code, code) {
            Order::Equal => {
                return (mid, true);
            },
            Order::Less => {
                proof {
                    assert forall|i: int| 0 <= i < mid + 1 implies bytes_lt((#[trigger] slots@[i]).code@, code@) by {
                        if i < mid {
                            lemma_lt_transitive(slots@[i].code@, slots@[mid as int].code@, code@);
                        }
                    }
                }
                lo = mid + 1;
            },
            Order::Greater => {
                proof {
                    assert forall|i: int| mid <= i < slots@.len() implies bytes_lt(code@, (#[trigger] slots@[i]).code@) by {
                        if i > mid {
                            lemma_lt_transitive(code@, slots@[mid as int].code@, slots@[i].code@);
                        }
                    }
                }
                hi = mid;
            },
        }
    }
    proof {
        assert forall|i: int| 0 <= i < slots@.len() implies (#[trigger] slots@[i]).code@ != code@ by {
            lemma_lt_total(slots@[i].code@, code@);
        }
    }
    (lo, false)
}

/// Puts a slot where it belongs.
fn open_slot<A, S: Fn(A, Option<Json>) -> Result<A, String>, I: Fn() -> A>(
    slots: &mut Vec<Slot<A>>,
    at: usize,
    slot: Slot<A>,
    Ghost(seen): Ghost<Seq<NodeView>>,
    Ghost(t): Ghost<Task<A, S, I>>,
)
    requires
        tallied(old(slots)@, seen, t),
        at <= old(slots)@.len(),
        !has_slot(old(slots)@, slot.code@),
        forall|i: int| 0 <= i < at ==> bytes_lt((#[trigger] old(slots)@[i]).code@, slot.code@),
        forall|i: int| at <= i < old(slots)@.len() ==> bytes_lt(slot.code@, (#[trigger] old(slots)@[i]).code@),
        slot_ok(slot, seen, t),
    ensures
        tallied(final(slots)@, seen, t),
        final(slots)@ == old(slots)@.insert(at as int, slot),
{
    let ghost before = slots@;
    let ghost added = slot;
    slots.insert(at, slot);
    proof {
        let now = slots@;
        assert(now =~= before.insert(at as int, added));
        lemma_insert_slot(before, now, at as int, added);
        assert forall|i: int| 0 <= i < now.len() implies slot_ok(#[trigger] now[i], seen, t) by {
            if i < at {
                assert(now[i] == before[i]);
            } else if i > at {
                assert(now[i] == before[i - 1]);
            }
        }
    }
}

/// A slot that no row was folded into.
fn fresh_slot<A, S: Fn(A, Option<Json>) -> Result<A, String>, I: Fn() -> A>(
    code: Vec<u8>,
    value: Option<Json>,
    start: &I,
    Ghost(seen): Ghost<Seq<NodeView>>,
    Ghost(t): Ghost<Task<A, S, I>>,
) -> (r: Slot<A>)
    requires
        code@ == order_code(json_view(value)),
        !carried(seen, t.by, code@),
        known(json_view(value), t.all, t.by, t.values),
        asked_for(t.values, code@),
        t.start == *start,
        call_requires(*start, ()),
    ensures
        r.code@ == code@,
        slot_ok(r, seen, t),
{
    let init = start();
    proof {
        lemma_not_carried(seen, t.by, code@);
        lemma_fold_none(t.step, init, t.name);
        assert(folds_to(t.step, init, t.name, seen.filter(of_code(t.by, code@)), init));
    }
    Slot { code, value, rows: 0, state: Some(init) }
}

proof fn lemma_members_push(seen: Seq<NodeView>, n: NodeView, by: Seq<char>, code: Seq<u8>)
    ensures
        seen.push(n).filter(of_code(by, code)) == (if code_of(by, n) == code {
            seen.filter(of_code(by, code)).push(n)
        } else {
            seen.filter(of_code(by, code))
        }),
{
    reveal(Seq::filter);
    assert(seen.push(n).drop_last() =~= seen);
}

/// A value as groups have it.
fn join(value: Option<Json>) -> (r: Option<Json>)
    ensures
        json_view(r) == joined(json_view(value)),
{
    match value {
        Some(j) => {
            if j.is_null() {
                None
            } else {
                Some(j)
            }
        },
        None => None,
    }
}

/// A code as groups have it.
fn join_code(code: Vec<u8>, Ghost(v): Ghost<Option<JsonView>>) -> (r: Vec<u8>)
    requires
        code@ == order_code(v),
    ensures
        r@ == order_code(joined(v)),
{
    proof {
        lemma_raw(v, v);
    }
    if code[0] == TAG_NULL {
        let none: Option<&Json> = None;
        encode_order_value(none)
    } else {
        code
    }
}

/// The first of the rows with a code is the first in all of them.
proof fn lemma_leads(all: Seq<NodeView>, at: int, by: Seq<char>, value: Option<JsonView>)
    requires
        0 <= at < all.len(),
        joined(field_of(all[at].data, by)) == value,
        !carried(all.take(at), by, order_code(value)),
    ensures
        leads(value, all, by),
{
    let f = of_code(by, order_code(value));
    lemma_not_carried(all.take(at), by, order_code(value));
    lemma_filter_step(all, f, at);
    lemma_filter_split(all, f, at + 1);
}

/// Only no value has the code of no value.
proof fn lemma_joined(v: Option<JsonView>)
    ensures
        order_code(joined(v)) == order_code(None) <==> joined(v) is None,
        order_code(joined(v)) != order_code(None) ==> order_code(v) == order_code(joined(v)),
{
    assert(order_code(None)[0] == TAG_NOTHING);
    assert(joined(v) is Some ==> order_code(joined(v))[0] != TAG_NOTHING);
}

/// Folds a row into its slot.
fn fold_row<A, S: Fn(A, Option<Json>) -> Result<A, String>, I: Fn() -> A>(
    slots: &mut Vec<Slot<A>>,
    k: usize,
    data: &str,
    name: Option<&str>,
    step: &S,
    Ghost(n): Ghost<NodeView>,
    Ghost(seen): Ghost<Seq<NodeView>>,
    Ghost(t): Ghost<Task<A, S, I>>,
) -> (r: Result<(), String>)
    requires
        tallied(old(slots)@, seen, t),
        k < old(slots)@.len(),
        old(slots)@[k as int].code@ == code_of(t.by, n),
        name is Some ==> data@ == n.data,
        t.name == str_view(name),
        t.step == *step,
        steps(*step),
    ensures
        match r {
            Ok(_) => {
                &&& tallied(final(slots)@, seen.push(n), t)
                &&& slot_codes(final(slots)@) == slot_codes(old(slots)@)
            },
            Err(e) => row_refused(
                t.start,
                *step,
                t.name,
                seen.filter(of_code(t.by, code_of(t.by, n))),
                n,
                e@,
            ),
        },
{
    let ghost before = slots@;
    let ghost code = slots@[k as int].code@;
    let ghost members = seen.filter(of_code(t.by, code));
    proof {
        assert(slot_ok(before[k as int], seen, t));
    }
    let ghost first = choose|init: A|
        call_ensures(t.start, (), init) && #[trigger] folds_to(t.step, init, t.name, members, before[k as int].state->0);
    let n0: u64 = slots[k].rows;
    let rows: u64 = if n0 < u64::MAX {
        n0 + 1
    } else {
        n0
    };
    match name {
        Some(f) => {
            let value = field(data, f);
            let ghost v = value;
            let taken = slots[k].state.take();
            match taken {
                Some(a) => {
                    let ghost old_state = a;
                    match step(a, value) {
                        Ok(next) => {
                            proof {
                                assert(steps_to(*step, old_state, folded_value(f@, n), next)) by {
                                    assert(call_ensures(*step, (old_state, v), Ok::<A, String>(next)));
                                }
                                lemma_fold_push(*step, first, f@, members, old_state, n, next);
                            }
                            slots[k].state = Some(next);
                        },
                        Err(e) => {
                            proof {
                                assert(call_ensures(*step, (old_state, v), Err::<A, String>(e)));
                                assert(step_refused(*step, old_state, folded_value(t.name->0, n), e@));
                                assert(accumulates(t.start, t.step, t.name, members, old_state));
                                assert(row_refused(t.start, *step, t.name, members, n, e@));
                            }
                            return Err(e);
                        },
                    }
                },
                None => {},
            }
        },
        None => {},
    }
    slots[k].rows = rows;
    proof {
        let now = slots@;
        let more = seen.push(n);
        assert(now.len() == before.len());
        assert forall|i: int| 0 <= i < now.len() && i != k implies #[trigger] now[i] == before[i] by {}
        assert(now[k as int].code@ == before[k as int].code@);
        assert(json_view(now[k as int].value) == json_view(before[k as int].value));
        assert forall|i: int| 0 <= i < now.len() implies (#[trigger] now[i]).code@ == before[i].code@ by {
            if i != k {
                assert(now[i] == before[i]);
            }
        }
        assert(slot_codes(now) =~= slot_codes(before));
        assert forall|i: int| 0 <= i < now.len() implies slot_ok(#[trigger] now[i], more, t) by {
            assert(slot_ok(before[i], seen, t));
            lemma_members_push(seen, n, t.by, before[i].code@);
            if i != k {
                assert(now[i] == before[i]);
                lemma_lt_total(before[i].code@, code);
                assert(before[i].code@ != code) by {
                    if i < k {
                        assert(bytes_lt(before[i].code@, before[k as int].code@));
                    } else {
                        assert(bytes_lt(before[k as int].code@, before[i].code@));
                    }
                }
            } else {
                assert(folds_to(t.step, first, t.name, more.filter(of_code(t.by, code)), now[i].state->0));
            }
        }
        assert forall|c: Seq<u8>| #[trigger] carried(more, t.by, c) && asked_for(t.values, c) implies has_slot(now, c) by {
            let i = choose|i: int| 0 <= i < more.len() && code_of(t.by, #[trigger] more[i]) == c;
            if i < seen.len() {
                assert(more[i] == seen[i]);
                assert(carried(seen, t.by, c));
                assert(has_slot(before, c));
                let j = choose|j: int| 0 <= j < before.len() && (#[trigger] before[j]).code@ == c;
                assert(now[j].code@ == c);
            } else {
                assert(now[k as int].code@ == c);
            }
        }
    }
    Ok(())
}

/// Whether a value with the code is asked for.
fn is_asked(values: Option<&Vec<Json>>, code: &Vec<u8>) -> (r: bool)
    ensures
        r == asked_for(values_view(values), code@),
{
    let list = match values {
        Some(list) => list,
        None => { return true },
    };
    let ghost view = values_view(values);
    let mut i: usize = 0;
    while i < list.len()
        invariant
            i <= list@.len(),
            values == Some(list),
            view == values_view(values),
            forall|j: int| 0 <= j < i ==> order_code(joined(Some(#[trigger] view->0[j]))) != code@,
        decreases list.len() - i,
    {
        let value = join(Some(list[i].copy()));
        let mine = encode_order_value(value.as_ref());
        proof {
            assert(view->0[i as int] == list@[i as int]@);
        }
        if crate::bytes::bytes_eq(&mine, code) {
            proof {
                assert(named(view, code@));
            }
            return true;
        }
        i = i + 1;
    }
    false
}

/// Adds a slot for each value asked for that has none.
fn add_named<A, S: Fn(A, Option<Json>) -> Result<A, String>, I: Fn() -> A>(
    slots: &mut Vec<Slot<A>>,
    values: Option<&Vec<Json>>,
    start: &I,
    Ghost(t): Ghost<Task<A, S, I>>,
)
    requires
        tallied(old(slots)@, t.all, t),
        t.values == values_view(values),
        t.start == *start,
        call_requires(*start, ()),
    ensures
        tallied(final(slots)@, t.all, t),
        forall|code: Seq<u8>| #[trigger] named(t.values, code) ==> has_slot(final(slots)@, code),
{
    let list = match values {
        Some(list) => list,
        None => { return },
    };
    let mut i: usize = 0;
    while i < list.len()
        invariant
            i <= list@.len(),
            values == Some(list),
            t.values == values_view(values),
            t.start == *start,
            call_requires(*start, ()),
            tallied(slots@, t.all, t),
            forall|j: int| 0 <= j < i ==> has_slot(slots@, order_code(joined(Some((#[trigger] list@[j])@)))),
        decreases list.len() - i,
    {
        let value = join(Some(list[i].copy()));
        let code = encode_order_value(value.as_ref());
        let (at, found) = find_slot(slots, &code);
        let ghost before = slots@;
        if !found {
            proof {
                let vs = t.values->0;
                assert(vs[i as int] == list@[i as int]@);
                assert(order_code(joined(Some(vs[i as int]))) == code@);
                assert(named(t.values, code@));
                assert forall|j: int| 0 <= j < i implies order_code(joined(Some(#[trigger] vs[j]))) != code@ by {
                    assert(vs[j] == list@[j]@);
                }
                assert(names_first(t.values, i as int, json_view(value)));
                if carried(t.all, t.by, code@) {
                    assert(has_slot(before, code@));
                }
            }
            let slot = fresh_slot::<A, S, I>(code, value, start, Ghost(t.all), Ghost(t));
            open_slot::<A, S, I>(slots, at, slot, Ghost(t.all), Ghost(t));
            proof {
                assert forall|c: Seq<u8>| #[trigger] has_slot(before, c) implies has_slot(slots@, c) by {
                    let k = choose|k: int| 0 <= k < before.len() && (#[trigger] before[k]).code@ == c;
                    if k < at {
                        assert(slots@[k] == before[k]);
                    } else {
                        assert(slots@[k + 1] == before[k]);
                    }
                }
                assert(slots@[at as int].code@ == code@);
            }
        }
        proof {
            assert(has_slot(slots@, order_code(joined(Some(list@[i as int]@)))));
        }
        i = i + 1;
    }
    proof {
        assert forall|code: Seq<u8>| #[trigger] named(t.values, code) implies has_slot(slots@, code) by {
            let vs = t.values->0;
            let j = choose|j: int| 0 <= j < vs.len() && order_code(joined(Some(#[trigger] vs[j]))) == code;
            assert(vs[j] == list@[j]@);
        }
    }
}

/// The groups that slots hold.
fn close_slots<A, S: Fn(A, Option<Json>) -> Result<A, String>, I: Fn() -> A>(
    slots: Vec<Slot<A>>,
    Ghost(t): Ghost<Task<A, S, I>>,
) -> (r: Vec<Group<A>>)
    requires
        tallied(slots@, t.all, t),
        forall|code: Seq<u8>| #[trigger] named(t.values, code) ==> has_slot(slots@, code),
    ensures
        grouped(r@, t.all, t.by, t.name, t.values, t.start, t.step),
{
    let ghost full = slots@;
    let mut rest = slots;
    let mut back: Vec<Group<A>> = Vec::new();
    while rest.len() > 0
        invariant
            rest@.len() + back@.len() == full.len(),
            rest@ == full.take(rest@.len() as int),
            forall|i: int| 0 <= i < full.len() ==> (#[trigger] full[i]).state is Some,
            forall|i: int|
                0 <= i < back@.len() ==> (#[trigger] back@[i]).value == full[full.len() - 1 - i].value && back@[i].rows
                    == full[full.len() - 1 - i].rows && Some(back@[i].state) == full[full.len() - 1 - i].state,
        decreases rest.len(),
    {
        let ghost at = rest@.len() - 1;
        if let Some(slot) = rest.pop() {
            proof {
                assert(slot == full[at]);
                assert(rest@ =~= full.take(at));
            }
            if let Some(state) = slot.state {
                back.push(Group { value: slot.value, rows: slot.rows, state });
            }
        }
    }
    let ghost backs = back@;
    let mut out: Vec<Group<A>> = Vec::new();
    while back.len() > 0
        invariant
            back@.len() + out@.len() == full.len(),
            backs.len() == full.len(),
            back@ == backs.take(back@.len() as int),
            forall|i: int|
                0 <= i < backs.len() ==> (#[trigger] backs[i]).value == full[full.len() - 1 - i].value && backs[i].rows
                    == full[full.len() - 1 - i].rows && Some(backs[i].state) == full[full.len() - 1 - i].state,
            forall|i: int|
                0 <= i < out@.len() ==> (#[trigger] out@[i]).value == full[i].value && out@[i].rows == full[i].rows
                    && Some(out@[i].state) == full[i].state,
        decreases back.len(),
    {
        let ghost at = back@.len() - 1;
        if let Some(group) = back.pop() {
            proof {
                assert(group == backs[at]);
                assert(back@ =~= backs.take(at));
            }
            out.push(group);
        }
    }
    proof {
        assert forall|i: int| 0 <= i < out@.len() implies is_group(
            json_view((#[trigger] out@[i]).value),
            out@[i].rows,
            out@[i].state,
            t.all,
            t.all,
            t.by,
            t.name,
            t.values,
            t.start,
            t.step,
        ) by {
            assert(slot_ok(full[i], t.all, t));
        }
        assert forall|i: int, j: int| 0 <= i < j < out@.len() implies bytes_lt(
            order_code(json_view((#[trigger] out@[i]).value)),
            order_code(json_view((#[trigger] out@[j]).value)),
        ) by {
            assert(slot_ok(full[i], t.all, t) && slot_ok(full[j], t.all, t));
            assert(bytes_lt(full[i].code@, full[j].code@));
        }
        assert forall|code: Seq<u8>|
            #[trigger] named(t.values, code) || (carried(t.all, t.by, code) && asked_for(t.values, code)) implies has_group(
            out@,
            code,
        ) by {
            assert(has_slot(full, code));
            let k = choose|k: int| 0 <= k < full.len() && (#[trigger] full[k]).code@ == code;
            assert(slot_ok(full[k], t.all, t));
            assert(order_code(json_view(out@[k].value)) == code);
        }
    }
    out
}

proof fn lemma_no_more<A>(slots: Seq<Slot<A>>, codes: Seq<Seq<u8>>)
    requires
        codes.no_duplicates(),
        forall|i: int| 0 <= i < codes.len() ==> has_slot(slots, #[trigger] codes[i]),
    ensures
        codes.len() <= slots.len(),
{
    let mine = slot_codes(slots);
    assert forall|c: Seq<u8>| #[trigger] codes.to_set().contains(c) implies mine.to_set().contains(c) by {
        let i = choose|i: int| 0 <= i < codes.len() && codes[i] == c;
        assert(has_slot(slots, codes[i]));
        let k = choose|k: int| 0 <= k < slots.len() && (#[trigger] slots[k]).code@ == c;
        assert(mine[k] == c);
    }
    codes.unique_seq_to_set();
    seq_to_set_is_finite(mine);
    lemma_len_subset(codes.to_set(), mine.to_set());
    mine.lemma_cardinality_of_set();
}

/// The slots' codes and one more are codes of groups.
proof fn lemma_many_codes<A, S: Fn(A, Option<Json>) -> Result<A, String>, I: Fn() -> A>(
    slots: Seq<Slot<A>>,
    seen: Seq<NodeView>,
    t: Task<A, S, I>,
    code: Seq<u8>,
)
    requires
        sorted_slots(slots),
        forall|i: int| 0 <= i < slots.len() ==> slot_ok(#[trigger] slots[i], seen, t),
        all_carried(slots, t),
        !has_slot(slots, code),
        carried(t.all, t.by, code) && asked_for(t.values, code),
    ensures
        row_codes(slot_codes(slots).push(code), t.all, t.by, t.values),
{
    let codes = slot_codes(slots).push(code);
    assert forall|i: int, j: int| 0 <= i < j < codes.len() implies codes[i] != codes[j] by {
        assert(codes[i] == slots[i].code@);
        if j < slots.len() {
            assert(codes[j] == slots[j].code@);
            lemma_lt_total(slots[i].code@, slots[j].code@);
        }
    }
    assert forall|i: int| 0 <= i < codes.len() implies carried(t.all, t.by, #[trigger] codes[i]) && asked_for(
        t.values,
        codes[i],
    ) by {
        if i < slots.len() {
            assert(codes[i] == slots[i].code@);
            assert(slot_ok(slots[i], seen, t));
        }
    }
}

/// Different codes, each one of these, are no more than these.
proof fn lemma_fit(codes: Seq<Seq<u8>>, held: Seq<Seq<u8>>)
    requires
        codes.no_duplicates(),
        held.no_duplicates(),
        forall|i: int| 0 <= i < codes.len() ==> held.contains(#[trigger] codes[i]),
    ensures
        codes.len() <= held.len(),
{
    assert forall|c: Seq<u8>| #[trigger] codes.to_set().contains(c) implies held.to_set().contains(c) by {
        let i = choose|i: int| 0 <= i < codes.len() && codes[i] == c;
        assert(held.contains(codes[i]));
    }
    codes.unique_seq_to_set();
    held.unique_seq_to_set();
    seq_to_set_is_finite(held);
    lemma_len_subset(codes.to_set(), held.to_set());
}

impl Tables {
    /// Groups by reading every node that may be wanted.
    fn group_by_scan<
        'q,
        F: Fn(&Filter, &Node) -> Result<bool, String>,
        A,
        S: Fn(A, Option<Json>) -> Result<A, String>,
        I: Fn() -> A,
    >(
        &self,
        q: &Query<'q>,
        by: &str,
        values: Option<&Vec<Json>>,
        name: Option<&str>,
        start: &I,
        step: &S,
        cap: usize,
        eval: &F,
        cache: &mut RecordCache,
    ) -> (r: Result<Vec<Group<A>>, FoldError>)
        requires
            self.inv(),
            old(cache).wf(),
            agrees(old(cache)@, self.heap()),
            evaluates(*eval),
            steps(*step),
            call_requires(*start, ()),
            values matches Some(list) ==> list@.len() <= MAX_GROUP_VALUES,
        ensures
            final(cache).wf(),
            agrees(final(cache)@, self.heap()),
            groups_answer(
                r,
                self@.nodes,
                *eval,
                q@,
                by@,
                values_view(values),
                str_view(name),
                *start,
                *step,
                cap as nat,
            ),
    {
        let ghost nodes = self@.nodes;
        let ghost want = wanted(*eval, q@);
        let rows = self.scan_candidates(q.kind, q.owner, None, false);
        let ghost all = rows.all();
        let ghost good = all.filter(want);
        let ghost t = Task {
            all: good,
            by: by@,
            name: str_view(name),
            values: values_view(values),
            start: *start,
            step: *step,
            states: core::marker::PhantomData::<A>,
        };
        proof {
            let pick = scanned(q@.kind, q@.owner);
            lemma_filter_listing(all, nodes, pick, want, RankBy::Address, None, false);
            assert(wanted_rows(good, nodes, want));
            assert forall|i: int| 0 <= i < all.len() implies live(nodes, #[trigger] all[i]) by {
                assert(belongs(nodes, pick, RankBy::Address, None, false, all[i]));
            }
            reveal(Seq::filter);
            assert(all.take(0).filter(want) =~= Seq::<NodeView>::empty());
        }
        let mut source = rows;
        let mut slots: Vec<Slot<A>> = Vec::new();
        loop
            invariant
                self.inv(),
                cache.wf(),
                agrees(cache@, self.heap()),
                evaluates(*eval),
                steps(*step),
                call_requires(*start, ()),
                values matches Some(list) ==> list@.len() <= MAX_GROUP_VALUES,
                source.wf(self),
                source.all() == all,
                nodes == self@.nodes,
                want == wanted(*eval, q@),
                good == all.filter(want),
                is_listing(all, nodes, scanned(q@.kind, q@.owner), RankBy::Address, None, false),
                wanted_rows(good, nodes, want),
                forall|i: int| 0 <= i < all.len() ==> live(nodes, #[trigger] all[i]),
                t.all == good,
                t.by == by@,
                t.name == str_view(name),
                t.values == values_view(values),
                t.start == *start,
                t.step == *step,
                source.taken() <= all.len(),
                judged_upto(all, judgeable(*eval, q@), source.taken()),
                tallied(slots@, all.take(source.taken() as int).filter(want), t),
                all_carried(slots@, t),
                slots@.len() <= cap,
            ensures
                source.taken() == all.len(),
            decreases all.len() - source.taken(),
        {
            let ghost at = source.taken() as int;
            let ghost seen = all.take(at).filter(want);
            let node = match source.next(self, cache) {
                Some(node) => node,
                None => {
                    break;
                },
            };
            proof {
                lemma_filter_step(all, want, at);
            }
            match judged(eval, q, &node) {
                Ok(true) => {},
                Ok(false) => {
                    proof {
                        assert(!want(all[at]));
                    }
                    continue;
                },
                Err(message) => {
                    proof {
                        assert(accepted(*eval, q@, all[at]) == Err::<bool, Seq<char>>(message@));
                    }
                    return Err(FoldError::Condition { message });
                },
            }
            let ghost n = all[at];
            let ghost spot = seen.len() as int;
            proof {
                assert(want(n));
                lemma_filter_split(all, want, at + 1);
                assert(good[spot] == n);
            }
            let value = join(field(&node.data, by));
            let code = encode_order_value(value.as_ref());
            if !is_asked(values, &code) {
                proof {
                    lemma_skip(slots@, seen, n, t);
                }
                continue;
            }
            let (found_at, found) = find_slot(&slots, &code);
            if !found {
                proof {
                    assert(code_of(t.by, good[spot]) == code@);
                    assert(carried(good, t.by, code@));
                }
                if slots.len() >= cap {
                    proof {
                        lemma_many_codes(slots@, seen, t, code@);
                        let codes = slot_codes(slots@).push(code@);
                        assert(wanted_rows(good, nodes, want) && row_codes(codes, good, by@, t.values) && codes.len()
                            > cap);
                    }
                    return Err(FoldError::ScanLimit { max: cap });
                }
                proof {
                    if carried(seen, t.by, code@) {
                        assert(has_slot(slots@, code@));
                    }
                    assert(good.take(spot) =~= seen);
                    lemma_leads(good, spot, t.by, json_view(value));
                }
                let slot = fresh_slot::<A, S, I>(copy_bytes(&code), value, start, Ghost(seen), Ghost(t));
                open_slot::<A, S, I>(&mut slots, found_at, slot, Ghost(seen), Ghost(t));
            }
            let ghost opened = slots@;
            match fold_row::<A, S, I>(&mut slots, found_at, &node.data, name, step, Ghost(n), Ghost(seen), Ghost(t)) {
                Ok(_) => {
                    proof {
                        lemma_same_codes(opened, slots@, t);
                        assert(slot_codes(slots@).len() <= cap);
                    }
                },
                Err(message) => {
                    proof {
                        assert(good.take(spot) =~= seen);
                        assert(group_refused(*start, *step, t.name, t.by, good, message@));
                    }
                    return Err(FoldError::Value { message });
                },
            }
        }
        proof {
            assert(all.take(all.len() as int) =~= all);
            assert forall|codes: Seq<Seq<u8>>| #[trigger] row_codes(codes, good, t.by, t.values) implies codes.len()
                <= cap by {
                lemma_no_more(slots@, codes);
            }
            assert forall|n: NodeView| #[trigger] live(nodes, n) implies accepted(*eval, q@, n) is Ok by {
                if eligible(q@, n) {
                    assert(belongs(nodes, scanned(q@.kind, q@.owner), RankBy::Address, None, false, n));
                    let i = choose|i: int| 0 <= i < all.len() && all[i] == n;
                    assert(judgeable(*eval, q@)(all[i]));
                }
            }
        }
        add_named::<A, S, I>(&mut slots, values, start, Ghost(t));
        let out = close_slots::<A, S, I>(slots, Ghost(t));
        Ok(out)
    }
}

/// A row that is not asked for changes nothing.
proof fn lemma_skip<A, S: Fn(A, Option<Json>) -> Result<A, String>, I: Fn() -> A>(
    slots: Seq<Slot<A>>,
    seen: Seq<NodeView>,
    n: NodeView,
    t: Task<A, S, I>,
)
    requires
        tallied(slots, seen, t),
        !asked_for(t.values, code_of(t.by, n)),
    ensures
        tallied(slots, seen.push(n), t),
{
    let more = seen.push(n);
    assert forall|i: int| 0 <= i < slots.len() implies slot_ok(#[trigger] slots[i], more, t) by {
        assert(slot_ok(slots[i], seen, t));
        lemma_members_push(seen, n, t.by, slots[i].code@);
    }
    assert forall|c: Seq<u8>| #[trigger] carried(more, t.by, c) && asked_for(t.values, c) implies has_slot(slots, c) by {
        let i = choose|i: int| 0 <= i < more.len() && code_of(t.by, #[trigger] more[i]) == c;
        if i < seen.len() {
            assert(more[i] == seen[i]);
            assert(carried(seen, t.by, c));
        }
    }
}

// ---------------------------------------------------------------------
// From an index
// ---------------------------------------------------------------------

proof fn lemma_listing_distinct(
    rows: Seq<NodeView>,
    nodes: Nodes,
    pick: spec_fn(NodeView) -> bool,
    by: RankBy,
    desc: bool,
)
    requires
        is_listing(rows, nodes, pick, by, None, desc),
    ensures
        rows.no_duplicates(),
{
    assert forall|i: int, j: int| 0 <= i < j < rows.len() implies rows[i] != rows[j] by {
        assert(past(rank(by, rows[i]), rank(by, rows[j]), desc));
        lemma_lt_total(rank(by, rows[i]), rank(by, rows[j]));
    }
}

/// Listings of the same nodes are as long as each other, whatever the order.
pub proof fn lemma_listing_len(
    a: Seq<NodeView>,
    b: Seq<NodeView>,
    nodes: Nodes,
    pick: spec_fn(NodeView) -> bool,
    choice: spec_fn(NodeView) -> bool,
    x: RankBy,
    y: RankBy,
    desc: bool,
    back: bool,
)
    requires
        is_listing(a, nodes, pick, x, None, desc),
        is_listing(b, nodes, choice, y, None, back),
        forall|n: NodeView| live(nodes, n) ==> (#[trigger] pick(n) <==> choice(n)),
    ensures
        a.len() == b.len(),
        forall|n: NodeView| a.contains(n) <==> #[trigger] b.contains(n),
{
    lemma_listing_distinct(a, nodes, pick, x, desc);
    lemma_listing_distinct(b, nodes, choice, y, back);
    a.unique_seq_to_set();
    b.unique_seq_to_set();
    assert forall|n: NodeView| a.contains(n) <==> #[trigger] b.contains(n) by {
        if a.contains(n) {
            let i = choose|i: int| 0 <= i < a.len() && a[i] == n;
            assert(belongs(nodes, pick, x, None, desc, a[i]));
            assert(pick(n));
            assert(belongs(nodes, choice, y, None, back, n));
        }
        if b.contains(n) {
            let i = choose|i: int| 0 <= i < b.len() && b[i] == n;
            assert(belongs(nodes, choice, y, None, back, b[i]));
            assert(pick(n) <==> choice(n));
            assert(belongs(nodes, pick, x, None, desc, n));
        }
    }
    assert(a.to_set() =~= b.to_set());
}

/// The rows with a code, among wanted rows.
pub open spec fn both(want: spec_fn(NodeView) -> bool, by: Seq<char>, code: Seq<u8>) -> spec_fn(NodeView) -> bool {
    |n: NodeView| want(n) && code_of(by, n) == code
}

proof fn lemma_filter_congruent(rows: Seq<NodeView>, f: spec_fn(NodeView) -> bool, g: spec_fn(NodeView) -> bool)
    requires
        forall|i: int| 0 <= i < rows.len() ==> f(#[trigger] rows[i]) == g(rows[i]),
    ensures
        rows.filter(f) == rows.filter(g),
    decreases rows.len(),
{
    reveal(Seq::filter);
    if rows.len() > 0 {
        let init = rows.drop_last();
        assert forall|i: int| 0 <= i < init.len() implies f(#[trigger] init[i]) == g(init[i]) by {
            assert(init[i] == rows[i]);
        }
        lemma_filter_congruent(init, f, g);
        assert(f(rows[rows.len() - 1]) == g(rows[rows.len() - 1]));
    }
}

/// The members of a group, as a listing.
pub proof fn lemma_members_listing(
    rows: Seq<NodeView>,
    nodes: Nodes,
    want: spec_fn(NodeView) -> bool,
    order: RankBy,
    by: Seq<char>,
    code: Seq<u8>,
)
    requires
        is_listing(rows, nodes, want, order, None, false),
    ensures
        is_listing(rows.filter(of_code(by, code)), nodes, both(want, by, code), order, None, false),
{
    let f = of_code(by, code);
    let g = both(want, by, code);
    assert forall|i: int| 0 <= i < rows.len() implies f(#[trigger] rows[i]) == g(rows[i]) by {
        assert(belongs(nodes, want, order, None, false, rows[i]));
    }
    lemma_filter_congruent(rows, f, g);
    assert forall|n: NodeView| live(nodes, n) && #[trigger] g(n) implies want(n) by {}
    lemma_filter_listing(rows, nodes, want, g, order, None, false);
}

/// The first row with a code in the order of the field is the first in the
/// order of the addresses.
proof fn lemma_leads_good(
    all: Seq<NodeView>,
    good: Seq<NodeView>,
    nodes: Nodes,
    want: spec_fn(NodeView) -> bool,
    by: Seq<char>,
    v: Option<JsonView>,
)
    requires
        is_listing(all, nodes, want, RankBy::Field(by), None, false),
        wanted_rows(good, nodes, want),
        leads(v, all, by),
    ensures
        leads(v, good, by),
{
    let code = order_code(v);
    let g = both(want, by, code);
    let a = all.filter(of_code(by, code));
    let b = good.filter(of_code(by, code));
    lemma_members_listing(all, nodes, want, RankBy::Field(by), by, code);
    lemma_members_listing(good, nodes, want, RankBy::Address, by, code);
    lemma_listing_len(a, b, nodes, g, g, RankBy::Field(by), RankBy::Address, false, false);
    lemma_joined(v);
    lemma_joined(field_of(a[0].data, by));
    if v is None {
        assert(belongs(nodes, g, RankBy::Address, None, false, b[0]));
        lemma_joined(field_of(b[0].data, by));
    } else {
        assert forall|n: NodeView| #[trigger] g(n) implies order_code(field_of(n.data, by)) == code by {
            lemma_joined(field_of(n.data, by));
        }
        lemma_one_value(a, nodes, g, by, code, false);
        law_listing_is_unique(a, b, nodes, g, RankBy::Address, None, false);
    }
}

/// In whatever order the rows were met, the groups are the same, where
/// nothing is folded.
proof fn lemma_regroup<A, S: Fn(A, Option<Json>) -> Result<A, String>, I: Fn() -> A>(
    groups: Seq<Group<A>>,
    all: Seq<NodeView>,
    good: Seq<NodeView>,
    nodes: Nodes,
    want: spec_fn(NodeView) -> bool,
    order: RankBy,
    by: Seq<char>,
    values: Option<Seq<JsonView>>,
    start: I,
    step: S,
)
    requires
        order == RankBy::Field(by),
        is_listing(all, nodes, want, order, None, false),
        wanted_rows(good, nodes, want),
        grouped(groups, all, by, None, values, start, step),
    ensures
        grouped(groups, good, by, None, values, start, step),
{
    lemma_listing_len(all, good, nodes, want, want, order, RankBy::Address, false, false);
    assert forall|i: int| 0 <= i < groups.len() implies is_group(
        json_view((#[trigger] groups[i]).value),
        groups[i].rows,
        groups[i].state,
        good,
        good,
        by,
        None,
        values,
        start,
        step,
    ) by {
        let v = json_view(groups[i].value);
        let code = order_code(v);
        assert(is_group(v, groups[i].rows, groups[i].state, all, all, by, None, values, start, step));
        lemma_members_listing(all, nodes, want, order, by, code);
        lemma_members_listing(good, nodes, want, RankBy::Address, by, code);
        let g = both(want, by, code);
        lemma_listing_len(
            all.filter(of_code(by, code)),
            good.filter(of_code(by, code)),
            nodes,
            g,
            g,
            order,
            RankBy::Address,
            false,
            false,
        );
        let init = choose|init: A|
            call_ensures(start, (), init) && #[trigger] folds_to(
                step,
                init,
                None,
                all.filter(of_code(by, code)),
                groups[i].state,
            );
        assert(folds_to(step, init, None, good.filter(of_code(by, code)), groups[i].state));
        if leads(v, all, by) {
            lemma_leads_good(all, good, nodes, want, by, v);
        }
    }
    assert forall|code: Seq<u8>|
        #[trigger] named(values, code) || (carried(good, by, code) && asked_for(values, code)) implies has_group(
        groups,
        code,
    ) by {
        if carried(good, by, code) {
            lemma_carried(good, all, by, code);
        }
    }
}

proof fn lemma_carried(a: Seq<NodeView>, b: Seq<NodeView>, by: Seq<char>, code: Seq<u8>)
    requires
        forall|n: NodeView| a.contains(n) ==> #[trigger] b.contains(n),
        carried(a, by, code),
    ensures
        carried(b, by, code),
{
    let i = choose|i: int| 0 <= i < a.len() && code_of(by, #[trigger] a[i]) == code;
    assert(a.contains(a[i]));
    assert(b.contains(a[i]));
    let m = choose|m: int| 0 <= m < b.len() && b[m] == a[i];
    assert(code_of(by, b[m]) == code);
}

/// The query asks for all nodes of a kind, and nothing else.
pub open spec fn whole_kind(q: QueryView, kind: Seq<char>) -> bool {
    q.kind == Some(kind) && q.owner is None && q.requester is None && q.filter is None
}

impl Tables {
    /// Groups by walking the index over the field: one node is read for each
    /// value.
    fn group_by_index<
        'q,
        F: Fn(&Filter, &Node) -> Result<bool, String>,
        A,
        S: Fn(A, Option<Json>) -> Result<A, String>,
        I: Fn() -> A,
    >(
        &self,
        x: usize,
        q: &Query<'q>,
        by: &str,
        start: &I,
        step: &S,
        cap: usize,
        eval: &F,
        cache: &mut RecordCache,
    ) -> (r: Result<Vec<Group<A>>, FoldError>)
        requires
            self.inv(),
            old(cache).wf(),
            agrees(old(cache)@, self.heap()),
            steps(*step),
            call_requires(*start, ()),
            x < self@.data.len(),
            self@.data[x as int].field == by@,
            whole_kind(q@, self@.data[x as int].kind),
        ensures
            final(cache).wf(),
            agrees(final(cache)@, self.heap()),
            groups_answer(r, self@.nodes, *eval, q@, by@, None, None, *start, *step, cap as nat),
    {
        let ghost nodes = self@.nodes;
        let ghost want = wanted(*eval, q@);
        let ghost kind = self@.data[x as int].kind;
        let prefix: Vec<u8> = Vec::new();
        let ghost pick = under_prefix(kind, by@, prefix@);
        let rows = self.scan_data(x, prefix, None, false);
        let ghost all = rows.all();
        let ghost order = RankBy::Field(by@);
        proof {
            assert forall|n: NodeView| #[trigger] want(n) <==> pick(n) by {
                assert(value_key(field_of(n.data, by@), n.address).take(0) =~= prefix@);
            }
            assert(want =~= pick);
        }
        let ghost every = self.lemma_all_rows();
        let ghost good = every.filter(want);
        proof {
            lemma_filter_listing(every, nodes, scanned(None, None), want, RankBy::Address, None, false);
            assert(wanted_rows(good, nodes, want));
            lemma_listing_len(all, good, nodes, want, want, order, RankBy::Address, false, false);
        }
        let ghost t = Task {
            all,
            by: by@,
            name: None,
            values: None,
            start: *start,
            step: *step,
            states: core::marker::PhantomData::<A>,
        };
        let mut source = rows;
        let mut slots: Vec<Slot<A>> = Vec::new();
        proof {
            assert(all.take(0) =~= Seq::<NodeView>::empty());
        }
        loop
            invariant
                self.inv(),
                cache.wf(),
                agrees(cache@, self.heap()),
                steps(*step),
                call_requires(*start, ()),
                source.wf(self),
                source.all() == all,
                source.indexed_by() == Some(by@),
                nodes == self@.nodes,
                want == wanted(*eval, q@),
                order == RankBy::Field(by@),
                is_listing(all, nodes, want, order, None, false),
                wanted_rows(good, nodes, want),
                forall|n: NodeView| all.contains(n) <==> #[trigger] good.contains(n),
                t.all == all,
                t.by == by@,
                t.name is None,
                t.values is None,
                t.start == *start,
                t.step == *step,
                source.taken() <= all.len(),
                tallied(slots@, all.take(source.taken() as int), t),
                all_carried(slots@, t),
                slots@.len() <= cap,
            ensures
                source.taken() == all.len(),
            decreases all.len() - source.taken(),
        {
            let ghost at = source.taken() as int;
            let ghost seen = all.take(at);
            let (own, address) = match source.next_coded(self) {
                Some(found) => found,
                None => {
                    break;
                },
            };
            let ghost n = all[at];
            let code = join_code(own, Ghost(field_of(n.data, by@)));
            proof {
                assert(all.take(at + 1) =~= seen.push(n));
                assert(belongs(nodes, want, order, None, false, all[at]));
            }
            let (place, found) = find_slot(&slots, &code);
            let mut found_at: usize = place;
            if !found {
                proof {
                    assert(code_of(t.by, all[at]) == code@);
                    assert(carried(all, t.by, code@));
                }
                if slots.len() >= cap {
                    proof {
                        lemma_many_codes(slots@, seen, t, code@);
                        let codes = slot_codes(slots@).push(code@);
                        assert forall|i: int| 0 <= i < codes.len() implies carried(good, by@, #[trigger] codes[i]) by {
                            assert(carried(all, by@, codes[i]));
                            lemma_carried(all, good, by@, codes[i]);
                        }
                        assert(row_codes(codes, good, by@, None));
                        assert(wanted_rows(good, nodes, want) && row_codes(codes, good, by@, None) && codes.len() > cap);
                    }
                    return Err(FoldError::ScanLimit { max: cap });
                }
                let value = match self.read_node(&address, cache) {
                    Some(node) => join(field(&node.data, by)),
                    None => None,
                };
                proof {
                    if carried(seen, t.by, code@) {
                        assert(has_slot(slots@, code@));
                    }
                    assert(joined(field_of(all[at].data, t.by)) == json_view(value));
                    lemma_leads(all, at, t.by, json_view(value));
                }
                let own = encode_order_value(value.as_ref());
                proof {
                    assert(own@ == code@);
                }
                let (place, again) = find_slot(&slots, &own);
                found_at = place;
                if !again {
                    let slot = fresh_slot::<A, S, I>(own, value, start, Ghost(seen), Ghost(t));
                    open_slot::<A, S, I>(&mut slots, found_at, slot, Ghost(seen), Ghost(t));
                }
            }
            let ghost opened = slots@;
            match fold_row::<A, S, I>(&mut slots, found_at, "", None, step, Ghost(n), Ghost(seen), Ghost(t)) {
                Ok(_) => {
                    proof {
                        lemma_same_codes(opened, slots@, t);
                        assert(slot_codes(slots@).len() <= cap);
                    }
                },
                Err(message) => { return Err(FoldError::Value { message }) },
            }
        }
        proof {
            assert(all.take(all.len() as int) =~= all);
            assert forall|codes: Seq<Seq<u8>>| #[trigger] row_codes(codes, good, by@, None) implies codes.len() <= cap by {
                assert forall|i: int| 0 <= i < codes.len() implies has_slot(slots@, #[trigger] codes[i]) by {
                    lemma_carried(good, all, by@, codes[i]);
                }
                lemma_no_more(slots@, codes);
            }
        }
        let out = close_slots::<A, S, I>(slots, Ghost(t));
        proof {
            lemma_regroup(out@, all, good, nodes, want, order, by@, None, *start, *step);
        }
        Ok(out)
    }
}

/// The nodes whose value has this very code.
spec fn of_raw(by: Seq<char>, code: Seq<u8>) -> spec_fn(NodeView) -> bool {
    |n: NodeView| order_code(field_of(n.data, by)) == code
}

proof fn lemma_filter_either(
    rows: Seq<NodeView>,
    f: spec_fn(NodeView) -> bool,
    a: spec_fn(NodeView) -> bool,
    b: spec_fn(NodeView) -> bool,
)
    requires
        forall|n: NodeView| #[trigger] f(n) <==> a(n) || b(n),
        forall|n: NodeView| !(#[trigger] a(n) && b(n)),
    ensures
        rows.filter(f).len() == rows.filter(a).len() + rows.filter(b).len(),
    decreases rows.len(),
{
    reveal(Seq::filter);
    if rows.len() > 0 {
        lemma_filter_either(rows.drop_last(), f, a, b);
        let n = rows.last();
        assert(f(n) <==> a(n) || b(n));
        assert(!(a(n) && b(n)));
    }
}

impl Tables {
    /// Counts the rows of a code in an index.
    fn count_code(
        &self,
        x: usize,
        value: Option<&Json>,
        Ghost(want): Ghost<spec_fn(NodeView) -> bool>,
        Ghost(good): Ghost<Seq<NodeView>>,
    ) -> (n: u64)
        requires
            self.inv(),
            x < self@.data.len(),
            forall|n: NodeView| #[trigger] want(n) <==> n.kind == self@.data[x as int].kind,
            wanted_rows(good, self@.nodes, want),
        ensures
            n == capped(good.filter(of_raw(self@.data[x as int].field, order_code(ref_view(value)))).len()),
    {
        let ghost nodes = self@.nodes;
        let ghost by = self@.data[x as int].field;
        let ghost v = ref_view(value);
        let code = encode_order_value(value);
        let rows = self.scan_data(x, copy_bytes(&code), None, false);
        let ghost all = rows.all();
        let count: u64 = self.count_rows(rows);
        proof {
            let pick = under_prefix(self@.data[x as int].kind, by, code@);
            let f = of_raw(by, code@);
            let g = |n: NodeView| want(n) && f(n);
            assert forall|i: int| 0 <= i < good.len() implies f(#[trigger] good[i]) == g(good[i]) by {
                assert(belongs(nodes, want, RankBy::Address, None, false, good[i]));
            }
            lemma_filter_congruent(good, f, g);
            lemma_filter_listing(good, nodes, want, g, RankBy::Address, None, false);
            assert forall|n: NodeView| live(nodes, n) implies (#[trigger] pick(n) <==> g(n)) by {
                lemma_code_prefix(field_of(n.data, by), utf8(n.address), v);
                assert(want(n) <==> n.kind == self@.data[x as int].kind);
            }
            lemma_listing_len(all, good.filter(f), nodes, pick, g, RankBy::Field(by), RankBy::Address, false, false);
        }
        count
    }

    /// Counts the rows of a group in an index.
    fn count_joined(
        &self,
        x: usize,
        value: &Option<Json>,
        Ghost(want): Ghost<spec_fn(NodeView) -> bool>,
        Ghost(good): Ghost<Seq<NodeView>>,
    ) -> (n: u64)
        requires
            self.inv(),
            x < self@.data.len(),
            forall|n: NodeView| #[trigger] want(n) <==> n.kind == self@.data[x as int].kind,
            wanted_rows(good, self@.nodes, want),
            json_view(*value) == joined(json_view(*value)),
        ensures
            n == capped(good.filter(of_code(self@.data[x as int].field, order_code(json_view(*value)))).len()),
    {
        let ghost by = self@.data[x as int].field;
        let ghost v = json_view(*value);
        let ghost f = of_code(by, order_code(v));
        let own: u64 = self.count_code(x, value.as_ref(), Ghost(want), Ghost(good));
        if value.is_some() {
            proof {
                lemma_joined(v);
                assert forall|i: int| 0 <= i < good.len() implies f(#[trigger] good[i]) == of_raw(by, order_code(v))(
                    good[i],
                ) by {
                    lemma_joined(field_of(good[i].data, by));
                    lemma_raw(field_of(good[i].data, by), v);
                }
                lemma_filter_congruent(good, f, of_raw(by, order_code(v)));
            }
            return own;
        }
        let null = Json { text: String::new(), shape: Shape::Null };
        let other: u64 = self.count_code(x, Some(&null), Ghost(want), Ghost(good));
        proof {
            let a = of_raw(by, order_code(None));
            let b = of_raw(by, order_code(Some(null@)));
            assert forall|n: NodeView| #[trigger] f(n) <==> a(n) || b(n) by {
                lemma_joined(field_of(n.data, by));
                lemma_raw(field_of(n.data, by), Some(null@));
            }
            lemma_raw(Some(null@), None);
            lemma_filter_either(good, f, a, b);
        }
        if own < u64::MAX - other {
            own + other
        } else {
            u64::MAX
        }
    }
}

/// Null alone has the code of null, and nothing that of nothing.
proof fn lemma_raw(v: Option<JsonView>, w: Option<JsonView>)
    ensures
        order_code(v) == order_code(None) <==> v is None,
        order_code(v)[0] == TAG_NULL <==> v is Some && v->0.shape is Null,
        v is Some && v->0.shape is Null ==> order_code(v) == seq![TAG_NULL],
        order_code(v) == order_code(w) ==> (joined(v) is None <==> joined(w) is None),
{
    assert(order_code(None)[0] == TAG_NOTHING);
    assert(v is Some ==> order_code(v)[0] != TAG_NOTHING);
    assert(w is Some ==> order_code(w)[0] != TAG_NOTHING);
    assert(order_code(w)[0] == TAG_NULL <==> w is Some && w->0.shape is Null);
}

/// One more code of a group is held.
proof fn lemma_hold_more<A>(
    held: Seq<Seq<u8>>,
    slots: Seq<Slot<A>>,
    code: Seq<u8>,
    good: Seq<NodeView>,
    by: Seq<char>,
    values: Option<Seq<JsonView>>,
)
    requires
        row_codes(held, good, by, values),
        forall|k: int| 0 <= k < held.len() ==> has_slot(slots, #[trigger] held[k]),
        !has_slot(slots, code),
        named(values, code),
        good.filter(of_code(by, code)).len() > 0,
    ensures
        row_codes(held.push(code), good, by, values),
{
    let more = held.push(code);
    if !carried(good, by, code) {
        lemma_not_carried(good, by, code);
    }
    assert forall|k: int| 0 <= k < more.len() implies carried(good, by, #[trigger] more[k]) && asked_for(
        values,
        more[k],
    ) by {
        if k < held.len() {
            assert(more[k] == held[k]);
        }
    }
    assert forall|k: int, j: int| 0 <= k < j < more.len() implies more[k] != more[j] by {
        assert(more[k] == held[k]);
        assert(has_slot(slots, held[k]));
        if j < held.len() {
            assert(more[j] == held[j]);
        }
    }
}

/// The codes held are still those of the slots with rows.
proof fn lemma_hold_slot<A>(
    before: Seq<Slot<A>>,
    now: Seq<Slot<A>>,
    at: int,
    slot: Slot<A>,
    kept: Seq<Seq<u8>>,
    held: Seq<Seq<u8>>,
)
    requires
        0 <= at <= before.len(),
        now == before.insert(at, slot),
        held == if slot.rows > 0 {
            kept.push(slot.code@)
        } else {
            kept
        },
        forall|k: int| 0 <= k < kept.len() ==> has_slot(before, #[trigger] kept[k]),
        forall|k: int| 0 <= k < before.len() && (#[trigger] before[k]).rows > 0 ==> kept.contains(before[k].code@),
        has_slot(now, slot.code@),
        forall|c: Seq<u8>| #[trigger] has_slot(before, c) ==> has_slot(now, c),
    ensures
        forall|k: int| 0 <= k < held.len() ==> has_slot(now, #[trigger] held[k]),
        forall|k: int| 0 <= k < now.len() && (#[trigger] now[k]).rows > 0 ==> held.contains(now[k].code@),
{
    assert forall|k: int| 0 <= k < now.len() && (#[trigger] now[k]).rows > 0 implies held.contains(now[k].code@) by {
        if k == at {
            assert(held.last() == slot.code@);
        } else {
            let c = if k < at {
                before[k]
            } else {
                before[k - 1]
            };
            assert(now[k] == c);
            assert(kept.contains(c.code@));
            let j = choose|j: int| 0 <= j < kept.len() && kept[j] == c.code@;
            assert(held[j] == c.code@);
        }
    }
    assert forall|k: int| 0 <= k < held.len() implies has_slot(now, #[trigger] held[k]) by {
        if k < kept.len() {
            assert(held[k] == kept[k]);
            assert(has_slot(before, kept[k]));
        }
    }
}

impl Tables {
    /// Counts the rows of each value asked for in the index over the field.
    fn group_by_values<
        'q,
        F: Fn(&Filter, &Node) -> Result<bool, String>,
        A,
        S: Fn(A, Option<Json>) -> Result<A, String>,
        I: Fn() -> A,
    >(
        &self,
        x: usize,
        q: &Query<'q>,
        by: &str,
        values: &Vec<Json>,
        start: &I,
        step: &S,
        cap: usize,
        eval: &F,
    ) -> (r: Result<Vec<Group<A>>, FoldError>)
        requires
            self.inv(),
            call_requires(*start, ()),
            x < self@.data.len(),
            self@.data[x as int].field == by@,
            whole_kind(q@, self@.data[x as int].kind),
            values@.len() <= MAX_GROUP_VALUES,
        ensures
            groups_answer(r, self@.nodes, *eval, q@, by@, values_view(Some(values)), None, *start, *step, cap as nat),
    {
        let ghost nodes = self@.nodes;
        let ghost want = wanted(*eval, q@);
        let ghost kind = self@.data[x as int].kind;
        let ghost view = values_view(Some(values));
        let ghost every = self.lemma_all_rows();
        let ghost good = every.filter(want);
        proof {
            lemma_filter_listing(every, nodes, scanned(None, None), want, RankBy::Address, None, false);
            assert(wanted_rows(good, nodes, want));
        }
        let ghost t = Task {
            all: good,
            by: by@,
            name: None,
            values: view,
            start: *start,
            step: *step,
            states: core::marker::PhantomData::<A>,
        };
        let mut slots: Vec<Slot<A>> = Vec::new();
        let mut full: usize = 0;
        let ghost mut held = Seq::<Seq<u8>>::empty();
        let mut i: usize = 0;
        while i < values.len()
            invariant
                self.inv(),
                call_requires(*start, ()),
                x < self@.data.len(),
                self@.data[x as int].field == by@,
                kind == self@.data[x as int].kind,
                whole_kind(q@, kind),
                values@.len() <= MAX_GROUP_VALUES,
                nodes == self@.nodes,
                want == wanted(*eval, q@),
                wanted_rows(good, nodes, want),
                view == values_view(Some(values)),
                t.all == good,
                t.by == by@,
                t.name is None,
                t.values == view,
                t.start == *start,
                t.step == *step,
                i <= values@.len(),
                full <= cap,
                full == held.len(),
                row_codes(held, good, by@, view),
                forall|k: int| 0 <= k < held.len() ==> has_slot(slots@, #[trigger] held[k]),
                forall|k: int| 0 <= k < slots@.len() && (#[trigger] slots@[k]).rows > 0 ==> held.contains(slots@[k].code@),
                sorted_slots(slots@),
                forall|k: int| 0 <= k < slots@.len() ==> slot_ok(#[trigger] slots@[k], good, t),
                forall|j: int| 0 <= j < i ==> has_slot(slots@, order_code(joined(Some((#[trigger] values@[j])@)))),
            decreases values.len() - i,
        {
            let value = join(Some(values[i].copy()));
            let code = encode_order_value(value.as_ref());
            let ghost v = json_view(value);
            let (at, found) = find_slot(&slots, &code);
            let ghost before = slots@;
            if !found {
                proof {
                    let vs = view->0;
                    assert(vs[i as int] == values@[i as int]@);
                    assert(order_code(joined(Some(vs[i as int]))) == code@);
                    assert(named(view, code@));
                    assert forall|j: int| 0 <= j < i implies order_code(joined(Some(#[trigger] vs[j]))) != code@ by {
                        assert(vs[j] == values@[j]@);
                    }
                    assert(names_first(view, i as int, v));
                }
                let count: u64 = self.count_joined(x, &value, Ghost(want), Ghost(good));
                let ghost kept = held;
                let ghost more = held.push(code@);
                if count > 0 {
                    proof {
                        lemma_hold_more(held, slots@, code@, good, by@, view);
                    }
                    if full >= cap {
                        proof {
                            assert(wanted_rows(good, nodes, want) && row_codes(more, good, by@, view) && more.len() > cap);
                        }
                        return Err(FoldError::ScanLimit { max: cap });
                    }
                    full = full + 1;
                    proof {
                        held = more;
                    }
                }
                let init = start();
                proof {
                    let members = good.filter(of_code(by@, code@));
                    assert(folds_to(*step, init, None, members, init));
                }
                let slot = Slot { code: copy_bytes(&code), value, rows: count, state: Some(init) };
                let ghost added = slot;
                slots.insert(at, slot);
                proof {
                    assert(slot_ok(added, good, t));
                    let now = slots@;
                    assert(now =~= before.insert(at as int, added));
                    lemma_insert_slot(before, now, at as int, added);
                    assert forall|k: int| 0 <= k < now.len() implies slot_ok(#[trigger] now[k], good, t) by {
                        if k < at {
                            assert(now[k] == before[k]);
                        } else if k > at {
                            assert(now[k] == before[k - 1]);
                        }
                    }
                    lemma_hold_slot(before, now, at as int, added, kept, held);
                }
            }
            proof {
                assert(has_slot(slots@, order_code(joined(Some(values@[i as int]@)))));
            }
            i = i + 1;
        }
        proof {
            assert forall|code: Seq<u8>| #[trigger] named(view, code) implies has_slot(slots@, code) by {
                let vs = view->0;
                let j = choose|j: int| 0 <= j < vs.len() && order_code(joined(Some(#[trigger] vs[j]))) == code;
                assert(vs[j] == values@[j]@);
            }
            assert(tallied(slots@, good, t));
            assert forall|codes: Seq<Seq<u8>>| #[trigger] row_codes(codes, good, by@, view) implies codes.len() <= cap by {
                assert forall|k: int| 0 <= k < codes.len() implies held.contains(#[trigger] codes[k]) by {
                    assert(has_slot(slots@, codes[k]));
                    let j = choose|j: int| 0 <= j < slots@.len() && (#[trigger] slots@[j]).code@ == codes[k];
                    assert(slot_ok(slots@[j], good, t));
                    let m = choose|m: int| 0 <= m < good.len() && code_of(by@, #[trigger] good[m]) == codes[k];
                    assert(good.contains(good[m]));
                    lemma_filter_has(good, of_code(by@, codes[k]), good[m]);
                }
                lemma_fit(codes, held);
            }
        }
        Ok(close_slots::<A, S, I>(slots, Ghost(t)))
    }

    /// Folds what a query asks for in groups: one for each value of a field,
    /// or for each value asked for.
    pub fn fold_by<
        'q,
        F: Fn(&Filter, &Node) -> Result<bool, String>,
        A,
        S: Fn(A, Option<Json>) -> Result<A, String>,
        I: Fn() -> A,
    >(
        &self,
        q: &Query<'q>,
        by: &str,
        values: Option<&Vec<Json>>,
        name: Option<&str>,
        start: &I,
        step: &S,
        cap: usize,
        eval: &F,
        cache: &mut RecordCache,
    ) -> (r: Result<Vec<Group<A>>, FoldError>)
        requires
            self.inv(),
            old(cache).wf(),
            agrees(old(cache)@, self.heap()),
            evaluates(*eval),
            steps(*step),
            call_requires(*start, ()),
        ensures
            final(cache).wf(),
            agrees(final(cache)@, self.heap()),
            groups_answer(
                r,
                self@.nodes,
                *eval,
                q@,
                by@,
                values_view(values),
                str_view(name),
                *start,
                *step,
                cap as nat,
            ),
    {
        if let Some(list) = values {
            if list.len() > MAX_GROUP_VALUES {
                return Err(FoldError::Values { len: list.len(), max: MAX_GROUP_VALUES });
            }
        }
        if q.filter.is_none() && q.requester.is_none() && q.owner.is_none() && name.is_none() {
            if let Some(kind) = q.kind {
                if let Some(x) = data_find(&self.data, kind, by) {
                    proof {
                        lemma_covers(data_defs(self.data@), kind@, by@);
                    }
                    return match values {
                        Some(list) => self.group_by_values(x, q, by, list, start, step, cap, eval),
                        None => self.group_by_index(x, q, by, start, step, cap, eval, cache),
                    };
                }
            }
        }
        self.group_by_scan(q, by, values, name, start, step, cap, eval, cache)
    }
}

proof fn lemma_insert_slot<A>(before: Seq<Slot<A>>, now: Seq<Slot<A>>, at: int, slot: Slot<A>)
    requires
        sorted_slots(before),
        0 <= at <= before.len(),
        now == before.insert(at, slot),
        forall|i: int| 0 <= i < at ==> bytes_lt((#[trigger] before[i]).code@, slot.code@),
        forall|i: int| at <= i < before.len() ==> bytes_lt(slot.code@, (#[trigger] before[i]).code@),
    ensures
        sorted_slots(now),
        has_slot(now, slot.code@),
        forall|c: Seq<u8>| #[trigger] has_slot(before, c) ==> has_slot(now, c),
{
    assert forall|i: int, j: int| 0 <= i < j < now.len() implies bytes_lt(
        (#[trigger] now[i]).code@,
        (#[trigger] now[j]).code@,
    ) by {
        if j < at {
            assert(now[i] == before[i] && now[j] == before[j]);
        } else if j == at {
            assert(now[i] == before[i]);
        } else if i < at {
            assert(now[i] == before[i] && now[j] == before[j - 1]);
        } else if i == at {
            assert(now[j] == before[j - 1]);
        } else {
            assert(now[i] == before[i - 1] && now[j] == before[j - 1]);
        }
    }
    assert(now[at].code@ == slot.code@);
    assert forall|c: Seq<u8>| #[trigger] has_slot(before, c) implies has_slot(now, c) by {
        let k = choose|k: int| 0 <= k < before.len() && (#[trigger] before[k]).code@ == c;
        if k < at {
            assert(now[k] == before[k]);
        } else {
            assert(now[k + 1] == before[k]);
        }
    }
}

// ---------------------------------------------------------------------
// Laws
// ---------------------------------------------------------------------

/// The nodes in all groups.
pub open spec fn rows_in<A>(groups: Seq<Group<A>>) -> int
    decreases groups.len(),
{
    if groups.len() == 0 {
        0
    } else {
        rows_in(groups.drop_last()) + groups.last().rows
    }
}

/// The members of the first `k` groups.
spec fn members_in<A>(groups: Seq<Group<A>>, rows: Seq<NodeView>, by: Seq<char>, k: int) -> int
    decreases k,
{
    if k <= 0 {
        0
    } else {
        members_in(groups, rows, by, k - 1) + rows.filter(of_code(by, order_code(json_view(groups[k - 1].value)))).len()
    }
}

proof fn lemma_members_in<A>(groups: Seq<Group<A>>, rows: Seq<NodeView>, n: NodeView, by: Seq<char>, k: int)
    requires
        0 <= k <= groups.len(),
        forall|i: int, j: int|
            0 <= i < j < groups.len() ==> bytes_lt(
                order_code(json_view((#[trigger] groups[i]).value)),
                order_code(json_view((#[trigger] groups[j]).value)),
            ),
    ensures
        members_in(groups, rows.push(n), by, k) == members_in(groups, rows, by, k) + (if has_group(
            groups.take(k),
            code_of(by, n),
        ) {
            1int
        } else {
            0
        }),
    decreases k,
{
    let code = code_of(by, n);
    if k > 0 {
        lemma_members_in(groups, rows, n, by, k - 1);
        let last = order_code(json_view(groups[k - 1].value));
        lemma_members_push(rows, n, by, last);
        let init = groups.take(k - 1);
        let full = groups.take(k);
        if code == last {
            assert(full[k - 1] == groups[k - 1]);
            assert(has_group(full, code));
            assert(!has_group(init, code)) by {
                if has_group(init, code) {
                    let i = choose|i: int| 0 <= i < init.len() && order_code(json_view((#[trigger] init[i]).value)) == code;
                    assert(init[i] == groups[i]);
                    assert(bytes_lt(
                        order_code(json_view(groups[i].value)),
                        order_code(json_view(groups[k - 1].value)),
                    ));
                    lemma_lt_total(code, last);
                }
            }
        } else {
            if has_group(init, code) {
                let i = choose|i: int| 0 <= i < init.len() && order_code(json_view((#[trigger] init[i]).value)) == code;
                assert(full[i] == init[i]);
            }
            if has_group(full, code) {
                let i = choose|i: int| 0 <= i < full.len() && order_code(json_view((#[trigger] full[i]).value)) == code;
                assert(i < k - 1) by {
                    assert(full[i] == groups[i]);
                }
                assert(init[i] == full[i]);
            }
        }
    }
}

proof fn lemma_all_members<A>(groups: Seq<Group<A>>, rows: Seq<NodeView>, by: Seq<char>, upto: int)
    requires
        0 <= upto <= rows.len(),
        forall|i: int, j: int|
            0 <= i < j < groups.len() ==> bytes_lt(
                order_code(json_view((#[trigger] groups[i]).value)),
                order_code(json_view((#[trigger] groups[j]).value)),
            ),
        forall|i: int| 0 <= i < rows.len() ==> has_group(groups, code_of(by, #[trigger] rows[i])),
    ensures
        members_in(groups, rows.take(upto), by, groups.len() as int) == upto,
    decreases upto,
{
    let k = groups.len() as int;
    assert(groups.take(k) =~= groups);
    if upto > 0 {
        lemma_all_members(groups, rows, by, upto - 1);
        let init = rows.take(upto - 1);
        assert(rows.take(upto) =~= init.push(rows[upto - 1]));
        lemma_members_in(groups, init, rows[upto - 1], by, k);
    } else {
        assert(rows.take(0) =~= Seq::<NodeView>::empty());
        lemma_no_members(groups, by, k);
    }
}

proof fn lemma_no_members<A>(groups: Seq<Group<A>>, by: Seq<char>, k: int)
    ensures
        members_in(groups, Seq::empty(), by, k) == 0,
    decreases k,
{
    if k > 0 {
        lemma_no_members(groups, by, k - 1);
        reveal(Seq::filter);
    }
}

proof fn lemma_rows_in<A>(groups: Seq<Group<A>>, rows: Seq<NodeView>, by: Seq<char>, k: int)
    requires
        0 <= k <= groups.len(),
        rows.len() <= u64::MAX,
        forall|i: int|
            0 <= i < groups.len() ==> (#[trigger] groups[i]).rows == capped(
                rows.filter(of_code(by, order_code(json_view(groups[i].value)))).len(),
            ),
    ensures
        rows_in(groups.take(k)) == members_in(groups, rows, by, k),
    decreases k,
{
    if k > 0 {
        lemma_rows_in(groups, rows, by, k - 1);
        assert(groups.take(k).drop_last() =~= groups.take(k - 1));
        crate::tables::query::lemma_filter_len(rows, of_code(by, order_code(json_view(groups[k - 1].value))));
    }
}

/// The groups of all values hold as many nodes as are wanted.
pub proof fn lemma_groups_sum<
    F: Fn(&Filter, &Node) -> Result<bool, String>,
    A,
    S: Fn(A, Option<Json>) -> Result<A, String>,
    I: Fn() -> A,
>(
    groups: Vec<Group<A>>,
    count: u64,
    nodes: Nodes,
    eval: F,
    q: QueryView,
    by: Seq<char>,
    name: Option<Seq<char>>,
    start: I,
    step: S,
    cap: nat,
)
    requires
        groups_answer(Ok(groups), nodes, eval, q, by, None, name, start, step, cap),
        is_count(count, nodes, wanted(eval, q)),
        count < u64::MAX,
    ensures
        rows_in(groups@) == count,
{
    let want = wanted(eval, q);
    let rows = choose|rows: Seq<NodeView>| {
        &&& #[trigger] wanted_rows(rows, nodes, want)
        &&& grouped(groups@, rows, by, name, None, start, step)
        &&& forall|codes: Seq<Seq<u8>>| #[trigger] row_codes(codes, rows, by, None) ==> codes.len() <= cap
    };
    let again = choose|rows: Seq<NodeView>| #[trigger] wanted_rows(rows, nodes, want) && count == capped(rows.len());
    law_listing_is_unique(rows, again, nodes, want, RankBy::Address, None, false);
    assert(rows.len() == count);
    assert forall|i: int| 0 <= i < rows.len() implies has_group(groups@, code_of(by, #[trigger] rows[i])) by {
        let code = code_of(by, rows[i]);
        assert(carried(rows, by, code));
        assert(!named(None, code));
    }
    lemma_all_members(groups@, rows, by, rows.len() as int);
    assert(rows.take(rows.len() as int) =~= rows);
    assert forall|i: int| 0 <= i < groups@.len() implies (#[trigger] groups@[i]).rows == capped(
        rows.filter(of_code(by, order_code(json_view(groups@[i].value)))).len(),
    ) by {
        assert(is_group(
            json_view(groups@[i].value),
            groups@[i].rows,
            groups@[i].state,
            rows,
            rows,
            by,
            name,
            None,
            start,
            step,
        ));
    }
    lemma_rows_in(groups@, rows, by, groups@.len() as int);
    assert(groups@.take(groups@.len() as int) =~= groups@);
}

/// Each group counts the nodes wanted that have its value.
pub proof fn lemma_group_counts<
    F: Fn(&Filter, &Node) -> Result<bool, String>,
    A,
    S: Fn(A, Option<Json>) -> Result<A, String>,
    I: Fn() -> A,
>(
    groups: Vec<Group<A>>,
    k: int,
    count: u64,
    nodes: Nodes,
    eval: F,
    q: QueryView,
    pinned: QueryView,
    by: Seq<char>,
    values: Option<Seq<JsonView>>,
    name: Option<Seq<char>>,
    start: I,
    step: S,
    cap: nat,
)
    requires
        groups_answer(Ok(groups), nodes, eval, q, by, values, name, start, step, cap),
        0 <= k < groups@.len(),
        forall|n: NodeView| #[trigger]
            live(nodes, n) ==> (wanted(eval, pinned)(n) <==> wanted(eval, q)(n) && code_of(by, n) == order_code(
                json_view(groups@[k].value),
            )),
        is_count(count, nodes, wanted(eval, pinned)),
    ensures
        groups@[k].rows == count,
{
    let want = wanted(eval, q);
    let want2 = wanted(eval, pinned);
    let v = json_view(groups@[k].value);
    let code = order_code(v);
    let rows = choose|rows: Seq<NodeView>| {
        &&& #[trigger] wanted_rows(rows, nodes, want)
        &&& grouped(groups@, rows, by, name, values, start, step)
        &&& forall|codes: Seq<Seq<u8>>| #[trigger] row_codes(codes, rows, by, values) ==> codes.len() <= cap
    };
    let again = choose|rows: Seq<NodeView>| #[trigger] wanted_rows(rows, nodes, want2) && count == capped(rows.len());
    assert(is_group(v, groups@[k].rows, groups@[k].state, rows, rows, by, name, values, start, step));
    lemma_members_listing(rows, nodes, want, RankBy::Address, by, code);
    let g = both(want, by, code);
    assert forall|n: NodeView| live(nodes, n) implies (#[trigger] g(n) <==> want2(n)) by {}
    lemma_listing_len(
        rows.filter(of_code(by, code)),
        again,
        nodes,
        g,
        want2,
        RankBy::Address,
        RankBy::Address,
        false,
        false,
    );
}

/// The number of nodes wanted is that of the rows of a walk through the pages
/// of the query, in whatever order.
pub proof fn lemma_count_of_walk<F: Fn(&Filter, &Node) -> Result<bool, String>>(
    count: u64,
    pages: Seq<QueryPage>,
    limits: Seq<nat>,
    dbs: Seq<DbView>,
    nodes: Nodes,
    eval: F,
    q: QueryView,
    order: Option<Seq<char>>,
    desc: bool,
    max_offset: nat,
    cap: nat,
)
    requires
        is_count(count, nodes, wanted(eval, q)),
        is_query_walk(pages, limits, dbs, nodes, eval, q, order, desc, None, max_offset, cap),
    ensures
        count == capped(rows_of(pages).len()),
{
    let want = wanted(eval, q);
    let by = rank_by(order_field(order), desc);
    law_walk_lists_each_row_once(pages, limits, dbs, nodes, eval, q, order, desc, None, max_offset, cap);
    let rows = choose|rows: Seq<NodeView>| #[trigger] wanted_rows(rows, nodes, want) && count == capped(rows.len());
    lemma_listing_len(rows_of(pages), rows, nodes, want, want, by, RankBy::Address, desc, false);
}

/// There is one number of nodes wanted.
pub proof fn lemma_one_count(a: u64, b: u64, nodes: Nodes, want: spec_fn(NodeView) -> bool)
    requires
        is_count(a, nodes, want),
        is_count(b, nodes, want),
    ensures
        a == b,
{
    let x = choose|rows: Seq<NodeView>| #[trigger] wanted_rows(rows, nodes, want) && a == capped(rows.len());
    let y = choose|rows: Seq<NodeView>| #[trigger] wanted_rows(rows, nodes, want) && b == capped(rows.len());
    law_listing_is_unique(x, y, nodes, want, RankBy::Address, None, false);
}

spec fn ascend(codes: Seq<Seq<u8>>) -> bool {
    forall|i: int, j: int| 0 <= i < j < codes.len() ==> bytes_lt(#[trigger] codes[i], #[trigger] codes[j])
}

/// Ascending codes are told by which they are.
proof fn lemma_one_ascent(x: Seq<Seq<u8>>, y: Seq<Seq<u8>>)
    requires
        ascend(x),
        ascend(y),
        forall|c: Seq<u8>| x.contains(c) <==> #[trigger] y.contains(c),
    ensures
        x == y,
    decreases x.len(),
{
    if x.len() == 0 {
        if y.len() > 0 {
            assert(y.contains(y[0]));
        }
        assert(x =~= y);
    } else {
        assert(x.contains(x.last()));
        assert(y.contains(x.last()));
        let j = choose|j: int| 0 <= j < y.len() && y[j] == x.last();
        assert(y.contains(y.last()));
        let i = choose|i: int| 0 <= i < x.len() && x[i] == y.last();
        if i < x.len() - 1 {
            assert(bytes_lt(x[i], x[x.len() - 1]));
            if j < y.len() - 1 {
                assert(bytes_lt(y[j], y[y.len() - 1]));
            }
            lemma_lt_total(x.last(), y.last());
        }
        assert(x.last() == y.last());
        let a = x.drop_last();
        let b = y.drop_last();
        assert forall|c: Seq<u8>| a.contains(c) <==> #[trigger] b.contains(c) by {
            lemma_but_last(x, c);
            lemma_but_last(y, c);
            assert(x.contains(c) <==> y.contains(c));
        }
        lemma_one_ascent(a, b);
        assert(x =~= a.push(x.last()));
        assert(y =~= b.push(y.last()));
    }
}

proof fn lemma_but_last(x: Seq<Seq<u8>>, c: Seq<u8>)
    requires
        ascend(x),
        x.len() > 0,
    ensures
        x.drop_last().contains(c) <==> x.contains(c) && c != x.last(),
{
    let a = x.drop_last();
    if a.contains(c) {
        let i = choose|i: int| 0 <= i < a.len() && a[i] == c;
        assert(x[i] == c);
        assert(bytes_lt(x[i], x[x.len() - 1]));
        lemma_lt_total(c, x.last());
    }
    if x.contains(c) && c != x.last() {
        let i = choose|i: int| 0 <= i < x.len() && x[i] == c;
        assert(a[i] == c);
    }
}

spec fn codes_in<A>(groups: Seq<Group<A>>) -> Seq<Seq<u8>> {
    groups.map_values(|g: Group<A>| order_code(json_view(g.value)))
}

/// The two lists have groups of the same values, which count the same.
pub open spec fn same_groups<A>(a: Seq<Group<A>>, b: Seq<Group<A>>) -> bool {
    &&& a.len() == b.len()
    &&& forall|i: int|
        0 <= i < a.len() ==> order_code(json_view((#[trigger] a[i]).value)) == order_code(json_view(b[i].value))
            && a[i].rows == b[i].rows
}

proof fn lemma_codes_in<A, S: Fn(A, Option<Json>) -> Result<A, String>, I: Fn() -> A>(
    groups: Seq<Group<A>>,
    rows: Seq<NodeView>,
    by: Seq<char>,
    name: Option<Seq<char>>,
    values: Option<Seq<JsonView>>,
    start: I,
    step: S,
    code: Seq<u8>,
)
    requires
        grouped(groups, rows, by, name, values, start, step),
    ensures
        codes_in(groups).contains(code) <==> named(values, code) || (carried(rows, by, code) && asked_for(values, code)),
{
    let codes = codes_in(groups);
    if codes.contains(code) {
        let i = choose|i: int| 0 <= i < codes.len() && codes[i] == code;
        let v = json_view(groups[i].value);
        assert(order_code(v) == code);
        assert(is_group(v, groups[i].rows, groups[i].state, rows, rows, by, name, values, start, step));
        if leads(v, rows, by) && !carried(rows, by, code) {
            lemma_not_carried(rows, by, code);
        }
    }
    if named(values, code) || (carried(rows, by, code) && asked_for(values, code)) {
        assert(has_group(groups, code));
        let i = choose|i: int| 0 <= i < groups.len() && order_code(json_view((#[trigger] groups[i]).value)) == code;
        assert(codes[i] == code);
    }
}

/// There is one list of groups: whichever way they are found, the values and
/// counts are the same, and they are found one way where they are the other.
pub proof fn lemma_one_grouping<
    F: Fn(&Filter, &Node) -> Result<bool, String>,
    A,
    S: Fn(A, Option<Json>) -> Result<A, String>,
    I: Fn() -> A,
>(
    one: Vec<Group<A>>,
    other: Result<Vec<Group<A>>, FoldError>,
    nodes: Nodes,
    eval: F,
    q: QueryView,
    by: Seq<char>,
    values: Option<Seq<JsonView>>,
    start: I,
    step: S,
    cap: nat,
)
    requires
        groups_answer(Ok(one), nodes, eval, q, by, values, None, start, step, cap),
        groups_answer(other, nodes, eval, q, by, values, None, start, step, cap),
    ensures
        other is Ok,
        same_groups(one@, other->Ok_0@),
{
    let want = wanted(eval, q);
    let rows = choose|rows: Seq<NodeView>| {
        &&& #[trigger] wanted_rows(rows, nodes, want)
        &&& grouped(one@, rows, by, None, values, start, step)
        &&& forall|codes: Seq<Seq<u8>>| #[trigger] row_codes(codes, rows, by, values) ==> codes.len() <= cap
    };
    if other is Err && other->Err_0 is ScanLimit {
        let (more, codes) = choose|more: Seq<NodeView>, codes: Seq<Seq<u8>>|
            #[trigger] wanted_rows(more, nodes, want) && #[trigger] row_codes(codes, more, by, values) && codes.len() > cap;
        law_listing_is_unique(rows, more, nodes, want, RankBy::Address, None, false);
    }
    let list = other->Ok_0;
    let again = choose|rows: Seq<NodeView>| {
        &&& #[trigger] wanted_rows(rows, nodes, want)
        &&& grouped(list@, rows, by, None, values, start, step)
        &&& forall|codes: Seq<Seq<u8>>| #[trigger] row_codes(codes, rows, by, values) ==> codes.len() <= cap
    };
    law_listing_is_unique(rows, again, nodes, want, RankBy::Address, None, false);
    let a = codes_in(one@);
    let b = codes_in(list@);
    assert forall|c: Seq<u8>| a.contains(c) <==> #[trigger] b.contains(c) by {
        lemma_codes_in(one@, rows, by, None, values, start, step, c);
        lemma_codes_in(list@, rows, by, None, values, start, step, c);
    }
    assert forall|i: int, j: int| 0 <= i < j < a.len() implies bytes_lt(#[trigger] a[i], #[trigger] a[j]) by {
        assert(a[i] == order_code(json_view(one@[i].value)) && a[j] == order_code(json_view(one@[j].value)));
    }
    assert forall|i: int, j: int| 0 <= i < j < b.len() implies bytes_lt(#[trigger] b[i], #[trigger] b[j]) by {
        assert(b[i] == order_code(json_view(list@[i].value)) && b[j] == order_code(json_view(list@[j].value)));
    }
    lemma_one_ascent(a, b);
    assert(a.len() == b.len());
    assert forall|i: int| 0 <= i < one@.len() implies order_code(json_view((#[trigger] one@[i]).value)) == order_code(
        json_view(list@[i].value),
    ) && one@[i].rows == list@[i].rows by {
        assert(a[i] == b[i]);
        let x = one@[i];
        let y = list@[i];
        assert(is_group(json_view(x.value), x.rows, x.state, rows, rows, by, None, values, start, step));
        assert(is_group(json_view(y.value), y.rows, y.state, rows, rows, by, None, values, start, step));
    }
}

} // verus!
